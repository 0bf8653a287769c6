//! Carry-less multiplication over 128-bit values: the arithmetic primitive
//! of the folding engine in `simd`, implemented in software and verified
//! against a bit-level model of multiplication over GF(2).
use vstd::prelude::*;

verus! {

// The first `n` partial products of a carry-less multiplication.
pub open spec fn clmul_bits(a: u64, b: u64, n: nat) -> u128
    decreases n,
{
    if n == 0 {
        0
    } else {
        clmul_bits(a, b, (n - 1) as nat) ^ (if (b >> ((n - 1) as u64)) & 1 == 1 {
            (a as u128) << ((n - 1) as u128)
        } else {
            0
        })
    }
}

/// Carry-less product of two 64-bit values: the XOR, over every set bit of
/// `b`, of `a` shifted left by that bit's position.
pub open spec fn clmul_spec(a: u64, b: u64) -> u128 {
    clmul_bits(a, b, 64)
}

/// The low 64 bits of a 128-bit value.
pub open spec fn lo64(x: u128) -> u64 {
    x as u64
}

/// The high 64 bits of a 128-bit value.
pub open spec fn hi64(x: u128) -> u64 {
    (x >> 64) as u64
}

/// One folding step over a 128-bit lane: the carry-less products of its two
/// halves with the two folding coefficients, XORed with an incoming lane.
pub open spec fn fold16s(x: u128, klo: u64, khi: u64, v: u128) -> u128 {
    clmul_spec(lo64(x), klo) ^ clmul_spec(hi64(x), khi) ^ v
}

// Recombining the halves of a 128-bit value, and XORing into one half.
proof fn lemma_bv_halves(x: u128, y: u128, a: u64, b: u64)
    by (bit_vector)
    ensures
        ((x as u64) as u128) | ((((x >> 64) as u64) as u128) << 64) == x,
        ((a ^ b) as u128) | (y << 64) == ((a as u128) | (y << 64)) ^ (b as u128),
        x ^ 0 == x,
        ((a as u128) | ((b as u128) << 64)) as u64 == a,
        (((a as u128) | ((b as u128) << 64)) >> 64) as u64 == b,
{
}

/// Carry-less multiplication of two 64-bit values into a 128-bit product.
pub fn clmul(a: u64, b: u64) -> (r: u128)
    ensures
        r == clmul_spec(a, b),
{
    let mut r: u128 = 0;
    let mut i: u64 = 0;
    while i < 64
        invariant
            i <= 64,
            r == clmul_bits(a, b, i as nat),
        decreases 64 - i,
    {
        if (b >> i) & 1 == 1 {
            r = r ^ ((a as u128) << (i as u128));
        } else {
            proof {
                lemma_bv_halves(r, 0, 0, 0);
            }
        }
        i += 1;
    }
    r
}

/// A 128-bit lane of the folding engine, as two 64-bit halves.
#[derive(Clone, Copy, Debug)]
pub struct Value {
    pub lo: u64,
    pub hi: u64,
}

impl Value {
    /// The 128-bit value this lane holds.
    pub open spec fn value(self) -> u128 {
        (self.lo as u128) | ((self.hi as u128) << 64)
    }

    /// A lane from its two halves.
    pub fn new(lo: u64, hi: u64) -> (r: Self)
        ensures
            r.lo == lo,
            r.hi == hi,
    {
        Value { lo, hi }
    }

    // A lane from a 128-bit value.
    fn from_u128(x: u128) -> (r: Self)
        ensures
            r.value() == x,
            r.lo == lo64(x),
            r.hi == hi64(x),
    {
        proof {
            lemma_bv_halves(x, 0, 0, 0);
        }
        Value { lo: x as u64, hi: (x >> 64) as u64 }
    }

    // The 128-bit value of this lane.
    fn to_u128(self) -> (r: u128)
        ensures
            r == self.value(),
    {
        (self.lo as u128) | ((self.hi as u128) << 64)
    }

    /// XOR a 64-bit value into the low half.
    pub fn xor(self, value: u64) -> (r: Self)
        ensures
            r.value() == self.value() ^ (value as u128),
            r.lo == self.lo ^ value,
            r.hi == self.hi,
    {
        proof {
            lemma_bv_halves(0, self.hi as u128, self.lo, value);
        }
        Value { lo: self.lo ^ value, hi: self.hi }
    }

    /// One 128-bit fold: the carry-less products of this lane's halves with
    /// the two folding coefficients, XORed with the incoming lane.
    pub fn fold_16(self, x_mod_p: Self, value: Self) -> (r: Self)
        ensures
            r.value() == fold16s(self.value(), x_mod_p.lo, x_mod_p.hi, value.value()),
    {
        proof {
            lemma_bv_halves(0, 0, self.lo, self.hi);
        }
        let t1 = clmul(self.lo, x_mod_p.lo);
        let t2 = clmul(self.hi, x_mod_p.hi);
        Self::from_u128(t1 ^ t2 ^ value.to_u128())
    }

    /// Fold the high half down by eight bytes.
    pub fn fold_8(self, x_mod_p: Self) -> (r: Self)
        ensures
            r.value() == clmul_spec(lo64(self.value()), x_mod_p.hi) ^ (self.value() >> 64),
    {
        proof {
            lemma_bv_halves(0, 0, self.lo, self.hi);
        }
        let t = clmul(self.lo, x_mod_p.hi);
        Self::from_u128(t ^ (self.to_u128() >> 64))
    }

    /// Fold the value down by four bytes.
    pub fn fold_4(self, x_mod_p: Self) -> (r: Self)
        ensures
            r.value() == clmul_spec((self.value() & 0xFFFF_FFFF) as u64, x_mod_p.lo) ^ (
            self.value() >> 32),
    {
        let v = self.to_u128();
        let t = clmul((v & 0xFFFF_FFFF) as u64, x_mod_p.lo);
        Self::from_u128(t ^ (v >> 32))
    }

    /// Barrett reduction of the folded value to a 32-bit remainder, with the
    /// reduction polynomial in the low half of `px_u` and the precomputed
    /// quotient constant in its high half.
    pub fn barret_reduction_32(self, px_u: Self) -> (r: u32)
        ensures
            ({
                let t1 = clmul_spec((self.value() & 0xFFFF_FFFF) as u64, px_u.hi);
                let t2 = clmul_spec((t1 & 0xFFFF_FFFF) as u64, px_u.lo);
                r == ((self.value() ^ t2) >> 32) as u32
            }),
    {
        let v = self.to_u128();
        let t1 = clmul((v & 0xFFFF_FFFF) as u64, px_u.hi);
        let t2 = clmul((t1 & 0xFFFF_FFFF) as u64, px_u.lo);
        ((v ^ t2) >> 32) as u32
    }
}

} // verus!
