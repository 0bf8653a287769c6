//! The carry-less-multiplication folding engine for reflected 32-bit
//! algorithms: precomputed folding coefficients derived from the polynomial
//! by repeated doubling-and-reduce, and the 64-byte-block folding update
//! finished by Barrett reduction.
use vstd::prelude::*;

verus! {

use crate::clmul::{clmul_spec, fold16s, lo64, Value};

// Doubling-and-reduce iterated `i` times from `x^31`: the running
// remainder while computing a power of `x` modulo the 33-bit polynomial
// `x^32 + px`.
pub open spec fn xt_iter(px: u64, i: nat) -> u64
    decreases i,
{
    if i == 0 {
        0x8000_0000
    } else {
        let m = xt_iter(px, (i - 1) as nat) << 1;
        if m & 0x1_0000_0000 != 0 {
            m ^ px
        } else {
            m
        }
    }
}

/// `x^t mod P(x)` over GF(2), in the top half of a 64-bit word, for the
/// 33-bit polynomial `x^32 + px`.
pub open spec fn xt_mod_px_spec(t: u32, px: u64) -> u64 {
    if t < 32 {
        0
    } else {
        xt_iter(px, (t - 31) as nat) << 32
    }
}

// One long-division step of `x^64 / P(x)`: the quotient and remainder so
// far.
pub open spec fn u_iter(px: u64, i: nat) -> (u64, u64)
    decreases i,
{
    if i == 0 {
        (0, 0x1_0000_0000)
    } else {
        let qn = u_iter(px, (i - 1) as nat);
        let q1 = qn.0 << 1;
        if qn.1 & 0x1_0000_0000 != 0 {
            (q1 | 1, (qn.1 ^ px) << 1)
        } else {
            (q1, qn.1 << 1)
        }
    }
}

/// The Barrett constant: the quotient of `x^64 / P(x)` over GF(2).
pub open spec fn u_spec(px: u64) -> u64 {
    u_iter(px, 33).0
}

// `x^t mod P(x)` by repeated doubling-and-reduce.
fn xt_mod_px(t: u32, px: u64) -> (r: u64)
    ensures
        r == xt_mod_px_spec(t, px),
{
    if t < 32 {
        return 0;
    }
    let steps = t - 31;
    let mut n: u64 = 0x8000_0000;
    let mut i: u32 = 0;
    while i < steps
        invariant
            i <= steps,
            n == xt_iter(px, i as nat),
        decreases steps - i,
    {
        n = n << 1;
        if n & 0x1_0000_0000 != 0 {
            n = n ^ px;
        }
        i += 1;
    }
    n << 32
}

// The quotient of `x^64 / P(x)` by long division.
fn barrett_u(px: u64) -> (r: u64)
    ensures
        r == u_spec(px),
{
    let mut q: u64 = 0;
    let mut n: u64 = 0x1_0000_0000;
    let mut i: u32 = 0;
    while i < 33
        invariant
            i <= 33,
            q == u_iter(px, i as nat).0,
            n == u_iter(px, i as nat).1,
        decreases 33 - i,
    {
        q = q << 1;
        if n & 0x1_0000_0000 != 0 {
            q = q | 1;
            n = n ^ px;
        }
        n = n << 1;
        i += 1;
    }
    q
}

/// The four coefficient lanes of the folding engine for a polynomial: fold
/// distances of 512, 128, 64 and 32 bits, then the reflected polynomial and
/// its Barrett constant.
pub open spec fn coeff_ok(c: Seq<Value>, width: u8, poly: u32) -> bool {
    let px = (poly as u64) << ((32 - width) as u64);
    &&& c.len() == 4
    &&& c[0].lo == crate::crc64::reflect_spec(xt_mod_px_spec(544, px), 64) << 1
    &&& c[0].hi == crate::crc64::reflect_spec(xt_mod_px_spec(480, px), 64) << 1
    &&& c[1].lo == crate::crc64::reflect_spec(xt_mod_px_spec(160, px), 64) << 1
    &&& c[1].hi == crate::crc64::reflect_spec(xt_mod_px_spec(96, px), 64) << 1
    &&& c[2].lo == crate::crc64::reflect_spec(xt_mod_px_spec(64, px), 64) << 1
    &&& c[2].hi == crate::crc64::reflect_spec(xt_mod_px_spec(32, px), 64) << 1
    &&& c[3].lo == crate::crc64::reflect_spec(px, 64) >> 31
    &&& c[3].hi == crate::crc64::reflect_spec(u_spec(px), 64) >> 31
}

/// The folding coefficients for a reflected CRC of at most 32 bits.
pub fn crc32_coeff(width: u8, poly: u32) -> (c: Vec<Value>)
    requires
        1 <= width <= 32,
    ensures
        coeff_ok(c@, width, poly),
{
    let px = (poly as u64) << ((32 - width) as u64);
    let mut c: Vec<Value> = Vec::new();
    c.push(
        Value::new(
            crate::crc64::reflect(xt_mod_px(544, px), 64) << 1,
            crate::crc64::reflect(xt_mod_px(480, px), 64) << 1,
        ),
    );
    c.push(
        Value::new(
            crate::crc64::reflect(xt_mod_px(160, px), 64) << 1,
            crate::crc64::reflect(xt_mod_px(96, px), 64) << 1,
        ),
    );
    c.push(
        Value::new(
            crate::crc64::reflect(xt_mod_px(64, px), 64) << 1,
            crate::crc64::reflect(xt_mod_px(32, px), 64) << 1,
        ),
    );
    c.push(
        Value::new(
            crate::crc64::reflect(px, 64) >> 31,
            crate::crc64::reflect(barrett_u(px), 64) >> 31,
        ),
    );
    c
}

/// The 128-bit values of a sequence of lanes.
pub open spec fn lane_vals(c: Seq<Value>) -> Seq<u128> {
    Seq::new(c.len(), |i: int| c[i].value())
}

/// The lane values of each 64-byte chunk.
pub open spec fn chunks_vals(cs: Seq<Vec<Value>>) -> Seq<Seq<u128>> {
    Seq::new(cs.len(), |i: int| lane_vals(cs[i]@))
}

// One 64-byte chunk folded into the four running lanes.
pub open spec fn fold_block(klo: u64, khi: u64, x4: Seq<u128>, c: Seq<u128>) -> Seq<u128> {
    Seq::new(4, |j: int| fold16s(x4[j], klo, khi, c[j]))
}

/// Every chunk folded in turn into the four running lanes.
pub open spec fn fold_chunks(klo: u64, khi: u64, x4: Seq<u128>, chunks: Seq<Seq<u128>>) -> Seq<
    u128,
>
    decreases chunks.len(),
{
    if chunks.len() == 0 {
        x4
    } else {
        fold_chunks(klo, khi, fold_block(klo, khi, x4, chunks[0]), chunks.skip(1))
    }
}

// Folding one more chunk at the end.
proof fn lemma_fold_chunks_push(klo: u64, khi: u64, x4: Seq<u128>, chunks: Seq<Seq<u128>>, c: Seq<
    u128,
>)
    ensures
        fold_chunks(klo, khi, x4, chunks.push(c)) == fold_block(
            klo,
            khi,
            fold_chunks(klo, khi, x4, chunks),
            c,
        ),
    decreases chunks.len(),
{
    if chunks.len() == 0 {
        assert(chunks.push(c)[0] == c);
        assert(chunks.push(c).skip(1) =~= Seq::<Seq<u128>>::empty());
        assert(fold_chunks(klo, khi, fold_block(klo, khi, x4, c), Seq::<Seq<u128>>::empty())
            == fold_block(klo, khi, x4, c));
    } else {
        assert(chunks.push(c)[0] == chunks[0]);
        assert(chunks.push(c).skip(1) =~= chunks.skip(1).push(c));
        lemma_fold_chunks_push(klo, khi, fold_block(klo, khi, x4, chunks[0]), chunks.skip(1), c);
    }
}

/// The reduction of the four folded lanes to one 32-bit value: the lanes
/// combined at distance 128, then 64- and 32-bit folds and Barrett
/// reduction.
pub open spec fn reduce_spec(coeff: Seq<Value>, x4: Seq<u128>) -> u32 {
    let x1 = fold16s(x4[0], coeff[1].lo, coeff[1].hi, x4[1]);
    let x2 = fold16s(x1, coeff[1].lo, coeff[1].hi, x4[2]);
    let x3 = fold16s(x2, coeff[1].lo, coeff[1].hi, x4[3]);
    let x8 = clmul_spec(lo64(x3), coeff[1].hi) ^ (x3 >> 64);
    let x4v = clmul_spec((x8 & 0xFFFF_FFFF) as u64, coeff[2].lo) ^ (x8 >> 32);
    let t1 = clmul_spec((x4v & 0xFFFF_FFFF) as u64, coeff[3].hi);
    let t2 = clmul_spec((t1 & 0xFFFF_FFFF) as u64, coeff[3].lo);
    ((x4v ^ t2) >> 32) as u32
}

/// What the folding update computes: the first chunk seeded with the running
/// CRC, every further chunk folded at distance 512, then the reduction.
pub open spec fn update_refin_spec(
    crc: u32,
    coeff: Seq<Value>,
    first: Seq<Value>,
    chunks: Seq<Seq<u128>>,
) -> u32 {
    let x40 = lane_vals(first).update(0, first[0].value() ^ (crc as u128));
    reduce_spec(coeff, fold_chunks(coeff[0].lo, coeff[0].hi, x40, chunks))
}

/// The folding update for a reflected CRC: one 64-byte first chunk, any
/// number of further 64-byte chunks.
pub fn crc32_update_refin(
    crc: u32,
    coeff: &Vec<Value>,
    first_chunk: &Vec<Value>,
    chunks: &Vec<Vec<Value>>,
) -> (r: u32)
    requires
        coeff@.len() == 4,
        first_chunk@.len() == 4,
        forall|i: int| 0 <= i < chunks@.len() ==> (#[trigger] chunks@[i])@.len() == 4,
    ensures
        r == update_refin_spec(crc, coeff@, first_chunk@, chunks_vals(chunks@)),
{
    let ghost x40 = lane_vals(first_chunk@).update(0, first_chunk@[0].value() ^ (crc as u128));
    let ghost cvs = chunks_vals(chunks@);
    let k1_k2 = coeff[0];

    let mut x0 = first_chunk[0];
    let mut x1 = first_chunk[1];
    let mut x2 = first_chunk[2];
    let mut x3 = first_chunk[3];
    x0 = x0.xor(crc as u64);
    proof {
        assert(x0.value() == x40[0]);
        assert(x1.value() == x40[1]);
        assert(x2.value() == x40[2]);
        assert(x3.value() == x40[3]);
        assert(cvs.take(0) =~= Seq::<Seq<u128>>::empty());
    }
    let mut ci: usize = 0;
    while ci < chunks.len()
        invariant
            ci <= chunks@.len(),
            coeff@.len() == 4,
            k1_k2 == coeff@[0],
            forall|i: int| 0 <= i < chunks@.len() ==> (#[trigger] chunks@[i])@.len() == 4,
            cvs == chunks_vals(chunks@),
            fold_chunks(k1_k2.lo, k1_k2.hi, x40, cvs.take(ci as int)).len() == 4,
            x0.value() == fold_chunks(k1_k2.lo, k1_k2.hi, x40, cvs.take(ci as int))[0],
            x1.value() == fold_chunks(k1_k2.lo, k1_k2.hi, x40, cvs.take(ci as int))[1],
            x2.value() == fold_chunks(k1_k2.lo, k1_k2.hi, x40, cvs.take(ci as int))[2],
            x3.value() == fold_chunks(k1_k2.lo, k1_k2.hi, x40, cvs.take(ci as int))[3],
        decreases chunks@.len() - ci,
    {
        let chunk = &chunks[ci];
        proof {
            assert(cvs.take(ci + 1) =~= cvs.take(ci as int).push(lane_vals(chunks@[ci as int]@)));
            lemma_fold_chunks_push(
                k1_k2.lo,
                k1_k2.hi,
                x40,
                cvs.take(ci as int),
                lane_vals(chunks@[ci as int]@),
            );
        }
        x0 = x0.fold_16(k1_k2, chunk[0]);
        x1 = x1.fold_16(k1_k2, chunk[1]);
        x2 = x2.fold_16(k1_k2, chunk[2]);
        x3 = x3.fold_16(k1_k2, chunk[3]);
        ci += 1;
    }
    proof {
        assert(cvs.take(cvs.len() as int) =~= cvs);
    }

    let k3_k4 = coeff[1];
    let mut x = x0.fold_16(k3_k4, x1);
    x = x.fold_16(k3_k4, x2);
    x = x.fold_16(k3_k4, x3);

    let k5_k6 = coeff[2];
    x = x.fold_8(k3_k4);
    x = x.fold_4(k5_k6);

    let px_u = coeff[3];
    x.barret_reduction_32(px_u)
}


} // verus!
