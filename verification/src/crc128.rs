//! CRC computation over a 128-bit register: the specification model (one
//! polynomial-division step, one byte, a byte sequence), bit reflection, and
//! the update strategies, all proved against the same model.
use vstd::prelude::*;

verus! {

use crate::Algorithm;
use crate::Implementation;

// ---------------------------------------------------------------------------
// Specification model
// ---------------------------------------------------------------------------

/// One polynomial-division step, LSB first (reflected direction).
pub open spec fn step_ref(poly: u128, v: u128) -> u128 {
    if v & 1 == 1 {
        (v >> 1) ^ poly
    } else {
        v >> 1
    }
}

/// One polynomial-division step, MSB first (natural direction).
pub open spec fn step_fwd(poly: u128, v: u128) -> u128 {
    if (v >> 127) & 1 == 1 {
        (v << 1) ^ poly
    } else {
        v << 1
    }
}

/// Eight LSB-first division steps: one byte's worth of division.
pub open spec fn div8_ref(poly: u128, v: u128) -> u128 {
    step_ref(poly, step_ref(poly, step_ref(poly, step_ref(poly,
    step_ref(poly, step_ref(poly, step_ref(poly, step_ref(poly, v))))))))
}

/// Eight MSB-first division steps.
pub open spec fn div8_fwd(poly: u128, v: u128) -> u128 {
    step_fwd(poly, step_fwd(poly, step_fwd(poly, step_fwd(poly,
    step_fwd(poly, step_fwd(poly, step_fwd(poly, step_fwd(poly, v))))))))
}

/// What `util::crc128` computes: one byte's worth of polynomial division,
/// with the value pre-shifted to the top of the register in the natural
/// direction.
pub open spec fn crc128_spec(poly: u128, reflect: bool, value: u128) -> u128 {
    if reflect {
        div8_ref(poly, value)
    } else {
        div8_fwd(poly, value << 120)
    }
}

/// Bit reversal of the low `w` bits of `v`; bits at or above `w` are dropped.
pub open spec fn reflect_spec(v: u128, w: nat) -> u128
    decreases w,
{
    if w == 0 {
        0
    } else {
        reflect_spec(v >> 1, (w - 1) as nat) | ((v & 1) << ((w - 1) as u128))
    }
}

/// `v` occupies only the low `w` bits.
pub open spec fn fits(v: u128, w: u8) -> bool {
    w >= 128 || v >> (w as u128) == 0
}

/// `v` occupies only the high `w` bits (its low `128 - w` bits are zero).
pub open spec fn aligned(v: u128, w: u8) -> bool {
    w >= 128 || v << (w as u128) == 0
}

/// The polynomial in the register form used by every update strategy:
/// reflected into the low `width` bits, or shifted into the top `width` bits.
pub open spec fn adjusted_poly(width: u8, poly: u128, reflect: bool) -> u128 {
    if reflect {
        reflect_spec(poly, width as nat)
    } else {
        poly << ((128 - width) as u128)
    }
}

/// Folding one input byte into the running register value.
pub open spec fn update_byte(poly: u128, reflect: bool, crc: u128, b: u8) -> u128 {
    if reflect {
        crc128_spec(poly, true, (crc ^ (b as u128)) & 0xFF) ^ (crc >> 8)
    } else {
        crc128_spec(poly, false, ((crc >> 120) ^ (b as u128)) & 0xFF) ^ (crc << 8)
    }
}

/// Folding a byte sequence into the running register value, front to back.
/// Every update strategy is proved to compute exactly this function.
pub open spec fn update_bytes(poly: u128, reflect: bool, crc: u128, bytes: Seq<u8>) -> u128
    decreases bytes.len(),
{
    if bytes.len() == 0 {
        crc
    } else {
        update_bytes(poly, reflect, update_byte(poly, reflect, crc, bytes[0]), bytes.skip(1))
    }
}

/// The parameters make sense for a 128-bit register: the width is in range
/// and the named values occupy only `width` bits. Besides the polynomial,
/// this also confines `init` and `xorout`: the initial value seeds a
/// register of `width` significant bits, and the final XOR lands on the
/// compacted result, so bits above the width in either would leak into
/// every checksum.
pub open spec fn algorithm_valid(alg: Algorithm<u128>) -> bool {
    &&& 1 <= alg.width <= 128
    &&& fits(alg.poly, alg.width)
    &&& fits(alg.init, alg.width)
    &&& fits(alg.xorout, alg.width)
}

/// The register value before the first input byte.
pub open spec fn init_spec(alg: Algorithm<u128>, initial: u128) -> u128 {
    if alg.refin {
        reflect_spec(initial, alg.width as nat)
    } else {
        initial << ((128 - alg.width) as u128)
    }
}

/// Output reflection, width compaction and the final XOR.
pub open spec fn finalize_spec(alg: Algorithm<u128>, crc: u128) -> u128 {
    let c1 = if alg.refin != alg.refout {
        reflect_spec(crc, 128)
    } else {
        crc
    };
    let c2 = if !alg.refout {
        c1 >> ((128 - alg.width) as u128)
    } else {
        c1
    };
    c2 ^ alg.xorout
}

/// The register stays in the part of the register an algorithm uses:
/// the low `width` bits when reflected, the high `width` bits otherwise.
pub open spec fn in_register(alg: Algorithm<u128>, v: u128) -> bool {
    if alg.refin {
        fits(v, alg.width)
    } else {
        aligned(v, alg.width)
    }
}

/// The one-shot checksum: initialize, fold every byte, finalize.
pub open spec fn checksum_spec(alg: Algorithm<u128>, bytes: Seq<u8>) -> u128 {
    finalize_spec(
        alg,
        update_bytes(
            adjusted_poly(alg.width, alg.poly, alg.refin),
            alg.refin,
            init_spec(alg, alg.init),
            bytes,
        ),
    )
}

// ---------------------------------------------------------------------------
// Bit reflection
// ---------------------------------------------------------------------------

/// Bit reversal of the low `width` bits of `value`.
pub fn reflect(value: u128, width: u8) -> (r: u128)
    requires
        width <= 128,
    ensures
        r == reflect_spec(value, width as nat),
    decreases width,
{
    if width == 0 {
        0
    } else {
        reflect(value >> 1, width - 1) | ((value & 1) << ((width - 1) as u128))
    }
}

// The bit-level facts the reflection lemmas need, with every application of
// the recursive `reflect_spec` passed in as an opaque value.
#[verifier::rlimit(100)]
proof fn lemma_bv_reflect(x: u128, y: u128, v: u128, w: u128, k: u128)
    by (bit_vector)
    ensures
        0u128 >> w == 0,
        v >> 0 == v,
        (1 <= w <= 128 && w < 128 && x >> ((w - 1) as u128) == 0) ==> (x | ((v & 1) << ((w
            - 1) as u128))) >> w == 0,
        (2 <= w <= 128 && x >> ((w - 2) as u128) == 0) ==> ((x | ((v & 1) << ((w - 2) as u128))) << 1)
            == ((x << 1) | ((v & 1) << ((w - 1) as u128))),
        1 <= w <= 128 ==> ((x | y) >> 1 == (x >> 1) | (y >> 1) && (((x | y) & 1) << ((w
            - 1) as u128)) == ((x & 1) << ((w - 1) as u128)) | ((y & 1) << ((w - 1) as u128))),
        1 <= w <= 128 ==> (x | y) | (((v & 1) << ((w - 1) as u128)) | ((k & 1) << ((w - 1) as u128)))
            == (x | ((v & 1) << ((w - 1) as u128))) | (y | ((k & 1) << ((w - 1) as u128))),
        (2 <= w <= 128) ==> ((v & 1) << ((w - 1) as u128)) >> 1 == (v & 1) << ((w - 2) as u128),
        (2 <= w <= 128) ==> ((v & 1) << ((w - 1) as u128)) & 1 == 0,
        (1 <= k && k <= w && w <= 128 && v >> ((w - k) as u128) == 0) ==> ((v << k) >> 1 == v << ((k
            - 1) as u128) && (v << k) & 1 == 0),
        ((v >> 1) << 1) | (v & 1) == v,
        (v & 1) >> 1 == 0,
        (v & 1) & 1 == v & 1,
        x << 0 == x,
        x | 0 == x,
        0 | x == x,
        x | y == y | x,
        0u128 & 1 == 0,
        0u128 >> 1 == 0,
        (1 <= w <= 128) ==> 0u128 << ((w - 1) as u128) == 0,
        0u128 << 1 == 0,
{
}

/// The reflection of a `w`-bit value occupies only the low `w` bits.
pub proof fn lemma_reflect_bound(v: u128, w: nat)
    requires
        w <= 128,
    ensures
        fits(reflect_spec(v, w), w as u8),
    decreases w,
{
    if w == 0 {
        lemma_bv_reflect(0, 0, 0, w as u128, 0);
    } else if w < 128 {
        lemma_reflect_bound(v >> 1, (w - 1) as nat);
        let x = reflect_spec(v >> 1, (w - 1) as nat);
        if w >= 2 {
            lemma_bv_reflect(x, 0, v, w as u128, 0);
        } else {
            lemma_bv_reflect(x, 0, v, 1, 0);
            assert(x == 0);
            lemma_bv_reflect(0, 0, v, 1, 0);
        }
    }
}

// Reflecting at width `w` of a value confined to `w - 1` bits is the
// reflection at width `w - 1`, shifted up by one.
proof fn lemma_reflect_grow(x: u128, w: nat)
    requires
        1 <= w <= 128,
        x >> ((w - 1) as u128) == 0,
    ensures
        reflect_spec(x, w) == reflect_spec(x, (w - 1) as nat) << 1,
    decreases w,
{
    if w == 1 {
        lemma_bv_reflect(x, 0, x, 1, 0);
        assert(x == 0);
        lemma_bv_reflect(0, 0, 0, 1, 0);
        assert(reflect_spec(0u128, 1) == reflect_spec(0u128 >> 1, 0) | ((0u128 & 1) << (0 as u128)));
        assert(reflect_spec(0u128, 1) == 0);
        assert(reflect_spec(0u128, 0) << 1 == 0);
    } else {
        let x1 = x >> 1;
        let wu = w as u128;
        lemma_bv_misc(x, 0, x, wu, 0, 0, 0, 0);
        assert(x1 >> ((w - 2) as u128) == 0);
        lemma_reflect_grow(x1, (w - 1) as nat);
        let r1 = reflect_spec(x1, (w - 2) as nat);
        lemma_reflect_bound(x1, (w - 2) as nat);
        lemma_bv_reflect(r1, 0, x, w as u128, 0);
    }
}

// Reflection distributes over bitwise or.
proof fn lemma_reflect_or(x: u128, y: u128, w: nat)
    requires
        w <= 128,
    ensures
        reflect_spec(x | y, w) == reflect_spec(x, w) | reflect_spec(y, w),
    decreases w,
{
    if w == 0 {
        lemma_bv_reflect(0, 0, x, 0, y);
    } else {
        let wu = w as u128;
        lemma_reflect_or(x >> 1, y >> 1, (w - 1) as nat);
        lemma_bv_reflect(x, y, x, wu, y);
        let rx = reflect_spec(x >> 1, (w - 1) as nat);
        let ry = reflect_spec(y >> 1, (w - 1) as nat);
        lemma_bv_reflect(rx, ry, x, wu, y);
        assert(reflect_spec(x | y, w) == reflect_spec((x | y) >> 1, (w - 1) as nat) | (((x | y)
            & 1) << ((wu - 1) as u128)));
        assert((x | y) >> 1 == (x >> 1) | (y >> 1));
        assert(reflect_spec((x >> 1) | (y >> 1), (w - 1) as nat) == rx | ry);
        assert((((x | y) & 1) << ((wu - 1) as u128)) == ((x & 1) << ((wu - 1) as u128)) | ((y & 1)
            << ((wu - 1) as u128)));
        assert((rx | ry) | (((x & 1) << ((wu - 1) as u128)) | ((y & 1) << ((wu - 1) as u128))) == (rx
            | ((x & 1) << ((wu - 1) as u128))) | (ry | ((y & 1) << ((wu - 1) as u128))));
        assert(reflect_spec(x, w) == rx | ((x & 1) << ((wu - 1) as u128)));
        assert(reflect_spec(y, w) == ry | ((y & 1) << ((wu - 1) as u128)));
    }
}

// Reflecting the top bit alone yields the bottom bit.
proof fn lemma_reflect_top(v: u128, w: nat)
    requires
        1 <= w <= 128,
    ensures
        reflect_spec((v & 1) << ((w - 1) as u128), w) == v & 1,
    decreases w,
{
    let t = (v & 1) << ((w - 1) as u128);
    if w == 1 {
        lemma_bv_reflect(v & 1, 0, v, 1, 0);
        assert(t == v & 1);
        assert(reflect_spec(t, 1) == reflect_spec(t >> 1, 0) | ((t & 1) << (0 as u128)));
        assert(t >> 1 == 0);
        assert((t & 1) << (0 as u128) == v & 1);
    } else {
        let wu = w as u128;
        lemma_bv_reflect(0, 0, v, wu, 0);
        assert(t >> 1 == (v & 1) << ((wu - 2) as u128));
        assert(t & 1 == 0);
        lemma_reflect_top(v, (w - 1) as nat);
        assert(reflect_spec(t, w) == reflect_spec(t >> 1, (w - 1) as nat) | ((t & 1) << ((wu
            - 1) as u128)));
        assert(0u128 << ((wu - 1) as u128) == 0);
        let x = reflect_spec(t >> 1, (w - 1) as nat);
        lemma_bv_reflect(x, 0, v, wu, 0);
        assert(x | 0u128 == x);
    }
}

/// Reflection is an involution: reflecting a `w`-bit value twice gives the
/// value back.
pub proof fn lemma_reflect_involution(v: u128, w: u8)
    requires
        w <= 128,
        fits(v, w),
    ensures
        reflect_spec(reflect_spec(v, w as nat), w as nat) == v,
    decreases w,
{
    if w == 0 {
        lemma_bv_reflect(0, 0, v, 0, 0);
        assert(v == 0);
    } else {
        let wn = w as nat;
        let s = reflect_spec(v >> 1, (wn - 1) as nat);
        let t = (v & 1) << ((w - 1) as u128);
        assert(reflect_spec(v, wn) == s | t);
        lemma_reflect_or(s, t, wn);
        lemma_reflect_top(v, wn);
        lemma_reflect_bound(v >> 1, (wn - 1) as nat);
        lemma_bv_misc(v, 0, v, w as u128, 0, 0, 0, 0);
        assert((v >> 1) >> ((w - 1) as u128) == 0);
        lemma_reflect_grow(s, wn);
        lemma_reflect_involution(v >> 1, (w - 1) as u8);
        lemma_bv_reflect(s, t, v, w as u128, 0);
        assert((s | t) == (t | s));
        assert(reflect_spec(s, wn) == reflect_spec(s, (wn - 1) as nat) << 1);
        assert(reflect_spec(s | t, wn) == ((v >> 1) << 1) | (v & 1));
    }
}

// Reflecting a value of `w - k` bits shifted up by `k`, at width `w`, drops
// the shift.
proof fn lemma_reflect_shift(y: u128, w: nat, k: nat)
    requires
        k <= w <= 128,
        y >> ((w - k) as u128) == 0,
    ensures
        reflect_spec(y << (k as u128), w) == reflect_spec(y, (w - k) as nat),
    decreases k,
{
    if k == 0 {
        lemma_bv_reflect(y, 0, y, w as u128, 0);
        assert(y << (0 as u128) == y);
    } else {
        lemma_bv_reflect(0, 0, y, w as u128, k as u128);
        assert((y << (k as u128)) >> 1 == y << ((k - 1) as u128));
        assert((y << (k as u128)) & 1 == 0);
        assert(reflect_spec(y << (k as u128), w) == reflect_spec((y << (k as u128)) >> 1, (w
            - 1) as nat) | (((y << (k as u128)) & 1) << ((w - 1) as u128)));
        lemma_reflect_shift(y, (w - 1) as nat, (k - 1) as nat);
        let r = reflect_spec(y << ((k - 1) as u128), (w - 1) as nat);
        lemma_bv_reflect(r, 0, y, w as u128, k as u128);
        assert(r | 0u128 == r);
    }
}

// The division steps are linear over XOR.
proof fn lemma_bv_step_lin(p: u128, x: u128, y: u128)
    by (bit_vector)
    ensures
        step_ref(p, x ^ y) == step_ref(p, x) ^ step_ref(p, y),
        step_fwd(p, x ^ y) == step_fwd(p, x) ^ step_fwd(p, y),
        step_ref(p, 0) == 0,
        step_fwd(p, 0) == 0,
        x ^ 0 == x,
        0 ^ x == x,
{
}

proof fn lemma_div8_lin(p: u128, x: u128, y: u128)
    ensures
        div8_ref(p, x ^ y) == div8_ref(p, x) ^ div8_ref(p, y),
        div8_fwd(p, x ^ y) == div8_fwd(p, x) ^ div8_fwd(p, y),
        div8_ref(p, 0) == 0,
        div8_fwd(p, 0) == 0,
{
    lemma_bv_step_lin(p, x, y);
    let x1 = step_ref(p, x);
    let y1 = step_ref(p, y);
    lemma_bv_step_lin(p, x1, y1);
    let x2 = step_ref(p, x1);
    let y2 = step_ref(p, y1);
    lemma_bv_step_lin(p, x2, y2);
    let x3 = step_ref(p, x2);
    let y3 = step_ref(p, y2);
    lemma_bv_step_lin(p, x3, y3);
    let x4 = step_ref(p, x3);
    let y4 = step_ref(p, y3);
    lemma_bv_step_lin(p, x4, y4);
    let x5 = step_ref(p, x4);
    let y5 = step_ref(p, y4);
    lemma_bv_step_lin(p, x5, y5);
    let x6 = step_ref(p, x5);
    let y6 = step_ref(p, y5);
    lemma_bv_step_lin(p, x6, y6);
    let x7 = step_ref(p, x6);
    let y7 = step_ref(p, y6);
    lemma_bv_step_lin(p, x7, y7);
    let f1 = step_fwd(p, x);
    let g1 = step_fwd(p, y);
    lemma_bv_step_lin(p, f1, g1);
    let f2 = step_fwd(p, f1);
    let g2 = step_fwd(p, g1);
    lemma_bv_step_lin(p, f2, g2);
    let f3 = step_fwd(p, f2);
    let g3 = step_fwd(p, g2);
    lemma_bv_step_lin(p, f3, g3);
    let f4 = step_fwd(p, f3);
    let g4 = step_fwd(p, g3);
    lemma_bv_step_lin(p, f4, g4);
    let f5 = step_fwd(p, f4);
    let g5 = step_fwd(p, g4);
    lemma_bv_step_lin(p, f5, g5);
    let f6 = step_fwd(p, f5);
    let g6 = step_fwd(p, g5);
    lemma_bv_step_lin(p, f6, g6);
    let f7 = step_fwd(p, f6);
    let g7 = step_fwd(p, g6);
    lemma_bv_step_lin(p, f7, g7);
    let s1 = step_ref(p, 0);
    lemma_bv_step_lin(p, s1, s1);
    let t1 = step_fwd(p, 0);
    lemma_bv_step_lin(p, t1, t1);
}

// Eight division steps confine a byte of input to the algorithm's width,
// and recover the polynomial from a single set bit.
#[verifier::rlimit(100)]
proof fn lemma_bv_div8_conf(p: u128, x: u128, w: u128)
    by (bit_vector)
    ensures
        (w < 128 && p >> w == 0) ==> div8_ref(p, x & 0xFF) >> w == 0,
        (w < 128 && p << w == 0) ==> div8_fwd(p, x << 120) << w == 0,
        div8_ref(p, 0x80) == p,
        div8_fwd(p, 1u128 << 120) == p,
{
}

// Small facts about bytes, shifts and XOR within a width, consolidated so
// the verifier's bit-vector solver is entered from one place.
#[verifier::rlimit(100)]
pub(crate) proof fn lemma_bv_misc(x: u128, y: u128, v: u128, w: u128, b: u8, d1: u128, d2: u128, d3: u128)
    by (bit_vector)
    ensures
        v & 0xFF < 256,
        (w < 128 && x >> w == 0 && y >> w == 0) ==> (x ^ y) >> w == 0,
        (w < 128 && x << w == 0 && y << w == 0) ==> (x ^ y) << w == 0,
        (1 <= w && w < 128) ==> (v << ((128 - w) as u128)) << w == 0,
        (2 <= w && w <= 128 && v >> ((w - 1) as u128) == 0) ==> (v >> 1) >> ((w - 2) as u128) == 0,
        (1 <= w && w < 128 && v >> w == 0) ==> (v >> 1) >> ((w - 1) as u128) == 0,
        (v >> 1) >> 127 == 0,
        x ^ 0 == x,
        0 ^ x == x,
        (x ^ y) ^ v == x ^ (y ^ v),
        x ^ y == y ^ x,
        (1 <= w && w < 128) ==> ((v >> ((128 - w) as u128)) >> w) == 0,
        (1 <= w && w < 128 && v << w == 0) ==> v == (v >> ((128 - w) as u128)) << ((128 - w) as u128),
        (w <= d1 && d1 < 128 && v >> w == 0) ==> v >> d1 == 0,
        (w < 128) ==> (x << w) << 1 == x << ((w + 1) as u128),
        (1 <= w && w < 128 && v >> w == 0) ==> ((v << ((128 - w) as u128)) >> ((128 - w) as u128)) == v,
        (w < 128 && v >> w == 0) ==> (v >> 8) >> w == 0,
        (w < 128 && v << w == 0) ==> (v << 8) << w == 0,
        (((x ^ y) ^ 0) & 0xFF) == ((x ^ 0) & 0xFF) ^ ((y ^ 0) & 0xFF),
        (d3 == d1 ^ d2) ==> d3 ^ ((x ^ y) >> 8) == (d1 ^ (x >> 8)) ^ (d2 ^ (y >> 8)),
        ((((x ^ y) >> 120) ^ 0) & 0xFF) << 120 == ((((x >> 120) ^ 0) & 0xFF) << 120) ^ ((((y >> 120) ^ 0) & 0xFF) << 120),
        (d3 == d1 ^ d2) ==> d3 ^ ((x ^ y) << 8) == (d1 ^ (x << 8)) ^ (d2 ^ (y << 8)),
        ((0u128 ^ 0) & 0xFF) == 0 && 0u128 >> 8 == 0 && 0u128 << 8 == 0 && ((((0u128 >> 120) ^ 0) & 0xFF) << 120) == 0,
        d1 == 0 ==> d1 ^ (0u128 >> 8) == 0,
        d1 == 0 ==> d1 ^ (0u128 << 8) == 0,
        (v ^ (b as u128)) & 0xFF == ((v ^ (b as u128)) ^ 0) & 0xFF,
        (v ^ (b as u128)) >> 8 == v >> 8,
        ((v >> 120) ^ (b as u128)) & 0xFF == (((v ^ ((b as u128) << 120)) >> 120) ^ 0) & 0xFF,
        (v ^ ((b as u128) << 120)) << 8 == v << 8,
        ((v ^ 0) & 0xFF) == (((v & 0xFF) ^ 0) & 0xFF),
        (v & 0xFF) >> 8 == 0,
        (d1 ^ 0) ^ (v >> 8) == d1 ^ (v >> 8),
        ((((v >> 120) << 120) >> 120) ^ 0) & 0xFF == ((v >> 120) ^ 0) & 0xFF,
        ((v >> 120) << 120) << 8 == 0,
        (d1 ^ 0) ^ (v << 8) == d1 ^ (v << 8),
        v < 256 ==> (((v ^ 0) & 0xFF) == v && v >> 8 == 0 && ((v as u8) as u128) == v),
        v < 256 ==> (((((v << 120) >> 120) ^ 0) & 0xFF) == v && (v << 120) << 8 == 0 && (((v as u8) as u128) << 120) == (v << 120)),
        ((v ^ 0) & 0xFF) == v & 0xFF,
        (((v >> 120) ^ 0) & 0xFF) == (v >> 120) & 0xFF,
        ((b ^ (v as u8)) as u128) == (b as u128) ^ (v & 0xFF),
        (((b ^ (v as u8)) as u128) << 120) == ((b as u128) << 120) ^ ((v & 0xFF) << 120),
        (v >> 8) >> 8 == v >> 16,
        (v << 8) << 8 == v << 16,
        (v >> 16) >> 8 == v >> 24,
        (v << 16) << 8 == v << 24,
        (v >> 24) >> 8 == v >> 32,
        (v << 24) << 8 == v << 32,
        (v >> 32) >> 8 == v >> 40,
        (v << 32) << 8 == v << 40,
        (v >> 40) >> 8 == v >> 48,
        (v << 40) << 8 == v << 48,
        (v >> 48) >> 8 == v >> 56,
        (v << 48) << 8 == v << 56,
        (v >> 56) >> 8 == v >> 64,
        (v << 56) << 8 == v << 64,
        (v >> 64) >> 8 == v >> 72,
        (v << 64) << 8 == v << 72,
        (v >> 72) >> 8 == v >> 80,
        (v << 72) << 8 == v << 80,
        (v >> 80) >> 8 == v >> 88,
        (v << 80) << 8 == v << 88,
        (v >> 88) >> 8 == v >> 96,
        (v << 88) << 8 == v << 96,
        (v >> 96) >> 8 == v >> 104,
        (v << 96) << 8 == v << 104,
        (v >> 104) >> 8 == v >> 112,
        (v << 104) << 8 == v << 112,
        (v >> 112) >> 8 == v >> 120,
        (v << 112) << 8 == v << 120,
        (v >> 120) >> 8 == 0,
        (v << 120) << 8 == 0,
        (v >> 120) & 0xFF == v >> 120,
        ((v >> 120) & 0xFF) << 120 == (v >> 120) << 120,
        ((v >> 112) & 0xFF) << 120 == ((v << 8) >> 120) << 120,
        ((v >> 104) & 0xFF) << 120 == ((v << 16) >> 120) << 120,
        ((v >> 96) & 0xFF) << 120 == ((v << 24) >> 120) << 120,
        ((v >> 88) & 0xFF) << 120 == ((v << 32) >> 120) << 120,
        ((v >> 80) & 0xFF) << 120 == ((v << 40) >> 120) << 120,
        ((v >> 72) & 0xFF) << 120 == ((v << 48) >> 120) << 120,
        ((v >> 64) & 0xFF) << 120 == ((v << 56) >> 120) << 120,
        ((v >> 56) & 0xFF) << 120 == ((v << 64) >> 120) << 120,
        ((v >> 48) & 0xFF) << 120 == ((v << 72) >> 120) << 120,
        ((v >> 40) & 0xFF) << 120 == ((v << 80) >> 120) << 120,
        ((v >> 32) & 0xFF) << 120 == ((v << 88) >> 120) << 120,
        ((v >> 24) & 0xFF) << 120 == ((v << 96) >> 120) << 120,
        ((v >> 16) & 0xFF) << 120 == ((v << 104) >> 120) << 120,
        ((v >> 8) & 0xFF) << 120 == ((v << 112) >> 120) << 120,
        (v & 0xFF) << 120 == ((v << 120) >> 120) << 120,
{
}

// ---------------------------------------------------------------------------
// Lookup tables
// ---------------------------------------------------------------------------

/// A 256-entry table holding one byte's worth of division for every byte
/// value, for a polynomial already in register form.
pub open spec fn bytewise_table_ok(t: Seq<u128>, poly: u128, reflect: bool) -> bool {
    &&& t.len() == 256
    &&& forall|i: int| 0 <= i < 256 ==> t[i] == crc128_spec(poly, reflect, i as u128)
}

/// The polynomial a byte-wise table was built from, read back out of the
/// table itself: dividing a lone top bit leaves exactly the polynomial.
pub open spec fn table_poly(t: Seq<u128>, reflect: bool) -> u128 {
    if reflect {
        t[0x80]
    } else {
        t[1]
    }
}

/// A byte-wise table determines its polynomial.
pub proof fn lemma_table_poly(t: Seq<u128>, poly: u128, reflect: bool)
    requires
        bytewise_table_ok(t, poly, reflect),
    ensures
        table_poly(t, reflect) == poly,
{
    lemma_bv_div8_conf(poly, 0, 0);
    if reflect {
        assert(t[0x80] == crc128_spec(poly, true, 0x80));
    } else {
        assert(t[1] == crc128_spec(poly, false, 1));
    }
}

/// How one input byte enters the register: into the low byte when
/// reflected, into the top byte otherwise.
pub open spec fn byte_inject(reflect: bool, b: u8) -> u128 {
    if reflect {
        b as u128
    } else {
        (b as u128) << 120
    }
}

/// The register advanced over `n` bytes of zero input.
pub open spec fn advance(poly: u128, reflect: bool, n: nat, v: u128) -> u128
    decreases n,
{
    if n == 0 {
        v
    } else {
        update_byte(poly, reflect, advance(poly, reflect, (n - 1) as nat, v), 0)
    }
}

/// Sixteen 256-entry tables: table `e` maps a byte value to its division
/// result advanced a further `e` bytes, the contribution of a byte standing
/// `e` positions before the end of a 16-byte window.
pub open spec fn slice16_table_ok(t: Seq<Seq<u128>>, poly: u128, reflect: bool) -> bool {
    &&& t.len() == 16
    &&& forall|e: int| 0 <= e < 16 ==> #[trigger] t[e].len() == 256
    &&& forall|e: int, i: int|
        0 <= e < 16 && 0 <= i < 256 ==> #[trigger] t[e][i] == advance(
            poly,
            reflect,
            e as nat,
            crc128_spec(poly, reflect, i as u128),
        )
}

/// The polynomial a slice-by-16 table was built from.
pub open spec fn slice16_poly(t: Seq<Seq<u128>>, reflect: bool) -> u128 {
    table_poly(t[0], reflect)
}

// Advancing one byte of zero input is linear over XOR, and fixes zero.
proof fn lemma_fold_linear(poly: u128, reflect: bool, x: u128, y: u128)
    ensures
        update_byte(poly, reflect, x ^ y, 0) == update_byte(poly, reflect, x, 0) ^ update_byte(
            poly,
            reflect,
            y,
            0,
        ),
        update_byte(poly, reflect, 0, 0) == 0,
{
    lemma_bv_misc(x, y, 0, 0, 0, 0, 0, 0);
    if reflect {
        let ax = (x ^ 0) & 0xFF;
        let ay = (y ^ 0) & 0xFF;
        let axy = ((x ^ y) ^ 0) & 0xFF;
        lemma_div8_lin(poly, ax, ay);
        let dx = div8_ref(poly, ax);
        let dy = div8_ref(poly, ay);
        let dxy = div8_ref(poly, axy);
        assert(dxy == dx ^ dy);
        lemma_bv_misc(x, y, 0, 0, 0, dx, dy, dxy);
        lemma_div8_lin(poly, 0, 0);
        let d0 = div8_ref(poly, ((0u128 ^ 0) & 0xFF));
        assert(d0 == 0);
        lemma_bv_misc(0, 0, 0, 0, 0, d0, 0, 0);
    } else {
        let ax = (((x >> 120) ^ 0) & 0xFF) << 120;
        let ay = (((y >> 120) ^ 0) & 0xFF) << 120;
        let axy = ((((x ^ y) >> 120) ^ 0) & 0xFF) << 120;
        lemma_div8_lin(poly, ax, ay);
        let dx = div8_fwd(poly, ax);
        let dy = div8_fwd(poly, ay);
        let dxy = div8_fwd(poly, axy);
        assert(dxy == dx ^ dy);
        lemma_bv_misc(x, y, 0, 0, 0, dx, dy, dxy);
        lemma_div8_lin(poly, 0, 0);
        let d0 = div8_fwd(poly, ((((0u128 >> 120) ^ 0) & 0xFF) << 120));
        assert(d0 == 0);
        lemma_bv_misc(0, 0, 0, 0, 0, d0, 0, 0);
    }
}

// A byte folds in as its injection XORed into the register, then one zero
// byte folded.
proof fn lemma_update_byte_inject(poly: u128, reflect: bool, crc: u128, b: u8)
    ensures
        update_byte(poly, reflect, crc, b) == update_byte(
            poly,
            reflect,
            crc ^ byte_inject(reflect, b),
            0,
        ),
{
    lemma_bv_misc(crc, 0, crc, 0, b, 0, 0, 0);
}

// Advancing commutes with folding one zero byte.
proof fn lemma_advance_commute(poly: u128, reflect: bool, n: nat, v: u128)
    ensures
        advance(poly, reflect, n, update_byte(poly, reflect, v, 0)) == update_byte(
            poly,
            reflect,
            advance(poly, reflect, n, v),
            0,
        ),
    decreases n,
{
    if n > 0 {
        lemma_advance_commute(poly, reflect, (n - 1) as nat, v);
    }
}

// Advancing is linear over XOR, and fixes zero.
proof fn lemma_advance_linear(poly: u128, reflect: bool, n: nat, x: u128, y: u128)
    ensures
        advance(poly, reflect, n, x ^ y) == advance(poly, reflect, n, x) ^ advance(
            poly,
            reflect,
            n,
            y,
        ),
        advance(poly, reflect, n, 0) == 0,
    decreases n,
{
    lemma_fold_linear(poly, reflect, x, y);
    if n > 0 {
        lemma_advance_linear(poly, reflect, (n - 1) as nat, x, y);
        lemma_fold_linear(
            poly,
            reflect,
            advance(poly, reflect, (n - 1) as nat, x),
            advance(poly, reflect, (n - 1) as nat, y),
        );
        lemma_fold_linear(poly, reflect, 0, 0);
    }
}

// Folding bytes is affine: a XOR on the starting register passes through as
// that value advanced over the length of the input.
proof fn lemma_update_bytes_affine(poly: u128, reflect: bool, x: u128, y: u128, s: Seq<u8>)
    ensures
        update_bytes(poly, reflect, x ^ y, s) == advance(poly, reflect, s.len(), x) ^ update_bytes(
            poly,
            reflect,
            y,
            s,
        ),
    decreases s.len(),
{
    if s.len() == 0 {
    } else {
        let b = s[0];
        lemma_update_byte_inject(poly, reflect, x ^ y, b);
        lemma_update_byte_inject(poly, reflect, y, b);
        let z = byte_inject(reflect, b);
        lemma_bv_misc(x, y, z as u128, 0, 0, 0, 0, 0);
        assert((x ^ y) ^ z == x ^ (y ^ z));
        lemma_fold_linear(poly, reflect, x, y ^ z);
        let fx = update_byte(poly, reflect, x, 0);
        assert(update_byte(poly, reflect, x ^ y, b) == fx ^ update_byte(poly, reflect, y, b));
        lemma_update_bytes_affine(poly, reflect, fx, update_byte(poly, reflect, y, b), s.skip(1));
        lemma_advance_commute(poly, reflect, (s.len() - 1) as nat, x);
    }
}

// Peeling the first byte off a fold that starts from a zero register.
proof fn lemma_update_bytes_peel(poly: u128, reflect: bool, s: Seq<u8>)
    requires
        s.len() > 0,
    ensures
        update_bytes(poly, reflect, 0, s) == advance(
            poly,
            reflect,
            s.len(),
            byte_inject(reflect, s[0]) as u128,
        ) ^ update_bytes(poly, reflect, 0, s.skip(1)),
{
    let b = s[0];
    let z = byte_inject(reflect, b) as u128;
    lemma_update_byte_inject(poly, reflect, 0, b);
    lemma_bv_misc(z, 0, z, 0, 0, 0, 0, 0);
    assert(0u128 ^ z == z ^ 0);
    assert(update_byte(poly, reflect, 0, b) == update_byte(poly, reflect, z ^ 0, 0));
    lemma_fold_linear(poly, reflect, z, 0);
    let fz = update_byte(poly, reflect, z, 0);
    assert(update_byte(poly, reflect, 0, b) == fz ^ 0);
    assert(fz ^ 0 == fz);
    lemma_update_bytes_affine(poly, reflect, fz, 0, s.skip(1));
    lemma_advance_commute(poly, reflect, (s.len() - 1) as nat, z);
}

// The entry of table zero is a byte's injection advanced one byte.
proof fn lemma_table0_entry(poly: u128, reflect: bool, i: u128)
    requires
        i < 256,
    ensures
        crc128_spec(poly, reflect, i) == update_byte(poly, reflect, byte_inject(
            reflect,
            i as u8,
        ), 0),
{
    lemma_bv_misc(i, 0, i, 0, 0, 0, 0, 0);
    if reflect {
        lemma_bv_misc(crc128_spec(poly, true, i), 0, i, 0, 0, crc128_spec(poly, true, i), 0, 0);
        assert(crc128_spec(poly, true, i) ^ (0u128 >> 8) == crc128_spec(poly, true, i) ^ 0);
        assert(crc128_spec(poly, true, i) ^ 0 == crc128_spec(poly, true, i));
    } else {
        lemma_bv_misc(crc128_spec(poly, false, i), 0, i, 0, 0, crc128_spec(poly, false, i), 0, 0);
        assert(crc128_spec(poly, false, i) ^ 0 == crc128_spec(poly, false, i));
    }
}

// Splitting the register: advancing a value is advancing its tail byte and
// the shifted remainder separately.
proof fn lemma_advance_split(poly: u128, reflect: bool, n: nat, v: u128)
    requires
        n >= 1,
    ensures
        reflect ==> advance(poly, reflect, n, v) == advance(poly, reflect, n, v & 0xFF) ^ advance(
            poly,
            reflect,
            (n - 1) as nat,
            v >> 8,
        ),
        !reflect ==> advance(poly, reflect, n, v) == advance(
            poly,
            reflect,
            n,
            (v >> 120) << 120,
        ) ^ advance(poly, reflect, (n - 1) as nat, v << 8),
{
    lemma_bv_misc(v, 0, v, 0, 0, 0, 0, 0);
    if reflect {
        let keep = v & 0xFF;
        let rest = v >> 8;
        assert(update_byte(poly, true, v, 0) == update_byte(poly, true, keep, 0) ^ rest) by {
            assert(update_byte(poly, true, keep, 0) == crc128_spec(poly, true, (keep ^ 0) & 0xFF) ^ (
            keep >> 8));
            lemma_bv_misc(keep, 0, v, 0, 0, crc128_spec(poly, true, (v ^ 0) & 0xFF), 0, 0);
            assert(keep >> 8 == 0);
            assert((crc128_spec(poly, true, (v ^ 0) & 0xFF) ^ 0) ^ (v >> 8) == crc128_spec(
                poly,
                true,
                (v ^ 0) & 0xFF,
            ) ^ (v >> 8));
        };
        lemma_advance_commute(poly, reflect, (n - 1) as nat, v);
        lemma_advance_linear(
            poly,
            reflect,
            (n - 1) as nat,
            update_byte(poly, true, keep, 0),
            rest,
        );
        lemma_advance_commute(poly, reflect, (n - 1) as nat, keep);
    } else {
        let keep = (v >> 120) << 120;
        let rest = v << 8;
        assert(update_byte(poly, false, v, 0) == update_byte(poly, false, keep, 0) ^ rest) by {
            lemma_bv_misc(keep, 0, v, 0, 0, crc128_spec(poly, false, ((v >> 120) ^ 0) & 0xFF), 0, 0);
            assert(((keep >> 120) ^ 0) & 0xFF == ((v >> 120) ^ 0) & 0xFF);
            assert(keep << 8 == 0);
            assert((crc128_spec(poly, false, ((v >> 120) ^ 0) & 0xFF) ^ 0) ^ (v << 8) == crc128_spec(
                poly,
                false,
                ((v >> 120) ^ 0) & 0xFF,
            ) ^ (v << 8));
        };
        lemma_advance_commute(poly, reflect, (n - 1) as nat, v);
        lemma_advance_linear(
            poly,
            reflect,
            (n - 1) as nat,
            update_byte(poly, false, keep, 0),
            rest,
        );
        lemma_advance_commute(poly, reflect, (n - 1) as nat, keep);
    }
}

// ---------------------------------------------------------------------------
// Folding a sequence of bytes: general laws
// ---------------------------------------------------------------------------

/// Folding `s` and then one more byte is folding `s.push(b)`.
pub proof fn lemma_update_bytes_push(poly: u128, reflect: bool, crc: u128, s: Seq<u8>, b: u8)
    ensures
        update_bytes(poly, reflect, crc, s.push(b)) == update_byte(
            poly,
            reflect,
            update_bytes(poly, reflect, crc, s),
            b,
        ),
    decreases s.len(),
{
    if s.len() == 0 {
        assert(s.push(b)[0] == b);
        assert(s.push(b).skip(1) =~= Seq::<u8>::empty());
        let crc1 = update_byte(poly, reflect, crc, b);
        assert(update_bytes(poly, reflect, crc, s.push(b)) == update_bytes(
            poly,
            reflect,
            crc1,
            s.push(b).skip(1),
        ));
        assert(update_bytes(poly, reflect, crc1, Seq::<u8>::empty()) == crc1);
        assert(update_bytes(poly, reflect, crc, s) == crc);
    } else {
        assert(s.push(b)[0] == s[0]);
        assert(s.push(b).skip(1) =~= s.skip(1).push(b));
        let crc1 = update_byte(poly, reflect, crc, s[0]);
        assert(update_bytes(poly, reflect, crc, s.push(b)) == update_bytes(
            poly,
            reflect,
            crc1,
            s.skip(1).push(b),
        ));
        lemma_update_bytes_push(poly, reflect, crc1, s.skip(1), b);
        assert(update_bytes(poly, reflect, crc, s) == update_bytes(poly, reflect, crc1, s.skip(1)));
    }
}

/// Feeding the input in two chunks folds exactly as feeding it whole: the
/// law behind chunk-invariance of the streaming digest.
pub proof fn lemma_update_bytes_concat(poly: u128, reflect: bool, crc: u128, a: Seq<u8>, b: Seq<u8>)
    ensures
        update_bytes(poly, reflect, crc, a + b) == update_bytes(
            poly,
            reflect,
            update_bytes(poly, reflect, crc, a),
            b,
        ),
    decreases a.len(),
{
    if a.len() == 0 {
        assert(a + b =~= b);
    } else {
        assert((a + b)[0] == a[0]);
        assert((a + b).skip(1) =~= a.skip(1) + b);
        lemma_update_bytes_concat(poly, reflect, update_byte(poly, reflect, crc, a[0]), a.skip(1), b);
    }
}

/// Folding one byte keeps the register inside the algorithm's width.
pub proof fn lemma_update_byte_in_register(alg: Algorithm<u128>, poly: u128, crc: u128, b: u8)
    requires
        algorithm_valid(alg),
        poly == adjusted_poly(alg.width, alg.poly, alg.refin),
        in_register(alg, crc),
    ensures
        in_register(alg, update_byte(poly, alg.refin, crc, b)),
{
    let w = alg.width as u128;
    if alg.width < 128 {
        if alg.refin {
            lemma_reflect_bound(alg.poly, alg.width as nat);
            lemma_bv_div8_conf(poly, crc ^ (b as u128), w);
            lemma_bv_misc(crc, 0, crc, w, 0, 0, 0, 0);
            lemma_bv_misc(div8_ref(poly, (crc ^ (b as u128)) & 0xFF), crc >> 8, crc, w, 0, 0, 0, 0);
        } else {
            lemma_bv_misc(0, 0, alg.poly, w, 0, 0, 0, 0);
            lemma_bv_div8_conf(poly, ((crc >> 120) ^ (b as u128)) & 0xFF, w);
            lemma_bv_misc(crc, 0, crc, w, 0, 0, 0, 0);
            lemma_bv_misc(
                div8_fwd(poly, ((((crc >> 120) ^ (b as u128)) & 0xFF) << 120)),
                crc << 8,
                crc,
                w,
                0,
                0,
                0,
                0,
            );
        }
    }
}

/// Folding any byte sequence keeps the register inside the algorithm's
/// width.
pub proof fn lemma_update_bytes_in_register(alg: Algorithm<u128>, poly: u128, crc: u128, s: Seq<u8>)
    requires
        algorithm_valid(alg),
        poly == adjusted_poly(alg.width, alg.poly, alg.refin),
        in_register(alg, crc),
    ensures
        in_register(alg, update_bytes(poly, alg.refin, crc, s)),
    decreases s.len(),
{
    if s.len() > 0 {
        lemma_update_byte_in_register(alg, poly, crc, s[0]);
        lemma_update_bytes_in_register(
            alg,
            poly,
            update_byte(poly, alg.refin, crc, s[0]),
            s.skip(1),
        );
    }
}

/// The initial register value lies inside the algorithm's width.
pub proof fn lemma_init_in_register(alg: Algorithm<u128>, initial: u128)
    requires
        algorithm_valid(alg),
    ensures
        in_register(alg, init_spec(alg, initial)),
{
    if alg.refin {
        lemma_reflect_bound(initial, alg.width as nat);
    } else {
        if alg.width < 128 {
            lemma_bv_misc(0, 0, initial, alg.width as u128, 0, 0, 0, 0);
        }
    }
}

/// Finalizing a register value that lies inside the algorithm's width gives
/// a checksum of at most `width` bits: no bits above the width leak out.
pub proof fn lemma_finalize_fits(alg: Algorithm<u128>, crc: u128)
    requires
        algorithm_valid(alg),
        in_register(alg, crc),
    ensures
        fits(finalize_spec(alg, crc), alg.width),
{
    let w = alg.width as u128;
    if alg.width < 128 {
        let c1 = if alg.refin != alg.refout {
            reflect_spec(crc, 128)
        } else {
            crc
        };
        if !alg.refout {
            lemma_bv_misc(c1 >> ((128 - alg.width) as u128), alg.xorout, c1, w, 0, 0, 0, 0);
        } else {
            if alg.refin {
                lemma_bv_misc(crc, alg.xorout, crc, w, 0, 0, 0, 0);
            } else {
                lemma_bv_misc(0, 0, crc, w, 0, 0, 0, 0);
                let y = crc >> ((128 - alg.width) as u128);
                assert(crc == y << ((128 - alg.width) as u128));
                lemma_reflect_shift(y, 128, (128 - alg.width) as nat);
                assert(reflect_spec(crc, 128) == reflect_spec(y, alg.width as nat));
                lemma_reflect_bound(y, alg.width as nat);
                lemma_bv_misc(reflect_spec(y, alg.width as nat), alg.xorout, crc, w, 0, 0, 0, 0);
            }
        }
    }
}

// Reflecting at a wider width only shifts the reflection up.
proof fn lemma_reflect_widen(v: u128, w: u8, m: u8)
    requires
        w <= m <= 128,
        fits(v, w),
    ensures
        reflect_spec(v, m as nat) == reflect_spec(v, w as nat) << (((m - w)) as u128),
    decreases m,
{
    if m == w {
        lemma_bv_reflect(reflect_spec(v, w as nat), 0, v, w as u128, 0);
    } else {
        lemma_bv_misc(v, 0, v, w as u128, 0, (m - 1) as u128, 0, 0);
        assert(v >> ((m - 1) as u128) == 0);
        lemma_reflect_grow(v, m as nat);
        lemma_reflect_widen(v, w, (m - 1) as u8);
        lemma_bv_misc(reflect_spec(v, w as nat), 0, v, ((m - 1 - w)) as u128, 0, 0, 0, 0);
    }
}

/// With no output reflection and a zero final XOR, finalizing an
/// initialized register recovers the initial value: `finalize` inverts
/// `init` on every width-confined value (for reflected input this is the
/// reflection round trip).
pub proof fn lemma_finalize_inverts_init(alg: Algorithm<u128>, x: u128)
    requires
        algorithm_valid(alg),
        !alg.refout,
        alg.xorout == 0,
        fits(x, alg.width),
    ensures
        finalize_spec(alg, init_spec(alg, x)) == x,
{
    let w = alg.width;
    let wt = w as u128;
    if !alg.refin {
        if w < 128 {
            lemma_bv_misc(x, 0, x, wt, 0, 0, 0, 0);
            assert((x << ((128 - wt) as u128)) >> ((128 - wt) as u128) == x);
        } else {
            lemma_bv_reflect(x, 0, x, wt, 0);
            assert(x << (0 as u128) == x);
            assert(x >> (0 as u128) == x);
        }
        lemma_bv_misc(x, 0, x, wt, 0, 0, 0, 0);
        assert(x ^ 0 == x);
    } else {
        let r0 = reflect_spec(x, w as nat);
        lemma_reflect_bound(x, w as nat);
        lemma_reflect_widen(r0, w, 128);
        lemma_reflect_involution(x, w);
        assert(reflect_spec(r0, 128) == x << (((128 - w)) as u128));
        if w < 128 {
            lemma_bv_misc(x, 0, x, wt, 0, 0, 0, 0);
            assert((x << ((128 - wt) as u128)) >> ((128 - wt) as u128) == x);
        } else {
            lemma_bv_reflect(x, 0, x, wt, 0);
            assert(x << (0 as u128) == x);
            assert(x >> (0 as u128) == x);
        }
        lemma_bv_misc(x, 0, x, wt, 0, 0, 0, 0);
        assert(x ^ 0 == x);
    }
}

// ---------------------------------------------------------------------------
// Update strategies
// ---------------------------------------------------------------------------

/// The no-table update strategy: one byte's worth of division per input
/// byte, computed with eight explicit steps each. Only the width bound is
/// needed here; the register form of the polynomial is derived on entry.
pub fn update_nolookup(crc: u128, algorithm: &Algorithm<u128>, bytes: &[u8]) -> (r: u128)
    requires
        1 <= algorithm.width <= 128,
    ensures
        r == update_bytes(
            adjusted_poly(algorithm.width, algorithm.poly, algorithm.refin),
            algorithm.refin,
            crc,
            bytes@,
        ),
{
    let poly = if algorithm.refin {
        reflect(algorithm.poly, algorithm.width)
    } else {
        algorithm.poly << ((128 - algorithm.width) as u128)
    };

    let mut crc = crc;
    let ghost crc0 = crc;
    let mut i: usize = 0;
    if algorithm.refin {
        while i < bytes.len()
            invariant
                i <= bytes.len(),
                poly == adjusted_poly(algorithm.width, algorithm.poly, algorithm.refin),
                algorithm.refin,
                crc == update_bytes(poly, true, crc0, bytes@.take(i as int)),
            decreases bytes.len() - i,
        {
            proof {
                assert(bytes@.take(i + 1) =~= bytes@.take(i as int).push(bytes@[i as int]));
                lemma_update_bytes_push(poly, true, crc0, bytes@.take(i as int), bytes@[i as int]);
            }
            let to_crc = (crc ^ bytes[i] as u128) & 0xFF;
            crc = crate::util::crc128(poly, true, to_crc) ^ (crc >> 8);
            i += 1;
        }
    } else {
        while i < bytes.len()
            invariant
                i <= bytes.len(),
                poly == adjusted_poly(algorithm.width, algorithm.poly, algorithm.refin),
                !algorithm.refin,
                crc == update_bytes(poly, false, crc0, bytes@.take(i as int)),
            decreases bytes.len() - i,
        {
            proof {
                assert(bytes@.take(i + 1) =~= bytes@.take(i as int).push(bytes@[i as int]));
                lemma_update_bytes_push(poly, false, crc0, bytes@.take(i as int), bytes@[i as int]);
            }
            let to_crc = ((crc >> 120) ^ bytes[i] as u128) & 0xFF;
            crc = crate::util::crc128(poly, false, to_crc) ^ (crc << 8);
            i += 1;
        }
    }
    proof {
        assert(bytes@.take(bytes@.len() as int) =~= bytes@);
    }
    crc
}

/// The byte-wise table update strategy: one table lookup per input byte.
pub fn update_bytewise(crc: u128, reflect: bool, table: &Vec<u128>, bytes: &[u8]) -> (r: u128)
    requires
        bytewise_table_ok(table@, table_poly(table@, reflect), reflect),
    ensures
        r == update_bytes(table_poly(table@, reflect), reflect, crc, bytes@),
{
    let ghost poly = table_poly(table@, reflect);
    let mut crc = crc;
    let ghost crc0 = crc;
    let mut i: usize = 0;
    if reflect {
        while i < bytes.len()
            invariant
                i <= bytes.len(),
                bytewise_table_ok(table@, poly, true),
                reflect,
                poly == table_poly(table@, true),
                crc == update_bytes(poly, true, crc0, bytes@.take(i as int)),
            decreases bytes.len() - i,
        {
            proof {
                lemma_bv_misc(crc ^ (bytes@[i as int] as u128), 0, crc ^ (bytes@[i as int] as u128), 0, 0, 0, 0, 0);
                assert(bytes@.take(i + 1) =~= bytes@.take(i as int).push(bytes@[i as int]));
                lemma_update_bytes_push(poly, true, crc0, bytes@.take(i as int), bytes@[i as int]);
            }
            let table_index = ((crc ^ bytes[i] as u128) & 0xFF) as usize;
            crc = table[table_index] ^ (crc >> 8);
            i += 1;
        }
    } else {
        while i < bytes.len()
            invariant
                i <= bytes.len(),
                bytewise_table_ok(table@, poly, false),
                !reflect,
                poly == table_poly(table@, false),
                crc == update_bytes(poly, false, crc0, bytes@.take(i as int)),
            decreases bytes.len() - i,
        {
            proof {
                lemma_bv_misc((crc >> 120) ^ (bytes@[i as int] as u128), 0, (crc >> 120) ^ (bytes@[i as int] as u128), 0, 0, 0, 0, 0);
                assert(bytes@.take(i + 1) =~= bytes@.take(i as int).push(bytes@[i as int]));
                lemma_update_bytes_push(poly, false, crc0, bytes@.take(i as int), bytes@[i as int]);
            }
            let table_index = (((crc >> 120) ^ bytes[i] as u128) & 0xFF) as usize;
            crc = table[table_index] ^ (crc << 8);
            i += 1;
        }
    }
    proof {
        assert(bytes@.take(bytes@.len() as int) =~= bytes@);
    }
    crc
}

// The XOR algebra that assembles a 16-byte window: the exec-order
// combination of the per-byte contributions equals the peeled fold.
#[verifier::rlimit(100)]
proof fn lemma_bv_shuffle16(bigu: u128, a1: u128, a2: u128, a3: u128, a4: u128, a5: u128, a6: u128, a7: u128, a8: u128, a9: u128, a10: u128, a11: u128, a12: u128, a13: u128, a14: u128, a15: u128, za: u128, u0: u128, u1: u128, u2: u128, u3: u128, u4: u128, u5: u128, u6: u128, u7: u128, u8: u128, u9: u128, u10: u128, u11: u128, u12: u128, u13: u128, u14: u128, u15: u128, t0: u128, t1: u128, t2: u128, t3: u128, t4: u128, t5: u128, t6: u128, t7: u128, t8: u128, t9: u128, t10: u128, t11: u128, t12: u128, t13: u128, t14: u128, t15: u128, q0: u128, q1: u128, q2: u128, q3: u128, q4: u128, q5: u128, q6: u128, q7: u128, q8: u128, q9: u128, q10: u128, q11: u128, q12: u128, q13: u128, q14: u128, q15: u128, q16: u128)
    by (bit_vector)
    ensures
        (bigu == u0 ^ a1 && a1 == u1 ^ a2 && a2 == u2 ^ a3 && a3 == u3 ^ a4 && a4 == u4 ^ a5 && a5 == u5 ^ a6 && a6 == u6 ^ a7 && a7 == u7 ^ a8 && a8 == u8 ^ a9 && a9 == u9 ^ a10 && a10 == u10 ^ a11 && a11 == u11 ^ a12 && a12 == u12 ^ a13 && a13 == u13 ^ a14 && a14 == u14 ^ a15 && a15 == u15 ^ za && za == 0 && q0 == t0 ^ q1 && q1 == t1 ^ q2 && q2 == t2 ^ q3 && q3 == t3 ^ q4 && q4 == t4 ^ q5 && q5 == t5 ^ q6 && q6 == t6 ^ q7 && q7 == t7 ^ q8 && q8 == t8 ^ q9 && q9 == t9 ^ q10 && q10 == t10 ^ q11 && q11 == t11 ^ q12 && q12 == t12 ^ q13 && q13 == t13 ^ q14 && q14 == t14 ^ q15 && q15 == t15 ^ q16 && q16 == 0) ==> bigu ^ q0 == (t15 ^ u15) ^ (t14 ^ u14) ^ (t13 ^ u13) ^ (t12 ^ u12) ^ (t11 ^ u11) ^ (t10 ^ u10) ^ (t9 ^ u9) ^ (t8 ^ u8) ^ (t7 ^ u7) ^ (t6 ^ u6) ^ (t5 ^ u5) ^ (t4 ^ u4) ^ (t3 ^ u3) ^ (t2 ^ u2) ^ (t1 ^ u1) ^ (t0 ^ u0),
{
}

// One 16-byte window folded through the sixteen tables equals sixteen
// byte-by-byte folds (reflected direction).
#[verifier::rlimit(100)]
#[verifier::spinoff_prover]
proof fn lemma_slice16_block_ref(p: u128, tv: Seq<Seq<u128>>, crc: u128, s: Seq<u8>)
    requires
        slice16_table_ok(tv, p, true),
        s.len() == 16,
    ensures
        update_bytes(p, true, crc, s) == tv[0][(s[15] ^ ((crc >> 120) as u8)) as int] ^ tv[1][(s[14] ^ ((crc >> 112) as u8)) as int] ^ tv[2][(s[13] ^ ((crc >> 104) as u8)) as int] ^ tv[3][(s[12] ^ ((crc >> 96) as u8)) as int] ^ tv[4][(s[11] ^ ((crc >> 88) as u8)) as int] ^ tv[5][(s[10] ^ ((crc >> 80) as u8)) as int] ^ tv[6][(s[9] ^ ((crc >> 72) as u8)) as int] ^ tv[7][(s[8] ^ ((crc >> 64) as u8)) as int] ^ tv[8][(s[7] ^ ((crc >> 56) as u8)) as int] ^ tv[9][(s[6] ^ ((crc >> 48) as u8)) as int] ^ tv[10][(s[5] ^ ((crc >> 40) as u8)) as int] ^ tv[11][(s[4] ^ ((crc >> 32) as u8)) as int] ^ tv[12][(s[3] ^ ((crc >> 24) as u8)) as int] ^ tv[13][(s[2] ^ ((crc >> 16) as u8)) as int] ^ tv[14][(s[1] ^ ((crc >> 8) as u8)) as int] ^ tv[15][(s[0] ^ (crc as u8)) as int],
{
    let b0 = s[0];
    let b1 = s[1];
    let b2 = s[2];
    let b3 = s[3];
    let b4 = s[4];
    let b5 = s[5];
    let b6 = s[6];
    let b7 = s[7];
    let b8 = s[8];
    let b9 = s[9];
    let b10 = s[10];
    let b11 = s[11];
    let b12 = s[12];
    let b13 = s[13];
    let b14 = s[14];
    let b15 = s[15];
    let z0 = byte_inject(true, b0) as u128;
    let z1 = byte_inject(true, b1) as u128;
    let z2 = byte_inject(true, b2) as u128;
    let z3 = byte_inject(true, b3) as u128;
    let z4 = byte_inject(true, b4) as u128;
    let z5 = byte_inject(true, b5) as u128;
    let z6 = byte_inject(true, b6) as u128;
    let z7 = byte_inject(true, b7) as u128;
    let z8 = byte_inject(true, b8) as u128;
    let z9 = byte_inject(true, b9) as u128;
    let z10 = byte_inject(true, b10) as u128;
    let z11 = byte_inject(true, b11) as u128;
    let z12 = byte_inject(true, b12) as u128;
    let z13 = byte_inject(true, b13) as u128;
    let z14 = byte_inject(true, b14) as u128;
    let z15 = byte_inject(true, b15) as u128;
    let t0 = advance(p, true, 16, z0);
    let t1 = advance(p, true, 15, z1);
    let t2 = advance(p, true, 14, z2);
    let t3 = advance(p, true, 13, z3);
    let t4 = advance(p, true, 12, z4);
    let t5 = advance(p, true, 11, z5);
    let t6 = advance(p, true, 10, z6);
    let t7 = advance(p, true, 9, z7);
    let t8 = advance(p, true, 8, z8);
    let t9 = advance(p, true, 7, z9);
    let t10 = advance(p, true, 6, z10);
    let t11 = advance(p, true, 5, z11);
    let t12 = advance(p, true, 4, z12);
    let t13 = advance(p, true, 3, z13);
    let t14 = advance(p, true, 2, z14);
    let t15 = advance(p, true, 1, z15);
    let c0 = crc & 0xFF;
    let u0 = advance(p, true, 16, c0);
    let c1 = (crc >> 8) & 0xFF;
    let u1 = advance(p, true, 15, c1);
    let c2 = (crc >> 16) & 0xFF;
    let u2 = advance(p, true, 14, c2);
    let c3 = (crc >> 24) & 0xFF;
    let u3 = advance(p, true, 13, c3);
    let c4 = (crc >> 32) & 0xFF;
    let u4 = advance(p, true, 12, c4);
    let c5 = (crc >> 40) & 0xFF;
    let u5 = advance(p, true, 11, c5);
    let c6 = (crc >> 48) & 0xFF;
    let u6 = advance(p, true, 10, c6);
    let c7 = (crc >> 56) & 0xFF;
    let u7 = advance(p, true, 9, c7);
    let c8 = (crc >> 64) & 0xFF;
    let u8 = advance(p, true, 8, c8);
    let c9 = (crc >> 72) & 0xFF;
    let u9 = advance(p, true, 7, c9);
    let c10 = (crc >> 80) & 0xFF;
    let u10 = advance(p, true, 6, c10);
    let c11 = (crc >> 88) & 0xFF;
    let u11 = advance(p, true, 5, c11);
    let c12 = (crc >> 96) & 0xFF;
    let u12 = advance(p, true, 4, c12);
    let c13 = (crc >> 104) & 0xFF;
    let u13 = advance(p, true, 3, c13);
    let c14 = (crc >> 112) & 0xFF;
    let u14 = advance(p, true, 2, c14);
    let c15 = (crc >> 120) & 0xFF;
    let u15 = advance(p, true, 1, c15);
    let cur0 = b0 ^ (crc as u8);
    let zc0 = byte_inject(true, cur0) as u128;
    lemma_bv_misc(0, 0, crc, 0, b0, 0, 0, 0);
    assert(zc0 == z0 ^ c0);
    assert((cur0 as u128) as u8 == cur0);
    lemma_table0_entry(p, true, cur0 as u128);
    assert(crc128_spec(p, true, cur0 as u128) == update_byte(p, true, zc0, 0));
    lemma_advance_commute(p, true, 15, zc0);
    lemma_advance_linear(p, true, 16, z0, c0);
    assert((cur0 as int) as u128 == cur0 as u128);
    assert(tv[15][cur0 as int] == advance(p, true, 15, crc128_spec(p, true, cur0 as u128)));
    assert(tv[15][cur0 as int] == t0 ^ u0);
    let cur1 = b1 ^ ((crc >> 8) as u8);
    let zc1 = byte_inject(true, cur1) as u128;
    lemma_bv_misc(0, 0, crc >> 8, 0, b1, 0, 0, 0);
    assert(zc1 == z1 ^ c1);
    assert((cur1 as u128) as u8 == cur1);
    lemma_table0_entry(p, true, cur1 as u128);
    assert(crc128_spec(p, true, cur1 as u128) == update_byte(p, true, zc1, 0));
    lemma_advance_commute(p, true, 14, zc1);
    lemma_advance_linear(p, true, 15, z1, c1);
    assert((cur1 as int) as u128 == cur1 as u128);
    assert(tv[14][cur1 as int] == advance(p, true, 14, crc128_spec(p, true, cur1 as u128)));
    assert(tv[14][cur1 as int] == t1 ^ u1);
    let cur2 = b2 ^ ((crc >> 16) as u8);
    let zc2 = byte_inject(true, cur2) as u128;
    lemma_bv_misc(0, 0, crc >> 16, 0, b2, 0, 0, 0);
    assert(zc2 == z2 ^ c2);
    assert((cur2 as u128) as u8 == cur2);
    lemma_table0_entry(p, true, cur2 as u128);
    assert(crc128_spec(p, true, cur2 as u128) == update_byte(p, true, zc2, 0));
    lemma_advance_commute(p, true, 13, zc2);
    lemma_advance_linear(p, true, 14, z2, c2);
    assert((cur2 as int) as u128 == cur2 as u128);
    assert(tv[13][cur2 as int] == advance(p, true, 13, crc128_spec(p, true, cur2 as u128)));
    assert(tv[13][cur2 as int] == t2 ^ u2);
    let cur3 = b3 ^ ((crc >> 24) as u8);
    let zc3 = byte_inject(true, cur3) as u128;
    lemma_bv_misc(0, 0, crc >> 24, 0, b3, 0, 0, 0);
    assert(zc3 == z3 ^ c3);
    assert((cur3 as u128) as u8 == cur3);
    lemma_table0_entry(p, true, cur3 as u128);
    assert(crc128_spec(p, true, cur3 as u128) == update_byte(p, true, zc3, 0));
    lemma_advance_commute(p, true, 12, zc3);
    lemma_advance_linear(p, true, 13, z3, c3);
    assert((cur3 as int) as u128 == cur3 as u128);
    assert(tv[12][cur3 as int] == advance(p, true, 12, crc128_spec(p, true, cur3 as u128)));
    assert(tv[12][cur3 as int] == t3 ^ u3);
    let cur4 = b4 ^ ((crc >> 32) as u8);
    let zc4 = byte_inject(true, cur4) as u128;
    lemma_bv_misc(0, 0, crc >> 32, 0, b4, 0, 0, 0);
    assert(zc4 == z4 ^ c4);
    assert((cur4 as u128) as u8 == cur4);
    lemma_table0_entry(p, true, cur4 as u128);
    assert(crc128_spec(p, true, cur4 as u128) == update_byte(p, true, zc4, 0));
    lemma_advance_commute(p, true, 11, zc4);
    lemma_advance_linear(p, true, 12, z4, c4);
    assert((cur4 as int) as u128 == cur4 as u128);
    assert(tv[11][cur4 as int] == advance(p, true, 11, crc128_spec(p, true, cur4 as u128)));
    assert(tv[11][cur4 as int] == t4 ^ u4);
    let cur5 = b5 ^ ((crc >> 40) as u8);
    let zc5 = byte_inject(true, cur5) as u128;
    lemma_bv_misc(0, 0, crc >> 40, 0, b5, 0, 0, 0);
    assert(zc5 == z5 ^ c5);
    assert((cur5 as u128) as u8 == cur5);
    lemma_table0_entry(p, true, cur5 as u128);
    assert(crc128_spec(p, true, cur5 as u128) == update_byte(p, true, zc5, 0));
    lemma_advance_commute(p, true, 10, zc5);
    lemma_advance_linear(p, true, 11, z5, c5);
    assert((cur5 as int) as u128 == cur5 as u128);
    assert(tv[10][cur5 as int] == advance(p, true, 10, crc128_spec(p, true, cur5 as u128)));
    assert(tv[10][cur5 as int] == t5 ^ u5);
    let cur6 = b6 ^ ((crc >> 48) as u8);
    let zc6 = byte_inject(true, cur6) as u128;
    lemma_bv_misc(0, 0, crc >> 48, 0, b6, 0, 0, 0);
    assert(zc6 == z6 ^ c6);
    assert((cur6 as u128) as u8 == cur6);
    lemma_table0_entry(p, true, cur6 as u128);
    assert(crc128_spec(p, true, cur6 as u128) == update_byte(p, true, zc6, 0));
    lemma_advance_commute(p, true, 9, zc6);
    lemma_advance_linear(p, true, 10, z6, c6);
    assert((cur6 as int) as u128 == cur6 as u128);
    assert(tv[9][cur6 as int] == advance(p, true, 9, crc128_spec(p, true, cur6 as u128)));
    assert(tv[9][cur6 as int] == t6 ^ u6);
    let cur7 = b7 ^ ((crc >> 56) as u8);
    let zc7 = byte_inject(true, cur7) as u128;
    lemma_bv_misc(0, 0, crc >> 56, 0, b7, 0, 0, 0);
    assert(zc7 == z7 ^ c7);
    assert((cur7 as u128) as u8 == cur7);
    lemma_table0_entry(p, true, cur7 as u128);
    assert(crc128_spec(p, true, cur7 as u128) == update_byte(p, true, zc7, 0));
    lemma_advance_commute(p, true, 8, zc7);
    lemma_advance_linear(p, true, 9, z7, c7);
    assert((cur7 as int) as u128 == cur7 as u128);
    assert(tv[8][cur7 as int] == advance(p, true, 8, crc128_spec(p, true, cur7 as u128)));
    assert(tv[8][cur7 as int] == t7 ^ u7);
    let cur8 = b8 ^ ((crc >> 64) as u8);
    let zc8 = byte_inject(true, cur8) as u128;
    lemma_bv_misc(0, 0, crc >> 64, 0, b8, 0, 0, 0);
    assert(zc8 == z8 ^ c8);
    assert((cur8 as u128) as u8 == cur8);
    lemma_table0_entry(p, true, cur8 as u128);
    assert(crc128_spec(p, true, cur8 as u128) == update_byte(p, true, zc8, 0));
    lemma_advance_commute(p, true, 7, zc8);
    lemma_advance_linear(p, true, 8, z8, c8);
    assert((cur8 as int) as u128 == cur8 as u128);
    assert(tv[7][cur8 as int] == advance(p, true, 7, crc128_spec(p, true, cur8 as u128)));
    assert(tv[7][cur8 as int] == t8 ^ u8);
    let cur9 = b9 ^ ((crc >> 72) as u8);
    let zc9 = byte_inject(true, cur9) as u128;
    lemma_bv_misc(0, 0, crc >> 72, 0, b9, 0, 0, 0);
    assert(zc9 == z9 ^ c9);
    assert((cur9 as u128) as u8 == cur9);
    lemma_table0_entry(p, true, cur9 as u128);
    assert(crc128_spec(p, true, cur9 as u128) == update_byte(p, true, zc9, 0));
    lemma_advance_commute(p, true, 6, zc9);
    lemma_advance_linear(p, true, 7, z9, c9);
    assert((cur9 as int) as u128 == cur9 as u128);
    assert(tv[6][cur9 as int] == advance(p, true, 6, crc128_spec(p, true, cur9 as u128)));
    assert(tv[6][cur9 as int] == t9 ^ u9);
    let cur10 = b10 ^ ((crc >> 80) as u8);
    let zc10 = byte_inject(true, cur10) as u128;
    lemma_bv_misc(0, 0, crc >> 80, 0, b10, 0, 0, 0);
    assert(zc10 == z10 ^ c10);
    assert((cur10 as u128) as u8 == cur10);
    lemma_table0_entry(p, true, cur10 as u128);
    assert(crc128_spec(p, true, cur10 as u128) == update_byte(p, true, zc10, 0));
    lemma_advance_commute(p, true, 5, zc10);
    lemma_advance_linear(p, true, 6, z10, c10);
    assert((cur10 as int) as u128 == cur10 as u128);
    assert(tv[5][cur10 as int] == advance(p, true, 5, crc128_spec(p, true, cur10 as u128)));
    assert(tv[5][cur10 as int] == t10 ^ u10);
    let cur11 = b11 ^ ((crc >> 88) as u8);
    let zc11 = byte_inject(true, cur11) as u128;
    lemma_bv_misc(0, 0, crc >> 88, 0, b11, 0, 0, 0);
    assert(zc11 == z11 ^ c11);
    assert((cur11 as u128) as u8 == cur11);
    lemma_table0_entry(p, true, cur11 as u128);
    assert(crc128_spec(p, true, cur11 as u128) == update_byte(p, true, zc11, 0));
    lemma_advance_commute(p, true, 4, zc11);
    lemma_advance_linear(p, true, 5, z11, c11);
    assert((cur11 as int) as u128 == cur11 as u128);
    assert(tv[4][cur11 as int] == advance(p, true, 4, crc128_spec(p, true, cur11 as u128)));
    assert(tv[4][cur11 as int] == t11 ^ u11);
    let cur12 = b12 ^ ((crc >> 96) as u8);
    let zc12 = byte_inject(true, cur12) as u128;
    lemma_bv_misc(0, 0, crc >> 96, 0, b12, 0, 0, 0);
    assert(zc12 == z12 ^ c12);
    assert((cur12 as u128) as u8 == cur12);
    lemma_table0_entry(p, true, cur12 as u128);
    assert(crc128_spec(p, true, cur12 as u128) == update_byte(p, true, zc12, 0));
    lemma_advance_commute(p, true, 3, zc12);
    lemma_advance_linear(p, true, 4, z12, c12);
    assert((cur12 as int) as u128 == cur12 as u128);
    assert(tv[3][cur12 as int] == advance(p, true, 3, crc128_spec(p, true, cur12 as u128)));
    assert(tv[3][cur12 as int] == t12 ^ u12);
    let cur13 = b13 ^ ((crc >> 104) as u8);
    let zc13 = byte_inject(true, cur13) as u128;
    lemma_bv_misc(0, 0, crc >> 104, 0, b13, 0, 0, 0);
    assert(zc13 == z13 ^ c13);
    assert((cur13 as u128) as u8 == cur13);
    lemma_table0_entry(p, true, cur13 as u128);
    assert(crc128_spec(p, true, cur13 as u128) == update_byte(p, true, zc13, 0));
    lemma_advance_commute(p, true, 2, zc13);
    lemma_advance_linear(p, true, 3, z13, c13);
    assert((cur13 as int) as u128 == cur13 as u128);
    assert(tv[2][cur13 as int] == advance(p, true, 2, crc128_spec(p, true, cur13 as u128)));
    assert(tv[2][cur13 as int] == t13 ^ u13);
    let cur14 = b14 ^ ((crc >> 112) as u8);
    let zc14 = byte_inject(true, cur14) as u128;
    lemma_bv_misc(0, 0, crc >> 112, 0, b14, 0, 0, 0);
    assert(zc14 == z14 ^ c14);
    assert((cur14 as u128) as u8 == cur14);
    lemma_table0_entry(p, true, cur14 as u128);
    assert(crc128_spec(p, true, cur14 as u128) == update_byte(p, true, zc14, 0));
    lemma_advance_commute(p, true, 1, zc14);
    lemma_advance_linear(p, true, 2, z14, c14);
    assert((cur14 as int) as u128 == cur14 as u128);
    assert(tv[1][cur14 as int] == advance(p, true, 1, crc128_spec(p, true, cur14 as u128)));
    assert(tv[1][cur14 as int] == t14 ^ u14);
    let cur15 = b15 ^ ((crc >> 120) as u8);
    let zc15 = byte_inject(true, cur15) as u128;
    lemma_bv_misc(0, 0, crc >> 120, 0, b15, 0, 0, 0);
    assert(zc15 == z15 ^ c15);
    assert((cur15 as u128) as u8 == cur15);
    lemma_table0_entry(p, true, cur15 as u128);
    assert(crc128_spec(p, true, cur15 as u128) == update_byte(p, true, zc15, 0));
    lemma_advance_commute(p, true, 0, zc15);
    lemma_advance_linear(p, true, 1, z15, c15);
    assert((cur15 as int) as u128 == cur15 as u128);
    assert(tv[0][cur15 as int] == advance(p, true, 0, crc128_spec(p, true, cur15 as u128)));
    assert(tv[0][cur15 as int] == t15 ^ u15);
    lemma_bv_misc(0, 0, crc, 0, 0, 0, 0, 0);
    lemma_advance_split(p, true, 16, crc);
    lemma_advance_split(p, true, 15, crc >> 8);
    lemma_advance_split(p, true, 14, crc >> 16);
    lemma_advance_split(p, true, 13, crc >> 24);
    lemma_advance_split(p, true, 12, crc >> 32);
    lemma_advance_split(p, true, 11, crc >> 40);
    lemma_advance_split(p, true, 10, crc >> 48);
    lemma_advance_split(p, true, 9, crc >> 56);
    lemma_advance_split(p, true, 8, crc >> 64);
    lemma_advance_split(p, true, 7, crc >> 72);
    lemma_advance_split(p, true, 6, crc >> 80);
    lemma_advance_split(p, true, 5, crc >> 88);
    lemma_advance_split(p, true, 4, crc >> 96);
    lemma_advance_split(p, true, 3, crc >> 104);
    lemma_advance_split(p, true, 2, crc >> 112);
    lemma_advance_split(p, true, 1, crc >> 120);
    lemma_advance_linear(p, true, 0, 0, 0);
    let a1 = advance(p, true, 15, crc >> 8);
    let a2 = advance(p, true, 14, crc >> 16);
    let a3 = advance(p, true, 13, crc >> 24);
    let a4 = advance(p, true, 12, crc >> 32);
    let a5 = advance(p, true, 11, crc >> 40);
    let a6 = advance(p, true, 10, crc >> 48);
    let a7 = advance(p, true, 9, crc >> 56);
    let a8 = advance(p, true, 8, crc >> 64);
    let a9 = advance(p, true, 7, crc >> 72);
    let a10 = advance(p, true, 6, crc >> 80);
    let a11 = advance(p, true, 5, crc >> 88);
    let a12 = advance(p, true, 4, crc >> 96);
    let a13 = advance(p, true, 3, crc >> 104);
    let a14 = advance(p, true, 2, crc >> 112);
    let a15 = advance(p, true, 1, crc >> 120);
    let za = advance(p, true, 0, 0);
    let bigu = advance(p, true, 16, crc);
    assert(bigu == u0 ^ a1);
    assert(a1 == u1 ^ a2);
    assert(a2 == u2 ^ a3);
    assert(a3 == u3 ^ a4);
    assert(a4 == u4 ^ a5);
    assert(a5 == u5 ^ a6);
    assert(a6 == u6 ^ a7);
    assert(a7 == u7 ^ a8);
    assert(a8 == u8 ^ a9);
    assert(a9 == u9 ^ a10);
    assert(a10 == u10 ^ a11);
    assert(a11 == u11 ^ a12);
    assert(a12 == u12 ^ a13);
    assert(a13 == u13 ^ a14);
    assert(a14 == u14 ^ a15);
    assert(a15 == u15 ^ za);
    assert(za == 0);
    lemma_bv_misc(crc, 0, crc, 0, 0, 0, 0, 0);
    assert(crc ^ 0 == crc);
    lemma_update_bytes_affine(p, true, crc, 0, s);
    let q0 = update_bytes(p, true, 0, s);
    assert(update_bytes(p, true, crc, s) == bigu ^ q0);
    assert(s.skip(0) =~= s);
    let q1 = update_bytes(p, true, 0, s.skip(1));
    lemma_update_bytes_peel(p, true, s.skip(0));
    assert(s.skip(0)[0] == b0);
    assert(s.skip(0).skip(1) =~= s.skip(1));
    assert(q0 == t0 ^ q1);
    let q2 = update_bytes(p, true, 0, s.skip(2));
    lemma_update_bytes_peel(p, true, s.skip(1));
    assert(s.skip(1)[0] == b1);
    assert(s.skip(1).skip(1) =~= s.skip(2));
    assert(q1 == t1 ^ q2);
    let q3 = update_bytes(p, true, 0, s.skip(3));
    lemma_update_bytes_peel(p, true, s.skip(2));
    assert(s.skip(2)[0] == b2);
    assert(s.skip(2).skip(1) =~= s.skip(3));
    assert(q2 == t2 ^ q3);
    let q4 = update_bytes(p, true, 0, s.skip(4));
    lemma_update_bytes_peel(p, true, s.skip(3));
    assert(s.skip(3)[0] == b3);
    assert(s.skip(3).skip(1) =~= s.skip(4));
    assert(q3 == t3 ^ q4);
    let q5 = update_bytes(p, true, 0, s.skip(5));
    lemma_update_bytes_peel(p, true, s.skip(4));
    assert(s.skip(4)[0] == b4);
    assert(s.skip(4).skip(1) =~= s.skip(5));
    assert(q4 == t4 ^ q5);
    let q6 = update_bytes(p, true, 0, s.skip(6));
    lemma_update_bytes_peel(p, true, s.skip(5));
    assert(s.skip(5)[0] == b5);
    assert(s.skip(5).skip(1) =~= s.skip(6));
    assert(q5 == t5 ^ q6);
    let q7 = update_bytes(p, true, 0, s.skip(7));
    lemma_update_bytes_peel(p, true, s.skip(6));
    assert(s.skip(6)[0] == b6);
    assert(s.skip(6).skip(1) =~= s.skip(7));
    assert(q6 == t6 ^ q7);
    let q8 = update_bytes(p, true, 0, s.skip(8));
    lemma_update_bytes_peel(p, true, s.skip(7));
    assert(s.skip(7)[0] == b7);
    assert(s.skip(7).skip(1) =~= s.skip(8));
    assert(q7 == t7 ^ q8);
    let q9 = update_bytes(p, true, 0, s.skip(9));
    lemma_update_bytes_peel(p, true, s.skip(8));
    assert(s.skip(8)[0] == b8);
    assert(s.skip(8).skip(1) =~= s.skip(9));
    assert(q8 == t8 ^ q9);
    let q10 = update_bytes(p, true, 0, s.skip(10));
    lemma_update_bytes_peel(p, true, s.skip(9));
    assert(s.skip(9)[0] == b9);
    assert(s.skip(9).skip(1) =~= s.skip(10));
    assert(q9 == t9 ^ q10);
    let q11 = update_bytes(p, true, 0, s.skip(11));
    lemma_update_bytes_peel(p, true, s.skip(10));
    assert(s.skip(10)[0] == b10);
    assert(s.skip(10).skip(1) =~= s.skip(11));
    assert(q10 == t10 ^ q11);
    let q12 = update_bytes(p, true, 0, s.skip(12));
    lemma_update_bytes_peel(p, true, s.skip(11));
    assert(s.skip(11)[0] == b11);
    assert(s.skip(11).skip(1) =~= s.skip(12));
    assert(q11 == t11 ^ q12);
    let q13 = update_bytes(p, true, 0, s.skip(13));
    lemma_update_bytes_peel(p, true, s.skip(12));
    assert(s.skip(12)[0] == b12);
    assert(s.skip(12).skip(1) =~= s.skip(13));
    assert(q12 == t12 ^ q13);
    let q14 = update_bytes(p, true, 0, s.skip(14));
    lemma_update_bytes_peel(p, true, s.skip(13));
    assert(s.skip(13)[0] == b13);
    assert(s.skip(13).skip(1) =~= s.skip(14));
    assert(q13 == t13 ^ q14);
    let q15 = update_bytes(p, true, 0, s.skip(15));
    lemma_update_bytes_peel(p, true, s.skip(14));
    assert(s.skip(14)[0] == b14);
    assert(s.skip(14).skip(1) =~= s.skip(15));
    assert(q14 == t14 ^ q15);
    let q16 = update_bytes(p, true, 0, s.skip(16));
    lemma_update_bytes_peel(p, true, s.skip(15));
    assert(s.skip(15)[0] == b15);
    assert(s.skip(15).skip(1) =~= s.skip(16));
    assert(q15 == t15 ^ q16);
    assert(s.skip(16) =~= Seq::<u8>::empty());
    assert(q16 == 0);
    lemma_bv_shuffle16(bigu, a1, a2, a3, a4, a5, a6, a7, a8, a9, a10, a11, a12, a13, a14, a15, za, u0, u1, u2, u3, u4, u5, u6, u7, u8, u9, u10, u11, u12, u13, u14, u15, t0, t1, t2, t3, t4, t5, t6, t7, t8, t9, t10, t11, t12, t13, t14, t15, q0, q1, q2, q3, q4, q5, q6, q7, q8, q9, q10, q11, q12, q13, q14, q15, q16);
}

// One 16-byte window folded through the sixteen tables equals sixteen
// byte-by-byte folds (natural direction).
#[verifier::rlimit(100)]
#[verifier::spinoff_prover]
proof fn lemma_slice16_block_fwd(p: u128, tv: Seq<Seq<u128>>, crc: u128, s: Seq<u8>)
    requires
        slice16_table_ok(tv, p, false),
        s.len() == 16,
    ensures
        update_bytes(p, false, crc, s) == tv[0][(s[15] ^ (crc as u8)) as int] ^ tv[1][(s[14] ^ ((crc >> 8) as u8)) as int] ^ tv[2][(s[13] ^ ((crc >> 16) as u8)) as int] ^ tv[3][(s[12] ^ ((crc >> 24) as u8)) as int] ^ tv[4][(s[11] ^ ((crc >> 32) as u8)) as int] ^ tv[5][(s[10] ^ ((crc >> 40) as u8)) as int] ^ tv[6][(s[9] ^ ((crc >> 48) as u8)) as int] ^ tv[7][(s[8] ^ ((crc >> 56) as u8)) as int] ^ tv[8][(s[7] ^ ((crc >> 64) as u8)) as int] ^ tv[9][(s[6] ^ ((crc >> 72) as u8)) as int] ^ tv[10][(s[5] ^ ((crc >> 80) as u8)) as int] ^ tv[11][(s[4] ^ ((crc >> 88) as u8)) as int] ^ tv[12][(s[3] ^ ((crc >> 96) as u8)) as int] ^ tv[13][(s[2] ^ ((crc >> 104) as u8)) as int] ^ tv[14][(s[1] ^ ((crc >> 112) as u8)) as int] ^ tv[15][(s[0] ^ ((crc >> 120) as u8)) as int],
{
    let b0 = s[0];
    let b1 = s[1];
    let b2 = s[2];
    let b3 = s[3];
    let b4 = s[4];
    let b5 = s[5];
    let b6 = s[6];
    let b7 = s[7];
    let b8 = s[8];
    let b9 = s[9];
    let b10 = s[10];
    let b11 = s[11];
    let b12 = s[12];
    let b13 = s[13];
    let b14 = s[14];
    let b15 = s[15];
    let z0 = byte_inject(false, b0) as u128;
    let z1 = byte_inject(false, b1) as u128;
    let z2 = byte_inject(false, b2) as u128;
    let z3 = byte_inject(false, b3) as u128;
    let z4 = byte_inject(false, b4) as u128;
    let z5 = byte_inject(false, b5) as u128;
    let z6 = byte_inject(false, b6) as u128;
    let z7 = byte_inject(false, b7) as u128;
    let z8 = byte_inject(false, b8) as u128;
    let z9 = byte_inject(false, b9) as u128;
    let z10 = byte_inject(false, b10) as u128;
    let z11 = byte_inject(false, b11) as u128;
    let z12 = byte_inject(false, b12) as u128;
    let z13 = byte_inject(false, b13) as u128;
    let z14 = byte_inject(false, b14) as u128;
    let z15 = byte_inject(false, b15) as u128;
    let t0 = advance(p, false, 16, z0);
    let t1 = advance(p, false, 15, z1);
    let t2 = advance(p, false, 14, z2);
    let t3 = advance(p, false, 13, z3);
    let t4 = advance(p, false, 12, z4);
    let t5 = advance(p, false, 11, z5);
    let t6 = advance(p, false, 10, z6);
    let t7 = advance(p, false, 9, z7);
    let t8 = advance(p, false, 8, z8);
    let t9 = advance(p, false, 7, z9);
    let t10 = advance(p, false, 6, z10);
    let t11 = advance(p, false, 5, z11);
    let t12 = advance(p, false, 4, z12);
    let t13 = advance(p, false, 3, z13);
    let t14 = advance(p, false, 2, z14);
    let t15 = advance(p, false, 1, z15);
    let c0 = (crc >> 120) << 120;
    let u0 = advance(p, false, 16, c0);
    let c1 = ((crc << 8) >> 120) << 120;
    let u1 = advance(p, false, 15, c1);
    let c2 = ((crc << 16) >> 120) << 120;
    let u2 = advance(p, false, 14, c2);
    let c3 = ((crc << 24) >> 120) << 120;
    let u3 = advance(p, false, 13, c3);
    let c4 = ((crc << 32) >> 120) << 120;
    let u4 = advance(p, false, 12, c4);
    let c5 = ((crc << 40) >> 120) << 120;
    let u5 = advance(p, false, 11, c5);
    let c6 = ((crc << 48) >> 120) << 120;
    let u6 = advance(p, false, 10, c6);
    let c7 = ((crc << 56) >> 120) << 120;
    let u7 = advance(p, false, 9, c7);
    let c8 = ((crc << 64) >> 120) << 120;
    let u8 = advance(p, false, 8, c8);
    let c9 = ((crc << 72) >> 120) << 120;
    let u9 = advance(p, false, 7, c9);
    let c10 = ((crc << 80) >> 120) << 120;
    let u10 = advance(p, false, 6, c10);
    let c11 = ((crc << 88) >> 120) << 120;
    let u11 = advance(p, false, 5, c11);
    let c12 = ((crc << 96) >> 120) << 120;
    let u12 = advance(p, false, 4, c12);
    let c13 = ((crc << 104) >> 120) << 120;
    let u13 = advance(p, false, 3, c13);
    let c14 = ((crc << 112) >> 120) << 120;
    let u14 = advance(p, false, 2, c14);
    let c15 = ((crc << 120) >> 120) << 120;
    let u15 = advance(p, false, 1, c15);
    let cur0 = b0 ^ ((crc >> 120) as u8);
    let zc0 = byte_inject(false, cur0) as u128;
    lemma_bv_misc(0, 0, crc >> 120, 0, b0, 0, 0, 0);
    lemma_bv_misc(0, 0, crc, 0, b0, 0, 0, 0);
    assert(zc0 == z0 ^ c0);
    assert((cur0 as u128) as u8 == cur0);
    lemma_table0_entry(p, false, cur0 as u128);
    assert(crc128_spec(p, false, cur0 as u128) == update_byte(p, false, zc0, 0));
    lemma_advance_commute(p, false, 15, zc0);
    lemma_advance_linear(p, false, 16, z0, c0);
    assert((cur0 as int) as u128 == cur0 as u128);
    assert(tv[15][cur0 as int] == advance(p, false, 15, crc128_spec(p, false, cur0 as u128)));
    assert(tv[15][cur0 as int] == t0 ^ u0);
    let cur1 = b1 ^ ((crc >> 112) as u8);
    let zc1 = byte_inject(false, cur1) as u128;
    lemma_bv_misc(0, 0, crc >> 112, 0, b1, 0, 0, 0);
    lemma_bv_misc(0, 0, crc, 0, b1, 0, 0, 0);
    assert(zc1 == z1 ^ c1);
    assert((cur1 as u128) as u8 == cur1);
    lemma_table0_entry(p, false, cur1 as u128);
    assert(crc128_spec(p, false, cur1 as u128) == update_byte(p, false, zc1, 0));
    lemma_advance_commute(p, false, 14, zc1);
    lemma_advance_linear(p, false, 15, z1, c1);
    assert((cur1 as int) as u128 == cur1 as u128);
    assert(tv[14][cur1 as int] == advance(p, false, 14, crc128_spec(p, false, cur1 as u128)));
    assert(tv[14][cur1 as int] == t1 ^ u1);
    let cur2 = b2 ^ ((crc >> 104) as u8);
    let zc2 = byte_inject(false, cur2) as u128;
    lemma_bv_misc(0, 0, crc >> 104, 0, b2, 0, 0, 0);
    lemma_bv_misc(0, 0, crc, 0, b2, 0, 0, 0);
    assert(zc2 == z2 ^ c2);
    assert((cur2 as u128) as u8 == cur2);
    lemma_table0_entry(p, false, cur2 as u128);
    assert(crc128_spec(p, false, cur2 as u128) == update_byte(p, false, zc2, 0));
    lemma_advance_commute(p, false, 13, zc2);
    lemma_advance_linear(p, false, 14, z2, c2);
    assert((cur2 as int) as u128 == cur2 as u128);
    assert(tv[13][cur2 as int] == advance(p, false, 13, crc128_spec(p, false, cur2 as u128)));
    assert(tv[13][cur2 as int] == t2 ^ u2);
    let cur3 = b3 ^ ((crc >> 96) as u8);
    let zc3 = byte_inject(false, cur3) as u128;
    lemma_bv_misc(0, 0, crc >> 96, 0, b3, 0, 0, 0);
    lemma_bv_misc(0, 0, crc, 0, b3, 0, 0, 0);
    assert(zc3 == z3 ^ c3);
    assert((cur3 as u128) as u8 == cur3);
    lemma_table0_entry(p, false, cur3 as u128);
    assert(crc128_spec(p, false, cur3 as u128) == update_byte(p, false, zc3, 0));
    lemma_advance_commute(p, false, 12, zc3);
    lemma_advance_linear(p, false, 13, z3, c3);
    assert((cur3 as int) as u128 == cur3 as u128);
    assert(tv[12][cur3 as int] == advance(p, false, 12, crc128_spec(p, false, cur3 as u128)));
    assert(tv[12][cur3 as int] == t3 ^ u3);
    let cur4 = b4 ^ ((crc >> 88) as u8);
    let zc4 = byte_inject(false, cur4) as u128;
    lemma_bv_misc(0, 0, crc >> 88, 0, b4, 0, 0, 0);
    lemma_bv_misc(0, 0, crc, 0, b4, 0, 0, 0);
    assert(zc4 == z4 ^ c4);
    assert((cur4 as u128) as u8 == cur4);
    lemma_table0_entry(p, false, cur4 as u128);
    assert(crc128_spec(p, false, cur4 as u128) == update_byte(p, false, zc4, 0));
    lemma_advance_commute(p, false, 11, zc4);
    lemma_advance_linear(p, false, 12, z4, c4);
    assert((cur4 as int) as u128 == cur4 as u128);
    assert(tv[11][cur4 as int] == advance(p, false, 11, crc128_spec(p, false, cur4 as u128)));
    assert(tv[11][cur4 as int] == t4 ^ u4);
    let cur5 = b5 ^ ((crc >> 80) as u8);
    let zc5 = byte_inject(false, cur5) as u128;
    lemma_bv_misc(0, 0, crc >> 80, 0, b5, 0, 0, 0);
    lemma_bv_misc(0, 0, crc, 0, b5, 0, 0, 0);
    assert(zc5 == z5 ^ c5);
    assert((cur5 as u128) as u8 == cur5);
    lemma_table0_entry(p, false, cur5 as u128);
    assert(crc128_spec(p, false, cur5 as u128) == update_byte(p, false, zc5, 0));
    lemma_advance_commute(p, false, 10, zc5);
    lemma_advance_linear(p, false, 11, z5, c5);
    assert((cur5 as int) as u128 == cur5 as u128);
    assert(tv[10][cur5 as int] == advance(p, false, 10, crc128_spec(p, false, cur5 as u128)));
    assert(tv[10][cur5 as int] == t5 ^ u5);
    let cur6 = b6 ^ ((crc >> 72) as u8);
    let zc6 = byte_inject(false, cur6) as u128;
    lemma_bv_misc(0, 0, crc >> 72, 0, b6, 0, 0, 0);
    lemma_bv_misc(0, 0, crc, 0, b6, 0, 0, 0);
    assert(zc6 == z6 ^ c6);
    assert((cur6 as u128) as u8 == cur6);
    lemma_table0_entry(p, false, cur6 as u128);
    assert(crc128_spec(p, false, cur6 as u128) == update_byte(p, false, zc6, 0));
    lemma_advance_commute(p, false, 9, zc6);
    lemma_advance_linear(p, false, 10, z6, c6);
    assert((cur6 as int) as u128 == cur6 as u128);
    assert(tv[9][cur6 as int] == advance(p, false, 9, crc128_spec(p, false, cur6 as u128)));
    assert(tv[9][cur6 as int] == t6 ^ u6);
    let cur7 = b7 ^ ((crc >> 64) as u8);
    let zc7 = byte_inject(false, cur7) as u128;
    lemma_bv_misc(0, 0, crc >> 64, 0, b7, 0, 0, 0);
    lemma_bv_misc(0, 0, crc, 0, b7, 0, 0, 0);
    assert(zc7 == z7 ^ c7);
    assert((cur7 as u128) as u8 == cur7);
    lemma_table0_entry(p, false, cur7 as u128);
    assert(crc128_spec(p, false, cur7 as u128) == update_byte(p, false, zc7, 0));
    lemma_advance_commute(p, false, 8, zc7);
    lemma_advance_linear(p, false, 9, z7, c7);
    assert((cur7 as int) as u128 == cur7 as u128);
    assert(tv[8][cur7 as int] == advance(p, false, 8, crc128_spec(p, false, cur7 as u128)));
    assert(tv[8][cur7 as int] == t7 ^ u7);
    let cur8 = b8 ^ ((crc >> 56) as u8);
    let zc8 = byte_inject(false, cur8) as u128;
    lemma_bv_misc(0, 0, crc >> 56, 0, b8, 0, 0, 0);
    lemma_bv_misc(0, 0, crc, 0, b8, 0, 0, 0);
    assert(zc8 == z8 ^ c8);
    assert((cur8 as u128) as u8 == cur8);
    lemma_table0_entry(p, false, cur8 as u128);
    assert(crc128_spec(p, false, cur8 as u128) == update_byte(p, false, zc8, 0));
    lemma_advance_commute(p, false, 7, zc8);
    lemma_advance_linear(p, false, 8, z8, c8);
    assert((cur8 as int) as u128 == cur8 as u128);
    assert(tv[7][cur8 as int] == advance(p, false, 7, crc128_spec(p, false, cur8 as u128)));
    assert(tv[7][cur8 as int] == t8 ^ u8);
    let cur9 = b9 ^ ((crc >> 48) as u8);
    let zc9 = byte_inject(false, cur9) as u128;
    lemma_bv_misc(0, 0, crc >> 48, 0, b9, 0, 0, 0);
    lemma_bv_misc(0, 0, crc, 0, b9, 0, 0, 0);
    assert(zc9 == z9 ^ c9);
    assert((cur9 as u128) as u8 == cur9);
    lemma_table0_entry(p, false, cur9 as u128);
    assert(crc128_spec(p, false, cur9 as u128) == update_byte(p, false, zc9, 0));
    lemma_advance_commute(p, false, 6, zc9);
    lemma_advance_linear(p, false, 7, z9, c9);
    assert((cur9 as int) as u128 == cur9 as u128);
    assert(tv[6][cur9 as int] == advance(p, false, 6, crc128_spec(p, false, cur9 as u128)));
    assert(tv[6][cur9 as int] == t9 ^ u9);
    let cur10 = b10 ^ ((crc >> 40) as u8);
    let zc10 = byte_inject(false, cur10) as u128;
    lemma_bv_misc(0, 0, crc >> 40, 0, b10, 0, 0, 0);
    lemma_bv_misc(0, 0, crc, 0, b10, 0, 0, 0);
    assert(zc10 == z10 ^ c10);
    assert((cur10 as u128) as u8 == cur10);
    lemma_table0_entry(p, false, cur10 as u128);
    assert(crc128_spec(p, false, cur10 as u128) == update_byte(p, false, zc10, 0));
    lemma_advance_commute(p, false, 5, zc10);
    lemma_advance_linear(p, false, 6, z10, c10);
    assert((cur10 as int) as u128 == cur10 as u128);
    assert(tv[5][cur10 as int] == advance(p, false, 5, crc128_spec(p, false, cur10 as u128)));
    assert(tv[5][cur10 as int] == t10 ^ u10);
    let cur11 = b11 ^ ((crc >> 32) as u8);
    let zc11 = byte_inject(false, cur11) as u128;
    lemma_bv_misc(0, 0, crc >> 32, 0, b11, 0, 0, 0);
    lemma_bv_misc(0, 0, crc, 0, b11, 0, 0, 0);
    assert(zc11 == z11 ^ c11);
    assert((cur11 as u128) as u8 == cur11);
    lemma_table0_entry(p, false, cur11 as u128);
    assert(crc128_spec(p, false, cur11 as u128) == update_byte(p, false, zc11, 0));
    lemma_advance_commute(p, false, 4, zc11);
    lemma_advance_linear(p, false, 5, z11, c11);
    assert((cur11 as int) as u128 == cur11 as u128);
    assert(tv[4][cur11 as int] == advance(p, false, 4, crc128_spec(p, false, cur11 as u128)));
    assert(tv[4][cur11 as int] == t11 ^ u11);
    let cur12 = b12 ^ ((crc >> 24) as u8);
    let zc12 = byte_inject(false, cur12) as u128;
    lemma_bv_misc(0, 0, crc >> 24, 0, b12, 0, 0, 0);
    lemma_bv_misc(0, 0, crc, 0, b12, 0, 0, 0);
    assert(zc12 == z12 ^ c12);
    assert((cur12 as u128) as u8 == cur12);
    lemma_table0_entry(p, false, cur12 as u128);
    assert(crc128_spec(p, false, cur12 as u128) == update_byte(p, false, zc12, 0));
    lemma_advance_commute(p, false, 3, zc12);
    lemma_advance_linear(p, false, 4, z12, c12);
    assert((cur12 as int) as u128 == cur12 as u128);
    assert(tv[3][cur12 as int] == advance(p, false, 3, crc128_spec(p, false, cur12 as u128)));
    assert(tv[3][cur12 as int] == t12 ^ u12);
    let cur13 = b13 ^ ((crc >> 16) as u8);
    let zc13 = byte_inject(false, cur13) as u128;
    lemma_bv_misc(0, 0, crc >> 16, 0, b13, 0, 0, 0);
    lemma_bv_misc(0, 0, crc, 0, b13, 0, 0, 0);
    assert(zc13 == z13 ^ c13);
    assert((cur13 as u128) as u8 == cur13);
    lemma_table0_entry(p, false, cur13 as u128);
    assert(crc128_spec(p, false, cur13 as u128) == update_byte(p, false, zc13, 0));
    lemma_advance_commute(p, false, 2, zc13);
    lemma_advance_linear(p, false, 3, z13, c13);
    assert((cur13 as int) as u128 == cur13 as u128);
    assert(tv[2][cur13 as int] == advance(p, false, 2, crc128_spec(p, false, cur13 as u128)));
    assert(tv[2][cur13 as int] == t13 ^ u13);
    let cur14 = b14 ^ ((crc >> 8) as u8);
    let zc14 = byte_inject(false, cur14) as u128;
    lemma_bv_misc(0, 0, crc >> 8, 0, b14, 0, 0, 0);
    lemma_bv_misc(0, 0, crc, 0, b14, 0, 0, 0);
    assert(zc14 == z14 ^ c14);
    assert((cur14 as u128) as u8 == cur14);
    lemma_table0_entry(p, false, cur14 as u128);
    assert(crc128_spec(p, false, cur14 as u128) == update_byte(p, false, zc14, 0));
    lemma_advance_commute(p, false, 1, zc14);
    lemma_advance_linear(p, false, 2, z14, c14);
    assert((cur14 as int) as u128 == cur14 as u128);
    assert(tv[1][cur14 as int] == advance(p, false, 1, crc128_spec(p, false, cur14 as u128)));
    assert(tv[1][cur14 as int] == t14 ^ u14);
    let cur15 = b15 ^ (crc as u8);
    let zc15 = byte_inject(false, cur15) as u128;
    lemma_bv_misc(0, 0, crc, 0, b15, 0, 0, 0);
    lemma_bv_misc(0, 0, crc, 0, b15, 0, 0, 0);
    assert(zc15 == z15 ^ c15);
    assert((cur15 as u128) as u8 == cur15);
    lemma_table0_entry(p, false, cur15 as u128);
    assert(crc128_spec(p, false, cur15 as u128) == update_byte(p, false, zc15, 0));
    lemma_advance_commute(p, false, 0, zc15);
    lemma_advance_linear(p, false, 1, z15, c15);
    assert((cur15 as int) as u128 == cur15 as u128);
    assert(tv[0][cur15 as int] == advance(p, false, 0, crc128_spec(p, false, cur15 as u128)));
    assert(tv[0][cur15 as int] == t15 ^ u15);
    lemma_bv_misc(0, 0, crc, 0, 0, 0, 0, 0);
    lemma_advance_split(p, false, 16, crc);
    lemma_advance_split(p, false, 15, crc << 8);
    lemma_advance_split(p, false, 14, crc << 16);
    lemma_advance_split(p, false, 13, crc << 24);
    lemma_advance_split(p, false, 12, crc << 32);
    lemma_advance_split(p, false, 11, crc << 40);
    lemma_advance_split(p, false, 10, crc << 48);
    lemma_advance_split(p, false, 9, crc << 56);
    lemma_advance_split(p, false, 8, crc << 64);
    lemma_advance_split(p, false, 7, crc << 72);
    lemma_advance_split(p, false, 6, crc << 80);
    lemma_advance_split(p, false, 5, crc << 88);
    lemma_advance_split(p, false, 4, crc << 96);
    lemma_advance_split(p, false, 3, crc << 104);
    lemma_advance_split(p, false, 2, crc << 112);
    lemma_advance_split(p, false, 1, crc << 120);
    lemma_advance_linear(p, false, 0, 0, 0);
    let a1 = advance(p, false, 15, crc << 8);
    let a2 = advance(p, false, 14, crc << 16);
    let a3 = advance(p, false, 13, crc << 24);
    let a4 = advance(p, false, 12, crc << 32);
    let a5 = advance(p, false, 11, crc << 40);
    let a6 = advance(p, false, 10, crc << 48);
    let a7 = advance(p, false, 9, crc << 56);
    let a8 = advance(p, false, 8, crc << 64);
    let a9 = advance(p, false, 7, crc << 72);
    let a10 = advance(p, false, 6, crc << 80);
    let a11 = advance(p, false, 5, crc << 88);
    let a12 = advance(p, false, 4, crc << 96);
    let a13 = advance(p, false, 3, crc << 104);
    let a14 = advance(p, false, 2, crc << 112);
    let a15 = advance(p, false, 1, crc << 120);
    let za = advance(p, false, 0, 0);
    let bigu = advance(p, false, 16, crc);
    assert(bigu == u0 ^ a1);
    assert(a1 == u1 ^ a2);
    assert(a2 == u2 ^ a3);
    assert(a3 == u3 ^ a4);
    assert(a4 == u4 ^ a5);
    assert(a5 == u5 ^ a6);
    assert(a6 == u6 ^ a7);
    assert(a7 == u7 ^ a8);
    assert(a8 == u8 ^ a9);
    assert(a9 == u9 ^ a10);
    assert(a10 == u10 ^ a11);
    assert(a11 == u11 ^ a12);
    assert(a12 == u12 ^ a13);
    assert(a13 == u13 ^ a14);
    assert(a14 == u14 ^ a15);
    assert(a15 == u15 ^ za);
    assert(za == 0);
    lemma_bv_misc(crc, 0, crc, 0, 0, 0, 0, 0);
    assert(crc ^ 0 == crc);
    lemma_update_bytes_affine(p, false, crc, 0, s);
    let q0 = update_bytes(p, false, 0, s);
    assert(update_bytes(p, false, crc, s) == bigu ^ q0);
    assert(s.skip(0) =~= s);
    let q1 = update_bytes(p, false, 0, s.skip(1));
    lemma_update_bytes_peel(p, false, s.skip(0));
    assert(s.skip(0)[0] == b0);
    assert(s.skip(0).skip(1) =~= s.skip(1));
    assert(q0 == t0 ^ q1);
    let q2 = update_bytes(p, false, 0, s.skip(2));
    lemma_update_bytes_peel(p, false, s.skip(1));
    assert(s.skip(1)[0] == b1);
    assert(s.skip(1).skip(1) =~= s.skip(2));
    assert(q1 == t1 ^ q2);
    let q3 = update_bytes(p, false, 0, s.skip(3));
    lemma_update_bytes_peel(p, false, s.skip(2));
    assert(s.skip(2)[0] == b2);
    assert(s.skip(2).skip(1) =~= s.skip(3));
    assert(q2 == t2 ^ q3);
    let q4 = update_bytes(p, false, 0, s.skip(4));
    lemma_update_bytes_peel(p, false, s.skip(3));
    assert(s.skip(3)[0] == b3);
    assert(s.skip(3).skip(1) =~= s.skip(4));
    assert(q3 == t3 ^ q4);
    let q5 = update_bytes(p, false, 0, s.skip(5));
    lemma_update_bytes_peel(p, false, s.skip(4));
    assert(s.skip(4)[0] == b4);
    assert(s.skip(4).skip(1) =~= s.skip(5));
    assert(q4 == t4 ^ q5);
    let q6 = update_bytes(p, false, 0, s.skip(6));
    lemma_update_bytes_peel(p, false, s.skip(5));
    assert(s.skip(5)[0] == b5);
    assert(s.skip(5).skip(1) =~= s.skip(6));
    assert(q5 == t5 ^ q6);
    let q7 = update_bytes(p, false, 0, s.skip(7));
    lemma_update_bytes_peel(p, false, s.skip(6));
    assert(s.skip(6)[0] == b6);
    assert(s.skip(6).skip(1) =~= s.skip(7));
    assert(q6 == t6 ^ q7);
    let q8 = update_bytes(p, false, 0, s.skip(8));
    lemma_update_bytes_peel(p, false, s.skip(7));
    assert(s.skip(7)[0] == b7);
    assert(s.skip(7).skip(1) =~= s.skip(8));
    assert(q7 == t7 ^ q8);
    let q9 = update_bytes(p, false, 0, s.skip(9));
    lemma_update_bytes_peel(p, false, s.skip(8));
    assert(s.skip(8)[0] == b8);
    assert(s.skip(8).skip(1) =~= s.skip(9));
    assert(q8 == t8 ^ q9);
    let q10 = update_bytes(p, false, 0, s.skip(10));
    lemma_update_bytes_peel(p, false, s.skip(9));
    assert(s.skip(9)[0] == b9);
    assert(s.skip(9).skip(1) =~= s.skip(10));
    assert(q9 == t9 ^ q10);
    let q11 = update_bytes(p, false, 0, s.skip(11));
    lemma_update_bytes_peel(p, false, s.skip(10));
    assert(s.skip(10)[0] == b10);
    assert(s.skip(10).skip(1) =~= s.skip(11));
    assert(q10 == t10 ^ q11);
    let q12 = update_bytes(p, false, 0, s.skip(12));
    lemma_update_bytes_peel(p, false, s.skip(11));
    assert(s.skip(11)[0] == b11);
    assert(s.skip(11).skip(1) =~= s.skip(12));
    assert(q11 == t11 ^ q12);
    let q13 = update_bytes(p, false, 0, s.skip(13));
    lemma_update_bytes_peel(p, false, s.skip(12));
    assert(s.skip(12)[0] == b12);
    assert(s.skip(12).skip(1) =~= s.skip(13));
    assert(q12 == t12 ^ q13);
    let q14 = update_bytes(p, false, 0, s.skip(14));
    lemma_update_bytes_peel(p, false, s.skip(13));
    assert(s.skip(13)[0] == b13);
    assert(s.skip(13).skip(1) =~= s.skip(14));
    assert(q13 == t13 ^ q14);
    let q15 = update_bytes(p, false, 0, s.skip(15));
    lemma_update_bytes_peel(p, false, s.skip(14));
    assert(s.skip(14)[0] == b14);
    assert(s.skip(14).skip(1) =~= s.skip(15));
    assert(q14 == t14 ^ q15);
    let q16 = update_bytes(p, false, 0, s.skip(16));
    lemma_update_bytes_peel(p, false, s.skip(15));
    assert(s.skip(15)[0] == b15);
    assert(s.skip(15).skip(1) =~= s.skip(16));
    assert(q15 == t15 ^ q16);
    assert(s.skip(16) =~= Seq::<u8>::empty());
    assert(q16 == 0);
    lemma_bv_shuffle16(bigu, a1, a2, a3, a4, a5, a6, a7, a8, a9, a10, a11, a12, a13, a14, a15, za, u0, u1, u2, u3, u4, u5, u6, u7, u8, u9, u10, u11, u12, u13, u14, u15, t0, t1, t2, t3, t4, t5, t6, t7, t8, t9, t10, t11, t12, t13, t14, t15, q0, q1, q2, q3, q4, q5, q6, q7, q8, q9, q10, q11, q12, q13, q14, q15, q16);
}

// One 16-byte window of the slice-by-16 strategy (reflected
// direction).
#[verifier::rlimit(100)]
#[verifier::spinoff_prover]
fn slice16_block_ref(crc: u128, table: &Vec<Vec<u128>>, bytes: &[u8], i: usize) -> (nc: u128)
    requires
        slice16_table_ok(table.deep_view(), slice16_poly(table.deep_view(), true), true),
        i + 16 <= bytes@.len(),
    ensures
        nc == update_bytes(
            slice16_poly(table.deep_view(), true),
            true,
            crc,
            bytes@.subrange(i as int, i as int + 16),
        ),
{
    let ghost tv = table.deep_view();
    let ghost p = slice16_poly(tv, true);
    proof {
        assert(tv.len() == table@.len());
        assert forall|e: int| 0 <= e < 16 implies tv[e] == #[trigger] table@[e]@ by {
            assert(tv[e] =~= table@[e]@);
        }
    }
    let b0 = bytes[i];
    let b1 = bytes[i + 1];
    let b2 = bytes[i + 2];
    let b3 = bytes[i + 3];
    let b4 = bytes[i + 4];
    let b5 = bytes[i + 5];
    let b6 = bytes[i + 6];
    let b7 = bytes[i + 7];
    let b8 = bytes[i + 8];
    let b9 = bytes[i + 9];
    let b10 = bytes[i + 10];
    let b11 = bytes[i + 11];
    let b12 = bytes[i + 12];
    let b13 = bytes[i + 13];
    let b14 = bytes[i + 14];
    let b15 = bytes[i + 15];
    let cur0 = b0 ^ (crc as u8);
    let cur1 = b1 ^ ((crc >> 8) as u8);
    let cur2 = b2 ^ ((crc >> 16) as u8);
    let cur3 = b3 ^ ((crc >> 24) as u8);
    let cur4 = b4 ^ ((crc >> 32) as u8);
    let cur5 = b5 ^ ((crc >> 40) as u8);
    let cur6 = b6 ^ ((crc >> 48) as u8);
    let cur7 = b7 ^ ((crc >> 56) as u8);
    let cur8 = b8 ^ ((crc >> 64) as u8);
    let cur9 = b9 ^ ((crc >> 72) as u8);
    let cur10 = b10 ^ ((crc >> 80) as u8);
    let cur11 = b11 ^ ((crc >> 88) as u8);
    let cur12 = b12 ^ ((crc >> 96) as u8);
    let cur13 = b13 ^ ((crc >> 104) as u8);
    let cur14 = b14 ^ ((crc >> 112) as u8);
    let cur15 = b15 ^ ((crc >> 120) as u8);
    let nc = table[0][cur15 as usize] ^ table[1][cur14 as usize] ^ table[2][cur13 as usize] ^ table[3][cur12 as usize] ^ table[4][cur11 as usize] ^ table[5][cur10 as usize] ^ table[6][cur9 as usize] ^ table[7][cur8 as usize] ^ table[8][cur7 as usize] ^ table[9][cur6 as usize] ^ table[10][cur5 as usize] ^ table[11][cur4 as usize] ^ table[12][cur3 as usize] ^ table[13][cur2 as usize] ^ table[14][cur1 as usize] ^ table[15][cur0 as usize];
    proof {
        let s = bytes@.subrange(i as int, i + 16);
        lemma_slice16_block_ref(p, tv, crc, s);
        assert(nc == update_bytes(p, true, crc, s));
    }
    nc
}

// One 16-byte window of the slice-by-16 strategy (natural
// direction).
#[verifier::rlimit(100)]
#[verifier::spinoff_prover]
fn slice16_block_fwd(crc: u128, table: &Vec<Vec<u128>>, bytes: &[u8], i: usize) -> (nc: u128)
    requires
        slice16_table_ok(table.deep_view(), slice16_poly(table.deep_view(), false), false),
        i + 16 <= bytes@.len(),
    ensures
        nc == update_bytes(
            slice16_poly(table.deep_view(), false),
            false,
            crc,
            bytes@.subrange(i as int, i as int + 16),
        ),
{
    let ghost tv = table.deep_view();
    let ghost p = slice16_poly(tv, false);
    proof {
        assert(tv.len() == table@.len());
        assert forall|e: int| 0 <= e < 16 implies tv[e] == #[trigger] table@[e]@ by {
            assert(tv[e] =~= table@[e]@);
        }
    }
    let b0 = bytes[i];
    let b1 = bytes[i + 1];
    let b2 = bytes[i + 2];
    let b3 = bytes[i + 3];
    let b4 = bytes[i + 4];
    let b5 = bytes[i + 5];
    let b6 = bytes[i + 6];
    let b7 = bytes[i + 7];
    let b8 = bytes[i + 8];
    let b9 = bytes[i + 9];
    let b10 = bytes[i + 10];
    let b11 = bytes[i + 11];
    let b12 = bytes[i + 12];
    let b13 = bytes[i + 13];
    let b14 = bytes[i + 14];
    let b15 = bytes[i + 15];
    let cur0 = b0 ^ ((crc >> 120) as u8);
    let cur1 = b1 ^ ((crc >> 112) as u8);
    let cur2 = b2 ^ ((crc >> 104) as u8);
    let cur3 = b3 ^ ((crc >> 96) as u8);
    let cur4 = b4 ^ ((crc >> 88) as u8);
    let cur5 = b5 ^ ((crc >> 80) as u8);
    let cur6 = b6 ^ ((crc >> 72) as u8);
    let cur7 = b7 ^ ((crc >> 64) as u8);
    let cur8 = b8 ^ ((crc >> 56) as u8);
    let cur9 = b9 ^ ((crc >> 48) as u8);
    let cur10 = b10 ^ ((crc >> 40) as u8);
    let cur11 = b11 ^ ((crc >> 32) as u8);
    let cur12 = b12 ^ ((crc >> 24) as u8);
    let cur13 = b13 ^ ((crc >> 16) as u8);
    let cur14 = b14 ^ ((crc >> 8) as u8);
    let cur15 = b15 ^ (crc as u8);
    let nc = table[0][cur15 as usize] ^ table[1][cur14 as usize] ^ table[2][cur13 as usize] ^ table[3][cur12 as usize] ^ table[4][cur11 as usize] ^ table[5][cur10 as usize] ^ table[6][cur9 as usize] ^ table[7][cur8 as usize] ^ table[8][cur7 as usize] ^ table[9][cur6 as usize] ^ table[10][cur5 as usize] ^ table[11][cur4 as usize] ^ table[12][cur3 as usize] ^ table[13][cur2 as usize] ^ table[14][cur1 as usize] ^ table[15][cur0 as usize];
    proof {
        let s = bytes@.subrange(i as int, i + 16);
        lemma_slice16_block_fwd(p, tv, crc, s);
        assert(nc == update_bytes(p, false, crc, s));
    }
    nc
}

/// The slice-by-16 update strategy: sixteen input bytes per round of table
/// lookups, with a byte-wise tail.
pub fn update_slice16(crc: u128, reflect: bool, table: &Vec<Vec<u128>>, bytes: &[u8]) -> (r: u128)
    requires
        slice16_table_ok(table.deep_view(), slice16_poly(table.deep_view(), reflect), reflect),
    ensures
        r == update_bytes(slice16_poly(table.deep_view(), reflect), reflect, crc, bytes@),
{
    let ghost tv = table.deep_view();
    let ghost p = slice16_poly(tv, reflect);
    let mut crc = crc;
    let ghost crc0 = crc;
    let mut i: usize = 0;
    if reflect {
        while bytes.len() - i >= 16
            invariant
                i <= bytes.len(),
                tv == table.deep_view(),
                p == slice16_poly(tv, true),
                slice16_table_ok(tv, p, true),
                reflect,
                crc == update_bytes(p, true, crc0, bytes@.take(i as int)),
            decreases bytes.len() - i,
        {
            let nc = slice16_block_ref(crc, table, bytes, i);
            proof {
                let s = bytes@.subrange(i as int, i as int + 16);
                assert(bytes@.take(i + 16) =~= bytes@.take(i as int) + s);
                lemma_update_bytes_concat(p, true, crc0, bytes@.take(i as int), s);
            }
            crc = nc;
            i += 16;
        }
        proof {
            assert(tv.len() == table@.len());
            assert forall|e: int| 0 <= e < 16 implies tv[e] == #[trigger] table@[e]@ by {
                assert(tv[e] =~= table@[e]@);
            }
        }
        while i < bytes.len()
            invariant
                i <= bytes.len(),
                tv == table.deep_view(),
                p == slice16_poly(tv, true),
                slice16_table_ok(tv, p, true),
                reflect,
                tv.len() == table@.len(),
                forall|e: int| 0 <= e < 16 ==> tv[e] == #[trigger] table@[e]@,
                crc == update_bytes(p, true, crc0, bytes@.take(i as int)),
            decreases bytes.len() - i,
        {
            proof {
                lemma_bv_misc(crc ^ (bytes@[i as int] as u128), 0, crc ^ (bytes@[i as int] as u128), 0, 0, 0, 0, 0);
                assert(bytes@.take(i + 1) =~= bytes@.take(i as int).push(bytes@[i as int]));
                lemma_update_bytes_push(p, true, crc0, bytes@.take(i as int), bytes@[i as int]);
            }
            let table_index = ((crc ^ bytes[i] as u128) & 0xFF) as usize;
            crc = table[0][table_index] ^ (crc >> 8);
            i += 1;
        }
    } else {
        while bytes.len() - i >= 16
            invariant
                i <= bytes.len(),
                tv == table.deep_view(),
                p == slice16_poly(tv, false),
                slice16_table_ok(tv, p, false),
                !reflect,
                crc == update_bytes(p, false, crc0, bytes@.take(i as int)),
            decreases bytes.len() - i,
        {
            let nc = slice16_block_fwd(crc, table, bytes, i);
            proof {
                let s = bytes@.subrange(i as int, i as int + 16);
                assert(bytes@.take(i + 16) =~= bytes@.take(i as int) + s);
                lemma_update_bytes_concat(p, false, crc0, bytes@.take(i as int), s);
            }
            crc = nc;
            i += 16;
        }
        proof {
            assert(tv.len() == table@.len());
            assert forall|e: int| 0 <= e < 16 implies tv[e] == #[trigger] table@[e]@ by {
                assert(tv[e] =~= table@[e]@);
            }
        }
        while i < bytes.len()
            invariant
                i <= bytes.len(),
                tv == table.deep_view(),
                p == slice16_poly(tv, false),
                slice16_table_ok(tv, p, false),
                !reflect,
                tv.len() == table@.len(),
                forall|e: int| 0 <= e < 16 ==> tv[e] == #[trigger] table@[e]@,
                crc == update_bytes(p, false, crc0, bytes@.take(i as int)),
            decreases bytes.len() - i,
        {
            proof {
                lemma_bv_misc((crc >> 120) ^ (bytes@[i as int] as u128), 0, (crc >> 120) ^ (bytes@[i as int] as u128), 0, 0, 0, 0, 0);
                assert(bytes@.take(i + 1) =~= bytes@.take(i as int).push(bytes@[i as int]));
                lemma_update_bytes_push(p, false, crc0, bytes@.take(i as int), bytes@[i as int]);
            }
            let table_index = (((crc >> 120) ^ bytes[i] as u128) & 0xFF) as usize;
            crc = table[0][table_index] ^ (crc << 8);
            i += 1;
        }
    }
    proof {
        assert(bytes@.take(bytes@.len() as int) =~= bytes@);
    }
    crc
}


// ---------------------------------------------------------------------------
// Engine and streaming digest
// ---------------------------------------------------------------------------

/// Whether an algorithm record satisfies the construction-time contract,
/// decided at run time: for callers that cannot evaluate the specification
/// predicate before building an engine.
pub fn valid(algorithm: &Algorithm<u128>) -> (r: bool)
    ensures
        r == algorithm_valid(*algorithm),
{
    let w = algorithm.width;
    if w < 1 || w > 128 {
        return false;
    }
    if w == 128 {
        return true;
    }
    let s = w as u128;
    algorithm.poly >> s == 0 && algorithm.init >> s == 0 && algorithm.xorout >> s == 0
}

/// Shared by all update strategies: move the initial value into register
/// form, reflected or aligned to the top of the register.
pub(crate) fn init(algorithm: &Algorithm<u128>, initial: u128) -> (r: u128)
    requires
        algorithm_valid(*algorithm),
    ensures
        r == init_spec(*algorithm, initial),
{
    if algorithm.refin {
        reflect(initial, algorithm.width)
    } else {
        initial << ((128 - algorithm.width) as u128)
    }
}

/// Shared by all update strategies: output reflection, width compaction and
/// the final XOR.
pub(crate) fn finalize(algorithm: &Algorithm<u128>, crc: u128) -> (r: u128)
    requires
        algorithm_valid(*algorithm),
    ensures
        r == finalize_spec(*algorithm, crc),
{
    let mut crc = crc;
    if algorithm.refin != algorithm.refout {
        crc = reflect(crc, 128);
    }
    if !algorithm.refout {
        crc = crc >> ((128 - algorithm.width) as u128);
    }
    crc ^ algorithm.xorout
}

/// The lookup data of one engine: none, one byte-wise table, or sixteen
/// slice-by-16 tables.
pub enum CrcData {
    NoTable,
    Bytewise(Vec<u128>),
    Slice16(Vec<Vec<u128>>),
}

/// A CRC engine: an algorithm record together with the lookup data its
/// update strategy needs. Immutable after construction.
pub struct Crc {
    pub algorithm: Algorithm<u128>,
    pub data: CrcData,
}

impl Crc {
    /// The engine's tables belong to its algorithm.
    pub closed spec fn wf(self) -> bool {
        &&& algorithm_valid(self.algorithm)
        &&& match self.data {
            CrcData::NoTable => true,
            CrcData::Bytewise(t) => bytewise_table_ok(
                t@,
                adjusted_poly(self.algorithm.width, self.algorithm.poly, self.algorithm.refin),
                self.algorithm.refin,
            ),
            CrcData::Slice16(t) => slice16_table_ok(
                t.deep_view(),
                adjusted_poly(self.algorithm.width, self.algorithm.poly, self.algorithm.refin),
                self.algorithm.refin,
            ),
        }
    }

    /// A new engine with the default byte-wise table.
    pub fn new(algorithm: &Algorithm<u128>) -> (r: Self)
        requires
            algorithm_valid(*algorithm),
        ensures
            r.wf(),
            r.algorithm == *algorithm,
            r.data is Bytewise,
    {
        Self::new_with_implementation(algorithm, Implementation::Bytewise)
    }

    /// A new engine with the chosen update strategy.
    pub fn new_with_implementation(algorithm: &Algorithm<u128>, implementation: Implementation) -> (r:
        Self)
        requires
            algorithm_valid(*algorithm),
        ensures
            r.wf(),
            r.algorithm == *algorithm,
            (implementation is NoTable) <==> (r.data is NoTable),
            (implementation is Bytewise) <==> (r.data is Bytewise),
            (implementation is Slice16) <==> (r.data is Slice16),
    {
        let data = match implementation {
            Implementation::NoTable => CrcData::NoTable,
            Implementation::Bytewise => CrcData::Bytewise(
                crate::table::crc128_table(algorithm.width, algorithm.poly, algorithm.refin),
            ),
            Implementation::Slice16 => CrcData::Slice16(
                crate::table::crc128_table_slice_16(algorithm.width, algorithm.poly, algorithm.refin),
            ),
        };
        Crc { algorithm: *algorithm, data }
    }

    fn update(&self, crc: u128, bytes: &[u8]) -> (r: u128)
        requires
            self.wf(),
        ensures
            r == update_bytes(
                adjusted_poly(self.algorithm.width, self.algorithm.poly, self.algorithm.refin),
                self.algorithm.refin,
                crc,
                bytes@,
            ),
    {
        let ghost adj = adjusted_poly(
            self.algorithm.width,
            self.algorithm.poly,
            self.algorithm.refin,
        );
        match &self.data {
            CrcData::NoTable => update_nolookup(crc, &self.algorithm, bytes),
            CrcData::Bytewise(t) => {
                proof {
                    lemma_table_poly(t@, adj, self.algorithm.refin);
                }
                update_bytewise(crc, self.algorithm.refin, t, bytes)
            },
            CrcData::Slice16(t) => {
                proof {
                    let tv = t.deep_view();
                    assert(bytewise_table_ok(tv[0], adj, self.algorithm.refin)) by {
                        assert(forall|i: int|
                            0 <= i < 256 ==> tv[0][i] == advance(
                                adj,
                                self.algorithm.refin,
                                0,
                                #[trigger] crc128_spec(adj, self.algorithm.refin, i as u128),
                            ));
                    }
                    lemma_table_poly(tv[0], adj, self.algorithm.refin);
                }
                update_slice16(crc, self.algorithm.refin, t, bytes)
            },
        }
    }

    /// The one-shot checksum of `bytes`: never more than `width` bits.
    pub fn checksum(&self, bytes: &[u8]) -> (r: u128)
        requires
            self.wf(),
        ensures
            r == checksum_spec(self.algorithm, bytes@),
            fits(r, self.algorithm.width),
    {
        let mut crc = init(&self.algorithm, self.algorithm.init);
        crc = self.update(crc, bytes);
        proof {
            let adj = adjusted_poly(
                self.algorithm.width,
                self.algorithm.poly,
                self.algorithm.refin,
            );
            lemma_init_in_register(self.algorithm, self.algorithm.init);
            lemma_update_bytes_in_register(
                self.algorithm,
                adj,
                init_spec(self.algorithm, self.algorithm.init),
                bytes@,
            );
            lemma_finalize_fits(self.algorithm, crc);
        }
        finalize(&self.algorithm, crc)
    }

    /// A fresh streaming digest, seeded with the algorithm's initial value.
    pub fn digest(&self) -> (d: Digest)
        requires
            self.wf(),
        ensures
            d.wf(),
            d.engine() == *self,
            d.value() == init_spec(self.algorithm, self.algorithm.init),
    {
        self.digest_with_initial(self.algorithm.init)
    }

    /// A fresh streaming digest with a caller-chosen initial value, to resume
    /// or fork a computation; `refin` and `width` apply to it as to the
    /// algorithm's own initial value.
    pub fn digest_with_initial(&self, initial: u128) -> (d: Digest)
        requires
            self.wf(),
        ensures
            d.wf(),
            d.engine() == *self,
            d.value() == init_spec(self.algorithm, initial),
    {
        let value = init(&self.algorithm, initial);
        proof {
            lemma_init_in_register(self.algorithm, initial);
        }
        Digest::new(self, value)
    }

}

/// A streaming accumulator bound to an engine: holds the running register
/// value between `update` calls until `finalize` consumes it.
#[derive(Clone)]
pub struct Digest<'a> {
    crc: &'a Crc,
    value: u128,
}

impl<'a> Digest<'a> {
    /// The engine this digest is bound to.
    pub closed spec fn engine(self) -> Crc {
        *self.crc
    }

    /// The running register value.
    pub closed spec fn value(self) -> u128 {
        self.value
    }

    /// The engine is well formed and the register stays inside its width.
    pub closed spec fn wf(self) -> bool {
        &&& self.engine().wf()
        &&& in_register(self.engine().algorithm, self.value)
    }

    fn new(crc: &'a Crc, value: u128) -> (d: Self)
        ensures
            d.engine() == *crc,
            d.value() == value,
    {
        Digest { crc, value }
    }

    /// Folds `bytes` into the running value. Feeding input in any chunking
    /// yields the same final value as feeding it whole.
    pub fn update(&mut self, bytes: &[u8])
        requires
            old(self).wf(),
        ensures
            final(self).wf(),
            final(self).engine() == old(self).engine(),
            final(self).value() == update_bytes(
                adjusted_poly(
                    old(self).engine().algorithm.width,
                    old(self).engine().algorithm.poly,
                    old(self).engine().algorithm.refin,
                ),
                old(self).engine().algorithm.refin,
                old(self).value(),
                bytes@,
            ),
    {
        let c = self.crc;
        self.value = c.update(self.value, bytes);
        proof {
            let alg = c.algorithm;
            lemma_update_bytes_in_register(
                alg,
                adjusted_poly(alg.width, alg.poly, alg.refin),
                old(self).value(),
                bytes@,
            );
        }
    }

    /// Folds `bytes` and hands the digest back, for chained updates.
    pub fn updated(self, bytes: &[u8]) -> (d: Self)
        requires
            self.wf(),
        ensures
            d.wf(),
            d.engine() == self.engine(),
            d.value() == update_bytes(
                adjusted_poly(
                    self.engine().algorithm.width,
                    self.engine().algorithm.poly,
                    self.engine().algorithm.refin,
                ),
                self.engine().algorithm.refin,
                self.value(),
                bytes@,
            ),
    {
        let mut d = self;
        d.update(bytes);
        d
    }

    /// Consumes the digest: output reflection, width compaction and the
    /// final XOR. The result has no bits above the algorithm's width.
    pub fn finalize(self) -> (r: u128)
        requires
            self.wf(),
        ensures
            r == finalize_spec(self.engine().algorithm, self.value()),
            fits(r, self.engine().algorithm.width),
    {
        proof {
            lemma_finalize_fits(self.crc.algorithm, self.value);
        }
        finalize(&self.crc.algorithm, self.value)
    }
}

// ---------------------------------------------------------------------------
// Laws
// ---------------------------------------------------------------------------

/// Chunk invariance: updating a digest with `a` and then `b` and finalizing
/// gives exactly the one-shot checksum of the concatenation.
pub proof fn lemma_digest_chunks(alg: Algorithm<u128>, a: Seq<u8>, b: Seq<u8>)
    ensures
        checksum_spec(alg, a + b) == finalize_spec(
            alg,
            update_bytes(
                adjusted_poly(alg.width, alg.poly, alg.refin),
                alg.refin,
                update_bytes(
                    adjusted_poly(alg.width, alg.poly, alg.refin),
                    alg.refin,
                    init_spec(alg, alg.init),
                    a,
                ),
                b,
            ),
        ),
{
    lemma_update_bytes_concat(
        adjusted_poly(alg.width, alg.poly, alg.refin),
        alg.refin,
        init_spec(alg, alg.init),
        a,
        b,
    );
}

} // verus!
