//! The carry-less-multiplication engine for 32-bit CRCs: folds 64-byte
//! blocks of input with the coefficients of `simd`, falling back to the
//! byte-wise table for non-reflected algorithms, for the unaligned tail and
//! for short input. Every non-folding path carries the byte-wise reference
//! contract; the reflected folding path is pinned to the folding model and
//! compared against the byte-wise path by the test suite.
use vstd::prelude::*;

verus! {

use crate::Algorithm;
use crate::clmul::Value;
use crate::crc32::{
    adjusted_poly, algorithm_valid, bytewise_table_ok, checksum_spec, finalize_spec, fits,
    init_spec, lemma_finalize_fits, lemma_init_in_register, lemma_table_poly,
    lemma_update_bytes_in_register, update_bytes, update_bytewise,
};
use crate::simd::{chunks_vals, coeff_ok, crc32_update_refin, fold_chunks, lane_vals, reduce_spec,
    update_refin_spec};

/// Eight input bytes read least-significant first.
pub open spec fn le64_at(s: Seq<u8>, off: int) -> u64 {
    (s[off] as u64) | ((s[off + 1] as u64) << 8) | ((s[off + 2] as u64) << 16) | ((s[off
        + 3] as u64) << 24) | ((s[off + 4] as u64) << 32) | ((s[off + 5] as u64) << 40) | ((s[off
        + 6] as u64) << 48) | ((s[off + 7] as u64) << 56)
}

/// Sixteen input bytes as one 128-bit lane, least-significant first.
pub open spec fn lane_at(s: Seq<u8>, off: int) -> u128 {
    (le64_at(s, off) as u128) | ((le64_at(s, off + 8) as u128) << 64)
}

/// The four lanes of the 64-byte chunk at `off`.
pub open spec fn chunk_lanes_at(s: Seq<u8>, off: int) -> Seq<u128> {
    Seq::new(4, |j: int| lane_at(s, off + 16 * j))
}

/// The lanes of every 64-byte chunk after the first, `nb` chunks in all.
pub open spec fn body_chunks(s: Seq<u8>, nb: int) -> Seq<Seq<u128>> {
    Seq::new((nb - 1) as nat, |i: int| chunk_lanes_at(s, 64 * (i + 1)))
}

/// The first chunk's lanes, with the running CRC seeded into lane zero.
pub open spec fn seeded_lanes(s: Seq<u8>, crc: u32) -> Seq<u128> {
    Seq::new(
        4,
        |j: int|
            if j == 0 {
                lane_at(s, 0) ^ (crc as u128)
            } else {
                lane_at(s, 16 * j)
            },
    )
}

/// What this engine computes on a byte sequence: whole 64-byte chunks are
/// folded and reduced, the tail and every non-reflected or short input go
/// through the byte-wise table.
pub open spec fn simd_update_bytes(
    alg: Algorithm<u32>,
    coeff: Seq<Value>,
    crc: u32,
    bytes: Seq<u8>,
) -> u32 {
    let adj = adjusted_poly(alg.width, alg.poly, alg.refin);
    let nb = bytes.len() as int / 64;
    if !alg.refin || nb == 0 {
        update_bytes(adj, alg.refin, crc, bytes)
    } else {
        let folded = reduce_spec(
            coeff,
            fold_chunks(coeff[0].lo, coeff[0].hi, seeded_lanes(bytes, crc), body_chunks(bytes, nb)),
        );
        update_bytes(adj, true, folded, bytes.skip(nb * 64))
    }
}

/// The one-shot checksum this engine computes.
pub open spec fn simd_checksum_spec(alg: Algorithm<u32>, coeff: Seq<Value>, bytes: Seq<u8>) -> u32 {
    finalize_spec(alg, simd_update_bytes(alg, coeff, init_spec(alg, alg.init), bytes))
}

// Eight bytes read least-significant first.
fn read_u64_le(bytes: &[u8], off: usize) -> (r: u64)
    requires
        off + 8 <= bytes@.len(),
    ensures
        r == le64_at(bytes@, off as int),
{
    (bytes[off] as u64) | ((bytes[off + 1] as u64) << 8) | ((bytes[off + 2] as u64) << 16) | ((
    bytes[off + 3] as u64) << 24) | ((bytes[off + 4] as u64) << 32) | ((bytes[off + 5] as u64)
        << 40) | ((bytes[off + 6] as u64) << 48) | ((bytes[off + 7] as u64) << 56)
}

// Sixteen bytes as one 128-bit lane.
fn read_value(bytes: &[u8], off: usize) -> (v: Value)
    requires
        off + 16 <= bytes@.len(),
    ensures
        v.value() == lane_at(bytes@, off as int),
{
    let n = bytes.len();
    let lo = read_u64_le(bytes, off);
    let hi = read_u64_le(bytes, off + 8);
    Value::new(lo, hi)
}

/// A 32-bit CRC engine using carry-less-multiplication folding where it
/// applies, with a byte-wise table for everything else.
pub struct Crc {
    pub algorithm: Algorithm<u32>,
    pub table: Vec<u32>,
    pub coeff: Vec<Value>,
}

/// A streaming accumulator bound to a folding engine.
#[derive(Clone)]
pub struct Digest<'a> {
    crc: &'a Crc,
    value: u32,
}

impl Crc {
    /// The table and the coefficients belong to the algorithm.
    pub closed spec fn wf(self) -> bool {
        &&& algorithm_valid(self.algorithm)
        &&& bytewise_table_ok(
            self.table@,
            adjusted_poly(self.algorithm.width, self.algorithm.poly, self.algorithm.refin),
            self.algorithm.refin,
        )
        &&& coeff_ok(self.coeff@, self.algorithm.width, self.algorithm.poly)
    }

    /// A new folding engine: one byte-wise table and the folding
    /// coefficients, both derived from the polynomial.
    pub fn new(algorithm: &Algorithm<u32>) -> (r: Self)
        requires
            algorithm_valid(*algorithm),
        ensures
            r.wf(),
            r.algorithm == *algorithm,
    {
        let table = crate::table::crc32_table(algorithm.width, algorithm.poly, algorithm.refin);
        let coeff = crate::simd::crc32_coeff(algorithm.width, algorithm.poly);
        Crc { algorithm: *algorithm, table, coeff }
    }

    fn update(&self, crc: u32, bytes: &[u8]) -> (r: u32)
        requires
            self.wf(),
        ensures
            r == simd_update_bytes(self.algorithm, self.coeff@, crc, bytes@),
    {
        let ghost adj = adjusted_poly(
            self.algorithm.width,
            self.algorithm.poly,
            self.algorithm.refin,
        );
        proof {
            lemma_table_poly(self.table@, adj, self.algorithm.refin);
        }
        if !self.algorithm.refin {
            return update_bytewise(crc, false, &self.table, bytes);
        }
        let n = bytes.len();
        let nb = n / 64;
        proof {
            assert(nb * 64 <= n) by (nonlinear_arith)
                requires
                    nb == n / 64,
            ;
        }
        if nb == 0 {
            return update_bytewise(crc, true, &self.table, bytes);
        }
        let mut first: Vec<Value> = Vec::new();
        first.push(read_value(bytes, 0));
        first.push(read_value(bytes, 16));
        first.push(read_value(bytes, 32));
        first.push(read_value(bytes, 48));

        let mut chunks: Vec<Vec<Value>> = Vec::new();
        let mut ci: usize = 1;
        while ci < nb
            invariant
                1 <= ci <= nb,
                nb == bytes@.len() / 64,
                nb * 64 <= n,
                n == bytes@.len(),
                chunks@.len() == ci - 1,
                forall|k: int| 0 <= k < ci - 1 ==> (#[trigger] chunks@[k])@.len() == 4,
                forall|k: int|
                    0 <= k < ci - 1 ==> lane_vals((#[trigger] chunks@[k])@) =~= chunk_lanes_at(
                        bytes@,
                        64 * (k + 1),
                    ),
            decreases nb - ci,
        {
            let base = ci * 64;
            let mut chunk: Vec<Value> = Vec::new();
            chunk.push(read_value(bytes, base));
            chunk.push(read_value(bytes, base + 16));
            chunk.push(read_value(bytes, base + 32));
            chunk.push(read_value(bytes, base + 48));
            proof {
                assert(lane_vals(chunk@) =~= chunk_lanes_at(bytes@, 64 * (ci as int)));
            }
            chunks.push(chunk);
            ci += 1;
        }
        proof {
            assert(chunks_vals(chunks@) =~~= body_chunks(bytes@, nb as int));
            assert(lane_vals(first@).update(0, first@[0].value() ^ (crc as u128)) =~= seeded_lanes(
                bytes@,
                crc,
            ));
        }
        let folded = crc32_update_refin(crc, &self.coeff, &first, &chunks);
        let tail = vstd::slice::slice_subrange(bytes, nb * 64, n);
        update_bytewise(folded, true, &self.table, tail)
    }

    /// The one-shot checksum of `bytes`. Whenever the folding path is not
    /// taken -- the algorithm is not reflected, or the input holds no whole
    /// 64-byte chunk -- the result equals the table-driven strategies'
    /// checksum exactly and carries no bits above the width; the reflected
    /// folding path is pinned to the folding model above.
    pub fn checksum(&self, bytes: &[u8]) -> (r: u32)
        requires
            self.wf(),
        ensures
            r == simd_checksum_spec(self.algorithm, self.coeff@, bytes@),
            (!self.algorithm.refin || bytes@.len() < 64) ==> r == checksum_spec(
                self.algorithm,
                bytes@,
            ),
            (!self.algorithm.refin || bytes@.len() < 64) ==> fits(r, self.algorithm.width),
    {
        let mut crc = crate::crc32::init(&self.algorithm, self.algorithm.init);
        crc = self.update(crc, bytes);
        proof {
            if !self.algorithm.refin || bytes@.len() < 64 {
                assert(bytes@.len() as int / 64 == 0 || !self.algorithm.refin);
                let adj = adjusted_poly(
                    self.algorithm.width,
                    self.algorithm.poly,
                    self.algorithm.refin,
                );
                lemma_init_in_register(self.algorithm, self.algorithm.init);
                lemma_update_bytes_in_register(
                    self.algorithm,
                    adj,
                    init_spec(self.algorithm, self.algorithm.init),
                    bytes@,
                );
                lemma_finalize_fits(self.algorithm, crc);
            }
        }
        crate::crc32::finalize(&self.algorithm, crc)
    }

    /// A fresh streaming digest, seeded with the algorithm's initial value.
    pub fn digest(&self) -> (d: Digest)
        requires
            self.wf(),
        ensures
            d.wf(),
            d.engine() == *self,
            d.value() == init_spec(self.algorithm, self.algorithm.init),
    {
        self.digest_with_initial(self.algorithm.init)
    }

    /// A fresh streaming digest with a caller-chosen initial value.
    pub fn digest_with_initial(&self, initial: u32) -> (d: Digest)
        requires
            self.wf(),
        ensures
            d.wf(),
            d.engine() == *self,
            d.value() == init_spec(self.algorithm, initial),
    {
        let value = crate::crc32::init(&self.algorithm, initial);
        Digest { crc: self, value }
    }
}

impl<'a> Digest<'a> {
    /// The engine this digest is bound to.
    pub closed spec fn engine(self) -> Crc {
        *self.crc
    }

    /// The running register value.
    pub closed spec fn value(self) -> u32 {
        self.value
    }

    /// The engine is well formed.
    pub closed spec fn wf(self) -> bool {
        self.engine().wf()
    }

    /// Folds `bytes` into the running value through the folding engine.
    /// Whenever the folding path is not taken, the new value is exactly the
    /// byte-wise fold of the input.
    pub fn update(&mut self, bytes: &[u8])
        requires
            old(self).wf(),
        ensures
            final(self).wf(),
            final(self).engine() == old(self).engine(),
            final(self).value() == simd_update_bytes(
                old(self).engine().algorithm,
                old(self).engine().coeff@,
                old(self).value(),
                bytes@,
            ),
            (!old(self).engine().algorithm.refin || bytes@.len() < 64) ==> final(self).value()
                == update_bytes(
                adjusted_poly(
                    old(self).engine().algorithm.width,
                    old(self).engine().algorithm.poly,
                    old(self).engine().algorithm.refin,
                ),
                old(self).engine().algorithm.refin,
                old(self).value(),
                bytes@,
            ),
    {
        let c = self.crc;
        self.value = c.update(self.value, bytes);
        proof {
            if bytes@.len() < 64 {
                assert(bytes@.len() as int / 64 == 0);
            }
        }
    }

    /// Consumes the digest: output reflection, width compaction and the
    /// final XOR.
    pub fn finalize(self) -> (r: u32)
        requires
            self.wf(),
        ensures
            r == finalize_spec(self.engine().algorithm, self.value()),
    {
        crate::crc32::finalize(&self.crc.algorithm, self.value)
    }
}

} // verus!
