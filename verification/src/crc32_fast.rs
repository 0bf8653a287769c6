//! A 32-bit CRC engine fixed to the slice-by-16 strategy: sixteen 256-entry
//! tables traded for fewer lookup rounds per byte of input.
use vstd::prelude::*;

verus! {

use crate::Algorithm;
use crate::crc32::{
    adjusted_poly, algorithm_valid, checksum_spec, finalize_spec, fits, in_register, init_spec,
    lemma_finalize_fits, lemma_init_in_register, lemma_table_poly, lemma_update_bytes_in_register,
    slice16_table_ok, update_bytes, update_slice16,
};

/// A 32-bit engine holding the sixteen slice-by-16 tables.
pub struct FastU32 {
    pub algorithm: Algorithm<u32>,
    pub table: Vec<Vec<u32>>,
}

/// A streaming accumulator bound to a `FastU32` engine.
#[derive(Clone)]
pub struct Digest<'a> {
    crc: &'a FastU32,
    value: u32,
}

impl FastU32 {
    /// The tables belong to the algorithm.
    pub closed spec fn wf(self) -> bool {
        &&& algorithm_valid(self.algorithm)
        &&& slice16_table_ok(
            self.table.deep_view(),
            adjusted_poly(self.algorithm.width, self.algorithm.poly, self.algorithm.refin),
            self.algorithm.refin,
        )
    }

    /// A new engine, building the sixteen tables from the polynomial.
    pub fn new(algorithm: &Algorithm<u32>) -> (r: Self)
        requires
            algorithm_valid(*algorithm),
        ensures
            r.wf(),
            r.algorithm == *algorithm,
    {
        let table = crate::table::crc32_table_slice_16(
            algorithm.width,
            algorithm.poly,
            algorithm.refin,
        );
        FastU32 { algorithm: *algorithm, table }
    }

    fn update(&self, crc: u32, bytes: &[u8]) -> (r: u32)
        requires
            self.wf(),
        ensures
            r == update_bytes(
                adjusted_poly(self.algorithm.width, self.algorithm.poly, self.algorithm.refin),
                self.algorithm.refin,
                crc,
                bytes@,
            ),
    {
        let ghost adj = adjusted_poly(
            self.algorithm.width,
            self.algorithm.poly,
            self.algorithm.refin,
        );
        proof {
            let tv = self.table.deep_view();
            assert(crate::crc32::bytewise_table_ok(tv[0], adj, self.algorithm.refin)) by {
                assert(forall|i: int|
                    0 <= i < 256 ==> tv[0][i] == crate::crc32::advance(
                        adj,
                        self.algorithm.refin,
                        0,
                        #[trigger] crate::crc32::crc32_spec(adj, self.algorithm.refin, i as u32),
                    ));
            }
            lemma_table_poly(tv[0], adj, self.algorithm.refin);
        }
        update_slice16(crc, self.algorithm.refin, &self.table, bytes)
    }

    /// The one-shot checksum of `bytes`: never more than `width` bits.
    pub fn checksum(&self, bytes: &[u8]) -> (r: u32)
        requires
            self.wf(),
        ensures
            r == checksum_spec(self.algorithm, bytes@),
            fits(r, self.algorithm.width),
    {
        let mut crc = crate::crc32::init(&self.algorithm, self.algorithm.init);
        crc = self.update(crc, bytes);
        proof {
            let adj = adjusted_poly(
                self.algorithm.width,
                self.algorithm.poly,
                self.algorithm.refin,
            );
            lemma_init_in_register(self.algorithm, self.algorithm.init);
            lemma_update_bytes_in_register(
                self.algorithm,
                adj,
                init_spec(self.algorithm, self.algorithm.init),
                bytes@,
            );
            lemma_finalize_fits(self.algorithm, crc);
        }
        crate::crc32::finalize(&self.algorithm, crc)
    }

    /// A fresh streaming digest, seeded with the algorithm's initial value.
    pub fn digest(&self) -> (d: Digest)
        requires
            self.wf(),
        ensures
            d.wf(),
            d.engine() == *self,
            d.value() == init_spec(self.algorithm, self.algorithm.init),
    {
        self.digest_with_initial(self.algorithm.init)
    }

    /// A fresh streaming digest with a caller-chosen initial value.
    pub fn digest_with_initial(&self, initial: u32) -> (d: Digest)
        requires
            self.wf(),
        ensures
            d.wf(),
            d.engine() == *self,
            d.value() == init_spec(self.algorithm, initial),
    {
        let value = crate::crc32::init(&self.algorithm, initial);
        proof {
            lemma_init_in_register(self.algorithm, initial);
        }
        Digest { crc: self, value }
    }
}

impl<'a> Digest<'a> {
    /// The engine this digest is bound to.
    pub closed spec fn engine(self) -> FastU32 {
        *self.crc
    }

    /// The running register value.
    pub closed spec fn value(self) -> u32 {
        self.value
    }

    /// The engine is well formed and the register stays inside its width.
    pub closed spec fn wf(self) -> bool {
        &&& self.engine().wf()
        &&& in_register(self.engine().algorithm, self.value)
    }

    /// Folds `bytes` into the running value.
    pub fn update(&mut self, bytes: &[u8])
        requires
            old(self).wf(),
        ensures
            final(self).wf(),
            final(self).engine() == old(self).engine(),
            final(self).value() == update_bytes(
                adjusted_poly(
                    old(self).engine().algorithm.width,
                    old(self).engine().algorithm.poly,
                    old(self).engine().algorithm.refin,
                ),
                old(self).engine().algorithm.refin,
                old(self).value(),
                bytes@,
            ),
    {
        let c = self.crc;
        self.value = c.update(self.value, bytes);
        proof {
            let alg = c.algorithm;
            lemma_update_bytes_in_register(
                alg,
                adjusted_poly(alg.width, alg.poly, alg.refin),
                old(self).value(),
                bytes@,
            );
        }
    }

    /// Consumes the digest: output reflection, width compaction and the
    /// final XOR. The result has no bits above the algorithm's width.
    pub fn finalize(self) -> (r: u32)
        requires
            self.wf(),
        ensures
            r == finalize_spec(self.engine().algorithm, self.value()),
            fits(r, self.engine().algorithm.width),
    {
        proof {
            lemma_finalize_fits(self.crc.algorithm, self.value);
        }
        crate::crc32::finalize(&self.crc.algorithm, self.value)
    }
}

} // verus!
