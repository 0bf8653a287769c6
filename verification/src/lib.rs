//! Cyclic Redundancy Check (CRC) computation for algorithms of any width up
//! to 128 bits, parameterized by an algorithm record (polynomial, initial
//! value, input/output reflection, final XOR, width).
//!
//! Each register width has its own module (`crc8` through `crc128`) offering
//! interchangeable update strategies -- bitwise (no table), byte-wise table,
//! and slice-by-16 tables -- all carrying the same contract, so any two
//! strategies agree on every input. A carry-less-multiplication folding
//! engine for reflected 32-bit algorithms lives in `simd`, over the
//! verified 128-bit carry-less arithmetic of `clmul`.
use vstd::prelude::*;

pub mod crc8;
pub mod crc16;
pub mod crc32;
pub mod crc64;
pub mod crc128;
pub mod crc32_fast;
pub mod clmul;
pub mod simd;
pub mod table;
pub mod util;

verus! {

/// Parameters of one CRC algorithm, in the natural (non-reflected) form:
/// `width` significant bits, polynomial and initial value written
/// right-aligned, `check` the expected checksum of the nine ASCII bytes
/// "123456789".
#[derive(Clone, Copy, Debug)]
pub struct Algorithm<W> {
    pub width: u8,
    pub poly: W,
    pub init: W,
    pub refin: bool,
    pub refout: bool,
    pub xorout: W,
    pub check: W,
    pub residue: W,
}

/// The closed set of update strategies an engine can be built with.
pub enum Implementation {
    NoTable,
    Bytewise,
    Slice16,
}

} // verus!
