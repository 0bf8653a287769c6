//! Lookup-table generation: a 256-entry byte-wise table and a 16 x 256
//! slice-by-16 table for each register width, computed once at engine
//! construction from the polynomial alone.
use vstd::prelude::*;

verus! {

/// The byte-wise lookup table for a 8-bit register: entry `i` is one
/// byte's worth of division of `i`.
pub fn crc8_table(width: u8, poly: u8, reflect_in: bool) -> (t: Vec<u8>)
    requires
        1 <= width <= 8,
    ensures
        crate::crc8::bytewise_table_ok(t@, crate::crc8::adjusted_poly(width, poly, reflect_in), reflect_in),
{
    let poly = if reflect_in {
        crate::crc8::reflect(poly, width)
    } else {
        poly << ((8 - width) as u8)
    };

    let mut table: Vec<u8> = Vec::new();
    let mut i: usize = 0;
    while i < 256
        invariant
            i <= 256,
            table@.len() == i,
            forall|j: int| 0 <= j < i ==> table@[j] == crate::crc8::crc8_spec(poly, reflect_in, j as u8),
        decreases 256 - i,
    {
        table.push(crate::util::crc8(poly, reflect_in, i as u8));
        i += 1;
    }
    table
}

/// The slice-by-16 table for a 8-bit register: row `e` advances the
/// byte-wise division a further `e` bytes.
pub fn crc8_table_slice_16(width: u8, poly: u8, reflect_in: bool) -> (t: Vec<Vec<u8>>)
    requires
        1 <= width <= 8,
    ensures
        crate::crc8::slice16_table_ok(
            t.deep_view(),
            crate::crc8::adjusted_poly(width, poly, reflect_in),
            reflect_in,
        ),
{
    let ghost p = crate::crc8::adjusted_poly(width, poly, reflect_in);
    let row0 = crc8_table(width, poly, reflect_in);
    let mut table: Vec<Vec<u8>> = Vec::new();
    let row0_copy = clone_row(&row0);
    table.push(row0_copy);
    let mut e: usize = 1;
    while e < 16
        invariant
            1 <= e <= 16,
            table@.len() == e,
            crate::crc8::bytewise_table_ok(row0@, p, reflect_in),
            forall|k: int| 0 <= k < e ==> #[trigger] table@[k]@.len() == 256,
            forall|k: int, i: int|
                0 <= k < e && 0 <= i < 256 ==> #[trigger] table@[k]@[i] == crate::crc8::advance(
                    p,
                    reflect_in,
                    k as nat,
                    crate::crc8::crc8_spec(p, reflect_in, i as u8),
                ),
        decreases 16 - e,
    {
        let prev_row = &table[e - 1];
        let mut row: Vec<u8> = Vec::new();
        let mut i: usize = 0;
        while i < 256
            invariant
                i <= 256,
                row@.len() == i,
                prev_row@.len() == 256,
                1 <= e <= 16,
                crate::crc8::bytewise_table_ok(row0@, p, reflect_in),
                forall|j: int|
                    0 <= j < 256 ==> prev_row@[j] == crate::crc8::advance(
                        p,
                        reflect_in,
                        (e - 1) as nat,
                        crate::crc8::crc8_spec(p, reflect_in, j as u8),
                    ),
                forall|j: int|
                    0 <= j < i ==> row@[j] == crate::crc8::advance(
                        p,
                        reflect_in,
                        e as nat,
                        crate::crc8::crc8_spec(p, reflect_in, j as u8),
                    ),
            decreases 256 - i,
        {
            let prev = prev_row[i];
            let entry = row0[prev as usize];
            proof {
                crate::crc8::lemma_bv_misc(prev, 0, prev, 0, 0, 0, 0, 0);
                assert(prev ^ 0 == prev);
                assert(entry == crate::crc8::update_byte(p, reflect_in, prev, 0));
            }
            row.push(entry);
            i += 1;
        }
        table.push(row);
        e += 1;
    }
    table
}

/// The byte-wise lookup table for a 16-bit register: entry `i` is one
/// byte's worth of division of `i`.
pub fn crc16_table(width: u8, poly: u16, reflect_in: bool) -> (t: Vec<u16>)
    requires
        1 <= width <= 16,
    ensures
        crate::crc16::bytewise_table_ok(t@, crate::crc16::adjusted_poly(width, poly, reflect_in), reflect_in),
{
    let poly = if reflect_in {
        crate::crc16::reflect(poly, width)
    } else {
        poly << ((16 - width) as u16)
    };

    let mut table: Vec<u16> = Vec::new();
    let mut i: usize = 0;
    while i < 256
        invariant
            i <= 256,
            table@.len() == i,
            forall|j: int| 0 <= j < i ==> table@[j] == crate::crc16::crc16_spec(poly, reflect_in, j as u16),
        decreases 256 - i,
    {
        table.push(crate::util::crc16(poly, reflect_in, i as u16));
        i += 1;
    }
    table
}

/// The slice-by-16 table for a 16-bit register: row `e` advances the
/// byte-wise division a further `e` bytes.
pub fn crc16_table_slice_16(width: u8, poly: u16, reflect_in: bool) -> (t: Vec<Vec<u16>>)
    requires
        1 <= width <= 16,
    ensures
        crate::crc16::slice16_table_ok(
            t.deep_view(),
            crate::crc16::adjusted_poly(width, poly, reflect_in),
            reflect_in,
        ),
{
    let ghost p = crate::crc16::adjusted_poly(width, poly, reflect_in);
    let row0 = crc16_table(width, poly, reflect_in);
    let mut table: Vec<Vec<u16>> = Vec::new();
    let row0_copy = clone_row(&row0);
    table.push(row0_copy);
    let mut e: usize = 1;
    while e < 16
        invariant
            1 <= e <= 16,
            table@.len() == e,
            crate::crc16::bytewise_table_ok(row0@, p, reflect_in),
            forall|k: int| 0 <= k < e ==> #[trigger] table@[k]@.len() == 256,
            forall|k: int, i: int|
                0 <= k < e && 0 <= i < 256 ==> #[trigger] table@[k]@[i] == crate::crc16::advance(
                    p,
                    reflect_in,
                    k as nat,
                    crate::crc16::crc16_spec(p, reflect_in, i as u16),
                ),
        decreases 16 - e,
    {
        let prev_row = &table[e - 1];
        let mut row: Vec<u16> = Vec::new();
        let mut i: usize = 0;
        while i < 256
            invariant
                i <= 256,
                row@.len() == i,
                prev_row@.len() == 256,
                1 <= e <= 16,
                crate::crc16::bytewise_table_ok(row0@, p, reflect_in),
                forall|j: int|
                    0 <= j < 256 ==> prev_row@[j] == crate::crc16::advance(
                        p,
                        reflect_in,
                        (e - 1) as nat,
                        crate::crc16::crc16_spec(p, reflect_in, j as u16),
                    ),
                forall|j: int|
                    0 <= j < i ==> row@[j] == crate::crc16::advance(
                        p,
                        reflect_in,
                        e as nat,
                        crate::crc16::crc16_spec(p, reflect_in, j as u16),
                    ),
            decreases 256 - i,
        {
            let prev = prev_row[i];
            let entry = if reflect_in {
                proof {
                    crate::crc16::lemma_bv_misc(prev, 0, prev, 0, 0, 0, 0, 0);
                }
                row0[(prev & 0xFF) as usize] ^ (prev >> 8)
            } else {
                proof {
                    crate::crc16::lemma_bv_misc(prev, 0, prev, 0, 0, 0, 0, 0);
                    crate::crc16::lemma_bv_misc(prev, 0, prev >> 8, 0, 0, 0, 0, 0);
                }
                row0[((prev >> 8) & 0xFF) as usize] ^ (prev << 8)
            };
            proof {
                assert(entry == crate::crc16::update_byte(p, reflect_in, prev, 0));
            }
            row.push(entry);
            i += 1;
        }
        table.push(row);
        e += 1;
    }
    table
}

/// The byte-wise lookup table for a 32-bit register: entry `i` is one
/// byte's worth of division of `i`.
pub fn crc32_table(width: u8, poly: u32, reflect_in: bool) -> (t: Vec<u32>)
    requires
        1 <= width <= 32,
    ensures
        crate::crc32::bytewise_table_ok(t@, crate::crc32::adjusted_poly(width, poly, reflect_in), reflect_in),
{
    let poly = if reflect_in {
        crate::crc32::reflect(poly, width)
    } else {
        poly << ((32 - width) as u32)
    };

    let mut table: Vec<u32> = Vec::new();
    let mut i: usize = 0;
    while i < 256
        invariant
            i <= 256,
            table@.len() == i,
            forall|j: int| 0 <= j < i ==> table@[j] == crate::crc32::crc32_spec(poly, reflect_in, j as u32),
        decreases 256 - i,
    {
        table.push(crate::util::crc32(poly, reflect_in, i as u32));
        i += 1;
    }
    table
}

/// The slice-by-16 table for a 32-bit register: row `e` advances the
/// byte-wise division a further `e` bytes.
pub fn crc32_table_slice_16(width: u8, poly: u32, reflect_in: bool) -> (t: Vec<Vec<u32>>)
    requires
        1 <= width <= 32,
    ensures
        crate::crc32::slice16_table_ok(
            t.deep_view(),
            crate::crc32::adjusted_poly(width, poly, reflect_in),
            reflect_in,
        ),
{
    let ghost p = crate::crc32::adjusted_poly(width, poly, reflect_in);
    let row0 = crc32_table(width, poly, reflect_in);
    let mut table: Vec<Vec<u32>> = Vec::new();
    let row0_copy = clone_row(&row0);
    table.push(row0_copy);
    let mut e: usize = 1;
    while e < 16
        invariant
            1 <= e <= 16,
            table@.len() == e,
            crate::crc32::bytewise_table_ok(row0@, p, reflect_in),
            forall|k: int| 0 <= k < e ==> #[trigger] table@[k]@.len() == 256,
            forall|k: int, i: int|
                0 <= k < e && 0 <= i < 256 ==> #[trigger] table@[k]@[i] == crate::crc32::advance(
                    p,
                    reflect_in,
                    k as nat,
                    crate::crc32::crc32_spec(p, reflect_in, i as u32),
                ),
        decreases 16 - e,
    {
        let prev_row = &table[e - 1];
        let mut row: Vec<u32> = Vec::new();
        let mut i: usize = 0;
        while i < 256
            invariant
                i <= 256,
                row@.len() == i,
                prev_row@.len() == 256,
                1 <= e <= 16,
                crate::crc32::bytewise_table_ok(row0@, p, reflect_in),
                forall|j: int|
                    0 <= j < 256 ==> prev_row@[j] == crate::crc32::advance(
                        p,
                        reflect_in,
                        (e - 1) as nat,
                        crate::crc32::crc32_spec(p, reflect_in, j as u32),
                    ),
                forall|j: int|
                    0 <= j < i ==> row@[j] == crate::crc32::advance(
                        p,
                        reflect_in,
                        e as nat,
                        crate::crc32::crc32_spec(p, reflect_in, j as u32),
                    ),
            decreases 256 - i,
        {
            let prev = prev_row[i];
            let entry = if reflect_in {
                proof {
                    crate::crc32::lemma_bv_misc(prev, 0, prev, 0, 0, 0, 0, 0);
                }
                row0[(prev & 0xFF) as usize] ^ (prev >> 8)
            } else {
                proof {
                    crate::crc32::lemma_bv_misc(prev, 0, prev, 0, 0, 0, 0, 0);
                    crate::crc32::lemma_bv_misc(prev, 0, prev >> 24, 0, 0, 0, 0, 0);
                }
                row0[((prev >> 24) & 0xFF) as usize] ^ (prev << 8)
            };
            proof {
                assert(entry == crate::crc32::update_byte(p, reflect_in, prev, 0));
            }
            row.push(entry);
            i += 1;
        }
        table.push(row);
        e += 1;
    }
    table
}

/// The byte-wise lookup table for a 64-bit register: entry `i` is one
/// byte's worth of division of `i`.
pub fn crc64_table(width: u8, poly: u64, reflect_in: bool) -> (t: Vec<u64>)
    requires
        1 <= width <= 64,
    ensures
        crate::crc64::bytewise_table_ok(t@, crate::crc64::adjusted_poly(width, poly, reflect_in), reflect_in),
{
    let poly = if reflect_in {
        crate::crc64::reflect(poly, width)
    } else {
        poly << ((64 - width) as u64)
    };

    let mut table: Vec<u64> = Vec::new();
    let mut i: usize = 0;
    while i < 256
        invariant
            i <= 256,
            table@.len() == i,
            forall|j: int| 0 <= j < i ==> table@[j] == crate::crc64::crc64_spec(poly, reflect_in, j as u64),
        decreases 256 - i,
    {
        table.push(crate::util::crc64(poly, reflect_in, i as u64));
        i += 1;
    }
    table
}

/// The slice-by-16 table for a 64-bit register: row `e` advances the
/// byte-wise division a further `e` bytes.
pub fn crc64_table_slice_16(width: u8, poly: u64, reflect_in: bool) -> (t: Vec<Vec<u64>>)
    requires
        1 <= width <= 64,
    ensures
        crate::crc64::slice16_table_ok(
            t.deep_view(),
            crate::crc64::adjusted_poly(width, poly, reflect_in),
            reflect_in,
        ),
{
    let ghost p = crate::crc64::adjusted_poly(width, poly, reflect_in);
    let row0 = crc64_table(width, poly, reflect_in);
    let mut table: Vec<Vec<u64>> = Vec::new();
    let row0_copy = clone_row(&row0);
    table.push(row0_copy);
    let mut e: usize = 1;
    while e < 16
        invariant
            1 <= e <= 16,
            table@.len() == e,
            crate::crc64::bytewise_table_ok(row0@, p, reflect_in),
            forall|k: int| 0 <= k < e ==> #[trigger] table@[k]@.len() == 256,
            forall|k: int, i: int|
                0 <= k < e && 0 <= i < 256 ==> #[trigger] table@[k]@[i] == crate::crc64::advance(
                    p,
                    reflect_in,
                    k as nat,
                    crate::crc64::crc64_spec(p, reflect_in, i as u64),
                ),
        decreases 16 - e,
    {
        let prev_row = &table[e - 1];
        let mut row: Vec<u64> = Vec::new();
        let mut i: usize = 0;
        while i < 256
            invariant
                i <= 256,
                row@.len() == i,
                prev_row@.len() == 256,
                1 <= e <= 16,
                crate::crc64::bytewise_table_ok(row0@, p, reflect_in),
                forall|j: int|
                    0 <= j < 256 ==> prev_row@[j] == crate::crc64::advance(
                        p,
                        reflect_in,
                        (e - 1) as nat,
                        crate::crc64::crc64_spec(p, reflect_in, j as u64),
                    ),
                forall|j: int|
                    0 <= j < i ==> row@[j] == crate::crc64::advance(
                        p,
                        reflect_in,
                        e as nat,
                        crate::crc64::crc64_spec(p, reflect_in, j as u64),
                    ),
            decreases 256 - i,
        {
            let prev = prev_row[i];
            let entry = if reflect_in {
                proof {
                    crate::crc64::lemma_bv_misc(prev, 0, prev, 0, 0, 0, 0, 0);
                }
                row0[(prev & 0xFF) as usize] ^ (prev >> 8)
            } else {
                proof {
                    crate::crc64::lemma_bv_misc(prev, 0, prev, 0, 0, 0, 0, 0);
                    crate::crc64::lemma_bv_misc(prev, 0, prev >> 56, 0, 0, 0, 0, 0);
                }
                row0[((prev >> 56) & 0xFF) as usize] ^ (prev << 8)
            };
            proof {
                assert(entry == crate::crc64::update_byte(p, reflect_in, prev, 0));
            }
            row.push(entry);
            i += 1;
        }
        table.push(row);
        e += 1;
    }
    table
}

/// The byte-wise lookup table for a 128-bit register: entry `i` is one
/// byte's worth of division of `i`.
pub fn crc128_table(width: u8, poly: u128, reflect_in: bool) -> (t: Vec<u128>)
    requires
        1 <= width <= 128,
    ensures
        crate::crc128::bytewise_table_ok(t@, crate::crc128::adjusted_poly(width, poly, reflect_in), reflect_in),
{
    let poly = if reflect_in {
        crate::crc128::reflect(poly, width)
    } else {
        poly << ((128 - width) as u128)
    };

    let mut table: Vec<u128> = Vec::new();
    let mut i: usize = 0;
    while i < 256
        invariant
            i <= 256,
            table@.len() == i,
            forall|j: int| 0 <= j < i ==> table@[j] == crate::crc128::crc128_spec(poly, reflect_in, j as u128),
        decreases 256 - i,
    {
        table.push(crate::util::crc128(poly, reflect_in, i as u128));
        i += 1;
    }
    table
}

/// The slice-by-16 table for a 128-bit register: row `e` advances the
/// byte-wise division a further `e` bytes.
pub fn crc128_table_slice_16(width: u8, poly: u128, reflect_in: bool) -> (t: Vec<Vec<u128>>)
    requires
        1 <= width <= 128,
    ensures
        crate::crc128::slice16_table_ok(
            t.deep_view(),
            crate::crc128::adjusted_poly(width, poly, reflect_in),
            reflect_in,
        ),
{
    let ghost p = crate::crc128::adjusted_poly(width, poly, reflect_in);
    let row0 = crc128_table(width, poly, reflect_in);
    let mut table: Vec<Vec<u128>> = Vec::new();
    let row0_copy = clone_row(&row0);
    table.push(row0_copy);
    let mut e: usize = 1;
    while e < 16
        invariant
            1 <= e <= 16,
            table@.len() == e,
            crate::crc128::bytewise_table_ok(row0@, p, reflect_in),
            forall|k: int| 0 <= k < e ==> #[trigger] table@[k]@.len() == 256,
            forall|k: int, i: int|
                0 <= k < e && 0 <= i < 256 ==> #[trigger] table@[k]@[i] == crate::crc128::advance(
                    p,
                    reflect_in,
                    k as nat,
                    crate::crc128::crc128_spec(p, reflect_in, i as u128),
                ),
        decreases 16 - e,
    {
        let prev_row = &table[e - 1];
        let mut row: Vec<u128> = Vec::new();
        let mut i: usize = 0;
        while i < 256
            invariant
                i <= 256,
                row@.len() == i,
                prev_row@.len() == 256,
                1 <= e <= 16,
                crate::crc128::bytewise_table_ok(row0@, p, reflect_in),
                forall|j: int|
                    0 <= j < 256 ==> prev_row@[j] == crate::crc128::advance(
                        p,
                        reflect_in,
                        (e - 1) as nat,
                        crate::crc128::crc128_spec(p, reflect_in, j as u128),
                    ),
                forall|j: int|
                    0 <= j < i ==> row@[j] == crate::crc128::advance(
                        p,
                        reflect_in,
                        e as nat,
                        crate::crc128::crc128_spec(p, reflect_in, j as u128),
                    ),
            decreases 256 - i,
        {
            let prev = prev_row[i];
            let entry = if reflect_in {
                proof {
                    crate::crc128::lemma_bv_misc(prev, 0, prev, 0, 0, 0, 0, 0);
                }
                row0[(prev & 0xFF) as usize] ^ (prev >> 8)
            } else {
                proof {
                    crate::crc128::lemma_bv_misc(prev, 0, prev, 0, 0, 0, 0, 0);
                    crate::crc128::lemma_bv_misc(prev, 0, prev >> 120, 0, 0, 0, 0, 0);
                }
                row0[((prev >> 120) & 0xFF) as usize] ^ (prev << 8)
            };
            proof {
                assert(entry == crate::crc128::update_byte(p, reflect_in, prev, 0));
            }
            row.push(entry);
            i += 1;
        }
        table.push(row);
        e += 1;
    }
    table
}

// An element-wise copy of a table row.
fn clone_row<T: Copy>(row: &Vec<T>) -> (r: Vec<T>)
    ensures
        r@ == row@,
{
    let mut r: Vec<T> = Vec::new();
    let mut i: usize = 0;
    while i < row.len()
        invariant
            i <= row@.len(),
            r@ == row@.take(i as int),
        decreases row@.len() - i,
    {
        proof {
            assert(row@.take(i + 1) =~= row@.take(i as int).push(row@[i as int]));
        }
        r.push(row[i]);
        i += 1;
    }
    proof {
        assert(row@.take(row@.len() as int) =~= row@);
    }
    r
}

} // verus!
