// Scenario and boundary tests: named vectors from the catalogue, width
// masking for odd widths, chunk invariance at every split point, reflection
// behaviour, and the empty-input boundary.
use crc::{Algorithm, Implementation};

fn algo32(a: &crc_catalog::Algorithm<u32>) -> Algorithm<u32> {
    Algorithm {
        width: a.width,
        poly: a.poly,
        init: a.init,
        refin: a.refin,
        refout: a.refout,
        xorout: a.xorout,
        check: a.check,
        residue: a.residue,
    }
}

fn algo64(a: &crc_catalog::Algorithm<u64>) -> Algorithm<u64> {
    Algorithm {
        width: a.width,
        poly: a.poly,
        init: a.init,
        refin: a.refin,
        refout: a.refout,
        xorout: a.xorout,
        check: a.check,
        residue: a.residue,
    }
}

fn algo128(a: &crc_catalog::Algorithm<u128>) -> Algorithm<u128> {
    Algorithm {
        width: a.width,
        poly: a.poly,
        init: a.init,
        refin: a.refin,
        refout: a.refout,
        xorout: a.xorout,
        check: a.check,
        residue: a.residue,
    }
}

// CRC-16/IBM-SDLC (X-25) on "123456789" gives 0x906E.
#[test]
fn ibm_sdlc_check_value() {
    let x25: Algorithm<u16> = Algorithm {
        width: 16,
        poly: 0x1021,
        init: 0xFFFF,
        refin: true,
        refout: true,
        xorout: 0xFFFF,
        check: 0x906E,
        residue: 0xF0B8,
    };
    let engine = crc::crc16::Crc::new(&x25);
    assert_eq!(engine.checksum(b"123456789"), 0x906E);
}

// CRC-32/ISCSI (Castagnoli) on "123456789" gives 0xE3069283, and the
// folding engine matches the table path bit for bit on longer inputs too.
#[test]
fn iscsi_check_value_and_folding_path() {
    let alg = algo32(&crc_catalog::CRC_32_ISCSI);
    let table = crc::crc32::Crc::new(&alg);
    let folding = crc::crc32::simd::Crc::new(&alg);
    assert_eq!(table.checksum(b"123456789"), 0xE3069283);
    assert_eq!(folding.checksum(b"123456789"), 0xE3069283);

    let mut long: Vec<u8> = Vec::new();
    let mut i: u32 = 0;
    while long.len() < 300 {
        long.push((i % 251) as u8);
        i += 37;
    }
    for n in 0..=long.len() {
        assert_eq!(folding.checksum(&long[..n]), table.checksum(&long[..n]));
    }

    // The same comparison for a reflected algorithm whose width does not
    // fill the register.
    let narrow: Algorithm<u32> = Algorithm {
        width: 24,
        poly: 0x864CFB,
        init: 0xB704CE,
        refin: true,
        refout: true,
        xorout: 0,
        check: 0,
        residue: 0,
    };
    let table = crc::crc32::Crc::new(&narrow);
    let folding = crc::crc32::simd::Crc::new(&narrow);
    for n in 0..=long.len() {
        assert_eq!(folding.checksum(&long[..n]), table.checksum(&long[..n]));
    }
}

// CRC-64/ECMA-182 is not reflected; on empty input only init and xorout
// contribute.
#[test]
fn ecma_182_empty_input() {
    let alg = algo64(&crc_catalog::CRC_64_ECMA_182);
    let engine = crc::crc64::Crc::new(&alg);
    assert_eq!(engine.checksum(b""), alg.init ^ alg.xorout);
    assert_eq!(engine.checksum(b"123456789"), alg.check);

    // The same boundary with a nonzero initial value and final XOR.
    let custom: Algorithm<u64> = Algorithm {
        width: 64,
        poly: 0x42F0E1EBA9EA3693,
        init: 0xFFFFFFFFFFFFFFFF,
        refin: false,
        refout: false,
        xorout: 0xFFFFFFFFFFFFFFFF,
        check: 0x62EC59E3F1A4F00A,
        residue: 0xFCACBEBD5931A992,
    };
    let engine = crc::crc64::Crc::new(&custom);
    assert_eq!(engine.checksum(b""), custom.init ^ custom.xorout);
    assert_eq!(engine.checksum(b"123456789"), custom.check);
}

// Toggling refout while holding poly, width and refin fixed reverses the
// bit order of the compacted result.
#[test]
fn refout_toggle_reverses_bits() {
    let plain: Algorithm<u32> = Algorithm {
        width: 32,
        poly: 0x04C11DB7,
        init: 0,
        refin: false,
        refout: false,
        xorout: 0,
        check: 0,
        residue: 0,
    };
    let toggled: Algorithm<u32> = Algorithm { refout: true, ..plain };
    let plain_engine = crc::crc32::Crc::new(&plain);
    let toggled_engine = crc::crc32::Crc::new(&toggled);
    for data in [&b"123456789"[..], b"", b"a", b"hello world"] {
        assert_eq!(
            toggled_engine.checksum(data),
            plain_engine.checksum(data).reverse_bits()
        );
    }
}

// The reflection utility is an involution on width-confined values.
#[test]
fn reflect_round_trip() {
    for v in [0u32, 1, 0x5A, 0xFF, 0x1FFFF, 0xFFFF_FFFF] {
        for w in [1u8, 8, 17, 24, 32] {
            let confined = if w == 32 { v } else { v & ((1u32 << w) - 1) };
            assert_eq!(
                crc::crc32::reflect(crc::crc32::reflect(confined, w), w),
                confined
            );
        }
    }
    assert_eq!(crc::crc32::reflect(0b1101, 4), 0b1011);
    assert_eq!(crc::crc16::reflect(0x0001, 16), 0x8000);
    assert_eq!(crc::crc8::reflect(0b1, 3), 0b100);
}

// For widths that do not fill the register (17, 21, 40, 82 bits), no bits
// above the width ever appear in the checksum, under any strategy.
#[test]
fn width_masking_odd_widths() {
    let inputs: &[&[u8]] = &[b"", b"1", b"123456789", b"0123456789ABCDEFGHIJKLMNOP"];

    let a17 = algo32(&crc_catalog::CRC_17_CAN_FD);
    let a21 = algo32(&crc_catalog::CRC_21_CAN_FD);
    for alg in [a17, a21] {
        for imp in [Implementation::NoTable, Implementation::Bytewise, Implementation::Slice16] {
            let engine = crc::crc32::Crc::new_with_implementation(&alg, imp);
            for data in inputs {
                assert!(engine.checksum(data) < (1u32 << alg.width));
            }
        }
    }

    let a40 = algo64(&crc_catalog::CRC_40_GSM);
    let engine = crc::crc64::Crc::new(&a40);
    assert_eq!(engine.checksum(b"123456789"), a40.check);
    for data in inputs {
        assert!(engine.checksum(data) < (1u64 << 40));
    }

    let a82 = algo128(&crc_catalog::CRC_82_DARC);
    let engine = crc::crc128::Crc::new(&a82);
    assert_eq!(engine.checksum(b"123456789"), a82.check);
    for data in inputs {
        assert!(engine.checksum(data) < (1u128 << 82));
    }
}

// Every strategy of the 128-bit register agrees with the baseline.
#[test]
fn crc128_strategies_agree() {
    let alg = algo128(&crc_catalog::CRC_82_DARC);
    let baseline = crc::crc128::Crc::new(&alg);
    let nolookup = crc::crc128::Crc::new_with_implementation(&alg, Implementation::NoTable);
    let slice16 = crc::crc128::Crc::new_with_implementation(&alg, Implementation::Slice16);
    let inputs: &[&[u8]] = &[
        b"",
        b"1",
        b"1234",
        b"123456789",
        b"0123456789ABCDE",
        b"01234567890ABCDEFGHIJK",
        b"01234567890ABCDEFGHIJK01234567890ABCDEFGHIJK01234567890ABCDEFGHIJK",
    ];
    for data in inputs {
        let expected = baseline.checksum(data);
        assert_eq!(nolookup.checksum(data), expected);
        assert_eq!(slice16.checksum(data), expected);
    }
}

// Splitting the input at every position and feeding the digest two chunks
// gives the one-shot checksum of the whole.
#[test]
fn chunk_invariance_every_split() {
    let data = b"0123456789ABCDEFGHIJKL";
    let alg16: Algorithm<u16> = Algorithm {
        width: 16,
        poly: 0x1021,
        init: 0xFFFF,
        refin: true,
        refout: true,
        xorout: 0xFFFF,
        check: 0x906E,
        residue: 0xF0B8,
    };
    let engine = crc::crc16::Crc::new(&alg16);
    let expected = engine.checksum(data);
    for cut in 0..=data.len() {
        let mut digest = engine.digest();
        digest.update(&data[..cut]);
        digest.update(&data[cut..]);
        assert_eq!(digest.finalize(), expected);
    }

    let alg64 = algo64(&crc_catalog::CRC_64_XZ);
    let engine = crc::crc64::Crc::new(&alg64);
    let expected = engine.checksum(data);
    for cut in 0..=data.len() {
        let mut digest = engine.digest();
        digest.update(&data[..cut]);
        digest.update(&data[cut..]);
        assert_eq!(digest.finalize(), expected);
    }
}

// The run-time validity check agrees with the construction contract:
// catalog records pass, and out-of-range widths or stray high bits fail.
#[test]
fn valid_decides_construction_contract() {
    let good = algo32(&crc_catalog::CRC_32_ISCSI);
    assert!(crc::crc32::valid(&good));
    let narrow = algo32(&crc_catalog::CRC_17_CAN_FD);
    assert!(crc::crc32::valid(&narrow));

    let zero_width = Algorithm { width: 0, ..good };
    assert!(!crc::crc32::valid(&zero_width));
    let too_wide = Algorithm { width: 33, ..good };
    assert!(!crc::crc32::valid(&too_wide));
    let stray_poly = Algorithm { width: 17, ..good };
    assert!(!crc::crc32::valid(&stray_poly));
    let stray_init = Algorithm { init: 0x2_0000, ..narrow };
    assert!(!crc::crc32::valid(&stray_init));

    assert!(crc::crc8::valid(&crate_alg8()));
    assert!(crc::crc64::valid(&algo64(&crc_catalog::CRC_40_GSM)));
    assert!(crc::crc128::valid(&algo128(&crc_catalog::CRC_82_DARC)));
}

fn crate_alg8() -> Algorithm<u8> {
    Algorithm {
        width: 8,
        poly: 0x07,
        init: 0,
        refin: false,
        refout: false,
        xorout: 0,
        check: 0xF4,
        residue: 0,
    }
}

// With no output reflection and a zero final XOR, finalizing a freshly
// seeded digest recovers the seed: finalize inverts init.
#[test]
fn finalize_inverts_init() {
    let plain: Algorithm<u16> = Algorithm {
        width: 16,
        poly: 0x1021,
        init: 0,
        refin: false,
        refout: false,
        xorout: 0,
        check: 0x31C3,
        residue: 0,
    };
    let reflected_in: Algorithm<u16> = Algorithm { refin: true, ..plain };
    let plain_engine = crc::crc16::Crc::new(&plain);
    let reflected_engine = crc::crc16::Crc::new(&reflected_in);
    for x in [0u16, 1, 0x1234, 0xABC, 0xFFFF] {
        assert_eq!(plain_engine.digest_with_initial(x).finalize(), x);
        assert_eq!(reflected_engine.digest_with_initial(x).finalize(), x);
    }
}

// A digest seeded through digest_with_initial with the algorithm's own
// initial value behaves exactly like a fresh digest.
#[test]
fn digest_with_initial_matches_digest() {
    let alg = algo32(&crc_catalog::CRC_32_ISO_HDLC);
    let engine = crc::crc32::Crc::new(&alg);
    let mut a = engine.digest();
    let mut b = engine.digest_with_initial(alg.init);
    a.update(b"123456789");
    b.update(b"123456789");
    assert_eq!(a.finalize(), b.finalize());
}

// The chained `updated` form of the 128-bit digest equals in-place updates.
#[test]
fn crc128_updated_chains() {
    let alg = algo128(&crc_catalog::CRC_82_DARC);
    let engine = crc::crc128::Crc::new(&alg);
    let d = engine.digest().updated(b"12345").updated(b"6789");
    assert_eq!(d.finalize(), engine.checksum(b"123456789"));
}

// One byte's worth of division, done by eight explicit steps, matches the
// published CRC-32 table entry for 0x01 and the lane arithmetic of the
// folding engine on tiny cases.
#[test]
fn division_and_clmul_primitives() {
    // Reflected CRC-32 (ISO-HDLC) table entry for byte 0x01.
    let poly = crc::crc32::reflect(0x04C11DB7, 32);
    assert_eq!(crc::util::crc32(poly, true, 1), 0x77073096);

    // Carry-less products: x * x == x^2, and (x+1) * (x+1) == x^2 + 1.
    let a = crc::clmul::Value::new(2, 0);
    let folded = a.fold_16(crc::clmul::Value::new(2, 0), crc::clmul::Value::new(0, 0));
    assert_eq!(folded.lo, 4);
    assert_eq!(folded.hi, 0);
    let b = crc::clmul::Value::new(3, 0);
    let folded = b.fold_16(crc::clmul::Value::new(3, 0), crc::clmul::Value::new(0, 0));
    assert_eq!(folded.lo, 5);
    assert_eq!(folded.hi, 0);
}
