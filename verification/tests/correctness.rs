// The optimized update strategies checked against the byte-wise baseline,
// one-shot and streamed, whole and split, over the catalog of named
// algorithms.
use crc::{Algorithm, Implementation};
use crc_catalog::{CRC_10_ATM, CRC_10_CDMA2000, CRC_10_GSM, CRC_11_FLEXRAY, CRC_11_UMTS, CRC_12_CDMA2000, CRC_12_DECT, CRC_12_GSM, CRC_12_UMTS, CRC_13_BBC, CRC_14_DARC, CRC_14_GSM, CRC_15_CAN, CRC_15_MPT1327, CRC_16_ARC, CRC_16_CDMA2000, CRC_16_CMS, CRC_16_DDS_110, CRC_16_DECT_R, CRC_16_DECT_X, CRC_16_DNP, CRC_16_EN_13757, CRC_16_GENIBUS, CRC_16_GSM, CRC_16_IBM_3740, CRC_16_IBM_SDLC, CRC_16_ISO_IEC_14443_3_A, CRC_16_KERMIT, CRC_16_LJ1200, CRC_16_MAXIM_DOW, CRC_16_MCRF4XX, CRC_16_MODBUS, CRC_16_NRSC_5, CRC_16_OPENSAFETY_A, CRC_16_OPENSAFETY_B, CRC_16_PROFIBUS, CRC_16_RIELLO, CRC_16_SPI_FUJITSU, CRC_16_T10_DIF, CRC_16_TELEDISK, CRC_16_TMS37157, CRC_16_UMTS, CRC_16_USB, CRC_16_XMODEM, CRC_17_CAN_FD, CRC_21_CAN_FD, CRC_24_BLE, CRC_24_FLEXRAY_A, CRC_24_FLEXRAY_B, CRC_24_INTERLAKEN, CRC_24_LTE_A, CRC_24_LTE_B, CRC_24_OPENPGP, CRC_24_OS_9, CRC_30_CDMA, CRC_31_PHILIPS, CRC_32_AIXM, CRC_32_AUTOSAR, CRC_32_BASE91_D, CRC_32_BZIP2, CRC_32_CD_ROM_EDC, CRC_32_CKSUM, CRC_32_ISCSI, CRC_32_ISO_HDLC, CRC_32_JAMCRC, CRC_32_MPEG_2, CRC_32_XFER, CRC_3_GSM, CRC_3_ROHC, CRC_4_G_704, CRC_4_INTERLAKEN, CRC_5_EPC_C1G2, CRC_5_G_704, CRC_5_USB, CRC_64_ECMA_182, CRC_6_CDMA2000_A, CRC_6_CDMA2000_B, CRC_6_DARC, CRC_6_GSM, CRC_6_G_704, CRC_7_MMC, CRC_7_ROHC, CRC_7_UMTS, CRC_8_AUTOSAR, CRC_8_BLUETOOTH, CRC_8_CDMA2000, CRC_8_DARC, CRC_8_DVB_S2, CRC_8_GSM_A, CRC_8_GSM_B, CRC_8_I_432_1, CRC_8_I_CODE, CRC_8_LTE, CRC_8_MAXIM_DOW, CRC_8_MIFARE_MAD, CRC_8_NRSC_5, CRC_8_OPENSAFETY, CRC_8_ROHC, CRC_8_SAE_J1850, CRC_8_SMBUS, CRC_8_TECH_3250, CRC_8_WCDMA};

const DATA: &[&str] = &[
    "",
    "1",
    "1234",
    "123456789",
    "0123456789ABCDE",
    "01234567890ABCDEFGHIJK",
    "01234567890ABCDEFGHIJK01234567890ABCDEFGHIJK01234567890ABCDEFGHIJK01234567890ABCDEFGHIJK01234567890ABCDEFGHIJK01234567890ABCDEFGHIJK01234567890ABCDEFGHIJK01234567890ABCDEFGHIJK01234567890ABCDEFGHIJK01234567890ABCDEFGHIJK01234567890ABCDEFGHIJK01234567890ABCDEFGHIJK",
];

fn conv8(a: &crc_catalog::Algorithm<u8>) -> Algorithm<u8> {
    Algorithm {
        width: a.width,
        poly: a.poly,
        init: a.init,
        refin: a.refin,
        refout: a.refout,
        xorout: a.xorout,
        check: a.check,
        residue: a.residue,
    }
}

fn conv16(a: &crc_catalog::Algorithm<u16>) -> Algorithm<u16> {
    Algorithm {
        width: a.width,
        poly: a.poly,
        init: a.init,
        refin: a.refin,
        refout: a.refout,
        xorout: a.xorout,
        check: a.check,
        residue: a.residue,
    }
}

fn conv32(a: &crc_catalog::Algorithm<u32>) -> Algorithm<u32> {
    Algorithm {
        width: a.width,
        poly: a.poly,
        init: a.init,
        refin: a.refin,
        refout: a.refout,
        xorout: a.xorout,
        check: a.check,
        residue: a.residue,
    }
}

fn conv64(a: &crc_catalog::Algorithm<u64>) -> Algorithm<u64> {
    Algorithm {
        width: a.width,
        poly: a.poly,
        init: a.init,
        refin: a.refin,
        refout: a.refout,
        xorout: a.xorout,
        check: a.check,
        residue: a.residue,
    }
}

#[test]
fn crc8_correctness() {
    let algs: &[crc_catalog::Algorithm<u8>] = &[
        CRC_3_GSM,
        CRC_3_ROHC,
        CRC_4_G_704,
        CRC_4_INTERLAKEN,
        CRC_5_EPC_C1G2,
        CRC_5_G_704,
        CRC_5_USB,
        CRC_6_CDMA2000_A,
        CRC_6_CDMA2000_B,
        CRC_6_DARC,
        CRC_6_G_704,
        CRC_6_GSM,
        CRC_7_MMC,
        CRC_7_ROHC,
        CRC_7_UMTS,
        CRC_8_AUTOSAR,
        CRC_8_BLUETOOTH,
        CRC_8_CDMA2000,
        CRC_8_DARC,
        CRC_8_DVB_S2,
        CRC_8_GSM_A,
        CRC_8_GSM_B,
        CRC_8_I_432_1,
        CRC_8_I_CODE,
        CRC_8_LTE,
        CRC_8_MAXIM_DOW,
        CRC_8_MIFARE_MAD,
        CRC_8_NRSC_5,
        CRC_8_OPENSAFETY,
        CRC_8_ROHC,
        CRC_8_SAE_J1850,
        CRC_8_SMBUS,
        CRC_8_TECH_3250,
        CRC_8_WCDMA,
    ];

    for alg in algs {
        let alg = conv8(alg);
        assert_eq!(
            crc::crc8::Crc::new(&alg).checksum("123456789".as_bytes()),
            alg.check
        );
    }

    for alg in algs {
        let alg = conv8(alg);
        for data in DATA {
            let crc_slice16 = crc::crc8::Crc::new_with_implementation(&alg, Implementation::Slice16);
            let crc_nolookup = crc::crc8::Crc::new_with_implementation(&alg, Implementation::NoTable);
            let expected = crc::crc8::Crc::new(&alg).checksum(data.as_bytes());

            assert_eq!(crc_slice16.checksum(data.as_bytes()), expected);
            assert_eq!(crc_nolookup.checksum(data.as_bytes()), expected);

            let mut digest = crc_slice16.digest();
            digest.update(data.as_bytes());
            assert_eq!(digest.finalize(), expected);

            let mut digest = crc_nolookup.digest();
            digest.update(data.as_bytes());
            assert_eq!(digest.finalize(), expected);

            if data.len() > 2 {
                let data = data.as_bytes();
                let data1 = &data[..data.len() / 2];
                let data2 = &data[data.len() / 2..];
                let mut digest = crc_slice16.digest();
                digest.update(data1);
                digest.update(data2);
                assert_eq!(digest.finalize(), expected);
                let mut digest = crc_nolookup.digest();
                digest.update(data1);
                digest.update(data2);
                assert_eq!(digest.finalize(), expected);
            }
        }
    }
}

#[test]
fn crc16_correctness() {
    let algs: &[crc_catalog::Algorithm<u16>] = &[
        CRC_10_ATM,
        CRC_10_CDMA2000,
        CRC_10_GSM,
        CRC_11_FLEXRAY,
        CRC_11_UMTS,
        CRC_12_CDMA2000,
        CRC_12_DECT,
        CRC_12_GSM,
        CRC_12_UMTS,
        CRC_13_BBC,
        CRC_14_DARC,
        CRC_14_GSM,
        CRC_15_CAN,
        CRC_15_MPT1327,
        CRC_16_ARC,
        CRC_16_CDMA2000,
        CRC_16_CMS,
        CRC_16_DDS_110,
        CRC_16_DECT_R,
        CRC_16_DECT_X,
        CRC_16_DNP,
        CRC_16_EN_13757,
        CRC_16_GENIBUS,
        CRC_16_GSM,
        CRC_16_IBM_3740,
        CRC_16_IBM_SDLC,
        CRC_16_ISO_IEC_14443_3_A,
        CRC_16_KERMIT,
        CRC_16_LJ1200,
        CRC_16_MAXIM_DOW,
        CRC_16_MCRF4XX,
        CRC_16_MODBUS,
        CRC_16_NRSC_5,
        CRC_16_OPENSAFETY_A,
        CRC_16_OPENSAFETY_B,
        CRC_16_PROFIBUS,
        CRC_16_RIELLO,
        CRC_16_SPI_FUJITSU,
        CRC_16_T10_DIF,
        CRC_16_TELEDISK,
        CRC_16_TMS37157,
        CRC_16_UMTS,
        CRC_16_USB,
        CRC_16_XMODEM,
    ];

    for alg in algs {
        let alg = conv16(alg);
        assert_eq!(
            crc::crc16::Crc::new(&alg).checksum("123456789".as_bytes()),
            alg.check
        );
    }

    for alg in algs {
        let alg = conv16(alg);
        for data in DATA {
            let crc_slice16 =
                crc::crc16::Crc::new_with_implementation(&alg, Implementation::Slice16);
            let crc_nolookup =
                crc::crc16::Crc::new_with_implementation(&alg, Implementation::NoTable);
            let expected = crc::crc16::Crc::new(&alg).checksum(data.as_bytes());

            assert_eq!(crc_slice16.checksum(data.as_bytes()), expected);
            assert_eq!(crc_nolookup.checksum(data.as_bytes()), expected);

            let mut digest = crc_slice16.digest();
            digest.update(data.as_bytes());
            assert_eq!(digest.finalize(), expected);

            let mut digest = crc_nolookup.digest();
            digest.update(data.as_bytes());
            assert_eq!(digest.finalize(), expected);

            if data.len() > 2 {
                let data = data.as_bytes();
                let data1 = &data[..data.len() / 2];
                let data2 = &data[data.len() / 2..];
                let mut digest = crc_slice16.digest();
                digest.update(data1);
                digest.update(data2);
                assert_eq!(digest.finalize(), expected);
                let mut digest = crc_nolookup.digest();
                digest.update(data1);
                digest.update(data2);
                assert_eq!(digest.finalize(), expected);
            }
        }
    }
}

#[test]
fn crc32_correctness() {
    let algs: &[crc_catalog::Algorithm<u32>] = &[
        CRC_17_CAN_FD,
        CRC_21_CAN_FD,
        CRC_24_BLE,
        CRC_24_FLEXRAY_A,
        CRC_24_FLEXRAY_B,
        CRC_24_INTERLAKEN,
        CRC_24_LTE_A,
        CRC_24_LTE_B,
        CRC_24_OPENPGP,
        CRC_24_OS_9,
        CRC_30_CDMA,
        CRC_31_PHILIPS,
        CRC_32_AIXM,
        CRC_32_AUTOSAR,
        CRC_32_BASE91_D,
        CRC_32_BZIP2,
        CRC_32_CD_ROM_EDC,
        CRC_32_CKSUM,
        CRC_32_ISCSI,
        CRC_32_ISO_HDLC,
        CRC_32_JAMCRC,
        CRC_32_MPEG_2,
        CRC_32_XFER,
    ];

    for alg in algs {
        let alg = conv32(alg);
        assert_eq!(
            crc::crc32::Crc::new(&alg).checksum("123456789".as_bytes()),
            alg.check
        );
    }

    for alg in algs {
        let alg = conv32(alg);
        for data in DATA {
            let crc_slice16 =
                crc::crc32::Crc::new_with_implementation(&alg, Implementation::Slice16);
            let crc_nolookup =
                crc::crc32::Crc::new_with_implementation(&alg, Implementation::NoTable);
            let crc_clmul = crc::crc32::simd::Crc::new(&alg);
            let expected = crc::crc32::Crc::new(&alg).checksum(data.as_bytes());

            assert_eq!(crc_slice16.checksum(data.as_bytes()), expected);
            assert_eq!(crc_nolookup.checksum(data.as_bytes()), expected);
            assert_eq!(crc_clmul.checksum(data.as_bytes()), expected);

            let mut digest = crc_slice16.digest();
            digest.update(data.as_bytes());
            assert_eq!(digest.finalize(), expected);

            let mut digest = crc_nolookup.digest();
            digest.update(data.as_bytes());
            assert_eq!(digest.finalize(), expected);

            let mut digest = crc_clmul.digest();
            digest.update(data.as_bytes());
            assert_eq!(digest.finalize(), expected);

            if data.len() > 2 {
                let data = data.as_bytes();
                let data1 = &data[..data.len() / 2];
                let data2 = &data[data.len() / 2..];
                let mut digest = crc_slice16.digest();
                digest.update(data1);
                digest.update(data2);
                assert_eq!(digest.finalize(), expected);
                let mut digest = crc_nolookup.digest();
                digest.update(data1);
                digest.update(data2);
                assert_eq!(digest.finalize(), expected);
                let mut digest = crc_clmul.digest();
                digest.update(data1);
                digest.update(data2);
                assert_eq!(digest.finalize(), expected);
            }
        }
    }
}

#[test]
fn crc64_correctness() {
    let ecma_reflex: Algorithm<u64> = Algorithm {
        width: 64,
        poly: 0x42f0e1eba9ea3693,
        init: 0x0000000000000000,
        refin: true,
        refout: false,
        xorout: 0x0000000000000000,
        check: 0x6c40df5f0b497347,
        residue: 0x0000000000000000,
    };

    let algs = [conv64(&CRC_64_ECMA_182), ecma_reflex];

    for alg in &algs {
        for data in DATA {
            let crc_slice16 =
                crc::crc64::Crc::new_with_implementation(alg, Implementation::Slice16);
            let crc_nolookup =
                crc::crc64::Crc::new_with_implementation(alg, Implementation::NoTable);
            let expected = crc::crc64::Crc::new(alg).checksum(data.as_bytes());

            assert_eq!(crc_slice16.checksum(data.as_bytes()), expected);
            assert_eq!(crc_nolookup.checksum(data.as_bytes()), expected);

            let mut digest = crc_slice16.digest();
            digest.update(data.as_bytes());
            assert_eq!(digest.finalize(), expected);

            let mut digest = crc_nolookup.digest();
            digest.update(data.as_bytes());
            assert_eq!(digest.finalize(), expected);

            if data.len() > 2 {
                let data = data.as_bytes();
                let data1 = &data[..data.len() / 2];
                let data2 = &data[data.len() / 2..];
                let mut digest = crc_slice16.digest();
                digest.update(data1);
                digest.update(data2);
                assert_eq!(digest.finalize(), expected);
                let mut digest = crc_nolookup.digest();
                digest.update(data1);
                digest.update(data2);
                assert_eq!(digest.finalize(), expected);
            }
        }
    }
}

#[test]
fn crc32_fast_correctness() {
    let iscsi_nonreflex: Algorithm<u32> = Algorithm {
        width: 32,
        poly: 0x1edc6f41,
        init: 0xffffffff,
        // This is the only flag that affects the optimized code path
        refin: false,
        refout: true,
        xorout: 0xffffffff,
        check: 0xe3069283,
        residue: 0xb798b438,
    };

    let algs = [conv32(&CRC_32_ISCSI), iscsi_nonreflex];

    for alg in &algs {
        let fast = crc::crc32_fast::FastU32::new(alg);
        for data in DATA {
            let expected = crc::crc32::Crc::new(alg).checksum(data.as_bytes());

            let crc1 = fast.checksum(data.as_bytes());
            assert_eq!(crc1, expected);

            let mut digest = fast.digest();
            digest.update(data.as_bytes());
            let crc2 = digest.finalize();
            assert_eq!(crc2, expected);

            if data.len() > 2 {
                let data = data.as_bytes();
                let data1 = &data[..data.len() / 2];
                let data2 = &data[data.len() / 2..];
                let mut digest = fast.digest();
                digest.update(data1);
                digest.update(data2);
                let crc3 = digest.finalize();
                assert_eq!(crc3, expected);
            }
        }
    }
}
