use laso_packet::golay::{apply_golay, parity_24b, undo_golay};
use laso_packet::packet::{
    GolayDecoderResult, PacketData, PacketStatus, PacketStatusLegacy, PacketStatusV2,
    PacketWithGolay, PacketWithInterleave, PacketWithoutDC,
};

#[test]
fn test_interleave() {
    let pre = PacketWithGolay {
        data: [
            0x12, 0x34, 0x56, 0x78, 0x9a, 0xbc, 0xde, 0xf0, 0xe1, 0xd2, 0xc3, 0xb4, 0xa5, 0x96,
            0x87, 0x78, 0x69, 0x5a, 0x4b, 0x3c, 0x2d, 0x1e, 0xf, 0xcc,
        ],
    };
    let post = PacketWithInterleave::from_golay(&pre);

    let expected: [u8; 24] = [
        0x2a, 0x8c, 0xdb, 0x47, 0xd4, 0x72, 0xa5, 0x79, 0x15, 0x59, 0x8b, 0x47, 0xea, 0xa6, 0x34,
        0x78, 0xa, 0xb3, 0x29, 0x67, 0xf5, 0x4c, 0x76, 0x38,
    ];
    assert_eq!(
        post.data, expected,
        "Interleave does not match the reference wire format."
    );

    let pre_2 = PacketWithGolay::from_interleaved(&post);
    assert_eq!(pre_2, pre, "Interleave is not reversible");
}

#[test]
fn test_6to8() {
    let pre = PacketWithInterleave {
        data: [
            0x12, 0x34, 0x56, 0x78, 0x9a, 0xbc, 0xde, 0xf0, 0xe1, 0xd2, 0xc3, 0xb4, 0xa5, 0x96,
            0x87, 0x78, 0x69, 0x5a, 0x4b, 0x3c, 0x2d, 0x1e, 0xf, 0xcc,
        ],
    };

    let expected: [u8; 32] = [
        0x66, 0x64, 0xa3, 0x69, 0xd4, 0xb1, 0x31, 0x9b, 0x5a, 0x23, 0x5b, 0xd4, 0x66, 0x3b, 0x38,
        0x99, 0xa9, 0x72, 0xd1, 0xa5, 0xd4, 0xa9, 0xaa, 0x6a, 0x33, 0xe5, 0x63, 0x33, 0x5a, 0xd8,
        0x24, 0xe3,
    ];

    let post = PacketWithoutDC::from_interleaved(&pre);
    assert_eq!(
        post.data, expected,
        "DC removal (6b to 8b) does not match LASO."
    );

    let pre2 = PacketWithInterleave::from_radio(&post);

    assert_eq!(pre2.data, pre.data, "DC removal is not reversible");
}

// The 6-bit group `idx` of a byte stream, consumed least-significant-bit
// first.
fn six_bit_group(bytes: &[u8], idx: usize) -> u8 {
    let mut v = 0u8;
    for t in 0..6 {
        let pos = 6 * idx + t;
        let bit = (bytes[pos / 8] >> (pos % 8)) & 1;
        v |= bit << t;
    }
    v
}

#[test]
fn test_6to8_reverse_internal() {
    let pre = PacketWithInterleave {
        data: [
            0x12, 0x34, 0x56, 0x78, 0x9a, 0xbc, 0xde, 0xf0, 0xe1, 0xd2, 0xc3, 0xb4, 0xa5, 0x96,
            0x87, 0x78, 0x69, 0x5a, 0x4b, 0x3c, 0x2d, 0x1e, 0xf, 0xcc,
        ],
    };

    let post = PacketWithoutDC::from_interleaved(&pre);

    for idx in 0..32 {
        let with_dc = six_bit_group(&pre.data, idx);
        let without_dc = post.data[idx];
        let reversed = laso_packet::dc::strip(without_dc);
        assert_eq!(
            with_dc, reversed,
            "de-DC failed on {}. chunk ({:#08b} <-> {:#010b} <-> {:#08b})",
            idx, with_dc, without_dc, reversed
        );
    }
}

#[test]
fn test_golay_reversibility() {
    let mut packet = PacketData::new();

    for v in [
        0x01_u8, 0x23_u8, 0x45_u8, 0x67_u8, 0x89_u8, 0xab_u8, 0xcd_u8, 0xef_u8, 0xf0_u8, 0xe1_u8,
        0xd2_u8,
    ] {
        packet.data.push(v).expect("Not enough space in vector");
    }

    let p_w_golay = PacketWithGolay::from_packet(&packet);

    let packet_2 = GolayDecoderResult::from_golay(&p_w_golay);

    assert_eq!(packet.data, packet_2.data.data, "Golay not reversible.");
    assert_eq!(packet_2.errors, 0, "Golay reversible with errors.");
    assert_eq!(
        packet_2.parity_errors, 0,
        "Golay reversible with parity errors."
    );
}

#[test]
fn test_packet() {
    // Prepare input packet data
    let mut packet = PacketData::new();
    packet.status = PacketStatus::Legacy(PacketStatusLegacy {
        first: true,
        last: true,
        checksum4: 0,
    });
    for v in [
        0x12, 0x34, 0x56, 0x78, 0x9a, 0xbc, 0xde, 0xf0, 0xe1, 0xd2, 0xc3,
    ] {
        packet.data.push(v).expect("Not enough space in vector");
    }

    assert_eq!(0x74, packet.compute_status().encode(), "Bad flags byte.");

    let p_w_golay = PacketWithGolay::from_packet(&packet);
    let p_w_interleave = PacketWithInterleave::from_golay(&p_w_golay);
    let p_wo_dc = PacketWithoutDC::from_interleaved(&p_w_interleave);

    let expected: [u8; 32] = [
        0x98, 0xa6, 0xd8, 0x6a, 0xd2, 0x2c, 0xc9, 0xab, 0x39, 0xe5, 0xe3, 0xb2, 0xe5, 0xb4, 0xaa,
        0x2a, 0x26, 0xe6, 0x2b, 0x9a, 0x66, 0xa9, 0xa3, 0x71, 0x31, 0x99, 0x38, 0x74, 0x6b, 0xd8,
        0x6c, 0xb4,
    ];

    assert_eq!(
        p_wo_dc.data, expected,
        "Packet wire encoding does not match LASO v2"
    );
}

#[test]
fn test_simple_packet() {
    // Prepare input packet data
    let mut packet = PacketData::new();
    packet.status = PacketStatus::Legacy(PacketStatusLegacy {
        first: true,
        last: true,
        checksum4: 0,
    });
    for v in [
        0x81, 0x01, 0x02, 0x03, 0x04, 0x05, 0x06, 0x07, 0x08, 0x09, 0x0A,
    ] {
        packet.data.push(v).expect("Not enough space in vector");
    }

    assert_eq!(0x24, packet.compute_status().encode(), "Bad flags byte.");

    let p_w_golay = PacketWithGolay::from_packet(&packet);
    let p_w_interleave = PacketWithInterleave::from_golay(&p_w_golay);
    let p_wo_dc = PacketWithoutDC::from_interleaved(&p_w_interleave);

    let p_w_interleave2 = PacketWithInterleave::from_radio(&p_wo_dc);

    assert_eq!(p_w_interleave2.data, p_w_interleave.data);

    let p_w_golay2 = PacketWithGolay::from_interleaved(&p_w_interleave2);
    assert_eq!(p_w_golay2.data, p_w_golay.data);

    let packet2 = GolayDecoderResult::from_golay(&p_w_golay);

    assert_eq!(packet2.data.data, packet.data);
}

#[test]
fn test_golay_laso() {
    // Prepare input packet data
    let mut packet = PacketData::new();
    packet.status = PacketStatus::Legacy(PacketStatusLegacy {
        first: true,
        last: true,
        checksum4: 0,
    });
    for v in [
        0x12, 0x34, 0x56, 0x78, 0x9a, 0xbc, 0xde, 0xf0, 0xe1, 0xd2, 0xc3,
    ] {
        packet.data.push(v).expect("Not enough space in vector");
    }

    assert_eq!(0x74, packet.compute_status().encode(), "Bad flags byte.");

    let p_w_golay = PacketWithGolay::from_packet(&packet);

    let expected: [u8; 24] = [
        0x88, 0x51, 0x23, 0x5e, 0xa4, 0x56, 0x93, 0x67, 0x89, 0x21, 0xea, 0xbc, 0x4d, 0x6d, 0xef,
        0x62, 0x20, 0xe1, 0x6a, 0x9d, 0x2c, 0xed, 0x03, 0x74,
    ];

    assert_eq!(p_w_golay.data, expected, "Golay does not match LASO v2");
}

#[test]
fn test_golay_single() {
    assert_eq!(
        apply_golay(0x0_u16),
        0x0_u32,
        "Golay works differently from LASO"
    );
    assert_eq!(
        apply_golay(0x555_u16),
        0x4f4555_u32,
        "Golay works differently from LASO"
    );
    assert_eq!(
        apply_golay(0x123_u16),
        0x885123_u32,
        "Golay works differently from LASO"
    );
}

#[test]
fn test_parity() {
    for i in 0..4096 {
        assert_eq!(parity_24b(i), i.count_ones() & 0x1)
    }
}

#[test]
fn test_golay_triple_error_sweep() {
    // Every distinct triple of error positions, over a dense sample of
    // messages: as much of the exhaustive triple-error sweep as fits the
    // test budget.
    for c in (0..4096u16).step_by(32) {
        let cw = apply_golay(c);
        assert_eq!(
            cw >> 23,
            (cw & 0x7fffff).count_ones() & 0x1,
            "Wrong parity in generated code"
        );
        for e1 in 0..23u32 {
            for e2 in 0..e1 {
                for e3 in 0..e2 {
                    let mask: u32 = (1 << e1) | (1 << e2) | (1 << e3);
                    let (c2, err, _recovered) = undo_golay(cw ^ mask);

                    assert_eq!(c2, c, "Error correction failed.");
                    assert_eq!(
                        err,
                        mask.count_ones() as usize,
                        "Number of corrected errors does not match the error mask."
                    )
                }
            }
        }
    }
}

#[test]
fn test_golay_single_and_double_errors() {
    // Every single and double error position over sampled messages.
    for c in (0..4096u16).step_by(17) {
        let cw = apply_golay(c);
        for e1 in 0..23u32 {
            let (c1, n1, _) = undo_golay(cw ^ (1 << e1));
            assert_eq!(c1, c, "single-error correction failed");
            assert_eq!(n1, 1, "wrong single-error count");
            for e2 in 0..e1 {
                let mask: u32 = (1 << e1) | (1 << e2);
                let (c2, n2, _) = undo_golay(cw ^ mask);
                assert_eq!(c2, c, "double-error correction failed");
                assert_eq!(n2, 2, "wrong double-error count");
            }
        }
    }
}

#[test]
fn test_v2_status_reversability() {
    // As first packet
    let status = PacketStatus::V2(PacketStatusV2 {
        short: false,
        listens: true,
        naked: false,
    });
    assert_eq!(status, PacketStatus::Unknown.decode(status.encode()));

    let status = PacketStatus::V2(PacketStatusV2 {
        short: false,
        listens: false,
        naked: false,
    });
    assert_eq!(status, PacketStatus::Unknown.decode(status.encode()));

    let status = PacketStatus::V2(PacketStatusV2 {
        short: true,
        listens: true,
        naked: false,
    });
    assert_eq!(status, PacketStatus::Unknown.decode(status.encode()));

    let status = PacketStatus::V2(PacketStatusV2 {
        short: true,
        listens: false,
        naked: false,
    });
    assert_eq!(status, PacketStatus::Unknown.decode(status.encode()));

    let status = PacketStatus::V2(PacketStatusV2 {
        short: false,
        listens: true,
        naked: true,
    });
    assert_eq!(status, PacketStatus::Unknown.decode(status.encode()));

    let status = PacketStatus::V2(PacketStatusV2 {
        short: false,
        listens: false,
        naked: true,
    });
    assert_eq!(status, PacketStatus::Unknown.decode(status.encode()));

    let status = PacketStatus::V2(PacketStatusV2 {
        short: true,
        listens: true,
        naked: true,
    });
    assert_eq!(status, PacketStatus::Unknown.decode(status.encode()));

    let status = PacketStatus::V2(PacketStatusV2 {
        short: true,
        listens: false,
        naked: true,
    });
    assert_eq!(status, PacketStatus::Unknown.decode(status.encode()));

    // As second packet
    let status = PacketStatus::V2(PacketStatusV2 {
        short: false,
        listens: true,
        naked: false,
    });
    assert_eq!(PacketStatus::CRC8P(0x55), status.decode(0x55));

    let status = PacketStatus::V2(PacketStatusV2 {
        short: false,
        listens: false,
        naked: false,
    });
    assert_eq!(PacketStatus::CRC8P(0x55), status.decode(0x55));

    let status = PacketStatus::V2(PacketStatusV2 {
        short: false,
        listens: true,
        naked: true,
    });
    assert_eq!(PacketStatus::Data(0x55), status.decode(0x55));

    let status = PacketStatus::V2(PacketStatusV2 {
        short: false,
        listens: false,
        naked: true,
    });
    assert_eq!(PacketStatus::Data(0x55), status.decode(0x55));
}

#[test]
fn test_legacy_status_reversability() {
    // As first packet
    let status = PacketStatus::Legacy(PacketStatusLegacy {
        first: true,
        last: true,
        checksum4: 0x5,
    });
    assert_eq!(status, PacketStatus::Unknown.decode(status.encode()));

    let status = PacketStatus::Legacy(PacketStatusLegacy {
        first: true,
        last: false,
        checksum4: 0x5,
    });
    assert_eq!(status, PacketStatus::Unknown.decode(status.encode()));

    // As second packet
    let status = PacketStatus::Legacy(PacketStatusLegacy {
        first: false,
        last: true,
        checksum4: 0x5,
    });
    assert_eq!(status, status.decode(status.encode()));

    let status = PacketStatus::Legacy(PacketStatusLegacy {
        first: false,
        last: false,
        checksum4: 0x5,
    });
    assert_eq!(status, status.decode(status.encode()));
}

#[test]
fn test_crc_status_reversability() {
    // As second packet (crc is never present as first packet)
    let first_status = PacketStatus::V2(PacketStatusV2 {
        short: false,
        listens: false,
        naked: false,
    });
    let status = PacketStatus::CRC8P(0x32);
    assert_eq!(status, first_status.decode(status.encode()));

    // As third packet (crc is never present as first packet)
    let status = PacketStatus::CRC8P(0x32);
    assert_eq!(status, status.decode(status.encode()));
}

#[test]
fn test_full_6to8_reversability() {
    // Test each 6b symbol
    for b in 0_u8..=0x3f {
        let encoded = laso_packet::dc::balance(b);
        let decoded = laso_packet::dc::strip(encoded);
        assert_eq!(b, decoded, "6 to 8 reversability broken for {}", b);
    }
}

#[test]
fn test_one_bit_dc_error_impact() {
    // Test each 6b symbol
    for b in 0_u8..=0x3f {
        let encoded = laso_packet::dc::balance(b);
        for i in 0..8 {
            let xor = 1_u8 << i;
            let decoded = laso_packet::dc::strip(encoded ^ xor);
            let error_bits = b ^ decoded;

            assert!(
                error_bits.count_ones() <= 1,
                "6 to 8 reverse broken with {} bit errors in 0x{:x} and bitflip mask 0x{:x}",
                error_bits.count_ones(),
                b,
                xor
            );
        }
    }
}

#[test]
fn test_two_bit_dc_error_impact() {
    // Test each 6b symbol
    for b in 0_u8..=0x3f {
        let encoded = laso_packet::dc::balance(b);
        for i in 0..8 {
            for j in 0..8 {
                if i == j {
                    continue;
                }

                let xor = 1_u8 << i | 1_u8 << j;
                let decoded = laso_packet::dc::strip(encoded ^ xor);
                let error_bits = b ^ decoded;
                assert!(error_bits.count_ones() <= 2, "6 to 8 reverse broken with {} bit errors in 0x{:x} and bitflip mask 0x{:x}", error_bits.count_ones(), b, xor);
            }
        }
    }
}
