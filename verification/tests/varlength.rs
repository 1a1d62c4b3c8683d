use laso_packet::message::{BitAdder, Message};
use laso_packet::util::IntoLeastSigByte;
use laso_packet::util::{decode_extended_number, encode_id, encode_varlength};

#[test]
fn test_encode_id() {
    for i in 0x80..=0x3999_u16 {
        let mut sender_var: Message<3> = Message::default();
        sender_var.add_varlen(i as u32);

        let mut sender_id: Message<3> = Message::default();
        sender_id.add_u16(encode_id(i));

        assert_eq!(sender_var.data, sender_id.data, "bad match for 0x{:x}", i);
    }
}

#[test]
fn test_varlength_roundtrip_samples() {
    let samples: [u32; 12] = [
        0,
        1,
        0x7f,
        0x80,
        0x81,
        0x3fff,
        0x4000,
        0x1fffff,
        0x200000,
        0x55aa55,
        0xabcdef,
        0x0fffffff,
    ];
    for v in samples {
        let bytes = encode_varlength(v);
        let (decoded, next) = decode_extended_number(bytes.as_slice(), 0);
        assert_eq!(decoded, v, "round trip broken for 0x{:x}", v);
        assert_eq!(next, bytes.len(), "wrong consumed length for 0x{:x}", v);
    }
}

#[test]
fn test_varlength_known_bytes() {
    assert_eq!(encode_varlength(0x00), vec![0x00]);
    assert_eq!(encode_varlength(0x55), vec![0x55]);
    assert_eq!(encode_varlength(0x80), vec![0x80, 0x01]);
    assert_eq!(encode_varlength(0x10A), vec![0x8A, 0x02]);
    assert_eq!(encode_varlength(0x3999), vec![0x99, 0x73]);
}

#[test]
fn test_decode_stops_at_terminator() {
    let data = [0x81u8, 0x02, 0x7f, 0x00];
    let (v, next) = decode_extended_number(&data, 0);
    assert_eq!(v, 0x101);
    assert_eq!(next, 2);
    let (v2, next2) = decode_extended_number(&data, next);
    assert_eq!(v2, 0x7f);
    assert_eq!(next2, 3);
}

#[test]
fn test_into_least_sig_byte() {
    assert_eq!(u8::from(IntoLeastSigByte::from(0x1234_u16)), 0x34);
    assert_eq!(u8::from(IntoLeastSigByte::from(0xABCDEF01_u32)), 0x01);
    assert_eq!(u8::from(IntoLeastSigByte::from(0x7f_u8)), 0x7f);
}
