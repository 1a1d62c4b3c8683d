use laso_packet::behavior::decode_burst;
use laso_packet::message::{BitAdder, Message, MessageVersion};
use laso_packet::packet::{GolayDecoderResult, PacketData, PacketStatus};
use laso_packet::rx::{RxDecodeError, RxMessage};
use laso_packet::tx::MessageSender;

fn decoder_result(data: PacketData) -> GolayDecoderResult {
    GolayDecoderResult {
        data,
        parity_errors: 0,
        errors: 0,
    }
}

fn full_packet(status: PacketStatus) -> PacketData {
    let mut p = PacketData::new();
    for _ in 0..11 {
        p.data.push(0).expect("payload full");
    }
    p.status = status;
    p
}

fn v2short_msg() -> Message<22> {
    let mut msg: Message<22> = Message::default();
    msg.source_address = 0x55;
    msg.packet_type = Some(0x2);
    msg.version = MessageVersion::V2Short;
    msg.add(0x01_u8);
    msg.add_u16(0x0203);
    for _ in 0..5 {
        msg.add(0x00_u8);
    }
    msg
}

#[test]
fn test_unexpected_after_terminal() {
    let msg = v2short_msg();
    let mut sender = MessageSender::new(msg);
    let wire = sender.packet();
    let burst = wire.encode_for_transmit().data();
    let p = decode_burst(&burst);

    let mut rx: RxMessage<22> = RxMessage::default();
    assert_eq!(rx.append(&p), Ok(()));
    assert!(rx.finished());
    assert_eq!(rx.append(&p), Err(RxDecodeError::Unexpected));
}

#[test]
fn test_out_of_order_first_packet() {
    let mut msg: Message<22> = Message::default();
    msg.source_address = 0x55;
    msg.packet_type = Some(0x2);
    msg.version = MessageVersion::LegacyLaso;
    for _ in 0..20 {
        msg.add(0x07_u8);
    }
    let mut sender = MessageSender::new(msg);
    let first = sender.packet();
    let burst = first.encode_for_transmit().data();
    let p = decode_burst(&burst);

    let mut rx: RxMessage<22> = RxMessage::default();
    assert_eq!(rx.append(&p), Ok(()));
    // The same first-flagged packet again, with data already accumulated.
    assert_eq!(rx.append(&p), Err(RxDecodeError::OutOfOrder));
}

#[test]
fn test_invalid_legacy_checksum() {
    // A legacy status byte whose checksum nibble cannot match an all-zero
    // payload.
    let raw_status = 0x04 | (0x9 << 4);
    let p = full_packet(PacketStatus::Raw(raw_status));
    let mut rx: RxMessage<22> = RxMessage::default();
    assert_eq!(
        rx.append(&decoder_result(p)),
        Err(RxDecodeError::Invalid)
    );
}

#[test]
fn test_v2short_corrupted_crc_rejected() {
    // A V2Short packet whose final payload byte is corrupted is rejected
    // with a CRC failure.
    let msg = v2short_msg();
    let mut sender = MessageSender::new(msg);
    let mut wire = sender.packet();
    wire.data[10] ^= 0xff;

    let mut rx: RxMessage<22> = RxMessage::default();
    assert_eq!(
        rx.append(&decoder_result(wire)),
        Err(RxDecodeError::CrcFailed)
    );
}

#[test]
fn test_crc8p_corrupted_payload_rejected() {
    let mut msg: Message<22> = Message::default();
    msg.source_address = 0x55;
    msg.packet_type = Some(0x2);
    msg.version = MessageVersion::V2;
    for _ in 0..20 {
        msg.add(0x07_u8);
    }
    let mut sender = MessageSender::new(msg);
    let first = sender.packet();
    let mut second = sender.packet();
    assert!(matches!(second.status, PacketStatus::CRC8P(_)));
    second.data[5] ^= 0x10;

    let mut rx: RxMessage<22> = RxMessage::default();
    assert_eq!(rx.append(&decoder_result(first)), Ok(()));
    assert_eq!(
        rx.append(&decoder_result(second)),
        Err(RxDecodeError::CrcFailed)
    );
}

#[test]
fn test_full_when_capacity_exceeded() {
    let mut msg: Message<22> = Message::default();
    msg.source_address = 0x55;
    msg.packet_type = Some(0x2);
    msg.version = MessageVersion::LegacyLaso;
    for _ in 0..20 {
        msg.add(0x07_u8);
    }
    let mut sender = MessageSender::new(msg);
    let first = sender.packet();
    let burst = first.encode_for_transmit().data();
    let p = decode_burst(&burst);

    // A receiver with a smaller capacity than the arriving payload.
    let mut rx: RxMessage<4> = RxMessage::default();
    assert_eq!(rx.append(&p), Err(RxDecodeError::Full));
}

#[test]
fn test_unknown_packet_rejected() {
    let p = full_packet(PacketStatus::Unknown);
    let mut rx: RxMessage<22> = RxMessage::default();
    assert_eq!(
        rx.append(&decoder_result(p)),
        Err(RxDecodeError::UnknownPacket)
    );
}

#[test]
fn test_raw_needs_decoding_rejected() {
    let p = full_packet(PacketStatus::Raw(0x00));
    let mut rx: RxMessage<22> = RxMessage::default();
    rx.last_status = PacketStatus::Raw(0x00);
    assert_eq!(
        rx.append(&decoder_result(p)),
        Err(RxDecodeError::RawNeedsDecoding)
    );
}

#[test]
fn test_internal_only_rejected() {
    let p = full_packet(PacketStatus::Internal);
    let mut rx: RxMessage<22> = RxMessage::default();
    rx.last_status = PacketStatus::Internal;
    assert_eq!(
        rx.append(&decoder_result(p)),
        Err(RxDecodeError::InternalOnly)
    );
}
