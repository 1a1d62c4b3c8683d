use laso_packet::behavior::decode_burst;
use laso_packet::crc8::crc8_checksum;
use laso_packet::laso::LasoPacketType;
use laso_packet::message::{BitAdder, Message, MessageVersion};
use laso_packet::packet::{PacketData, PacketStatus, PacketStatusV2};
use laso_packet::rx::RxMessage;
use laso_packet::tx::MessageSender;

#[test]
fn test_crc8_known_digest() {
    // The catalog check value of the CRC-8 algorithm with poly 0xD5,
    // zero init, no reflection and no output XOR.
    assert_eq!(crc8_checksum(b"123456789"), 0xbc);
    assert_eq!(crc8_checksum(b""), 0x00);
    assert_ne!(crc8_checksum(b"1"), crc8_checksum(b"2"));
}

#[test]
fn test_water_level_v2short_roundtrip() {
    // A water-level reading in a single V2Short packet: two header bytes for
    // the packet type, one for the address, seven payload bytes, and the
    // trailing CRC byte fill the frame exactly.
    let mut msg: Message<22> = Message::default();
    msg.source_address = 0x55;
    msg.packet_type = Some(LasoPacketType::WaterLevel.into());
    assert_eq!(msg.packet_type, Some(0x10A));
    msg.version = MessageVersion::V2Short;
    msg.add(0x01_u8);
    msg.add(0x02_u8);
    msg.add(0x03_u8);
    for _ in 0..4 {
        msg.add(0x00_u8);
    }

    let mut sender = MessageSender::new(msg.clone());
    let mut bursts = Vec::new();
    while sender.data_to_send() {
        bursts.push(sender.packet().encode_for_transmit().data());
    }
    assert_eq!(bursts.len(), 1);

    let mut rx: RxMessage<22> = RxMessage::default();
    for burst in bursts {
        let p = decode_burst(&burst);
        rx.append(&p).expect("rx decode error");
        if rx.finished() {
            break;
        }
    }
    assert_eq!(msg, rx.msg);
}

#[test]
fn test_v2_forces_crc_followup() {
    // A V2 (non-short) message fitting its head packet still owes one CRC
    // continuation packet, and the receiver accepts it.
    let mut msg: Message<22> = Message::default();
    msg.source_address = 0x55;
    msg.packet_type = Some(0x2);
    msg.version = MessageVersion::V2;
    for _ in 0..9 {
        msg.add(0x07_u8);
    }

    let mut sender = MessageSender::new(msg.clone());
    let mut packets = Vec::new();
    while sender.data_to_send() {
        packets.push(sender.packet());
    }
    assert_eq!(packets.len(), 2);
    assert!(matches!(packets[1].status, PacketStatus::CRC8P(_)));

    let mut rx: RxMessage<22> = RxMessage::default();
    for p in &packets {
        let burst = p.encode_for_transmit().data();
        let dec = decode_burst(&burst);
        rx.append(&dec).expect("rx decode error");
    }
    // The continuation packet's padding arrives as payload zeroes.
    assert_eq!(rx.msg.data.len(), 20);
    assert_eq!(&rx.msg.data[..9], &msg.data[..]);
    assert!(rx.msg.data[9..].iter().all(|b| *b == 0));
}

#[test]
fn test_to_wire_data_layout() {
    let mut p = PacketData::new();
    p.data.push(0xAA).unwrap();
    p.data.push(0xBB).unwrap();
    p.data.push(0xCC).unwrap();
    p.status = PacketStatus::V2(PacketStatusV2 {
        short: true,
        naked: false,
        listens: true,
    });
    let wire = p.to_wire_data();
    assert_eq!(&wire[0..3], &[0xAA, 0xBB, 0xCC]);
    assert!(wire[3..11].iter().all(|b| *b == 0));
    // listens sets bit 3, short leaves bit 0 clear.
    assert_eq!(wire[11], 0x08);
}

#[test]
fn test_status_finished_states() {
    assert!(PacketStatus::legacy(false, true).finished());
    assert!(!PacketStatus::legacy(true, false).finished());
    assert!(PacketStatus::V2(PacketStatusV2::short()).finished());
    assert!(!PacketStatus::V2(PacketStatusV2::naked()).finished());
    assert!(!PacketStatus::CRC8P(0x12).finished());
    assert!(!PacketStatus::Raw(0x12).finished());
    assert!(!PacketStatus::Data(0x12).finished());
    assert!(PacketStatus::Unknown.finished());
    assert!(PacketStatus::Internal.finished());
}

#[test]
fn test_packet_type_codes() {
    assert_eq!(LasoPacketType::Unknown.code(), 0x00);
    assert_eq!(LasoPacketType::Temperature.code(), 0x1);
    assert_eq!(LasoPacketType::GsmStatus.code(), 0x2);
    assert_eq!(LasoPacketType::WaterLevel.code(), 0x10A);
    assert_eq!(LasoPacketType::WaterLevel.encode(), vec![0x8A, 0x02]);
}

#[test]
fn test_staged_decoder_matches_one_shot() {
    let mut msg: Message<22> = Message::default();
    msg.source_address = 0x12;
    msg.packet_type = Some(0x2);
    msg.version = MessageVersion::V2Short;
    for _ in 0..7 {
        msg.add(0x3C_u8);
    }
    let mut sender = msg.sender();
    let burst = sender.packet().encode_for_transmit().data();

    let one_shot = decode_burst(&burst);

    let mut st = laso_packet::behavior::BurstDecoder::start(&burst);
    let staged = loop {
        match st.step() {
            Ok(next) => st = next,
            Err(out) => break out,
        }
    };

    assert_eq!(staged.data.data, one_shot.data.data);
    assert_eq!(staged.data.status, one_shot.data.status);
    assert_eq!(staged.errors, one_shot.errors);
    assert_eq!(staged.parity_errors, one_shot.parity_errors);
}

#[test]
fn test_raw_receive_data_clear() {
    let mut raw: laso_packet::raw::RawReceiveData<32> = laso_packet::raw::RawReceiveData::init();
    raw.packet.push(0x12);
    raw.packet.push(0x34);
    raw.lna = 7;
    raw.rssi = 9;
    raw.clear();
    assert!(raw.packet.is_empty());
    assert_eq!(raw.lna, 7);
    assert_eq!(raw.rssi, 9);
}

#[test]
fn test_rx_from_message_is_internal() {
    let mut msg: Message<22> = Message::default();
    msg.source_address = 0x42;
    let rx = RxMessage::from(msg.clone());
    assert_eq!(rx.msg, msg);
    assert!(rx.finished());
}
