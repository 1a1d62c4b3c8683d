use laso_packet::behavior::decode_burst;
use laso_packet::laso::LasoPacketType;
use laso_packet::message::{BitAdder, Message, MessageVersion};
use laso_packet::rx::RxMessage;
use laso_packet::tx::MessageSender;

fn test_msg_reversal_w_corruption(msg: &Message<22>) {
    let mut wire_packets = Vec::new();
    let mut radio_packets = Vec::new();

    // Encoding and transmit
    let mut sender = MessageSender::new(msg.clone());
    while sender.data_to_send() {
        let wire_packet = sender.packet();
        wire_packets.push(wire_packet.clone());
        let mut radio_data = wire_packet.encode_for_transmit().data();

        // Simulate a burst error affecting 1/8 of the message
        radio_data[3] = 0xff;
        radio_data[4] = 0xff;
        radio_data[5] = 0xff;
        radio_data[6] = 0xff;

        radio_packets.push(radio_data);
    }

    // Reception and decode
    let mut rx: RxMessage<22> = RxMessage::default();
    for from_radio in radio_packets {
        let p = decode_burst(&from_radio);

        if let Err(err) = rx.append(&p) {
            panic!("Rx decode error: {:?}", err);
        }
    }

    assert_eq!(*msg, rx.msg);
}

#[test]
pub fn test_long_laso_reversal_w_noise() {
    let mut msg: Message<22> = Message::default();
    msg.source_address = 0x55;
    msg.packet_type = Some(LasoPacketType::GsmStatus.into());
    msg.add(0x01_u8);
    msg.add_u16(0x0203);
    msg.add_u16(0x0405);
    msg.add_u16(0x0607);
    msg.add_u16(0x0809);
    msg.add_u16(0x0a0b);
    // Padding
    for _ in 0..9 {
        msg.add(0x00_u8);
    }
    test_msg_reversal_w_corruption(&msg);
}

#[test]
pub fn test_long_v2_reversal_w_noise() {
    let mut msg: Message<22> = Message::default();
    msg.source_address = 0x55;
    msg.packet_type = Some(LasoPacketType::GsmStatus.into());
    msg.version = MessageVersion::V2;
    msg.add(0x01_u8);
    msg.add_u16(0x0203);
    msg.add_u16(0x0405);
    msg.add_u16(0x0607);
    msg.add_u16(0x0809);
    msg.add_u16(0x0a0b);
    // Padding
    for _ in 0..9 {
        msg.add(0x00_u8);
    }
    test_msg_reversal_w_corruption(&msg);
}

#[test]
pub fn test_single_bit_flip_recovers_laso() {
    // A single bit flipped anywhere in bytes 3..=6 of the on-air frame is
    // corrected by the pipeline, with at most three corrected bit errors
    // reported per packet.
    let mut msg: Message<22> = Message::default();
    msg.source_address = 0x55;
    msg.packet_type = Some(LasoPacketType::GsmStatus.into());
    msg.version = MessageVersion::LegacyLaso;
    msg.add(0x01_u8);
    msg.add_u16(0x0203);
    for _ in 0..6 {
        msg.add(0x00_u8);
    }

    for byte in 3..=6usize {
        for bit in 0..8 {
            let mut sender = MessageSender::new(msg.clone());
            let mut rx: RxMessage<22> = RxMessage::default();
            while sender.data_to_send() {
                let wire_packet = sender.packet();
                let mut radio_data = wire_packet.encode_for_transmit().data();
                radio_data[byte] ^= 1u8 << bit;
                let p = decode_burst(&radio_data);
                assert!(p.errors <= 3, "too many corrected errors reported");
                assert!(p.parity_errors <= 1, "too many parity errors reported");
                rx.append(&p).expect("rx decode error");
            }
            assert_eq!(msg, rx.msg, "flip of byte {byte} bit {bit} not recovered");
        }
    }
}
