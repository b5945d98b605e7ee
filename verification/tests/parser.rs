use rtio_bridge::codec::{message, Message};
use rtio_bridge::packet::messages;

const ONE_SAMPLE_MSG: [u8; 32] = [
    0x00, 0x00, 0x00, 0x00, 0x00, 0x00, 0x00, 0x00, 0x00, 0x00, 0x00, 0x00, 0x00, 0x00, 0x00,
    0x5b, 0x00, 0x00, 0x00, 0x09, 0xf2, 0xbc, 0x2b, 0x28, 0x00, 0x00, 0x00, 0x00, 0x00, 0x00,
    0x00, 0x2c,
];

const SAMPLE_MSG_1: Message = Message::Sample {
    timestamp: u64::from_be_bytes([0x00, 0x00, 0x00, 0x09, 0xf2, 0xbc, 0x2b, 0x28]),
    channel: 5u32,
    data: [
        0x00, 0x00, 0x00, 0x00, 0x00, 0x00, 0x00, 0x00, 0x00, 0x00, 0x00, 0x00, 0x00, 0x00, 0x00,
        0x5b,
    ],
};

const SAMPLE_MSG_2: Message = Message::Sample {
    timestamp: u64::from_be_bytes([0x00, 0x00, 0x00, 0x09, 0xf2, 0xbd, 0x2b, 0x18]),
    channel: 5u32,
    data: [
        0x00, 0x00, 0x00, 0x00, 0x00, 0x00, 0x00, 0x00, 0x00, 0x00, 0x00, 0x00, 0x00, 0x00, 0x00,
        0x5b,
    ],
};

const ONE_STOP_MSG: [u8; 32] = [
    0x00, 0x00, 0x00, 0x00, 0x00, 0x00, 0x00, 0x00, 0x00, 0x00, 0x00, 0x00, 0x00, 0x00, 0x00,
    0x09, 0xf2, 0xbe, 0x2b, 0x08, 0x00, 0x00, 0x00, 0x00, 0x00, 0x00, 0x00, 0x00, 0x00, 0x00,
    0x00, 0b11,
];

const STOP_MSG: Message = Message::Stop {
    timestamp: u64::from_be_bytes([0x00, 0x00, 0x00, 0x09, 0xf2, 0xbe, 0x2b, 0x08]),
};

const MIXED_MSG: [u8; 96] = [
    0x00, 0x00, 0x00, 0x00, 0x00, 0x00, 0x00, 0x00, 0x00, 0x00, 0x00, 0x00, 0x00, 0x00, 0x00,
    0x5b, 0x00, 0x00, 0x00, 0x09, 0xf2, 0xbc, 0x2b, 0x28, 0x00, 0x00, 0x00, 0x00, 0x00, 0x00,
    0x00, 0x2c, // SAMPLE
    0x00, 0x00, 0x00, 0x00, 0x00, 0x00, 0x00, 0x00, 0x00, 0x00, 0x00, 0x00, 0x00, 0x00, 0x00,
    0x5b, 0x00, 0x00, 0x00, 0x09, 0xf2, 0xbd, 0x2b, 0x18, 0x00, 0x00, 0x00, 0x00, 0x00, 0x00,
    0x00, 0x2c, // SAMPLE
    0x00, 0x00, 0x00, 0x00, 0x00, 0x00, 0x00, 0x00, 0x00, 0x00, 0x00, 0x00, 0x00, 0x00, 0x00,
    0x09, 0xf2, 0xbe, 0x2b, 0x08, 0x00, 0x00, 0x00, 0x00, 0x00, 0x00, 0x00, 0x00, 0x00, 0x00,
    0x00, 0b11, // STOP
];

#[test]
fn parse_sample_message() {
    assert_eq!(message(&ONE_SAMPLE_MSG).ok(), Some(SAMPLE_MSG_1))
}

#[test]
fn parse_stop_message() {
    assert_eq!(message(&ONE_STOP_MSG).ok(), Some(STOP_MSG))
}

#[test]
fn parse_packet() {
    assert_eq!(
        messages(&MIXED_MSG).ok(),
        Some(vec![SAMPLE_MSG_1, SAMPLE_MSG_2, STOP_MSG])
    )
}
