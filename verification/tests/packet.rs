use rtio_bridge::codec::{encode, Message};
use rtio_bridge::packet::{dissect, messages, PacketError};

fn sample(timestamp: u64, channel: u32) -> Message {
    Message::Sample {
        timestamp,
        channel,
        data: [0u8; 16],
    }
}

#[test]
fn empty_packet_yields_no_messages() {
    assert_eq!(messages(&[]), Ok(vec![]));
}

#[test]
fn k_records_yield_k_messages_in_order() {
    let msgs = [
        sample(10, 1),
        sample(20, 2),
        Message::Stop { timestamp: 30 },
        sample(40, 3),
    ];
    let mut packet = Vec::new();
    for m in &msgs {
        packet.extend_from_slice(&encode(m));
    }
    assert_eq!(messages(&packet), Ok(msgs.to_vec()));
}

#[test]
fn dissect_pairs_each_message_with_its_bytes() {
    let mut packet = encode(&sample(1, 7));
    packet.extend_from_slice(&encode(&Message::Stop { timestamp: 2 }));
    let pairs = dissect(&packet).unwrap();
    assert_eq!(pairs.len(), 2);
    assert_eq!(pairs[0].0, sample(1, 7));
    assert_eq!(pairs[0].1, &packet[..32]);
    assert_eq!(pairs[1].0, Message::Stop { timestamp: 2 });
    assert_eq!(pairs[1].1, &packet[32..]);
}

#[test]
fn short_packet_is_truncated() {
    let packet = [0u8; 10];
    assert_eq!(
        messages(&packet),
        Err(PacketError::TruncatedPacket { remainder: 10 })
    );
}

#[test]
fn trailing_fragment_is_truncated() {
    let mut packet = encode(&sample(1, 1));
    packet.extend_from_slice(&[0u8; 8]);
    assert_eq!(
        messages(&packet),
        Err(PacketError::TruncatedPacket { remainder: 8 })
    );
}

#[test]
fn bad_record_reports_its_offset() {
    let mut packet = encode(&sample(1, 1));
    let mut bad = [0u8; 32];
    bad[31] = 0b111;
    packet.extend_from_slice(&bad);
    assert_eq!(
        messages(&packet),
        Err(PacketError::UnrecognizedRecord { offset: 32 })
    );
    assert_eq!(
        messages(&bad),
        Err(PacketError::UnrecognizedRecord { offset: 0 })
    );
}
