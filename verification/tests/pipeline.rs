use rtio_bridge::codec::{encode, Message};
use rtio_bridge::monitor::{OrderState, OrderingAnomaly};
use rtio_bridge::packet::PacketError;
use rtio_bridge::pipeline::process_packet;
use rtio_bridge::router::topic;

fn sample(timestamp: u64, channel: u32) -> Message {
    Message::Sample {
        timestamp,
        channel,
        data: [0u8; 16],
    }
}

#[test]
fn sample_topic_is_decimal_channel() {
    assert_eq!(topic(&sample(1, 5)), "5");
    assert_eq!(topic(&sample(1, 0)), "0");
    assert_eq!(topic(&sample(1, (1 << 29) - 1)), "536870911");
}

#[test]
fn stop_topic_is_the_sentinel() {
    assert_eq!(topic(&Message::Stop { timestamp: 9 }), "STOP_CHANNEL");
}

#[test]
fn sample_record_is_published_unchanged_under_its_channel() {
    let m = Message::Sample {
        timestamp: 0x0000_0009_f2bc_2b28,
        channel: 5,
        data: [
            0x00, 0x00, 0x00, 0x00, 0x00, 0x00, 0x00, 0x00, 0x00, 0x00, 0x00, 0x00, 0x00, 0x00,
            0x00, 0x5b,
        ],
    };
    let rec = encode(&m);
    let mut state = OrderState::new();
    let pubs = process_packet(&mut state, &rec).unwrap();
    assert_eq!(pubs.len(), 1);
    assert_eq!(pubs[0].topic, "5");
    assert_eq!(pubs[0].payload, rec);
    assert_eq!(pubs[0].anomaly, None);
}

#[test]
fn stop_record_is_published_unchanged_under_the_sentinel() {
    let m = Message::Stop {
        timestamp: 0x0000_0009_f2be_2b08,
    };
    let rec = encode(&m);
    let mut state = OrderState::new();
    let pubs = process_packet(&mut state, &rec).unwrap();
    assert_eq!(pubs.len(), 1);
    assert_eq!(pubs[0].topic, "STOP_CHANNEL");
    assert_eq!(pubs[0].payload, rec);
    assert_eq!(pubs[0].anomaly, None);
}

#[test]
fn backwards_sample_is_flagged_but_still_published() {
    let mut packet = encode(&sample(10, 1));
    packet.extend_from_slice(&encode(&sample(3, 2)));
    let mut state = OrderState::new();
    let pubs = process_packet(&mut state, &packet).unwrap();
    assert_eq!(pubs.len(), 2);
    assert_eq!(pubs[0].anomaly, None);
    assert_eq!(
        pubs[1].anomaly,
        Some(OrderingAnomaly {
            previous: 10,
            current: 3,
            position: 0,
        })
    );
    assert_eq!(pubs[1].topic, "2");
    assert_eq!(pubs[1].payload, &packet[32..64]);
    assert_eq!(state.last_timestamp, 3);
}

#[test]
fn rejected_packet_leaves_the_monitor_untouched() {
    let mut state = OrderState::new();
    process_packet(&mut state, &encode(&sample(42, 1))).unwrap();
    assert_eq!(state.last_timestamp, 42);
    let bad = [0xffu8; 32];
    let r = process_packet(&mut state, &bad);
    assert!(matches!(r, Err(PacketError::UnrecognizedRecord { offset: 0 })));
    let r = process_packet(&mut state, &[0u8; 7]);
    assert!(matches!(r, Err(PacketError::TruncatedPacket { remainder: 7 })));
    assert_eq!(state.last_timestamp, 42);
}
