use rtio_bridge::codec::Message;
use rtio_bridge::monitor::{OrderState, OrderingAnomaly};

fn sample(timestamp: u64) -> Message {
    Message::Sample {
        timestamp,
        channel: 0,
        data: [0u8; 16],
    }
}

#[test]
fn one_anomaly_for_5_5_3_10() {
    let mut state = OrderState::new();
    assert_eq!(state.last_timestamp, 0);
    let mut anomalies = Vec::new();
    for ts in [5u64, 5, 3, 10] {
        if let Some(a) = state.observe(&sample(ts), 0) {
            anomalies.push(a);
        }
    }
    assert_eq!(
        anomalies,
        vec![OrderingAnomaly {
            previous: 5,
            current: 3,
            position: 0,
        }]
    );
    assert_eq!(state.last_timestamp, 10);
}

#[test]
fn stop_does_not_touch_the_state() {
    let mut state = OrderState::new();
    state.observe(&sample(7), 0);
    let a = state.observe(&Message::Stop { timestamp: 1 }, 0);
    assert_eq!(a, None);
    assert_eq!(state.last_timestamp, 7);
}

#[test]
fn equal_timestamp_is_in_order() {
    let mut state = OrderState::new();
    assert_eq!(state.observe(&sample(5), 0), None);
    assert_eq!(state.observe(&sample(5), 0), None);
    assert_eq!(state.last_timestamp, 5);
}
