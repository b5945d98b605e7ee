//! The order monitor: tracks the most recent `Sample` timestamp seen on a
//! stream and flags any sample whose timestamp goes backwards. The check
//! is advisory — it never blocks or alters forwarding.

use vstd::prelude::*;
use crate::codec::Message;

verus! {

/// A non-fatal observation: a sample arrived with a timestamp strictly
/// below the one seen before it.
#[derive(Debug, Clone, Copy, PartialEq, Eq)]
pub struct OrderingAnomaly {
    /// The timestamp held by the monitor before this sample.
    pub previous: u64,
    /// The out-of-order sample's own timestamp.
    pub current: u64,
    /// The decoder's position: bytes left in the packet after this record.
    pub position: usize,
}

/// Per-stream monitor state: the most recent `Sample` timestamp observed.
/// Starts at 0 at stream start and persists across packets.
#[derive(Debug, Clone, Copy, PartialEq, Eq)]
pub struct OrderState {
    pub last_timestamp: u64,
}

impl OrderState {
    /// A fresh stream: no sample seen yet.
    pub fn new() -> (s: Self)
        ensures
            s.last_timestamp == 0,
    {
        OrderState { last_timestamp: 0 }
    }

    /// Observe one decoded message at the given position.
    ///
    /// A `Sample` whose timestamp is strictly below the stored one yields
    /// an anomaly carrying both timestamps; either way the stored value
    /// becomes the sample's timestamp, so the monitor always holds the
    /// most recent sample timestamp. `Stop` messages take no part in the
    /// comparison and leave the state untouched.
    pub fn observe(&mut self, m: &Message, position: usize) -> (a: Option<OrderingAnomaly>)
        ensures
            match *m {
                Message::Sample { timestamp, .. } => {
                    &&& final(self).last_timestamp == timestamp
                    &&& (timestamp < old(self).last_timestamp ==> a == Some(
                        OrderingAnomaly {
                            previous: old(self).last_timestamp,
                            current: timestamp,
                            position,
                        },
                    ))
                    &&& (timestamp >= old(self).last_timestamp ==> a is None)
                },
                Message::Stop { .. } => *final(self) == *old(self) && a is None,
            },
    {
        match m {
            Message::Sample { timestamp, .. } => {
                let previous = self.last_timestamp;
                self.last_timestamp = *timestamp;
                if *timestamp < previous {
                    Some(OrderingAnomaly { previous, current: *timestamp, position })
                } else {
                    None
                }
            },
            Message::Stop { .. } => None,
        }
    }
}

} // verus!
