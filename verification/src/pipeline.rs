//! Per-packet processing: dissect, observe ordering, and prepare the
//! publications for the transport. One packet is handled atomically, to
//! completion or to its first fatal error; a rejected packet leaves the
//! monitor state untouched.

use vstd::prelude::*;
use vstd::arithmetic::div_mod::lemma_fundamental_div_mod;
use vstd::slice::{slice_subrange, slice_to_vec};
use crate::codec::{
    decodes_to, is_sample_record, is_valid_record, lemma_variants_disjoint, sample_channel,
    sample_timestamp, Message,
};
use crate::monitor::{OrderState, OrderingAnomaly};
use crate::packet::{messages, num_records, record_at, records_valid_to, wf_packet, PacketError};
use crate::router::{decimal_chars, spec_topic, topic};

verus! {

/// Everything the transport needs for one record: the topic, the
/// original 32 bytes unmodified, and the advisory ordering observation
/// made while handling it.
pub struct Publication {
    pub topic: String,
    pub payload: Vec<u8>,
    pub anomaly: Option<OrderingAnomaly>,
}

/// The monitor's timestamp after the first `k` records of the packet,
/// starting from `init`: the timestamp of the latest `Sample` among them.
pub open spec fn last_ts_after(p: Seq<u8>, init: u64, k: int) -> u64
    decreases k,
{
    if k <= 0 {
        init
    } else if is_sample_record(record_at(p, k - 1)) {
        sample_timestamp(record_at(p, k - 1)) as u64
    } else {
        last_ts_after(p, init, k - 1)
    }
}

/// The `k`-th record is a sample that steps backwards from what the
/// monitor holds when it is reached.
pub open spec fn anomaly_at(p: Seq<u8>, init: u64, k: int) -> bool {
    &&& is_sample_record(record_at(p, k))
    &&& sample_timestamp(record_at(p, k)) < last_ts_after(p, init, k)
}

/// The topic of a record: its decimal channel for a sample, the fixed
/// sentinel otherwise.
pub open spec fn spec_record_topic(r: Seq<u8>) -> Seq<char> {
    if is_sample_record(r) {
        decimal_chars(sample_channel(r))
    } else {
        "STOP_CHANNEL"@
    }
}

/// Process one packet: dissect it, run every decoded message past the
/// order monitor, and pair each record's original bytes with its topic.
///
/// Succeeds exactly on well-formed packets, with one publication per
/// record in wire order. An anomaly is attached to exactly the samples
/// whose timestamp steps backwards; anomalies never suppress a
/// publication. A rejected packet reports the same error the dissector
/// gives and leaves the monitor state exactly as it was.
pub fn process_packet(state: &mut OrderState, packet: &[u8]) -> (r: Result<
    Vec<Publication>,
    PacketError,
>)
    ensures
        r is Ok <==> wf_packet(packet@),
        packet@.len() % 32 != 0 ==> r is Err,
        r is Err ==> *final(state) == *old(state),
        (r matches Err(PacketError::UnrecognizedRecord { offset }) ==> {
            &&& offset % 32 == 0
            &&& offset + 32 <= packet@.len()
            &&& !is_valid_record(record_at(packet@, offset as int / 32))
            &&& records_valid_to(packet@, offset as int / 32)
        }),
        (r matches Err(PacketError::TruncatedPacket { remainder }) ==> {
            &&& remainder == packet@.len() % 32
            &&& remainder != 0
            &&& records_valid_to(packet@, num_records(packet@))
        }),
        (r matches Ok(v) ==> {
            &&& v@.len() == num_records(packet@)
            &&& final(state).last_timestamp == last_ts_after(
                packet@,
                old(state).last_timestamp,
                num_records(packet@),
            )
            &&& forall|i: int|
                #![trigger v@[i]]
                0 <= i < v@.len() ==> {
                    &&& v@[i].payload@ == record_at(packet@, i)
                    &&& v@[i].topic@ == spec_record_topic(record_at(packet@, i))
                    &&& (v@[i].anomaly is Some <==> anomaly_at(
                        packet@,
                        old(state).last_timestamp,
                        i,
                    ))
                    &&& (v@[i].anomaly matches Some(an) ==> an == OrderingAnomaly {
                        previous: last_ts_after(packet@, old(state).last_timestamp, i),
                        current: sample_timestamp(record_at(packet@, i)) as u64,
                        position: (packet@.len() - 32 * i - 32) as usize,
                    })
                }
        }),
{
    let msgs = match messages(packet) {
        Ok(v) => v,
        Err(e) => {
            return Err(e);
        },
    };
    let ghost init_ts = state.last_timestamp;
    let n = packet.len();
    proof {
        lemma_fundamental_div_mod(n as int, 32);
    }
    let mut out: Vec<Publication> = Vec::new();
    let mut i: usize = 0;
    while i < msgs.len()
        invariant
            wf_packet(packet@),
            n == packet@.len(),
            msgs@.len() == num_records(packet@),
            32 * msgs@.len() <= n,
            forall|j: int| 0 <= j < msgs@.len() ==> decodes_to(
                #[trigger] record_at(packet@, j),
                msgs@[j],
            ),
            i == out@.len() <= msgs@.len(),
            state.last_timestamp == last_ts_after(packet@, init_ts, i as int),
            forall|j: int|
                #![trigger out@[j]]
                0 <= j < i ==> {
                    &&& out@[j].payload@ == record_at(packet@, j)
                    &&& out@[j].topic@ == spec_record_topic(record_at(packet@, j))
                    &&& (out@[j].anomaly is Some <==> anomaly_at(packet@, init_ts, j))
                    &&& (out@[j].anomaly matches Some(an) ==> an == OrderingAnomaly {
                        previous: last_ts_after(packet@, init_ts, j),
                        current: sample_timestamp(record_at(packet@, j)) as u64,
                        position: (n - 32 * j - 32) as usize,
                    })
                }
        decreases msgs@.len() - i,
    {
        proof {
            assert(32 * (i + 1) <= 32 * msgs@.len()) by (nonlinear_arith)
                requires
                    i + 1 <= msgs@.len(),
            ;
        }
        let ghost rec = record_at(packet@, i as int);
        let m = msgs[i];
        let t = topic(&m);
        let off = 32 * i;
        let raw = slice_to_vec(slice_subrange(packet, off, off + 32));
        proof {
            assert(raw@ =~= rec);
            lemma_variants_disjoint(rec);
        }
        let a = state.observe(&m, n - off - 32);
        out.push(Publication { topic: t, payload: raw, anomaly: a });
        i += 1;
    }
    Ok(out)
}

} // verus!
