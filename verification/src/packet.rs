//! The packet dissector: a packet is a concatenation of 32-byte records.
//! Dissection decodes them in wire order and insists that the packet is
//! consumed exactly; any non-zero remainder is a per-packet error, never
//! a crash.

use vstd::prelude::*;
use vstd::arithmetic::div_mod::{lemma_fundamental_div_mod_converse};
use vstd::slice::{slice_subrange, slice_to_vec};
use crate::codec::{decodes_to, is_valid_record, message, Message};

verus! {

/// Why a packet was rejected. Both cases leave a non-zero remainder of
/// unconsumed trailing bytes, which the caller may drop or escalate.
#[derive(Debug, Clone, Copy, PartialEq, Eq)]
pub enum PacketError {
    /// A full 32-byte block at this byte offset matched no variant.
    UnrecognizedRecord { offset: usize },
    /// Fewer than 32 bytes (but more than 0) were left at the end.
    TruncatedPacket { remainder: usize },
}

/// The `i`-th 32-byte block of the packet.
pub open spec fn record_at(p: Seq<u8>, i: int) -> Seq<u8> {
    p.subrange(32 * i, 32 * i + 32)
}

/// How many full records the packet holds.
pub open spec fn num_records(p: Seq<u8>) -> int {
    p.len() as int / 32
}

/// The first `n` records all match a known variant.
pub open spec fn records_valid_to(p: Seq<u8>, n: int) -> bool {
    forall|i: int| 0 <= i < n ==> is_valid_record(#[trigger] record_at(p, i))
}

/// A well-formed packet: a whole number of records, every one recognized.
/// Exactly these packets dissect with zero remainder.
pub open spec fn wf_packet(p: Seq<u8>) -> bool {
    &&& p.len() % 32 == 0
    &&& records_valid_to(p, num_records(p))
}

/// A full block that matches no variant refutes well-formedness.
pub proof fn lemma_unrecognized_refutes_wf(p: Seq<u8>, k: int)
    requires
        0 <= k,
        32 * k + 32 <= p.len(),
        !is_valid_record(record_at(p, k)),
    ensures
        !wf_packet(p),
        (32 * k) % 32 == 0,
        (32 * k) / 32 == k,
{
    lemma_fundamental_div_mod_converse(32 * k, 32, k, 0);
    if wf_packet(p) {
        assert(p.len() % 32 == 0);
        assert(k < num_records(p)) by {
            lemma_fundamental_div_mod_converse(
                p.len() as int,
                32,
                p.len() as int / 32,
                p.len() as int % 32,
            );
        }
        assert(is_valid_record(record_at(p, k)));
    }
}

/// A short, non-empty tail refutes well-formedness; its length is the
/// packet length modulo 32.
pub proof fn lemma_truncated_refutes_wf(p: Seq<u8>, k: int)
    requires
        0 <= k,
        32 * k < p.len() < 32 * k + 32,
    ensures
        p.len() % 32 == p.len() - 32 * k,
        p.len() % 32 != 0,
        !wf_packet(p),
{
    lemma_fundamental_div_mod_converse(p.len() as int, 32, k, p.len() - 32 * k);
}

/// An exact multiple of 32 with all records valid is well formed.
pub proof fn lemma_complete_is_wf(p: Seq<u8>, k: int)
    requires
        0 <= k,
        p.len() == 32 * k,
        records_valid_to(p, k),
    ensures
        wf_packet(p),
        num_records(p) == k,
{
    lemma_fundamental_div_mod_converse(p.len() as int, 32, k, 0);
}

/// Dissect a packet into its records, in wire order, each paired with a
/// copy of its original 32 bytes.
///
/// Succeeds exactly on well-formed packets and consumes them whole. On
/// the first full block that matches no variant it reports the block's
/// byte offset; a non-zero remainder shorter than a record is reported
/// with its length. Nothing is guessed at and no resynchronization is
/// attempted.
pub fn dissect(input: &[u8]) -> (r: Result<Vec<(Message, Vec<u8>)>, PacketError>)
    ensures
        r is Ok <==> wf_packet(input@),
        input@.len() % 32 != 0 ==> r is Err,
        (r matches Ok(v) ==> {
            &&& v@.len() == num_records(input@)
            &&& forall|i: int| 0 <= i < v@.len() ==> decodes_to(
                #[trigger] record_at(input@, i),
                v@[i].0,
            )
            &&& forall|i: int| 0 <= i < v@.len() ==> (#[trigger] v@[i].1)@ == record_at(input@, i)
        }),
        (r matches Err(PacketError::UnrecognizedRecord { offset }) ==> {
            &&& offset % 32 == 0
            &&& offset + 32 <= input@.len()
            &&& !is_valid_record(record_at(input@, offset as int / 32))
            &&& records_valid_to(input@, offset as int / 32)
        }),
        (r matches Err(PacketError::TruncatedPacket { remainder }) ==> {
            &&& remainder == input@.len() % 32
            &&& remainder != 0
            &&& records_valid_to(input@, num_records(input@))
        }),
{
    let n = input.len();
    let mut off: usize = 0;
    let mut out: Vec<(Message, Vec<u8>)> = Vec::new();
    while n - off >= 32
        invariant
            n == input@.len(),
            off == 32 * out@.len(),
            off <= n,
            records_valid_to(input@, out@.len() as int),
            forall|i: int| 0 <= i < out@.len() ==> decodes_to(
                #[trigger] record_at(input@, i),
                out@[i].0,
            ),
            forall|i: int| 0 <= i < out@.len() ==> (#[trigger] out@[i].1)@ == record_at(input@, i),
        decreases n - off,
    {
        let ghost k = out@.len() as int;
        let block = slice_subrange(input, off, off + 32);
        proof {
            assert(block@.subrange(0, 32) =~= record_at(input@, k));
        }
        match message(block) {
            Ok(m) => {
                let raw = slice_to_vec(block);
                proof {
                    assert(raw@ =~= record_at(input@, k));
                }
                out.push((m, raw));
                off += 32;
            },
            Err(_) => {
                proof {
                    lemma_unrecognized_refutes_wf(input@, k);
                }
                return Err(PacketError::UnrecognizedRecord { offset: off });
            },
        }
    }
    if off < n {
        proof {
            lemma_truncated_refutes_wf(input@, out@.len() as int);
        }
        return Err(PacketError::TruncatedPacket { remainder: n - off });
    }
    proof {
        lemma_complete_is_wf(input@, out@.len() as int);
    }
    Ok(out)
}

/// Dissect a packet into just its decoded messages, in wire order.
///
/// Same acceptance and error behaviour as [`dissect`].
pub fn messages(input: &[u8]) -> (r: Result<Vec<Message>, PacketError>)
    ensures
        r is Ok <==> wf_packet(input@),
        input@.len() % 32 != 0 ==> r is Err,
        (r matches Ok(v) ==> {
            &&& v@.len() == num_records(input@)
            &&& forall|i: int| 0 <= i < v@.len() ==> decodes_to(#[trigger] record_at(input@, i), v@[i])
        }),
        (r matches Err(PacketError::UnrecognizedRecord { offset }) ==> {
            &&& offset % 32 == 0
            &&& offset + 32 <= input@.len()
            &&& !is_valid_record(record_at(input@, offset as int / 32))
            &&& records_valid_to(input@, offset as int / 32)
        }),
        (r matches Err(PacketError::TruncatedPacket { remainder }) ==> {
            &&& remainder == input@.len() % 32
            &&& remainder != 0
            &&& records_valid_to(input@, num_records(input@))
        }),
{
    match dissect(input) {
        Ok(pairs) => {
            let mut out: Vec<Message> = Vec::new();
            let mut i: usize = 0;
            while i < pairs.len()
                invariant
                    i == out@.len() <= pairs@.len(),
                    forall|j: int| 0 <= j < pairs@.len() ==> decodes_to(
                        #[trigger] record_at(input@, j),
                        pairs@[j].0,
                    ),
                    forall|j: int| 0 <= j < i ==> out@[j] == pairs@[j].0,
                decreases pairs@.len() - i,
            {
                out.push(pairs[i].0);
                i += 1;
            }
            assert(forall|j: int| 0 <= j < out@.len() ==> decodes_to(
                #[trigger] record_at(input@, j),
                out@[j],
            ));
            Ok(out)
        },
        Err(e) => Err(e),
    }
}

} // verus!
