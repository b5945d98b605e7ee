//! The record codec: the two wire record variants, the bit-exact decoding
//! of a fixed 32-byte block into a typed message, and the matching encoder.
//!
//! A record is one continuous 256-bit big-endian span. The 3-bit type tag
//! sits in the lowest 3 bits of the final byte; the regions constrained to
//! zero disambiguate the two variants:
//!
//! - `Sample`: 128 bits of payload, a 64-bit timestamp, 32 reserved zero
//!   bits, a 29-bit channel, tag `0b100`.
//! - `Stop`: 96 reserved zero bits, a 64-bit timestamp, 93 reserved zero
//!   bits, tag `0b011`.

use vstd::prelude::*;
use vstd::arithmetic::div_mod::{
    lemma_fundamental_div_mod, lemma_fundamental_div_mod_converse, lemma_mod_mod,
    lemma_mod_multiples_vanish,
};
use crate::wire::{
    be_bytes, be_val, lemma_be_bytes_len, lemma_be_bytes_of_be_val, lemma_be_bytes_zero,
    lemma_be_val_bound, lemma_be_val_of_be_bytes, pow256, push_be, read_be_u32, read_be_u64,
};

verus! {

/// One decoded wire record.
#[derive(Debug, Clone, Copy, PartialEq)]
pub enum Message {
    Stop { timestamp: u64 },
    Sample { timestamp: u64, channel: u32, data: [u8; 16] },
}

/// A 32-byte block matched neither record variant.
#[derive(Debug, Clone, Copy, PartialEq, Eq)]
pub enum DecodeError {
    UnrecognizedRecord,
}

impl Message {
    /// Every wire record, of either variant, occupies exactly 32 bytes.
    pub fn len(self: Self) -> (n: usize)
        ensures
            n == 32,
    {
        32
    }
}

/// All bytes of `s` in `lo..hi` are zero.
pub open spec fn all_zero(s: Seq<u8>, lo: int, hi: int) -> bool {
    forall|j: int| lo <= j < hi ==> s[j] == 0
}

/// The 3-bit type tag: the lowest 3 bits of the final byte of the record.
pub open spec fn tag_of(r: Seq<u8>) -> nat
    recommends
        r.len() == 32,
{
    r[31] as nat % 8
}

/// The block's bit pattern matches the `Sample` variant: the 32 reserved
/// bits (bytes 24..28) are zero and the tag is `0b100`.
pub open spec fn is_sample_record(r: Seq<u8>) -> bool {
    &&& r.len() == 32
    &&& all_zero(r, 24, 28)
    &&& tag_of(r) == 4
}

pub open spec fn sample_timestamp(r: Seq<u8>) -> nat {
    be_val(r.subrange(16, 24))
}

/// The 29-bit channel: the final 32-bit word without its low 3 tag bits.
pub open spec fn sample_channel(r: Seq<u8>) -> nat {
    be_val(r.subrange(28, 32)) / 8
}

pub open spec fn sample_data(r: Seq<u8>) -> Seq<u8> {
    r.subrange(0, 16)
}

/// The block's bit pattern matches the `Stop` variant: the 96 leading and
/// 93 trailing reserved bits are zero and the tag is `0b011`. Zero bits
/// 160..253 together with tag `0b011` force every byte of 20..32 except
/// the final one to be zero, and the final one to be exactly 3.
pub open spec fn is_stop_record(r: Seq<u8>) -> bool {
    &&& r.len() == 32
    &&& all_zero(r, 0, 12)
    &&& all_zero(r, 20, 31)
    &&& r[31] == 3
}

pub open spec fn stop_timestamp(r: Seq<u8>) -> nat {
    be_val(r.subrange(12, 20))
}

/// The block matches some known variant; exactly the blocks the decoder accepts.
pub open spec fn is_valid_record(r: Seq<u8>) -> bool {
    is_sample_record(r) || is_stop_record(r)
}

/// The decoding relation: message `m` is what the 32-byte block `r` holds.
/// For a given `r` at most one `m` satisfies it, since the two `is_..._record`
/// predicates pin every field.
pub open spec fn decodes_to(r: Seq<u8>, m: Message) -> bool {
    match m {
        Message::Sample { timestamp, channel, data } => {
            &&& is_sample_record(r)
            &&& timestamp == sample_timestamp(r)
            &&& channel == sample_channel(r)
            &&& data@ == sample_data(r)
        },
        Message::Stop { timestamp } => {
            &&& is_stop_record(r)
            &&& timestamp == stop_timestamp(r)
        },
    }
}

/// No block matches both variants: their tags already differ, so trying
/// `Sample` before `Stop` involves no tie-break.
pub proof fn lemma_variants_disjoint(r: Seq<u8>)
    ensures
        !(is_sample_record(r) && is_stop_record(r)),
{
    if is_sample_record(r) && is_stop_record(r) {
        assert(tag_of(r) == 3);
    }
}

fn is_zero_range(buf: &[u8], lo: usize, hi: usize) -> (b: bool)
    requires
        lo <= hi <= buf@.len(),
    ensures
        b == all_zero(buf@, lo as int, hi as int),
{
    let mut j = lo;
    while j < hi
        invariant
            lo <= j <= hi <= buf@.len(),
            all_zero(buf@, lo as int, j as int),
        decreases hi - j,
    {
        if buf[j] != 0 {
            return false;
        }
        j += 1;
    }
    true
}

/// Decode the leading 32 bytes of `input` as one record.
///
/// Returns the decoded message exactly when the block matches a known
/// variant, trying `Sample` first; otherwise reports that no variant
/// matched. Nothing is consumed from `input` either way.
pub fn message(input: &[u8]) -> (r: Result<Message, DecodeError>)
    requires
        input@.len() >= 32,
    ensures
        ({
            let rec = input@.subrange(0, 32);
            &&& (r is Ok <==> is_valid_record(rec))
            &&& (r matches Ok(m) ==> decodes_to(rec, m))
            &&& (r is Err ==> r == Err::<Message, DecodeError>(DecodeError::UnrecognizedRecord))
        }),
{
    let ghost rec = input@.subrange(0, 32);
    let tag = input[31] % 8;
    proof {
        assert(rec[31] == input@[31]);
        assert(tag == tag_of(rec));
    }
    if tag == 4 && is_zero_range(input, 24, 28) {
        proof {
            assert forall|j: int| 24 <= j < 28 implies rec[j] == 0 by {
                assert(rec[j] == input@[j]);
            }
            assert(is_sample_record(rec));
        }
        let mut data = [0u8; 16];
        let mut j: usize = 0;
        while j < 16
            invariant
                j <= 16,
                input@.len() >= 32,
                forall|k: int| 0 <= k < j ==> data@[k] == input@[k],
            decreases 16 - j,
        {
            data[j] = input[j];
            j += 1;
        }
        let timestamp = read_be_u64(input, 16);
        let word = read_be_u32(input, 28);
        let channel = word / 8;
        proof {
            assert(data@ =~= sample_data(rec));
            assert(rec.subrange(16, 24) =~= input@.subrange(16, 24));
            assert(rec.subrange(28, 32) =~= input@.subrange(28, 32));
        }
        Ok(Message::Sample { timestamp, channel, data })
    } else if input[31] == 3 && is_zero_range(input, 0, 12) && is_zero_range(input, 20, 31) {
        let timestamp = read_be_u64(input, 12);
        proof {
            assert forall|j: int| 0 <= j < 12 implies rec[j] == 0 by {
                assert(rec[j] == input@[j]);
            }
            assert forall|j: int| 20 <= j < 31 implies rec[j] == 0 by {
                assert(rec[j] == input@[j]);
            }
            assert(is_stop_record(rec));
            assert(rec.subrange(12, 20) =~= input@.subrange(12, 20));
        }
        Ok(Message::Stop { timestamp })
    } else {
        proof {
            if is_sample_record(rec) {
                assert(all_zero(input@, 24, 28)) by {
                    assert forall|j: int| 24 <= j < 28 implies input@[j] == 0 by {
                        assert(rec[j] == input@[j]);
                    }
                }
            }
            if is_stop_record(rec) {
                assert(input@[31] == 3);
                assert(all_zero(input@, 0, 12) && all_zero(input@, 20, 31)) by {
                    assert forall|j: int| 0 <= j < 12 implies input@[j] == 0 by {
                        assert(rec[j] == input@[j]);
                    }
                    assert forall|j: int| 20 <= j < 31 implies input@[j] == 0 by {
                        assert(rec[j] == input@[j]);
                    }
                }
            }
        }
        Err(DecodeError::UnrecognizedRecord)
    }
}

/// The channel of a `Sample` stays inside its 29-bit domain; `Stop` has no
/// constrained field.
pub open spec fn valid_message(m: Message) -> bool {
    match m {
        Message::Sample { channel, .. } => channel < 0x2000_0000,
        Message::Stop { .. } => true,
    }
}

/// The unique 32-byte encoding of a message, mirroring the field layout.
pub open spec fn spec_encode(m: Message) -> Seq<u8> {
    match m {
        Message::Sample { timestamp, channel, data } => data@ + be_bytes(timestamp as nat, 8)
            + be_bytes(0, 4) + be_bytes(channel as nat * 8 + 4, 4),
        Message::Stop { timestamp } => be_bytes(0, 12) + be_bytes(timestamp as nat, 8) + be_bytes(
            0,
            11,
        ) + seq![3u8],
    }
}

/// Encode a message into its 32-byte wire record.
pub fn encode(m: &Message) -> (out: Vec<u8>)
    requires
        valid_message(*m),
    ensures
        out@ == spec_encode(*m),
        out@.len() == 32,
{
    let mut out: Vec<u8> = Vec::new();
    match m {
        Message::Sample { timestamp, channel, data } => {
            let mut j: usize = 0;
            while j < 16
                invariant
                    j <= 16,
                    out@ =~= data@.subrange(0, j as int),
                decreases 16 - j,
            {
                out.push(data[j]);
                j += 1;
            }
            proof {
                assert(out@ =~= data@);
            }
            push_be(*timestamp, 8, &mut out);
            push_be(0, 4, &mut out);
            push_be((*channel as u64) * 8 + 4, 4, &mut out);
            proof {
                assert(out@ =~= spec_encode(*m));
                lemma_be_bytes_len(*timestamp as nat, 8);
                lemma_be_bytes_len(0, 4);
                lemma_be_bytes_len(*channel as nat * 8 + 4, 4);
            }
        },
        Message::Stop { timestamp } => {
            push_be(0, 12, &mut out);
            push_be(*timestamp, 8, &mut out);
            push_be(0, 11, &mut out);
            out.push(3);
            proof {
                assert(out@ =~= spec_encode(*m));
                lemma_be_bytes_len(0, 12);
                lemma_be_bytes_len(*timestamp as nat, 8);
                lemma_be_bytes_len(0, 11);
            }
        },
    }
    out
}

/// Round trip for `Sample`: decoding the encoding of any in-domain sample
/// yields the same timestamp, channel and payload.
pub proof fn lemma_sample_round_trip(m: Message)
    requires
        m is Sample,
        valid_message(m),
    ensures
        decodes_to(spec_encode(m), m),
{
    match m {
        Message::Sample { timestamp, channel, data } => {
            let r = spec_encode(m);
            let w = channel as nat * 8 + 4;
            lemma_be_bytes_len(timestamp as nat, 8);
            lemma_be_bytes_zero(4);
            lemma_be_bytes_len(w, 4);
            assert(r.len() == 32);
            assert(r.subrange(0, 16) =~= data@);
            assert(r.subrange(16, 24) =~= be_bytes(timestamp as nat, 8));
            assert(pow256(8) == 0x1_0000_0000_0000_0000) by {
                reveal_with_fuel(pow256, 9);
            }
            lemma_be_val_of_be_bytes(timestamp as nat, 8);
            assert(sample_timestamp(r) == timestamp);
            assert forall|j: int| 24 <= j < 28 implies r[j] == 0 by {
                assert(r[j] == be_bytes(0, 4)[j - 24]);
            }
            assert(r.subrange(28, 32) =~= be_bytes(w, 4));
            assert(pow256(4) == 0x1_0000_0000) by {
                reveal_with_fuel(pow256, 5);
            }
            lemma_be_val_of_be_bytes(w, 4);
            assert(be_val(r.subrange(28, 32)) == w);
            lemma_fundamental_div_mod_converse(w as int, 8, channel as int, 4);
            assert(sample_channel(r) == channel);
            assert(r[31] == be_bytes(w, 4)[3]);
            assert(be_bytes(w, 4)[3] == (w % 256) as u8) by {
                lemma_be_bytes_len(w as nat / 256, 3);
            }
            assert(tag_of(r) == (w % 256) % 8);
            lemma_mod_mod(w as int, 8, 32);
            assert(w % 256 % 8 == w % 8);
            lemma_mod_multiples_vanish(channel as int, 4, 8);
            assert(w % 8 == 4);
            assert(is_sample_record(r));
        },
        Message::Stop { .. } => {
        },
    }
}

/// Round trip for `Stop`: decoding the encoding of any stop marker yields
/// the same timestamp.
pub proof fn lemma_stop_round_trip(m: Message)
    requires
        m is Stop,
    ensures
        decodes_to(spec_encode(m), m),
{
    match m {
        Message::Stop { timestamp } => {
            let r = spec_encode(m);
            lemma_be_bytes_zero(12);
            lemma_be_bytes_len(timestamp as nat, 8);
            lemma_be_bytes_zero(11);
            assert(r.len() == 32);
            assert forall|j: int| 0 <= j < 12 implies r[j] == 0 by {
                assert(r[j] == be_bytes(0, 12)[j]);
            }
            assert forall|j: int| 20 <= j < 31 implies r[j] == 0 by {
                assert(r[j] == be_bytes(0, 11)[j - 20]);
            }
            assert(r[31] == 3);
            assert(is_stop_record(r));
            assert(r.subrange(12, 20) =~= be_bytes(timestamp as nat, 8));
            assert(pow256(8) == 0x1_0000_0000_0000_0000) by {
                reveal_with_fuel(pow256, 9);
            }
            lemma_be_val_of_be_bytes(timestamp as nat, 8);
            assert(stop_timestamp(r) == timestamp);
        },
        Message::Sample { .. } => {
        },
    }
}

/// A block whose reserved region for its tag's variant holds a non-zero
/// bit, or whose tag is neither `0b100` nor `0b011`, matches no variant:
/// the decoder reports it instead of accepting or crashing.
pub proof fn lemma_unrecognized_rejected(r: Seq<u8>)
    requires
        r.len() == 32,
        tag_of(r) == 4 ==> !all_zero(r, 24, 28),
        tag_of(r) == 3 ==> !(all_zero(r, 0, 12) && all_zero(r, 20, 31) && r[31] == 3),
    ensures
        !is_valid_record(r),
{
    if is_stop_record(r) {
        assert(tag_of(r) == 3);
    }
}

/// Decoding is injective: a message determines the record it was decoded
/// from, so each decoded message corresponds to exactly one 32-byte block,
/// and every decoded sample's channel lies in the 29-bit domain.
pub proof fn lemma_decode_determines_record(r: Seq<u8>, m: Message)
    requires
        decodes_to(r, m),
    ensures
        r == spec_encode(m),
        valid_message(m),
{
    match m {
        Message::Sample { timestamp, channel, data } => {
            let ts_bytes = r.subrange(16, 24);
            lemma_be_bytes_of_be_val(ts_bytes);
            assert(be_bytes(timestamp as nat, 8) == ts_bytes);
            let w_bytes = r.subrange(28, 32);
            let w = be_val(w_bytes);
            lemma_be_bytes_of_be_val(w_bytes);
            let hi = be_val(w_bytes.drop_last());
            assert(w_bytes.last() == r[31]);
            assert(w == hi * 256 + r[31]);
            lemma_mod_multiples_vanish(hi as int * 32, r[31] as int, 8);
            assert(8 * (hi as int * 32) == hi as int * 256) by (nonlinear_arith);
            assert(w % 8 == r[31] as nat % 8);
            assert(w % 8 == 4);
            lemma_fundamental_div_mod(w as int, 8);
            assert(w == channel * 8 + 4);
            assert(be_bytes(channel as nat * 8 + 4, 4) == w_bytes);
            lemma_be_val_bound(w_bytes);
            assert(pow256(4) == 0x1_0000_0000) by {
                reveal_with_fuel(pow256, 5);
            }
            assert(channel < 0x2000_0000) by {
                if channel >= 0x2000_0000 {
                    assert(channel as int * 8 >= 0x2000_0000 * 8) by (nonlinear_arith)
                        requires
                            channel >= 0x2000_0000,
                    ;
                }
            }
            lemma_be_bytes_zero(4);
            assert(r =~= spec_encode(m));
        },
        Message::Stop { timestamp } => {
            let ts_bytes = r.subrange(12, 20);
            lemma_be_bytes_of_be_val(ts_bytes);
            assert(be_bytes(timestamp as nat, 8) == ts_bytes);
            lemma_be_bytes_zero(12);
            lemma_be_bytes_zero(11);
            assert(r =~= spec_encode(m));
        },
    }
}

} // verus!
