//! Big-endian interpretation of byte sequences: the mathematical model
//! (`be_val`, `be_bytes`) and the verified readers and writers the codec
//! builds on.

use vstd::prelude::*;
use vstd::arithmetic::div_mod::{lemma_fundamental_div_mod, lemma_fundamental_div_mod_converse};

verus! {

/// The value of a byte sequence read as one big-endian unsigned integer.
pub open spec fn be_val(s: Seq<u8>) -> nat
    decreases s.len(),
{
    if s.len() == 0 {
        0
    } else {
        be_val(s.drop_last()) * 256 + s.last() as nat
    }
}

/// `256^len`: the number of values `len` bytes can hold.
pub open spec fn pow256(len: nat) -> nat
    decreases len,
{
    if len == 0 {
        1
    } else {
        256 * pow256((len - 1) as nat)
    }
}

/// The `len` low-order bytes of `n`, in big-endian order.
pub open spec fn be_bytes(n: nat, len: nat) -> Seq<u8>
    decreases len,
{
    if len == 0 {
        Seq::empty()
    } else {
        be_bytes(n / 256, (len - 1) as nat).push((n % 256) as u8)
    }
}

pub proof fn lemma_be_bytes_len(n: nat, len: nat)
    ensures
        be_bytes(n, len).len() == len,
    decreases len,
{
    if len > 0 {
        lemma_be_bytes_len(n / 256, (len - 1) as nat);
    }
}

pub proof fn lemma_be_val_bound(s: Seq<u8>)
    ensures
        be_val(s) < pow256(s.len()),
    decreases s.len(),
{
    if s.len() > 0 {
        lemma_be_val_bound(s.drop_last());
    }
}

pub proof fn lemma_be_bytes_zero(len: nat)
    ensures
        be_bytes(0, len).len() == len,
        forall|j: int| 0 <= j < len ==> be_bytes(0, len)[j] == 0,
    decreases len,
{
    lemma_be_bytes_len(0, len);
    if len > 0 {
        lemma_be_bytes_zero((len - 1) as nat);
    }
}

/// Reading back the bytes of `n` yields `n`, as long as `n` fits in `len` bytes.
pub proof fn lemma_be_val_of_be_bytes(n: nat, len: nat)
    requires
        n < pow256(len),
    ensures
        be_val(be_bytes(n, len)) == n,
    decreases len,
{
    if len != 0 {
        let q = n / 256;
        let r = n % 256;
        lemma_fundamental_div_mod(n as int, 256);
        assert(q < pow256((len - 1) as nat)) by {
            if q >= pow256((len - 1) as nat) {
                assert(q * 256 >= pow256((len - 1) as nat) * 256) by (nonlinear_arith)
                    requires
                        q >= pow256((len - 1) as nat),
                ;
            }
        }
        lemma_be_val_of_be_bytes(q, (len - 1) as nat);
        let b = be_bytes(n, len);
        lemma_be_bytes_len(q, (len - 1) as nat);
        assert(b.drop_last() =~= be_bytes(q, (len - 1) as nat));
        assert(b.last() == (r as u8));
    }
}

/// Writing out the value of a byte sequence yields the sequence again.
pub proof fn lemma_be_bytes_of_be_val(s: Seq<u8>)
    ensures
        be_bytes(be_val(s), s.len()) == s,
    decreases s.len(),
{
    if s.len() > 0 {
        let v = be_val(s);
        let hi = be_val(s.drop_last());
        lemma_fundamental_div_mod_converse(v as int, 256, hi as int, s.last() as int);
        lemma_be_bytes_of_be_val(s.drop_last());
        assert(be_bytes(v, s.len()) =~= s);
    }
}

/// Read 8 bytes at `i` as a big-endian `u64`.
pub fn read_be_u64(buf: &[u8], i: usize) -> (r: u64)
    requires
        i + 8 <= buf@.len(),
    ensures
        r == be_val(buf@.subrange(i as int, i + 8)),
{
    let b0 = buf[i] as u64;
    let b1 = buf[i + 1] as u64;
    let b2 = buf[i + 2] as u64;
    let b3 = buf[i + 3] as u64;
    let b4 = buf[i + 4] as u64;
    let b5 = buf[i + 5] as u64;
    let b6 = buf[i + 6] as u64;
    let b7 = buf[i + 7] as u64;
    let t1: u64 = b0 * 256 + b1;
    let t2: u64 = t1 * 256 + b2;
    let t3: u64 = t2 * 256 + b3;
    let t4: u64 = t3 * 256 + b4;
    let t5: u64 = t4 * 256 + b5;
    let t6: u64 = t5 * 256 + b6;
    let t7: u64 = t6 * 256 + b7;
    proof {
        let s = buf@.subrange(i as int, i + 8);
        assert(s.subrange(0, 1).drop_last() =~= s.subrange(0, 0));
        assert(s.subrange(0, 0) =~= Seq::<u8>::empty());
        assert(be_val(Seq::<u8>::empty()) == 0);
        assert(b0 == be_val(s.subrange(0, 1)));
        assert(s.subrange(0, 2).drop_last() =~= s.subrange(0, 1));
        assert(t1 == be_val(s.subrange(0, 2)));
        assert(s.subrange(0, 3).drop_last() =~= s.subrange(0, 2));
        assert(t2 == be_val(s.subrange(0, 3)));
        assert(s.subrange(0, 4).drop_last() =~= s.subrange(0, 3));
        assert(t3 == be_val(s.subrange(0, 4)));
        assert(s.subrange(0, 5).drop_last() =~= s.subrange(0, 4));
        assert(t4 == be_val(s.subrange(0, 5)));
        assert(s.subrange(0, 6).drop_last() =~= s.subrange(0, 5));
        assert(t5 == be_val(s.subrange(0, 6)));
        assert(s.subrange(0, 7).drop_last() =~= s.subrange(0, 6));
        assert(t6 == be_val(s.subrange(0, 7)));
        assert(s.subrange(0, 8).drop_last() =~= s.subrange(0, 7));
        assert(s.subrange(0, 8) =~= s);
        assert(t7 == be_val(s));
    }
    t7
}

/// Read 4 bytes at `i` as a big-endian `u32`.
pub fn read_be_u32(buf: &[u8], i: usize) -> (r: u32)
    requires
        i + 4 <= buf@.len(),
    ensures
        r == be_val(buf@.subrange(i as int, i + 4)),
{
    let b0 = buf[i] as u32;
    let b1 = buf[i + 1] as u32;
    let b2 = buf[i + 2] as u32;
    let b3 = buf[i + 3] as u32;
    let t1: u32 = b0 * 256 + b1;
    let t2: u32 = t1 * 256 + b2;
    let t3: u32 = t2 * 256 + b3;
    proof {
        let s = buf@.subrange(i as int, i + 4);
        assert(s.subrange(0, 1).drop_last() =~= s.subrange(0, 0));
        assert(s.subrange(0, 0) =~= Seq::<u8>::empty());
        assert(be_val(Seq::<u8>::empty()) == 0);
        assert(b0 == be_val(s.subrange(0, 1)));
        assert(s.subrange(0, 2).drop_last() =~= s.subrange(0, 1));
        assert(t1 == be_val(s.subrange(0, 2)));
        assert(s.subrange(0, 3).drop_last() =~= s.subrange(0, 2));
        assert(t2 == be_val(s.subrange(0, 3)));
        assert(s.subrange(0, 4).drop_last() =~= s.subrange(0, 3));
        assert(s.subrange(0, 4) =~= s);
        assert(t3 == be_val(s));
    }
    t3
}

/// Append the `len` low-order bytes of `n` to `out`, most significant first.
pub fn push_be(n: u64, len: usize, out: &mut Vec<u8>)
    ensures
        final(out)@ == old(out)@ + be_bytes(n as nat, len as nat),
    decreases len,
{
    if len == 0 {
        proof {
            assert(out@ =~= old(out)@ + be_bytes(n as nat, 0));
        }
    } else {
        proof {
            lemma_fundamental_div_mod(n as int, 256);
        }
        push_be(n / 256, len - 1, out);
        out.push((n % 256) as u8);
        proof {
            assert(out@ =~= old(out)@ + be_bytes(n as nat, len as nat));
        }
    }
}

} // verus!
