//! General laws of the retention model.
//!
//! `Buffer::write` ensures that the view (the retained bytes) evolves as
//! `view' == seq_tail(view + input, capacity)`.  The lemmas here state the
//! stream-level consequences of that contract: what is retained depends only
//! on the concatenation of all inputs, short streams are kept whole, long
//! streams keep exactly their last `capacity` bytes, and reset brings the
//! buffer back to the state of a fresh one.

use vstd::prelude::*;

use crate::ring::seq_tail;
use crate::ring::Buffer;

verus! {

/// Capacity invariant: a well-formed buffer never retains more bytes than
/// its capacity, and retains exactly `min(total_written, capacity)` bytes.
pub proof fn lemma_capacity_invariant(b: Buffer)
    requires
        b.wf(),
    ensures
        b@.len() <= b.capacity(),
        b@.len() == if b.total_written() <= b.capacity() {
            b.total_written()
        } else {
            b.capacity()
        },
{
}

/// Retention law: writing a stream `s` of total length at most `cap` into a
/// buffer that retains nothing (fresh, or just reset) retains exactly `s`,
/// in original order.
pub proof fn lemma_retention(s: Seq<u8>, cap: nat)
    requires
        s.len() <= cap,
    ensures
        seq_tail(Seq::<u8>::empty() + s, cap) == s,
{
    assert(Seq::<u8>::empty() + s =~= s);
}

/// Overwrite law: writing a stream `s` longer than `cap` into a buffer that
/// retains nothing retains exactly the last `cap` bytes of `s`, in order.
pub proof fn lemma_overwrite(s: Seq<u8>, cap: nat)
    requires
        s.len() > cap,
    ensures
        seq_tail(Seq::<u8>::empty() + s, cap) == s.subrange(s.len() - cap, s.len() as int),
{
    assert(Seq::<u8>::empty() + s =~= s);
}

/// Writes compose: retaining the tail of a stream `s1` and then appending
/// `s2` retains the same bytes as one single write of the whole stream
/// `s1 + s2`.  Together with `Buffer::write`'s contract this says that the
/// retained bytes depend only on the concatenation of all inputs since the
/// last reset, not on how that stream was split into calls.
pub proof fn lemma_tail_compose(s1: Seq<u8>, s2: Seq<u8>, cap: nat)
    ensures
        seq_tail(seq_tail(s1, cap) + s2, cap) == seq_tail(s1 + s2, cap),
{
    let a = seq_tail(s1, cap);
    if s1.len() <= cap {
        assert(a + s2 =~= s1 + s2);
    } else {
        let cp = cap as int;
        let l1 = s1.len() as int;
        let l2 = s2.len() as int;
        let lhs = seq_tail(a + s2, cap);
        let rhs = seq_tail(s1 + s2, cap);
        assert(a.len() == cp);
        assert(lhs.len() == cp);
        assert(rhs.len() == cp);
        assert forall|k: int| 0 <= k < cp implies lhs[k] == rhs[k] by {
            assert(lhs[k] == (a + s2)[l2 + k]);
            assert(rhs[k] == (s1 + s2)[l1 + l2 - cp + k]);
            if l2 + k < cp {
                assert((a + s2)[l2 + k] == a[l2 + k]);
                assert(a[l2 + k] == s1[l1 - cp + l2 + k]);
                assert((s1 + s2)[l1 + l2 - cp + k] == s1[l1 + l2 - cp + k]);
            } else {
                assert((a + s2)[l2 + k] == s2[l2 + k - cp]);
                assert((s1 + s2)[l1 + l2 - cp + k] == s2[l2 + k - cp]);
            }
        }
        assert(lhs =~= rhs);
    }
}

/// Reset law: after `reset` the buffer retains nothing, exactly like a
/// freshly constructed buffer of the same capacity, so writing the same
/// stream `m` to either retains the same bytes; when `m` fits the capacity
/// those are the bytes of `m` itself.
pub proof fn lemma_reset_law(after_reset: Buffer, fresh: Buffer, m: Seq<u8>)
    requires
        after_reset@ == Seq::<u8>::empty(),
        fresh@ == Seq::<u8>::empty(),
        after_reset.capacity() == fresh.capacity(),
    ensures
        seq_tail(after_reset@ + m, after_reset.capacity()) == seq_tail(
            fresh@ + m,
            fresh.capacity(),
        ),
        m.len() <= fresh.capacity() ==> seq_tail(fresh@ + m, fresh.capacity()) == m,
{
    assert(Seq::<u8>::empty() + m =~= m);
}

/// Idempotent read: `read_into` and `read_to_bytes` both take the buffer
/// immutably and ensure their output equals the view `b@`, so repeated
/// reads without an intervening write return identical content.
pub proof fn lemma_read_idempotent(b: Buffer, first: Seq<u8>, second: Seq<u8>)
    requires
        first == b@,
        second == b@,
    ensures
        first == second,
{
}

} // verus!
