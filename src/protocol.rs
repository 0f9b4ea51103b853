use vstd::prelude::*;
use vstd::set_lib::{lemma_int_range, lemma_len_subset, set_int_range};

use crate::constants::PROCS_MAX;
use crate::invariants::{
    entry_ok, ipc_caller_ok, kernel_invariant, pending_ok, proc_ipc_ok, slot,
};
use crate::ipc::{
    accepts, finish_recv_spec, finish_send_spec, first_free, first_match, pending_to, recv_spec,
    send_spec, IpcError, Message, RecvStatus, SendStatus, SenderEntry, Src,
};
use crate::process::{PmView, State};

verus! {

proof fn lemma_first_match_is(s: Seq<Option<SenderEntry>>, src: Src, i: int, k: int)
    requires
        0 <= i <= k < s.len(),
        crate::ipc::entry_matches(s[k], src),
        forall|x: int| i <= x < s.len() && x != k ==> !crate::ipc::entry_matches(#[trigger] s[x], src),
    ensures
        first_match(s, src, i) == k,
    decreases k - i,
{
    if i < k {
        lemma_first_match_is(s, src, i + 1, k);
    }
}

/// A send that was queued is what the destination receives from `recv(Specific(sender))`
/// while it is still pending; afterwards both are Runnable, neither has a pending send or a
/// wait, and the receiver's inbox is as it was.
pub proof fn lemma_queued_send_then_recv(v: PmView, dst: usize, msg: Message, w: PmView)
    requires
        kernel_invariant(v),
        ipc_caller_ok(v),
        dst < PROCS_MAX,
        send_spec(v, dst, msg).1 == Ok::<SendStatus, IpcError>(SendStatus::Queued),
        kernel_invariant(w),
        ipc_caller_ok(w),
        w.current == dst,
        w.ipc(v.current).pending_send == send_spec(v, dst, msg).0.ipc(v.current).pending_send,
    ensures
        send_spec(v, dst, msg).0.ipc(v.current).pending_send == Some((dst, msg)),
        send_spec(v, dst, msg).0.state(v.current) == State::Blocked,
        ({
            let a = v.current;
            let (after, r) = recv_spec(w, Src::Specific(a));
            &&& r == Ok::<RecvStatus, IpcError>(RecvStatus::Received(msg))
            &&& after.state(a) == State::Runnable && after.state(dst) == State::Runnable
            &&& after.ipc(a).pending_send is None && after.ipc(a).waiting_for is None
            &&& after.ipc(dst).pending_send is None && after.ipc(dst).waiting_for is None
            &&& after.ipc(dst).inbox == w.ipc(dst).inbox
        }),
{
    let a = v.current;
    assert(proc_ipc_ok(v.procs[a as int]));
    assert(send_spec(v, dst, msg).0.ipc(a).pending_send == Some((dst, msg)));
    assert(pending_ok(w, a as int));
    let k = choose|k: int|
        0 <= k < PROCS_MAX && slot(w, dst as int, k) == Some(SenderEntry { src: a, msg });
    let s = w.ipc(dst).senders@;
    assert forall|x: int| 0 <= x < s.len() && x != k implies !crate::ipc::entry_matches(
        #[trigger] s[x],
        Src::Specific(a),
    ) by {
        if s[x] is Some && s[x]->Some_0.src == a {
            assert(slot(w, dst as int, x) is Some);
        }
    }
    lemma_first_match_is(s, Src::Specific(a), 0, k);
    crate::invariants::lemma_take_keeps_invariant(w, k);
    assert(proc_ipc_ok(w.procs[dst as int]));
}

/// A send that was delivered to a waiting receiver is what that receiver's `finish_recv`
/// returns while the message is still in its inbox; afterwards the receiver has neither wait
/// nor inbox.
pub proof fn lemma_delivered_send_then_finish_recv(v: PmView, dst: usize, msg: Message, w: PmView)
    requires
        kernel_invariant(v),
        ipc_caller_ok(v),
        dst < PROCS_MAX,
        send_spec(v, dst, msg).1 == Ok::<SendStatus, IpcError>(SendStatus::Delivered),
        kernel_invariant(w),
        ipc_caller_ok(w),
        w.current == dst,
        w.ipc(dst).inbox == send_spec(v, dst, msg).0.ipc(dst).inbox,
    ensures
        send_spec(v, dst, msg).0.ipc(v.current).pending_send is None,
        send_spec(v, dst, msg).0.state(dst) == State::Runnable,
        ({
            let (after, r) = finish_recv_spec(w);
            &&& r == Ok::<Message, IpcError>(msg)
            &&& after.ipc(dst).inbox is None && after.ipc(dst).waiting_for is None
            &&& after.ipc(dst).pending_send is None && after.state(dst) == State::Runnable
        }),
{
    assert(proc_ipc_ok(v.procs[v.current as int]));
    assert(proc_ipc_ok(w.procs[dst as int]));
}

/// A process whose `send` has returned `Ok` has no pending send: `Delivered` from `send`, or
/// anything `Ok` from `finish_send`.
pub proof fn lemma_ok_send_leaves_nothing_pending(v: PmView, dst: usize, msg: Message)
    requires
        kernel_invariant(v),
        ipc_caller_ok(v),
        dst < PROCS_MAX,
    ensures
        send_spec(v, dst, msg).1 == Ok::<SendStatus, IpcError>(SendStatus::Delivered) ==> send_spec(
            v,
            dst,
            msg,
        ).0.ipc(v.current).pending_send is None,
        finish_send_spec(v).1 is Ok ==> finish_send_spec(v).0.ipc(v.current).pending_send is None,
{
    assert(proc_ipc_ok(v.procs[v.current as int]));
}

/// `unblock` of a Runnable process changes nothing, and `block_current` twice in a row is
/// the same as once.
pub proof fn lemma_unblock_and_block_idempotent(v: PmView, p: usize)
    requires
        v.wf(),
        p < PROCS_MAX,
    ensures
        v.state(p) == State::Runnable ==> v.unblocked(p) == v,
        v.blocked_current().blocked_current() == v.blocked_current(),
{
}

/// Sending to oneself fails with `SelfSend` and changes nothing.
pub proof fn lemma_self_send_refused(v: PmView, msg: Message)
    requires
        v.wf(),
    ensures
        send_spec(v, v.current, msg) == (v, Err::<SendStatus, IpcError>(IpcError::SelfSend)),
{
}

/// A send to a destination whose every queue slot is taken by other senders, and that neither
/// waits for the sender nor has a pending send to it, fails with
/// `SendQueueFull` and changes nothing.
pub proof fn lemma_full_queue_refused(v: PmView, dst: usize, msg: Message)
    requires
        v.wf(),
        dst < PROCS_MAX,
        dst != v.current,
        !pending_to(v.ipc(dst).pending_send, v.current),
        !(v.state(dst) == State::Blocked && accepts(v.ipc(dst).waiting_for, v.current)),
        forall|j: int|
            0 <= j < PROCS_MAX ==> #[trigger] slot(v, dst as int, j) is Some && slot(v, dst as int, j)->Some_0.src
                != v.current,
    ensures
        send_spec(v, dst, msg) == (v, Err::<SendStatus, IpcError>(IpcError::SendQueueFull)),
{
    let me = v.current;
    let s = v.ipc(dst).senders@;
    assert(first_match(s, Src::Specific(me), 0) < 0) by {
        crate::ipc::lemma_first_match_bounds(s, Src::Specific(me), 0);
        let k = first_match(s, Src::Specific(me), 0);
        if k >= 0 {
            assert(slot(v, dst as int, k) is Some);
        }
    }
    assert(first_free(s, 0) < 0) by {
        crate::ipc::lemma_first_free_bounds(s, 0);
        let k = first_free(s, 0);
        if k >= 0 {
            assert(slot(v, dst as int, k) is Some);
        }
    }
}

/// A send to a process that is itself waiting to send to the sender fails with
/// `DeadlockDetected` and changes nothing: the destination stays Blocked, the sender stays as it
/// was, and nothing is delivered or queued.
pub proof fn lemma_symmetric_send_refused(v: PmView, dst: usize, msg: Message)
    requires
        v.wf(),
        dst < PROCS_MAX,
        dst != v.current,
        pending_to(v.ipc(dst).pending_send, v.current),
    ensures
        send_spec(v, dst, msg) == (v, Err::<SendStatus, IpcError>(IpcError::DeadlockDetected)),
{
}

/// Between operations, a process Blocked sending to the running process refuses the running
/// process's send back: the result is `DeadlockDetected`, the destination stays Blocked and the
/// sender Runnable.
pub proof fn lemma_blocked_sender_refuses_send_back(v: PmView, dst: usize, msg: Message)
    requires
        kernel_invariant(v),
        ipc_caller_ok(v),
        dst < PROCS_MAX,
        v.state(dst) == State::Blocked,
        pending_to(v.ipc(dst).pending_send, v.current),
    ensures
        send_spec(v, dst, msg) == (v, Err::<SendStatus, IpcError>(IpcError::DeadlockDetected)),
        v.state(v.current) == State::Runnable,
{
}


/// Distinct pids other than `p` number at most `PROCS_MAX - 1`.
proof fn lemma_pids_bound(q: Seq<usize>, p: usize)
    requires
        q.no_duplicates(),
        p < PROCS_MAX,
        forall|i: int| 0 <= i < q.len() ==> #[trigger] q[i] < PROCS_MAX && q[i] != p,
    ensures
        q.len() < PROCS_MAX,
{
    let qi = q.map_values(|x: usize| x as int);
    assert(qi.no_duplicates()) by {
        assert forall|i: int, j: int| 0 <= i < qi.len() && 0 <= j < qi.len() && i != j implies qi[i]
            != qi[j] by {
            assert(q[i] != q[j]);
        }
    }
    qi.unique_seq_to_set();
    let s = set_int_range(0, PROCS_MAX as int).remove(p as int);
    lemma_int_range(0, PROCS_MAX as int);
    assert(qi.to_set().subset_of(s)) by {
        assert forall|x: int| qi.to_set().contains(x) implies s.contains(x) by {
            let i = choose|i: int| 0 <= i < qi.len() && qi[i] == x;
            assert(q[i] < PROCS_MAX && q[i] != p);
        }
    }
    lemma_len_subset(qi.to_set(), s);
}

proof fn lemma_first_free_none(s: Seq<Option<SenderEntry>>, i: int)
    requires
        0 <= i,
        first_free(s, i) < 0,
    ensures
        forall|j: int| i <= j < s.len() ==> #[trigger] s[j] is Some,
    decreases s.len() - i,
{
    if i < s.len() {
        lemma_first_free_none(s, i + 1);
    }
}

/// Between operations every sender queue has a free slot, since its entries come from distinct
/// processes other than its owner; so no send fails with `SendQueueFull`.
pub proof fn lemma_send_never_queue_full(v: PmView, dst: usize, msg: Message)
    requires
        kernel_invariant(v),
        dst < PROCS_MAX,
    ensures
        first_free(v.ipc(dst).senders@, 0) >= 0,
        send_spec(v, dst, msg).1 != Err::<SendStatus, IpcError>(IpcError::SendQueueFull),
{
    let s = v.ipc(dst).senders@;
    if first_free(s, 0) < 0 {
        lemma_first_free_none(s, 0);
        let srcs = Seq::new(PROCS_MAX as nat, |j: int| s[j]->Some_0.src);
        assert(v.procs[dst as int].ipc.wf(dst));
        assert forall|i: int| 0 <= i < srcs.len() implies #[trigger] srcs[i] < PROCS_MAX && srcs[i] != dst by {
            assert(slot(v, dst as int, i) is Some);
            assert(entry_ok(v, dst as int, slot(v, dst as int, i)->Some_0));
        }
        assert(srcs.no_duplicates()) by {
            assert forall|i: int, j: int| 0 <= i < srcs.len() && 0 <= j < srcs.len() && i != j implies srcs[i]
                != srcs[j] by {
                assert(slot(v, dst as int, i) is Some);
                assert(slot(v, dst as int, j) is Some);
            }
        }
        lemma_pids_bound(srcs, dst);
    }
}


/// Two Runnable processes that never yield on their own take turns: with one running and the
/// other alone in the ready queue, each switch hands the CPU to the other.
pub proof fn lemma_two_runnable_alternate(v: PmView)
    requires
        kernel_invariant(v),
        v.current != crate::constants::IDLE_PID,
        v.state(v.current) == State::Runnable,
        v.run_queue.len() == 1,
    ensures
        v.switched().0.current == v.run_queue[0],
        v.switched().0.run_queue == seq![v.current],
        v.switched().0.switched().0.current == v.current,
        v.switched().0.switched().0.run_queue == v.run_queue,
{
    let b = v.run_queue[0];
    assert(v.run_queue.contains(b));
    assert(b != v.current);
    let w = v.switched().0;
    assert(w.run_queue =~= seq![v.current]);
    assert(w.procs == v.procs);
    assert(w.switched().0.run_queue =~= v.run_queue);
}


/// A send to a process that neither waits for the sender nor is waiting to send to it is
/// queued between operations: the entry goes in the destination's lowest free slot, the sender
/// is Blocked with the send pending, and the destination's inbox and state are unchanged.
pub proof fn lemma_send_queued(v: PmView, dst: usize, msg: Message)
    requires
        kernel_invariant(v),
        ipc_caller_ok(v),
        dst < PROCS_MAX,
        dst != v.current,
        !pending_to(v.ipc(dst).pending_send, v.current),
        !(v.state(dst) == State::Blocked && accepts(v.ipc(dst).waiting_for, v.current)),
    ensures
        ({
            let me = v.current;
            let j = first_free(v.ipc(dst).senders@, 0);
            let (w, r) = send_spec(v, dst, msg);
            &&& r == Ok::<SendStatus, IpcError>(SendStatus::Queued)
            &&& 0 <= j < PROCS_MAX
            &&& forall|k: int| 0 <= k < j ==> #[trigger] v.ipc(dst).senders@[k] is Some
            &&& w.ipc(dst).senders@ == v.ipc(dst).senders@.update(j, Some(SenderEntry { src: me, msg }))
            &&& w.ipc(dst).inbox == v.ipc(dst).inbox
            &&& w.state(dst) == v.state(dst)
            &&& w.state(me) == State::Blocked
            &&& w.ipc(me).pending_send == Some((dst, msg))
        }),
{
    let me = v.current;
    let s = v.ipc(dst).senders@;
    assert(proc_ipc_ok(v.procs[me as int]));
    lemma_send_never_queue_full(v, dst, msg);
    crate::ipc::lemma_first_free_bounds(s, 0);
    lemma_first_free_prefix(s, 0);
    assert(first_match(s, Src::Specific(me), 0) < 0) by {
        crate::ipc::lemma_first_match_bounds(s, Src::Specific(me), 0);
        let k = first_match(s, Src::Specific(me), 0);
        if k >= 0 {
            assert(slot(v, dst as int, k) is Some);
            assert(entry_ok(v, dst as int, slot(v, dst as int, k)->Some_0));
        }
    }
}

proof fn lemma_first_free_prefix(s: Seq<Option<SenderEntry>>, i: int)
    requires
        0 <= i,
    ensures
        forall|k: int| i <= k < first_free(s, i) ==> #[trigger] s[k] is Some,
    decreases s.len() - i,
{
    if i < s.len() && s[i] is Some {
        lemma_first_free_prefix(s, i + 1);
    }
}

} // verus!
