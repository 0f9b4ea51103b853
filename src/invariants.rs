use vstd::array::spec_array_update;
use vstd::prelude::*;
use vstd::set_lib::{lemma_int_range, lemma_len_subset, set_int_range};

use crate::constants::{IDLE_PID, PROCS_MAX};
use crate::ipc::{
    accepts, finish_recv_spec, finish_send_spec, first_free, first_match, recv_spec, send_spec,
    take_entry, Ipc, IpcError, Message, SenderEntry, Src,
};
use crate::process::{PmView, Process, State};

verus! {

/// Slot `j` of the sender queue of process `d`.
pub open spec fn slot(v: PmView, d: int, j: int) -> Option<SenderEntry> {
    v.procs[d].ipc.senders@[j]
}

/// A process is Blocked exactly when one of its pending send and its wait is set.
pub open spec fn blocked_iff_one_pending(v: PmView) -> bool {
    forall|p: int|
        0 <= p < PROCS_MAX ==> ((#[trigger] v.procs[p]).state == State::Blocked <==> (
        v.procs[p].ipc.pending_send is Some) != (v.procs[p].ipc.waiting_for is Some))
}

/// No sender stands in more than one slot of any queues.
pub open spec fn queued_at_most_once(v: PmView) -> bool {
    forall|d1: int, j1: int, d2: int, j2: int|
        0 <= d1 < PROCS_MAX && 0 <= j1 < PROCS_MAX && 0 <= d2 < PROCS_MAX && 0 <= j2 < PROCS_MAX
            && (#[trigger] slot(v, d1, j1)) is Some && (#[trigger] slot(v, d2, j2)) is Some
            && slot(v, d1, j1)->Some_0.src == slot(v, d2, j2)->Some_0.src ==> d1 == d2 && j1 == j2
}

/// IPC state of one process agrees with its scheduling state.
pub open spec fn proc_ipc_ok(p: Process) -> bool {
    &&& p.state != State::Blocked ==> p.ipc.pending_send is None && p.ipc.waiting_for is None
    &&& p.state == State::Blocked ==> (p.ipc.pending_send is Some) != (p.ipc.waiting_for is Some)
    &&& p.ipc.waiting_for is Some ==> p.ipc.inbox is None
}

/// An entry queued on `d` comes from another process whose pending send is that message to `d`.
pub open spec fn entry_ok(v: PmView, d: int, e: SenderEntry) -> bool {
    &&& e.src != d
    &&& v.procs[e.src as int].ipc.pending_send == Some((d as usize, e.msg))
}

/// A pending send of `p` stands as an entry in its destination's queue.
pub open spec fn pending_ok(v: PmView, p: int) -> bool {
    let (d, m) = v.procs[p].ipc.pending_send->Some_0;
    &&& d < PROCS_MAX
    &&& exists|j: int| 0 <= j < PROCS_MAX && slot(v, d as int, j) == Some(SenderEntry { src: p as usize, msg: m })
}

/// The invariant linking IPC state to scheduling state.
pub open spec fn ipc_invariant(v: PmView) -> bool {
    &&& forall|p: int| 0 <= p < PROCS_MAX ==> #[trigger] proc_ipc_ok(v.procs[p])
    &&& v.procs[IDLE_PID as int].ipc.pending_send is None
    &&& v.procs[IDLE_PID as int].ipc.waiting_for is None
    &&& forall|d: int, j: int|
        0 <= d < PROCS_MAX && 0 <= j < PROCS_MAX && (#[trigger] slot(v, d, j)) is Some ==> entry_ok(
            v,
            d,
            slot(v, d, j)->Some_0,
        )
    &&& forall|p: int|
        0 <= p < PROCS_MAX && (#[trigger] v.procs[p]).ipc.pending_send is Some ==> pending_ok(v, p)
    &&& forall|d: int, j1: int, j2: int|
        0 <= d < PROCS_MAX && 0 <= j1 < PROCS_MAX && 0 <= j2 < PROCS_MAX && (#[trigger] slot(
            v,
            d,
            j1,
        )) is Some && (#[trigger] slot(v, d, j2)) is Some && slot(v, d, j1)->Some_0.src == slot(
            v,
            d,
            j2,
        )->Some_0.src ==> j1 == j2
}

/// Everything that holds between kernel operations.
pub open spec fn kernel_invariant(v: PmView) -> bool {
    &&& v.wf()
    &&& v.sched_invariant()
    &&& ipc_invariant(v)
}

/// The running process may take part in IPC: it is not idle and it is Runnable.
pub open spec fn ipc_caller_ok(v: PmView) -> bool {
    v.current != IDLE_PID && v.state(v.current) == State::Runnable
}

/// A ready queue without repeats, of pids other than idle and `p`, has room for one more.
pub proof fn lemma_queue_room(q: Seq<usize>, p: usize)
    requires
        q.no_duplicates(),
        p != IDLE_PID,
        p < PROCS_MAX,
        forall|i: int| 0 <= i < q.len() ==> #[trigger] q[i] != IDLE_PID && q[i] < PROCS_MAX && q[i] != p,
    ensures
        q.len() + 1 < PROCS_MAX,
{
    let qi = q.map_values(|x: usize| x as int);
    assert(qi.no_duplicates()) by {
        assert forall|i: int, j: int| 0 <= i < qi.len() && 0 <= j < qi.len() && i != j implies qi[i]
            != qi[j] by {
            assert(q[i] != q[j]);
        }
    }
    qi.unique_seq_to_set();
    let s = set_int_range(1, PROCS_MAX as int).remove(p as int);
    lemma_int_range(1, PROCS_MAX as int);
    assert(qi.to_set().subset_of(s)) by {
        assert forall|x: int| qi.to_set().contains(x) implies s.contains(x) by {
            let i = choose|i: int| 0 <= i < qi.len() && qi[i] == x;
            assert(q[i] != IDLE_PID && q[i] < PROCS_MAX && q[i] != p);
        }
    }
    lemma_len_subset(qi.to_set(), s);
}


/// Changing IPC state leaves the scheduling invariant alone.
pub proof fn lemma_with_ipc_sched(v: PmView, p: usize, ipc: crate::ipc::Ipc)
    requires
        v.wf(),
        v.sched_invariant(),
        p < PROCS_MAX,
        ipc.wf(p),
    ensures
        v.with_ipc(p, ipc).sched_invariant(),
        v.with_ipc(p, ipc).wf(),
        forall|q: usize| q < PROCS_MAX ==> #[trigger] v.with_ipc(p, ipc).state(q) == v.state(q),
{
    let w = v.with_ipc(p, ipc);
    assert forall|q: usize| q < PROCS_MAX implies #[trigger] w.state(q) == v.state(q) by {
        if q != p {
            assert(w.procs[q as int] == v.procs[q as int]);
        }
    }
    assert forall|i: int| 0 <= i < w.run_queue.len() implies #[trigger] w.run_queue[i] != IDLE_PID
        && w.state(w.run_queue[i]) == State::Runnable by {
        assert(w.state(v.run_queue[i]) == v.state(v.run_queue[i]));
    }
    assert forall|q: usize|
        q < PROCS_MAX && q != IDLE_PID && q != w.current && #[trigger] w.state(q)
            == State::Runnable implies w.run_queue.contains(q) by {
        assert(w.state(q) == v.state(q));
    }
}

/// `unblock` keeps the scheduling invariant, unless the running process unblocks itself.
pub proof fn lemma_unblocked_sched(v: PmView, p: usize)
    requires
        v.wf(),
        v.sched_invariant(),
        p < PROCS_MAX,
        p != v.current || v.state(p) != State::Blocked,
    ensures
        v.unblocked(p).sched_invariant(),
        v.unblocked(p).wf(),
        v.unblocked(p).run_queue.len() == v.run_queue.len() + (if p != IDLE_PID && v.state(p)
            == State::Blocked {
            1int
        } else {
            0int
        }),
{
    if p != IDLE_PID && v.state(p) == State::Blocked {
        let q = v.run_queue;
        assert(!q.contains(p)) by {
            if q.contains(p) {
                let i = choose|i: int| 0 <= i < q.len() && q[i] == p;
                assert(v.state(q[i]) == State::Runnable);
            }
        }
        lemma_queue_room(q, p);
        let w = v.unblocked(p);
        assert(w.run_queue == q.push(p));
        assert forall|q2: usize| q2 < PROCS_MAX && q2 != p implies #[trigger] w.state(q2) == v.state(
            q2,
        ) by {
            assert(w.procs[q2 as int] == v.procs[q2 as int]);
        }
        assert forall|i: int| 0 <= i < w.run_queue.len() implies #[trigger] w.run_queue[i] != IDLE_PID
            && w.state(w.run_queue[i]) == State::Runnable by {
            if i < q.len() {
                assert(w.run_queue[i] == q[i]);
                assert(v.state(q[i]) == State::Runnable);
            }
        }
        assert(w.run_queue.no_duplicates()) by {
            assert forall|i: int, j: int|
                0 <= i < w.run_queue.len() && 0 <= j < w.run_queue.len() && i != j implies w.run_queue[i]
                != w.run_queue[j] by {
                if i < q.len() && j < q.len() {
                } else if i < q.len() {
                    assert(q.contains(q[i]));
                } else {
                    assert(q.contains(q[j]));
                }
            }
        }
        assert(!w.run_queue.contains(w.current)) by {
            if w.run_queue.contains(w.current) {
                let i = choose|i: int| 0 <= i < w.run_queue.len() && w.run_queue[i] == w.current;
                if i < q.len() {
                    assert(q[i] == v.current);
                }
            }
        }
        assert forall|q2: usize|
            q2 < PROCS_MAX && q2 != IDLE_PID && q2 != w.current && #[trigger] w.state(q2)
                == State::Runnable implies w.run_queue.contains(q2) by {
            if q2 == p {
                assert(w.run_queue[q.len() as int] == p);
            } else {
                assert(v.state(q2) == State::Runnable);
                let i = choose|i: int| 0 <= i < q.len() && q[i] == q2;
                assert(w.run_queue[i] == q2);
            }
        }
    }
}

/// `block_current` keeps the scheduling invariant.
pub proof fn lemma_blocked_current_sched(v: PmView)
    requires
        v.wf(),
        v.sched_invariant(),
    ensures
        v.blocked_current().sched_invariant(),
        v.blocked_current().wf(),
{
    let w = v.blocked_current();
    assert forall|q: usize| q < PROCS_MAX && q != v.current implies #[trigger] w.state(q) == v.state(q) by {
        assert(w.procs[q as int] == v.procs[q as int]);
    }
    assert forall|i: int| 0 <= i < w.run_queue.len() implies #[trigger] w.run_queue[i] != IDLE_PID
        && w.state(w.run_queue[i]) == State::Runnable by {
        assert(v.run_queue.contains(v.run_queue[i]));
        assert(w.state(v.run_queue[i]) == v.state(v.run_queue[i]));
    }
    assert forall|q: usize|
        q < PROCS_MAX && q != IDLE_PID && q != w.current && #[trigger] w.state(q)
            == State::Runnable implies w.run_queue.contains(q) by {
        assert(w.state(q) == v.state(q));
    }
}

/// `switch` keeps the scheduling invariant.
pub proof fn lemma_switched_sched(v: PmView)
    requires
        v.wf(),
        v.sched_invariant(),
    ensures
        v.switched().0.sched_invariant(),
        v.switched().0.wf(),
{
    let q = v.run_queue;
    let (s, next) = v.scheduled();
    let w = v.switched().0;
    if next != v.current {
        let q1 = s.run_queue;
        assert forall|i: int| 0 <= i < q1.len() implies q1[i] == q[i + 1] && #[trigger] q1[i] != v.current && q1[i] != next by {
            assert(q.contains(q[i + 1]));
            if q1[i] == next {
                assert(q[0] == next);
            }
        }
        assert(q1.no_duplicates());
        if s.state(v.current) == State::Runnable && v.current != IDLE_PID {
            lemma_queue_room(q1, v.current);
            assert(w.run_queue == q1.push(v.current));
            assert(w.run_queue.no_duplicates()) by {
                assert forall|i: int, j: int|
                    0 <= i < w.run_queue.len() && 0 <= j < w.run_queue.len() && i != j implies w.run_queue[i]
                    != w.run_queue[j] by {
                    if i < q1.len() && j < q1.len() {
                    } else if i < q1.len() {
                        assert(q1[i] != v.current);
                    } else {
                        assert(q1[j] != v.current);
                    }
                }
            }
            assert forall|i: int| 0 <= i < w.run_queue.len() implies #[trigger] w.run_queue[i]
                != IDLE_PID && w.state(w.run_queue[i]) == State::Runnable by {
                if i < q1.len() {
                    assert(q.contains(q[i + 1]));
                }
            }
            assert(!w.run_queue.contains(w.current)) by {
                if w.run_queue.contains(w.current) {
                    let i = choose|i: int| 0 <= i < w.run_queue.len() && w.run_queue[i] == w.current;
                    if i < q1.len() {
                        assert(q1[i] != next);
                    }
                }
            }
            assert forall|p: usize|
                p < PROCS_MAX && p != IDLE_PID && p != w.current && #[trigger] w.state(p)
                    == State::Runnable implies w.run_queue.contains(p) by {
                if p == v.current {
                    assert(w.run_queue[q1.len() as int] == p);
                } else {
                    assert(v.state(p) == State::Runnable);
                    assert(q.contains(p));
                    let i = choose|i: int| 0 <= i < q.len() && q[i] == p;
                    assert(i != 0);
                    assert(w.run_queue[i - 1] == p);
                }
            }
        } else {
            assert forall|i: int| 0 <= i < w.run_queue.len() implies #[trigger] w.run_queue[i]
                != IDLE_PID && w.state(w.run_queue[i]) == State::Runnable by {
                assert(q.contains(q[i + 1]));
            }
            assert forall|p: usize|
                p < PROCS_MAX && p != IDLE_PID && p != w.current && #[trigger] w.state(p)
                    == State::Runnable implies w.run_queue.contains(p) by {
                assert(v.state(p) == State::Runnable);
                assert(q.contains(p));
                let i = choose|i: int| 0 <= i < q.len() && q[i] == p;
                assert(i != 0);
                assert(w.run_queue[i - 1] == p);
            }
        }
    }
}


/// Fast path of `send`: a waiting receiver gets the message in its inbox and is unblocked.
proof fn lemma_deliver_keeps_invariant(v: PmView, dst: usize, msg: Message)
    requires
        kernel_invariant(v),
        ipc_caller_ok(v),
        dst < PROCS_MAX,
        dst != v.current,
        v.state(dst) == State::Blocked,
        accepts(v.ipc(dst).waiting_for, v.current),
    ensures
        kernel_invariant(
            v.with_ipc(dst, Ipc { inbox: Some(msg), waiting_for: None, ..v.ipc(dst) }).unblocked(dst),
        ),
{
    let d = v.ipc(dst);
    let d2 = Ipc { inbox: Some(msg), waiting_for: None, ..d };
    let v1 = v.with_ipc(dst, d2);
    let w = v1.unblocked(dst);
    assert(proc_ipc_ok(v.procs[dst as int]));
    assert(dst != IDLE_PID);
    assert(d2.wf(dst)) by {
        assert forall|j: int| 0 <= j < PROCS_MAX && (#[trigger] d2.senders@[j]) is Some implies d2.senders@[j]->Some_0.src < PROCS_MAX by {
            assert(v.procs[dst as int].ipc.wf(dst));
        }
    }
    lemma_with_ipc_sched(v, dst, d2);
    lemma_unblocked_sched(v1, dst);
    assert(w.procs[dst as int].state == State::Runnable);
    assert forall|x: int| 0 <= x < PROCS_MAX && x != dst implies #[trigger] w.procs[x] == v.procs[x] by {}
    assert forall|x: int| 0 <= x < PROCS_MAX implies #[trigger] w.procs[x].ipc.senders == v.procs[x].ipc.senders
        && w.procs[x].ipc.pending_send == v.procs[x].ipc.pending_send by {}
    assert forall|x: int, j: int| 0 <= x < PROCS_MAX && 0 <= j < PROCS_MAX implies #[trigger] slot(w, x, j) == slot(v, x, j) by {
        assert(w.procs[x].ipc.senders == v.procs[x].ipc.senders);
    }
    assert forall|p: int| 0 <= p < PROCS_MAX implies #[trigger] proc_ipc_ok(w.procs[p]) by {
        assert(proc_ipc_ok(v.procs[p]));
    }
    assert forall|d1: int, j: int|
        0 <= d1 < PROCS_MAX && 0 <= j < PROCS_MAX && (#[trigger] slot(w, d1, j)) is Some implies entry_ok(
        w,
        d1,
        slot(w, d1, j)->Some_0,
    ) by {
        assert(slot(v, d1, j) is Some);
        assert(entry_ok(v, d1, slot(v, d1, j)->Some_0));
        let e = slot(v, d1, j)->Some_0;
        assert(w.procs[e.src as int].ipc.pending_send == v.procs[e.src as int].ipc.pending_send);
    }
    assert forall|p: int|
        0 <= p < PROCS_MAX && (#[trigger] w.procs[p]).ipc.pending_send is Some implies pending_ok(w, p) by {
        assert(v.procs[p].ipc.pending_send is Some);
        assert(pending_ok(v, p));
        let (dd, mm) = v.procs[p].ipc.pending_send->Some_0;
        let j = choose|j: int|
            0 <= j < PROCS_MAX && slot(v, dd as int, j) == Some(SenderEntry { src: p as usize, msg: mm });
        assert(slot(w, dd as int, j) == slot(v, dd as int, j));
    }
    assert forall|d1: int, j1: int, j2: int|
        0 <= d1 < PROCS_MAX && 0 <= j1 < PROCS_MAX && 0 <= j2 < PROCS_MAX && (#[trigger] slot(
            w,
            d1,
            j1,
        )) is Some && (#[trigger] slot(w, d1, j2)) is Some && slot(w, d1, j1)->Some_0.src == slot(
            w,
            d1,
            j2,
        )->Some_0.src implies j1 == j2 by {
        assert(slot(v, d1, j1) == slot(w, d1, j1));
        assert(slot(v, d1, j2) == slot(w, d1, j2));
    }
}


/// Slow path of `send`: the entry goes in a free slot of `dst`, the send becomes pending and the
/// sender blocks.
proof fn lemma_queue_keeps_invariant(v: PmView, dst: usize, msg: Message, j: int)
    requires
        kernel_invariant(v),
        ipc_caller_ok(v),
        dst < PROCS_MAX,
        dst != v.current,
        0 <= j < PROCS_MAX,
        slot(v, dst as int, j) is None,
    ensures
        ({
            let me = v.current;
            let d = v.ipc(dst);
            let v1 = v.with_ipc(
                dst,
                Ipc { senders: spec_array_update(d.senders, j, Some(SenderEntry { src: me, msg })), ..d },
            );
            kernel_invariant(
                v1.with_ipc(me, Ipc { pending_send: Some((dst, msg)), ..v.ipc(me) }).blocked_current(),
            )
        }),
{
    let me = v.current;
    let d = v.ipc(dst);
    let m = v.ipc(me);
    let e = SenderEntry { src: me, msg };
    let d2 = Ipc { senders: spec_array_update(d.senders, j, Some(e)), ..d };
    let m2 = Ipc { pending_send: Some((dst, msg)), ..m };
    let v1 = v.with_ipc(dst, d2);
    let v2 = v1.with_ipc(me, m2);
    let w = v2.blocked_current();
    assert(proc_ipc_ok(v.procs[me as int]));
    assert(d2.senders@ == d.senders@.update(j, Some(e)));
    assert(d2.wf(dst)) by {
        assert forall|k: int| 0 <= k < PROCS_MAX && (#[trigger] d2.senders@[k]) is Some implies d2.senders@[k]->Some_0.src < PROCS_MAX by {
            assert(v.procs[dst as int].ipc.wf(dst));
        }
    }
    assert(m2.wf(me)) by {
        assert(v.procs[me as int].ipc.wf(me));
    }
    lemma_with_ipc_sched(v, dst, d2);
    lemma_with_ipc_sched(v1, me, m2);
    lemma_blocked_current_sched(v2);
    assert(w.procs[me as int].state == State::Blocked);
    assert(w.procs[me as int].ipc == m2);
    assert(w.procs[dst as int].ipc == d2);
    assert forall|x: int| 0 <= x < PROCS_MAX && x != dst && x != me implies #[trigger] w.procs[x] == v.procs[x] by {}
    assert(w.procs[dst as int].state == v.procs[dst as int].state);
    // no entry of the sender is queued anywhere, since its send is not pending
    assert forall|x: int, k: int| 0 <= x < PROCS_MAX && 0 <= k < PROCS_MAX && (#[trigger] slot(v, x, k)) is Some implies slot(v, x, k)->Some_0.src != me by {
        assert(entry_ok(v, x, slot(v, x, k)->Some_0));
    }
    assert forall|x: int, k: int| 0 <= x < PROCS_MAX && 0 <= k < PROCS_MAX implies #[trigger] slot(w, x, k) == (if x == dst && k == j { Some(e) } else { slot(v, x, k) }) by {
        if x == dst {
        } else if x == me {
            assert(w.procs[x].ipc.senders == v.procs[x].ipc.senders);
        }
    }
    assert forall|p: int| 0 <= p < PROCS_MAX implies #[trigger] proc_ipc_ok(w.procs[p]) by {
        assert(proc_ipc_ok(v.procs[p]));
    }
    assert forall|d1: int, k: int|
        0 <= d1 < PROCS_MAX && 0 <= k < PROCS_MAX && (#[trigger] slot(w, d1, k)) is Some implies entry_ok(
        w,
        d1,
        slot(w, d1, k)->Some_0,
    ) by {
        if !(d1 == dst && k == j) {
            assert(slot(v, d1, k) is Some);
            assert(entry_ok(v, d1, slot(v, d1, k)->Some_0));
            let e1 = slot(v, d1, k)->Some_0;
            assert(e1.src != me);
            if e1.src as int == dst {
                assert(w.procs[dst as int].ipc.pending_send == v.procs[dst as int].ipc.pending_send);
            } else {
                assert(w.procs[e1.src as int] == v.procs[e1.src as int]);
            }
        }
    }
    assert forall|p: int|
        0 <= p < PROCS_MAX && (#[trigger] w.procs[p]).ipc.pending_send is Some implies pending_ok(w, p) by {
        if p == me {
            assert(slot(w, dst as int, j) == Some(e));
        } else {
            assert(v.procs[p].ipc.pending_send == w.procs[p].ipc.pending_send);
            assert(pending_ok(v, p));
            let (dd, mm) = v.procs[p].ipc.pending_send->Some_0;
            let k = choose|k: int|
                0 <= k < PROCS_MAX && slot(v, dd as int, k) == Some(SenderEntry { src: p as usize, msg: mm });
            assert(slot(w, dd as int, k) == slot(v, dd as int, k));
        }
    }
    assert forall|d1: int, j1: int, j2: int|
        0 <= d1 < PROCS_MAX && 0 <= j1 < PROCS_MAX && 0 <= j2 < PROCS_MAX && (#[trigger] slot(
            w,
            d1,
            j1,
        )) is Some && (#[trigger] slot(w, d1, j2)) is Some && slot(w, d1, j1)->Some_0.src == slot(
            w,
            d1,
            j2,
        )->Some_0.src implies j1 == j2 by {
        if d1 == dst && (j1 == j || j2 == j) {
            if j1 != j {
                assert(slot(v, d1, j1) is Some);
            }
            if j2 != j {
                assert(slot(v, d1, j2) is Some);
            }
        } else {
            assert(slot(v, d1, j1) == slot(w, d1, j1));
            assert(slot(v, d1, j2) == slot(w, d1, j2));
        }
    }
}


/// The running process takes a queued entry: the slot empties and the sender is released.
pub(crate) proof fn lemma_take_keeps_invariant(v: PmView, j: int)
    requires
        kernel_invariant(v),
        ipc_caller_ok(v),
        0 <= j < PROCS_MAX,
        slot(v, v.current as int, j) is Some,
    ensures
        kernel_invariant(take_entry(v, v.current, j).0),
        take_entry(v, v.current, j).1 == slot(v, v.current as int, j)->Some_0.msg,
        take_entry(v, v.current, j).0.ipc(v.current).waiting_for is None,
        take_entry(v, v.current, j).0.ipc(v.current).inbox == v.ipc(v.current).inbox,
        take_entry(v, v.current, j).0.state(v.current) == State::Runnable,
        ({
            let s = slot(v, v.current as int, j)->Some_0.src;
            &&& take_entry(v, v.current, j).0.state(s) == State::Runnable
            &&& take_entry(v, v.current, j).0.ipc(s).pending_send is None
            &&& take_entry(v, v.current, j).0.ipc(s).waiting_for is None
        }),
{
    let me = v.current;
    let mi = v.ipc(me);
    let e = mi.senders@[j]->Some_0;
    let s = e.src;
    let m2 = Ipc { senders: spec_array_update(mi.senders, j, None), waiting_for: None, ..mi };
    let v1 = v.with_ipc(me, m2);
    let s2 = Ipc { pending_send: None, ..v1.ipc(s) };
    let v2 = v1.with_ipc(s, s2);
    let w = v2.unblocked(s);
    assert(v.procs[me as int].ipc.wf(me));
    assert(entry_ok(v, me as int, e));
    assert(s != me);
    assert(proc_ipc_ok(v.procs[me as int]));
    assert(proc_ipc_ok(v.procs[s as int]));
    assert(v.state(s) == State::Blocked);
    assert(s != IDLE_PID);
    assert(m2.senders@ == mi.senders@.update(j, None));
    assert(m2.wf(me));
    assert(s2.wf(s)) by {
        assert(v.procs[s as int].ipc.wf(s));
    }
    lemma_with_ipc_sched(v, me, m2);
    lemma_with_ipc_sched(v1, s, s2);
    lemma_unblocked_sched(v2, s);
    assert(w.procs[s as int].state == State::Runnable);
    assert(w.procs[s as int].ipc == s2);
    assert(w.procs[me as int].ipc == m2);
    assert(w.procs[me as int].state == v.procs[me as int].state);
    assert forall|x: int| 0 <= x < PROCS_MAX && x != s && x != me implies #[trigger] w.procs[x] == v.procs[x] by {}
    // the taken entry is the only one of its sender
    assert forall|x: int, k: int| 0 <= x < PROCS_MAX && 0 <= k < PROCS_MAX && (#[trigger] slot(v, x, k)) is Some && slot(v, x, k)->Some_0.src == s implies x == me && k == j by {
        assert(entry_ok(v, x, slot(v, x, k)->Some_0));
    }
    assert forall|x: int, k: int| 0 <= x < PROCS_MAX && 0 <= k < PROCS_MAX implies #[trigger] slot(w, x, k) == (if x == me && k == j { None } else { slot(v, x, k) }) by {
        if x == s {
            assert(w.procs[x].ipc.senders == v.procs[x].ipc.senders);
        }
    }
    assert forall|p: int| 0 <= p < PROCS_MAX implies #[trigger] proc_ipc_ok(w.procs[p]) by {
        assert(proc_ipc_ok(v.procs[p]));
    }
    assert forall|d1: int, k: int|
        0 <= d1 < PROCS_MAX && 0 <= k < PROCS_MAX && (#[trigger] slot(w, d1, k)) is Some implies entry_ok(
        w,
        d1,
        slot(w, d1, k)->Some_0,
    ) by {
        assert(slot(v, d1, k) is Some);
        assert(entry_ok(v, d1, slot(v, d1, k)->Some_0));
        let e1 = slot(v, d1, k)->Some_0;
        assert(e1.src != s);
        if e1.src == me {
            assert(w.procs[me as int].ipc.pending_send == v.procs[me as int].ipc.pending_send);
        } else {
            assert(w.procs[e1.src as int] == v.procs[e1.src as int]);
        }
    }
    assert forall|p: int|
        0 <= p < PROCS_MAX && (#[trigger] w.procs[p]).ipc.pending_send is Some implies pending_ok(w, p) by {
        assert(p != s);
        assert(v.procs[p].ipc.pending_send == w.procs[p].ipc.pending_send);
        assert(pending_ok(v, p));
        let (dd, mm) = v.procs[p].ipc.pending_send->Some_0;
        let k = choose|k: int|
            0 <= k < PROCS_MAX && slot(v, dd as int, k) == Some(SenderEntry { src: p as usize, msg: mm });
        assert(!(dd == me && k == j));
        assert(slot(w, dd as int, k) == slot(v, dd as int, k));
    }
    assert forall|d1: int, j1: int, j2: int|
        0 <= d1 < PROCS_MAX && 0 <= j1 < PROCS_MAX && 0 <= j2 < PROCS_MAX && (#[trigger] slot(
            w,
            d1,
            j1,
        )) is Some && (#[trigger] slot(w, d1, j2)) is Some && slot(w, d1, j1)->Some_0.src == slot(
            w,
            d1,
            j2,
        )->Some_0.src implies j1 == j2 by {
        assert(slot(v, d1, j1) == slot(w, d1, j1));
        assert(slot(v, d1, j2) == slot(w, d1, j2));
    }
}


/// Changing only the wait and the inbox of the running process, and possibly blocking it, keeps
/// the invariant as long as its own record stays consistent.
proof fn lemma_own_record_keeps_invariant(v: PmView, m2: Ipc, block: bool)
    requires
        kernel_invariant(v),
        ipc_caller_ok(v),
        m2.senders == v.ipc(v.current).senders,
        m2.pending_send == v.ipc(v.current).pending_send,
        proc_ipc_ok(
            Process {
                ipc: m2,
                state: if block {
                    State::Blocked
                } else {
                    State::Runnable
                },
                ..v.procs[v.current as int]
            },
        ),
    ensures
        kernel_invariant(
            if block {
                v.with_ipc(v.current, m2).blocked_current()
            } else {
                v.with_ipc(v.current, m2)
            },
        ),
{
    let me = v.current;
    let v1 = v.with_ipc(me, m2);
    let w = if block {
        v1.blocked_current()
    } else {
        v1
    };
    assert(m2.wf(me)) by {
        assert(v.procs[me as int].ipc.wf(me));
    }
    lemma_with_ipc_sched(v, me, m2);
    lemma_blocked_current_sched(v1);
    assert forall|x: int| 0 <= x < PROCS_MAX && x != me implies #[trigger] w.procs[x] == v.procs[x] by {}
    assert forall|x: int, k: int| 0 <= x < PROCS_MAX && 0 <= k < PROCS_MAX implies #[trigger] slot(w, x, k) == slot(v, x, k) by {
        if x == me {
            assert(w.procs[x].ipc.senders == v.procs[x].ipc.senders);
        }
    }
    assert forall|x: int| 0 <= x < PROCS_MAX implies #[trigger] w.procs[x].ipc.pending_send == v.procs[x].ipc.pending_send by {}
    assert forall|p: int| 0 <= p < PROCS_MAX implies #[trigger] proc_ipc_ok(w.procs[p]) by {
        assert(proc_ipc_ok(v.procs[p]));
    }
    assert forall|d1: int, k: int|
        0 <= d1 < PROCS_MAX && 0 <= k < PROCS_MAX && (#[trigger] slot(w, d1, k)) is Some implies entry_ok(
        w,
        d1,
        slot(w, d1, k)->Some_0,
    ) by {
        assert(entry_ok(v, d1, slot(v, d1, k)->Some_0));
        let e1 = slot(v, d1, k)->Some_0;
        assert(w.procs[e1.src as int].ipc.pending_send == v.procs[e1.src as int].ipc.pending_send);
    }
    assert forall|p: int|
        0 <= p < PROCS_MAX && (#[trigger] w.procs[p]).ipc.pending_send is Some implies pending_ok(w, p) by {
        assert(pending_ok(v, p));
        let (dd, mm) = v.procs[p].ipc.pending_send->Some_0;
        let k = choose|k: int|
            0 <= k < PROCS_MAX && slot(v, dd as int, k) == Some(SenderEntry { src: p as usize, msg: mm });
        assert(slot(w, dd as int, k) == slot(v, dd as int, k));
    }
    assert forall|d1: int, j1: int, j2: int|
        0 <= d1 < PROCS_MAX && 0 <= j1 < PROCS_MAX && 0 <= j2 < PROCS_MAX && (#[trigger] slot(
            w,
            d1,
            j1,
        )) is Some && (#[trigger] slot(w, d1, j2)) is Some && slot(w, d1, j1)->Some_0.src == slot(
            w,
            d1,
            j2,
        )->Some_0.src implies j1 == j2 by {
        assert(slot(v, d1, j1) == slot(w, d1, j1));
        assert(slot(v, d1, j2) == slot(w, d1, j2));
    }
}

/// `send` by a running process other than idle keeps the kernel invariant.
pub proof fn lemma_send_keeps_invariant(v: PmView, dst: usize, msg: Message)
    requires
        kernel_invariant(v),
        ipc_caller_ok(v),
        dst < PROCS_MAX,
    ensures
        kernel_invariant(send_spec(v, dst, msg).0),
{
    let me = v.current;
    let d = v.ipc(dst);
    let m = v.ipc(me);
    assert(proc_ipc_ok(v.procs[me as int]));
    if me == dst {
    } else if crate::ipc::pending_to(d.pending_send, me) {
    } else if v.state(dst) == State::Blocked && accepts(d.waiting_for, me) {
        lemma_deliver_keeps_invariant(v, dst, msg);
    } else if first_match(d.senders@, Src::Specific(me), 0) >= 0 {
    } else if first_free(d.senders@, 0) < 0 {
    } else {
        crate::ipc::lemma_first_free_bounds(d.senders@, 0);
        lemma_queue_keeps_invariant(v, dst, msg, first_free(d.senders@, 0));
    }
}

/// `finish_send` by a running process keeps the kernel invariant.
pub proof fn lemma_finish_send_keeps_invariant(v: PmView)
    requires
        kernel_invariant(v),
        ipc_caller_ok(v),
    ensures
        kernel_invariant(finish_send_spec(v).0),
        finish_send_spec(v) == (v, Ok::<(), IpcError>(())),
{
    assert(proc_ipc_ok(v.procs[v.current as int]));
}

/// `recv` by a running process other than idle keeps the kernel invariant.
pub proof fn lemma_recv_keeps_invariant(v: PmView, src: Src)
    requires
        kernel_invariant(v),
        ipc_caller_ok(v),
    ensures
        kernel_invariant(recv_spec(v, src).0),
{
    let me = v.current;
    let m = v.ipc(me);
    assert(proc_ipc_ok(v.procs[me as int]));
    let j = first_match(m.senders@, src, 0);
    crate::ipc::lemma_first_match_bounds(m.senders@, src, 0);
    if j >= 0 {
        lemma_take_keeps_invariant(v, j);
    } else if m.inbox is Some {
        lemma_own_record_keeps_invariant(v, Ipc { inbox: None, ..m }, false);
    } else if m.waiting_for is Some {
    } else {
        lemma_own_record_keeps_invariant(v, Ipc { waiting_for: Some(src), ..m }, true);
    }
}

/// `finish_recv` by a running process other than idle keeps the kernel invariant.
pub proof fn lemma_finish_recv_keeps_invariant(v: PmView)
    requires
        kernel_invariant(v),
        ipc_caller_ok(v),
    ensures
        kernel_invariant(finish_recv_spec(v).0),
{
    let me = v.current;
    let m = v.ipc(me);
    assert(proc_ipc_ok(v.procs[me as int]));
    if m.inbox is Some {
        lemma_own_record_keeps_invariant(v, Ipc { inbox: None, waiting_for: None, ..m }, false);
    }
}

/// `switch` keeps the kernel invariant.
pub proof fn lemma_switch_keeps_invariant(v: PmView)
    requires
        kernel_invariant(v),
    ensures
        kernel_invariant(v.switched().0),
{
    lemma_switched_sched(v);
    let w = v.switched().0;
    assert(w.procs == v.procs);
    assert forall|x: int, k: int| 0 <= x < PROCS_MAX && 0 <= k < PROCS_MAX implies #[trigger] slot(w, x, k) == slot(v, x, k) by {}
    assert forall|p: int| 0 <= p < PROCS_MAX implies #[trigger] proc_ipc_ok(w.procs[p]) by {
        assert(proc_ipc_ok(v.procs[p]));
    }
    assert forall|d1: int, k: int|
        0 <= d1 < PROCS_MAX && 0 <= k < PROCS_MAX && (#[trigger] slot(w, d1, k)) is Some implies entry_ok(
        w,
        d1,
        slot(w, d1, k)->Some_0,
    ) by {
        assert(entry_ok(v, d1, slot(v, d1, k)->Some_0));
    }
    assert forall|p: int|
        0 <= p < PROCS_MAX && (#[trigger] w.procs[p]).ipc.pending_send is Some implies pending_ok(w, p) by {
        assert(pending_ok(v, p));
        let (dd, mm) = v.procs[p].ipc.pending_send->Some_0;
        let k = choose|k: int|
            0 <= k < PROCS_MAX && slot(v, dd as int, k) == Some(SenderEntry { src: p as usize, msg: mm });
        assert(slot(w, dd as int, k) == slot(v, dd as int, k));
    }
}

/// Between operations a process is Blocked exactly when one of its pending send and its wait
/// is set.
pub proof fn lemma_invariant_blocked_iff_one_pending(v: PmView)
    requires
        kernel_invariant(v),
    ensures
        blocked_iff_one_pending(v),
{
    assert forall|p: int| 0 <= p < PROCS_MAX implies ((#[trigger] v.procs[p]).state == State::Blocked <==> (
    v.procs[p].ipc.pending_send is Some) != (v.procs[p].ipc.waiting_for is Some)) by {
        assert(proc_ipc_ok(v.procs[p]));
    }
}

/// Between operations no sender stands in more than one slot of any queues.
pub proof fn lemma_invariant_queued_at_most_once(v: PmView)
    requires
        kernel_invariant(v),
    ensures
        queued_at_most_once(v),
{
    assert forall|d1: int, j1: int, d2: int, j2: int|
        0 <= d1 < PROCS_MAX && 0 <= j1 < PROCS_MAX && 0 <= d2 < PROCS_MAX && 0 <= j2 < PROCS_MAX
            && (#[trigger] slot(v, d1, j1)) is Some && (#[trigger] slot(v, d2, j2)) is Some
            && slot(v, d1, j1)->Some_0.src == slot(v, d2, j2)->Some_0.src implies d1 == d2 && j1 == j2 by {
        assert(entry_ok(v, d1, slot(v, d1, j1)->Some_0));
        assert(entry_ok(v, d2, slot(v, d2, j2)->Some_0));
    }
}


/// Resetting the idle slot to a Runnable process with cleared IPC keeps the invariant when
/// nothing was queued on it.
pub proof fn lemma_slot_reset_keeps_invariant(v: PmView, w: PmView, pid: usize)
    requires
        kernel_invariant(v),
        pid == IDLE_PID,
        v.ipc(pid).is_clear(),
        w.wf(),
        w.current == v.current,
        w.run_queue == v.run_queue,
        w.procs.len() == v.procs.len(),
        forall|q: int| 0 <= q < PROCS_MAX && q != pid ==> w.procs[q] == v.procs[q],
        w.procs[pid as int].state == State::Runnable,
        w.procs[pid as int].ipc.is_clear(),
    ensures
        kernel_invariant(w),
{
    lemma_fresh_slot_keeps_ipc_invariant(v, w, pid);
    lemma_slot_reset_sched(v, w, pid);
}

/// Resetting the idle slot to a Runnable process keeps the scheduling invariant.
pub proof fn lemma_slot_reset_sched(v: PmView, w: PmView, pid: usize)
    requires
        v.wf(),
        v.sched_invariant(),
        pid == IDLE_PID,
        w.current == v.current,
        w.run_queue == v.run_queue,
        w.procs.len() == v.procs.len(),
        forall|q: int| 0 <= q < PROCS_MAX && q != pid ==> w.procs[q] == v.procs[q],
        w.procs[pid as int].state == State::Runnable,
    ensures
        w.sched_invariant(),
{
    assert forall|i: int| 0 <= i < w.run_queue.len() implies #[trigger] w.run_queue[i] != IDLE_PID
        && w.state(w.run_queue[i]) == State::Runnable by {
        assert(w.procs[w.run_queue[i] as int] == v.procs[w.run_queue[i] as int]);
    }
    assert forall|p: usize|
        p < PROCS_MAX && p != IDLE_PID && p != w.current && #[trigger] w.state(p)
            == State::Runnable implies w.run_queue.contains(p) by {
        assert(w.procs[p as int] == v.procs[p as int]);
        assert(v.state(p) == State::Runnable);
    }
    if w.current != IDLE_PID {
        assert(w.procs[w.current as int] == v.procs[w.current as int]);
    }
}

/// Replacing slot `pid`, which had nothing queued and no IPC state, by a process that is not
/// Blocked and has cleared IPC state keeps the IPC invariant.
proof fn lemma_fresh_slot_keeps_ipc_invariant(v: PmView, w: PmView, pid: usize)
    requires
        kernel_invariant(v),
        pid < PROCS_MAX,
        v.ipc(pid).is_clear(),
        w.procs.len() == v.procs.len(),
        forall|q: int| 0 <= q < PROCS_MAX && q != pid ==> w.procs[q] == v.procs[q],
        w.procs[pid as int].state != State::Blocked,
        w.procs[pid as int].ipc.is_clear(),
    ensures
        ipc_invariant(w),
{
    assert forall|x: int, k: int| 0 <= x < PROCS_MAX && 0 <= k < PROCS_MAX implies #[trigger] slot(w, x, k) == slot(v, x, k) by {
        if x == pid {
            assert(slot(v, x, k) is None);
        }
    }
    assert forall|p: int| 0 <= p < PROCS_MAX implies #[trigger] proc_ipc_ok(w.procs[p]) by {
        assert(proc_ipc_ok(v.procs[p]));
    }
    assert forall|d1: int, k: int|
        0 <= d1 < PROCS_MAX && 0 <= k < PROCS_MAX && (#[trigger] slot(w, d1, k)) is Some implies entry_ok(
        w,
        d1,
        slot(w, d1, k)->Some_0,
    ) by {
        assert(entry_ok(v, d1, slot(v, d1, k)->Some_0));
        let e1 = slot(v, d1, k)->Some_0;
        assert(e1.src != pid);
        assert(w.procs[e1.src as int] == v.procs[e1.src as int]);
    }
    assert forall|p: int|
        0 <= p < PROCS_MAX && (#[trigger] w.procs[p]).ipc.pending_send is Some implies pending_ok(w, p) by {
        assert(p != pid);
        assert(w.procs[p] == v.procs[p]);
        assert(pending_ok(v, p));
        let (dd, mm) = v.procs[p].ipc.pending_send->Some_0;
        let k = choose|k: int|
            0 <= k < PROCS_MAX && slot(v, dd as int, k) == Some(SenderEntry { src: p as usize, msg: mm });
        assert(slot(w, dd as int, k) == slot(v, dd as int, k));
    }
    assert forall|d1: int, j1: int, j2: int|
        0 <= d1 < PROCS_MAX && 0 <= j1 < PROCS_MAX && 0 <= j2 < PROCS_MAX && (#[trigger] slot(
            w,
            d1,
            j1,
        )) is Some && (#[trigger] slot(w, d1, j2)) is Some && slot(w, d1, j1)->Some_0.src == slot(
            w,
            d1,
            j2,
        )->Some_0.src implies j1 == j2 by {
        assert(slot(v, d1, j1) == slot(w, d1, j1));
        assert(slot(v, d1, j2) == slot(w, d1, j2));
    }
}

/// `create_process` keeps the kernel invariant, and keeps Unused slots clear, when Unused slots
/// are clear to begin with.
pub proof fn lemma_created_keeps_invariant(v: PmView, w: PmView, pid: usize, pc: usize, pt: usize)
    requires
        kernel_invariant(v),
        v.unused_slots_clear(),
        v.first_unused(0) == Some(pid),
        v.created(w, pid, pc, pt),
        w.wf(),
    ensures
        kernel_invariant(w),
        w.unused_slots_clear(),
{
    lemma_first_unused(v, 0);
    assert(v.state(pid) == State::Unused);
    assert(v.ipc(pid).is_clear());
    lemma_fresh_slot_keeps_ipc_invariant(v, w, pid);
    lemma_created_sched(v, w, pid, pc, pt);
    assert forall|p: usize| p < PROCS_MAX && #[trigger] w.state(p) == State::Unused implies w.ipc(p).is_clear() by {
        assert(p != pid);
        assert(w.procs[p as int] == v.procs[p as int]);
        assert(v.state(p) == State::Unused);
    }
}

/// `create_process` keeps the scheduling invariant.
pub proof fn lemma_created_sched(v: PmView, w: PmView, pid: usize, pc: usize, pt: usize)
    requires
        v.wf(),
        v.sched_invariant(),
        v.first_unused(0) == Some(pid),
        v.created(w, pid, pc, pt),
    ensures
        w.sched_invariant(),
        pid != IDLE_PID ==> v.run_queue.len() + 1 < PROCS_MAX,
{
    lemma_first_unused(v, 0);
    assert(v.state(pid) == State::Unused);
    let q = v.run_queue;
    assert(!q.contains(pid)) by {
        if q.contains(pid) {
            let i = choose|i: int| 0 <= i < q.len() && q[i] == pid;
            assert(v.state(q[i]) == State::Runnable);
        }
    }
    assert(pid != v.current || pid == IDLE_PID);
    if pid != IDLE_PID {
        lemma_queue_room(q, pid);
    }
    assert(w.run_queue == if pid == IDLE_PID { q } else { q.push(pid) });
    if pid != IDLE_PID {
        assert(w.run_queue.no_duplicates()) by {
            assert forall|i: int, j: int|
                0 <= i < w.run_queue.len() && 0 <= j < w.run_queue.len() && i != j implies w.run_queue[i]
                != w.run_queue[j] by {
                if i < q.len() && j < q.len() {
                } else if i < q.len() {
                    assert(q.contains(q[i]));
                } else {
                    assert(q.contains(q[j]));
                }
            }
        }
        assert(!w.run_queue.contains(w.current)) by {
            if w.run_queue.contains(w.current) {
                let i = choose|i: int| 0 <= i < w.run_queue.len() && w.run_queue[i] == w.current;
                if i < q.len() {
                    assert(q[i] == v.current);
                }
            }
        }
    }
    assert forall|i: int| 0 <= i < w.run_queue.len() implies #[trigger] w.run_queue[i] != IDLE_PID
        && w.state(w.run_queue[i]) == State::Runnable by {
        if i < q.len() {
            assert(w.run_queue[i] == q[i]);
            assert(v.state(q[i]) == State::Runnable);
            assert(q[i] != pid);
            assert(w.procs[q[i] as int] == v.procs[q[i] as int]);
        }
    }
    assert forall|p: usize|
        p < PROCS_MAX && p != IDLE_PID && p != w.current && #[trigger] w.state(p)
            == State::Runnable implies w.run_queue.contains(p) by {
        if p == pid {
            lemma_queue_room(q, pid);
            assert(w.run_queue == q.push(pid));
            assert(w.run_queue[q.len() as int] == p);
        } else {
            assert(w.procs[p as int] == v.procs[p as int]);
            assert(v.state(p) == State::Runnable);
            assert(q.contains(p));
            let i = choose|i: int| 0 <= i < q.len() && q[i] == p;
            assert(w.run_queue[i] == p);
        }
    }
    if w.current != IDLE_PID && w.current != pid {
        assert(w.procs[w.current as int] == v.procs[w.current as int]);
    }
}

pub(crate) proof fn lemma_first_unused(v: PmView, i: int)
    requires
        v.wf(),
    ensures
        v.first_unused(i) is Some ==> {
            let p = v.first_unused(i)->Some_0;
            &&& p < PROCS_MAX && v.state(p) == State::Unused
            &&& forall|q: usize| i <= q < p ==> #[trigger] v.state(q) != State::Unused
        },
    decreases PROCS_MAX - i,
{
    if 0 <= i < PROCS_MAX && v.state(i as usize) != State::Unused {
        lemma_first_unused(v, i + 1);
    }
}


/// A table of fresh slots with idle current and an empty queue meets the invariant.
pub proof fn lemma_fresh_table_invariant(v: PmView)
    requires
        v.wf(),
        v.current == IDLE_PID,
        v.run_queue.len() == 0,
        forall|i: int| 0 <= i < PROCS_MAX ==> (#[trigger] v.procs[i]).is_fresh(),
    ensures
        kernel_invariant(v),
        v.unused_slots_clear(),
{
    assert forall|p: int| 0 <= p < PROCS_MAX implies #[trigger] proc_ipc_ok(v.procs[p]) by {
        assert(v.procs[p].is_fresh());
    }
    assert forall|d: int, j: int| 0 <= d < PROCS_MAX && 0 <= j < PROCS_MAX implies (#[trigger] slot(v, d, j)) is None by {
        assert(v.procs[d].is_fresh());
    }
    assert forall|p: int| 0 <= p < PROCS_MAX implies (#[trigger] v.procs[p]).ipc.pending_send is None by {
        assert(v.procs[p].is_fresh());
    }
    assert(v.procs[IDLE_PID as int].is_fresh());
    assert forall|p: usize|
        p < PROCS_MAX && p != IDLE_PID && p != v.current && #[trigger] v.state(p)
            == State::Runnable implies v.run_queue.contains(p) by {
        assert(v.procs[p as int].is_fresh());
    }
    assert forall|p: usize| p < PROCS_MAX && #[trigger] v.state(p) == State::Unused implies v.ipc(p).is_clear() by {
        assert(v.procs[p as int].is_fresh());
    }
}

} // verus!
