use vstd::array::spec_array_update;
use vstd::prelude::*;

use crate::constants::PROCS_MAX;
use crate::invariants::{
    ipc_caller_ok, kernel_invariant, lemma_finish_recv_keeps_invariant,
    lemma_finish_send_keeps_invariant, lemma_recv_keeps_invariant, lemma_send_keeps_invariant,
};
use crate::process::{PmView, ProcessManager, State};

verus! {

/// The closed set of messages that processes exchange. The kernel never looks inside.
#[derive(Clone, Copy, Debug)]
pub enum Message {
    Ping,
    Data { a: usize, b: usize },
    DisplayPrint { display: u8, line: u8, text: [u8; 32], len: u8 },
    DisplayClear(u8),
    DisplayDrawCell { display: u8, x: u8, y: u8, fg: u8, bg: u8, ch: char },
}

/// Whom a receiver accepts a message from.
#[derive(Clone, Copy, Debug, PartialEq, Eq, Structural)]
pub enum Src {
    Specific(usize),
    Any,
}

/// Errors reported synchronously to the caller of an IPC operation.
#[derive(Clone, Copy, Debug, PartialEq, Eq, Structural)]
pub enum IpcError {
    SelfSend,
    DeadlockDetected,
    SendQueueFull,
    UnexpectedState,
}

/// A message deposited by a sender that blocked on its destination.
#[derive(Clone, Copy, Debug)]
pub struct SenderEntry {
    pub src: usize,
    pub msg: Message,
}

/// Per-process IPC state.
#[derive(Clone, Copy, Debug)]
pub struct Ipc {
    /// Set while the process is blocked in `recv`.
    pub waiting_for: Option<Src>,
    /// Set while the process is blocked in `send`: destination and message.
    pub pending_send: Option<(usize, Message)>,
    /// Entries left by senders that blocked on this process.
    pub senders: [Option<SenderEntry>; PROCS_MAX],
    /// A message handed over directly by a sender while this process waited.
    pub inbox: Option<Message>,
}

impl Ipc {
    /// Nothing pending, waiting, queued or delivered.
    pub open spec fn is_clear(&self) -> bool {
        &&& self.waiting_for is None
        &&& self.pending_send is None
        &&& self.inbox is None
        &&& forall|j: int| 0 <= j < PROCS_MAX ==> self.senders@[j] is None
    }

    /// Every entry queued on `owner` names a valid sender slot other than `owner`.
    pub open spec fn wf(&self, owner: usize) -> bool {
        forall|j: int|
            0 <= j < PROCS_MAX && (#[trigger] self.senders@[j]) is Some ==> self.senders@[j]->Some_0.src
                < PROCS_MAX && self.senders@[j]->Some_0.src != owner
    }

    pub fn new() -> (r: Ipc)
        ensures
            r.is_clear(),
    {
        Ipc { waiting_for: None, pending_send: None, senders: [None; PROCS_MAX], inbox: None }
    }
}


/// How a `send` that did not fail went on.
#[derive(Clone, Copy, Debug, PartialEq, Eq, Structural)]
pub enum SendStatus {
    /// Handed to a waiting receiver; the sender continues.
    Delivered,
    /// Queued on the destination; the sender is Blocked, must yield, and calls `finish_send`
    /// when it runs again.
    Queued,
}

/// How a `recv` that did not fail went on.
#[derive(Clone, Copy, Debug)]
pub enum RecvStatus {
    Received(Message),
    /// The receiver is Blocked; it must yield and calls `finish_recv` when it runs again.
    Waiting,
}

/// A receiver waiting with filter `w` accepts a message from `me`.
pub open spec fn accepts(w: Option<Src>, me: usize) -> bool {
    w == Some(Src::Specific(me)) || w == Some(Src::Any)
}

/// The pending send `p` targets `d`.
pub open spec fn pending_to(p: Option<(usize, Message)>, d: usize) -> bool {
    match p {
        Some((x, _)) => x == d,
        None => false,
    }
}

pub open spec fn entry_matches(e: Option<SenderEntry>, src: Src) -> bool {
    match e {
        Some(en) => match src {
            Src::Specific(p) => en.src == p,
            Src::Any => true,
        },
        None => false,
    }
}

/// Index of the first slot from `i` on that `src` accepts, or -1.
pub open spec fn first_match(s: Seq<Option<SenderEntry>>, src: Src, i: int) -> int
    decreases s.len() - i,
{
    if i < 0 || i >= s.len() {
        -1
    } else if entry_matches(s[i], src) {
        i
    } else {
        first_match(s, src, i + 1)
    }
}

/// Index of the first empty slot from `i` on, or -1.
pub open spec fn first_free(s: Seq<Option<SenderEntry>>, i: int) -> int
    decreases s.len() - i,
{
    if i < 0 || i >= s.len() {
        -1
    } else if s[i] is None {
        i
    } else {
        first_free(s, i + 1)
    }
}

/// `me` takes the entry in slot `j` of its queue: the slot is emptied, its own wait ends, the
/// sender's pending send is cleared and the sender is unblocked. Gives the new table and the
/// message.
pub open spec fn take_entry(v: PmView, me: usize, j: int) -> (PmView, Message) {
    let mi = v.ipc(me);
    let e = mi.senders@[j]->Some_0;
    let v1 = v.with_ipc(
        me,
        Ipc { senders: spec_array_update(mi.senders, j, None), waiting_for: None, ..mi },
    );
    let v2 = v1.with_ipc(e.src, Ipc { pending_send: None, ..v1.ipc(e.src) });
    (v2.unblocked(e.src), e.msg)
}

/// `send(dst, msg)` by the running process.
pub open spec fn send_spec(v: PmView, dst: usize, msg: Message) -> (PmView, Result<SendStatus, IpcError>) {
    let me = v.current;
    let d = v.ipc(dst);
    let m = v.ipc(me);
    let j = first_free(d.senders@, 0);
    if me == dst {
        (v, Err(IpcError::SelfSend))
    } else if pending_to(d.pending_send, me) {
        (v, Err(IpcError::DeadlockDetected))
    } else if v.state(dst) == State::Blocked && accepts(d.waiting_for, me) {
        (
            v.with_ipc(dst, Ipc { inbox: Some(msg), waiting_for: None, ..d }).unblocked(dst),
            Ok(SendStatus::Delivered),
        )
    } else if first_match(d.senders@, Src::Specific(me), 0) >= 0 {
        (v, Err(IpcError::DeadlockDetected))
    } else if j < 0 {
        (v, Err(IpcError::SendQueueFull))
    } else {
        let v1 = v.with_ipc(
            dst,
            Ipc { senders: spec_array_update(d.senders, j, Some(SenderEntry { src: me, msg })), ..d },
        );
        if m.pending_send is Some {
            (v1, Err(IpcError::DeadlockDetected))
        } else {
            (
                v1.with_ipc(me, Ipc { pending_send: Some((dst, msg)), ..m }).blocked_current(),
                Ok(SendStatus::Queued),
            )
        }
    }
}

/// `finish_send()` by a sender that queued and runs again.
pub open spec fn finish_send_spec(v: PmView) -> (PmView, Result<(), IpcError>) {
    let me = v.current;
    let m = v.ipc(me);
    if m.pending_send is Some {
        (v.with_ipc(me, Ipc { pending_send: None, ..m }), Err(IpcError::UnexpectedState))
    } else {
        (v, Ok(()))
    }
}

/// `recv(src)` by the running process.
pub open spec fn recv_spec(v: PmView, src: Src) -> (PmView, Result<RecvStatus, IpcError>) {
    let me = v.current;
    let m = v.ipc(me);
    let j = first_match(m.senders@, src, 0);
    if j >= 0 {
        let (v2, msg) = take_entry(v, me, j);
        (v2, Ok(RecvStatus::Received(msg)))
    } else if m.inbox is Some {
        (v.with_ipc(me, Ipc { inbox: None, ..m }), Ok(RecvStatus::Received(m.inbox->Some_0)))
    } else if m.waiting_for is Some {
        (v, Err(IpcError::DeadlockDetected))
    } else {
        (v.with_ipc(me, Ipc { waiting_for: Some(src), ..m }).blocked_current(), Ok(RecvStatus::Waiting))
    }
}

/// `finish_recv()` by a receiver that waited and runs again.
pub open spec fn finish_recv_spec(v: PmView) -> (PmView, Result<Message, IpcError>) {
    let me = v.current;
    let m = v.ipc(me);
    if m.inbox is Some {
        (v.with_ipc(me, Ipc { inbox: None, waiting_for: None, ..m }), Ok(m.inbox->Some_0))
    } else if m.waiting_for is Some && first_match(m.senders@, m.waiting_for->Some_0, 0) >= 0 {
        let (v2, msg) = take_entry(v, me, first_match(m.senders@, m.waiting_for->Some_0, 0));
        (v2, Ok(msg))
    } else {
        (v, Err(IpcError::UnexpectedState))
    }
}

/// Takes the entry in slot `j` of `me`'s queue and releases its sender.
fn take_entry_at(pm: &mut ProcessManager, me: usize, j: usize) -> (msg: Message)
    requires
        old(pm).wf(),
        me == old(pm)@.current,
        j < PROCS_MAX,
        old(pm)@.ipc(me).senders@[j as int] is Some,
    ensures
        final(pm).wf(),
        (final(pm)@, msg) == take_entry(old(pm)@, me, j as int),
{
    let mut mi = pm.ipc(me);
    let e = mi.senders[j].unwrap();
    proof {
        assert(old(pm)@.procs[me as int].ipc.wf(me));
    }
    mi.senders[j] = None;
    mi.waiting_for = None;
    pm.set_ipc(me, mi);
    let mut si = pm.ipc(e.src);
    si.pending_send = None;
    pm.set_ipc(e.src, si);
    pm.unblock(e.src);
    e.msg
}

impl Ipc {
    /// Sends `msg` from the running process to `dst`.
    ///
    /// Fails with `SelfSend` when `dst` is the sender, and with `DeadlockDetected` when `dst` is
    /// itself waiting to send to the sender, which would leave both blocked on each other. When `dst` is Blocked waiting for this sender
    /// (or for anyone), the message goes to its inbox, `dst` is unblocked and the result is
    /// `Delivered`. Otherwise an entry is queued in the first free slot of `dst`'s senders
    /// (`DeadlockDetected` if one from this sender is already there, `SendQueueFull` if no
    /// slot is free), the send is recorded as pending, and the sender is Blocked: `Queued`.
    pub fn send(pm: &mut ProcessManager, dst: usize, msg: Message) -> (r: Result<SendStatus, IpcError>)
        requires
            old(pm).wf(),
            dst < PROCS_MAX,
        ensures
            final(pm).wf(),
            (final(pm)@, r) == send_spec(old(pm)@, dst, msg),
            kernel_invariant(old(pm)@) && ipc_caller_ok(old(pm)@) ==> kernel_invariant(final(pm)@),
    {
        proof {
            if kernel_invariant(old(pm)@) && ipc_caller_ok(old(pm)@) {
                lemma_send_keeps_invariant(old(pm)@, dst, msg);
            }
        }
        let me = pm.current_pid();
        if me == dst {
            return Err(IpcError::SelfSend);
        }
        let mut d = pm.ipc(dst);
        let mut m = pm.ipc(me);
        if let Some((pending_dst, _)) = d.pending_send {
            if pending_dst == me {
                return Err(IpcError::DeadlockDetected);
            }
        }
        if pm.state(dst) == State::Blocked {
            if let Some(waiting) = d.waiting_for {
                let wanted = match waiting {
                    Src::Specific(p) => p == me,
                    Src::Any => true,
                };
                if wanted {
                    d.inbox = Some(msg);
                    d.waiting_for = None;
                    pm.set_ipc(dst, d);
                    pm.unblock(dst);
                    return Ok(SendStatus::Delivered);
                }
            }
        }
        if find_sender(&d.senders, Src::Specific(me)).is_some() {
            return Err(IpcError::DeadlockDetected);
        }
        match find_free(&d.senders) {
            Some(j) => {
                proof {
                    lemma_first_free_bounds(d.senders@, 0);
                }
                d.senders[j] = Some(SenderEntry { src: me, msg });
                pm.set_ipc(dst, d);
            },
            None => {
                return Err(IpcError::SendQueueFull);
            },
        }
        if m.pending_send.is_some() {
            return Err(IpcError::DeadlockDetected);
        }
        m.pending_send = Some((dst, msg));
        pm.set_ipc(me, m);
        pm.block_current();
        Ok(SendStatus::Queued)
    }

    /// Completes a `Queued` send once the sender runs again: `Ok` if a receiver took the
    /// message; otherwise the pending send is dropped and the result is `UnexpectedState`.
    pub fn finish_send(pm: &mut ProcessManager) -> (r: Result<(), IpcError>)
        requires
            old(pm).wf(),
        ensures
            final(pm).wf(),
            (final(pm)@, r) == finish_send_spec(old(pm)@),
            kernel_invariant(old(pm)@) && ipc_caller_ok(old(pm)@) ==> kernel_invariant(final(pm)@),
    {
        proof {
            if kernel_invariant(old(pm)@) && ipc_caller_ok(old(pm)@) {
                lemma_finish_send_keeps_invariant(old(pm)@);
            }
        }
        let me = pm.current_pid();
        let mut m = pm.ipc(me);
        if m.pending_send.is_some() {
            m.pending_send = None;
            pm.set_ipc(me, m);
            return Err(IpcError::UnexpectedState);
        }
        Ok(())
    }

    /// Receives a message for the running process from `src`.
    ///
    /// Takes the first queued entry that `src` accepts (releasing its sender); failing that,
    /// the message in the inbox. With neither, fails with `DeadlockDetected` if the process is
    /// already waiting, and otherwise records the wait and blocks the process: `Waiting`.
    pub fn recv(pm: &mut ProcessManager, src: Src) -> (r: Result<RecvStatus, IpcError>)
        requires
            old(pm).wf(),
        ensures
            final(pm).wf(),
            (final(pm)@, r) == recv_spec(old(pm)@, src),
            kernel_invariant(old(pm)@) && ipc_caller_ok(old(pm)@) ==> kernel_invariant(final(pm)@),
    {
        proof {
            if kernel_invariant(old(pm)@) && ipc_caller_ok(old(pm)@) {
                lemma_recv_keeps_invariant(old(pm)@, src);
            }
        }
        let me = pm.current_pid();
        let mut m = pm.ipc(me);
        if let Some(j) = find_sender(&m.senders, src) {
            proof {
                lemma_first_match_bounds(m.senders@, src, 0);
            }
            let msg = take_entry_at(pm, me, j);
            return Ok(RecvStatus::Received(msg));
        }
        if let Some(msg) = m.inbox {
            m.inbox = None;
            pm.set_ipc(me, m);
            return Ok(RecvStatus::Received(msg));
        }
        if m.waiting_for.is_some() {
            return Err(IpcError::DeadlockDetected);
        }
        m.waiting_for = Some(src);
        pm.set_ipc(me, m);
        pm.block_current();
        Ok(RecvStatus::Waiting)
    }

    /// Completes a `Waiting` receive once the receiver runs again: the message a sender put in
    /// the inbox, else the first queued entry that the recorded filter accepts, else
    /// `UnexpectedState`.
    pub fn finish_recv(pm: &mut ProcessManager) -> (r: Result<Message, IpcError>)
        requires
            old(pm).wf(),
        ensures
            final(pm).wf(),
            (final(pm)@, r) == finish_recv_spec(old(pm)@),
            kernel_invariant(old(pm)@) && ipc_caller_ok(old(pm)@) ==> kernel_invariant(final(pm)@),
    {
        proof {
            if kernel_invariant(old(pm)@) && ipc_caller_ok(old(pm)@) {
                lemma_finish_recv_keeps_invariant(old(pm)@);
            }
        }
        let me = pm.current_pid();
        let mut m = pm.ipc(me);
        if let Some(msg) = m.inbox {
            m.inbox = None;
            m.waiting_for = None;
            pm.set_ipc(me, m);
            return Ok(msg);
        }
        if let Some(filter) = m.waiting_for {
            if let Some(j) = find_sender(&m.senders, filter) {
                proof {
                    lemma_first_match_bounds(m.senders@, filter, 0);
                }
                let msg = take_entry_at(pm, me, j);
                return Ok(msg);
            }
        }
        Err(IpcError::UnexpectedState)
    }
}

pub(crate) proof fn lemma_first_match_bounds(s: Seq<Option<SenderEntry>>, src: Src, i: int)
    ensures
        first_match(s, src, i) == -1 || (i <= first_match(s, src, i) < s.len() && entry_matches(
            s[first_match(s, src, i)],
            src,
        )),
    decreases s.len() - i,
{
    if 0 <= i < s.len() && !entry_matches(s[i], src) {
        lemma_first_match_bounds(s, src, i + 1);
    }
}

pub(crate) proof fn lemma_first_free_bounds(s: Seq<Option<SenderEntry>>, i: int)
    ensures
        first_free(s, i) == -1 || (i <= first_free(s, i) < s.len() && s[first_free(s, i)] is None),
    decreases s.len() - i,
{
    if 0 <= i < s.len() && s[i] is Some {
        lemma_first_free_bounds(s, i + 1);
    }
}

fn slot_matches(e: Option<SenderEntry>, src: Src) -> (r: bool)
    ensures
        r == entry_matches(e, src),
{
    match e {
        Some(en) => match src {
            Src::Specific(p) => en.src == p,
            Src::Any => true,
        },
        None => false,
    }
}

/// First slot of `senders` that `src` accepts.
fn find_sender(senders: &[Option<SenderEntry>; PROCS_MAX], src: Src) -> (r: Option<usize>)
    ensures
        first_match(senders@, src, 0) >= 0 ==> r == Some(first_match(senders@, src, 0) as usize),
        first_match(senders@, src, 0) < 0 ==> r is None,
{
    let mut i: usize = 0;
    while i < PROCS_MAX
        invariant
            0 <= i <= PROCS_MAX,
            senders@.len() == PROCS_MAX,
            first_match(senders@, src, 0) == first_match(senders@, src, i as int),
        decreases PROCS_MAX - i,
    {
        if slot_matches(senders[i], src) {
            return Some(i);
        }
        i = i + 1;
    }
    None
}

/// First empty slot of `senders`.
fn find_free(senders: &[Option<SenderEntry>; PROCS_MAX]) -> (r: Option<usize>)
    ensures
        first_free(senders@, 0) >= 0 ==> r == Some(first_free(senders@, 0) as usize),
        first_free(senders@, 0) < 0 ==> r is None,
{
    let mut i: usize = 0;
    while i < PROCS_MAX
        invariant
            0 <= i <= PROCS_MAX,
            senders@.len() == PROCS_MAX,
            first_free(senders@, 0) == first_free(senders@, i as int),
        decreases PROCS_MAX - i,
    {
        if senders[i].is_none() {
            return Some(i);
        }
        i = i + 1;
    }
    None
}

} // verus!
