use vstd::prelude::*;

use crate::constants::{IDLE_PID, KERNEL_STACK_SIZE, PAGE_SIZE, PROCS_MAX, SATP_SV32};
use crate::invariants::{
    kernel_invariant, lemma_blocked_current_sched, lemma_switch_keeps_invariant, lemma_unblocked_sched,
};
use crate::addr::Addr;
use crate::ipc::Ipc;
use crate::memory::PhysMemory;

verus! {

/// Scheduling state of a process slot.
#[derive(Clone, Copy, Debug, PartialEq, Eq, Structural)]
pub enum State {
    Unused,
    Blocked,
    Runnable,
}

/// Callee-saved registers kept across a cooperative switch, in the order `ra, sp, s0..s11`.
#[derive(Clone, Copy, Debug)]
pub struct Context {
    pub ra: usize,
    pub sp: usize,
    pub s0: usize,
    pub s1: usize,
    pub s2: usize,
    pub s3: usize,
    pub s4: usize,
    pub s5: usize,
    pub s6: usize,
    pub s7: usize,
    pub s8: usize,
    pub s9: usize,
    pub s10: usize,
    pub s11: usize,
}

impl Context {
    pub open spec fn is_zero(&self) -> bool {
        &&& self.ra == 0 && self.sp == 0
        &&& self.s0 == 0 && self.s1 == 0 && self.s2 == 0 && self.s3 == 0
        &&& self.s4 == 0 && self.s5 == 0 && self.s6 == 0 && self.s7 == 0
        &&& self.s8 == 0 && self.s9 == 0 && self.s10 == 0 && self.s11 == 0
    }

    pub fn new() -> (r: Context)
        ensures
            r.is_zero(),
    {
        Context {
            ra: 0,
            sp: 0,
            s0: 0,
            s1: 0,
            s2: 0,
            s3: 0,
            s4: 0,
            s5: 0,
            s6: 0,
            s7: 0,
            s8: 0,
            s9: 0,
            s10: 0,
            s11: 0,
        }
    }
}

/// One slot of the process table.
#[derive(Clone, Copy, Debug)]
pub struct Process {
    pub pid: usize,
    pub state: State,
    /// Physical address of the root Sv32 table; zero until the slot is set up.
    pub page_table: usize,
    pub context: Context,
    /// Word 0 parks the interrupted `sp` on trap entry; word 1 is the top of the kernel stack.
    pub sscratch: [usize; 2],
    pub ipc: Ipc,
}

impl Process {
    pub open spec fn is_fresh(&self) -> bool {
        &&& self.pid == 0
        &&& self.state == State::Unused
        &&& self.page_table == 0
        &&& self.context.is_zero()
        &&& self.sscratch@ == seq![0usize, 0usize]
        &&& self.ipc.is_clear()
    }

    pub fn new() -> (r: Process)
        ensures
            r.is_fresh(),
    {
        Process {
            pid: 0,
            state: State::Unused,
            page_table: 0,
            context: Context::new(),
            sscratch: [0, 0],
            ipc: Ipc::new(),
        }
    }
}

/// The ready queue after `pid` is put at its tail. The idle process is never queued.
pub open spec fn enqueued(q: Seq<usize>, pid: usize) -> Seq<usize> {
    if pid == IDLE_PID {
        q
    } else {
        q.push(pid)
    }
}

/// FIFO of runnable pids in a ring of `PROCS_MAX` slots.
pub struct RunQueue {
    queue: [usize; PROCS_MAX],
    head: usize,
    tail: usize,
}

impl View for RunQueue {
    type V = Seq<usize>;

    closed spec fn view(&self) -> Seq<usize> {
        Seq::new(
            ((self.tail + PROCS_MAX - self.head) % (PROCS_MAX as int)) as nat,
            |i: int| self.queue@[(self.head + i) % (PROCS_MAX as int)],
        )
    }
}

impl RunQueue {
    pub closed spec fn wf(&self) -> bool {
        &&& self.head < PROCS_MAX
        &&& self.tail < PROCS_MAX
        &&& forall|i: int| 0 <= i < PROCS_MAX ==> self.queue@[i] < PROCS_MAX
    }

    pub proof fn lemma_bounded(&self)
        requires
            self.wf(),
        ensures
            self@.len() < PROCS_MAX,
            forall|i: int| 0 <= i < self@.len() ==> self@[i] < PROCS_MAX,
    {
    }

    pub fn new() -> (r: RunQueue)
        ensures
            r.wf(),
            r@ == Seq::<usize>::empty(),
    {
        let r = RunQueue { queue: [0; PROCS_MAX], head: 0, tail: 0 };
        assert(r@ =~= Seq::<usize>::empty());
        r
    }

    /// Puts `pid` at the tail; the ring holds at most `PROCS_MAX - 1` pids.
    pub fn enqueue(&mut self, pid: usize)
        requires
            old(self).wf(),
            pid < PROCS_MAX,
            pid == IDLE_PID || old(self)@.len() + 1 < PROCS_MAX,
        ensures
            final(self).wf(),
            final(self)@ == enqueued(old(self)@, pid),
    {
        if pid == IDLE_PID {
            return;
        }
        let tail = self.tail;
        let ghost len = old(self)@.len();
        let ghost head = self.head as int;
        assert(tail as int == (head + len) % (PROCS_MAX as int));
        self.queue[tail] = pid;
        self.tail = (tail + 1) % PROCS_MAX;
        proof {
            assert(self@.len() == len + 1);
            assert forall|i: int| 0 <= i < len implies self@[i] == old(self)@[i] by {
                assert((head + i) % (PROCS_MAX as int) != tail as int);
            }
            assert(self@[len as int] == pid);
        }
        assert(self@ =~= enqueued(old(self)@, pid));
    }

    pub fn dequeue(&mut self) -> (r: Option<usize>)
        requires
            old(self).wf(),
        ensures
            final(self).wf(),
            old(self)@.len() == 0 ==> r is None && final(self)@ == old(self)@,
            old(self)@.len() > 0 ==> r == Some(old(self)@[0]) && final(self)@ == old(self)@.drop_first(),
    {
        if self.head == self.tail {
            None
        } else {
            let head = self.head;
            let pid = self.queue[head];
            self.head = (head + 1) % PROCS_MAX;
            assert(self@ =~= old(self)@.drop_first());
            Some(pid)
        }
    }
}


/// What the hardware side of a switch must do: save `prev`'s context, load `next`'s, and run
/// with `satp` as the address-translation register.
#[derive(Clone, Copy, Debug, PartialEq, Eq, Structural)]
pub struct Switch {
    pub prev: usize,
    pub next: usize,
    pub satp: usize,
}

/// `satp` value that selects Sv32 translation rooted at `page_table`.
pub open spec fn satp_for(page_table: usize) -> usize {
    SATP_SV32 | (page_table / PAGE_SIZE)
}

/// Top of the kernel stack of slot `pid`; the stacks lie one after another from `stack_base`.
pub open spec fn stack_top(stack_base: usize, pid: usize) -> int {
    stack_base + (pid + 1) * KERNEL_STACK_SIZE
}

/// The process table as a mathematical value.
#[verifier::ext_equal]
pub struct PmView {
    pub procs: Seq<Process>,
    pub current: usize,
    pub run_queue: Seq<usize>,
    pub stack_base: usize,
}

impl PmView {
    pub open spec fn wf(self) -> bool {
        &&& self.procs.len() == PROCS_MAX
        &&& self.current < PROCS_MAX
        &&& self.run_queue.len() < PROCS_MAX
        &&& forall|i: int| 0 <= i < self.run_queue.len() ==> self.run_queue[i] < PROCS_MAX
        &&& self.stack_base + PROCS_MAX * KERNEL_STACK_SIZE <= usize::MAX
        &&& forall|p: int| 0 <= p < PROCS_MAX ==> (#[trigger] self.procs[p]).ipc.wf(p as usize)
    }

    pub open spec fn state(self, pid: usize) -> State {
        self.procs[pid as int].state
    }

    pub open spec fn ipc(self, pid: usize) -> Ipc {
        self.procs[pid as int].ipc
    }

    /// The ready queue holds each pid at most once, never idle, never the running process,
    /// and only Runnable processes.
    pub open spec fn sched_invariant(self) -> bool {
        &&& self.run_queue.no_duplicates()
        &&& !self.run_queue.contains(self.current)
        &&& forall|i: int|
            0 <= i < self.run_queue.len() ==> #[trigger] self.run_queue[i] != IDLE_PID
                && self.state(self.run_queue[i]) == State::Runnable
        &&& forall|p: usize|
            p < PROCS_MAX && p != IDLE_PID && p != self.current && #[trigger] self.state(p)
                == State::Runnable ==> self.run_queue.contains(p)
        &&& self.current != IDLE_PID ==> self.state(self.current) != State::Unused
    }

    pub open spec fn with_state(self, pid: usize, s: State) -> PmView {
        PmView { procs: self.procs.update(pid as int, Process { state: s, ..self.procs[pid as int] }), ..self }
    }

    pub open spec fn with_ipc(self, pid: usize, ipc: Ipc) -> PmView {
        PmView { procs: self.procs.update(pid as int, Process { ipc: ipc, ..self.procs[pid as int] }), ..self }
    }

    /// `unblock(pid)`: a Blocked process other than idle becomes Runnable and is queued.
    pub open spec fn unblocked(self, pid: usize) -> PmView {
        if pid == IDLE_PID || self.state(pid) != State::Blocked {
            self
        } else {
            PmView { run_queue: enqueued(self.run_queue, pid), ..self.with_state(pid, State::Runnable) }
        }
    }

    /// `block_current()`: a Runnable running process becomes Blocked; it does not yield.
    pub open spec fn blocked_current(self) -> PmView {
        if self.state(self.current) == State::Runnable {
            self.with_state(self.current, State::Blocked)
        } else {
            self
        }
    }

    /// The scheduler's pick: the head of the queue, else the running process if still
    /// Runnable, else idle.
    pub open spec fn scheduled(self) -> (PmView, usize) {
        if self.run_queue.len() > 0 {
            (PmView { run_queue: self.run_queue.drop_first(), ..self }, self.run_queue[0])
        } else if self.state(self.current) == State::Runnable {
            (self, self.current)
        } else {
            (self, IDLE_PID)
        }
    }

    /// Slot `pid` set up as a new Runnable process entering at `pc` with root table
    /// `page_table`: its stack pointer and `sscratch[1]` at the top of its kernel stack, its IPC
    /// state cleared, and the rest of its context as it was.
    pub open spec fn slot_started(self, new: Process, pid: usize, pc: usize, page_table: usize) -> bool {
        let top = stack_top(self.stack_base, pid);
        let old = self.procs[pid as int];
        &&& new.pid == pid
        &&& new.state == State::Runnable
        &&& new.page_table == page_table
        &&& new.context == Context { ra: pc, sp: top as usize, ..old.context }
        &&& new.sscratch@ == seq![0usize, top as usize]
        &&& new.ipc.is_clear()
    }

    /// `create_process` put the process in slot `pid` of `new` and queued it.
    pub open spec fn created(self, new: PmView, pid: usize, pc: usize, page_table: usize) -> bool {
        &&& new.current == self.current
        &&& new.stack_base == self.stack_base
        &&& new.run_queue == enqueued(self.run_queue, pid)
        &&& new.procs.len() == self.procs.len()
        &&& forall|q: int| 0 <= q < self.procs.len() && q != pid ==> new.procs[q] == self.procs[q]
        &&& self.slot_started(new.procs[pid as int], pid, pc, page_table)
    }

    /// Lowest Unused slot from `i` on.
    pub open spec fn first_unused(self, i: int) -> Option<usize>
        decreases PROCS_MAX - i,
    {
        if i < 0 || i >= PROCS_MAX {
            None
        } else if self.state(i as usize) == State::Unused {
            Some(i as usize)
        } else {
            self.first_unused(i + 1)
        }
    }

    /// Every Unused slot has cleared IPC state: nobody has sent to a process not yet created.
    pub open spec fn unused_slots_clear(self) -> bool {
        forall|p: usize| p < PROCS_MAX && #[trigger] self.state(p) == State::Unused ==> self.ipc(p).is_clear()
    }

    /// `switch()`: pick the next process; when it is another one, queue the running process
    /// if it is still Runnable and make the pick current.
    pub open spec fn switched(self) -> (PmView, Option<Switch>) {
        let (s, next) = self.scheduled();
        if next == self.current {
            (s, None)
        } else {
            let q = if s.state(self.current) == State::Runnable {
                enqueued(s.run_queue, self.current)
            } else {
                s.run_queue
            };
            (
                PmView { run_queue: q, current: next, ..s },
                Some(Switch { prev: self.current, next, satp: satp_for(s.procs[next as int].page_table) }),
            )
        }
    }
}

/// The process table, the running pid and the ready queue.
pub struct ProcessManager {
    procs: [Process; PROCS_MAX],
    current: usize,
    run_queue: RunQueue,
    stack_base: usize,
}

impl View for ProcessManager {
    type V = PmView;

    closed spec fn view(&self) -> PmView {
        PmView {
            procs: self.procs@,
            current: self.current,
            run_queue: self.run_queue@,
            stack_base: self.stack_base,
        }
    }
}

impl ProcessManager {
    pub closed spec fn queue_wf(&self) -> bool {
        self.run_queue.wf()
    }

    pub open spec fn wf(&self) -> bool {
        self.queue_wf() && self@.wf() && self@.sched_invariant()
    }

    /// A table of fresh slots with idle current; kernel stacks start at `stack_base`.
    pub fn new(stack_base: usize) -> (r: ProcessManager)
        requires
            stack_base + PROCS_MAX * KERNEL_STACK_SIZE <= usize::MAX,
        ensures
            r.wf(),
            r@.current == IDLE_PID,
            r@.run_queue == Seq::<usize>::empty(),
            r@.stack_base == stack_base,
            forall|i: int| 0 <= i < PROCS_MAX ==> (#[trigger] r@.procs[i]).is_fresh(),
            kernel_invariant(r@),
            r@.unused_slots_clear(),
    {
        let p = Process::new();
        let r = ProcessManager {
            procs: [p; PROCS_MAX],
            current: IDLE_PID,
            run_queue: RunQueue::new(),
            stack_base,
        };
        proof {
            r.run_queue.lemma_bounded();
            crate::invariants::lemma_fresh_table_invariant(r@);
        }
        r
    }

    pub fn current_pid(&self) -> (r: usize)
        requires
            self.wf(),
        ensures
            r == self@.current,
    {
        self.current
    }

    pub fn state(&self, pid: usize) -> (r: State)
        requires
            self.wf(),
            pid < PROCS_MAX,
        ensures
            r == self@.state(pid),
    {
        self.procs[pid].state
    }

    pub fn process(&self, pid: usize) -> (r: Process)
        requires
            self.wf(),
            pid < PROCS_MAX,
        ensures
            r == self@.procs[pid as int],
    {
        self.procs[pid]
    }

    pub fn ipc(&self, pid: usize) -> (r: Ipc)
        requires
            self.wf(),
            pid < PROCS_MAX,
        ensures
            r == self@.ipc(pid),
    {
        self.procs[pid].ipc
    }

    pub(crate) fn set_ipc(&mut self, pid: usize, ipc: Ipc)
        requires
            old(self).wf(),
            pid < PROCS_MAX,
            ipc.wf(pid),
        ensures
            final(self).wf(),
            final(self)@ == old(self)@.with_ipc(pid, ipc),
    {
        proof {
            crate::invariants::lemma_with_ipc_sched(old(self)@, pid, ipc);
        }
        self.procs[pid].ipc = ipc;
        assert(self@ =~= old(self)@.with_ipc(pid, ipc));
    }

    /// Marks the running process Blocked if it is Runnable. The caller yields next.
    pub fn block_current(&mut self)
        requires
            old(self).wf(),
        ensures
            final(self).wf(),
            final(self)@ == old(self)@.blocked_current(),
    {
        proof {
            lemma_blocked_current_sched(old(self)@);
        }
        let current = self.current;
        if self.procs[current].state == State::Runnable {
            self.procs[current].state = State::Blocked;
        }
        assert(self@ =~= old(self)@.blocked_current());
    }

    /// Makes a Blocked process Runnable and queues it; idle and non-Blocked pids are left alone.
    /// The running process cannot unblock itself: it is not in the ready queue while it runs,
    /// and queueing it would put it there twice once it yields.
    pub fn unblock(&mut self, pid: usize)
        requires
            old(self).wf(),
            pid < PROCS_MAX,
            pid != old(self)@.current || old(self)@.state(pid) != State::Blocked,
        ensures
            final(self).wf(),
            final(self)@ == old(self)@.unblocked(pid),
    {
        proof {
            lemma_unblocked_sched(old(self)@, pid);
        }
        if pid == IDLE_PID {
            return;
        }
        if self.procs[pid].state == State::Blocked {
            self.procs[pid].state = State::Runnable;
            self.run_queue.enqueue(pid);
        }
        proof {
            self.run_queue.lemma_bounded();
        }
        assert(self@ =~= old(self)@.unblocked(pid));
    }

    /// Sets up the idle process in slot 0: a root table that identity-maps the kernel, state
    /// Runnable, `sscratch[1]` at the top of its stack, everything else fresh.
    pub fn init(&mut self, mem: &mut PhysMemory)
        requires
            old(self).wf(),
            old(mem).wf(),
            old(mem).free_pages() >= old(mem).kernel_tables_needed() + 1,
        ensures
            final(self).wf(),
            final(mem).wf(),
            final(mem).same_layout(old(mem)),
            final(mem).is_root(old(mem).next_page()),
            !old(mem).is_root(old(mem).next_page()),
            final(mem).maps_kernel(old(mem).next_page()),
            forall|x: usize| #[trigger] final(mem).is_root(x) == (old(mem).is_root(x) || x == old(mem).next_page()),
            forall|r: usize, va: usize|
                old(mem).is_root(r) ==> #[trigger] final(mem).translate(r, va) == old(mem).translate(r, va),
            final(self)@.current == old(self)@.current,
            final(self)@.run_queue == old(self)@.run_queue,
            final(self)@.stack_base == old(self)@.stack_base,
            forall|q: int| 0 <= q < PROCS_MAX && q != IDLE_PID ==> final(self)@.procs[q] == old(self)@.procs[q],
            ({
                let p = final(self)@.procs[IDLE_PID as int];
                let top = stack_top(old(self)@.stack_base, IDLE_PID) as usize;
                &&& p.pid == IDLE_PID && p.state == State::Runnable
                &&& p.page_table == old(mem).next_page()
                &&& p.context.is_zero()
                &&& p.sscratch@ == seq![0usize, top]
                &&& p.ipc.is_clear()
            }),
            kernel_invariant(old(self)@) && old(self)@.ipc(IDLE_PID).is_clear() ==> kernel_invariant(final(self)@),
    {
        proof {
            mem.lemma_kernel_tables_needed();
        }
        let ghost m0 = *mem;
        let page_table = mem.new_page_table();
        let ghost m1 = *mem;
        mem.map_kernel(page_table);
        proof {
            assert forall|r: usize, va: usize| old(mem).is_root(r) implies #[trigger] mem.translate(r, va)
                == old(mem).translate(r, va) by {
                assert(m1.is_root(r));
                assert(m1.translate(r, va) == m0.translate(r, va));
            }
        }
        let mut idle = Process::new();
        let top = self.stack_base + KERNEL_STACK_SIZE;
        idle.pid = IDLE_PID;
        idle.state = State::Runnable;
        idle.page_table = page_table.as_usize();
        idle.sscratch = [0, top];
        self.procs[IDLE_PID] = idle;
        proof {
            assert(idle.sscratch@ =~= seq![0usize, top]);
            crate::invariants::lemma_slot_reset_sched(old(self)@, self@, IDLE_PID);
            if kernel_invariant(old(self)@) && old(self)@.ipc(IDLE_PID).is_clear() {
                crate::invariants::lemma_slot_reset_keeps_invariant(old(self)@, self@, IDLE_PID);
            }
        }
    }

    /// Creates a process entering at `pc` in the lowest Unused slot: a root table that
    /// identity-maps the kernel, state Runnable, stack pointer and `sscratch[1]` at the top of
    /// its kernel stack, IPC state cleared; the pid is queued and returned. `None` when every
    /// slot is in use.
    pub fn create_process(&mut self, mem: &mut PhysMemory, pc: usize) -> (r: Option<usize>)
        requires
            old(self).wf(),
            old(mem).wf(),
            old(self)@.first_unused(0) is Some ==> old(mem).free_pages() >= old(mem).kernel_tables_needed() + 1,
        ensures
            final(self).wf(),
            final(mem).wf(),
            r == old(self)@.first_unused(0),
            r is None ==> final(self)@ == old(self)@ && *final(mem) == *old(mem),
            r is Some ==> {
                let pid = r->Some_0;
                &&& old(self)@.created(final(self)@, pid, pc, old(mem).next_page())
                &&& final(mem).same_layout(old(mem))
                &&& final(mem).is_root(old(mem).next_page())
                &&& !old(mem).is_root(old(mem).next_page())
                &&& final(mem).maps_kernel(old(mem).next_page())
                &&& forall|x: usize| #[trigger] final(mem).is_root(x) == (old(mem).is_root(x) || x == old(mem).next_page())
                &&& forall|r: usize, va: usize|
                    old(mem).is_root(r) ==> #[trigger] final(mem).translate(r, va) == old(mem).translate(r, va)
            },
            kernel_invariant(old(self)@) && old(self)@.unused_slots_clear() ==> kernel_invariant(final(self)@)
                && final(self)@.unused_slots_clear(),
    {
        let mut idx: usize = 0;
        while idx < PROCS_MAX && self.procs[idx].state != State::Unused
            invariant
                0 <= idx <= PROCS_MAX,
                self.wf(),
                self@ == old(self)@,
                old(self)@.first_unused(0) == old(self)@.first_unused(idx as int),
            decreases PROCS_MAX - idx,
        {
            idx = idx + 1;
        }
        if idx == PROCS_MAX {
            return None;
        }
        proof {
            mem.lemma_kernel_tables_needed();
        }
        let ghost m0 = *mem;
        let page_table = mem.new_page_table();
        let ghost m1 = *mem;
        mem.map_kernel(page_table);
        proof {
            assert forall|r: usize, va: usize| old(mem).is_root(r) implies #[trigger] mem.translate(r, va)
                == old(mem).translate(r, va) by {
                assert(m1.is_root(r));
                assert(m1.translate(r, va) == m0.translate(r, va));
            }
        }
        let top = self.stack_base + (idx + 1) * KERNEL_STACK_SIZE;
        let mut p = self.procs[idx];
        p.pid = idx;
        p.state = State::Runnable;
        p.page_table = page_table.as_usize();
        p.context.ra = pc;
        p.context.sp = top;
        p.sscratch = [0, top];
        p.ipc = Ipc::new();
        self.procs[idx] = p;
        proof {
            crate::invariants::lemma_first_unused(old(self)@, 0);
            let q = old(self)@.run_queue;
            if idx != IDLE_PID {
                assert(!q.contains(idx)) by {
                    if q.contains(idx) {
                        let i = choose|i: int| 0 <= i < q.len() && q[i] == idx;
                        assert(old(self)@.state(q[i]) == State::Runnable);
                    }
                }
                crate::invariants::lemma_queue_room(q, idx);
            }
        }
        self.run_queue.enqueue(idx);
        proof {
            self.run_queue.lemma_bounded();
            assert(p.sscratch@ =~= seq![0usize, top]);
            assert(self@.procs == old(self)@.procs.update(idx as int, p));
            crate::invariants::lemma_created_sched(old(self)@, self@, idx, pc, page_table.value());
            if kernel_invariant(old(self)@) && old(self)@.unused_slots_clear() {
                crate::invariants::lemma_created_keeps_invariant(old(self)@, self@, idx, pc, page_table.value());
            }
        }
        Some(idx)
    }

    fn scheduler(&mut self) -> (next: usize)
        requires
            old(self).wf(),
        ensures
            final(self).queue_wf(),
            final(self)@.wf(),
            (final(self)@, next) == old(self)@.scheduled(),
    {
        let next = self.run_queue.dequeue();
        proof {
            self.run_queue.lemma_bounded();
        }
        if let Some(pid) = next {
            assert(self@ =~= old(self)@.scheduled().0);
            return pid;
        }
        let current = self.current;
        if self.procs[current].state == State::Runnable {
            return current;
        }
        IDLE_PID
    }

    /// Picks the next process and makes it current. Returns the switch to carry out, or
    /// `None` when the running process keeps the CPU.
    pub fn switch(&mut self) -> (r: Option<Switch>)
        requires
            old(self).wf(),
        ensures
            final(self).wf(),
            (final(self)@, r) == old(self)@.switched(),
            kernel_invariant(old(self)@) ==> kernel_invariant(final(self)@),
    {
        proof {
            crate::invariants::lemma_switched_sched(old(self)@);
            if kernel_invariant(old(self)@) {
                lemma_switch_keeps_invariant(old(self)@);
            }
        }
        let next = self.scheduler();
        let current = self.current;
        if next == current {
            return None;
        }
        proof {
            let q1 = self.run_queue@;
            if self@.state(current) == State::Runnable && current != IDLE_PID {
                assert(old(self)@.switched().0.run_queue == q1.push(current));
            }
        }
        if self.procs[current].state == State::Runnable {
            self.run_queue.enqueue(current);
        }
        self.current = next;
        proof {
            self.run_queue.lemma_bounded();
        }
        let satp = SATP_SV32 | (self.procs[next].page_table / PAGE_SIZE);
        assert(self@ =~= old(self)@.switched().0);
        Some(Switch { prev: current, next, satp })
    }
}

} // verus!
