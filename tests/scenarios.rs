use microkernel::ipc::{Ipc, IpcError, Message, RecvStatus, SendStatus, Src};
use microkernel::memory::PhysMemory;
use microkernel::process::{ProcessManager, State, Switch};
use microkernel::trap::{handle_trap, TrapAction, SCAUSE_SUPERVISOR_TIMER};

const KERNEL_BASE: usize = 0x8020_0000;
const FREE_RAM: usize = 0x8040_0000;
const FREE_RAM_END: usize = 0x8080_0000;
const STACKS: usize = 0x8010_0000;

/// Boots a kernel with `n` processes created after idle.
fn boot(n: usize) -> (ProcessManager, PhysMemory) {
    let mut mem = PhysMemory::new(KERNEL_BASE, FREE_RAM, FREE_RAM_END);
    let mut pm = ProcessManager::new(STACKS);
    pm.init(&mut mem);
    for i in 0..n {
        assert_eq!(pm.create_process(&mut mem, 0x1000 * (i + 1)), Some(i + 1));
    }
    (pm, mem)
}

/// Switches until `pid` runs.
fn run(pm: &mut ProcessManager, pid: usize) {
    for _ in 0..16 {
        if pm.current_pid() == pid {
            return;
        }
        pm.switch();
    }
    assert_eq!(pm.current_pid(), pid);
}

fn ipc_idle(pm: &ProcessManager, pid: usize) -> bool {
    let ipc = pm.ipc(pid);
    ipc.pending_send.is_none() && ipc.waiting_for.is_none() && ipc.inbox.is_none()
}

fn queued_entries(pm: &ProcessManager, pid: usize) -> usize {
    pm.ipc(pid).senders.iter().filter(|s| s.is_some()).count()
}

#[test]
fn ping_pong() {
    let (mut pm, _mem) = boot(2);
    run(&mut pm, 1);
    let r = Ipc::send(&mut pm, 2, Message::Data { a: 100, b: 200 });
    assert_eq!(r, Ok(SendStatus::Queued));
    assert_eq!(pm.state(1), State::Blocked);
    run(&mut pm, 2);
    match Ipc::recv(&mut pm, Src::Specific(1)) {
        Ok(RecvStatus::Received(Message::Data { a, b })) => assert_eq!((a, b), (100, 200)),
        other => panic!("unexpected {:?}", other),
    }
    assert_eq!(pm.state(1), State::Runnable);
    assert_eq!(Ipc::send(&mut pm, 1, Message::Ping), Ok(SendStatus::Queued));
    run(&mut pm, 1);
    assert_eq!(Ipc::finish_send(&mut pm), Ok(()));
    match Ipc::recv(&mut pm, Src::Specific(2)) {
        Ok(RecvStatus::Received(Message::Ping)) => {}
        other => panic!("unexpected {:?}", other),
    }
    run(&mut pm, 2);
    assert_eq!(Ipc::finish_send(&mut pm), Ok(()));
    assert_eq!(pm.state(1), State::Runnable);
    assert_eq!(pm.state(2), State::Runnable);
    assert!(ipc_idle(&pm, 1));
    assert!(ipc_idle(&pm, 2));
    assert_eq!(queued_entries(&pm, 1), 0);
    assert_eq!(queued_entries(&pm, 2), 0);
}

#[test]
fn queued_sender() {
    // B (pid 2) does not receive. A's send is queued in B's first free slot and A blocks: a
    // sender has exactly one send outstanding, so while B does not receive, A sends no more.
    let (mut pm, _mem) = boot(2);
    run(&mut pm, 1);
    assert_eq!(Ipc::send(&mut pm, 2, Message::Data { a: 1, b: 2 }), Ok(SendStatus::Queued));
    assert_eq!(queued_entries(&pm, 2), 1);
    assert_eq!(pm.ipc(2).senders[0].map(|e| e.src), Some(1));
    assert!(pm.ipc(2).inbox.is_none());
    assert_eq!(pm.state(1), State::Blocked);
    assert!(matches!(pm.ipc(1).pending_send, Some((2, Message::Data { a: 1, b: 2 }))));
    // B keeps the CPU: A is not scheduled while its send is queued
    run(&mut pm, 2);
    assert_eq!(pm.switch(), None);
    assert_eq!(pm.state(1), State::Blocked);
    // once B takes the message, A runs again and its send completes
    assert!(matches!(
        Ipc::recv(&mut pm, Src::Specific(1)),
        Ok(RecvStatus::Received(Message::Data { a: 1, b: 2 }))
    ));
    run(&mut pm, 1);
    assert_eq!(Ipc::finish_send(&mut pm), Ok(()));
    // the next send is queued again, alone in B's queue
    assert_eq!(Ipc::send(&mut pm, 2, Message::Data { a: 1, b: 2 }), Ok(SendStatus::Queued));
    assert_eq!(queued_entries(&pm, 2), 1);
}

#[test]
fn several_senders_queue_in_slot_order() {
    let (mut pm, _mem) = boot(4);
    for sender in [2usize, 3, 4] {
        run(&mut pm, sender);
        let r = Ipc::send(&mut pm, 1, Message::Data { a: sender, b: 0 });
        assert_eq!(r, Ok(SendStatus::Queued));
    }
    assert_eq!(queued_entries(&pm, 1), 3);
    run(&mut pm, 1);
    for expected in [2usize, 3, 4] {
        match Ipc::recv(&mut pm, Src::Any) {
            Ok(RecvStatus::Received(Message::Data { a, .. })) => assert_eq!(a, expected),
            other => panic!("unexpected {:?}", other),
        }
        assert_eq!(pm.state(expected), State::Runnable);
    }
    assert_eq!(queued_entries(&pm, 1), 0);
}

#[test]
fn fast_path_beats_queue() {
    let (mut pm, _mem) = boot(2);
    run(&mut pm, 2);
    assert!(matches!(Ipc::recv(&mut pm, Src::Any), Ok(RecvStatus::Waiting)));
    assert_eq!(pm.state(2), State::Blocked);
    run(&mut pm, 1);
    assert_eq!(Ipc::send(&mut pm, 2, Message::Ping), Ok(SendStatus::Delivered));
    assert!(pm.ipc(1).pending_send.is_none());
    assert_eq!(pm.state(1), State::Runnable);
    assert_eq!(queued_entries(&pm, 2), 0);
    run(&mut pm, 2);
    assert!(matches!(Ipc::finish_recv(&mut pm), Ok(Message::Ping)));
    assert!(ipc_idle(&pm, 2));
    assert_eq!(queued_entries(&pm, 2), 0);
}

#[test]
fn self_send_refused() {
    let (mut pm, _mem) = boot(2);
    run(&mut pm, 1);
    let before = pm.process(1);
    assert_eq!(Ipc::send(&mut pm, 1, Message::Ping), Err(IpcError::SelfSend));
    let after = pm.process(1);
    assert_eq!(after.state, before.state);
    assert!(ipc_idle(&pm, 1));
    assert_eq!(queued_entries(&pm, 1), 0);
    assert_eq!(pm.current_pid(), 1);
}

#[test]
fn symmetric_send() {
    // A (pid 1) sends to B and blocks; B's send back to A is refused, and nothing changes.
    let (mut pm, _mem) = boot(2);
    run(&mut pm, 1);
    assert_eq!(Ipc::send(&mut pm, 2, Message::Ping), Ok(SendStatus::Queued));
    run(&mut pm, 2);
    assert_eq!(Ipc::send(&mut pm, 1, Message::Ping), Err(IpcError::DeadlockDetected));
    assert_eq!(pm.state(1), State::Blocked);
    assert_eq!(pm.state(2), State::Runnable);
    assert_eq!(pm.current_pid(), 2);
    assert!(matches!(pm.ipc(1).pending_send, Some((2, Message::Ping))));
    assert!(pm.ipc(2).pending_send.is_none());
    assert_eq!(queued_entries(&pm, 1), 0);
    assert_eq!(queued_entries(&pm, 2), 1);
    assert!(pm.ipc(1).inbox.is_none());
    assert!(pm.ipc(2).inbox.is_none());
}

#[test]
fn timer_preemption() {
    let (mut pm, _mem) = boot(2);
    let mut ran = [false; 3];
    let mut now: u64 = 0;
    for _ in 0..4 {
        match handle_trap(&mut pm, SCAUSE_SUPERVISOR_TIMER, now) {
            TrapAction::Tick { timer, .. } => {
                assert_eq!(timer.a0 as u64, now + 100_000);
            }
            TrapAction::Fatal(_) => panic!("timer trap reported fatal"),
        }
        ran[pm.current_pid()] = true;
        now += 100_000;
    }
    assert!(ran[1] && ran[2]);
}

#[test]
fn unexpected_trap_is_fatal() {
    let (mut pm, _mem) = boot(1);
    let cur = pm.current_pid();
    assert_eq!(handle_trap(&mut pm, 2, 0), TrapAction::Fatal(2));
    assert_eq!(pm.current_pid(), cur);
}

#[test]
fn switch_round_robin() {
    let (mut pm, _mem) = boot(2);
    let s = pm.switch().expect("a switch");
    assert_eq!((s.prev, s.next), (0, 1));
    assert_eq!(s.satp, 0x8000_0000 | (pm.process(1).page_table / 4096));
    let s: Switch = pm.switch().expect("a switch");
    assert_eq!((s.prev, s.next), (1, 2));
    let s = pm.switch().expect("a switch");
    assert_eq!((s.prev, s.next), (2, 1));
}

#[test]
fn switch_keeps_lone_runner() {
    let (mut pm, _mem) = boot(1);
    assert!(pm.switch().is_some());
    assert_eq!(pm.current_pid(), 1);
    assert_eq!(pm.switch(), None);
    pm.block_current();
    let s = pm.switch().expect("a switch");
    assert_eq!((s.prev, s.next), (1, 0));
}

#[test]
fn unblock_and_block_are_idempotent() {
    let (mut pm, _mem) = boot(2);
    run(&mut pm, 1);
    pm.unblock(2);
    pm.unblock(2);
    assert_eq!(pm.state(2), State::Runnable);
    pm.block_current();
    pm.block_current();
    assert_eq!(pm.state(1), State::Blocked);
    pm.switch();
    assert_eq!(pm.current_pid(), 2);
    assert_eq!(pm.switch(), None);
    pm.unblock(1);
    assert_eq!(pm.state(1), State::Runnable);
    assert_eq!(pm.switch().map(|s| s.next), Some(1));
}

#[test]
fn create_process_fills_slots() {
    let mut mem = PhysMemory::new(KERNEL_BASE, FREE_RAM, FREE_RAM_END);
    let mut pm = ProcessManager::new(STACKS);
    pm.init(&mut mem);
    for pid in 1..8 {
        assert_eq!(pm.create_process(&mut mem, 0x4000), Some(pid));
        let p = pm.process(pid);
        assert_eq!(p.state, State::Runnable);
        assert_eq!(p.context.ra, 0x4000);
        assert_eq!(p.context.sp, STACKS + (pid + 1) * 8192);
        assert_eq!(p.sscratch, [0, STACKS + (pid + 1) * 8192]);
        assert_eq!(p.page_table % 4096, 0);
    }
    assert_eq!(pm.create_process(&mut mem, 0x4000), None);
    let idle = pm.process(0);
    assert_eq!(idle.state, State::Runnable);
    assert_eq!(idle.sscratch, [0, STACKS + 8192]);
}

#[test]
fn finish_without_wait() {
    // completing a receive that never waited finds nothing: UnexpectedState, nothing changes
    let (mut pm, _mem) = boot(2);
    run(&mut pm, 1);
    assert!(matches!(Ipc::finish_recv(&mut pm), Err(IpcError::UnexpectedState)));
    assert_eq!(Ipc::finish_send(&mut pm), Ok(()));
    assert_eq!(pm.state(1), State::Runnable);
    assert!(ipc_idle(&pm, 1));
}
