//! Core of a small Sv32 microkernel: the process table and round-robin scheduler, synchronous
//! rendezvous IPC with per-destination sender queues, and the bump page allocator with its
//! two-level page-table mapper. Operations that would block or touch hardware return what the
//! machine must do next (a switch, an SBI call) instead of doing it.
//!
//! - `process`: slots, ready queue, `switch`, `block_current`, `unblock`, `create_process`.
//! - `ipc`: messages and `send` / `recv` with their completions after a wait.
//! - `invariants`, `protocol`: the invariant linking IPC to scheduling, and laws of the protocol.
//! - `memory`, `addr`: physical pages, the bump allocator and the Sv32 mapper.
//! - `timer`, `sbi`, `trap`: timer arming, SBI calls and trap dispatch.
//! - `apps`: the display protocol and the pure parts of the demo processes.

use vstd::prelude::*;

pub mod addr;
pub mod apps;
pub mod constants;
pub mod invariants;
pub mod ipc;
pub mod memory;
pub mod process;
pub mod protocol;
pub mod sbi;
pub mod timer;
pub mod trap;

verus! {

} // verus!
