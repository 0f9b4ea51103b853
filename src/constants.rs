use vstd::prelude::*;

verus! {

/// Number of process slots; a pid is a slot index in `[0, PROCS_MAX)`.
pub const PROCS_MAX: usize = 8;

/// The idle process: always present, never enqueued, never takes part in IPC.
pub const IDLE_PID: usize = 0;

/// Size of a page and of a page table, in bytes.
pub const PAGE_SIZE: usize = 4096;

/// Entries in one Sv32 page table.
pub const PTES_PER_TABLE: usize = 1024;

/// Mode field of `satp` selecting Sv32 translation.
pub const SATP_SV32: usize = 0x8000_0000;

/// Page-table entry flag bits.
pub const PAGE_V: u32 = 1;
pub const PAGE_R: u32 = 2;
pub const PAGE_W: u32 = 4;
pub const PAGE_X: u32 = 8;
pub const PAGE_U: u32 = 16;

/// Bytes of kernel stack given to each process slot.
pub const KERNEL_STACK_SIZE: usize = 8192;

/// Scheduling quantum in microseconds.
pub const TIMER_QUANTUM_US: u64 = 10_000;

/// Frequency of the `time` counter (10 MHz).
pub const TIMEBASE_FREQ: u64 = 10_000_000;

/// Counter ticks in one quantum: `TIMER_QUANTUM_US * TIMEBASE_FREQ / 1_000_000`.
pub const TIMER_QUANTUM_TICKS: u64 = TIMER_QUANTUM_US * TIMEBASE_FREQ / 1_000_000;

} // verus!
