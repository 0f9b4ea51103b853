use vstd::prelude::*;

use crate::constants::TIMER_QUANTUM_TICKS;
use crate::invariants::kernel_invariant;
use crate::process::{ProcessManager, Switch};
use crate::sbi::SbiCall;
use crate::timer::{handle_timer_irq, set_timer_call};

verus! {

/// `scause` of a supervisor timer interrupt: interrupt bit and cause 5.
pub const SCAUSE_SUPERVISOR_TIMER: usize = 0x8000_0005;

/// What the trap path must do after `handle_trap`.
#[derive(Clone, Copy, Debug, PartialEq, Eq, Structural)]
pub enum TrapAction {
    /// Timer tick: make the `set_timer` call, then carry out the switch if there is one.
    Tick { timer: SbiCall, switch: Option<Switch> },
    /// A cause the kernel does not handle: halt.
    Fatal(usize),
}

/// Services the trap with cause `scause` taken at time `now`: a timer interrupt re-arms the
/// timer and yields; any other cause is fatal and changes nothing.
pub fn handle_trap(pm: &mut ProcessManager, scause: usize, now: u64) -> (r: TrapAction)
    requires
        old(pm).wf(),
        scause == SCAUSE_SUPERVISOR_TIMER ==> now + TIMER_QUANTUM_TICKS <= u64::MAX,
    ensures
        final(pm).wf(),
        scause == SCAUSE_SUPERVISOR_TIMER ==> final(pm)@ == old(pm)@.switched().0 && r == (TrapAction::Tick {
            timer: set_timer_call((now + TIMER_QUANTUM_TICKS) as u64),
            switch: old(pm)@.switched().1,
        }),
        scause != SCAUSE_SUPERVISOR_TIMER ==> final(pm)@ == old(pm)@ && r == TrapAction::Fatal(scause),
        kernel_invariant(old(pm)@) ==> kernel_invariant(final(pm)@),
{
    if scause != SCAUSE_SUPERVISOR_TIMER {
        return TrapAction::Fatal(scause);
    }
    let timer = handle_timer_irq(now);
    let switch = pm.switch();
    TrapAction::Tick { timer, switch }
}

} // verus!
