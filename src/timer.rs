use vstd::prelude::*;

use crate::constants::{TIMEBASE_FREQ, TIMER_QUANTUM_TICKS, TIMER_QUANTUM_US};
use crate::sbi::{SbiCall, SBI_EID_TIME, SBI_FID_SET_TIMER};

verus! {

/// The 64-bit `time` value from a read of its high word, its low word and its high word
/// again; `None` when the high word changed in between and the reads must be repeated.
pub fn time_from_reads(hi: u32, lo: u32, hi_again: u32) -> (r: Option<u64>)
    ensures
        hi == hi_again ==> r == Some((hi as int * 0x1_0000_0000 + lo as int) as u64),
        hi != hi_again ==> r is None,
{
    if hi != hi_again {
        return None;
    }
    let t = ((hi as u64) << 32) | (lo as u64);
    proof {
        let h = hi as u64;
        let l = lo as u64;
        assert(h < 0x1_0000_0000 && l < 0x1_0000_0000 ==> (h << 32u64) | l == h * 0x1_0000_0000 + l)
            by (bit_vector);
    }
    Some(t)
}

/// The `set_timer` call whose deadline is `deadline`.
pub open spec fn set_timer_call(deadline: u64) -> SbiCall {
    SbiCall {
        a0: (deadline % 0x1_0000_0000) as usize,
        a1: (deadline / 0x1_0000_0000) as usize,
        a2: 0,
        a3: 0,
        a4: 0,
        a5: 0,
        fid: SBI_FID_SET_TIMER,
        eid: SBI_EID_TIME,
    }
}

/// The call that arms the timer one quantum after `now`.
fn set_next_timer(now: u64) -> (r: SbiCall)
    requires
        now + TIMER_QUANTUM_TICKS <= u64::MAX,
    ensures
        r == set_timer_call((now + TIMER_QUANTUM_TICKS) as u64),
{
    let delta = TIMER_QUANTUM_US * TIMEBASE_FREQ / 1_000_000;
    assert(delta == TIMER_QUANTUM_TICKS);
    let next = now + delta;
    let lo = (next % 0x1_0000_0000) as usize;
    let hi = (next / 0x1_0000_0000) as usize;
    SbiCall { a0: lo, a1: hi, a2: 0, a3: 0, a4: 0, a5: 0, fid: SBI_FID_SET_TIMER, eid: SBI_EID_TIME }
}

/// First tick: the call that arms the timer one quantum after `now`. The caller enables the
/// supervisor timer interrupt before making it.
pub fn init_timer(now: u64) -> (r: SbiCall)
    requires
        now + TIMER_QUANTUM_TICKS <= u64::MAX,
    ensures
        r == set_timer_call((now + TIMER_QUANTUM_TICKS) as u64),
{
    set_next_timer(now)
}

/// On a timer interrupt: the call that re-arms the timer one quantum after `now`.
pub fn handle_timer_irq(now: u64) -> (r: SbiCall)
    requires
        now + TIMER_QUANTUM_TICKS <= u64::MAX,
    ensures
        r == set_timer_call((now + TIMER_QUANTUM_TICKS) as u64),
{
    set_next_timer(now)
}

} // verus!
