use vstd::prelude::*;

verus! {

/// Legacy console extension: write the byte in `a0`.
pub const SBI_EID_CONSOLE_PUTCHAR: usize = 1;

/// Timer extension ("TIME").
pub const SBI_EID_TIME: usize = 0x5449_4d45;

/// `set_timer`: absolute deadline in `(a0, a1)` as low and high words.
pub const SBI_FID_SET_TIMER: usize = 0;

/// An `ecall` into the SBI firmware: arguments `a0..a5`, function id in `a6`, extension id
/// in `a7`.
#[derive(Clone, Copy, Debug, PartialEq, Eq, Structural)]
pub struct SbiCall {
    pub a0: usize,
    pub a1: usize,
    pub a2: usize,
    pub a3: usize,
    pub a4: usize,
    pub a5: usize,
    pub fid: usize,
    pub eid: usize,
}

/// The firmware's answer: a negative error code, or success with a value.
pub fn sbi_result(error: isize, value: usize) -> (r: Result<usize, isize>)
    ensures
        error < 0 ==> r == Err::<usize, isize>(error),
        error >= 0 ==> r == Ok::<usize, isize>(value),
{
    if error < 0 {
        Err(error)
    } else {
        Ok(value)
    }
}

/// The call that writes byte `c` to the console.
pub fn putchar(c: u8) -> (r: SbiCall)
    ensures
        r == (SbiCall {
            a0: c as usize,
            a1: 0,
            a2: 0,
            a3: 0,
            a4: 0,
            a5: 0,
            fid: 0,
            eid: SBI_EID_CONSOLE_PUTCHAR,
        }),
{
    SbiCall { a0: c as usize, a1: 0, a2: 0, a3: 0, a4: 0, a5: 0, fid: 0, eid: SBI_EID_CONSOLE_PUTCHAR }
}

} // verus!
