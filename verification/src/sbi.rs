//! Calls to the supervisor binary interface: what the kernel asks of the
//! machine below it. The functions make up the call; to issue it is for
//! the caller.

use vstd::prelude::*;

verus! {

pub const SBI_SET_TIMER: usize = 0;

pub const SBI_CONSOLE_PUTCHAR: usize = 1;

pub const SBI_CONSOLE_GETCHAR: usize = 2;

pub const SBI_CLEAR_IPI: usize = 3;

pub const SBI_SEND_IPI: usize = 4;

pub const SBI_REMOTE_FENCE_I: usize = 5;

pub const SBI_REMOTE_SFENCE_VMA: usize = 6;

pub const SBI_REMOTE_SFENCE_VMA_ASID: usize = 7;

pub const SBI_SHUTDOWN: usize = 8;

/// A call of the interface: the number of the function in register 17 and
/// the arguments in registers 10 to 12.
#[derive(Clone, Copy, Debug, PartialEq, Eq, Structural)]
pub struct SbiCall {
    pub which: usize,
    pub arg0: usize,
    pub arg1: usize,
    pub arg2: usize,
}

/// The call of the function `which` with the given arguments.
pub fn sbi_call(which: usize, arg0: usize, arg1: usize, arg2: usize) -> (r: SbiCall)
    ensures
        r == (SbiCall { which, arg0, arg1, arg2 }),
{
    SbiCall { which, arg0, arg1, arg2 }
}

/// The call that puts the character `c` out on the console.
pub fn console_putchar(c: usize) -> (r: SbiCall)
    ensures
        r == (SbiCall { which: SBI_CONSOLE_PUTCHAR, arg0: c, arg1: 0, arg2: 0 }),
{
    sbi_call(SBI_CONSOLE_PUTCHAR, c, 0, 0)
}

/// The call that fetches a character from the console.
pub fn console_getchar() -> (r: SbiCall)
    ensures
        r == (SbiCall { which: SBI_CONSOLE_GETCHAR, arg0: 0, arg1: 0, arg2: 0 }),
{
    sbi_call(SBI_CONSOLE_GETCHAR, 0, 0, 0)
}

/// The call that stops the machine.
pub fn shutdown() -> (r: SbiCall)
    ensures
        r == (SbiCall { which: SBI_SHUTDOWN, arg0: 0, arg1: 0, arg2: 0 }),
{
    sbi_call(SBI_SHUTDOWN, 0, 0, 0)
}

/// The call that sets the next deadline of the timer to `timer`.
pub fn set_timer(timer: usize) -> (r: SbiCall)
    ensures
        r == (SbiCall { which: SBI_SET_TIMER, arg0: timer, arg1: 0, arg2: 0 }),
{
    sbi_call(SBI_SET_TIMER, timer, 0, 0)
}

/// The calls that put the bytes `bytes` out on the console, one call for
/// each byte in their order.
pub fn print(bytes: &Vec<u8>) -> (r: Vec<SbiCall>)
    ensures
        r@.len() == bytes@.len(),
        forall|i: int|
            0 <= i < bytes@.len() ==> #[trigger] r@[i] == (SbiCall {
                which: SBI_CONSOLE_PUTCHAR,
                arg0: bytes@[i] as usize,
                arg1: 0,
                arg2: 0,
            }),
{
    let mut r: Vec<SbiCall> = Vec::new();
    let mut i: usize = 0;
    while i < bytes.len()
        invariant
            i <= bytes@.len(),
            r@.len() == i,
            forall|k: int|
                0 <= k < i ==> #[trigger] r@[k] == (SbiCall {
                    which: SBI_CONSOLE_PUTCHAR,
                    arg0: bytes@[k] as usize,
                    arg1: 0,
                    arg2: 0,
                }),
        decreases bytes@.len() - i,
    {
        r.push(console_putchar(bytes[i] as usize));
        i = i + 1;
    }
    r
}

} // verus!
