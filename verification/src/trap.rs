//! The trap handler: what the kernel does when a process traps into it.

use vstd::prelude::*;
use crate::context::{CX_SEPC, trap_words};
use crate::kernel::Kernel;
use crate::spaces::TRAP_CONTEXT_VPN;
use crate::syscall::{SyscallResult, dispatched, exit_done, syscall, yield_done};

verus! {

/// Why the processor trapped.
#[derive(Clone, Copy, Debug, PartialEq, Eq, Structural)]
pub enum TrapCause {
    /// A system call from user mode.
    UserEnvCall,
    StoreFault,
    StorePageFault,
    InstructionFault,
    InstructionPageFault,
    LoadFault,
    LoadPageFault,
    IllegalInstruction,
    /// The timer of the supervisor.
    SupervisorTimer,
    /// Anything else.
    Other,
}

/// `riscv::register::scause::Scause::from_bits` and `cause`, on a machine
/// with 64-bit words: whether the top bit of the cause register is set,
/// which stands for an interrupt, and the code in the bits below it.
#[verifier::external_body]
fn scause_parts(bits: u64) -> (r: (bool, u64))
    requires
        usize::BITS == 64,
    ensures
        r.0 == (bits >> 63 == 1),
        r.1 == bits & 0x7fff_ffff_ffff_ffff,
{
    match riscv::register::scause::Scause::from_bits(bits as usize).cause() {
        riscv::interrupt::Trap::Interrupt(code) => (true, code as u64),
        riscv::interrupt::Trap::Exception(code) => (false, code as u64),
    }
}

/// The cause that the value `bits` of the cause register stands for.
pub open spec fn cause_of(bits: u64) -> TrapCause {
    let code = bits & 0x7fff_ffff_ffff_ffff;
    if bits >> 63 == 1 {
        if code == 5 {
            TrapCause::SupervisorTimer
        } else {
            TrapCause::Other
        }
    } else if code == 1 {
        TrapCause::InstructionFault
    } else if code == 2 {
        TrapCause::IllegalInstruction
    } else if code == 5 {
        TrapCause::LoadFault
    } else if code == 7 {
        TrapCause::StoreFault
    } else if code == 8 {
        TrapCause::UserEnvCall
    } else if code == 12 {
        TrapCause::InstructionPageFault
    } else if code == 13 {
        TrapCause::LoadPageFault
    } else if code == 15 {
        TrapCause::StorePageFault
    } else {
        TrapCause::Other
    }
}

/// The cause that the value `bits` of the cause register stands for. The
/// machine must have 64-bit words.
pub fn decode_cause(bits: u64) -> (r: TrapCause)
    requires
        usize::BITS == 64,
    ensures
        r == cause_of(bits),
{
    let (interrupt, code) = scause_parts(bits);
    if interrupt {
        if code == 5 {
            TrapCause::SupervisorTimer
        } else {
            TrapCause::Other
        }
    } else if code == 1 {
        TrapCause::InstructionFault
    } else if code == 2 {
        TrapCause::IllegalInstruction
    } else if code == 5 {
        TrapCause::LoadFault
    } else if code == 7 {
        TrapCause::StoreFault
    } else if code == 8 {
        TrapCause::UserEnvCall
    } else if code == 12 {
        TrapCause::InstructionPageFault
    } else if code == 13 {
        TrapCause::LoadPageFault
    } else if code == 15 {
        TrapCause::StorePageFault
    } else {
        TrapCause::Other
    }
}

/// Whether `cause` is a fault of a memory access or of the fetch of an
/// instruction.
pub open spec fn is_memory_fault(cause: TrapCause) -> bool {
    cause == TrapCause::StoreFault || cause == TrapCause::StorePageFault || cause
        == TrapCause::InstructionFault || cause == TrapCause::InstructionPageFault || cause
        == TrapCause::LoadFault || cause == TrapCause::LoadPageFault
}

/// What the trap handler has done, for the caller to act on.
#[derive(Clone, Copy, Debug, PartialEq, Eq, Structural)]
pub enum TrapOutcome {
    /// A system call was done.
    Syscall(SyscallResult),
    /// The process was ended for a fault, with this exit code. The cause,
    /// the faulting address and the program counter are for the message
    /// that the caller puts out.
    Killed { code: i32, cause: TrapCause, stval: u64, sepc: u64 },
    /// The timer fired and the process has given up the processor: the
    /// caller has to set the next deadline of the timer.
    Preempted,
}

/// The word at position `idx` of the trap context of the process that runs;
/// 0 when the process has no trap context.
pub open spec fn current_word(kernel: &Kernel, idx: int) -> u64 {
    let ms = kernel.running().inner.memory_set;
    if ms.page_frame(TRAP_CONTEXT_VPN) is Some {
        trap_words(&kernel.machine.mem, &ms)[idx]
    } else {
        0
    }
}

/// Whether `now` is the kernel `before` with `val` stored at position `idx`
/// of the trap context of the process `pid`. Nothing is stored when there
/// is no such process or it has no trap context.
pub open spec fn word_stored(before: &Kernel, now: &Kernel, pid: usize, idx: int, val: u64) -> bool {
    &&& now.wf()
    &&& now.tasks == before.tasks
    &&& now.manager == before.manager
    &&& now.current == before.current
    &&& before.same_rest(now)
    &&& now.machine.config == before.machine.config
    &&& now.machine.frames == before.machine.frames
    &&& now.machine.kernel_space == before.machine.kernel_space
    &&& now.machine.pids == before.machine.pids
    &&& if before.has_task(pid) && before.tasks@[before.index_of(pid)].inner.memory_set.page_frame(
        TRAP_CONTEXT_VPN,
    ) is Some {
        let f = before.tasks@[before.index_of(pid)].inner.memory_set.page_frame(TRAP_CONTEXT_VPN)->0;
        now.machine.mem@ == before.machine.mem@.insert(f, before.machine.mem@[f].update(idx, val))
    } else {
        now.machine.mem@ == before.machine.mem@
    }
}

/// Stores `val` at position `idx` (below 37) of the trap context of the
/// process `pid`, if there is such a process and it has a trap context.
pub fn store_word_of(kernel: &mut Kernel, pid: usize, idx: usize, val: u64)
    requires
        old(kernel).wf(),
        idx < 37,
    ensures
        word_stored(old(kernel), final(kernel), pid, idx as int, val),
{
    match kernel.find(pid) {
        None => {},
        Some(i) => {
            proof {
                kernel.lemma_index_of(i as int);
            }
            let _ = kernel.store_trap_word(i, idx, val);
        },
    }
}

/// What the handling of a system call does: the program counter of the
/// process is moved past the call, which makes the kernel `k1`; the call is
/// done with the number in register 17 and the arguments in registers 10 to
/// 12, which makes the kernel `k2` and ends as `res`; then its value is
/// stored in register 10 of the process, or, when the call has to be issued
/// again, the program counter is moved back.
pub open spec fn syscall_trapped(
    before: &Kernel,
    k1: &Kernel,
    k2: &Kernel,
    now: &Kernel,
    now_ms: usize,
    res: SyscallResult,
) -> bool {
    let caller = before.current->0;
    let sepc = current_word(before, CX_SEPC as int);
    &&& word_stored(before, k1, caller, CX_SEPC as int, ((sepc + 4) % 0x1_0000_0000_0000_0000) as u64)
    &&& dispatched(
        k1,
        k2,
        current_word(before, 17) as usize,
        seq![
            current_word(before, 10) as usize,
            current_word(before, 11) as usize,
            current_word(before, 12) as usize,
        ],
        now_ms,
        res,
    )
    &&& match res {
        SyscallResult::Done(v) => word_stored(k2, now, caller, 10, v as u64),
        SyscallResult::Retry => word_stored(k2, now, caller, CX_SEPC as int, sepc),
        _ => *now == *k2,
    }
}

/// What the trap handler does for a cause that the kernel handles: a system
/// call, a fault, an illegal instruction, or else the timer.
pub open spec fn trapped(
    before: &Kernel,
    now: &Kernel,
    scause: u64,
    stval: u64,
    now_ms: usize,
    r: TrapOutcome,
) -> bool {
    let cause = cause_of(scause);
    if cause == TrapCause::UserEnvCall {
        r matches TrapOutcome::Syscall(res) && exists|k1: Kernel, k2: Kernel| #[trigger]
            syscall_trapped(before, &k1, &k2, now, now_ms, res)
    } else if is_memory_fault(cause) {
        r == (TrapOutcome::Killed {
            code: -2i32,
            cause,
            stval,
            sepc: current_word(before, CX_SEPC as int),
        }) && exit_done(before, now, -2i32)
    } else if cause == TrapCause::IllegalInstruction {
        r == (TrapOutcome::Killed {
            code: -3i32,
            cause,
            stval,
            sepc: current_word(before, CX_SEPC as int),
        }) && exit_done(before, now, -3i32)
    } else {
        r == TrapOutcome::Preempted && yield_done(before, now, 0)
    }
}

/// The word at position `idx` (below 37) of the trap context of the
/// process that runs; 0 when it has none.
pub fn current_trap_word(kernel: &Kernel, idx: usize) -> (r: u64)
    requires
        kernel.wf(),
        kernel.current is Some,
        idx < 37,
    ensures
        r == current_word(kernel, idx as int),
{
    let i = kernel.current_index();
    proof {
        kernel.lemma_running(i as int);
    }
    match kernel.load_trap_word(i, idx) {
        Some(w) => w,
        None => 0,
    }
}

/// Handles a trap of the process that runs. `scause` and `stval` are the
/// values of the cause register and of the trap value register, and
/// `now_ms` is the time in milliseconds, all of which the caller has read
/// from the machine.
///
/// A system call is done for the process. A fault of a memory access or of
/// an instruction fetch ends the process with the exit code -2, an illegal
/// instruction with -3. The timer makes the process give up the processor.
///
/// The cause must be one of these: a trap with any other cause is a fault of
/// the machine that the kernel cannot go on from, and it is for the caller
/// to decode the cause first and to stop the machine then. The machine must
/// have 64-bit words.
pub fn trap_handler(kernel: &mut Kernel, scause: u64, stval: u64, now_ms: usize) -> (r: TrapOutcome)
    requires
        old(kernel).wf(),
        old(kernel).current is Some,
        usize::BITS == 64,
        cause_of(scause) != TrapCause::Other,
    ensures
        final(kernel).wf(),
        trapped(old(kernel), final(kernel), scause, stval, now_ms, r),
{
    let cause = decode_cause(scause);
    match cause {
        TrapCause::UserEnvCall => {
            let caller: usize = kernel.current.unwrap();
            let sepc = current_trap_word(kernel, CX_SEPC);
            let id = current_trap_word(kernel, 17);
            let a0 = current_trap_word(kernel, 10);
            let a1 = current_trap_word(kernel, 11);
            let a2 = current_trap_word(kernel, 12);
            store_word_of(kernel, caller, CX_SEPC, sepc.wrapping_add(4));
            let ghost k1 = *kernel;
            let res = syscall(kernel, id as usize, [a0 as usize, a1 as usize, a2 as usize], now_ms);
            let ghost k2 = *kernel;
            match res {
                SyscallResult::Done(v) => {
                    store_word_of(kernel, caller, 10, v as u64);
                },
                SyscallResult::Retry => {
                    store_word_of(kernel, caller, CX_SEPC, sepc);
                },
                _ => {},
            }
            proof {
                assert([a0 as usize, a1 as usize, a2 as usize]@ =~= seq![
                    a0 as usize,
                    a1 as usize,
                    a2 as usize,
                ]);
                assert(syscall_trapped(old(kernel), &k1, &k2, kernel, now_ms, res));
            }
            TrapOutcome::Syscall(res)
        },
        TrapCause::StoreFault
        | TrapCause::StorePageFault
        | TrapCause::InstructionFault
        | TrapCause::InstructionPageFault
        | TrapCause::LoadFault
        | TrapCause::LoadPageFault => {
            let sepc = current_trap_word(kernel, CX_SEPC);
            kernel.exit_current_and_run_next(-2);
            TrapOutcome::Killed { code: -2, cause, stval, sepc }
        },
        TrapCause::IllegalInstruction => {
            let sepc = current_trap_word(kernel, CX_SEPC);
            kernel.exit_current_and_run_next(-3);
            TrapOutcome::Killed { code: -3, cause, stval, sepc }
        },
        // Only the timer is left.
        _ => {
            kernel.suspend_current_and_run_next();
            TrapOutcome::Preempted
        },
    }
}

} // verus!
