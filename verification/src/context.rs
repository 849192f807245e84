//! Saved execution contexts: the trap context of a process, which lies in
//! the trap-context page of its address space, and the kernel-side task
//! context.

use vstd::prelude::*;
use crate::address::VirtPageNum;
use crate::memory::PhysMemory;
use crate::memory_set::MemorySet;
use crate::spaces::TRAP_CONTEXT_VPN;

verus! {

/// The number of words of a trap context.
pub const TRAP_CX_WORDS: usize = 37;

/// The position of the status register in a trap context.
pub const CX_SSTATUS: usize = 32;

/// The position of the saved program counter in a trap context.
pub const CX_SEPC: usize = 33;

/// The position of the token of the kernel address space in a trap context.
pub const CX_KERNEL_SATP: usize = 34;

/// The position of the top of the kernel stack in a trap context.
pub const CX_KERNEL_SP: usize = 35;

/// The position of the address of the trap handler in a trap context.
pub const CX_TRAP_HANDLER: usize = 36;

/// The bit of the status register that holds the privilege mode to which a
/// return from the trap leads: clear for user mode.
pub const SSTATUS_SPP: u64 = 0x100;

/// What is saved of a process when it traps into the kernel: the general
/// registers, the status register and the program counter; and what the
/// trap entry code needs to get into the kernel.
#[derive(Clone, Copy, Debug, PartialEq, Eq)]
pub struct TrapContext {
    pub x: [u64; 32],
    pub sstatus: u64,
    pub sepc: u64,
    pub kernel_satp: u64,
    pub kernel_sp: u64,
    pub trap_handler: u64,
}

impl TrapContext {
    /// The words of the context in the order in which they lie in memory:
    /// the registers, then the five other fields.
    pub open spec fn words(&self) -> Seq<u64> {
        self.x@ + seq![self.sstatus, self.sepc, self.kernel_satp, self.kernel_sp, self.trap_handler]
    }

    /// The word at position `idx` (below 37) of the context.
    pub fn word(&self, idx: usize) -> (r: u64)
        requires
            idx < 37,
        ensures
            r == self.words()[idx as int],
    {
        if idx < 32 {
            self.x[idx]
        } else if idx == 32 {
            self.sstatus
        } else if idx == 33 {
            self.sepc
        } else if idx == 34 {
            self.kernel_satp
        } else if idx == 35 {
            self.kernel_sp
        } else {
            self.trap_handler
        }
    }

    /// The stack pointer, register 2.
    pub fn set_sp(&mut self, sp: u64)
        ensures
            final(self).x@ == old(self).x@.update(2, sp),
            final(self).sstatus == old(self).sstatus,
            final(self).sepc == old(self).sepc,
            final(self).kernel_satp == old(self).kernel_satp,
            final(self).kernel_sp == old(self).kernel_sp,
            final(self).trap_handler == old(self).trap_handler,
    {
        self.x[2] = sp;
    }

    /// The first trap context of a program: it enters user mode at `entry`
    /// with the stack pointer `sp` and all other registers zero. `sstatus`
    /// is the status register of the machine; its bit for the mode to
    /// return to is cleared.
    pub fn app_init_context(
        entry: u64,
        sp: u64,
        sstatus: u64,
        kernel_satp: u64,
        kernel_sp: u64,
        trap_handler: u64,
    ) -> (r: Self)
        ensures
            r.x@ == Seq::new(32, |i: int| if i == 2 { sp } else { 0u64 }),
            r.sstatus == sstatus & !SSTATUS_SPP,
            r.sepc == entry,
            r.kernel_satp == kernel_satp,
            r.kernel_sp == kernel_sp,
            r.trap_handler == trap_handler,
    {
        let mut cx = TrapContext {
            x: [0u64; 32],
            sstatus: sstatus & !SSTATUS_SPP,
            sepc: entry,
            kernel_satp,
            kernel_sp,
            trap_handler,
        };
        cx.set_sp(sp);
        assert(cx.x@ =~= Seq::new(32, |i: int| if i == 2 { sp } else { 0u64 }));
        cx
    }

    /// Writes the context into the trap-context page of the address space
    /// `ms`. Returns whether `ms` has that page; nothing changes when it
    /// has not.
    pub fn store(&self, mem: &mut PhysMemory, ms: &MemorySet) -> (r: bool)
        requires
            ms.wf(old(mem)),
        ensures
            ms.wf(final(mem)),
            final(mem).wf(),
            final(mem).base() == old(mem).base(),
            final(mem).frame_count() == old(mem).frame_count(),
            r == ms.page_frame(TRAP_CONTEXT_VPN) is Some,
            !r ==> final(mem)@ == old(mem)@,
            forall|v: u64| #[trigger] ms.lookup(final(mem), v) == ms.lookup(old(mem), v),
            forall|f: u64|
                old(mem).has_frame(f) && ms.page_frame(TRAP_CONTEXT_VPN) != Some(f) ==> #[trigger] final(mem)@[f]
                    == old(mem)@[f],
            r ==> trap_words(final(mem), ms) == self.words(),
            r ==> forall|i: int|
                37 <= i < 512 ==> final(mem)@[ms.page_frame(TRAP_CONTEXT_VPN)->0][i] == old(mem)@[ms.page_frame(TRAP_CONTEXT_VPN)->0][i],
    {
        proof {
            ms.lemma_wf(mem);
        }
        if ms.frame_of(VirtPageNum(TRAP_CONTEXT_VPN)).is_none() {
            proof {
                ms.lemma_stable(old(mem), mem);
            }
            return false;
        }
        let ghost f = ms.page_frame(TRAP_CONTEXT_VPN)->0;
        proof {
            ms.lemma_page_frame_wf(mem, TRAP_CONTEXT_VPN);
            mem.lemma_view();
        }
        let mut i: usize = 0;
        while i < 37
            invariant
                i <= 37,
                ms.wf(mem),
                ms.wf(old(mem)),
                mem.wf(),
                mem.base() == old(mem).base(),
                mem.frame_count() == old(mem).frame_count(),
                ms.page_frame(TRAP_CONTEXT_VPN) == Some(f),
                mem.has_frame(f),
                mem@[f].len() == 512,
                forall|v: u64| #[trigger] ms.lookup(mem, v) == ms.lookup(old(mem), v),
                forall|g: u64| old(mem).has_frame(g) && g != f ==> #[trigger] mem@[g] == old(mem)@[g],
                forall|j: int| 0 <= j < i ==> mem@[f][j] == self.words()[j],
                forall|j: int| i <= j < 512 ==> mem@[f][j] == old(mem)@[f][j],
            decreases 37 - i,
        {
            let w: u64 = self.word(i);
            let ok = ms.store_word(mem, VirtPageNum(TRAP_CONTEXT_VPN), i, w);
            proof {
                mem.lemma_view();
            }
            i = i + 1;
        }
        proof {
            assert(trap_words(mem, ms) =~= self.words());
        }
        true
    }
}

/// The words of the trap context in the trap-context page of `ms`.
pub open spec fn trap_words(mem: &PhysMemory, ms: &MemorySet) -> Seq<u64> {
    mem@[ms.page_frame(TRAP_CONTEXT_VPN)->0].subrange(0, 37)
}

/// The word at position `idx` (below 37) of the trap context in the
/// trap-context page of `ms`: `None` when `ms` has no such page.
pub fn read_trap_word(mem: &PhysMemory, ms: &MemorySet, idx: usize) -> (r: Option<u64>)
    requires
        ms.wf(mem),
        idx < 37,
    ensures
        r == match ms.page_frame(TRAP_CONTEXT_VPN) {
            Some(f) => Some(trap_words(mem, ms)[idx as int]),
            None => None,
        },
{
    proof {
        ms.lemma_wf(mem);
        if ms.page_frame(TRAP_CONTEXT_VPN) is Some {
            ms.lemma_page_frame_wf(mem, TRAP_CONTEXT_VPN);
            mem.lemma_view();
        }
    }
    ms.load_word(mem, VirtPageNum(TRAP_CONTEXT_VPN), idx)
}

/// Stores `val` at position `idx` (below 37) of the trap context in the
/// trap-context page of `ms`. Returns whether `ms` has that page; nothing
/// changes when it has not.
pub fn write_trap_word(mem: &mut PhysMemory, ms: &MemorySet, idx: usize, val: u64) -> (r: bool)
    requires
        ms.wf(old(mem)),
        idx < 37,
    ensures
        ms.wf(final(mem)),
        final(mem).wf(),
        final(mem).base() == old(mem).base(),
        final(mem).frame_count() == old(mem).frame_count(),
        r == ms.page_frame(TRAP_CONTEXT_VPN) is Some,
        !r ==> final(mem)@ == old(mem)@,
        forall|v: u64| #[trigger] ms.lookup(final(mem), v) == ms.lookup(old(mem), v),
        forall|f: u64|
            old(mem).has_frame(f) && ms.page_frame(TRAP_CONTEXT_VPN) != Some(f) ==> #[trigger] final(mem)@[f]
                == old(mem)@[f],
        r ==> trap_words(final(mem), ms) == trap_words(old(mem), ms).update(idx as int, val),
        r ==> forall|i: int|
            37 <= i < 512 ==> final(mem)@[ms.page_frame(TRAP_CONTEXT_VPN)->0][i] == old(mem)@[ms.page_frame(TRAP_CONTEXT_VPN)->0][i],
        r ==> final(mem)@ == old(mem)@.insert(
            ms.page_frame(TRAP_CONTEXT_VPN)->0,
            old(mem)@[ms.page_frame(TRAP_CONTEXT_VPN)->0].update(idx as int, val),
        ),
{
    proof {
        ms.lemma_wf(mem);
        if ms.page_frame(TRAP_CONTEXT_VPN) is Some {
            ms.lemma_page_frame_wf(mem, TRAP_CONTEXT_VPN);
            mem.lemma_view();
        }
    }
    let r = ms.store_word(mem, VirtPageNum(TRAP_CONTEXT_VPN), idx, val);
    proof {
        if r {
            mem.lemma_view();
            assert(trap_words(mem, ms) =~= trap_words(old(mem), ms).update(idx as int, val));
        }
    }
    r
}

/// What is saved of the kernel side of a process when the kernel switches
/// away from it: the return address and the callee-saved registers.
#[derive(Clone, Copy, Debug, PartialEq, Eq)]
pub struct TaskContext {
    pub ra: u64,
    pub s: [u64; 12],
}

/// The number of words of a task context.
pub const TASK_CX_WORDS: usize = 13;

impl TaskContext {
    /// The task context of a process that has not run yet: a switch to it
    /// returns to `trap_return`, the code that leaves the kernel for user
    /// mode.
    pub fn goto_trap_return(trap_return: u64) -> (r: Self)
        ensures
            r.ra == trap_return,
            r.s@ == Seq::new(12, |i: int| 0u64),
    {
        let r = TaskContext { ra: trap_return, s: [0u64; 12] };
        assert(r.s@ =~= Seq::new(12, |i: int| 0u64));
        r
    }
}

} // verus!
