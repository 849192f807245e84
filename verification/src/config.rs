//! Fixed parameters of the machine and of the address-space layout.

use vstd::prelude::*;

verus! {

/// Bytes in one page.
pub const PAGE_SIZE: u64 = 4096;

/// Bits of the offset inside a page.
pub const PAGE_SIZE_BITS: u64 = 12;

/// Machine words (page-table entries) in one page.
pub const PAGE_WORDS: u64 = 512;

/// Bytes of the user stack of every process.
pub const USER_STACK_SIZE: u64 = 8192;

/// Bytes of the kernel stack of every process.
pub const KERNEL_STACK_SIZE: u64 = 8192;

/// Virtual address of the trampoline page, the last page of the address space.
pub const TRAMPOLINE: u64 = 0xffff_ffff_ffff_f000;

/// Virtual address of the trap-context page, just below the trampoline.
pub const TRAP_CONTEXT: u64 = 0xffff_ffff_ffff_e000;

/// Upper bound on the bytes one mapping request may ask for.
pub const MAX_ALLOC_MEMORY: usize = 0x4000_0000;

} // verus!
