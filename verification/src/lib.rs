//! A single-core RISC-V teaching kernel, modelled over an explicit physical
//! memory: frame allocator, Sv39 page tables, address spaces, tasks, the
//! round-robin scheduler and trap/system-call dispatch.

pub mod config;
pub mod address;
pub mod memory;
pub mod frame_allocator;
pub mod page_table;
pub mod memory_set;
pub mod buffer;
pub mod elf;
pub mod spaces;
pub mod pid;
pub mod fs;
pub mod ipc;
pub mod manager;
pub mod context;
pub mod machine;
pub mod task;
pub mod service;
pub mod kernel;
pub mod syscall;
pub mod trap;
pub mod sbi;
pub mod user;
