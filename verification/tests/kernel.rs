use kernel::address::{VirtAddr, VirtPageNum};
use kernel::context::read_trap_word;
use kernel::elf::parse_elf;
use kernel::frame_allocator::StackFrameAllocator;
use kernel::kernel::{AppImage, Kernel};
use kernel::machine::{init, BootConfig, KernelStack};
use kernel::memory::PhysMemory;
use kernel::memory_set::MemorySet;
use kernel::address::PhysPageNum;
use kernel::service::{Registry, Service};
use kernel::pid::PidHandle;
use kernel::spaces::KernelLayout;
use kernel::syscall::{
    sys_channel_read, sys_channel_write, sys_close, sys_create_task, sys_exec, sys_exit, sys_fork,
    sys_get_time, sys_getpid, sys_mmap, sys_mmap_create, sys_munmap, sys_read, sys_register,
    sys_waitpid, sys_write, sys_yield, syscall, SyscallResult,
};
use kernel::task::{TaskControlBlock, TaskStatus};
use kernel::trap::{decode_cause, trap_handler, TrapCause, TrapOutcome};
use std::sync::Arc;

fn put16(v: &mut Vec<u8>, x: u16) {
    v.extend_from_slice(&x.to_le_bytes());
}

fn put32(v: &mut Vec<u8>, x: u32) {
    v.extend_from_slice(&x.to_le_bytes());
}

fn put64(v: &mut Vec<u8>, x: u64) {
    v.extend_from_slice(&x.to_le_bytes());
}

/// A 64-bit little-endian image with one loadable segment for each entry
/// of `segments`: virtual address, bytes, size in memory, flags.
fn make_elf(entry: u64, segments: &[(u64, Vec<u8>, u64, u32)]) -> Vec<u8> {
    let mut v: Vec<u8> = vec![0x7f, 0x45, 0x4c, 0x46, 2, 1, 1, 0];
    v.extend_from_slice(&[0u8; 8]);
    put16(&mut v, 2);
    put16(&mut v, 0xf3);
    put32(&mut v, 1);
    put64(&mut v, entry);
    put64(&mut v, 64);
    put64(&mut v, 0);
    put32(&mut v, 0);
    put16(&mut v, 64);
    put16(&mut v, 56);
    put16(&mut v, segments.len() as u16);
    put16(&mut v, 0);
    put16(&mut v, 0);
    put16(&mut v, 0);
    assert_eq!(v.len(), 64);
    let mut offset = 64 + 56 * segments.len() as u64;
    for (vaddr, data, memsz, flags) in segments {
        put32(&mut v, 1);
        put32(&mut v, *flags);
        put64(&mut v, offset);
        put64(&mut v, *vaddr);
        put64(&mut v, *vaddr);
        put64(&mut v, data.len() as u64);
        put64(&mut v, *memsz);
        put64(&mut v, 4096);
        offset += data.len() as u64;
    }
    for (_, data, _, _) in segments {
        v.extend_from_slice(data);
    }
    v
}

fn program(tag: u8) -> Vec<u8> {
    let code: Vec<u8> = (0..100u32).map(|i| tag.wrapping_add(i as u8)).collect();
    make_elf(0x10000, &[(0x10000, code, 0x1000, 5), (0x12000, vec![tag; 16], 0x2000, 6)])
}

fn config() -> BootConfig {
    BootConfig {
        memory_base: 0x80000,
        memory_frames: 1024,
        layout: KernelLayout {
            stext: 0x8000_0000,
            etext: 0x8001_0000,
            srodata: 0x8001_0000,
            erodata: 0x8002_0000,
            sdata: 0x8002_0000,
            edata: 0x8003_0000,
            sbss: 0x8003_0000,
            ebss: 0x8004_0000,
            ekernel: 0x8010_0000,
            memory_end: 0x8040_0000,
            strampoline: 0x8000_1000,
        },
        trap_handler: 0x8000_2000,
        trap_return: 0x8000_3000,
        sstatus: 0x8000_0000_0000_6100,
    }
}

fn apps() -> Vec<AppImage> {
    vec![
        AppImage { name: "initproc".to_string(), data: program(1) },
        AppImage { name: "child".to_string(), data: program(2) },
        AppImage { name: "broken".to_string(), data: vec![1, 2, 3] },
    ]
}

/// The kernel with the init process running.
fn booted() -> Kernel {
    let mut k = Kernel::new(config(), apps()).unwrap();
    assert_eq!(k.run_next(), Some(0));
    k
}

/// The user stack of a test program lies from 0x15000 up to 0x17000.
const SCRATCH: usize = 0x15100;

fn put_user(k: &mut Kernel, va: usize, bytes: &[u8]) {
    let i = k.current_index();
    assert!(k.write_user(i, VirtAddr(va as u64), &bytes.to_vec()));
}

fn get_user(k: &Kernel, va: usize, len: usize) -> Vec<u8> {
    let i = k.current_index();
    k.read_user(i, VirtAddr(va as u64), len).unwrap()
}

#[test]
fn boot_makes_the_init_process() {
    let k = Kernel::new(config(), apps()).unwrap();
    assert_eq!(k.tasks.len(), 1);
    assert_eq!(k.initproc, 0);
    assert_eq!(k.current_task(), None);
    assert_eq!(k.manager.len(), 1);
    let t = &k.tasks[0];
    assert_eq!(t.getpid(), 0);
    assert_eq!(t.inner.task_status, TaskStatus::Ready);
    assert_eq!(t.inner.parent, None);
    assert_eq!(t.inner.base_size, 0x17000);
    assert_eq!(t.inner.fd_table.len(), 3);
    let ms = &t.inner.memory_set;
    assert_eq!(ms.area_count(), 4);
    assert_eq!(ms.area(0).get_start(), VirtPageNum(0x10));
    assert_eq!(ms.area(0).get_end(), VirtPageNum(0x11));
    assert_eq!(ms.area(0).permission().bits(), 16 | 2 | 8);
    assert_eq!(ms.area(1).get_start(), VirtPageNum(0x12));
    assert_eq!(ms.area(1).get_end(), VirtPageNum(0x14));
    assert_eq!(ms.area(1).permission().bits(), 16 | 2 | 4);
    assert_eq!(ms.area(2).get_start(), VirtPageNum(0x15));
    assert_eq!(ms.area(2).get_end(), VirtPageNum(0x17));
    assert_eq!(ms.area(3).get_start(), VirtPageNum(0xf_ffff_ffff_fffe));
    assert_eq!(ms.read_byte(&k.machine.mem, VirtAddr(0x10000)), Some(1));
    assert_eq!(ms.read_byte(&k.machine.mem, VirtAddr(0x10063)), Some(100));
    assert_eq!(ms.read_byte(&k.machine.mem, VirtAddr(0x10064)), Some(0));
    assert_eq!(ms.read_byte(&k.machine.mem, VirtAddr(0x1200f)), Some(1));
    assert_eq!(ms.read_byte(&k.machine.mem, VirtAddr(0x14000)), None);
    let mem = &k.machine.mem;
    assert_eq!(read_trap_word(mem, ms, 2), Some(0x17000));
    assert_eq!(read_trap_word(mem, ms, 10), Some(0));
    assert_eq!(read_trap_word(mem, ms, 32), Some(0x8000_0000_0000_6000));
    assert_eq!(read_trap_word(mem, ms, 33), Some(0x10000));
    assert_eq!(read_trap_word(mem, ms, 34), Some(k.machine.kernel_space.token(mem)));
    assert_eq!(read_trap_word(mem, ms, 35), Some(0xffff_ffff_ffff_f000));
    assert_eq!(read_trap_word(mem, ms, 36), Some(0x8000_2000));
    assert_eq!(t.inner.task_cx_ptr, 0xffff_ffff_ffff_f000 - 104);
    let stack_top_page = VirtPageNum(0xf_ffff_ffff_fffe);
    assert_eq!(k.machine.kernel_space.load_word(mem, stack_top_page, 499), Some(0x8000_3000));
}

#[test]
fn boot_fails_without_init_program() {
    let only = vec![AppImage { name: "child".to_string(), data: program(2) }];
    assert!(Kernel::new(config(), only).is_none());
    let bad = vec![AppImage { name: "initproc".to_string(), data: vec![0u8; 64] }];
    assert!(Kernel::new(config(), bad).is_none());
}

#[test]
fn elf_parser_reads_header_and_segments() {
    let image = program(7);
    let parsed = parse_elf(&image).unwrap();
    assert_eq!(parsed.entry, 0x10000);
    assert_eq!(parsed.segments.len(), 2);
    assert_eq!(parsed.segments[0].vaddr, 0x10000);
    assert_eq!(parsed.segments[0].file_size, 100);
    assert_eq!(parsed.segments[0].mem_size, 0x1000);
    assert_eq!(parsed.segments[0].offset, 64 + 2 * 56);
    assert_eq!(parsed.segments[0].flags, 5);
    assert_eq!(parsed.segments[1].vaddr, 0x12000);
    assert_eq!(parsed.segments[1].offset, 64 + 2 * 56 + 100);
    let mut cut = image.clone();
    cut.truncate(image.len() - 1);
    assert!(parse_elf(&cut).is_none());
    let mut magic = image.clone();
    magic[0] = 0;
    assert!(parse_elf(&magic).is_none());
    assert!(parse_elf(&[]).is_none());
}

#[test]
fn from_elf_gives_frames_back_on_failure() {
    let mut mem = PhysMemory::new(0x80000, 64);
    let mut allocator = StackFrameAllocator::new(PhysPageNum(0x80000), PhysPageNum(0x80000 + 8));
    let r = MemorySet::from_elf(&mut mem, &mut allocator, &program(3), PhysPageNum(0x80030));
    assert!(r.is_none());
    assert_eq!(allocator.free_frames(), 8);
    let overlapping = make_elf(0, &[(0x10000, vec![1], 0x2000, 5), (0x11000, vec![2], 0x1000, 6)]);
    let mut allocator = StackFrameAllocator::new(PhysPageNum(0x80000), PhysPageNum(0x80000 + 60));
    assert!(MemorySet::from_elf(&mut mem, &mut allocator, &overlapping, PhysPageNum(0x80030)).is_none());
    assert_eq!(allocator.free_frames(), 60);
}

#[test]
fn mmap_create_round_trip() {
    let mut k = booted();
    let start = sys_mmap_create(&mut k, 4096, 3);
    assert!(start >= 0);
    assert_eq!(start % 4096, 0);
    let start = start as usize;
    assert_eq!(start, 0x17000);
    let data: Vec<u8> = (start..start + 4096).map(|a| a as u8).collect();
    put_user(&mut k, start, &data);
    assert_eq!(get_user(&k, start, 4096), data);
    assert_eq!(sys_munmap(&mut k, start, 4096), 4096);
    assert_eq!(sys_munmap(&mut k, start, 4096), -1);
    let i = k.current_index();
    assert_eq!(k.read_user(i, VirtAddr(start as u64), 1), None);
}

#[test]
fn mmap_checks_its_arguments() {
    let mut k = booted();
    assert_eq!(sys_mmap(&mut k, 0x100000, 4096, 0), -1);
    assert_eq!(sys_mmap(&mut k, 0x100000, 4096, 8), -1);
    assert_eq!(sys_mmap(&mut k, 0x100001, 4096, 3), -1);
    assert_eq!(sys_mmap(&mut k, 0x100000, 0x4000_0001, 3), -1);
    assert_eq!(sys_mmap(&mut k, 0x10000, 4096, 3), -1);
    assert_eq!(sys_mmap(&mut k, 0x100000, 4097, 3), 8192);
    assert_eq!(sys_mmap(&mut k, 0x101000, 4096, 3), -1);
    assert_eq!(sys_munmap(&mut k, 0x100000, 4096), -1);
    assert_eq!(sys_munmap(&mut k, 0x100001, 8192), -1);
    assert_eq!(sys_munmap(&mut k, 0x100000, 8192), 8192);
    assert_eq!(sys_mmap_create(&mut k, 4096, 0), -1);
    assert_eq!(sys_mmap_create(&mut k, 0x4000_0001, 1), -1);
    let i = k.current_index();
    let area = k.tasks[i].inner.memory_set.area_count();
    assert_eq!(sys_mmap(&mut k, 0x200000, 4096, 1), 4096);
    assert_eq!(k.tasks[i].inner.memory_set.area(area).permission().bits(), 16 | 2);
    assert!(!k.write_user(i, VirtAddr(0x200000), &vec![1]));
    assert_eq!(k.read_user(i, VirtAddr(0x200000), 1), Some(vec![0]));
}

#[test]
fn fork_copies_and_isolates() {
    let mut k = booted();
    put_user(&mut k, SCRATCH, &[11, 22, 33]);
    let pid = sys_fork(&mut k);
    assert_eq!(pid, 1);
    assert_eq!(k.tasks.len(), 2);
    assert_eq!(k.tasks[0].inner.children, vec![1]);
    assert_eq!(k.tasks[1].inner.parent, Some(0));
    assert_eq!(k.tasks[1].inner.task_status, TaskStatus::Ready);
    assert_eq!(k.tasks[1].inner.base_size, k.tasks[0].inner.base_size);
    assert_eq!(k.manager.find_task(1), Some(1));
    assert_eq!(k.read_user(1, VirtAddr(SCRATCH as u64), 3), Some(vec![11, 22, 33]));
    assert!(k.write_user(1, VirtAddr(SCRATCH as u64), &vec![1, 2, 3]));
    assert_eq!(k.read_user(0, VirtAddr(SCRATCH as u64), 3), Some(vec![11, 22, 33]));
    assert!(k.write_user(0, VirtAddr(SCRATCH as u64 + 8), &vec![9]));
    assert_eq!(k.read_user(1, VirtAddr(SCRATCH as u64 + 8), 1), Some(vec![0]));
    assert_eq!(k.load_trap_word(1, 10), Some(0));
    assert_eq!(k.load_trap_word(1, 33), k.load_trap_word(0, 33));
    assert_eq!(k.load_trap_word(1, 2), k.load_trap_word(0, 2));
    assert_eq!(k.load_trap_word(1, 35), Some(0xffff_ffff_ffff_f000 - 0x3000));
    assert_eq!(k.load_trap_word(0, 35), Some(0xffff_ffff_ffff_f000));
}

#[test]
fn fork_fails_without_frames() {
    let mut k = booted();
    while k.machine.frames.free_frames() > 3 {
        k.machine.frames.allocate();
    }
    let free = k.machine.frames.free_frames();
    assert_eq!(sys_fork(&mut k), -1);
    assert_eq!(k.tasks.len(), 1);
    assert_eq!(k.machine.frames.free_frames(), free);
}

#[test]
fn waitpid_semantics() {
    let mut k = booted();
    assert_eq!(sys_waitpid(&mut k, -1, SCRATCH), -1);
    let child = sys_fork(&mut k);
    assert_eq!(child, 1);
    assert_eq!(sys_waitpid(&mut k, child, SCRATCH), -2);
    assert_eq!(sys_waitpid(&mut k, -1, SCRATCH), -2);
    assert_eq!(sys_waitpid(&mut k, 5, SCRATCH), -1);
    assert_eq!(sys_yield(&mut k), 0);
    assert_eq!(k.current_task(), Some(1));
    let free = k.machine.frames.free_frames();
    sys_exit(&mut k, -77);
    assert!(k.machine.frames.free_frames() > free);
    assert_eq!(k.current_task(), Some(0));
    assert_eq!(k.tasks[1].inner.task_status, TaskStatus::Zombie);
    assert_eq!(k.tasks[1].inner.exit_code, -77);
    assert_eq!(sys_waitpid(&mut k, child, 0x20_0000), -1);
    assert_eq!(k.tasks.len(), 2);
    assert_eq!(sys_waitpid(&mut k, child, SCRATCH), child);
    assert_eq!(get_user(&k, SCRATCH, 4), (-77i32).to_le_bytes().to_vec());
    assert_eq!(k.tasks.len(), 1);
    assert!(k.tasks[0].inner.children.is_empty());
    assert_eq!(sys_waitpid(&mut k, child, SCRATCH), -1);
    assert_eq!(sys_fork(&mut k), 1);
}

#[test]
fn exit_gives_the_children_to_init() {
    let mut k = booted();
    assert_eq!(sys_fork(&mut k), 1);
    assert_eq!(sys_yield(&mut k), 0);
    assert_eq!(k.current_task(), Some(1));
    assert_eq!(sys_fork(&mut k), 2);
    assert_eq!(sys_fork(&mut k), 3);
    assert_eq!(k.tasks[1].inner.children, vec![2, 3]);
    assert_eq!(k.tasks[2].inner.parent, Some(1));
    sys_exit(&mut k, 5);
    assert_eq!(k.tasks[1].inner.task_status, TaskStatus::Zombie);
    assert!(k.tasks[1].inner.children.is_empty());
    assert_eq!(k.tasks[1].inner.memory_set.area_count(), 0);
    assert_eq!(k.tasks[2].inner.parent, Some(0));
    assert_eq!(k.tasks[3].inner.parent, Some(0));
    assert_eq!(k.tasks[0].inner.children, vec![1, 2, 3]);
    assert_eq!(k.current_task(), Some(0));
}

#[test]
fn round_robin_is_fair() {
    let mut k = booted();
    for expected in 1..5 {
        assert_eq!(sys_fork(&mut k), expected);
    }
    let mut order: Vec<usize> = Vec::new();
    for _ in 0..10 {
        order.push(k.current_task().unwrap());
        assert_eq!(sys_yield(&mut k), 0);
    }
    assert_eq!(order, vec![0, 1, 2, 3, 4, 0, 1, 2, 3, 4]);
    let running: Vec<usize> =
        k.tasks.iter().filter(|t| t.inner.task_status == TaskStatus::Running).map(|t| t.pid.0).collect();
    assert_eq!(running, vec![0]);
    assert_eq!(k.manager.len(), 4);
}

#[test]
fn yield_alone_keeps_running() {
    let mut k = booted();
    assert_eq!(sys_yield(&mut k), 0);
    assert_eq!(k.current_task(), Some(0));
    assert_eq!(k.tasks[0].inner.task_status, TaskStatus::Running);
    sys_exit(&mut k, 0);
    assert_eq!(k.current_task(), None);
    assert_eq!(k.run_next(), None);
}

#[test]
fn exec_replaces_the_program() {
    let mut k = booted();
    put_user(&mut k, SCRATCH, b"child\0");
    put_user(&mut k, SCRATCH + 16, b"nothing\0");
    put_user(&mut k, SCRATCH + 32, b"broken\0");
    assert_eq!(sys_exec(&mut k, SCRATCH + 16), -1);
    assert_eq!(sys_exec(&mut k, SCRATCH + 32), -1);
    assert_eq!(sys_exec(&mut k, 0x30_0000), -1);
    assert_eq!(get_user(&k, 0x10000, 2), vec![1, 2]);
    let free = k.machine.frames.free_frames();
    assert_eq!(sys_exec(&mut k, SCRATCH), 0);
    assert_eq!(k.machine.frames.free_frames(), free);
    assert_eq!(get_user(&k, 0x10000, 2), vec![2, 3]);
    assert_eq!(get_user(&k, SCRATCH, 6), vec![0; 6]);
    assert_eq!(k.tasks[0].pid.0, 0);
    assert_eq!(k.load_trap_word(0, 33), Some(0x10000));
    assert_eq!(k.load_trap_word(0, 2), Some(0x17000));
    assert_eq!(k.load_trap_word(0, 35), Some(0xffff_ffff_ffff_f000));
}

#[test]
fn create_task_and_register() {
    let mut k = booted();
    put_user(&mut k, SCRATCH, b"child\0");
    put_user(&mut k, SCRATCH + 16, b"com.test.sensor\0");
    put_user(&mut k, SCRATCH + 48, b"missing\0");
    assert_eq!(sys_create_task(&mut k, SCRATCH + 48), -1);
    assert_eq!(sys_create_task(&mut k, SCRATCH), 1);
    assert_eq!(k.tasks[1].inner.parent, Some(0));
    assert_eq!(k.tasks[0].inner.children, vec![1]);
    assert_eq!(k.read_user(1, VirtAddr(0x10000), 1), Some(vec![2]));
    assert_eq!(sys_register(&mut k, SCRATCH + 48, SCRATCH + 16), -1);
    assert_eq!(sys_register(&mut k, SCRATCH, 0x40_0000), -1);
    assert_eq!(k.tasks.len(), 2);
    assert_eq!(sys_register(&mut k, SCRATCH, SCRATCH + 16), 2);
    let service = Service::new("com.test.sensor".to_string());
    assert_eq!(k.registry.lookup(&service), Some(2));
    assert_eq!(k.registry.find_task(&service), 2);
}

#[test]
fn channel_messages_arrive_in_order() {
    let mut k = booted();
    put_user(&mut k, SCRATCH, b"child\0");
    put_user(&mut k, SCRATCH + 16, b"sensor\0");
    put_user(&mut k, SCRATCH + 32, b"hello world");
    put_user(&mut k, SCRATCH + 64, b"nobody\0");
    assert_eq!(sys_channel_read(&mut k, SCRATCH + 100, 8), -1);
    assert_eq!(sys_channel_write(&mut k, SCRATCH + 16, SCRATCH + 32, 5), -1);
    assert_eq!(sys_register(&mut k, SCRATCH, SCRATCH + 16), 1);
    assert_eq!(sys_channel_write(&mut k, SCRATCH + 64, SCRATCH + 32, 5), -1);
    assert_eq!(sys_channel_write(&mut k, SCRATCH + 16, 0x50_0000, 5), -1);
    assert_eq!(sys_channel_write(&mut k, SCRATCH + 16, SCRATCH + 32, 5), 0);
    assert_eq!(sys_channel_write(&mut k, SCRATCH + 16, SCRATCH + 38, 5), 0);
    assert_eq!(k.tasks[1].inner.channel.0.pending(), 2);
    assert_eq!(sys_yield(&mut k), 0);
    assert_eq!(k.current_task(), Some(1));
    assert_eq!(sys_channel_read(&mut k, 0x50_0000, 8), -1);
    assert_eq!(k.tasks[1].inner.channel.0.pending(), 2);
    assert_eq!(sys_channel_read(&mut k, SCRATCH + 100, 3), 0);
    assert_eq!(get_user(&k, SCRATCH + 100, 4), b"hel\0".to_vec());
    assert_eq!(sys_channel_read(&mut k, SCRATCH + 100, 27), 0);
    assert_eq!(get_user(&k, SCRATCH + 100, 6), b"world\0".to_vec());
    assert_eq!(sys_channel_read(&mut k, SCRATCH + 100, 27), -1);
    assert_eq!(sys_channel_write(&mut k, SCRATCH + 16, SCRATCH + 32, 5), -1);
}

#[test]
fn write_goes_to_the_console() {
    let mut k = booted();
    put_user(&mut k, SCRATCH, b"Hello RV");
    assert_eq!(sys_write(&mut k, 1, SCRATCH, 8), 8);
    assert_eq!(sys_write(&mut k, 2, SCRATCH, 2), 2);
    assert_eq!(sys_write(&mut k, 0, SCRATCH, 8), -1);
    assert_eq!(sys_write(&mut k, 3, SCRATCH, 8), -1);
    assert_eq!(sys_write(&mut k, 1, 0x60_0000, 8), -1);
    assert_eq!(k.take_console_output(), b"Hello RVHe".to_vec());
    assert!(k.take_console_output().is_empty());
    assert_eq!(sys_close(&mut k, 1), 0);
    assert_eq!(sys_close(&mut k, 1), -1);
    assert_eq!(sys_close(&mut k, 7), -1);
    assert_eq!(sys_write(&mut k, 1, SCRATCH, 8), -1);
    let i = k.current_index();
    assert_eq!(k.tasks[i].inner.alloc_fd(), 1);
    assert_eq!(k.tasks[i].inner.alloc_fd(), 1);
    assert_eq!(k.tasks[i].inner.fd_table.len(), 3);
}

#[test]
fn read_waits_for_the_console() {
    let mut k = booted();
    assert_eq!(sys_fork(&mut k), 1);
    assert_eq!(sys_read(&mut k, 1, SCRATCH, 1), Some(-1));
    assert_eq!(sys_read(&mut k, 0, SCRATCH, 2), Some(-1));
    assert_eq!(sys_read(&mut k, 0, 0x60_0000, 1), Some(-1));
    assert_eq!(sys_read(&mut k, 0, SCRATCH, 1), None);
    assert_eq!(k.current_task(), Some(1));
    k.push_console_input(b'x');
    k.push_console_input(b'y');
    assert_eq!(sys_yield(&mut k), 0);
    assert_eq!(k.current_task(), Some(0));
    assert_eq!(sys_read(&mut k, 0, SCRATCH, 1), Some(1));
    assert_eq!(get_user(&k, SCRATCH, 1), vec![b'x']);
    assert_eq!(sys_read(&mut k, 0, SCRATCH + 1, 1), Some(1));
    assert_eq!(get_user(&k, SCRATCH, 2), vec![b'x', b'y']);
}

#[test]
fn getpid_and_time() {
    let mut k = booted();
    assert_eq!(sys_getpid(&k), 0);
    assert_eq!(sys_fork(&mut k), 1);
    assert_eq!(sys_yield(&mut k), 0);
    assert_eq!(sys_getpid(&k), 1);
    assert_eq!(sys_get_time(1234), 1234);
    assert_eq!(k.current_user_token(), k.tasks[1].inner.get_user_token(&k.machine));
    assert_eq!(k.current_user_token() >> 60, 8);
}

#[test]
fn dispatcher_selects_by_number() {
    let mut k = booted();
    assert_eq!(syscall(&mut k, 172, [0, 0, 0], 0), SyscallResult::Done(0));
    assert_eq!(syscall(&mut k, 169, [0, 0, 0], 99), SyscallResult::Done(99));
    assert_eq!(syscall(&mut k, 220, [0, 0, 0], 0), SyscallResult::Done(1));
    assert_eq!(syscall(&mut k, 401, [4096, 3, 0], 0), SyscallResult::Done(0x17000));
    assert_eq!(syscall(&mut k, 215, [0x17000, 4096, 0], 0), SyscallResult::Done(4096));
    assert_eq!(syscall(&mut k, 222, [0x17000, 4096, 3], 0), SyscallResult::Done(4096));
    assert_eq!(syscall(&mut k, 260, [usize::MAX, SCRATCH, 0], 0), SyscallResult::Done(-2));
    assert_eq!(syscall(&mut k, 57, [2, 0, 0], 0), SyscallResult::Done(0));
    assert_eq!(syscall(&mut k, 64, [2, SCRATCH, 1], 0), SyscallResult::Done(-1));
    assert_eq!(syscall(&mut k, 63, [0, SCRATCH, 1], 0), SyscallResult::Retry);
    assert_eq!(k.current_task(), Some(1));
    assert_eq!(syscall(&mut k, 124, [0, 0, 0], 0), SyscallResult::Done(0));
    assert_eq!(syscall(&mut k, 501, [SCRATCH, 4, 0], 0), SyscallResult::Done(-1));
    assert_eq!(syscall(&mut k, 502, [SCRATCH, SCRATCH, 4], 0), SyscallResult::Done(-1));
    assert_eq!(syscall(&mut k, 221, [0x70_0000, 0, 0], 0), SyscallResult::Done(-1));
    assert_eq!(syscall(&mut k, 400, [0x70_0000, 0, 0], 0), SyscallResult::Done(-1));
    assert_eq!(syscall(&mut k, 500, [0x70_0000, SCRATCH, 0], 0), SyscallResult::Done(-1));
    assert_eq!(syscall(&mut k, 9999, [0, 0, 0], 0), SyscallResult::Unsupported);
    assert_eq!(syscall(&mut k, 93, [3, 0, 0], 0), SyscallResult::Exited(3));
    let zombie = k.tasks.iter().find(|t| t.inner.task_status == TaskStatus::Zombie).unwrap();
    assert_eq!(zombie.inner.exit_code, 3);
}

#[test]
fn cause_register_is_decoded() {
    assert_eq!(decode_cause(8), TrapCause::UserEnvCall);
    assert_eq!(decode_cause(1), TrapCause::InstructionFault);
    assert_eq!(decode_cause(2), TrapCause::IllegalInstruction);
    assert_eq!(decode_cause(5), TrapCause::LoadFault);
    assert_eq!(decode_cause(7), TrapCause::StoreFault);
    assert_eq!(decode_cause(12), TrapCause::InstructionPageFault);
    assert_eq!(decode_cause(13), TrapCause::LoadPageFault);
    assert_eq!(decode_cause(15), TrapCause::StorePageFault);
    assert_eq!(decode_cause(9), TrapCause::Other);
    assert_eq!(decode_cause((1 << 63) | 5), TrapCause::SupervisorTimer);
    assert_eq!(decode_cause((1 << 63) | 8), TrapCause::Other);
    assert_eq!(decode_cause((1 << 63) | 1), TrapCause::Other);
}

#[test]
fn trap_handler_does_system_calls() {
    let mut k = booted();
    assert!(k.store_trap_word(0, 17, 172));
    assert!(k.store_trap_word(0, 10, 55));
    let r = trap_handler(&mut k, 8, 0, 0);
    assert_eq!(r, TrapOutcome::Syscall(SyscallResult::Done(0)));
    assert_eq!(k.load_trap_word(0, 33), Some(0x10004));
    assert_eq!(k.load_trap_word(0, 10), Some(0));
    assert!(k.store_trap_word(0, 17, 220));
    let r = trap_handler(&mut k, 8, 0, 0);
    assert_eq!(r, TrapOutcome::Syscall(SyscallResult::Done(1)));
    assert_eq!(k.load_trap_word(0, 10), Some(1));
    assert_eq!(k.load_trap_word(1, 10), Some(0));
    assert_eq!(k.load_trap_word(0, 33), Some(0x10008));
    assert_eq!(k.load_trap_word(1, 33), Some(0x10008));
    assert!(k.store_trap_word(0, 17, 63));
    assert!(k.store_trap_word(0, 10, 0));
    assert!(k.store_trap_word(0, 11, SCRATCH as u64));
    assert!(k.store_trap_word(0, 12, 1));
    let r = trap_handler(&mut k, 8, 0, 0);
    assert_eq!(r, TrapOutcome::Syscall(SyscallResult::Retry));
    assert_eq!(k.current_task(), Some(1));
    assert_eq!(k.load_trap_word(0, 33), Some(0x10008));
    assert_eq!(k.load_trap_word(0, 10), Some(0));
    assert!(k.store_trap_word(1, 17, 124));
    let r = trap_handler(&mut k, 8, 0, 0);
    assert_eq!(r, TrapOutcome::Syscall(SyscallResult::Done(0)));
    assert_eq!(k.current_task(), Some(0));
    assert_eq!(k.load_trap_word(1, 33), Some(0x1000c));
    assert!(k.store_trap_word(0, 17, 4242));
    assert_eq!(trap_handler(&mut k, 8, 0, 0), TrapOutcome::Syscall(SyscallResult::Unsupported));
    assert!(k.store_trap_word(0, 17, 93));
    assert!(k.store_trap_word(0, 10, (-9i64) as u64));
    assert_eq!(trap_handler(&mut k, 8, 0, 0), TrapOutcome::Syscall(SyscallResult::Exited(-9)));
    assert_eq!(k.tasks[0].inner.exit_code, -9);
    assert_eq!(k.current_task(), Some(1));
}

#[test]
fn trap_handler_kills_on_faults_and_yields_on_timer() {
    let mut k = booted();
    assert_eq!(sys_fork(&mut k), 1);
    assert_eq!(sys_fork(&mut k), 2);
    assert_eq!(trap_handler(&mut k, (1 << 63) | 5, 0, 0), TrapOutcome::Preempted);
    assert_eq!(k.current_task(), Some(1));
    assert_eq!(k.tasks[0].inner.task_status, TaskStatus::Ready);
    let r = trap_handler(&mut k, 15, 0xdead, 0);
    assert_eq!(
        r,
        TrapOutcome::Killed { code: -2, cause: TrapCause::StorePageFault, stval: 0xdead, sepc: 0x10000 }
    );
    assert_eq!(k.tasks[1].inner.task_status, TaskStatus::Zombie);
    assert_eq!(k.tasks[1].inner.exit_code, -2);
    assert_eq!(k.current_task(), Some(2));
    let r = trap_handler(&mut k, 2, 0, 0);
    assert_eq!(
        r,
        TrapOutcome::Killed { code: -3, cause: TrapCause::IllegalInstruction, stval: 0, sepc: 0x10000 }
    );
    assert_eq!(k.tasks[2].inner.exit_code, -3);
    assert_eq!(k.current_task(), Some(0));
    assert_eq!(decode_cause(3), TrapCause::Other);
    assert_eq!(decode_cause((1 << 63) | 9), TrapCause::Other);
    assert_eq!(sys_waitpid(&mut k, -1, SCRATCH), 1);
    assert_eq!(get_user(&k, SCRATCH, 4), (-2i32).to_le_bytes().to_vec());
    assert_eq!(sys_waitpid(&mut k, 2, SCRATCH), 2);
    assert_eq!(get_user(&k, SCRATCH, 4), (-3i32).to_le_bytes().to_vec());
}

#[test]
fn registry_keeps_the_last_entry_for_a_name() {
    let mut r = Registry::new();
    let a = Service::new("a".to_string());
    let b = Service::new("b".to_string());
    assert_eq!(r.lookup(&a), None);
    r.register(&PidHandle(3), &a);
    r.register(&PidHandle(4), &b);
    assert_eq!(r.lookup(&a), Some(3));
    assert_eq!(r.find_task(&b), 4);
    r.register(&PidHandle(9), &a);
    assert_eq!(r.lookup(&a), Some(9));
    r.remove(&a);
    assert_eq!(r.lookup(&a), None);
    assert_eq!(r.lookup(&b), Some(4));
    r.remove(&a);
    assert_eq!(r.lookup(&b), Some(4));
}

#[test]
fn service_children() {
    let mut s = Service::new("root".to_string());
    assert!(s.parent.is_none());
    let x = Arc::new(Service::new("x".to_string()));
    let y = Arc::new(Service::new("y".to_string()));
    s.add_child(x.clone());
    s.add_child(y.clone());
    s.add_child(Arc::new(Service::new("x".to_string())));
    let names = |s: &Service| s.child.iter().map(|c| c.path.clone()).collect::<Vec<String>>();
    assert_eq!(names(&s), vec!["x", "y", "x"]);
    s.remove_child(Arc::new(Service::new("z".to_string())));
    assert_eq!(names(&s), vec!["x", "y", "x"]);
    s.remove_child(x.clone());
    assert_eq!(names(&s), vec!["x", "y"]);
    assert!(Arc::ptr_eq(&s.child[0], &x));
    s.remove_child(x);
    s.remove_child(y);
    assert!(s.child.is_empty());
}

#[test]
fn a_released_kernel_stack_gives_its_pages_and_frames_back() {
    let mut machine = init(config()).unwrap();
    let areas = machine.kernel_space.area_count();
    let stack = KernelStack::new(&mut machine, 3).unwrap();
    let top = stack.get_top();
    assert_eq!(machine.kernel_space.area_count(), areas + 1);
    assert!(machine.kernel_space.translate(&machine.mem, VirtPageNum(top / 4096 - 1)).is_some());
    assert!(machine.kernel_space.translate(&machine.mem, VirtPageNum(top / 4096 - 2)).is_some());
    let free = machine.frames.free_frames();
    stack.release(&mut machine);
    assert_eq!(machine.kernel_space.area_count(), areas);
    assert_eq!(machine.frames.free_frames(), free + 2);
    assert_eq!(machine.kernel_space.translate(&machine.mem, VirtPageNum(top / 4096 - 1)), None);
    assert_eq!(machine.kernel_space.translate(&machine.mem, VirtPageNum(top / 4096 - 2)), None);
    // A stack that is not mapped: nothing changes.
    KernelStack { pid: 3 }.release(&mut machine);
    assert_eq!(machine.kernel_space.area_count(), areas);
    assert_eq!(machine.frames.free_frames(), free + 2);
}

#[test]
fn fork_and_create_enter_the_child_with_the_parent() {
    let mut machine = init(config()).unwrap();
    let mut parent = TaskControlBlock::new(&mut machine, &program(1)).unwrap();
    assert_eq!(parent.getpid(), 0);
    assert!(parent.inner.children.is_empty());
    let first = parent.fork(&mut machine).unwrap();
    assert_eq!(first.getpid(), 1);
    assert_eq!(first.inner.parent, Some(0));
    assert!(first.inner.children.is_empty());
    assert_eq!(parent.inner.children, vec![1]);
    let second = parent.create(&mut machine, &program(2)).unwrap();
    assert_eq!(second.getpid(), 2);
    assert_eq!(second.inner.parent, Some(0));
    assert_eq!(parent.inner.children, vec![1, 2]);
    // A child that cannot be made is not entered.
    assert!(parent.create(&mut machine, &[1, 2, 3]).is_none());
    assert_eq!(parent.inner.children, vec![1, 2]);
    assert_eq!(parent.inner.fd_table.len(), first.inner.fd_table.len());
}

#[test]
fn refused_requests_take_and_free_no_frame() {
    let mut k = booted();
    let free = k.machine.frames.free_frames();
    let i = k.current_index();
    let areas = k.tasks[i].inner.memory_set.area_count();
    // Over a page of the program: refused, with nothing taken.
    assert_eq!(sys_mmap(&mut k, 0x10000, 4096, 3), -1);
    assert_eq!(sys_mmap(&mut k, 0x100001, 4096, 3), -1);
    assert_eq!(k.machine.frames.free_frames(), free);
    assert_eq!(k.tasks[i].inner.memory_set.area_count(), areas);
    assert!(k.tasks[i].inner.memory_set.translate(&k.machine.mem, VirtPageNum(0x10)).is_some());
    // Nothing mapped there: refused, with nothing freed.
    assert_eq!(sys_munmap(&mut k, 0x100000, 4096), -1);
    assert_eq!(k.machine.frames.free_frames(), free);
    // Two pages under a new leaf table: two frames and one table.
    assert_eq!(sys_mmap(&mut k, 0x200000, 8192, 3), 8192);
    let taken = free - k.machine.frames.free_frames();
    assert_eq!(taken, 3);
    let mid = k.machine.frames.free_frames();
    assert_eq!(sys_munmap(&mut k, 0x200000, 8192), 8192);
    assert_eq!(k.machine.frames.free_frames(), mid + 2);
    assert_eq!(k.tasks[i].inner.memory_set.translate(&k.machine.mem, VirtPageNum(0x200)), None);
    assert_eq!(k.tasks[i].inner.memory_set.translate(&k.machine.mem, VirtPageNum(0x201)), None);
    assert!(k.tasks[i].inner.memory_set.translate(&k.machine.mem, VirtPageNum(0x10)).is_some());
}

#[test]
fn exit_gives_the_frames_of_the_areas_back() {
    let mut k = booted();
    assert_eq!(sys_fork(&mut k), 1);
    sys_yield(&mut k);
    assert_eq!(k.current_task(), Some(1));
    let i = k.current_index();
    let mut pages = 0;
    for a in 0..k.tasks[i].inner.memory_set.area_count() {
        let area = k.tasks[i].inner.memory_set.area(a);
        pages += area.get_end().0 - area.get_start().0;
    }
    assert!(pages >= 5);
    let free = k.machine.frames.free_frames();
    let other = get_user(&k, 0x10000, 16);
    sys_exit(&mut k, 7);
    assert_eq!(k.machine.frames.free_frames(), free + pages);
    assert_eq!(k.tasks[i].inner.memory_set.area_count(), 0);
    assert_eq!(k.tasks[i].inner.memory_set.translate(&k.machine.mem, VirtPageNum(0x10)), None);
    // The process that runs now reads what it read before.
    assert_eq!(k.current_task(), Some(0));
    assert_eq!(get_user(&k, 0x10000, 16), other);
}

#[test]
fn mmap_create_searches_for_the_pages_of_the_request() {
    let mut k = booted();
    // One page stays free between the fixed part and an area at 0x18000.
    assert_eq!(sys_mmap(&mut k, 0x18000, 4096, 3), 4096);
    assert_eq!(sys_mmap_create(&mut k, 4096, 3), 0x17000);
    // Two pages do not fit into a gap of one page.
    assert_eq!(sys_munmap(&mut k, 0x17000, 4096), 4096);
    assert_eq!(sys_mmap_create(&mut k, 4097, 1), 0x19000);
    assert_eq!(sys_mmap_create(&mut k, 1, 3), 0x17000);
    let i = k.current_index();
    assert_eq!(k.read_user(i, VirtAddr(0x17000), 4096), Some(vec![0; 4096]));
    assert_eq!(k.read_user(i, VirtAddr(0x19000), 8192), Some(vec![0; 8192]));
    assert_eq!(k.read_user(i, VirtAddr(0x1b000), 1), None);
}

#[test]
fn exec_gives_the_frames_of_the_old_program_back() {
    let mut k = booted();
    let i = k.current_index();
    put_user(&mut k, SCRATCH, b"child\0");
    let before = k.machine.frames.free_frames();
    let held = k.tasks[i].inner.memory_set.translate(&k.machine.mem, VirtPageNum(0x10)).unwrap().ppn();
    assert!(k.machine.frames.holds(held));
    assert_eq!(sys_exec(&mut k, SCRATCH), 0);
    // The frame of the old program is free; the two programs take the same
    // number of frames.
    assert!(!k.machine.frames.holds(held));
    assert_eq!(k.machine.frames.free_frames(), before);
    put_user(&mut k, SCRATCH, b"broken\0");
    assert_eq!(sys_exec(&mut k, SCRATCH), -1);
    assert_eq!(k.machine.frames.free_frames(), before);
    put_user(&mut k, SCRATCH, b"nothing\0");
    assert_eq!(sys_exec(&mut k, SCRATCH), -1);
    assert_eq!(k.machine.frames.free_frames(), before);
}

#[test]
fn a_loaded_program_has_zeros_after_its_file_bytes() {
    let k = booted();
    // The second segment has 16 bytes in the file and two pages in memory.
    assert_eq!(get_user(&k, 0x12000, 16), vec![1; 16]);
    assert_eq!(get_user(&k, 0x12010, 4096), vec![0; 4096]);
    // The first segment has 100 bytes in the file and one page in memory.
    assert_eq!(get_user(&k, 0x10000 + 100, 3996), vec![0; 3996]);
    // The user stack is on zeroed frames.
    assert_eq!(get_user(&k, 0x15000, 8192), vec![0; 8192]);
}
