use kernel::address::{SimpleRange, VirtPageNum, VPNRange};
use kernel::fs::{File, OpenFile, Stdin, Stdout};
use kernel::ipc::{Channel, MessagePacket};
use kernel::machine::{kernel_stack_position, KernelStack};
use kernel::manager::TaskManager;
use kernel::memory_set::MapPermission;
use kernel::page_table::{calculate_root_ppn, get_vmtoken};
use kernel::address::PhysPageNum;
use kernel::pid::{pid_alloc, PidAllocator, PidHandle};
use kernel::sbi::{console_getchar, console_putchar, print, set_timer, shutdown, SbiCall};
use kernel::context::{TaskContext, TrapContext};
use kernel::syscall::{exit_code_bytes, perm_of_prot};
use kernel::user;
use kernel::user::WaitState::{Asked, Start, Yielded};

#[test]
fn pids_are_recycled() {
    let mut pids = PidAllocator::new();
    assert_eq!(pid_alloc(&mut pids), Some(PidHandle(0)));
    assert_eq!(pid_alloc(&mut pids), Some(PidHandle(1)));
    assert_eq!(pid_alloc(&mut pids), Some(PidHandle(2)));
    pids.deallocate(1);
    pids.deallocate(0);
    assert_eq!(pids.allocate(), Some(PidHandle(0)));
    assert_eq!(pids.allocate(), Some(PidHandle(1)));
    assert_eq!(pids.allocate(), Some(PidHandle(3)));
}

#[test]
fn ready_queue_is_first_in_first_out() {
    let mut m = TaskManager::new();
    assert_eq!(m.fetch(), None);
    m.add(4);
    m.add(2);
    m.add(9);
    assert_eq!(m.len(), 3);
    assert_eq!(m.find_task(2), Some(2));
    assert_eq!(m.find_task(3), None);
    assert_eq!(m.fetch(), Some(4));
    assert_eq!(m.find_task(4), None);
    assert_eq!(m.fetch(), Some(2));
    assert_eq!(m.fetch(), Some(9));
    assert_eq!(m.fetch(), None);
}

#[test]
fn channel_hands_messages_to_the_other_end() {
    let (mut inbox, outbox) = Channel::create();
    assert!(inbox.read_msg().is_none());
    assert_eq!(inbox.front_len(), None);
    outbox.write_msg(&mut inbox, MessagePacket { data: vec![1, 2, 3], handle: PidHandle(5) });
    outbox.write_msg(&mut inbox, MessagePacket { data: vec![4], handle: PidHandle(6) });
    assert_eq!(inbox.pending(), 2);
    assert_eq!(inbox.front_len(), Some(3));
    let m = inbox.read_msg().unwrap();
    assert_eq!(m.data, vec![1, 2, 3]);
    assert_eq!(m.handle, PidHandle(5));
    let m = inbox.read_msg().unwrap();
    assert_eq!(m.data, vec![4]);
    assert!(inbox.read_msg().is_none());
    assert_eq!(outbox.pending(), 0);
}

#[test]
fn console_files() {
    assert!(Stdin.readable() && !Stdin.writable());
    assert!(!Stdout.readable() && Stdout.writable());
    assert!(OpenFile::Input(Stdin).readable());
    assert!(!OpenFile::Input(Stdin).writable());
    assert!(OpenFile::Output(Stdout).writable());
    assert!(!OpenFile::Output(Stdout).readable());
}

#[test]
fn kernel_stacks_lie_below_the_trampoline() {
    assert_eq!(kernel_stack_position(0), Some((0xffff_ffff_ffff_d000, 0xffff_ffff_ffff_f000)));
    assert_eq!(kernel_stack_position(1), Some((0xffff_ffff_ffff_a000, 0xffff_ffff_ffff_c000)));
    assert_eq!(kernel_stack_position(22369620), None);
    let (bottom, _) = kernel_stack_position(22369619).unwrap();
    assert!(bottom >= 0xffff_ffc0_0000_0000);
    assert_eq!(KernelStack { pid: 2 }.get_top(), 0xffff_ffff_ffff_9000);
}

#[test]
fn tokens() {
    assert_eq!(get_vmtoken(0x80123), 0x8000_0000_0008_0123);
    assert_eq!(calculate_root_ppn(0x8000_0000_0008_0123), PhysPageNum(0x80123));
    assert_eq!(calculate_root_ppn(u64::MAX), PhysPageNum(0xfff_ffff_ffff));
}

#[test]
fn permissions() {
    assert_eq!(MapPermission::from_bits(2 | 4 | 8 | 16).unwrap().bits(), 30);
    assert!(MapPermission::from_bits(1).is_none());
    assert!(MapPermission::from_bits(32).is_none());
    assert_eq!(perm_of_prot(1).unwrap().bits(), 16 | 2);
    assert_eq!(perm_of_prot(3).unwrap().bits(), 16 | 2 | 4);
    assert_eq!(perm_of_prot(7).unwrap().bits(), 16 | 2 | 4 | 8);
    assert!(perm_of_prot(0).is_none());
    assert!(perm_of_prot(8).is_none());
    assert!(perm_of_prot(9).is_none());
    assert_eq!(exit_code_bytes(-2), vec![0xfe, 0xff, 0xff, 0xff]);
    assert_eq!(exit_code_bytes(0x0102_0304), vec![4, 3, 2, 1]);
}

#[test]
fn contexts() {
    let cx = TrapContext::app_init_context(0x1000, 0x2000, 0x122, 7, 8, 9);
    assert_eq!(cx.x[2], 0x2000);
    assert_eq!(cx.x.iter().filter(|&&r| r != 0).count(), 1);
    assert_eq!(cx.sstatus, 0x022);
    assert_eq!(cx.sepc, 0x1000);
    assert_eq!((cx.kernel_satp, cx.kernel_sp, cx.trap_handler), (7, 8, 9));
    assert_eq!(cx.word(2), 0x2000);
    assert_eq!(cx.word(32), 0x022);
    assert_eq!(cx.word(36), 9);
    let t = TaskContext::goto_trap_return(0x55);
    assert_eq!(t.ra, 0x55);
    assert_eq!(t.s, [0; 12]);
}

#[test]
fn ranges_step_through_pages() {
    let r: VPNRange = SimpleRange::new(VirtPageNum(3), VirtPageNum(6));
    assert_eq!(r.get_start(), VirtPageNum(3));
    assert_eq!(r.get_end(), VirtPageNum(6));
    let mut it = r.into_iter();
    assert_eq!(it.next(), Some(VirtPageNum(3)));
    assert_eq!(it.next(), Some(VirtPageNum(4)));
    assert_eq!(it.next(), Some(VirtPageNum(5)));
    assert_eq!(it.next(), None);
    assert_eq!(it.next(), None);
    let empty: VPNRange = SimpleRange::new(VirtPageNum(3), VirtPageNum(3));
    assert_eq!(empty.into_iter().next(), None);
    let v: VirtPageNum = 7u64.into();
    assert_eq!(u64::from(v), 7);
    assert_eq!(v.start_addr().0, 7 * 4096);
}

#[test]
fn machine_calls() {
    assert_eq!(console_putchar(65), SbiCall { which: 1, arg0: 65, arg1: 0, arg2: 0 });
    assert_eq!(console_getchar(), SbiCall { which: 2, arg0: 0, arg1: 0, arg2: 0 });
    assert_eq!(shutdown(), SbiCall { which: 8, arg0: 0, arg1: 0, arg2: 0 });
    assert_eq!(set_timer(1000), SbiCall { which: 0, arg0: 1000, arg1: 0, arg2: 0 });
    let calls = print(&b"ok".to_vec());
    assert_eq!(calls, vec![console_putchar(111), console_putchar(107)]);
}

#[test]
fn user_requests() {
    assert_eq!(user::sys_close(3), user::SyscallRequest { id: 57, args: [3, 0, 0] });
    assert_eq!(user::close(3), user::sys_close(3));
    assert_eq!(user::pipe(0x100), user::SyscallRequest { id: 59, args: [0x100, 0, 0] });
    assert_eq!(user::read(0, 0x100, 1), user::SyscallRequest { id: 63, args: [0, 0x100, 1] });
    assert_eq!(user::write(1, 0x100, 5), user::SyscallRequest { id: 64, args: [1, 0x100, 5] });
    assert_eq!(user::exit(-1), user::SyscallRequest { id: 93, args: [usize::MAX, 0, 0] });
    assert_eq!(user::yield_(), user::SyscallRequest { id: 124, args: [0, 0, 0] });
    assert_eq!(user::get_time().id, 169);
    assert_eq!(user::getpid().id, 172);
    assert_eq!(user::fork().id, 220);
    assert_eq!(user::exec(0x200), user::SyscallRequest { id: 221, args: [0x200, 0, 0] });
    assert_eq!(user::create_task(0x200), user::SyscallRequest { id: 400, args: [0x200, 0, 0] });
    assert_eq!(user::mmap(0x1000, 4096, 3), user::SyscallRequest { id: 222, args: [0x1000, 4096, 3] });
    assert_eq!(user::mmap_create(4096, 3), user::SyscallRequest { id: 401, args: [4096, 3, 0] });
    assert_eq!(user::munmap(0x1000, 4096), user::SyscallRequest { id: 215, args: [0x1000, 4096, 0] });
    assert_eq!(user::channel_read(0x300, 27), user::SyscallRequest { id: 501, args: [0x300, 27, 0] });
    assert_eq!(
        user::channel_write(0x200, 0x300, 27),
        user::SyscallRequest { id: 502, args: [0x200, 0x300, 27] }
    );
    assert_eq!(user::register(0x200, 0x280), user::SyscallRequest { id: 500, args: [0x200, 0x280, 0] });
    assert_eq!(user::sys_waitpid(-1, 8), user::SyscallRequest { id: 260, args: [usize::MAX, 8, 0] });
}

#[test]
fn user_waits_until_the_child_is_done() {
    assert_eq!(user::wait(8, Start, 0), (Asked, user::Step::Call(user::sys_waitpid(-1, 8))));
    assert_eq!(user::wait(8, Asked, -2), (Yielded, user::Step::Call(user::sys_yield())));
    // The answer to the yield is thrown away: the program asks again.
    assert_eq!(user::wait(8, Yielded, 0), (Asked, user::Step::Call(user::sys_waitpid(-1, 8))));
    assert_eq!(user::wait(8, Yielded, 7), (Asked, user::Step::Call(user::sys_waitpid(-1, 8))));
    assert_eq!(user::wait(8, Asked, -1), (Asked, user::Step::Done(-1)));
    assert_eq!(user::wait(8, Asked, 4), (Asked, user::Step::Done(4)));
    assert_eq!(user::wait(8, Asked, 0), (Asked, user::Step::Done(0)));
    assert_eq!(user::waitpid(4, 8, Start, 0), (Asked, user::Step::Call(user::sys_waitpid(4, 8))));
    assert_eq!(user::waitpid(4, 8, Asked, -2), (Yielded, user::Step::Call(user::sys_yield())));
    assert_eq!(user::waitpid(4, 8, Yielded, -2), (Asked, user::Step::Call(user::sys_waitpid(4, 8))));
    assert_eq!(user::waitpid(4, 8, Asked, 4), (Asked, user::Step::Done(4)));
    assert_eq!(user::sleep(100, 1000, 1099), user::Step::Call(user::sys_yield()));
    assert_eq!(user::sleep(100, 1000, 1100), user::Step::Done(0));
    assert_eq!(user::sleep(usize::MAX, -5, isize::MAX), user::Step::Call(user::sys_yield()));
}
