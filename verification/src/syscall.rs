//! The system calls.

use vstd::prelude::*;
use crate::address::{VirtAddr, VirtPageNum};
use crate::config::MAX_ALLOC_MEMORY;
use crate::kernel::{
    AppImage,
    Kernel,
    app_index,
    child_at,
    get_app_data_by_name,
    lists,
    others_kept,
    same_but_family,
    same_but_space,
    same_identity,
    yield_step,
};
use crate::context::trap_words;
use crate::elf::{image_ok, le64};
use crate::fs::OpenFile;
use crate::ipc::MessagePacket;
use crate::pid::PidHandle;
use crate::service::{Service, entry_of};
use crate::spaces::{TRAP_CONTEXT_VPN, enough_for};
use crate::task::{
    can_make,
    frames_kept,
    copied_with,
    init_trap_words,
    lemma_context_beside,
    lemma_copied_trap_word,
};
use crate::memory::PhysMemory;
use crate::memory_set::{AreaError, MapPermission, MapType, MemorySet, perm_bits_valid};
use crate::page_table::{PTE_R, PTE_W};
use crate::task::{TaskControlBlock, TaskStatus};

verus! {

pub const SYSCALL_CLOSE: usize = 57;

pub const SYSCALL_READ: usize = 63;

pub const SYSCALL_WRITE: usize = 64;

pub const SYSCALL_EXIT: usize = 93;

pub const SYSCALL_YIELD: usize = 124;

pub const SYSCALL_GET_TIME: usize = 169;

pub const SYSCALL_GETPID: usize = 172;

pub const SYSCALL_MUNMAP: usize = 215;

pub const SYSCALL_FORK: usize = 220;

pub const SYSCALL_EXEC: usize = 221;

pub const SYSCALL_MMAP: usize = 222;

pub const SYSCALL_WAITPID: usize = 260;

pub const SYSCALL_CREATE_TASK: usize = 400;

pub const SYSCALL_MMAP_CREATE: usize = 401;

pub const SYSCALL_SERVICE_REGISTER: usize = 500;

pub const SYSCALL_CHANNEL_READ: usize = 501;

pub const SYSCALL_CHANNEL_WRITE: usize = 502;

/// Whether `prot` asks for at least one of read (1), write (2) and execute
/// (4), and for nothing else.
pub open spec fn prot_valid(prot: usize) -> bool {
    prot & !0x7usize == 0 && prot & 0x7 != 0
}

/// The permissions of an area that user mode asked for with `prot`: open to
/// user mode, and readable, writable and executable as `prot` says.
pub open spec fn prot_perm(prot: usize) -> u8 {
    (((prot << 1) | 16) & 0xff) as u8
}

/// The permissions of an area that user mode asked for with `prot`, when
/// `prot` is valid.
pub fn perm_of_prot(prot: usize) -> (r: Option<MapPermission>)
    ensures
        r is Some <==> prot_valid(prot),
        r matches Some(p) ==> p.bits == prot_perm(prot) && perm_bits_valid(p.bits),
{
    if prot & !0x7 != 0 || prot & 0x7 == 0 {
        return None;
    }
    let bits: usize = ((prot << 1) | 16) & 0xff;
    assert(prot & !0x7usize == 0 ==> (((prot << 1) | 16) & 0xff) < 0x100 && ((((prot << 1) | 16)
        & 0xff) as u8) & 0xe1 == 0) by (bit_vector);
    Some(MapPermission { bits: bits as u8 })
}

/// What `sys_close` does.
pub open spec fn closed_file(before: &Kernel, now: &Kernel, fd: usize, r: isize) -> bool {
    &&& now.wf()
    &&& now.current == before.current
    &&& now.manager == before.manager
    &&& now.machine == before.machine
    &&& before.same_rest(now)
    &&& now.tasks@.len() == before.tasks@.len()
    &&& forall|j: int|
        0 <= j < before.tasks@.len() && j != before.running_index() ==> #[trigger] now.tasks@[j] == before.tasks@[j]
    &&& ({
        let o = before.running();
        let t = now.running();
        let open = fd < o.inner.fd_table@.len() && o.inner.fd_table@[fd as int] is Some;
        &&& r == if open {
            0isize
        } else {
            -1isize
        }
        &&& t.inner.fd_table@ == if open {
            o.inner.fd_table@.update(fd as int, None)
        } else {
            o.inner.fd_table@
        }
        &&& t.pid == o.pid
        &&& t.kernel_stack == o.kernel_stack
        &&& t.inner.memory_set == o.inner.memory_set
        &&& t.inner.task_status == o.inner.task_status
        &&& t.inner.task_cx_ptr == o.inner.task_cx_ptr
        &&& t.inner.trap_cx_ppn == o.inner.trap_cx_ppn
        &&& t.inner.base_size == o.inner.base_size
        &&& t.inner.parent == o.inner.parent
        &&& t.inner.children == o.inner.children
        &&& t.inner.exit_code == o.inner.exit_code
        &&& t.inner.channel == o.inner.channel
    })
}

/// Closes the file descriptor `fd` of the process that runs. Returns 0, or
/// -1 when `fd` is not open.
pub fn sys_close(kernel: &mut Kernel, fd: usize) -> (r: isize)
    requires
        old(kernel).wf(),
        old(kernel).current is Some,
    ensures
        closed_file(old(kernel), final(kernel), fd, r),
{
    let i = kernel.current_index();
    proof {
        kernel.lemma_running(i as int);
        kernel.lemma_running_index(i as int);
    }
    if fd >= kernel.tasks[i].inner.fd_table.len() {
        return -1;
    }
    if kernel.tasks[i].inner.fd_table[fd].is_none() {
        return -1;
    }
    kernel.tasks[i].inner.fd_table.set(fd, None);
    proof {
        old(kernel).lemma_same_spaces(kernel);
        old(kernel).lemma_same_sched(kernel);
        old(kernel).lemma_same_family(kernel);
        kernel.lemma_running(i as int);
    }
    0
}

/// The identifier of the process that runs.
pub fn sys_getpid(kernel: &Kernel) -> (r: isize)
    requires
        kernel.wf(),
        kernel.current is Some,
    ensures
        r == kernel.current->0,
{
    let i = kernel.current_index();
    proof {
        assert(kernel.tasks@[i as int].wf(&kernel.machine));
    }
    kernel.tasks[i].pid.0 as isize
}

/// The time in milliseconds, which the caller has read from the timer as
/// `now_ms`.
pub fn sys_get_time(now_ms: usize) -> (r: isize)
    ensures
        r == now_ms as isize,
{
    #[verifier::truncate]
    (now_ms as isize)
}

/// What `sys_yield` does.
pub open spec fn yield_done(before: &Kernel, now: &Kernel, r: isize) -> bool {
    &&& r == 0
    &&& now.wf()
    &&& now.current == Some(yield_step(before.current->0, before.manager@).0)
    &&& now.manager@ == yield_step(before.current->0, before.manager@).1
    &&& now.machine == before.machine
    &&& before.same_rest(now)
    &&& now.tasks@.len() == before.tasks@.len()
    &&& forall|i: int|
        0 <= i < before.tasks@.len() ==> {
            let t = #[trigger] now.tasks@[i];
            let o = before.tasks@[i];
            &&& same_but_space(o, TaskControlBlock { inner: crate::task::TaskControlBlockInner { task_status: o.inner.task_status, ..t.inner }, ..t })
            &&& t.inner.memory_set == o.inner.memory_set
            &&& t.inner.task_status == if Some(o.pid.0) == now.current {
                TaskStatus::Running
            } else if Some(o.pid.0) == before.current {
                TaskStatus::Ready
            } else {
                o.inner.task_status
            }
        }
}

/// Gives up the processor: the process that runs goes to the end of the
/// ready queue, and the process at its head runs. Returns 0.
pub fn sys_yield(kernel: &mut Kernel) -> (r: isize)
    requires
        old(kernel).wf(),
        old(kernel).current is Some,
    ensures
        yield_done(old(kernel), final(kernel), r),
{
    kernel.suspend_current_and_run_next();
    0
}

/// What `sys_exit` does.
pub open spec fn exit_done(before: &Kernel, now: &Kernel, exit_code: i32) -> bool {
    &&& now.wf()
    &&& now.current == if before.manager@.len() > 0 {
        Some(before.manager@[0])
    } else {
        None
    }
    &&& now.manager@ == if before.manager@.len() > 0 {
        before.manager@.subrange(1, before.manager@.len() as int)
    } else {
        before.manager@
    }
    &&& before.same_rest(now)
    &&& now.tasks@.len() == before.tasks@.len()
    &&& forall|i: int|
        0 <= i < before.tasks@.len() ==> before.exited(
            exit_code,
            before.tasks@[i],
            #[trigger] now.tasks@[i],
            now.current,
        )
    &&& before.space_released(now, before.running_index())
}

/// Exit reparenting: after a process other than the init process has
/// exited, every process that it listed as its child has the init process
/// as parent, and the init process lists it as its child.
pub proof fn lemma_exit_reparents(before: &Kernel, now: &Kernel, exit_code: i32, j: int)
    requires
        before.wf(),
        before.current is Some,
        before.current->0 != before.initproc,
        exit_done(before, now, exit_code),
        0 <= j < before.tasks@.len(),
        before.children_of(before.current->0).contains(before.tasks@[j].pid.0),
    ensures
        now.tasks@[j].pid == before.tasks@[j].pid,
        now.tasks@[j].inner.parent == Some(before.initproc),
        before.has_task(before.initproc),
        now.tasks@[before.index_of(before.initproc)].inner.children@.contains(before.tasks@[j].pid.0),
{
    let me = before.running_index();
    let mine = before.children_of(before.current->0);
    assert(before.has_task_in(before.current->0, TaskStatus::Running));
    let w = choose|w: int|
        0 <= w < before.tasks@.len() && (#[trigger] before.tasks@[w]).pid.0 == before.current->0
            && before.tasks@[w].inner.task_status == TaskStatus::Running;
    before.lemma_running_index(w);
    before.lemma_children_of(w);
    let at0 = choose|at: int| 0 <= at < mine.len() && mine[at] == before.tasks@[j].pid.0;
    assert(lists(before.tasks@, me, at0));
    assert(child_at(before.tasks@, me, at0) == before.tasks@[j].pid.0);
    assert(before.tasks@[j].pid.0 != before.current->0);
    assert(before.exited(exit_code, before.tasks@[j], now.tasks@[j], now.current));
    assert(before.has_task(before.initproc));
    if before.has_task(before.initproc) {
        let ii = before.index_of(before.initproc);
        let kids = before.children_of(before.current->0);
        let c = before.tasks@[j].pid.0;
        assert(before.exited(exit_code, before.tasks@[ii], now.tasks@[ii], now.current));
        let at = choose|at: int| 0 <= at < kids.len() && kids[at] == c;
        let all = before.tasks@[ii].inner.children@ + kids;
        assert(all[before.tasks@[ii].inner.children@.len() + at] == c);
    }
}

/// Ends the process that runs with the exit code `exit_code`; see
/// `Kernel::exit_current_and_run_next`. Nothing is returned to the process:
/// it never runs again.
pub fn sys_exit(kernel: &mut Kernel, exit_code: i32)
    requires
        old(kernel).wf(),
        old(kernel).current is Some,
    ensures
        exit_done(old(kernel), final(kernel), exit_code),
{
    kernel.exit_current_and_run_next(exit_code);
}

/// Whether the address space `now` is the address space `before` with one
/// more area at the end: a framed area over the pages `[s, e)` with the
/// permission bits `perm`.
pub open spec fn area_added(
    before: &crate::memory_set::MemorySet,
    now: &crate::memory_set::MemorySet,
    s: u64,
    e: u64,
    perm: u8,
) -> bool {
    &&& now.areas().len() == before.areas().len() + 1
    &&& now.areas().drop_last() == before.areas()
    &&& now.areas().last().is_framed_over(s, e)
    &&& now.areas().last().perm() == perm
}

/// Whether the pages of the last area of the address space `ms`, which was
/// just added, hold zeros in the memory `mem`, and every frame that the
/// address space `before` had for its pages holds what it held in `mem0`.
pub open spec fn area_fresh(
    before: &crate::memory_set::MemorySet,
    mem0: &PhysMemory,
    ms: &crate::memory_set::MemorySet,
    mem: &PhysMemory,
) -> bool {
    &&& forall|k: int|
        0 <= k < ms.areas().last().frames().len() ==> mem@[#[trigger] ms.areas().last().frames()[k]]
            == crate::memory::zero_frame()
    &&& forall|f: u64| #[trigger] before.data_frames().contains(f) ==> mem@[f] == mem0@[f]
}

/// Whether a request to map the `len` bytes from `start` on with `prot` is
/// in order: `prot` is valid, `len` is not above `MAX_ALLOC_MEMORY`, the
/// range does not leave the address space, and `start` is the first address
/// of a page.
pub open spec fn mmap_request_ok(start: usize, len: usize, prot: usize) -> bool {
    &&& prot_valid(prot)
    &&& len <= MAX_ALLOC_MEMORY
    &&& start + len <= u64::MAX
    &&& start % 4096 == 0
}

/// What `sys_mmap` does.
pub open spec fn mmap_done(before: &Kernel, now: &Kernel, start: usize, len: usize, prot: usize, r: isize) -> bool {
    &&& before.space_changed(before.running_index(), now)
    &&& ({
        let s = (start / 4096) as u64;
        let e = ((start + len + 4095) / 4096) as u64;
        let ms0 = before.running().inner.memory_set;
        let ms1 = now.running().inner.memory_set;
        let ok = mmap_request_ok(start, len, prot) && !ms0.any_covered(s, e)
            && crate::memory_set::range_valid(s, e) && !(ms0.trampoline() is Some && s
            <= crate::memory_set::TRAMPOLINE_VPN < e) && before.machine.frames.free_count()
            >= ms0.frames_for(&before.machine.mem, s, e);
        let refused = !mmap_request_ok(start, len, prot) || ms0.any_covered(s, e)
            || !crate::memory_set::range_valid(s, e) || (ms0.trampoline() is Some && s
            <= crate::memory_set::TRAMPOLINE_VPN < e);
        &&& r == if ok {
            (e - s) * 4096
        } else {
            -1
        }
        &&& ok ==> area_added(&ms0, &ms1, s, e, prot_perm(prot)) && area_fresh(
            &ms0,
            &before.machine.mem,
            &ms1,
            &now.machine.mem,
        )
        &&& forall|f: u64| #[trigger]
            ms0.data_frames().contains(f) ==> now.machine.mem@[f] == before.machine.mem@[f]
        &&& !ok ==> ms1.areas() == ms0.areas() && forall|v: u64|
            crate::memory_set::vpn_valid(v) ==> #[trigger] ms1.lookup(&now.machine.mem, v)
                == ms0.lookup(&before.machine.mem, v)
        &&& refused ==> ms1 == ms0 && now.machine == before.machine
        &&& ms1.trampoline() == ms0.trampoline()
        &&& now.machine.frames.free_count() <= before.machine.frames.free_count()
    })
}

/// Maps the `len` bytes from `start` on into the address space of the
/// process that runs, on fresh zeroed frames, with the permissions that
/// `prot` asks for. Returns the number of bytes of the pages that were
/// mapped.
///
/// Returns -1, with no area added, when the request is not in order, when
/// a page of the range belongs to an area already or is not a page of the
/// address space, or when the frames run out.
pub fn sys_mmap(kernel: &mut Kernel, start: usize, len: usize, prot: usize) -> (r: isize)
    requires
        old(kernel).wf(),
        old(kernel).current is Some,
    ensures
        mmap_done(old(kernel), final(kernel), start, len, prot, r),
{
    let i = kernel.current_index();
    proof {
        kernel.lemma_running(i as int);
        kernel.lemma_running_index(i as int);
        kernel.lemma_space_same(i as int);
        assert(kernel.tasks@[i as int].wf(&kernel.machine));
        kernel.tasks@[i as int].inner.memory_set.lemma_wf(&kernel.machine.mem);
    }
    let perm = match perm_of_prot(prot) {
        None => {
            return -1;
        },
        Some(p) => p,
    };
    if len > MAX_ALLOC_MEMORY as usize {
        return -1;
    }
    if start as u64 > u64::MAX - len as u64 {
        return -1;
    }
    let start_va = VirtAddr(start as u64);
    let end_va = VirtAddr(start as u64 + len as u64);
    if !start_va.aligned() {
        return -1;
    }
    if kernel.check_allocated(start_va, end_va) {
        return -1;
    }
    let res = kernel.alloc_new_frames(start_va, end_va, perm);
    proof {
        kernel.lemma_running(i as int);
        old(kernel).lemma_running(i as int);
        assert(kernel.tasks@[i as int].wf(&kernel.machine));
        if res is Ok {
            let ms0 = old(kernel).running().inner.memory_set;
            let ms1 = kernel.running().inner.memory_set;
            ms1.lemma_wf(&kernel.machine.mem);
            assert(ms1.areas()[ms1.areas().len() - 1].wf());
        }
        assert forall|f: u64| #[trigger]
            old(kernel).running().inner.memory_set.data_frames().contains(f) implies kernel.machine.mem@[f]
            == old(kernel).machine.mem@[f] by {
            let ms0 = old(kernel).running().inner.memory_set;
            assert(ms0.frames().contains(f));
            assert(old(kernel).machine.frames.is_allocated(f));
        }
        if res is Err {
            let err = res->Err_0;
            assert(res == Err::<(), AreaError>(err));
            match err {
                AreaError::InvalidRange => {},
                AreaError::Overlap => {},
                AreaError::NoSuchArea => {},
                AreaError::OutOfFrames => {},
            }
        }
    }
    match res {
        Err(_) => -1,
        Ok(_) => {
            let pages: u64 = end_va.ceil().0 - start_va.floor().0;
            assert(pages <= 0x40002);
            (pages * 4096) as isize
        },
    }
}

/// Whether `u` is the lowest page from which `n` free pages start in the
/// address space `ms`.
pub open spec fn first_fit(ms: &crate::memory_set::MemorySet, u: u64, n: nat) -> bool {
    ms.fits(u, n) && forall|w: u64| w < u ==> !ms.fits(w, n)
}

/// What `sys_mmap_create` does.
pub open spec fn mmap_create_done(before: &Kernel, now: &Kernel, len: usize, prot: usize, r: isize) -> bool {
    &&& before.space_changed(before.running_index(), now)
    &&& ({
        let ms0 = before.running().inner.memory_set;
        let ms1 = now.running().inner.memory_set;
        let pages = ((len + 4095) / 4096) as nat;
        &&& r == -1 ==> ms1.areas() == ms0.areas()
        &&& r != -1 ==> {
            &&& prot_valid(prot)
            &&& len <= MAX_ALLOC_MEMORY
            &&& r >= 0
            &&& r % 4096 == 0
            &&& first_fit(&ms0, (r / 4096) as u64, pages)
            &&& area_added(
                &ms0,
                &ms1,
                (r / 4096) as u64,
                (r / 4096 + pages) as u64,
                prot_perm(prot),
            )
            &&& area_fresh(&ms0, &before.machine.mem, &ms1, &now.machine.mem)
        }
        &&& forall|f: u64| #[trigger]
            ms0.data_frames().contains(f) ==> now.machine.mem@[f] == before.machine.mem@[f]
        &&& !prot_valid(prot) || len > MAX_ALLOC_MEMORY || (forall|u: u64|
            !ms0.fits(u, pages)) ==> r == -1 && ms1 == ms0 && now.machine == before.machine
        &&& r == -1 ==> forall|v: u64|
            crate::memory_set::vpn_valid(v) ==> #[trigger] ms1.lookup(&now.machine.mem, v)
                == ms0.lookup(&before.machine.mem, v)
        &&& ms1.trampoline() == ms0.trampoline()
        &&& now.machine.frames.free_count() <= before.machine.frames.free_count()
        &&& r != -1 ==> before.machine.frames.free_count() >= ms0.frames_for(
            &before.machine.mem,
            (r / 4096) as u64,
            (r / 4096 + pages) as u64,
        )
        &&& prot_valid(prot) && len <= MAX_ALLOC_MEMORY && (exists|u: u64|
            first_fit(&ms0, u, pages) && u * 4096 <= isize::MAX
                && before.machine.frames.free_count() >= ms0.frames_for(
                &before.machine.mem,
                u,
                (u + pages) as u64,
            )) ==> r != -1
    })
}

/// Maps `len` bytes into the address space of the process that runs, at
/// an address that the kernel picks, on fresh zeroed frames, with the
/// permissions that `prot` asks for. Returns the address.
///
/// The area has the pages that `len` bytes take, and starts at the lowest
/// page above the fixed part of the address space from which that many
/// pages are free.
///
/// Returns -1, with no area added, when `prot` is not valid, when `len` is
/// above `MAX_ALLOC_MEMORY`, when there is no such page, or when the frames
/// run out.
pub fn sys_mmap_create(kernel: &mut Kernel, len: usize, prot: usize) -> (r: isize)
    requires
        old(kernel).wf(),
        old(kernel).current is Some,
    ensures
        mmap_create_done(old(kernel), final(kernel), len, prot, r),
{
    let i = kernel.current_index();
    proof {
        kernel.lemma_running(i as int);
        kernel.lemma_running_index(i as int);
        kernel.lemma_space_same(i as int);
        assert(kernel.tasks@[i as int].wf(&kernel.machine));
        kernel.tasks@[i as int].inner.memory_set.lemma_wf(&kernel.machine.mem);
    }
    let perm = match perm_of_prot(prot) {
        None => {
            return -1;
        },
        Some(p) => p,
    };
    if len > MAX_ALLOC_MEMORY as usize {
        return -1;
    }
    let pages: usize = if len % 4096 == 0 {
        len / 4096
    } else {
        len / 4096 + 1
    };
    let start = match kernel.find_free_frames(pages) {
        None => {
            return -1;
        },
        Some(v) => v,
    };
    let start_va: u64 = start.0 * 4096;
    if start_va > isize::MAX as u64 {
        return -1;
    }
    let ghost before = kernel.running().inner.memory_set;
    let ghost s = start.0;
    let ghost e = ((start_va + len + 4095) / 4096) as u64;
    proof {
        assert(pages == (len + 4095) / 4096);
        assert(e == s + pages);
        assert(!before.any_covered(s, e)) by {
            if before.any_covered(s, e) {
                let v = choose|v: u64| s <= v < e && before.covered(v);
                assert(!before.covered(v));
            }
        }
        kernel.tasks@[i as int].inner.memory_set.lemma_wf(&kernel.machine.mem);
        assert(crate::memory_set::range_valid(s, e));
    }
    let res = kernel.alloc_new_frames(VirtAddr(start_va), VirtAddr(start_va + len as u64), perm);
    proof {
        kernel.lemma_running(i as int);
        old(kernel).lemma_running(i as int);
        assert(kernel.tasks@[i as int].wf(&kernel.machine));
        if res is Ok {
            let ms0 = old(kernel).running().inner.memory_set;
            let ms1 = kernel.running().inner.memory_set;
            ms1.lemma_wf(&kernel.machine.mem);
            assert(ms1.areas()[ms1.areas().len() - 1].wf());
        }
        assert forall|f: u64| #[trigger]
            old(kernel).running().inner.memory_set.data_frames().contains(f) implies kernel.machine.mem@[f]
            == old(kernel).machine.mem@[f] by {
            let ms0 = old(kernel).running().inner.memory_set;
            assert(ms0.frames().contains(f));
            assert(old(kernel).machine.frames.is_allocated(f));
        }
        if res is Err {
            let err = res->Err_0;
            assert(res == Err::<(), AreaError>(err));
            match err {
                AreaError::InvalidRange => {},
                AreaError::Overlap => {},
                AreaError::NoSuchArea => {},
                AreaError::OutOfFrames => {},
            }
        }
    }
    match res {
        Err(_) => -1,
        Ok(_) => start_va as isize,
    }
}

/// Whether a request to unmap the `len` bytes from `start` on is in order:
/// the range does not leave the address space, and `start` is the first
/// address of a page.
pub open spec fn munmap_request_ok(start: usize, len: usize) -> bool {
    &&& start + len <= u64::MAX
    &&& start % 4096 == 0
}

/// What `sys_munmap` does.
pub open spec fn munmap_done(before: &Kernel, now: &Kernel, start: usize, len: usize, r: isize) -> bool {
    &&& before.space_changed(before.running_index(), now)
    &&& ({
        let s = (start / 4096) as u64;
        let e = ((start + len + 4095) / 4096) as u64;
        let ms0 = before.running().inner.memory_set;
        let ms1 = now.running().inner.memory_set;
        let ok = munmap_request_ok(start, len) && ms0.all_covered(s, e)
            && ms0.framed_area_at(s, e) is Some && (e - s) * 4096 <= isize::MAX;
        &&& r == if ok {
            ((e - s) * 4096) as isize
        } else {
            -1isize
        }
        &&& ok ==> before.unmapped(now, s, e)
        &&& !ok ==> ms1 == ms0 && now.machine == before.machine
    })
}

/// The round trip of a mapping: what `sys_mmap_create` has mapped for
/// `len` bytes, more than none, `sys_munmap` unmaps, and returns the number
/// of bytes of its pages; the same request again finds nothing to unmap
/// and returns -1.
pub proof fn lemma_map_then_unmap(
    k0: &Kernel,
    k1: &Kernel,
    k2: &Kernel,
    k3: &Kernel,
    len: usize,
    prot: usize,
    start: isize,
    r2: isize,
    r3: isize,
)
    requires
        k0.wf(),
        k0.current is Some,
        len > 0,
        mmap_create_done(k0, k1, len, prot, start),
        start != -1,
        munmap_done(k1, k2, start as usize, len, r2),
        munmap_done(k2, k3, start as usize, len, r3),
    ensures
        start % 4096 == 0,
        r2 == ((len + 4095) / 4096) * 4096,
        r3 == -1,
        k3.machine == k2.machine,
{
    let s = (start / 4096) as u64;
    let pages = (len + 4095) / 4096;
    let e = (s + pages) as u64;
    let ms1 = k1.running().inner.memory_set;
    let ms2 = k2.running().inner.memory_set;
    let n = ms1.areas().len() - 1;
    assert(k1.wf());
    let w = k1.running_index();
    assert(k1.has_task_in(k1.current->0, TaskStatus::Running));
    let w1 = choose|w1: int|
        0 <= w1 < k1.tasks@.len() && (#[trigger] k1.tasks@[w1]).pid.0 == k1.current->0
            && k1.tasks@[w1].inner.task_status == TaskStatus::Running;
    k1.lemma_running(w1);
    assert(k1.tasks@[w1].wf(&k1.machine));
    ms1.lemma_wf(&k1.machine.mem);
    assert(e == ((start as usize + len + 4095) / 4096) as u64);
    assert(ms1.areas()[n].is_framed_over(s, e));
    assert(ms1.areas()[n].wf());
    assert(ms1.all_covered(s, e)) by {
        assert forall|v: u64| s <= v < e implies ms1.covered(v) by {
            assert(ms1.areas()[n].contains(v));
        }
    }
    assert(ms1.framed_area_at(s, e) is Some);
    let at = ms1.framed_area_at(s, e)->0;
    assert(k1.unmapped(k2, s, e));
    // After the area has gone, no area holds the first page of the range.
    assert(k2.wf());
    assert(k2.has_task_in(k2.current->0, TaskStatus::Running));
    let w2 = choose|w2: int|
        0 <= w2 < k2.tasks@.len() && (#[trigger] k2.tasks@[w2]).pid.0 == k2.current->0
            && k2.tasks@[w2].inner.task_status == TaskStatus::Running;
    k2.lemma_running(w2);
    assert(k2.tasks@[w2].wf(&k2.machine));
    ms2.lemma_wf(&k2.machine.mem);
    if ms2.covered(s) {
        let j = choose|j: int| 0 <= j < ms2.areas().len() && (#[trigger] ms2.areas()[j]).contains(s);
        let j1 = if j < at {
            j
        } else {
            j + 1
        };
        assert(ms1.areas()[j1] == ms2.areas()[j]);
        assert(ms1.areas()[at].contains(s));
        ms1.lemma_areas_apart(&k1.machine.mem, at, j1, s);
    }
    assert(!ms2.all_covered(s, e));
}

/// Unmaps the `len` bytes from `start` on from the address space of the
/// process that runs, and gives the frames back. Returns the number of
/// bytes of the pages that were unmapped.
///
/// Returns -1, with nothing changed, when the request is not in order, when
/// a page of the range belongs to no area, or when no framed area has
/// exactly the pages of the range.
pub fn sys_munmap(kernel: &mut Kernel, start: usize, len: usize) -> (r: isize)
    requires
        old(kernel).wf(),
        old(kernel).current is Some,
    ensures
        munmap_done(old(kernel), final(kernel), start, len, r),
{
    let i = kernel.current_index();
    proof {
        kernel.lemma_running(i as int);
        kernel.lemma_running_index(i as int);
        kernel.lemma_space_same(i as int);
    }
    if start as u64 > u64::MAX - len as u64 {
        return -1;
    }
    let start_va = VirtAddr(start as u64);
    let end_va = VirtAddr(start as u64 + len as u64);
    if !start_va.aligned() {
        return -1;
    }
    if !kernel.check_all_allocated(start_va, end_va) {
        return -1;
    }
    let pages: u64 = end_va.ceil().0 - start_va.floor().0;
    if pages > (isize::MAX as u64) / 4096 {
        return -1;
    }
    let res = kernel.dealloc_frames(start_va, end_va);
    proof {
        kernel.lemma_running(i as int);
    }
    match res {
        Err(_) => -1,
        Ok(_) => (pages * 4096) as isize,
    }
}

/// What `sys_fork` does.
pub open spec fn fork_done(before: &Kernel, now: &Kernel, r: isize) -> bool {
    &&& now.wf()
    &&& now.current == before.current
    &&& before.same_rest(now)
    &&& now.machine.config == before.machine.config
    &&& before.running().can_fork(&before.machine) ==> r != -1
    &&& r == -1 ==> now.tasks@ == before.tasks@ && now.manager == before.manager
    &&& r != -1 ==> before.forked(now, r)
    &&& before.all_kept(now)
    &&& before.machine.kept_but(&now.machine, before.machine.kernel_space.table().frames())
    &&& frames_kept(&before.machine, &now.machine, if r == -1 {
        Set::<u64>::empty()
    } else {
        now.tasks@.last().inner.memory_set.frames()
    })
}

/// Makes a child of the process that runs as a copy of it, and puts the
/// child at the end of the ready queue. Returns the identifier of the child
/// to the process; the child finds 0 returned when it runs.
///
/// The child has a copy of the address space on frames of its own, the same
/// open files in a table of its own, and a channel of its own.
///
/// Returns -1, with no process added, when the process cannot be copied:
/// when no identifier is left or when the frames run out.
pub fn sys_fork(kernel: &mut Kernel) -> (r: isize)
    requires
        old(kernel).wf(),
        old(kernel).current is Some,
    ensures
        fork_done(old(kernel), final(kernel), r),
{
    let i = kernel.current_index();
    let ghost k0 = *kernel;
    proof {
        kernel.lemma_running(i as int);
        kernel.lemma_running_index(i as int);
        assert(kernel.tasks@[i as int].wf(&kernel.machine));
    }
    let child = match kernel.tasks[i].fork(&mut kernel.machine) {
        None => {
            proof {
                assert(kernel.tasks@ =~= k0.tasks@);
                k0.lemma_nothing_added(kernel);
            }
            return -1;
        },
        Some(c) => c,
    };
    let ghost k1 = *kernel;
    let ghost top = child.kernel_stack.top();
    proof {
        assert(k0.tasks@[i as int].wf(&k0.machine));
        k0.lemma_child_entered(&k1, i as int, child.pid.0);
        k0.lemma_ready_to_add(&k1, &child);
    }
    let pid: usize = child.pid.0;
    kernel.add_task(child);
    let ghost k3 = *kernel;
    let n: usize = kernel.tasks.len() - 1;
    proof {
        assert(k3.tasks@[n as int] == child);
    }
    let ok = kernel.store_trap_word(n, 10, 0);
    proof {
        let parent = k0.tasks@[i as int].inner.memory_set;
        assert(child.wf(&k3.machine));
        lemma_copied_trap_word(
            &parent,
            &k0.machine.mem,
            &child.inner.memory_set,
            &k3.machine.mem,
            &kernel.machine.mem,
            seq![(35int, top)],
            10,
            0,
        );
        lemma_context_beside(
            &child,
            &k3.machine,
            &kernel.machine,
            k3.machine.config.trap_return,
            10,
            0,
        );
        assert(seq![(35int, top)].push((10int, 0u64)) =~= seq![(35int, top), (10int, 0u64)]);
        assert(k0.machine.kept_but(&kernel.machine, k0.machine.kernel_space.table().frames())) by {
            assert forall|f: u64|
                k0.machine.mem.has_frame(f) && !k0.machine.frames.is_free(f)
                    && !k0.machine.kernel_space.table().frames().contains(f) implies #[trigger] kernel.machine.mem@[f]
                == k0.machine.mem@[f] by {
                let cf = child.inner.memory_set;
                assert(k3.machine == k1.machine);
                assert(k0.machine.kept_but(&k1.machine, k0.machine.kernel_space.table().frames()));
                assert(k1.machine.mem@[f] == k0.machine.mem@[f]);
                cf.lemma_page_frame_wf(&k3.machine.mem, TRAP_CONTEXT_VPN);
                if cf.frames().contains(f) {
                    assert(k1.machine.kernel_space.frames().union(cf.frames()).contains(f));
                    assert(k0.machine.kernel_space.frames().union(Set::<u64>::empty()).contains(f));
                    assert(k1.machine.kernel_space.frames().contains(f));
                    assert(child.wf(&k1.machine));
                }
            }
        }
        assert forall|j: int| 0 <= j < k0.tasks@.len() && j != i implies #[trigger] kernel.tasks@[j]
            == k0.tasks@[j] by {
            assert(k1.tasks@[j] == k0.tasks@[j]);
            assert(k3.tasks@[j] == k1.tasks@[j]);
        }
        assert(k3.tasks@[i as int] == k1.tasks@[i as int]);
    }
    pid as isize
}

/// Whether a wait for `pid` is a wait for the child `c`: `pid` is -1, which
/// stands for any child, or is the identifier of `c`.
pub open spec fn wait_matches(pid: isize, c: usize) -> bool {
    pid == -1 || pid == c
}

/// Whether one of the children `kids` is waited for.
pub open spec fn any_match(kids: Seq<usize>, pid: isize) -> bool {
    exists|idx: int| 0 <= idx < kids.len() && wait_matches(pid, #[trigger] kids[idx])
}

/// Whether the child at the place `idx` of `kids` is waited for and is a
/// zombie.
pub open spec fn waitable(kernel: &Kernel, kids: Seq<usize>, pid: isize, idx: int) -> bool {
    0 <= idx < kids.len() && wait_matches(pid, kids[idx]) && kernel.has_task_in(
        kids[idx],
        TaskStatus::Zombie,
    )
}

/// The place in `kids` of the first child that is waited for and is a
/// zombie.
pub open spec fn first_waitable(kernel: &Kernel, kids: Seq<usize>, pid: isize) -> Option<int> {
    if exists|idx: int| #[trigger] waitable(kernel, kids, pid, idx) {
        Some(
            choose|idx: int|
                #[trigger] waitable(kernel, kids, pid, idx) && forall|j: int|
                    0 <= j < idx ==> !#[trigger] waitable(kernel, kids, pid, j),
        )
    } else {
        None
    }
}

/// The four bytes of `code`, the lowest first.
pub open spec fn code_bytes(code: i32) -> Seq<u8> {
    let x = code as u32;
    seq![
        (x & 0xff) as u8,
        ((x >> 8) & 0xff) as u8,
        ((x >> 16) & 0xff) as u8,
        ((x >> 24) & 0xff) as u8,
    ]
}

/// The four bytes of `code`, the lowest first.
pub fn exit_code_bytes(code: i32) -> (r: Vec<u8>)
    ensures
        r@ == code_bytes(code),
{
    let x: u32 = code as u32;
    let mut r: Vec<u8> = Vec::new();
    assert((x & 0xff) < 0x100 && ((x >> 8) & 0xff) < 0x100 && ((x >> 16) & 0xff) < 0x100 && ((x
        >> 24) & 0xff) < 0x100) by (bit_vector);
    r.push((x & 0xff) as u8);
    r.push(((x >> 8) & 0xff) as u8);
    r.push(((x >> 16) & 0xff) as u8);
    r.push(((x >> 24) & 0xff) as u8);
    assert(r@ =~= code_bytes(code));
    r
}

/// Looks through the children of the process at the place `i` for those
/// that a wait for `pid` waits for. Returns whether there is one, and the
/// place among the children and in the table of processes of the first one
/// that is a zombie.
fn scan_children(kernel: &Kernel, i: usize, pid: isize) -> (r: (bool, Option<(usize, usize)>))
    requires
        kernel.wf(),
        i < kernel.tasks@.len(),
    ensures
        r.0 == any_match(kernel.tasks@[i as int].inner.children@, pid),
        r.1 is Some <==> first_waitable(kernel, kernel.tasks@[i as int].inner.children@, pid) is Some,
        r.1 matches Some((idx, ci)) ==> {
            &&& first_waitable(kernel, kernel.tasks@[i as int].inner.children@, pid) == Some(idx as int)
            &&& idx < kernel.tasks@[i as int].inner.children@.len()
            &&& ci < kernel.tasks@.len()
            &&& kernel.tasks@[ci as int].pid.0 == kernel.tasks@[i as int].inner.children@[idx as int]
            &&& kernel.tasks@[ci as int].inner.task_status == TaskStatus::Zombie
        },
{
    let ghost kids = kernel.tasks@[i as int].inner.children@;
    let mut any: bool = false;
    let mut at: Option<(usize, usize)> = None;
    let mut k: usize = 0;
    while k < kernel.tasks[i].inner.children.len()
        invariant
            k <= kids.len(),
            i < kernel.tasks@.len(),
            kids == kernel.tasks@[i as int].inner.children@,
            kernel.wf(),
            any == exists|idx: int| 0 <= idx < k && wait_matches(pid, #[trigger] kids[idx]),
            at is None ==> forall|j: int| 0 <= j < k ==> !#[trigger] waitable(kernel, kids, pid, j),
            at matches Some((idx, ci)) ==> {
                &&& idx < k
                &&& waitable(kernel, kids, pid, idx as int)
                &&& forall|j: int| 0 <= j < idx ==> !#[trigger] waitable(kernel, kids, pid, j)
                &&& ci < kernel.tasks@.len()
                &&& kernel.tasks@[ci as int].pid.0 == kids[idx as int]
                &&& kernel.tasks@[ci as int].inner.task_status == TaskStatus::Zombie
            },
        decreases kids.len() - k,
    {
        let c: usize = kernel.tasks[i].inner.children[k];
        if pid == -1 || (pid >= 0 && pid as usize == c) {
            any = true;
            if at.is_none() {
                match kernel.find(c) {
                    None => {
                        proof {
                            if kernel.has_task_in(c, TaskStatus::Zombie) {
                                let j = choose|j: int|
                                    0 <= j < kernel.tasks@.len() && (#[trigger] kernel.tasks@[j]).pid.0
                                        == c && kernel.tasks@[j].inner.task_status
                                        == TaskStatus::Zombie;
                                assert(kernel.has_task(c));
                            }
                        }
                    },
                    Some(ci) => {
                        if kernel.tasks[ci].inner.is_zombie() {
                            at = Some((k, ci));
                            proof {
                                assert(kernel.has_task_in(c, TaskStatus::Zombie));
                            }
                        } else {
                            proof {
                                if kernel.has_task_in(c, TaskStatus::Zombie) {
                                    let j = choose|j: int|
                                        0 <= j < kernel.tasks@.len() && (#[trigger] kernel.tasks@[j]).pid.0
                                            == c && kernel.tasks@[j].inner.task_status
                                            == TaskStatus::Zombie;
                                    assert(kernel.tasks@[j].pid == kernel.tasks@[ci as int].pid);
                                }
                            }
                        }
                    },
                }
            }
        }
        proof {
            let w = exists|idx: int| 0 <= idx < k && wait_matches(pid, #[trigger] kids[idx]);
            if wait_matches(pid, c) {
                assert(wait_matches(pid, kids[k as int]));
            }
            assert(any == exists|idx: int| 0 <= idx < k + 1 && wait_matches(pid, #[trigger] kids[idx])) by {
                if exists|idx: int| 0 <= idx < k + 1 && wait_matches(pid, #[trigger] kids[idx]) {
                    let idx = choose|idx: int| 0 <= idx < k + 1 && wait_matches(pid, #[trigger] kids[idx]);
                    if idx < k {
                        assert(w);
                    }
                }
                if w {
                    let idx = choose|idx: int| 0 <= idx < k && wait_matches(pid, #[trigger] kids[idx]);
                    assert(0 <= idx < k + 1 && wait_matches(pid, kids[idx]));
                }
            }
        }
        k = k + 1;
    }
    proof {
        match at {
            None => {
                assert forall|idx: int| !#[trigger] waitable(kernel, kids, pid, idx) by {}
            },
            Some((idx, ci)) => {
                let f = first_waitable(kernel, kids, pid)->0;
                assert(waitable(kernel, kids, pid, idx as int));
                if f < idx {
                    assert(!waitable(kernel, kids, pid, f));
                }
                if idx < f {
                    assert(!waitable(kernel, kids, pid, idx as int));
                }
            },
        }
    }
    (any, at)
}

/// Whether `now` is the kernel `before` after the process that runs has
/// fetched the zombie child at the place `idx` of its children: the child
/// is gone from the table of processes and from the children of the process,
/// its identifier is free, and its exit code stands at the address `ptr` in
/// the memory of the process. The other processes are as they were.
pub open spec fn waited(before: &Kernel, now: &Kernel, idx: int, ptr: usize) -> bool {
    let i = before.running_index();
    let o = before.tasks@[i];
    let c = o.inner.children@[idx];
    let t = now.running();
    let ms = o.inner.memory_set;
    &&& before.has_task_in(c, TaskStatus::Zombie)
    &&& !now.has_task(c)
    &&& !now.machine.pids.is_allocated(c)
    &&& now.machine.pids.next_pid() == Some(c)
    &&& now.tasks@.len() == before.tasks@.len() - 1
    &&& forall|j: int|
        0 <= j < before.tasks@.len() && j != i && (#[trigger] before.tasks@[j]).pid.0 != c
            ==> now.tasks@.contains(before.tasks@[j])
    &&& same_but_family(o, t)
    &&& t.inner.parent == o.inner.parent
    &&& t.inner.children@ == o.inner.children@.remove(idx)
    &&& forall|k: int|
        0 <= k < 4 ==> now.machine.mem.byte(#[trigger] ms.write_addr(&before.machine.mem, ptr as u64, k))
            == code_bytes(before.exit_code_of(c))[k]
}

/// What the fetching of the zombie child at the place `idx` of the children
/// of the process that runs leaves alone and gives back: the frames of the
/// page table of the child are free; every process but the child
/// translates as before; the frames of every process but the child and the
/// process that runs hold what they held; and so do the frames of the
/// process that runs, but for the four bytes at `ptr`.
pub open spec fn waited_kept(before: &Kernel, now: &Kernel, idx: int, ptr: usize) -> bool {
    let i = before.running_index();
    let o = before.tasks@[i];
    let c = o.inner.children@[idx];
    let ms = o.inner.memory_set;
    &&& now.machine.config == before.machine.config
    &&& before.machine.kept_but(
        &now.machine,
        before.machine.kernel_space.table().frames().union(
            before.tasks@[before.index_of(c)].inner.memory_set.frames(),
        ).union(ms.frames()),
    )
    &&& forall|q: u64| #[trigger]
        before.tasks@[before.index_of(c)].inner.memory_set.frames().contains(q)
            ==> now.machine.frames.is_free(q)
    &&& forall|j: int|
        0 <= j < before.tasks@.len() && (#[trigger] before.tasks@[j]).pid.0 != c ==> {
            let t = before.tasks@[j];
            &&& forall|v: u64| #[trigger]
                t.inner.memory_set.lookup(&now.machine.mem, v) == t.inner.memory_set.lookup(
                    &before.machine.mem,
                    v,
                )
            &&& j != i ==> forall|f: u64| #[trigger]
                t.inner.memory_set.frames().contains(f) ==> now.machine.mem@[f]
                    == before.machine.mem@[f]
        }
    &&& forall|pa: u64|
        ms.frames().contains((pa / 4096) as u64) && !(exists|k: int|
            0 <= k < 4 && #[trigger] ms.write_hits(&before.machine.mem, ptr as u64, k, pa))
            ==> #[trigger] now.machine.mem.byte(pa) == before.machine.mem.byte(pa)
}

/// The three steps of fetching a child leave alone and give back what
/// `waited_kept` says.
proof fn lemma_waited_kept(
    k0: &Kernel,
    k1: &Kernel,
    k2: &Kernel,
    k3: &Kernel,
    i: int,
    idx: int,
    ci: int,
    i2: int,
    ptr: usize,
)
    requires
        k0.wf(),
        0 <= i < k0.tasks@.len(),
        k0.running_index() == i,
        0 <= idx < k0.tasks@[i].inner.children@.len(),
        0 <= ci < k0.tasks@.len(),
        ci != i,
        i2 == if i < ci {
            i
        } else {
            i - 1
        },
        k0.tasks@[ci].pid.0 == k0.tasks@[i].inner.children@[idx],
        k1.machine == k0.machine,
        k1.tasks@.len() == k0.tasks@.len(),
        forall|j: int| 0 <= j < k0.tasks@.len() && j != i ==> #[trigger] k1.tasks@[j] == k0.tasks@[j],
        k1.tasks@[i].inner.memory_set == k0.tasks@[i].inner.memory_set,
        k2.tasks@ == k1.tasks@.remove(ci),
        k2.machine.config == k1.machine.config,
        k2.wf(),
        forall|q: u64|
            k1.tasks@[ci].inner.memory_set.frames().contains(q) ==> k2.machine.frames.is_free(q),
        forall|j: int|
            0 <= j < k1.tasks@.len() && j != ci ==> {
                let t = #[trigger] k1.tasks@[j];
                &&& forall|v: u64| #[trigger]
                    t.inner.memory_set.lookup(&k2.machine.mem, v) == t.inner.memory_set.lookup(
                        &k1.machine.mem,
                        v,
                    )
                &&& forall|f: u64| #[trigger]
                    t.inner.memory_set.frames().contains(f) ==> k2.machine.mem@[f] == k1.machine.mem@[f]
            },
        k2.space_changed(i2, k3),
        k1.machine.kept_but(
            &k2.machine,
            k1.machine.kernel_space.table().frames().union(k1.tasks@[ci].inner.memory_set.frames()),
        ),
        k3.machine.frames == k2.machine.frames,
        k2.machine.mem.base() == k1.machine.mem.base(),
        k2.machine.mem.frame_count() == k1.machine.mem.frame_count(),
        forall|f: u64|
            k2.machine.mem.has_frame(f) && !k0.tasks@[i].inner.memory_set.data_frames().contains(f)
                ==> #[trigger] k3.machine.mem@[f] == k2.machine.mem@[f],
        forall|v: u64| #[trigger]
            k0.tasks@[i].inner.memory_set.lookup(&k3.machine.mem, v)
                == k0.tasks@[i].inner.memory_set.lookup(&k2.machine.mem, v),
        others_kept(&k0.tasks@[i].inner.memory_set, &k2.machine, &k3.machine, ptr as u64, 4)
            || k3.machine.mem@ == k2.machine.mem@,
    ensures
        waited_kept(k0, k3, idx, ptr),
{
    let o = k0.tasks@[i];
    let ms = o.inner.memory_set;
    let c = o.inner.children@[idx];
    k0.lemma_index_of(ci);
    assert(k0.index_of(c) == ci);
    assert(k1.tasks@[ci] == k0.tasks@[ci]);
    assert(k2.tasks@[i2] == k1.tasks@[i]);
    assert forall|f: u64|
        k0.machine.mem.has_frame(f) && !k0.machine.frames.is_free(f)
            && !k0.machine.kernel_space.table().frames().union(
            k0.tasks@[ci].inner.memory_set.frames(),
        ).union(ms.frames()).contains(f) implies #[trigger] k3.machine.mem@[f] == k0.machine.mem@[f] by {
        assert(k1.machine.mem.has_frame(f) && !k1.machine.frames.is_free(f));
        assert(k1.tasks@[ci].inner.memory_set == k0.tasks@[ci].inner.memory_set);
        assert(!k1.machine.kernel_space.table().frames().union(
            k1.tasks@[ci].inner.memory_set.frames(),
        ).contains(f));
        assert(k2.machine.mem@[f] == k1.machine.mem@[f]);
        assert(k2.tasks@[i2].inner.memory_set == ms);
        assert(k2.machine.kept_but(&k3.machine, ms.frames()));
        assert(k2.tasks@[i2].wf(&k2.machine));
        ms.lemma_wf(&k2.machine.mem);
        k2.machine.mem.lemma_view();
        k0.machine.mem.lemma_view();
    }
    assert forall|j: int| 0 <= j < k0.tasks@.len() && (#[trigger] k0.tasks@[j]).pid.0 != c implies {
        let t = k0.tasks@[j];
        &&& forall|v: u64| #[trigger]
            t.inner.memory_set.lookup(&k3.machine.mem, v) == t.inner.memory_set.lookup(
                &k0.machine.mem,
                v,
            )
        &&& j != i ==> forall|f: u64| #[trigger]
            t.inner.memory_set.frames().contains(f) ==> k3.machine.mem@[f] == k0.machine.mem@[f]
    } by {
        let t1 = k1.tasks@[j];
        assert(t1.inner.memory_set == k0.tasks@[j].inner.memory_set);
        let j2 = if j < ci {
            j
        } else {
            j - 1
        };
        let t2 = k2.tasks@[j2];
        assert(t2 == t1);
    }
    assert(k1.tasks@[i].inner.memory_set == ms);
    assert forall|pa: u64|
        ms.frames().contains((pa / 4096) as u64) && !(exists|k: int|
            0 <= k < 4 && #[trigger] ms.write_hits(&k0.machine.mem, ptr as u64, k, pa)) implies #[trigger] k3.machine.mem.byte(
        pa,
    ) == k0.machine.mem.byte(pa) by {
        let t1 = k1.tasks@[i];
        let f = (pa / 4096) as u64;
        assert(k2.machine.mem@[f] == k1.machine.mem@[f]);
        assert(k2.machine.mem.byte(pa) == k0.machine.mem.byte(pa));
        assert(k0.tasks@[i].wf(&k0.machine));
        ms.lemma_wf(&k0.machine.mem);
        assert(k0.machine.mem.has_frame(f));
        assert(k2.tasks@[i2].wf(&k2.machine));
        ms.lemma_wf(&k2.machine.mem);
        assert(k2.machine.mem.has_frame(f));
        if !(k3.machine.mem@ == k2.machine.mem@) {
            assert forall|k: int| 0 <= k < 4 implies !#[trigger] ms.write_hits(
                &k2.machine.mem,
                ptr as u64,
                k,
                pa,
            ) by {
                let v = (((ptr as u64 + k) as u64) / 4096) as u64;
                assert(ms.lookup(&k2.machine.mem, v) == ms.lookup(&k0.machine.mem, v));
                assert(ms.write_hits(&k0.machine.mem, ptr as u64, k, pa) == ms.write_hits(
                    &k2.machine.mem,
                    ptr as u64,
                    k,
                    pa,
                ));
            }
        }
    }
}

/// Takes the zombie at the place `ci`, which is the child at the place
/// `idx` of the children of the process that runs, at the place `i`, out of
/// the kernel, and stores its exit code at `ptr` in the memory of the
/// process, where user mode can write four bytes. Returns the identifier of
/// the child.
fn fetch_child(kernel: &mut Kernel, i: usize, idx: usize, ci: usize, ptr: usize) -> (r: isize)
    requires
        old(kernel).wf(),
        old(kernel).current is Some,
        i < old(kernel).tasks@.len(),
        old(kernel).running_index() == i,
        old(kernel).tasks@[i as int].inner.task_status == TaskStatus::Running,
        idx < old(kernel).tasks@[i as int].inner.children@.len(),
        ci < old(kernel).tasks@.len(),
        old(kernel).tasks@[ci as int].pid.0 == old(kernel).tasks@[i as int].inner.children@[idx as int],
        old(kernel).tasks@[ci as int].inner.task_status == TaskStatus::Zombie,
        old(kernel).tasks@[i as int].inner.memory_set.user_range(
            &old(kernel).machine.mem,
            ptr as u64,
            4,
            PTE_W,
        ),
    ensures
        final(kernel).wf(),
        final(kernel).current == old(kernel).current,
        final(kernel).manager == old(kernel).manager,
        old(kernel).same_rest(final(kernel)),
        final(kernel).machine.config == old(kernel).machine.config,
        r == old(kernel).tasks@[i as int].inner.children@[idx as int],
        r >= 0,
        waited(old(kernel), final(kernel), idx as int, ptr),
        waited_kept(old(kernel), final(kernel), idx as int, ptr),
{
    let ghost k0 = *kernel;
    let removed = kernel.tasks[i].inner.children.remove(idx);
    let ghost k1 = *kernel;
    proof {
        k0.lemma_same_spaces(&k1);
        k0.lemma_same_sched(&k1);
        k0.lemma_child_removed(&k1, i as int, idx as int);
        assert(k0.tasks@[ci as int].wf(&k0.machine));
        assert(k1.tasks@[ci as int] == k0.tasks@[ci as int]);
    }
    let (cpid, code) = kernel.reap(ci);
    let ghost k2 = *kernel;
    let i2: usize = if i < ci {
        i
    } else {
        i - 1
    };
    proof {
        assert(k2.tasks@[i2 as int] == k1.tasks@[i as int]);
    }
    let bytes = exit_code_bytes(code);
    let ok = kernel.write_user(i2, VirtAddr(ptr as u64), &bytes);
    proof {
        lemma_waited(&k0, &k1, &k2, kernel, i as int, idx as int, ci as int, ptr, ok);
        lemma_waited_kept(
            &k0,
            &k1,
            &k2,
            kernel,
            i as int,
            idx as int,
            ci as int,
            i2 as int,
            ptr,
        );
    }
    cpid as isize
}

/// The three steps of fetching a child, one after the other, do what
/// `waited` says.
proof fn lemma_waited(
    k0: &Kernel,
    k1: &Kernel,
    k2: &Kernel,
    k3: &Kernel,
    i: int,
    idx: int,
    ci: int,
    ptr: usize,
    ok: bool,
)
    requires
        k0.wf(),
        k0.current is Some,
        0 <= i < k0.tasks@.len(),
        k0.running_index() == i,
        k0.tasks@[i].pid.0 == k0.current->0,
        0 <= idx < k0.tasks@[i].inner.children@.len(),
        0 <= ci < k0.tasks@.len(),
        ci != i,
        k0.tasks@[ci].pid.0 == k0.tasks@[i].inner.children@[idx],
        k0.tasks@[ci].inner.task_status == TaskStatus::Zombie,
        k0.tasks@[i].inner.memory_set.user_range(&k0.machine.mem, ptr as u64, 4, PTE_W),
        k1.machine == k0.machine,
        k1.current == k0.current,
        k1.tasks@.len() == k0.tasks@.len(),
        forall|j: int| 0 <= j < k0.tasks@.len() && j != i ==> #[trigger] k1.tasks@[j] == k0.tasks@[j],
        same_but_family(k0.tasks@[i], k1.tasks@[i]),
        k1.tasks@[i].inner.parent == k0.tasks@[i].inner.parent,
        k1.tasks@[i].inner.children@ == k0.tasks@[i].inner.children@.remove(idx),
        k2.wf(),
        k2.current == k0.current,
        k2.tasks@ == k1.tasks@.remove(ci),
        forall|p: usize|
            k2.machine.pids.is_allocated(p) <==> k1.machine.pids.is_allocated(p) && p
                != k0.tasks@[ci].pid.0,
        k2.machine.pids.next_pid() == Some(k0.tasks@[ci].pid.0),
        forall|v: u64| #[trigger]
            k0.tasks@[i].inner.memory_set.lookup(&k2.machine.mem, v)
                == k0.tasks@[i].inner.memory_set.lookup(&k0.machine.mem, v),
        k3.wf(),
        k3.current == k0.current,
        k3.tasks == k2.tasks,
        k3.machine.pids == k2.machine.pids,
        ok == k0.tasks@[i].inner.memory_set.user_range(&k2.machine.mem, ptr as u64, 4, PTE_W),
        ok ==> forall|k: int|
            0 <= k < 4 ==> k3.machine.mem.byte(
                #[trigger] k0.tasks@[i].inner.memory_set.write_addr(&k2.machine.mem, ptr as u64, k),
            ) == code_bytes(k0.tasks@[ci].inner.exit_code)[k],
    ensures
        waited(k0, k3, idx, ptr),
{
    let o = k0.tasks@[i];
    let ms = o.inner.memory_set;
    let c = o.inner.children@[idx];
    let i2 = if i < ci {
        i
    } else {
        i - 1
    };
    k0.lemma_exit_code_of(ci);
    assert(k0.has_task_in(c, TaskStatus::Zombie));
    assert(k3.tasks@[i2] == k1.tasks@[i]);
    k3.lemma_running(i2);
    assert forall|v: u64, need: u8|
        ms.user_addr(&k2.machine.mem, v, need) == ms.user_addr(&k0.machine.mem, v, need) by {
        assert(ms.lookup(&k2.machine.mem, (v / 4096) as u64) == ms.lookup(
            &k0.machine.mem,
            (v / 4096) as u64,
        ));
    }
    assert(ms.user_range(&k2.machine.mem, ptr as u64, 4, PTE_W)) by {
        assert forall|n: nat| n < 4 implies (#[trigger] ms.user_addr(
            &k2.machine.mem,
            (ptr as u64 + n) as u64,
            PTE_W,
        )) is Some by {
            assert(ms.user_addr(&k0.machine.mem, (ptr as u64 + n) as u64, PTE_W) is Some);
        }
    }
    assert forall|k: int| 0 <= k < 4 implies k3.machine.mem.byte(
        #[trigger] ms.write_addr(&k0.machine.mem, ptr as u64, k),
    ) == code_bytes(k0.exit_code_of(c))[k] by {
        assert(ms.write_addr(&k0.machine.mem, ptr as u64, k) == ms.write_addr(
            &k2.machine.mem,
            ptr as u64,
            k,
        ));
    }
    assert forall|j: int|
        0 <= j < k0.tasks@.len() && j != i && (#[trigger] k0.tasks@[j]).pid.0
            != c implies k3.tasks@.contains(k0.tasks@[j]) by {
        let j2 = if j < ci {
            j
        } else {
            j - 1
        };
        assert(k2.tasks@[j2] == k1.tasks@[j]);
        assert(k3.tasks@[j2] == k0.tasks@[j]);
    }
    assert(!k3.has_task(c)) by {
        if k3.has_task(c) {
            let j = choose|j: int| 0 <= j < k3.tasks@.len() && (#[trigger] k3.tasks@[j]).pid.0 == c;
            assert(k3.tasks@[j].wf(&k3.machine));
        }
    }
}

/// What `sys_waitpid` does.
pub open spec fn waitpid_done(before: &Kernel, now: &Kernel, pid: isize, exit_code_ptr: usize, r: isize) -> bool {
    &&& now.wf()
    &&& now.current == before.current
    &&& now.manager == before.manager
    &&& before.same_rest(now)
    &&& now.machine.config == before.machine.config
    &&& ({
        let o = before.running();
        let kids = o.inner.children@;
        let first = first_waitable(before, kids, pid);
        let writable = o.inner.memory_set.user_range(
            &before.machine.mem,
            exit_code_ptr as u64,
            4,
            PTE_W,
        );
        &&& r == if !any_match(kids, pid) {
            -1isize
        } else if first is None {
            -2isize
        } else if !writable {
            -1isize
        } else {
            kids[first->0] as isize
        }
        &&& r < 0 ==> now.tasks == before.tasks && now.machine == before.machine
        &&& r >= 0 ==> waited(before, now, first->0, exit_code_ptr) && waited_kept(
            before,
            now,
            first->0,
            exit_code_ptr,
        )
    })
}

/// A child is fetched once: when a wait for the child `pid` has fetched
/// it, the same wait again finds no such child and gives -1, with nothing
/// changed.
pub proof fn lemma_second_wait(
    k0: &Kernel,
    k1: &Kernel,
    k2: &Kernel,
    pid: isize,
    exit_code_ptr: usize,
    r1: isize,
    r2: isize,
)
    requires
        k0.wf(),
        k0.current is Some,
        pid >= 0,
        waitpid_done(k0, k1, pid, exit_code_ptr, r1),
        r1 == pid,
        waitpid_done(k1, k2, pid, exit_code_ptr, r2),
    ensures
        r2 == -1,
        k2.tasks == k1.tasks,
        k2.machine == k1.machine,
{
    let kids = k0.running().inner.children@;
    let first = first_waitable(k0, kids, pid);
    let idx = first->0;
    assert(k0.has_task_in(k0.current->0, TaskStatus::Running));
    let w = choose|w: int|
        0 <= w < k0.tasks@.len() && (#[trigger] k0.tasks@[w]).pid.0 == k0.current->0
            && k0.tasks@[w].inner.task_status == TaskStatus::Running;
    k0.lemma_running(w);
    assert(kids.no_duplicates()) by {
        assert forall|a: int, b: int| 0 <= a < kids.len() && 0 <= b < kids.len() && a != b implies kids[a]
            != kids[b] by {
            assert(lists(k0.tasks@, w, a) && lists(k0.tasks@, w, b));
            assert(child_at(k0.tasks@, w, a) != child_at(k0.tasks@, w, b));
        }
    }
    assert(waited(k0, k1, idx, exit_code_ptr));
    assert(waitable(k0, kids, pid, idx));
    let after = k1.running().inner.children@;
    assert(after == kids.remove(idx));
    if any_match(after, pid) {
        let a = choose|a: int| 0 <= a < after.len() && wait_matches(pid, #[trigger] after[a]);
        let b = if a < idx {
            a
        } else {
            a + 1
        };
        assert(kids[b] == after[a]);
        assert(kids[b] == kids[idx]);
    }
}

/// Fetches a child of the process that runs that has exited: the first
/// zombie among its children that `pid` stands for, which is any child when
/// `pid` is -1 and else the child with the identifier `pid`. The child is
/// taken out of the kernel, its exit code is stored as four bytes at
/// `exit_code_ptr` in the memory of the process, and its identifier is
/// returned.
///
/// Returns -1 when the process has no child that `pid` stands for, and -2
/// when it has one but none that is a zombie. Returns -1 also when there is
/// a zombie to fetch but user mode cannot write four bytes at
/// `exit_code_ptr`. In all these cases nothing changes.
#[verifier::rlimit(60)]
pub fn sys_waitpid(kernel: &mut Kernel, pid: isize, exit_code_ptr: usize) -> (r: isize)
    requires
        old(kernel).wf(),
        old(kernel).current is Some,
    ensures
        waitpid_done(old(kernel), final(kernel), pid, exit_code_ptr, r),
{
    let i = kernel.current_index();
    proof {
        kernel.lemma_running(i as int);
        kernel.lemma_running_index(i as int);
        assert(kernel.tasks@[i as int].wf(&kernel.machine));
    }
    let (any, at) = scan_children(kernel, i, pid);
    if !any {
        return -1;
    }
    let (idx, ci) = match at {
        None => {
            return -2;
        },
        Some(x) => x,
    };
    proof {
        kernel.tasks@[i as int].inner.memory_set.lemma_wf(&kernel.machine.mem);
    }
    if !kernel.tasks[i].inner.memory_set.check_user_range(
        &kernel.machine.mem,
        VirtAddr(exit_code_ptr as u64),
        4,
        PTE_W,
    ) {
        return -1;
    }
    fetch_child(kernel, i, idx, ci, exit_code_ptr)
}

/// The place among the programs of the program whose name stands at `ptr`
/// in the memory of the process that runs: `None` when user mode cannot read
/// a name there or no program has the name.
pub open spec fn named_app(kernel: &Kernel, ptr: usize) -> Option<int> {
    match user_str(&kernel.running().inner.memory_set, &kernel.machine.mem, ptr as u64) {
        Some(name) => app_index(kernel.apps@, name),
        None => None,
    }
}

/// The place among the programs of the program whose name stands at `ptr`
/// in the memory of the process that runs, at the place `i`.
fn find_named_app(kernel: &Kernel, i: usize, ptr: usize) -> (r: Option<usize>)
    requires
        kernel.wf(),
        kernel.current is Some,
        i < kernel.tasks@.len(),
        kernel.running() == kernel.tasks@[i as int],
    ensures
        r is Some <==> named_app(kernel, ptr) is Some,
        r matches Some(at) ==> at < kernel.apps@.len() && named_app(kernel, ptr) == Some(at as int),
{
    proof {
        assert(kernel.tasks@[i as int].wf(&kernel.machine));
    }
    let path = match translated_str(&kernel.tasks[i].inner.memory_set, &kernel.machine.mem, ptr as u64) {
        None => {
            return None;
        },
        Some(p) => p,
    };
    get_app_data_by_name(&kernel.apps, &path)
}

/// Whether `now` is the kernel `before` after the process that runs has
/// made the child with the identifier `pid` from the program at the place
/// `at`: the child is the last process and the last in the ready queue; it
/// is made from the image of the program, with the process that runs as
/// parent and with its open files; the parent has the child as its last
/// child; and all else is as it was.
pub open spec fn created(before: &Kernel, now: &Kernel, pid: isize, at: int) -> bool {
    let i = before.running_index();
    let o = before.tasks@[i];
    let t = now.tasks@[i];
    let child = now.tasks@.last();
    &&& pid >= 0
    &&& child.pid.0 == pid
    &&& now.tasks@.len() == before.tasks@.len() + 1
    &&& now.manager@ == before.manager@.push(pid as usize)
    &&& forall|j: int|
        0 <= j < before.tasks@.len() && j != i ==> #[trigger] now.tasks@[j] == before.tasks@[j]
    &&& same_but_family(o, t)
    &&& t.inner.parent == o.inner.parent
    &&& t.inner.children@ == o.inner.children@.push(pid as usize)
    &&& TaskControlBlock::made(
        &child,
        &before.machine,
        &now.machine,
        before.apps@[at].data@,
        Some(o.pid.0),
        o.inner.fd_table@,
    )
    &&& before.all_kept(now)
}

/// What `sys_create_task` does.
pub open spec fn create_task_done(before: &Kernel, now: &Kernel, file: usize, r: isize) -> bool {
    &&& now.wf()
    &&& now.current == before.current
    &&& before.same_rest(now)
    &&& now.machine.config == before.machine.config
    &&& r == -1 ==> now.tasks@ == before.tasks@ && now.manager == before.manager
    &&& named_app(before, file) is None ==> r == -1
    &&& named_app(before, file) is Some && can_make(
        &before.machine,
        before.apps@[named_app(before, file)->0].data@,
    ) ==> r != -1
    &&& r != -1 ==> named_app(before, file) is Some && created(
        before,
        now,
        r,
        named_app(before, file)->0,
    )
    &&& before.all_kept(now)
    &&& before.machine.kept_but(&now.machine, before.machine.kernel_space.table().frames())
    &&& frames_kept(&before.machine, &now.machine, if r == -1 {
        Set::<u64>::empty()
    } else {
        now.tasks@.last().inner.memory_set.frames()
    })
}

/// Makes a child of the process that runs from the program whose name
/// stands at `file` in its memory, and puts the child at the end of the
/// ready queue. Returns the identifier of the child.
///
/// Returns -1, with no process added, when there is no such program or when
/// the child cannot be made.
pub fn sys_create_task(kernel: &mut Kernel, file: usize) -> (r: isize)
    requires
        old(kernel).wf(),
        old(kernel).current is Some,
    ensures
        create_task_done(old(kernel), final(kernel), file, r),
{
    let i = kernel.current_index();
    let ghost k0 = *kernel;
    proof {
        kernel.lemma_running(i as int);
        kernel.lemma_running_index(i as int);
        assert(kernel.tasks@[i as int].wf(&kernel.machine));
    }
    let at = match find_named_app(kernel, i, file) {
        None => {
            return -1;
        },
        Some(a) => a,
    };
    let child = match kernel.tasks[i].create(&mut kernel.machine, kernel.apps[at].data.as_slice()) {
        None => {
            proof {
                assert(kernel.tasks@ =~= k0.tasks@);
                k0.lemma_nothing_added(kernel);
            }
            return -1;
        },
        Some(c) => c,
    };
    let ghost k1 = *kernel;
    proof {
        assert(k0.tasks@[i as int].wf(&k0.machine));
        k0.lemma_child_entered(&k1, i as int, child.pid.0);
        k0.lemma_ready_to_add(&k1, &child);
    }
    let pid: usize = child.pid.0;
    kernel.add_task(child);
    proof {
        assert(kernel.tasks@[k0.tasks@.len() as int] == child);
        assert forall|j: int| 0 <= j < k0.tasks@.len() && j != i implies #[trigger] kernel.tasks@[j]
            == k0.tasks@[j] by {
            assert(k1.tasks@[j] == k0.tasks@[j]);
        }
        assert(kernel.tasks@[i as int] == k1.tasks@[i as int]);
    }
    pid as isize
}

/// What `sys_exec` does.
pub open spec fn exec_done(before: &Kernel, now: &Kernel, path: usize, r: isize) -> bool {
    &&& before.space_changed_but_ppn(before.running_index(), now)
    &&& r == 0 || r == -1
    &&& named_app(before, path) is None ==> r == -1
    &&& named_app(before, path) is Some && enough_for(
        before.apps@[named_app(before, path)->0].data@,
        before.machine.frames.free_count(),
    ) ==> r == 0
    &&& r == -1 ==> now.running().inner.memory_set == before.running().inner.memory_set && now.running().inner.trap_cx_ppn == before.running().inner.trap_cx_ppn
    &&& now.machine.kernel_space == before.machine.kernel_space
    &&& r == -1 ==> forall|q: u64| now.machine.frames.is_free(q) <==> before.machine.frames.is_free(q)
    &&& r == -1 ==> now.machine.frames.free_count() == before.machine.frames.free_count()
    &&& r == 0 ==> forall|q: u64| #[trigger]
        now.machine.frames.is_free(q) <==> (before.machine.frames.is_free(q) && !now.running().inner.memory_set.frames().contains(
            q,
        )) || before.running().inner.memory_set.frames().contains(q)
    &&& r == 0 ==> named_app(before, path) is Some && exists|sp: u64| #[trigger]
        now.running().runs(
            &now.machine,
            before.apps@[named_app(before, path)->0].data@,
            sp,
        )
}

/// Replaces the program of the process that runs by the program whose name
/// stands at `path` in its memory. Returns 0; the process then starts the
/// new program with a first trap context for it.
///
/// Returns -1, with the process as it was, when there is no such program or
/// when its image cannot be loaded.
pub fn sys_exec(kernel: &mut Kernel, path: usize) -> (r: isize)
    requires
        old(kernel).wf(),
        old(kernel).current is Some,
    ensures
        exec_done(old(kernel), final(kernel), path, r),
{
    let i = kernel.current_index();
    let ghost k0 = *kernel;
    proof {
        kernel.lemma_running(i as int);
        kernel.lemma_running_index(i as int);
        assert(kernel.tasks@[i as int].wf(&kernel.machine));
        kernel.lemma_space_same_but_ppn(i as int);
    }
    let at = match find_named_app(kernel, i, path) {
        None => {
            return -1;
        },
        Some(a) => a,
    };
    let ok = kernel.tasks[i].exec(&mut kernel.machine, kernel.apps[at].data.as_slice());
    proof {
        k0.lemma_actor_stepped(i as int, kernel);
        k0.lemma_same_sched(kernel);
        k0.lemma_same_family(kernel);
        kernel.lemma_running(i as int);
    }
    match ok {
        Some(sp) => {
            proof {
                assert(named_app(&k0, path) == Some(at as int));
                assert(kernel.running().runs(
                    &kernel.machine,
                    k0.apps@[named_app(&k0, path)->0].data@,
                    sp,
                ));
            }
            0
        },
        None => -1,
    }
}

/// What `sys_register` does.
pub open spec fn register_done(before: &Kernel, now: &Kernel, file: usize, service: usize, r: isize) -> bool {
    &&& now.wf()
    &&& now.current == before.current
    &&& now.initproc == before.initproc
    &&& now.apps == before.apps
    &&& now.console_out == before.console_out
    &&& now.console_in == before.console_in
    &&& now.machine.config == before.machine.config
    &&& ({
        let name = user_str(
            &before.running().inner.memory_set,
            &before.machine.mem,
            service as u64,
        );
        &&& r == -1 ==> now.tasks@ == before.tasks@ && now.manager == before.manager && now.registry == before.registry
        &&& name is None || named_app(before, file) is None ==> r == -1
        &&& name is Some && named_app(before, file) is Some && can_make(
            &before.machine,
            before.apps@[named_app(before, file)->0].data@,
        ) ==> r != -1
        &&& r != -1 ==> {
            &&& name is Some
            &&& named_app(before, file) is Some
            &&& created(before, now, r, named_app(before, file)->0)
            &&& now.registry@ == before.registry@.insert(name->0, r as usize)
        }
        &&& before.all_kept(now)
        &&& before.machine.kept_but(&now.machine, before.machine.kernel_space.table().frames())
        &&& frames_kept(&before.machine, &now.machine, if r == -1 {
            Set::<u64>::empty()
        } else {
            now.tasks@.last().inner.memory_set.frames()
        })
    })
}

/// Makes a child of the process that runs from the program whose name
/// stands at `file`, as `sys_create_task` does, and enters it in the
/// registry under the name that stands at `service`. Returns the identifier
/// of the child.
///
/// Returns -1, with nothing changed, when user mode cannot read a name at
/// `service`, and as `sys_create_task` does.
pub fn sys_register(kernel: &mut Kernel, file: usize, service: usize) -> (r: isize)
    requires
        old(kernel).wf(),
        old(kernel).current is Some,
    ensures
        register_done(old(kernel), final(kernel), file, service, r),
{
    let i = kernel.current_index();
    proof {
        kernel.lemma_running(i as int);
        assert(kernel.tasks@[i as int].wf(&kernel.machine));
    }
    let service_path = match translated_str(
        &kernel.tasks[i].inner.memory_set,
        &kernel.machine.mem,
        service as u64,
    ) {
        None => {
            return -1;
        },
        Some(p) => p,
    };
    let pid = sys_create_task(kernel, file);
    if pid == -1 {
        return -1;
    }
    let ghost k1 = *kernel;
    kernel.registry.register(&PidHandle(pid as usize), &Service::new(service_path));
    proof {
        k1.lemma_same_spaces(kernel);
        k1.lemma_same_sched(kernel);
        k1.lemma_same_family(kernel);
    }
    pid
}

/// The `len` bytes from `va` on, as user mode reads them through the
/// address space `ms`.
pub open spec fn user_bytes(ms: &MemorySet, mem: &PhysMemory, va: u64, len: nat) -> Seq<u8> {
    Seq::new(len, |k: int| mem.byte(ms.user_addr(mem, (va + k) as u64, PTE_R)->0))
}

/// Whether the process `t` has the file descriptor `fd` open.
pub open spec fn file_open(t: TaskControlBlock, fd: usize) -> bool {
    fd < t.inner.fd_table@.len() && t.inner.fd_table@[fd as int] is Some
}

/// What `sys_write` does.
pub open spec fn wrote(before: &Kernel, now: &Kernel, fd: usize, buf: usize, len: usize, r: isize) -> bool {
    let o = before.running();
    let ok = file_open(o, fd) && o.inner.fd_table@[fd as int]->0.can_write()
        && o.inner.memory_set.user_range(&before.machine.mem, buf as u64, len as nat, PTE_R) && len
        <= isize::MAX;
    &&& now.wf()
    &&& now.machine == before.machine
    &&& now.tasks == before.tasks
    &&& now.manager == before.manager
    &&& now.current == before.current
    &&& now.initproc == before.initproc
    &&& now.apps == before.apps
    &&& now.registry == before.registry
    &&& now.console_in == before.console_in
    &&& r == if ok {
        len as isize
    } else {
        -1isize
    }
    &&& now.console_out@ == if ok {
        before.console_out@ + user_bytes(
            &o.inner.memory_set,
            &before.machine.mem,
            buf as u64,
            len as nat,
        )
    } else {
        before.console_out@
    }
}

/// Writes the `len` bytes at `buf` in the memory of the process that runs
/// to its file descriptor `fd`. The bytes go to the console output. Returns
/// `len`.
///
/// Returns -1, with nothing written, when `fd` is not open for writing or
/// user mode cannot read the bytes.
pub fn sys_write(kernel: &mut Kernel, fd: usize, buf: usize, len: usize) -> (r: isize)
    requires
        old(kernel).wf(),
        old(kernel).current is Some,
    ensures
        wrote(old(kernel), final(kernel), fd, buf, len, r),
{
    let i = kernel.current_index();
    proof {
        kernel.lemma_running(i as int);
    }
    if fd >= kernel.tasks[i].inner.fd_table.len() {
        return -1;
    }
    let writable = match &kernel.tasks[i].inner.fd_table[fd] {
        Some(file) => file.writable(),
        None => false,
    };
    if !writable {
        return -1;
    }
    if len > isize::MAX as usize {
        return -1;
    }
    let mut bytes = match kernel.read_user(i, VirtAddr(buf as u64), len) {
        None => {
            return -1;
        },
        Some(b) => b,
    };
    proof {
        assert(bytes@ =~= user_bytes(
            &kernel.tasks@[i as int].inner.memory_set,
            &kernel.machine.mem,
            buf as u64,
            len as nat,
        ));
    }
    kernel.console_out.append(&mut bytes);
    proof {
        old(kernel).lemma_same_spaces(kernel);
        old(kernel).lemma_same_sched(kernel);
        old(kernel).lemma_same_family(kernel);
    }
    len as isize
}

/// What `sys_read` does.
pub open spec fn did_read(
    before: &Kernel,
    now: &Kernel,
    fd: usize,
    buf: usize,
    len: usize,
    r: Option<isize>,
) -> bool {
    let o = before.running();
    let ok = file_open(o, fd) && o.inner.fd_table@[fd as int]->0.can_read() && len == 1
        && o.inner.memory_set.user_range(&before.machine.mem, buf as u64, 1, PTE_W);
    &&& now.wf()
    &&& now.initproc == before.initproc
    &&& now.apps == before.apps
    &&& now.registry == before.registry
    &&& now.console_out == before.console_out
    &&& now.machine.config == before.machine.config
    &&& !ok ==> r == Some(-1isize) && now.machine == before.machine && now.tasks == before.tasks
        && now.manager == before.manager && now.current == before.current && now.console_in
        == before.console_in
    &&& ok && before.console_in@.len() == 0 ==> r is None && before.yielded(now)
    &&& ok && before.console_in@.len() > 0 ==> {
        &&& r == Some(1isize)
        &&& now.console_in@ == before.console_in@.subrange(1, before.console_in@.len() as int)
        &&& now.tasks == before.tasks
        &&& now.manager == before.manager
        &&& now.current == before.current
        &&& now.machine.mem.byte(
            o.inner.memory_set.write_addr(&before.machine.mem, buf as u64, 0),
        ) == before.console_in@[0]
        &&& others_kept(&o.inner.memory_set, &before.machine, &now.machine, buf as u64, 1)
    }
}

/// Reads one byte from the file descriptor `fd` of the process that runs,
/// which must be the console input, into its memory at `buf`. Returns 1.
///
/// When no byte waits at the console, the process gives up the processor
/// and `None` is returned: the process has to issue the call again when it
/// runs next.
///
/// Returns -1, with nothing changed, when `fd` is not open for reading,
/// when `len` is not 1, or when user mode cannot write at `buf`.
pub fn sys_read(kernel: &mut Kernel, fd: usize, buf: usize, len: usize) -> (r: Option<isize>)
    requires
        old(kernel).wf(),
        old(kernel).current is Some,
    ensures
        did_read(old(kernel), final(kernel), fd, buf, len, r),
{
    let i = kernel.current_index();
    proof {
        kernel.lemma_running(i as int);
        assert(kernel.tasks@[i as int].wf(&kernel.machine));
        kernel.tasks@[i as int].inner.memory_set.lemma_wf(&kernel.machine.mem);
    }
    if fd >= kernel.tasks[i].inner.fd_table.len() {
        return Some(-1);
    }
    let readable = match &kernel.tasks[i].inner.fd_table[fd] {
        Some(file) => file.readable(),
        None => false,
    };
    if !readable || len != 1 {
        return Some(-1);
    }
    if !kernel.tasks[i].inner.memory_set.check_user_range(
        &kernel.machine.mem,
        VirtAddr(buf as u64),
        1,
        PTE_W,
    ) {
        return Some(-1);
    }
    if kernel.console_in.len() == 0 {
        kernel.suspend_current_and_run_next();
        return None;
    }
    let c: u8 = kernel.console_in.pop_front().unwrap();
    let ghost k1 = *kernel;
    proof {
        old(kernel).lemma_same_spaces(kernel);
        old(kernel).lemma_same_sched(kernel);
        old(kernel).lemma_same_family(kernel);
    }
    let mut one: Vec<u8> = Vec::new();
    one.push(c);
    let ok = kernel.write_user(i, VirtAddr(buf as u64), &one);
    proof {
        assert(one@[0] == c);
        let ms = old(kernel).tasks@[i as int].inner.memory_set;
        assert(kernel.machine.mem.byte(ms.write_addr(&k1.machine.mem, buf as u64, 0)) == one@[0]);
    }
    Some(1)
}

/// Whether the process `t` is the process `o` but for the messages that
/// wait for it.
pub open spec fn same_but_messages(o: TaskControlBlock, t: TaskControlBlock) -> bool {
    &&& t.pid == o.pid
    &&& t.kernel_stack == o.kernel_stack
    &&& t.inner.task_cx_ptr == o.inner.task_cx_ptr
    &&& t.inner.trap_cx_ppn == o.inner.trap_cx_ppn
    &&& t.inner.base_size == o.inner.base_size
    &&& t.inner.fd_table == o.inner.fd_table
    &&& t.inner.channel.1 == o.inner.channel.1
    &&& t.inner.memory_set == o.inner.memory_set
    &&& t.inner.task_status == o.inner.task_status
    &&& t.inner.exit_code == o.inner.exit_code
    &&& t.inner.parent == o.inner.parent
    &&& t.inner.children == o.inner.children
}

/// The process that serves under the name that stands at `ptr` in the
/// memory of the process that runs, if it is in the ready queue.
pub open spec fn ready_server(kernel: &Kernel, ptr: usize) -> Option<usize> {
    match user_str(&kernel.running().inner.memory_set, &kernel.machine.mem, ptr as u64) {
        Some(name) => match entry_of(kernel.registry@, name) {
            Some(pid) => if kernel.manager@.contains(pid) {
                Some(pid)
            } else {
                None
            },
            None => None,
        },
        None => None,
    }
}

/// What `sys_channel_write` does.
pub open spec fn channel_wrote(
    before: &Kernel,
    now: &Kernel,
    service_path: usize,
    buf: usize,
    len: usize,
    r: isize,
) -> bool {
    let o = before.running();
    let to = ready_server(before, service_path);
    let ok = to is Some && o.inner.memory_set.user_range(
        &before.machine.mem,
        buf as u64,
        len as nat,
        PTE_R,
    );
    &&& now.wf()
    &&& now.machine == before.machine
    &&& now.manager == before.manager
    &&& now.current == before.current
    &&& before.same_rest(now)
    &&& r == if ok {
        0isize
    } else {
        -1isize
    }
    &&& !ok ==> now.tasks == before.tasks
    &&& ok ==> {
        &&& now.tasks@.len() == before.tasks@.len()
        &&& forall|j: int|
            0 <= j < before.tasks@.len() ==> {
                let t = #[trigger] now.tasks@[j];
                let q = before.tasks@[j];
                &&& same_but_messages(q, t)
                &&& if q.pid.0 == to->0 {
                    &&& t.inner.channel.0@.len() == q.inner.channel.0@.len() + 1
                    &&& t.inner.channel.0@.drop_last() == q.inner.channel.0@
                    &&& t.inner.channel.0@.last().handle == o.pid
                    &&& t.inner.channel.0@.last().data@ == user_bytes(
                        &o.inner.memory_set,
                        &before.machine.mem,
                        buf as u64,
                        len as nat,
                    )
                } else {
                    t.inner.channel.0@ == q.inner.channel.0@
                }
            }
    }
}

/// Sends the `len` bytes at `buf` in the memory of the process that runs
/// as a message to the process that serves under the name that stands at
/// `service_path`. Returns 0.
///
/// Returns -1, with nothing sent, when user mode cannot read the name or
/// the bytes, when no process serves under the name, or when that process
/// is not in the ready queue.
pub fn sys_channel_write(kernel: &mut Kernel, service_path: usize, buf: usize, len: usize) -> (r: isize)
    requires
        old(kernel).wf(),
        old(kernel).current is Some,
    ensures
        channel_wrote(old(kernel), final(kernel), service_path, buf, len, r),
{
    let i = kernel.current_index();
    proof {
        kernel.lemma_running(i as int);
        assert(kernel.tasks@[i as int].wf(&kernel.machine));
    }
    let path = match translated_str(
        &kernel.tasks[i].inner.memory_set,
        &kernel.machine.mem,
        service_path as u64,
    ) {
        None => {
            return -1;
        },
        Some(p) => p,
    };
    let pid = match kernel.registry.lookup(&Service::new(path)) {
        None => {
            return -1;
        },
        Some(p) => p,
    };
    if kernel.manager.find_task(pid).is_none() {
        return -1;
    }
    let data = match kernel.read_user(i, VirtAddr(buf as u64), len) {
        None => {
            return -1;
        },
        Some(d) => d,
    };
    proof {
        assert(data@ =~= user_bytes(
            &kernel.tasks@[i as int].inner.memory_set,
            &kernel.machine.mem,
            buf as u64,
            len as nat,
        ));
        let k = choose|k: int| 0 <= k < kernel.manager@.len() && kernel.manager@[k] == pid;
        assert(kernel.has_task_in(kernel.manager@[k], TaskStatus::Ready));
        assert(kernel.has_task(pid));
    }
    let ti: usize = kernel.find(pid).unwrap();
    let me = PidHandle(kernel.tasks[i].pid.0);
    let msg = MessagePacket { data, handle: me };
    kernel.tasks[ti].inner.deliver(msg);
    proof {
        old(kernel).lemma_same_spaces(kernel);
        old(kernel).lemma_same_sched(kernel);
        old(kernel).lemma_same_family(kernel);
        assert forall|j: int| 0 <= j < old(kernel).tasks@.len() implies {
            let t = #[trigger] kernel.tasks@[j];
            let q = old(kernel).tasks@[j];
            &&& same_but_messages(q, t)
            &&& if q.pid.0 == pid {
                &&& t.inner.channel.0@.len() == q.inner.channel.0@.len() + 1
                &&& t.inner.channel.0@.drop_last() == q.inner.channel.0@
                &&& t.inner.channel.0@.last().handle == me
                &&& t.inner.channel.0@.last().data@ == data@
            } else {
                t.inner.channel.0@ == q.inner.channel.0@
            }
        } by {
            if j == ti {
                assert(kernel.tasks@[j].inner.channel.0@.drop_last() =~= old(kernel).tasks@[j].inner.channel.0@);
            } else {
                assert(old(kernel).tasks@[j].pid != old(kernel).tasks@[ti as int].pid);
            }
        }
    }
    0
}

/// The smaller of two numbers.
pub open spec fn min_len(a: int, b: int) -> int {
    if a < b {
        a
    } else {
        b
    }
}

/// What `sys_channel_read` does.
pub open spec fn channel_read_done(before: &Kernel, now: &Kernel, buf: usize, len: usize, r: isize) -> bool {
    let i = before.running_index();
    let o = before.running();
    let waiting = o.inner.channel.0@;
    let n = min_len(len as int, waiting[0].data@.len() as int);
    let ok = waiting.len() > 0 && o.inner.memory_set.user_range(
        &before.machine.mem,
        buf as u64,
        n as nat,
        PTE_W,
    );
    &&& now.wf()
    &&& now.manager == before.manager
    &&& now.current == before.current
    &&& before.same_rest(now)
    &&& now.machine.config == before.machine.config
    &&& r == if ok {
        0isize
    } else {
        -1isize
    }
    &&& !ok ==> now.tasks == before.tasks && now.machine == before.machine
    &&& ok ==> {
        &&& now.tasks@.len() == before.tasks@.len()
        &&& forall|j: int|
            0 <= j < before.tasks@.len() && j != i ==> #[trigger] now.tasks@[j] == before.tasks@[j]
        &&& same_but_messages(o, now.tasks@[i])
        &&& now.tasks@[i].inner.channel.0@ == waiting.subrange(1, waiting.len() as int)
        &&& forall|k: int|
            0 <= k < n ==> now.machine.mem.byte(
                #[trigger] o.inner.memory_set.write_addr(&before.machine.mem, buf as u64, k),
            ) == waiting[0].data@[k]
        &&& others_kept(&o.inner.memory_set, &before.machine, &now.machine, buf as u64, n as nat)
    }
}

/// Takes the oldest message that waits for the process that runs and
/// stores its bytes at `buf` in the memory of the process, as many as `len`
/// allows. Returns 0.
///
/// Returns -1, with nothing changed, when no message waits or when user
/// mode cannot write these bytes at `buf`.
pub fn sys_channel_read(kernel: &mut Kernel, buf: usize, len: usize) -> (r: isize)
    requires
        old(kernel).wf(),
        old(kernel).current is Some,
    ensures
        channel_read_done(old(kernel), final(kernel), buf, len, r),
{
    let i = kernel.current_index();
    proof {
        kernel.lemma_running(i as int);
        kernel.lemma_running_index(i as int);
        assert(kernel.tasks@[i as int].wf(&kernel.machine));
        kernel.tasks@[i as int].inner.memory_set.lemma_wf(&kernel.machine.mem);
    }
    let size = match kernel.tasks[i].inner.channel.0.front_len() {
        None => {
            return -1;
        },
        Some(s) => s,
    };
    let n: usize = if len < size {
        len
    } else {
        size
    };
    if !kernel.tasks[i].inner.memory_set.check_user_range(
        &kernel.machine.mem,
        VirtAddr(buf as u64),
        n,
        PTE_W,
    ) {
        return -1;
    }
    let msg = kernel.tasks[i].inner.receive().unwrap();
    let ghost k1 = *kernel;
    proof {
        old(kernel).lemma_same_spaces(kernel);
        old(kernel).lemma_same_sched(kernel);
        old(kernel).lemma_same_family(kernel);
    }
    let mut data = msg.data;
    data.truncate(n);
    let ok = kernel.write_user(i, VirtAddr(buf as u64), &data);
    proof {
        let ms = old(kernel).tasks@[i as int].inner.memory_set;
        assert forall|k: int| 0 <= k < n implies kernel.machine.mem.byte(
            #[trigger] ms.write_addr(&old(kernel).machine.mem, buf as u64, k),
        ) == old(kernel).tasks@[i as int].inner.channel.0@[0].data@[k] by {
            assert(data@[k] == msg.data@[k]);
        }
    }
    0
}

/// How a system call ended.
#[derive(Clone, Copy, Debug, PartialEq, Eq, Structural)]
pub enum SyscallResult {
    /// The call is done, with this value for the process.
    Done(isize),
    /// The process has given up the processor and has to issue the call
    /// again when it runs next.
    Retry,
    /// The process has exited with this exit code: there is nothing to
    /// return to.
    Exited(i32),
    /// There is no system call with this number.
    Unsupported,
}

/// What the system call with the number `id` and the arguments `args` does,
/// when the time is `now_ms` milliseconds.
pub open spec fn dispatched(
    before: &Kernel,
    now: &Kernel,
    id: usize,
    args: Seq<usize>,
    now_ms: usize,
    r: SyscallResult,
) -> bool {
    if id == SYSCALL_CLOSE {
        r matches SyscallResult::Done(v) && closed_file(before, now, args[0], v)
    } else if id == SYSCALL_READ {
        match r {
            SyscallResult::Done(v) => did_read(before, now, args[0], args[1], args[2], Some(v)),
            SyscallResult::Retry => did_read(before, now, args[0], args[1], args[2], None),
            _ => false,
        }
    } else if id == SYSCALL_WRITE {
        r matches SyscallResult::Done(v) && wrote(before, now, args[0], args[1], args[2], v)
    } else if id == SYSCALL_EXIT {
        r == SyscallResult::Exited(args[0] as i32) && exit_done(before, now, args[0] as i32)
    } else if id == SYSCALL_YIELD {
        r matches SyscallResult::Done(v) && yield_done(before, now, v)
    } else if id == SYSCALL_GET_TIME {
        r == SyscallResult::Done(now_ms as isize) && *now == *before
    } else if id == SYSCALL_GETPID {
        r == SyscallResult::Done(before.current->0 as isize) && *now == *before
    } else if id == SYSCALL_MMAP {
        r matches SyscallResult::Done(v) && mmap_done(before, now, args[0], args[1], args[2], v)
    } else if id == SYSCALL_MUNMAP {
        r matches SyscallResult::Done(v) && munmap_done(before, now, args[0], args[1], v)
    } else if id == SYSCALL_FORK {
        r matches SyscallResult::Done(v) && fork_done(before, now, v)
    } else if id == SYSCALL_EXEC {
        r matches SyscallResult::Done(v) && exec_done(before, now, args[0], v)
    } else if id == SYSCALL_WAITPID {
        r matches SyscallResult::Done(v) && waitpid_done(before, now, args[0] as isize, args[1], v)
    } else if id == SYSCALL_CREATE_TASK {
        r matches SyscallResult::Done(v) && create_task_done(before, now, args[0], v)
    } else if id == SYSCALL_MMAP_CREATE {
        r matches SyscallResult::Done(v) && mmap_create_done(before, now, args[0], args[1], v)
    } else if id == SYSCALL_CHANNEL_READ {
        r matches SyscallResult::Done(v) && channel_read_done(before, now, args[0], args[1], v)
    } else if id == SYSCALL_CHANNEL_WRITE {
        r matches SyscallResult::Done(v) && channel_wrote(before, now, args[0], args[1], args[2], v)
    } else if id == SYSCALL_SERVICE_REGISTER {
        r matches SyscallResult::Done(v) && register_done(before, now, args[0], args[1], v)
    } else {
        r == SyscallResult::Unsupported && *now == *before
    }
}

/// Does the system call with the number `syscall_id` and the arguments
/// `args` for the process that runs. `now_ms` is the time in milliseconds,
/// which the caller has read from the timer.
pub fn syscall(kernel: &mut Kernel, syscall_id: usize, args: [usize; 3], now_ms: usize) -> (r:
    SyscallResult)
    requires
        old(kernel).wf(),
        old(kernel).current is Some,
    ensures
        final(kernel).wf(),
        dispatched(old(kernel), final(kernel), syscall_id, args@, now_ms, r),
{
    if syscall_id == SYSCALL_CLOSE {
        SyscallResult::Done(sys_close(kernel, args[0]))
    } else if syscall_id == SYSCALL_READ {
        match sys_read(kernel, args[0], args[1], args[2]) {
            Some(v) => SyscallResult::Done(v),
            None => SyscallResult::Retry,
        }
    } else if syscall_id == SYSCALL_WRITE {
        SyscallResult::Done(sys_write(kernel, args[0], args[1], args[2]))
    } else if syscall_id == SYSCALL_EXIT {
        let code: i32 = #[verifier::truncate]
        (args[0] as i32);
        sys_exit(kernel, code);
        SyscallResult::Exited(code)
    } else if syscall_id == SYSCALL_YIELD {
        SyscallResult::Done(sys_yield(kernel))
    } else if syscall_id == SYSCALL_GET_TIME {
        SyscallResult::Done(sys_get_time(now_ms))
    } else if syscall_id == SYSCALL_GETPID {
        SyscallResult::Done(sys_getpid(kernel))
    } else if syscall_id == SYSCALL_MMAP {
        SyscallResult::Done(sys_mmap(kernel, args[0], args[1], args[2]))
    } else if syscall_id == SYSCALL_MUNMAP {
        SyscallResult::Done(sys_munmap(kernel, args[0], args[1]))
    } else if syscall_id == SYSCALL_FORK {
        SyscallResult::Done(sys_fork(kernel))
    } else if syscall_id == SYSCALL_EXEC {
        SyscallResult::Done(sys_exec(kernel, args[0]))
    } else if syscall_id == SYSCALL_WAITPID {
        let pid: isize = #[verifier::truncate]
        (args[0] as isize);
        SyscallResult::Done(sys_waitpid(kernel, pid, args[1]))
    } else if syscall_id == SYSCALL_CREATE_TASK {
        SyscallResult::Done(sys_create_task(kernel, args[0]))
    } else if syscall_id == SYSCALL_MMAP_CREATE {
        SyscallResult::Done(sys_mmap_create(kernel, args[0], args[1]))
    } else if syscall_id == SYSCALL_CHANNEL_READ {
        SyscallResult::Done(sys_channel_read(kernel, args[0], args[1]))
    } else if syscall_id == SYSCALL_CHANNEL_WRITE {
        SyscallResult::Done(sys_channel_write(kernel, args[0], args[1], args[2]))
    } else if syscall_id == SYSCALL_SERVICE_REGISTER {
        SyscallResult::Done(sys_register(kernel, args[0], args[1]))
    } else {
        SyscallResult::Unsupported
    }
}

/// `String::push` of the standard library: the character is added at the
/// end of the string.
pub assume_specification[ String::push ](s: &mut String, ch: char)
    ensures
        final(s)@ == old(s)@.push(ch),
;

/// The byte at the address `va`, as user mode reads it through the address
/// space `ms`: `None` where user mode cannot read.
pub open spec fn user_byte(ms: &MemorySet, mem: &PhysMemory, va: u64) -> Option<u8> {
    match ms.user_addr(mem, va, PTE_R) {
        Some(pa) => Some(mem.byte(pa)),
        None => None,
    }
}

/// The byte `i` after the address `ptr`, as user mode reads it.
pub open spec fn str_byte(ms: &MemorySet, mem: &PhysMemory, ptr: u64, i: nat) -> Option<u8> {
    if ptr + i <= u64::MAX {
        user_byte(ms, mem, (ptr + i) as u64)
    } else {
        None
    }
}

/// Whether a string of `n` bytes stands at `ptr`: user mode can read `n`
/// bytes that are not zero there, and a zero byte after them.
pub open spec fn str_ends_at(ms: &MemorySet, mem: &PhysMemory, ptr: u64, n: nat) -> bool {
    &&& forall|i: nat| i < n ==> (#[trigger] str_byte(ms, mem, ptr, i)) is Some && str_byte(ms, mem, ptr, i)
        != Some(0u8)
    &&& str_byte(ms, mem, ptr, n) == Some(0u8)
}

/// The string that stands at `ptr` in user memory, up to the first zero
/// byte, each byte taken as a character: `None` when user mode cannot read
/// up to a zero byte.
pub open spec fn user_str(ms: &MemorySet, mem: &PhysMemory, ptr: u64) -> Option<Seq<char>> {
    if exists|n: nat| str_ends_at(ms, mem, ptr, n) {
        let n = choose|n: nat| str_ends_at(ms, mem, ptr, n);
        Some(Seq::new(n, |i: int| str_byte(ms, mem, ptr, i as nat)->0 as char))
    } else {
        None
    }
}

/// The string that stands at `ptr` in the memory of the address space `ms`,
/// up to the first zero byte: `None` when user mode cannot read up to a zero
/// byte.
pub fn translated_str(ms: &MemorySet, mem: &PhysMemory, ptr: u64) -> (r: Option<String>)
    requires
        ms.wf(mem),
    ensures
        r is Some <==> user_str(ms, mem, ptr) is Some,
        r matches Some(s) ==> user_str(ms, mem, ptr) == Some(s@),
{
    let mut s = String::new();
    let mut k: u64 = 0;
    loop
        invariant
            ms.wf(mem),
            ptr + k <= u64::MAX,
            s@.len() == k,
            forall|i: nat| i < k ==> (#[trigger] str_byte(ms, mem, ptr, i)) is Some && str_byte(ms, mem, ptr, i)
                != Some(0u8),
            forall|i: int| 0 <= i < k ==> s@[i] == str_byte(ms, mem, ptr, i as nat)->0 as char,
        decreases u64::MAX - (ptr + k),
    {
        let b = ms.read_byte(mem, VirtAddr(ptr + k));
        proof {
            assert(str_byte(ms, mem, ptr, k as nat) == b);
        }
        match b {
            None => {
                proof {
                    assert forall|n: nat| !str_ends_at(ms, mem, ptr, n) by {
                        if str_ends_at(ms, mem, ptr, n) {
                            if n < k {
                                assert(str_byte(ms, mem, ptr, n) != Some(0u8));
                            } else if n > k {
                                assert(str_byte(ms, mem, ptr, k as nat) is Some);
                            }
                        }
                    }
                }
                return None;
            },
            Some(c) => {
                if c == 0 {
                    proof {
                        assert(str_ends_at(ms, mem, ptr, k as nat));
                        let n = choose|n: nat| str_ends_at(ms, mem, ptr, n);
                        if n < k {
                            assert(str_byte(ms, mem, ptr, n) != Some(0u8));
                        } else if n > k {
                            assert(str_byte(ms, mem, ptr, k as nat) != Some(0u8));
                        }
                        assert(s@ =~= Seq::new(n, |i: int| str_byte(ms, mem, ptr, i as nat)->0 as char));
                    }
                    return Some(s);
                }
                if ptr + k == u64::MAX {
                    proof {
                        assert forall|n: nat| !str_ends_at(ms, mem, ptr, n) by {
                            if str_ends_at(ms, mem, ptr, n) {
                                if n < k {
                                    assert(str_byte(ms, mem, ptr, n) != Some(0u8));
                                } else if n > k {
                                    assert(str_byte(ms, mem, ptr, n) is None);
                                }
                            }
                        }
                    }
                    return None;
                }
                s.push(c as char);
                k = k + 1;
            },
        }
    }
}

} // verus!
