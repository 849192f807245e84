//! The user side of the system calls: what a program puts into the
//! registers to ask the kernel for a service, and what it does with the
//! answer. To trap into the kernel with a request is for the caller.

use vstd::prelude::*;
use crate::syscall::{
    SYSCALL_CHANNEL_READ,
    SYSCALL_CHANNEL_WRITE,
    SYSCALL_CLOSE,
    SYSCALL_CREATE_TASK,
    SYSCALL_EXEC,
    SYSCALL_EXIT,
    SYSCALL_FORK,
    SYSCALL_GETPID,
    SYSCALL_GET_TIME,
    SYSCALL_MMAP,
    SYSCALL_MMAP_CREATE,
    SYSCALL_MUNMAP,
    SYSCALL_READ,
    SYSCALL_SERVICE_REGISTER,
    SYSCALL_WAITPID,
    SYSCALL_WRITE,
    SYSCALL_YIELD,
};

verus! {

/// The number of the system call that makes a pipe, which this kernel does
/// not have.
pub const SYSCALL_PIPE: usize = 59;

/// A request to the kernel: the number of the system call for register 17
/// and the arguments for registers 10 to 12.
#[derive(Clone, Copy, Debug, PartialEq, Eq)]
pub struct SyscallRequest {
    pub id: usize,
    pub args: [usize; 3],
}

/// The request for the system call `id` with the arguments `a0`, `a1` and
/// `a2`.
pub fn request(id: usize, a0: usize, a1: usize, a2: usize) -> (r: SyscallRequest)
    ensures
        r.id == id,
        r.args@ == seq![a0, a1, a2],
{
    let r = SyscallRequest { id, args: [a0, a1, a2] };
    assert(r.args@ =~= seq![a0, a1, a2]);
    r
}

/// The request to close the file descriptor `fd`.
pub fn sys_close(fd: usize) -> (r: SyscallRequest)
    ensures
        r.id == SYSCALL_CLOSE,
        r.args@ == seq![fd, 0usize, 0usize],
{
    request(SYSCALL_CLOSE, fd, 0, 0)
}

/// The request to make a pipe, with its two file descriptors stored at
/// `pipe`.
pub fn sys_pipe(pipe: usize) -> (r: SyscallRequest)
    ensures
        r.id == SYSCALL_PIPE,
        r.args@ == seq![pipe, 0usize, 0usize],
{
    request(SYSCALL_PIPE, pipe, 0, 0)
}

/// The request to read `len` bytes from `fd` into the memory at `buffer`.
pub fn sys_read(fd: usize, buffer: usize, len: usize) -> (r: SyscallRequest)
    ensures
        r.id == SYSCALL_READ,
        r.args@ == seq![fd, buffer, len],
{
    request(SYSCALL_READ, fd, buffer, len)
}

/// The request to write the `len` bytes at `buffer` to `fd`.
pub fn sys_write(fd: usize, buffer: usize, len: usize) -> (r: SyscallRequest)
    ensures
        r.id == SYSCALL_WRITE,
        r.args@ == seq![fd, buffer, len],
{
    request(SYSCALL_WRITE, fd, buffer, len)
}

/// The request to exit with the exit code `exit_code`.
pub fn sys_exit(exit_code: i32) -> (r: SyscallRequest)
    ensures
        r.id == SYSCALL_EXIT,
        r.args@ == seq![exit_code as usize, 0usize, 0usize],
{
    let a: usize = #[verifier::truncate]
    (exit_code as usize);
    request(SYSCALL_EXIT, a, 0, 0)
}

/// The request to give up the processor.
pub fn sys_yield() -> (r: SyscallRequest)
    ensures
        r.id == SYSCALL_YIELD,
        r.args@ == seq![0usize, 0usize, 0usize],
{
    request(SYSCALL_YIELD, 0, 0, 0)
}

/// The request for the time in milliseconds.
pub fn sys_get_time() -> (r: SyscallRequest)
    ensures
        r.id == SYSCALL_GET_TIME,
        r.args@ == seq![0usize, 0usize, 0usize],
{
    request(SYSCALL_GET_TIME, 0, 0, 0)
}

/// The request for the identifier of the process.
pub fn sys_getpid() -> (r: SyscallRequest)
    ensures
        r.id == SYSCALL_GETPID,
        r.args@ == seq![0usize, 0usize, 0usize],
{
    request(SYSCALL_GETPID, 0, 0, 0)
}

/// The request to fork.
pub fn sys_fork() -> (r: SyscallRequest)
    ensures
        r.id == SYSCALL_FORK,
        r.args@ == seq![0usize, 0usize, 0usize],
{
    request(SYSCALL_FORK, 0, 0, 0)
}

/// The request to run the program whose name stands at `path`.
pub fn sys_exec(path: usize) -> (r: SyscallRequest)
    ensures
        r.id == SYSCALL_EXEC,
        r.args@ == seq![path, 0usize, 0usize],
{
    request(SYSCALL_EXEC, path, 0, 0)
}

/// The request to fetch the child `pid`, or any child when `pid` is -1,
/// with its exit code stored at `exit_code`.
pub fn sys_waitpid(pid: isize, exit_code: usize) -> (r: SyscallRequest)
    ensures
        r.id == SYSCALL_WAITPID,
        r.args@ == seq![pid as usize, exit_code, 0usize],
{
    let a: usize = #[verifier::truncate]
    (pid as usize);
    request(SYSCALL_WAITPID, a, exit_code, 0)
}

/// The request to make a child from the program whose name stands at
/// `path`.
pub fn sys_create_task(path: usize) -> (r: SyscallRequest)
    ensures
        r.id == SYSCALL_CREATE_TASK,
        r.args@ == seq![path, 0usize, 0usize],
{
    request(SYSCALL_CREATE_TASK, path, 0, 0)
}

/// The request to map `len` bytes with `prot` at an address that the kernel
/// picks.
pub fn sys_mmap_create(len: usize, prot: usize) -> (r: SyscallRequest)
    ensures
        r.id == SYSCALL_MMAP_CREATE,
        r.args@ == seq![len, prot, 0usize],
{
    request(SYSCALL_MMAP_CREATE, len, prot, 0)
}

/// The request to map the `len` bytes from `start` on with `prot`.
pub fn sys_mmap(start: usize, len: usize, prot: usize) -> (r: SyscallRequest)
    ensures
        r.id == SYSCALL_MMAP,
        r.args@ == seq![start, len, prot],
{
    request(SYSCALL_MMAP, start, len, prot)
}

/// The request to unmap the `len` bytes from `start` on.
pub fn sys_munmap(start: usize, len: usize) -> (r: SyscallRequest)
    ensures
        r.id == SYSCALL_MUNMAP,
        r.args@ == seq![start, len, 0usize],
{
    request(SYSCALL_MUNMAP, start, len, 0)
}

/// The request to take a message into the `len` bytes at `buf`.
pub fn sys_channel_read(buf: usize, len: usize) -> (r: SyscallRequest)
    ensures
        r.id == SYSCALL_CHANNEL_READ,
        r.args@ == seq![buf, len, 0usize],
{
    request(SYSCALL_CHANNEL_READ, buf, len, 0)
}

/// The request to send the `len` bytes at `buf` to the service whose name
/// stands at `path`.
pub fn sys_channel_write(path: usize, buf: usize, len: usize) -> (r: SyscallRequest)
    ensures
        r.id == SYSCALL_CHANNEL_WRITE,
        r.args@ == seq![path, buf, len],
{
    request(SYSCALL_CHANNEL_WRITE, path, buf, len)
}

/// The request to make a child from the program whose name stands at `file`
/// and to enter it under the name that stands at `service`.
pub fn sys_register(file: usize, service: usize) -> (r: SyscallRequest)
    ensures
        r.id == SYSCALL_SERVICE_REGISTER,
        r.args@ == seq![file, service, 0usize],
{
    request(SYSCALL_SERVICE_REGISTER, file, service, 0)
}

/// The request to close the file descriptor `fd`.
pub fn close(fd: usize) -> (r: SyscallRequest)
    ensures
        r.id == SYSCALL_CLOSE,
        r.args@ == seq![fd, 0usize, 0usize],
{
    sys_close(fd)
}

/// The request to make a pipe, with its two file descriptors stored at
/// `pipe_fd`.
pub fn pipe(pipe_fd: usize) -> (r: SyscallRequest)
    ensures
        r.id == SYSCALL_PIPE,
        r.args@ == seq![pipe_fd, 0usize, 0usize],
{
    sys_pipe(pipe_fd)
}

/// The request to read `len` bytes from `fd` into the memory at `buf`.
pub fn read(fd: usize, buf: usize, len: usize) -> (r: SyscallRequest)
    ensures
        r.id == SYSCALL_READ,
        r.args@ == seq![fd, buf, len],
{
    sys_read(fd, buf, len)
}

/// The request to write the `len` bytes at `buf` to `fd`.
pub fn write(fd: usize, buf: usize, len: usize) -> (r: SyscallRequest)
    ensures
        r.id == SYSCALL_WRITE,
        r.args@ == seq![fd, buf, len],
{
    sys_write(fd, buf, len)
}

/// The request to exit with the exit code `exit_code`.
pub fn exit(exit_code: i32) -> (r: SyscallRequest)
    ensures
        r.id == SYSCALL_EXIT,
        r.args@ == seq![exit_code as usize, 0usize, 0usize],
{
    sys_exit(exit_code)
}

/// The request to give up the processor.
pub fn yield_() -> (r: SyscallRequest)
    ensures
        r.id == SYSCALL_YIELD,
        r.args@ == seq![0usize, 0usize, 0usize],
{
    sys_yield()
}

/// The request for the time in milliseconds.
pub fn get_time() -> (r: SyscallRequest)
    ensures
        r.id == SYSCALL_GET_TIME,
        r.args@ == seq![0usize, 0usize, 0usize],
{
    sys_get_time()
}

/// The request for the identifier of the process.
pub fn getpid() -> (r: SyscallRequest)
    ensures
        r.id == SYSCALL_GETPID,
        r.args@ == seq![0usize, 0usize, 0usize],
{
    sys_getpid()
}

/// The request to fork.
pub fn fork() -> (r: SyscallRequest)
    ensures
        r.id == SYSCALL_FORK,
        r.args@ == seq![0usize, 0usize, 0usize],
{
    sys_fork()
}

/// The request to run the program whose name stands at `path`.
pub fn exec(path: usize) -> (r: SyscallRequest)
    ensures
        r.id == SYSCALL_EXEC,
        r.args@ == seq![path, 0usize, 0usize],
{
    sys_exec(path)
}

/// What a program does next while it waits.
#[derive(Clone, Copy, Debug, PartialEq, Eq)]
pub enum Step {
    /// It issues this request.
    Call(SyscallRequest),
    /// It is done, with this value.
    Done(isize),
}

/// Whether `r` is the request to give up the processor.
pub open spec fn is_yield(r: Step) -> bool {
    match r {
        Step::Call(q) => q.id == SYSCALL_YIELD && q.args@ == seq![0usize, 0usize, 0usize],
        Step::Done(_) => false,
    }
}

/// Where a program that waits for a child stands.
#[derive(Clone, Copy, Debug, PartialEq, Eq, Structural)]
pub enum WaitState {
    /// It has not asked for the child yet.
    Start,
    /// It has asked for the child, and the kernel has answered.
    Asked,
    /// It has given up the processor and runs again.
    Yielded,
}

/// Whether `r` is the next state and the next step of a program that waits
/// for a child, when `first` is the first argument of its request to fetch
/// the child, `state` is where it stands and `answer` is what the kernel
/// answered to its last request.
///
/// At the start, and when it runs again after it gave up the processor, it
/// asks for the child, whatever the last answer was. When it has asked and
/// no child has exited yet, which the answer -2 says, it gives up the
/// processor. With any other answer it is done, with that answer.
pub open spec fn waits(
    first: usize,
    exit_code: usize,
    state: WaitState,
    answer: isize,
    r: (WaitState, Step),
) -> bool {
    match state {
        WaitState::Asked => if answer == -2 {
            r.0 == WaitState::Yielded && is_yield(r.1)
        } else {
            r.0 == WaitState::Asked && r.1 == Step::Done(answer)
        },
        _ => r.0 == WaitState::Asked && match r.1 {
            Step::Call(q) => q.id == SYSCALL_WAITPID && q.args@ == seq![first, exit_code, 0usize],
            Step::Done(_) => false,
        },
    }
}

/// What a program that waits for any child does next, and where it stands
/// then; `exit_code` is where the exit code is to be stored. See `waits`.
pub fn wait(exit_code: usize, state: WaitState, answer: isize) -> (r: (WaitState, Step))
    ensures
        waits((-1isize) as usize, exit_code, state, answer, r),
{
    match state {
        WaitState::Asked => {
            if answer == -2 {
                (WaitState::Yielded, Step::Call(yield_()))
            } else {
                (WaitState::Asked, Step::Done(answer))
            }
        },
        _ => (WaitState::Asked, Step::Call(sys_waitpid(-1, exit_code))),
    }
}

/// What a program that waits for the child `pid` does next, and where it
/// stands then; as `wait`, but that it asks for that child.
pub fn waitpid(pid: usize, exit_code: usize, state: WaitState, answer: isize) -> (r: (
    WaitState,
    Step,
))
    ensures
        waits(pid, exit_code, state, answer, r),
{
    match state {
        WaitState::Asked => {
            if answer == -2 {
                (WaitState::Yielded, Step::Call(yield_()))
            } else {
                (WaitState::Asked, Step::Done(answer))
            }
        },
        _ => {
            let p: isize = #[verifier::truncate]
            (pid as isize);
            let q = sys_waitpid(p, exit_code);
            assert((p as usize) == pid) by (bit_vector)
                requires
                    p == (pid as isize),
            ;
            (WaitState::Asked, Step::Call(q))
        },
    }
}

/// What a program that sleeps for `period_ms` milliseconds from the time
/// `start` on does next, when the time is `now`: it gives up the processor
/// while the time is before the end of the period, and else is done.
pub fn sleep(period_ms: usize, start: isize, now: isize) -> (r: Step)
    ensures
        now < start + period_ms ==> is_yield(r),
        now >= start + period_ms ==> r == Step::Done(0),
{
    let before: bool = (now as i128) < (start as i128) + (period_ms as i128);
    if before {
        Step::Call(sys_yield())
    } else {
        Step::Done(0)
    }
}

/// The request to make a child from the program whose name stands at
/// `path`.
pub fn create_task(path: usize) -> (r: SyscallRequest)
    ensures
        r.id == SYSCALL_CREATE_TASK,
        r.args@ == seq![path, 0usize, 0usize],
{
    sys_create_task(path)
}

/// The request to map the `len` bytes from `start` on with `prot`.
pub fn mmap(start: usize, len: usize, prot: usize) -> (r: SyscallRequest)
    ensures
        r.id == SYSCALL_MMAP,
        r.args@ == seq![start, len, prot],
{
    sys_mmap(start, len, prot)
}

/// The request to map `len` bytes with `prot` at an address that the kernel
/// picks.
pub fn mmap_create(len: usize, prot: usize) -> (r: SyscallRequest)
    ensures
        r.id == SYSCALL_MMAP_CREATE,
        r.args@ == seq![len, prot, 0usize],
{
    sys_mmap_create(len, prot)
}

/// The request to unmap the `len` bytes from `start` on.
pub fn munmap(start: usize, len: usize) -> (r: SyscallRequest)
    ensures
        r.id == SYSCALL_MUNMAP,
        r.args@ == seq![start, len, 0usize],
{
    sys_munmap(start, len)
}

/// The request to take a message into the `len` bytes at `buf`.
pub fn channel_read(buf: usize, len: usize) -> (r: SyscallRequest)
    ensures
        r.id == SYSCALL_CHANNEL_READ,
        r.args@ == seq![buf, len, 0usize],
{
    sys_channel_read(buf, len)
}

/// The request to send the `len` bytes at `buf` to the service whose name
/// stands at `path`.
pub fn channel_write(path: usize, buf: usize, len: usize) -> (r: SyscallRequest)
    ensures
        r.id == SYSCALL_CHANNEL_WRITE,
        r.args@ == seq![path, buf, len],
{
    sys_channel_write(path, buf, len)
}

/// The request to make a child from the program whose name stands at `file`
/// and to enter it under the name that stands at `service`.
pub fn register(file: usize, service: usize) -> (r: SyscallRequest)
    ensures
        r.id == SYSCALL_SERVICE_REGISTER,
        r.args@ == seq![file, service, 0usize],
{
    sys_register(file, service)
}

} // verus!
