//! The task control block of a process: its identity, its kernel stack, its
//! address space, its state and its relations.

use vstd::prelude::*;
use crate::address::{PhysPageNum, VirtAddr, VirtPageNum};
use crate::context::{
    CX_KERNEL_SP,
    SSTATUS_SPP,
    TrapContext,
    trap_words,
    write_trap_word,
};
use crate::elf::{image_ok, le64, ph_count, segments_upto};
use crate::fs::{OpenFile, Stdin, Stdout};
use crate::ipc::{Channel, MessagePacket};
use crate::machine::{KernelStack, MAX_STACKS, Machine};
use crate::memory::PhysMemory;
use crate::memory_set::{
    AreaError,
    MapPermission,
    MapType,
    MemorySet,
    effect,
    lemma_effect_frame,
    lemma_effect_trans,
    lemma_tables_for,
    page_total,
};
use crate::pid::{PidHandle, pid_alloc};
use crate::memory_set::TRAMPOLINE_VPN;
use crate::spaces::{TRAP_CONTEXT_VPN, enough_for, image_fits, image_pages, lemma_built_kept};

verus! {

/// The state of a process in its life.
#[derive(Clone, Copy, Debug, PartialEq, Eq, Structural)]
pub enum TaskStatus {
    /// The process waits for the processor.
    Ready,
    /// The process has the processor.
    Running,
    /// The process has exited and waits to be reaped by its parent.
    Zombie,
}

/// The changing part of a task control block.
pub struct TaskControlBlockInner {
    /// The address of the saved task context.
    pub task_cx_ptr: u64,
    /// The state of the process.
    pub task_status: TaskStatus,
    /// The address space of the process.
    pub memory_set: MemorySet,
    /// The frame of the trap-context page.
    pub trap_cx_ppn: PhysPageNum,
    /// The top of the user stack: the data of the program lies below it.
    pub base_size: u64,
    /// The identifier of the parent, which need not be alive.
    pub parent: Option<usize>,
    /// The identifiers of the children.
    pub children: Vec<usize>,
    /// The exit code, once the process has exited.
    pub exit_code: i32,
    /// The open files, by file descriptor.
    pub fd_table: Vec<Option<OpenFile>>,
    /// The two ends of the channel of the process: messages for the process
    /// wait at the first and are written at the second.
    pub channel: (Channel, Channel),
}

/// The task control block of a process.
pub struct TaskControlBlock {
    pub pid: PidHandle,
    pub kernel_stack: KernelStack,
    pub inner: TaskControlBlockInner,
}

/// Whether the free frames of the machine `now` are those of the machine
/// `before` without the frames `taken` and without tables that the page
/// table of the kernel has gained, of which it has lost none.
pub open spec fn frames_kept(before: &Machine, now: &Machine, taken: Set<u64>) -> bool {
    &&& before.kernel_space.frames().subset_of(now.kernel_space.frames())
    &&& forall|q: u64| #[trigger]
        now.frames.is_free(q) <==> before.frames.is_free(q) && !taken.contains(q)
            && !now.kernel_space.frames().contains(q)
}

/// Whether the machine can take one more process: an identifier is left
/// and the place of its kernel stack is free.
pub open spec fn can_host(machine: &Machine) -> bool {
    &&& machine.pids.next_pid() is Some
    &&& machine.pids.next_pid()->0 < MAX_STACKS
    &&& !machine.kernel_space.any_covered(
        (KernelStack { pid: machine.pids.next_pid()->0 }).first_page(),
        ((KernelStack { pid: machine.pids.next_pid()->0 }).first_page() + 2) as u64,
    )
}

/// Whether a task control block can be made on the machine: an identifier
/// is left, and the kernel stack that belongs to it can be mapped.
pub open spec fn can_spawn(machine: &Machine) -> bool {
    machine.pids.next_pid() matches Some(pid) && (KernelStack { pid }).fits(machine)
}

/// A machine that can take one more process and has six free frames can
/// have a task control block made: a kernel stack takes six frames at most.
pub proof fn lemma_can_spawn(machine: &Machine)
    requires
        can_host(machine),
        machine.frames.free_count() >= 6,
    ensures
        can_spawn(machine),
{
    let first = (KernelStack { pid: machine.pids.next_pid()->0 }).first_page();
    let after = (first + 2) as u64;
    lemma_tables_for(&machine.kernel_space.table(), &machine.mem, first, after, after);
}

/// Whether a process can be made from the image `d` on the machine: the
/// image is well formed and fits, the machine can take one more process,
/// and the free frames are enough for the address space and six more.
pub open spec fn can_make(machine: &Machine, d: Seq<u8>) -> bool {
    &&& can_host(machine)
    &&& image_ok(d)
    &&& image_fits(d)
    &&& machine.frames.free_count() >= 3 * (image_pages(segments_upto(d, ph_count(d))) + 3) + 9
}

/// The first task context on a kernel stack stays where an operation on
/// the address space `ms` leaves the address space of the kernel as it is.
proof fn lemma_context_kept(stack: &KernelStack, m: &Machine, ms: Set<u64>, now: &Machine, ra: u64)
    requires
        m.wf(),
        ms.disjoint(m.kernel_space.frames()),
        stack.holds_context(m, ra),
        now.kernel_space == m.kernel_space,
        effect(ms, &m.mem, &m.frames, ms, &now.mem, &now.frames),
    ensures
        stack.holds_context(now, ra),
{
    let v = (stack.first_page() + 1) as u64;
    let f = m.kernel_space.page_frame(v)->0;
    m.kernel_space.lemma_page_frame_wf(&m.mem, v);
    assert(m.kernel_space.frames().contains(f));
    assert(m.frames.is_allocated(f));
}

/// The first task context on the kernel stack of a process stays when a
/// word is stored in the trap context of the process.
pub proof fn lemma_context_beside(
    t: &TaskControlBlock,
    m: &Machine,
    now: &Machine,
    ra: u64,
    idx: int,
    val: u64,
)
    requires
        m.wf(),
        t.wf(m),
        t.kernel_stack.holds_context(m, ra),
        now.kernel_space == m.kernel_space,
        t.inner.memory_set.page_frame(TRAP_CONTEXT_VPN) is Some,
        now.mem@ == m.mem@.insert(
            t.inner.memory_set.page_frame(TRAP_CONTEXT_VPN)->0,
            m.mem@[t.inner.memory_set.page_frame(TRAP_CONTEXT_VPN)->0].update(idx, val),
        ),
    ensures
        t.kernel_stack.holds_context(now, ra),
{
    let v = (t.kernel_stack.first_page() + 1) as u64;
    let f = m.kernel_space.page_frame(v)->0;
    let g = t.inner.memory_set.page_frame(TRAP_CONTEXT_VPN)->0;
    m.kernel_space.lemma_page_frame_wf(&m.mem, v);
    t.inner.memory_set.lemma_page_frame_wf(&m.mem, TRAP_CONTEXT_VPN);
    assert(m.kernel_space.frames().contains(f));
    assert(t.inner.memory_set.frames().contains(g));
}

/// The words of the first trap context of a program.
pub open spec fn init_trap_words(
    entry: u64,
    sp: u64,
    sstatus: u64,
    kernel_satp: u64,
    kernel_sp: u64,
    trap_handler: u64,
) -> Seq<u64> {
    Seq::new(32, |i: int| if i == 2 { sp } else { 0u64 }) + seq![
        sstatus & !SSTATUS_SPP,
        entry,
        kernel_satp,
        kernel_sp,
        trap_handler,
    ]
}

/// The open files of a process that has no parent: the console input as
/// descriptor 0 and the console output as descriptors 1 and 2.
pub open spec fn standard_files() -> Seq<Option<OpenFile>> {
    seq![
        Some(OpenFile::Input(Stdin)),
        Some(OpenFile::Output(Stdout)),
        Some(OpenFile::Output(Stdout)),
    ]
}

impl TaskControlBlockInner {
    /// The value for the address-translation register that selects the
    /// address space of the process.
    pub fn get_user_token(&self, machine: &Machine) -> (r: u64)
        requires
            machine.holds(&self.memory_set),
        ensures
            r == 0x8000_0000_0000_0000 + self.memory_set.table().root(),
    {
        self.memory_set.token(&machine.mem)
    }

    /// The state of the process.
    fn get_status(&self) -> (r: TaskStatus)
        ensures
            r == self.task_status,
    {
        self.task_status
    }

    /// Whether the process has exited.
    pub fn is_zombie(&self) -> (r: bool)
        ensures
            r == (self.task_status == TaskStatus::Zombie),
    {
        match self.get_status() {
            TaskStatus::Zombie => true,
            _ => false,
        }
    }

    /// The lowest page at which `page_num` free pages start in the address
    /// space of the process, if there is one.
    pub fn find_free_frames(&self, machine: &Machine, page_num: usize) -> (r: Option<VirtPageNum>)
        requires
            machine.holds(&self.memory_set),
        ensures
            r matches Some(v) ==> self.memory_set.fits(v.0, page_num as nat) && forall|u: u64|
                u < v.0 ==> !self.memory_set.fits(u, page_num as nat),
            r is None ==> forall|u: u64| !self.memory_set.fits(u, page_num as nat),
    {
        proof {
            self.memory_set.lemma_wf(&machine.mem);
        }
        self.memory_set.find_free_areas(page_num)
    }

    /// Whether a page of the range from `start` up to `end` belongs to an
    /// area of the process.
    pub fn check_allocated(&self, start: VirtAddr, end: VirtAddr) -> (r: bool)
        ensures
            r == self.memory_set.any_covered(
                (start.0 / 4096) as u64,
                ((end.0 + 4095) / 4096) as u64,
            ),
    {
        self.memory_set.check_allocated(start, end)
    }

    /// Whether every page of the range from `start` up to `end` belongs to
    /// an area of the process.
    pub fn check_all_allocated(&self, start: VirtAddr, end: VirtAddr) -> (r: bool)
        ensures
            r == self.memory_set.all_covered(
                (start.0 / 4096) as u64,
                ((end.0 + 4095) / 4096) as u64,
            ),
    {
        self.memory_set.check_all_allocated(start, end)
    }

    /// Delivers the message `msg` to the process: it is written at the
    /// second end of the channel of the process and so waits at the first.
    pub fn deliver(&mut self, msg: MessagePacket)
        ensures
            final(self).channel.0@ == old(self).channel.0@.push(msg),
            final(self).channel.1 == old(self).channel.1,
            final(self).task_cx_ptr == old(self).task_cx_ptr,
            final(self).task_status == old(self).task_status,
            final(self).memory_set == old(self).memory_set,
            final(self).trap_cx_ppn == old(self).trap_cx_ppn,
            final(self).base_size == old(self).base_size,
            final(self).parent == old(self).parent,
            final(self).children == old(self).children,
            final(self).exit_code == old(self).exit_code,
            final(self).fd_table == old(self).fd_table,
    {
        self.channel.1.write_msg(&mut self.channel.0, msg);
    }

    /// Takes the oldest message that waits for the process, if there is
    /// one.
    pub fn receive(&mut self) -> (r: Option<MessagePacket>)
        ensures
            old(self).channel.0@.len() == 0 ==> r is None && final(self).channel.0@ == old(self).channel.0@,
            old(self).channel.0@.len() > 0 ==> r == Some(old(self).channel.0@[0]) && final(self).channel.0@ == old(self).channel.0@.subrange(1, old(self).channel.0@.len() as int),
            final(self).channel.1 == old(self).channel.1,
            final(self).task_cx_ptr == old(self).task_cx_ptr,
            final(self).task_status == old(self).task_status,
            final(self).memory_set == old(self).memory_set,
            final(self).trap_cx_ppn == old(self).trap_cx_ppn,
            final(self).base_size == old(self).base_size,
            final(self).parent == old(self).parent,
            final(self).children == old(self).children,
            final(self).exit_code == old(self).exit_code,
            final(self).fd_table == old(self).fd_table,
    {
        self.channel.0.read_msg()
    }

    /// The lowest file descriptor that is not in use; the table grows by
    /// one entry when all are in use.
    pub fn alloc_fd(&mut self) -> (r: usize)
        ensures
            r < final(self).fd_table@.len(),
            final(self).fd_table@[r as int] is None,
            forall|i: int| 0 <= i < r ==> old(self).fd_table@[i] is Some,
            r < old(self).fd_table@.len() ==> final(self).fd_table@ == old(self).fd_table@,
            r >= old(self).fd_table@.len() ==> r == old(self).fd_table@.len() && final(self).fd_table@ == old(self).fd_table@.push(None),
            final(self).task_cx_ptr == old(self).task_cx_ptr,
            final(self).task_status == old(self).task_status,
            final(self).memory_set == old(self).memory_set,
            final(self).trap_cx_ppn == old(self).trap_cx_ppn,
            final(self).base_size == old(self).base_size,
            final(self).parent == old(self).parent,
            final(self).children == old(self).children,
            final(self).exit_code == old(self).exit_code,
            final(self).channel == old(self).channel,
    {
        let mut i: usize = 0;
        while i < self.fd_table.len()
            invariant
                i <= self.fd_table@.len(),
                *self == *old(self),
                forall|k: int| 0 <= k < i ==> self.fd_table@[k] is Some,
            decreases self.fd_table@.len() - i,
        {
            if self.fd_table[i].is_none() {
                return i;
            }
            i = i + 1;
        }
        self.fd_table.push(None);
        self.fd_table.len() - 1
    }
}

impl TaskControlBlock {
    /// The task control block fits the machine: its address space is in
    /// order there and shares no frame with the kernel, its identifier is
    /// handed out, and its kernel stack is the one of its identifier.
    pub open spec fn wf(&self, machine: &Machine) -> bool {
        &&& machine.holds(&self.inner.memory_set)
        &&& machine.pids.is_allocated(self.pid.0)
        &&& self.kernel_stack.pid == self.pid.0
        &&& self.pid.0 < MAX_STACKS
    }

    /// The state of a process that was just made: ready, without children,
    /// with the given parent, open files and top of the user stack, with no
    /// message waiting, and with its first task context at the top of its
    /// kernel stack.
    pub open spec fn fresh(
        &self,
        parent: Option<usize>,
        files: Seq<Option<OpenFile>>,
        base_size: u64,
    ) -> bool {
        &&& self.inner.task_status == TaskStatus::Ready
        &&& self.inner.parent == parent
        &&& self.inner.children@.len() == 0
        &&& self.inner.exit_code == 0
        &&& self.inner.fd_table@ == files
        &&& self.inner.base_size == base_size
        &&& self.inner.task_cx_ptr == self.kernel_stack.top() - 104
        &&& self.inner.channel.0@.len() == 0
        &&& self.inner.channel.1@.len() == 0
        &&& self.inner.memory_set.page_frame(TRAP_CONTEXT_VPN) == Some(self.inner.trap_cx_ppn.0)
    }

    /// The changing part of the task control block.
    pub fn inner(&self) -> (r: &TaskControlBlockInner)
        ensures
            *r == self.inner,
    {
        &self.inner
    }

    /// The identifier of the process.
    pub fn getpid(&self) -> (r: usize)
        ensures
            r == self.pid.0,
    {
        self.pid.0
    }

    /// Makes the task control block around the address space `ms`: hands
    /// out an identifier, maps the kernel stack and puts the first task
    /// context on it. When there is no identifier left or the kernel stack
    /// cannot be mapped, `ms` is given up and all its frames go back.
    fn spawn(
        machine: &mut Machine,
        ms: MemorySet,
        base_size: u64,
        parent: Option<usize>,
        fd_table: Vec<Option<OpenFile>>,
    ) -> (r: Option<TaskControlBlock>)
        requires
            old(machine).wf(),
            old(machine).holds(&ms),
            ms.page_frame(TRAP_CONTEXT_VPN) is Some,
        ensures
            old(machine).step(ms.frames(), final(machine), if r is Some {
                ms.frames()
            } else {
                Set::<u64>::empty()
            }),
            r is None ==> forall|p: usize|
                final(machine).pids.is_allocated(p) <==> old(machine).pids.is_allocated(p),
            r is Some <==> can_spawn(old(machine)),
            old(machine).kernel_space.frames().subset_of(final(machine).kernel_space.frames()),
            old(machine).kept_but(
                final(machine),
                old(machine).kernel_space.table().frames().union(ms.frames()),
            ),
            r matches Some(t) ==> {
                &&& t.wf(final(machine))
                &&& t.inner.memory_set == ms
                &&& t.fresh(parent, fd_table@, base_size)
                &&& old(machine).pids.next_pid() == Some(t.pid.0)
                &&& !old(machine).pids.is_allocated(t.pid.0)
                &&& forall|p: usize|
                    final(machine).pids.is_allocated(p) <==> old(machine).pids.is_allocated(p) || p
                        == t.pid.0
                &&& forall|f: u64| #[trigger] ms.frames().contains(f) ==> final(machine).mem@[f] == old(machine).mem@[f]
                &&& t.kernel_stack.holds_context(final(machine), final(machine).config.trap_return)
            },
    {
        let ghost none = Set::<u64>::empty();
        let ghost m0 = *machine;
        let pid = match pid_alloc(&mut machine.pids) {
            None => {
                ms.destroy(&mut machine.mem, &mut machine.frames);
                proof {
                    m0.lemma_space_step(ms.frames(), &machine.mem, &machine.frames, none);
                }
                return None;
            },
            Some(p) => p,
        };
        let ghost m1 = *machine;
        let stack = match KernelStack::new(machine, pid.0) {
            None => {
                let ghost m2 = *machine;
                proof {
                    m1.lemma_kernel_step(&m2, ms.frames());
                    m1.lemma_kernel_step(&m2, none);
                    m1.lemma_step_bystander(&ms, none, &m2, none);
                }
                machine.pids.deallocate(pid.0);
                ms.destroy(&mut machine.mem, &mut machine.frames);
                proof {
                    m2.lemma_space_step(ms.frames(), &machine.mem, &machine.frames, none);
                    let m3 = *machine;
                    assert(m2.step(ms.frames(), &m3, none));
                    m1.lemma_step_trans(ms.frames(), &m2, ms.frames(), &m3, none);
                }
                return None;
            },
            Some(s) => s,
        };
        let ghost m2 = *machine;
        proof {
            m1.lemma_kernel_step(&m2, ms.frames());
            m1.lemma_kernel_step(&m2, none);
            m1.lemma_step_bystander(&ms, none, &m2, none);
            m2.kernel_space.lemma_wf(&m2.mem);
            m2.kernel_space.lemma_page_frame_last((stack.first_page() + 1) as u64);
        }
        let ptr = stack.push_on_top(machine, machine.config.trap_return);
        let ghost m3 = *machine;
        proof {
            m2.lemma_kernel_step(&m3, ms.frames());
            m2.lemma_kernel_step(&m3, none);
            m2.lemma_step_bystander(&ms, none, &m3, none);
            m1.lemma_step_trans(ms.frames(), &m2, ms.frames(), &m3, ms.frames());
            ms.lemma_wf(&m3.mem);
        }
        let trap_cx_ppn = match ms.frame_of(VirtPageNum(TRAP_CONTEXT_VPN)) {
            Some(p) => p,
            None => PhysPageNum(0),
        };
        let t = TaskControlBlock {
            pid,
            kernel_stack: stack,
            inner: TaskControlBlockInner {
                task_cx_ptr: ptr.unwrap(),
                task_status: TaskStatus::Ready,
                memory_set: ms,
                trap_cx_ppn,
                base_size,
                parent,
                children: Vec::new(),
                exit_code: 0,
                fd_table,
                channel: Channel::create(),
            },
        };
        Some(t)
    }

    /// What the making of a process from the image `d` gives when it
    /// succeeds: the task control block `t` fits the machine `now`, is in
    /// its first state with the given parent and open files, has an
    /// identifier that was not handed out, holds the address space built
    /// from the image, and its trap context enters the program at its entry
    /// point with the stack pointer at the top of the user stack.
    pub open spec fn made(
        t: &TaskControlBlock,
        before: &Machine,
        now: &Machine,
        d: Seq<u8>,
        parent: Option<usize>,
        files: Seq<Option<OpenFile>>,
    ) -> bool {
        &&& t.wf(now)
        &&& t.fresh(parent, files, t.inner.base_size)
        &&& t.kernel_stack.holds_context(now, now.config.trap_return)
        &&& before.pids.next_pid() == Some(t.pid.0)
        &&& !before.pids.is_allocated(t.pid.0)
        &&& forall|p: usize| now.pids.is_allocated(p) <==> before.pids.is_allocated(p) || p == t.pid.0
        &&& MemorySet::built_from(
            &t.inner.memory_set,
            &now.mem,
            d,
            now.trampoline(),
            t.inner.base_size,
            le64(d, 24) as u64,
        )
        &&& trap_words(&now.mem, &t.inner.memory_set) == init_trap_words(
            le64(d, 24) as u64,
            t.inner.base_size,
            now.config.sstatus,
            (0x8000_0000_0000_0000 + now.kernel_space.table().root()) as u64,
            t.kernel_stack.top(),
            now.config.trap_handler,
        )
    }

    /// Makes a process from the executable image `elf_data`, with the given
    /// parent and open files.
    fn build(
        machine: &mut Machine,
        elf_data: &[u8],
        parent: Option<usize>,
        fd_table: Vec<Option<OpenFile>>,
    ) -> (r: Option<TaskControlBlock>)
        requires
            old(machine).wf(),
        ensures
            old(machine).step(
                Set::<u64>::empty(),
                final(machine),
                match r {
                    Some(t) => t.inner.memory_set.frames(),
                    None => Set::<u64>::empty(),
                },
            ),
            !image_ok(elf_data@) ==> r is None,
            can_make(old(machine), elf_data@) ==> r is Some,
            frames_kept(old(machine), final(machine), match r {
                Some(t) => t.inner.memory_set.frames(),
                None => Set::<u64>::empty(),
            }),
            old(machine).kept_but(final(machine), old(machine).kernel_space.table().frames()),
            r is None ==> forall|p: usize|
                final(machine).pids.is_allocated(p) <==> old(machine).pids.is_allocated(p),
            r matches Some(t) ==> Self::made(&t, old(machine), final(machine), elf_data@, parent, fd_table@),
    {
        let ghost none = Set::<u64>::empty();
        let ghost m0 = *machine;
        let tramp = PhysPageNum(machine.config.layout.strampoline / 4096);
        let (ms, sp, entry) = match MemorySet::from_elf(
            &mut machine.mem,
            &mut machine.frames,
            elf_data,
            tramp,
        ) {
            None => {
                proof {
                    m0.lemma_space_step(none, &machine.mem, &machine.frames, none);
                    assert(m0.kernel_space.frames().union(none) =~= m0.kernel_space.frames());
                }
                return None;
            },
            Some(x) => x,
        };
        let ghost m1 = *machine;
        let ghost d = elf_data@;
        proof {
            m0.lemma_space_step(none, &m1.mem, &m1.frames, ms.frames());
            assert(m0.kernel_space.frames().union(none) =~= m0.kernel_space.frames());
            assert(m0.step(none, &m1, ms.frames()));
            ms.lemma_wf(&m1.mem);
            let n = ms.areas().len() - 2;
            assert(ms.areas()[n + 1].contains(TRAP_CONTEXT_VPN));
            ms.lemma_page_frame(n + 1, TRAP_CONTEXT_VPN);
        }
        proof {
            if can_make(&m0, d) {
                lemma_can_spawn(&m1);
            }
        }
        let t = match Self::spawn(machine, ms, sp, parent, fd_table) {
            None => {
                proof {
                    let m2 = *machine;
                    m0.lemma_step_trans(none, &m1, ms.frames(), &m2, none);
                }
                return None;
            },
            Some(t) => t,
        };
        let ghost m2 = *machine;
        proof {
            m0.lemma_step_trans(none, &m1, ms.frames(), &m2, ms.frames());
            assert forall|f: u64| #[trigger]
                ms.data_frames().contains(f) && ms.page_frame(TRAP_CONTEXT_VPN) != Some(
                    f,
                ) implies m2.mem@[f] == m1.mem@[f] by {
                assert(ms.frames().contains(f));
            }
            lemma_built_kept(&ms, &m1.mem, &m2.mem, d, m0.trampoline(), sp, entry);
            ms.lemma_wf(&m2.mem);
        }
        let token: u64 = machine.kernel_space.token(&machine.mem);
        let top: u64 = t.kernel_stack.get_top();
        let cx = TrapContext::app_init_context(
            entry,
            sp,
            machine.config.sstatus,
            token,
            top,
            machine.config.trap_handler,
        );
        let ok = cx.store(&mut machine.mem, &t.inner.memory_set);
        proof {
            let m3 = *machine;
            assert(effect(ms.frames(), &m2.mem, &m2.frames, ms.frames(), &m3.mem, &m3.frames)) by {
                assert forall|f: u64|
                    m2.mem.has_frame(f) && !m2.frames.is_free(f) && !ms.frames().contains(
                        f,
                    ) implies #[trigger] m3.mem@[f] == m2.mem@[f] by {
                    if ms.page_frame(TRAP_CONTEXT_VPN) == Some(f) {
                        ms.lemma_page_frame_wf(&m2.mem, TRAP_CONTEXT_VPN);
                    }
                }
            }
            m2.lemma_space_step(ms.frames(), &m3.mem, &m3.frames, ms.frames());
            assert(m2.step(ms.frames(), &m3, ms.frames()));
            m0.lemma_step_trans(none, &m2, ms.frames(), &m3, ms.frames());
            lemma_built_kept(&ms, &m2.mem, &m3.mem, d, m0.trampoline(), sp, entry);
            lemma_context_kept(&t.kernel_stack, &m2, ms.frames(), &m3, m3.config.trap_return);
            assert(cx.words() =~= init_trap_words(
                entry,
                sp,
                m3.config.sstatus,
                token,
                top,
                m3.config.trap_handler,
            ));
        }
        Some(t)
    }

    /// Makes a process without parent from the executable image `elf_data`:
    /// builds its address space, hands out its identifier, maps its kernel
    /// stack and sets up its first contexts.
    ///
    /// `None` when the image is malformed or does not fit, when no identifier
    /// is left, or when the frames run out; then every frame that was taken
    /// is given back, but for tables that the page table of the kernel has
    /// gained on the way to the kernel stack; see `frames_kept`.
    pub fn new(machine: &mut Machine, elf_data: &[u8]) -> (r: Option<TaskControlBlock>)
        requires
            old(machine).wf(),
        ensures
            old(machine).step(
                Set::<u64>::empty(),
                final(machine),
                match r {
                    Some(t) => t.inner.memory_set.frames(),
                    None => Set::<u64>::empty(),
                },
            ),
            !image_ok(elf_data@) ==> r is None,
            can_make(old(machine), elf_data@) ==> r is Some,
            frames_kept(old(machine), final(machine), match r {
                Some(t) => t.inner.memory_set.frames(),
                None => Set::<u64>::empty(),
            }),
            old(machine).kept_but(final(machine), old(machine).kernel_space.table().frames()),
            r is None ==> forall|p: usize|
                final(machine).pids.is_allocated(p) <==> old(machine).pids.is_allocated(p),
            r matches Some(t) ==> Self::made(
                &t,
                old(machine),
                final(machine),
                elf_data@,
                None,
                standard_files(),
            ),
    {
        let mut files: Vec<Option<OpenFile>> = Vec::new();
        files.push(Some(OpenFile::Input(Stdin)));
        files.push(Some(OpenFile::Output(Stdout)));
        files.push(Some(OpenFile::Output(Stdout)));
        proof {
            assert(files@ =~= standard_files());
        }
        Self::build(machine, elf_data, None, files)
    }

    /// Whether `now` is this process with the process `pid` entered as its
    /// last child, and all else as it was.
    pub open spec fn with_child(&self, now: &TaskControlBlock, pid: usize) -> bool {
        &&& now.pid == self.pid
        &&& now.kernel_stack == self.kernel_stack
        &&& now.inner.task_cx_ptr == self.inner.task_cx_ptr
        &&& now.inner.task_status == self.inner.task_status
        &&& now.inner.memory_set == self.inner.memory_set
        &&& now.inner.trap_cx_ppn == self.inner.trap_cx_ppn
        &&& now.inner.base_size == self.inner.base_size
        &&& now.inner.parent == self.inner.parent
        &&& now.inner.exit_code == self.inner.exit_code
        &&& now.inner.fd_table == self.inner.fd_table
        &&& now.inner.channel == self.inner.channel
        &&& now.inner.children@ == self.inner.children@.push(pid)
    }

    /// Makes a child of this process from the executable image `elf_data`,
    /// and enters it as the last child of this process. The child has a
    /// table of open files of its own with the files of this process.
    ///
    /// `None` as for `new`; this process is then as it was.
    pub fn create(&mut self, machine: &mut Machine, elf_data: &[u8]) -> (r: Option<TaskControlBlock>)
        requires
            old(machine).wf(),
        ensures
            old(machine).step(
                Set::<u64>::empty(),
                final(machine),
                match r {
                    Some(t) => t.inner.memory_set.frames(),
                    None => Set::<u64>::empty(),
                },
            ),
            !image_ok(elf_data@) ==> r is None,
            can_make(old(machine), elf_data@) ==> r is Some,
            frames_kept(old(machine), final(machine), match r {
                Some(t) => t.inner.memory_set.frames(),
                None => Set::<u64>::empty(),
            }),
            old(machine).kept_but(final(machine), old(machine).kernel_space.table().frames()),
            r is None ==> *final(self) == *old(self),
            r is None ==> forall|p: usize|
                final(machine).pids.is_allocated(p) <==> old(machine).pids.is_allocated(p),
            r matches Some(t) ==> old(self).with_child(final(self), t.pid.0),
            r matches Some(t) ==> final(self).inner.children@ == old(self).inner.children@.push(
                t.pid.0,
            ),
            r matches Some(t) ==> Self::made(
                &t,
                old(machine),
                final(machine),
                elf_data@,
                Some(old(self).pid.0),
                old(self).inner.fd_table@,
            ),
    {
        let files = copy_files(&self.inner.fd_table);
        match Self::build(machine, elf_data, Some(self.pid.0), files) {
            None => None,
            Some(t) => {
                self.inner.children.push(t.pid.0);
                Some(t)
            },
        }
    }

    /// Whether this process can be copied on the machine: all its areas
    /// are framed, it has a trap-context page, the machine can take one more
    /// process, and the free frames are enough for the copy of the address
    /// space and six more.
    pub open spec fn can_fork(&self, machine: &Machine) -> bool {
        &&& can_host(machine)
        &&& self.inner.memory_set.all_framed()
        &&& self.inner.memory_set.page_frame(TRAP_CONTEXT_VPN) is Some
        &&& machine.frames.free_count() >= 3 * page_total(self.inner.memory_set.areas()) + 9
    }

    /// What a fork of the process `parent` gives when it succeeds: the
    /// child `t` fits the machine `now`, is in its first state with `parent`
    /// as its parent and with its open files, has an identifier that was not
    /// handed out, and holds a copy of the address space of `parent`, with
    /// the top of its own kernel stack in its trap context.
    pub open spec fn forked_from(
        t: &TaskControlBlock,
        parent: &TaskControlBlock,
        before: &Machine,
        now: &Machine,
    ) -> bool {
        &&& t.wf(now)
        &&& t.fresh(Some(parent.pid.0), parent.inner.fd_table@, parent.inner.base_size)
        &&& t.kernel_stack.holds_context(now, now.config.trap_return)
        &&& before.pids.next_pid() == Some(t.pid.0)
        &&& !before.pids.is_allocated(t.pid.0)
        &&& forall|p: usize| now.pids.is_allocated(p) <==> before.pids.is_allocated(p) || p == t.pid.0
        &&& forked_to(
            &parent.inner.memory_set,
            &before.mem,
            &t.inner.memory_set,
            &now.mem,
            t.kernel_stack.top(),
        )
    }

    /// Makes a child of this process as a copy of it, and enters it as the
    /// last child of this process: the child has a copy of the address space
    /// on frames of its own, a table of open files of its own with the files
    /// of this process, a channel of its own, and in its trap context the
    /// top of its own kernel stack.
    ///
    /// `None`, with this process as it was, when this process has no
    /// trap-context page or an area that is not framed, when no identifier
    /// is left, or when the frames run out; then every frame that was taken
    /// is given back, but for tables that the page table of the kernel has
    /// gained on the way to the kernel stack; see `frames_kept`.
    pub fn fork(&mut self, machine: &mut Machine) -> (r: Option<TaskControlBlock>)
        requires
            old(machine).wf(),
            old(self).wf(old(machine)),
        ensures
            old(machine).step(
                Set::<u64>::empty(),
                final(machine),
                match r {
                    Some(t) => t.inner.memory_set.frames(),
                    None => Set::<u64>::empty(),
                },
            ),
            old(self).can_fork(old(machine)) ==> r is Some,
            frames_kept(old(machine), final(machine), match r {
                Some(t) => t.inner.memory_set.frames(),
                None => Set::<u64>::empty(),
            }),
            old(machine).kept_but(final(machine), old(machine).kernel_space.table().frames()),
            r is None ==> *final(self) == *old(self),
            r is None ==> forall|p: usize|
                final(machine).pids.is_allocated(p) <==> old(machine).pids.is_allocated(p),
            r matches Some(t) ==> old(self).with_child(final(self), t.pid.0),
            r matches Some(t) ==> final(self).inner.children@ == old(self).inner.children@.push(
                t.pid.0,
            ),
            r matches Some(t) ==> Self::forked_from(&t, old(self), old(machine), final(machine)),
    {
        match self.copy(machine) {
            None => None,
            Some(t) => {
                self.inner.children.push(t.pid.0);
                Some(t)
            },
        }
    }

    /// Makes the child that is a copy of this process.
    fn copy(&self, machine: &mut Machine) -> (r: Option<TaskControlBlock>)
        requires
            old(machine).wf(),
            self.wf(old(machine)),
        ensures
            old(machine).step(
                Set::<u64>::empty(),
                final(machine),
                match r {
                    Some(t) => t.inner.memory_set.frames(),
                    None => Set::<u64>::empty(),
                },
            ),
            self.can_fork(old(machine)) ==> r is Some,
            frames_kept(old(machine), final(machine), match r {
                Some(t) => t.inner.memory_set.frames(),
                None => Set::<u64>::empty(),
            }),
            old(machine).kept_but(final(machine), old(machine).kernel_space.table().frames()),
            r is None ==> forall|p: usize|
                final(machine).pids.is_allocated(p) <==> old(machine).pids.is_allocated(p),
            r matches Some(t) ==> Self::forked_from(&t, self, old(machine), final(machine)),
    {
        let ghost none = Set::<u64>::empty();
        let ghost m0 = *machine;
        let child = match MemorySet::from_existed_user_space(
            &mut machine.mem,
            &mut machine.frames,
            &self.inner.memory_set,
        ) {
            None => {
                proof {
                    m0.lemma_space_step(none, &machine.mem, &machine.frames, none);
                    assert(m0.kernel_space.frames().union(none) =~= m0.kernel_space.frames());
                }
                return None;
            },
            Some(c) => c,
        };
        let ghost m1 = *machine;
        proof {
            m0.lemma_space_step(none, &m1.mem, &m1.frames, child.frames());
            assert(m0.kernel_space.frames().union(none) =~= m0.kernel_space.frames());
            assert(m0.step(none, &m1, child.frames()));
            child.lemma_wf(&m1.mem);
        }
        proof {
            let parent = &self.inner.memory_set;
            if parent.page_frame(TRAP_CONTEXT_VPN) is Some {
                let i = choose|i: int|
                    0 <= i < parent.areas().len() && (#[trigger] parent.areas()[i]).contains(
                        TRAP_CONTEXT_VPN,
                    ) && parent.areas()[i].map_type() == MapType::Framed;
                assert(child.areas()[i].contains(TRAP_CONTEXT_VPN));
                assert(child.page_frame(TRAP_CONTEXT_VPN) is Some);
            }
        }
        if child.frame_of(VirtPageNum(TRAP_CONTEXT_VPN)).is_none() {
            child.destroy(&mut machine.mem, &mut machine.frames);
            proof {
                let m2 = *machine;
                m1.lemma_space_step(child.frames(), &m2.mem, &m2.frames, none);
                assert(m1.step(child.frames(), &m2, none));
                m0.lemma_step_trans(none, &m1, child.frames(), &m2, none);
            }
            return None;
        }
        let files = copy_files(&self.inner.fd_table);
        proof {
            if self.can_fork(&m0) {
                lemma_can_spawn(&m1);
            }
        }
        let t = match Self::spawn(machine, child, self.inner.base_size, Some(self.pid.0), files) {
            None => {
                proof {
                    let m2 = *machine;
                    m0.lemma_step_trans(none, &m1, child.frames(), &m2, none);
                }
                return None;
            },
            Some(t) => t,
        };
        let ghost m2 = *machine;
        proof {
            m0.lemma_step_trans(none, &m1, child.frames(), &m2, child.frames());
            child.lemma_wf(&m2.mem);
            child.lemma_page_frame_wf(&m2.mem, TRAP_CONTEXT_VPN);
            m2.mem.lemma_view();
        }
        let top: u64 = t.kernel_stack.get_top();
        let ok = write_trap_word(&mut machine.mem, &t.inner.memory_set, CX_KERNEL_SP, top);
        proof {
            let m3 = *machine;
            let ft = child.page_frame(TRAP_CONTEXT_VPN)->0;
            assert(effect(child.frames(), &m2.mem, &m2.frames, child.frames(), &m3.mem, &m3.frames));
            m2.lemma_space_step(child.frames(), &m3.mem, &m3.frames, child.frames());
            assert(m2.step(child.frames(), &m3, child.frames()));
            m0.lemma_step_trans(none, &m2, child.frames(), &m3, child.frames());
            m3.mem.lemma_view();
            assert(m3.mem@[ft] =~= m2.mem@[ft].update(35, top)) by {
                assert(trap_words(&m3.mem, &child) == trap_words(&m2.mem, &child).update(35, top));
                assert forall|i: int| 0 <= i < 512 implies m3.mem@[ft][i] == m2.mem@[ft].update(
                    35,
                    top,
                )[i] by {
                    if i < 37 {
                        assert(trap_words(&m3.mem, &child)[i] == m3.mem@[ft][i]);
                        assert(trap_words(&m2.mem, &child)[i] == m2.mem@[ft][i]);
                    }
                }
            }
            let parent = &self.inner.memory_set;
            parent.lemma_wf(&m0.mem);
            assert forall|i: int, k: int|
                0 <= i < parent.areas().len() && 0 <= k < parent.areas()[i].frames().len() implies m3.mem@[#[trigger] child.areas()[i].frames()[k]]
                == (if parent.areas()[i].start() + k == TRAP_CONTEXT_VPN {
                m0.mem@[parent.areas()[i].frames()[k]].update(35, top)
            } else {
                m0.mem@[parent.areas()[i].frames()[k]]
            }) by {
                let cf = child.areas()[i].frames()[k];
                let a = child.areas()[i];
                assert(parent.areas()[i].wf());
                assert(a.wf());
                let v = (a.start() + k) as u64;
                assert(a.contains(v));
                child.lemma_page_frame(i, v);
                assert(child.page_frame(v) == Some(cf));
                assert(child.data_frames().contains(cf));
                assert(child.frames().contains(cf));
                assert(m2.mem@[cf] == m1.mem@[cf]);
                if v != TRAP_CONTEXT_VPN {
                    child.lemma_page_frame_wf(&m2.mem, v);
                }
            }
            assert(parent.copied_to(&m0.mem, &child, &m1.mem));
            assert(child.image_end() == parent.image_end());
            assert(child.areas().len() == parent.areas().len());
            assert(child.frames().disjoint(parent.frames()));
            assert(child.trampoline() == parent.trampoline());
            assert forall|i: int| 0 <= i < parent.areas().len() implies {
                let a = #[trigger] parent.areas()[i];
                let c = child.areas()[i];
                &&& c.start() == a.start()
                &&& c.end() == a.end()
                &&& c.perm() == a.perm()
                &&& c.map_type() == MapType::Framed
                &&& c.frames().len() == a.frames().len()
            } by {}
            lemma_forked(parent, &m0.mem, &m1.mem, &child, &m3.mem, top);
            lemma_context_kept(&t.kernel_stack, &m2, child.frames(), &m3, m3.config.trap_return);
            assert(t.inner.memory_set == child);
            assert(top == t.kernel_stack.top());
        }
        Some(t)
    }

    /// Replaces the program of this process by the executable image
    /// `elf_data`: the process gets the address space built from the image
    /// and a first trap context for it, and every frame of its former
    /// address space goes back: the frames that are free afterwards are
    /// those of the former address space and those that were free and are no
    /// frames of the new one. Its identifier, its kernel stack and its
    /// relations stay.
    ///
    /// Returns the top of the user stack of the program, or `None`, with the
    /// process as it was, when the image is malformed or does not fit or
    /// when the frames run out.
    pub fn exec(&mut self, machine: &mut Machine, elf_data: &[u8]) -> (r: Option<u64>)
        requires
            old(machine).wf(),
            old(self).wf(old(machine)),
        ensures
            old(machine).step(
                old(self).inner.memory_set.frames(),
                final(machine),
                final(self).inner.memory_set.frames(),
            ),
            final(self).wf(final(machine)),
            final(machine).pids == old(machine).pids,
            final(self).pid == old(self).pid,
            final(self).kernel_stack == old(self).kernel_stack,
            final(self).inner.task_cx_ptr == old(self).inner.task_cx_ptr,
            final(self).inner.task_status == old(self).inner.task_status,
            final(self).inner.base_size == old(self).inner.base_size,
            final(self).inner.parent == old(self).inner.parent,
            final(self).inner.children == old(self).inner.children,
            final(self).inner.exit_code == old(self).inner.exit_code,
            final(self).inner.fd_table == old(self).inner.fd_table,
            final(self).inner.channel == old(self).inner.channel,
            !image_ok(elf_data@) ==> r is None,
            enough_for(elf_data@, old(machine).frames.free_count()) ==> r is Some,
            r is None ==> final(self).inner.memory_set == old(self).inner.memory_set && final(self).inner.trap_cx_ppn == old(self).inner.trap_cx_ppn,
            r is None ==> forall|f: u64| #[trigger]
                old(self).inner.memory_set.frames().contains(f) ==> final(machine).mem@[f] == old(machine).mem@[f],
            r matches Some(sp) ==> final(self).runs(final(machine), elf_data@, sp),
            final(machine).kernel_space == old(machine).kernel_space,
            old(machine).kept_but(final(machine), old(self).inner.memory_set.frames()),
            r is None ==> forall|q: u64|
                final(machine).frames.is_free(q) <==> old(machine).frames.is_free(q),
            r is None ==> final(machine).frames.free_count() == old(machine).frames.free_count(),
            r is Some ==> forall|q: u64| #[trigger]
                final(machine).frames.is_free(q) <==> (old(machine).frames.is_free(q) && !final(self).inner.memory_set.frames().contains(q)) || old(self).inner.memory_set.frames().contains(q),
    {
        let ghost none = Set::<u64>::empty();
        let ghost m0 = *machine;
        let ghost old_ms = self.inner.memory_set;
        let tramp = PhysPageNum(machine.config.layout.strampoline / 4096);
        let (ms, sp, entry) = match MemorySet::from_elf(
            &mut machine.mem,
            &mut machine.frames,
            elf_data,
            tramp,
        ) {
            None => {
                proof {
                    let m1 = *machine;
                    m0.lemma_space_step(none, &m1.mem, &m1.frames, none);
                    assert(m0.kernel_space.frames().union(none) =~= m0.kernel_space.frames());
                    assert(m0.step(none, &m1, none));
                    m0.lemma_step_bystander(&old_ms, none, &m1, none);
                    lemma_effect_frame(
                        m0.kernel_space.frames().union(none),
                        &m0.mem,
                        &m0.frames,
                        m1.kernel_space.frames().union(none),
                        &m1.mem,
                        &m1.frames,
                        old_ms.frames(),
                    );
                    assert(m0.kernel_space.frames().union(none).union(old_ms.frames())
                        =~= m0.kernel_space.frames().union(old_ms.frames()));
                }
                return None;
            },
            Some(x) => x,
        };
        let ghost m1 = *machine;
        let ghost d = elf_data@;
        proof {
            m0.lemma_space_step(none, &m1.mem, &m1.frames, ms.frames());
            assert(m0.kernel_space.frames().union(none) =~= m0.kernel_space.frames());
            assert(m0.step(none, &m1, ms.frames()));
            m0.lemma_step_bystander(&old_ms, none, &m1, ms.frames());
            ms.lemma_wf(&m1.mem);
            let n = ms.areas().len() - 2;
            assert(ms.areas()[n + 1].contains(TRAP_CONTEXT_VPN));
            ms.lemma_page_frame(n + 1, TRAP_CONTEXT_VPN);
        }
        let trap_cx_ppn = match ms.frame_of(VirtPageNum(TRAP_CONTEXT_VPN)) {
            Some(p) => p,
            None => PhysPageNum(0),
        };
        let mut gone = ms;
        std::mem::swap(&mut self.inner.memory_set, &mut gone);
        gone.destroy(&mut machine.mem, &mut machine.frames);
        self.inner.trap_cx_ppn = trap_cx_ppn;
        let ghost m2 = *machine;
        proof {
            assert(gone == old_ms);
            m1.lemma_space_step(old_ms.frames(), &m2.mem, &m2.frames, none);
            assert(m1.step(old_ms.frames(), &m2, none));
            m1.lemma_step_bystander(&ms, old_ms.frames(), &m2, none);
            lemma_effect_frame(
                m0.kernel_space.frames().union(none),
                &m0.mem,
                &m0.frames,
                m1.kernel_space.frames().union(ms.frames()),
                &m1.mem,
                &m1.frames,
                old_ms.frames(),
            );
            lemma_effect_frame(
                m1.kernel_space.frames().union(old_ms.frames()),
                &m1.mem,
                &m1.frames,
                m2.kernel_space.frames().union(none),
                &m2.mem,
                &m2.frames,
                ms.frames(),
            );
            assert(m0.kernel_space.frames().union(none).union(old_ms.frames())
                =~= m0.kernel_space.frames().union(old_ms.frames()));
            assert(m1.kernel_space.frames().union(ms.frames()).union(old_ms.frames())
                =~= m1.kernel_space.frames().union(old_ms.frames()).union(ms.frames()));
            assert(m2.kernel_space.frames().union(none).union(ms.frames())
                =~= m2.kernel_space.frames().union(ms.frames()));
            lemma_effect_trans(
                m0.kernel_space.frames().union(old_ms.frames()),
                &m0.mem,
                &m0.frames,
                m1.kernel_space.frames().union(old_ms.frames()).union(ms.frames()),
                &m1.mem,
                &m1.frames,
                m2.kernel_space.frames().union(ms.frames()),
                &m2.mem,
                &m2.frames,
            );
            assert(m0.step(old_ms.frames(), &m2, ms.frames()));
            assert forall|f: u64| #[trigger]
                ms.data_frames().contains(f) && ms.page_frame(TRAP_CONTEXT_VPN) != Some(
                    f,
                ) implies m2.mem@[f] == m1.mem@[f] by {
                assert(ms.frames().contains(f));
            }
            lemma_built_kept(&ms, &m1.mem, &m2.mem, d, m0.trampoline(), sp, entry);
            ms.lemma_wf(&m2.mem);
        }
        let token: u64 = machine.kernel_space.token(&machine.mem);
        let top: u64 = self.kernel_stack.get_top();
        let cx = TrapContext::app_init_context(
            entry,
            sp,
            machine.config.sstatus,
            token,
            top,
            machine.config.trap_handler,
        );
        let ok = cx.store(&mut machine.mem, &self.inner.memory_set);
        proof {
            let m3 = *machine;
            assert(effect(ms.frames(), &m2.mem, &m2.frames, ms.frames(), &m3.mem, &m3.frames)) by {
                assert forall|f: u64|
                    m2.mem.has_frame(f) && !m2.frames.is_free(f) && !ms.frames().contains(
                        f,
                    ) implies #[trigger] m3.mem@[f] == m2.mem@[f] by {
                    if ms.page_frame(TRAP_CONTEXT_VPN) == Some(f) {
                        ms.lemma_page_frame_wf(&m2.mem, TRAP_CONTEXT_VPN);
                    }
                }
            }
            m2.lemma_space_step(ms.frames(), &m3.mem, &m3.frames, ms.frames());
            assert(m2.step(ms.frames(), &m3, ms.frames()));
            m0.lemma_step_trans(old_ms.frames(), &m2, ms.frames(), &m3, ms.frames());
            lemma_built_kept(&ms, &m2.mem, &m3.mem, d, m0.trampoline(), sp, entry);
            assert(cx.words() =~= init_trap_words(
                entry,
                sp,
                m3.config.sstatus,
                token,
                top,
                m3.config.trap_handler,
            ));
            assert(MemorySet::built_from(
                &self.inner.memory_set,
                &m3.mem,
                elf_data@,
                m3.trampoline(),
                sp,
                le64(elf_data@, 24) as u64,
            ));
        }
        Some(sp)
    }

    /// Whether the process runs the program of the image `d` from its
    /// start: its address space is built from the image, with the top of
    /// the user stack at `sp`, and its trap context enters the program at
    /// its entry point with the stack pointer `sp`.
    pub open spec fn runs(&self, machine: &Machine, d: Seq<u8>, sp: u64) -> bool {
        &&& MemorySet::built_from(
            &self.inner.memory_set,
            &machine.mem,
            d,
            machine.trampoline(),
            sp,
            le64(d, 24) as u64,
        )
        &&& trap_words(&machine.mem, &self.inner.memory_set) == init_trap_words(
            le64(d, 24) as u64,
            sp,
            machine.config.sstatus,
            (0x8000_0000_0000_0000 + machine.kernel_space.table().root()) as u64,
            self.kernel_stack.top(),
            machine.config.trap_handler,
        )
        &&& self.inner.memory_set.page_frame(TRAP_CONTEXT_VPN) == Some(self.inner.trap_cx_ppn.0)
    }
}

/// Whether `child` is the copy that a fork makes of the address space
/// `parent` as it was in the memory `mem`: a copy but for the top of the
/// kernel stack in the trap context, which is `kernel_sp`.
pub open spec fn forked_to(
    parent: &MemorySet,
    mem: &PhysMemory,
    child: &MemorySet,
    mem2: &PhysMemory,
    kernel_sp: u64,
) -> bool {
    copied_with(parent, mem, child, mem2, seq![(35int, kernel_sp)])
}

/// The words `w` after the stores `stores`, each an index and a value, in
/// their order.
pub open spec fn with_words(w: Seq<u64>, stores: Seq<(int, u64)>) -> Seq<u64>
    decreases stores.len(),
{
    if stores.len() == 0 {
        w
    } else {
        with_words(w, stores.drop_last()).update(stores.last().0, stores.last().1)
    }
}

/// One store.
pub proof fn lemma_with_one(w: Seq<u64>, idx: int, val: u64)
    ensures
        with_words(w, seq![(idx, val)]) == w.update(idx, val),
{
    let one = seq![(idx, val)];
    assert(one.drop_last() =~= Seq::<(int, u64)>::empty());
    assert(with_words(w, one.drop_last()) == w);
    assert(one.last() == (idx, val));
}

/// One store more.
pub proof fn lemma_with_more(w: Seq<u64>, stores: Seq<(int, u64)>, idx: int, val: u64)
    ensures
        with_words(w, stores.push((idx, val))) == with_words(w, stores).update(idx, val),
{
    let more = stores.push((idx, val));
    assert(more.drop_last() =~= stores);
    assert(more.last() == (idx, val));
}

/// Whether `child` is a copy of the address space `parent` as it was in the
/// memory `mem`: the same trampoline and the same areas, framed, on frames
/// of its own that hold in `mem2` what the frames of `parent` held in `mem`,
/// but for the trap-context page, which holds what that of `parent` held
/// with the words of `trap` stored.
pub open spec fn copied_with(
    parent: &MemorySet,
    mem: &PhysMemory,
    child: &MemorySet,
    mem2: &PhysMemory,
    trap: Seq<(int, u64)>,
) -> bool {
    &&& child.trampoline() == parent.trampoline()
    &&& child.image_end() == parent.image_end()
    &&& child.areas().len() == parent.areas().len()
    &&& child.frames().disjoint(parent.frames())
    &&& forall|i: int|
        0 <= i < parent.areas().len() ==> {
            let a = #[trigger] parent.areas()[i];
            let c = child.areas()[i];
            &&& c.start() == a.start()
            &&& c.end() == a.end()
            &&& c.perm() == a.perm()
            &&& c.map_type() == MapType::Framed
            &&& c.frames().len() == a.frames().len()
        }
    &&& forall|i: int, k: int|
        0 <= i < parent.areas().len() && 0 <= k < parent.areas()[i].frames().len() ==> mem2@[#[trigger] child.areas()[i].frames()[k]]
            == (if parent.areas()[i].start() + k == TRAP_CONTEXT_VPN {
            with_words(mem@[parent.areas()[i].frames()[k]], trap)
        } else {
            mem@[parent.areas()[i].frames()[k]]
        })
}

/// A copy whose frames hold what the frames it was copied from held, but for the
/// top of the kernel stack in the trap context, is the copy that a fork
/// makes.
proof fn lemma_forked(
    parent: &MemorySet,
    mem: &PhysMemory,
    mem1: &PhysMemory,
    child: &MemorySet,
    mem2: &PhysMemory,
    kernel_sp: u64,
)
    requires
        parent.copied_to(mem, child, mem1),
        child.frames().disjoint(parent.frames()),
        forall|i: int, k: int|
            0 <= i < parent.areas().len() && 0 <= k < parent.areas()[i].frames().len() ==> mem2@[#[trigger] child.areas()[i].frames()[k]]
                == (if parent.areas()[i].start() + k == TRAP_CONTEXT_VPN {
                mem@[parent.areas()[i].frames()[k]].update(35, kernel_sp)
            } else {
                mem@[parent.areas()[i].frames()[k]]
            }),
    ensures
        forked_to(parent, mem, child, mem2, kernel_sp),
{
    assert forall|i: int, k: int|
        0 <= i < parent.areas().len() && 0 <= k < parent.areas()[i].frames().len() implies mem2@[#[trigger] child.areas()[i].frames()[k]]
        == (if parent.areas()[i].start() + k == TRAP_CONTEXT_VPN {
        with_words(mem@[parent.areas()[i].frames()[k]], seq![(35int, kernel_sp)])
    } else {
        mem@[parent.areas()[i].frames()[k]]
    }) by {
        lemma_with_one(mem@[parent.areas()[i].frames()[k]], 35, kernel_sp);
    }
}

/// A copy stays a copy when a word of its trap context is stored: the
/// trap-context page then holds what it held with that word stored.
pub proof fn lemma_copied_trap_word(
    parent: &MemorySet,
    mem: &PhysMemory,
    child: &MemorySet,
    mem1: &PhysMemory,
    mem2: &PhysMemory,
    trap: Seq<(int, u64)>,
    idx: int,
    val: u64,
)
    requires
        child.wf(mem1),
        copied_with(parent, mem, child, mem1, trap),
        child.page_frame(TRAP_CONTEXT_VPN) is Some,
        mem2@ == mem1@.insert(
            child.page_frame(TRAP_CONTEXT_VPN)->0,
            mem1@[child.page_frame(TRAP_CONTEXT_VPN)->0].update(idx, val),
        ),
    ensures
        copied_with(parent, mem, child, mem2, trap.push((idx, val))),
{
    lemma_stored_in_copy(parent, mem, child, mem1, mem2, trap, idx, val);
}

/// The frames of a copy after a word of its trap context was stored.
proof fn lemma_stored_in_copy(
    parent: &MemorySet,
    mem: &PhysMemory,
    child: &MemorySet,
    mem1: &PhysMemory,
    mem2: &PhysMemory,
    trap: Seq<(int, u64)>,
    idx: int,
    val: u64,
)
    requires
        child.wf(mem1),
        child.areas().len() == parent.areas().len(),
        forall|i: int|
            0 <= i < parent.areas().len() ==> (#[trigger] child.areas()[i]).frames().len()
                == parent.areas()[i].frames().len() && child.areas()[i].start()
                == parent.areas()[i].start() && child.areas()[i].map_type() == MapType::Framed,
        forall|i: int, k: int|
            0 <= i < parent.areas().len() && 0 <= k < parent.areas()[i].frames().len() ==> mem1@[#[trigger] child.areas()[i].frames()[k]]
                == (if parent.areas()[i].start() + k == TRAP_CONTEXT_VPN {
                with_words(mem@[parent.areas()[i].frames()[k]], trap)
            } else {
                mem@[parent.areas()[i].frames()[k]]
            }),
        child.page_frame(TRAP_CONTEXT_VPN) is Some,
        mem2@ == mem1@.insert(
            child.page_frame(TRAP_CONTEXT_VPN)->0,
            mem1@[child.page_frame(TRAP_CONTEXT_VPN)->0].update(idx, val),
        ),
    ensures
        forall|i: int, k: int|
            0 <= i < parent.areas().len() && 0 <= k < parent.areas()[i].frames().len() ==> mem2@[#[trigger] child.areas()[i].frames()[k]]
                == (if parent.areas()[i].start() + k == TRAP_CONTEXT_VPN {
                with_words(mem@[parent.areas()[i].frames()[k]], trap.push((idx, val)))
            } else {
                mem@[parent.areas()[i].frames()[k]]
            }),
{
    child.lemma_wf(mem1);
    let ft = child.page_frame(TRAP_CONTEXT_VPN)->0;
    child.lemma_page_frame_wf(mem1, TRAP_CONTEXT_VPN);
    mem1.lemma_view();
    let trap2 = trap.push((idx, val));
    assert forall|i: int, k: int|
        0 <= i < parent.areas().len() && 0 <= k < parent.areas()[i].frames().len() implies mem2@[#[trigger] child.areas()[i].frames()[k]]
        == (if parent.areas()[i].start() + k == TRAP_CONTEXT_VPN {
        with_words(mem@[parent.areas()[i].frames()[k]], trap2)
    } else {
        mem@[parent.areas()[i].frames()[k]]
    }) by {
        lemma_with_more(mem@[parent.areas()[i].frames()[k]], trap, idx, val);
        let cf = child.areas()[i].frames()[k];
        let a = child.areas()[i];
        assert(a.frames().len() == parent.areas()[i].frames().len());
        assert(a.wf());
        let v = (a.start() + k) as u64;
        assert(a.contains(v));
        child.lemma_page_frame(i, v);
        assert(child.page_frame(v) == Some(cf));
        assert(child.data_frames().contains(cf));
        if v != TRAP_CONTEXT_VPN {
            child.lemma_page_frame_wf(mem1, v);
        }
    }
}

/// A table of open files of its own with the files of `files`.
pub fn copy_files(files: &Vec<Option<OpenFile>>) -> (r: Vec<Option<OpenFile>>)
    ensures
        r@ == files@,
{
    let mut r: Vec<Option<OpenFile>> = Vec::new();
    let mut i: usize = 0;
    while i < files.len()
        invariant
            i <= files@.len(),
            r@ == files@.take(i as int),
        decreases files@.len() - i,
    {
        let f: Option<OpenFile> = files[i];
        r.push(f);
        proof {
            assert(r@ =~= files@.take(i as int + 1));
        }
        i = i + 1;
    }
    proof {
        assert(files@.take(files@.len() as int) =~= files@);
    }
    r
}

} // verus!
