//! The kernel: the machine, the processes, the ready queue and the process
//! that runs.

use std::collections::VecDeque;
use vstd::prelude::*;
use crate::machine::{
    BootConfig,
    KernelStack,
    Machine,
    can_init,
    frames_above,
    init,
    lemma_first_stack_free,
};
use crate::address::{VirtAddr, VirtPageNum};
use crate::buffer::{translated_byte_buffer, user_addrs};
use crate::elf::{image_ok, ph_count, segments_upto};
use crate::memory_set::{
    AreaError,
    HALF_PAGES,
    MapPermission,
    MemorySet,
    effect,
    perm_bits_valid,
    vpn_valid,
};
use crate::context::{read_trap_word, trap_words, write_trap_word};
use crate::page_table::{PTE_R, PTE_W};
use crate::spaces::{
    TRAP_CONTEXT_VPN,
    image_fits,
    image_pages,
    kernel_area,
    layout_fits,
    range_after,
    range_pages,
};
use crate::task::{can_make, copied_with, standard_files};
use crate::manager::TaskManager;
use crate::pid::PidAllocator;
use crate::service::Registry;
use crate::task::{TaskControlBlock, TaskStatus};

verus! {

/// A program that the kernel can start: its name and its executable image.
pub struct AppImage {
    pub name: String,
    pub data: Vec<u8>,
}

/// The state of the kernel.
pub struct Kernel {
    /// The memory side.
    pub machine: Machine,
    /// The processes that exist, zombies among them.
    pub tasks: Vec<TaskControlBlock>,
    /// The ready queue.
    pub manager: TaskManager,
    /// The identifier of the process that runs, if one does.
    pub current: Option<usize>,
    /// The identifier of the init process, which takes over the children of
    /// processes that exit.
    pub initproc: usize,
    /// The programs that can be started.
    pub apps: Vec<AppImage>,
    /// The registry of services.
    pub registry: Registry,
    /// The bytes that processes have written to the console and that wait
    /// to be put out.
    pub console_out: Vec<u8>,
    /// The bytes that came in from the console and that wait to be read.
    pub console_in: VecDeque<u8>,
}

/// What a yield does to the process that runs and the ready queue: the
/// process goes to the end of the queue, and the process at its head runs.
pub open spec fn yield_step(current: usize, ready: Seq<usize>) -> (usize, Seq<usize>) {
    (ready.push(current)[0], ready.push(current).subrange(1, ready.len() as int + 1))
}

/// The process that runs and the ready queue after `n` yields in a row.
pub open spec fn yields(current: usize, ready: Seq<usize>, n: nat) -> (usize, Seq<usize>)
    decreases n,
{
    if n == 0 {
        (current, ready)
    } else {
        let before = yields(current, ready, (n - 1) as nat);
        yield_step(before.0, before.1)
    }
}

/// Round-robin is fair: when the processes only ever yield, the `k`-th
/// yield gives the processor to the process that was at place `k - 1` of the
/// ready queue, for every `k` up to the length of the queue, and one yield
/// more gives it back to the process that ran, with the queue as it was. So
/// between two runs of a process every other process runs exactly once.
pub proof fn lemma_round_robin(current: usize, ready: Seq<usize>, k: nat)
    requires
        k <= ready.len() + 1,
    ensures
        yields(current, ready, (ready.len() + 1) as nat) == (current, ready),
        1 <= k <= ready.len() ==> yields(current, ready, k).0 == ready[k - 1],
{
    lemma_yields(current, ready, (ready.len() + 1) as nat);
    if 1 <= k <= ready.len() {
        lemma_yields(current, ready, k);
    }
    let n = ready.len() as int;
    assert((ready.push(current) + ready.push(current)).subrange(n + 1, 2 * n + 1) =~= ready);
}

/// After `n` yields, the queue with the running process in front is the
/// first queue with the first running process at its end, turned by `n`
/// places.
proof fn lemma_yields(current: usize, ready: Seq<usize>, n: nat)
    requires
        n <= ready.len() + 1,
    ensures
        ({
            let all = ready.push(current) + ready.push(current);
            let now = yields(current, ready, n);
            &&& n > 0 ==> now.0 == all[n - 1]
            &&& now.1 == all.subrange(n as int, n as int + ready.len() as int)
            &&& n == 0 ==> now.0 == current
        }),
    decreases n,
{
    let all = ready.push(current) + ready.push(current);
    if n == 0 {
        assert(all.subrange(0, ready.len() as int) =~= ready);
    } else {
        lemma_yields(current, ready, (n - 1) as nat);
        let before = yields(current, ready, (n - 1) as nat);
        assert(before.1 =~= all.subrange(n - 1, n - 1 + ready.len() as int));
        if n - 1 > 0 {
            assert(before.0 == all[n - 2]);
            assert(all[n - 2] == all[n - 2 + ready.len() + 1]);
        } else {
            assert(before.0 == current);
            assert(all[ready.len() as int] == current);
        }
        assert(before.1.push(before.0) =~= all.subrange(n - 1, n as int + ready.len() as int));
        assert(before.1.push(before.0).subrange(1, ready.len() as int + 1) =~= all.subrange(
            n as int,
            n as int + ready.len() as int,
        ));
    }
}

/// On the machine that was just set up from `config`, the first process
/// can be made from the image `d` when the frames above the kernel are
/// enough for both.
proof fn lemma_boot_makes(config: BootConfig, m: &Machine, d: Seq<u8>)
    requires
        layout_fits(config.layout),
        image_ok(d),
        image_fits(d),
        frames_above(config) >= 2 * range_pages(config.layout.ranges()) + 3 + 3 * (image_pages(
            segments_upto(d, ph_count(d)),
        ) + 3) + 9,
        m.frames.free_count() + 2 * range_pages(config.layout.ranges()) + 3 >= frames_above(config),
        m.kernel_space.areas().len() == 5,
        forall|j: int| 0 <= j < 5 ==> kernel_area(#[trigger] m.kernel_space.areas()[j], config.layout.ranges()[j]),
        m.pids.next_pid() == Some(0usize),
    ensures
        can_make(m, d),
{
    assert forall|j: int| 0 <= j < m.kernel_space.areas().len() implies (
    #[trigger] m.kernel_space.areas()[j]).end() <= HALF_PAGES by {
        assert(kernel_area(m.kernel_space.areas()[j], config.layout.ranges()[j]));
        assert(range_after(config.layout.ranges()[j]) <= HALF_PAGES);
    }
    lemma_first_stack_free(&m.kernel_space);
}

/// Sets up the machine from `config` and makes the init process on it,
/// from the program with the name of the init process.
fn boot_machine(config: BootConfig, apps: &Vec<AppImage>) -> (r: Option<(Machine, TaskControlBlock)>)
    ensures
        Kernel::can_boot(config, apps@) ==> r is Some,
        r matches Some((m, t)) ==> {
            &&& m.wf()
            &&& m.config == config
            &&& t.wf(&m)
            &&& t.pid.0 == 0
            &&& forall|p: usize| m.pids.is_allocated(p) <==> p == 0
            &&& app_index(apps@, init_name()) matches Some(at) && image_ok(apps@[at].data@)
                && t.fresh(None, standard_files(), t.inner.base_size) && t.runs(
                &m,
                apps@[at].data@,
                t.inner.base_size,
            ) && t.kernel_stack.holds_context(&m, config.trap_return)
        },
{
    let mut machine = match init(config) {
        None => {
            return None;
        },
        Some(m) => m,
    };
    let name = "initproc".to_owned();
    proof {
        reveal_strlit("initproc");
        assert(name@ =~= init_name());
    }
    let at = match get_app_data_by_name(apps, &name) {
        None => {
            return None;
        },
        Some(i) => i,
    };
    let ghost m0 = machine;
    proof {
        if Kernel::can_boot(config, apps@) {
            lemma_boot_makes(config, &m0, apps@[at as int].data@);
        }
    }
    let task = match TaskControlBlock::new(&mut machine, apps[at].data.as_slice()) {
        None => {
            return None;
        },
        Some(t) => t,
    };
    proof {
        m0.pids.lemma_next();
        assert(TaskControlBlock::made(
            &task,
            &m0,
            &machine,
            apps@[at as int].data@,
            None,
            standard_files(),
        ));
    }
    Some((machine, task))
}

/// The child at the place `a` of the children of the process at the place
/// `i` of `tasks`.
pub open spec fn child_at(tasks: Seq<TaskControlBlock>, i: int, a: int) -> usize {
    tasks[i].inner.children@[a]
}

/// Whether `a` is a place in the children of the process at the place `i`
/// of `tasks`.
pub open spec fn lists(tasks: Seq<TaskControlBlock>, i: int, a: int) -> bool {
    0 <= i < tasks.len() && 0 <= a < tasks[i].inner.children@.len()
}

/// The families of the processes `tasks` are in order: the identifier of
/// the init process is handed out; every identifier that a process lists as
/// a child is handed out, and is neither its own nor that of the init
/// process; and no identifier is listed twice, by one process or by two.
pub open spec fn families_ok(tasks: Seq<TaskControlBlock>, pids: PidAllocator, init: usize) -> bool {
    &&& pids.is_allocated(init)
    &&& forall|i: int, a: int|
        lists(tasks, i, a) ==> {
            let c = #[trigger] child_at(tasks, i, a);
            &&& pids.is_allocated(c)
            &&& c != tasks[i].pid.0
            &&& c != init
        }
    &&& forall|i: int, a: int, j: int, b: int|
        lists(tasks, i, a) && lists(tasks, j, b) && !(i == j && a == b) ==> #[trigger] child_at(
            tasks,
            i,
            a,
        ) != #[trigger] child_at(tasks, j, b)
}

impl Kernel {
    /// Whether `now` has the init process, the programs, the registry and
    /// the console of this kernel.
    pub open spec fn same_rest(&self, now: &Kernel) -> bool {
        &&& now.initproc == self.initproc
        &&& now.apps == self.apps
        &&& now.registry == self.registry
        &&& now.console_out == self.console_out
        &&& now.console_in == self.console_in
    }

    /// Whether a process with the identifier `pid` exists.
    pub open spec fn has_task(&self, pid: usize) -> bool {
        exists|i: int| 0 <= i < self.tasks@.len() && (#[trigger] self.tasks@[i]).pid.0 == pid
    }

    /// Whether the process with the identifier `pid` exists and is in the
    /// state `status`.
    pub open spec fn has_task_in(&self, pid: usize, status: TaskStatus) -> bool {
        exists|i: int|
            0 <= i < self.tasks@.len() && (#[trigger] self.tasks@[i]).pid.0 == pid
                && self.tasks@[i].inner.task_status == status
    }

    /// The machine is in order; the address space of every process is in
    /// order on it; and no two processes share a frame.
    pub open spec fn spaces_ok(&self) -> bool {
        &&& self.machine.wf()
        &&& forall|i: int| 0 <= i < self.tasks@.len() ==> (#[trigger] self.tasks@[i]).wf(&self.machine)
        &&& forall|i: int, j: int|
            0 <= i < self.tasks@.len() && 0 <= j < self.tasks@.len() && i != j ==> (#[trigger] self.tasks@[i]).inner.memory_set.frames().disjoint(
                (#[trigger] self.tasks@[j]).inner.memory_set.frames(),
            )
    }

    /// No two processes have the same identifier, and every identifier that
    /// is handed out is that of a process.
    pub open spec fn pids_ok(&self) -> bool {
        &&& forall|i: int, j: int|
            0 <= i < self.tasks@.len() && 0 <= j < self.tasks@.len() && i != j ==> (#[trigger] self.tasks@[i]).pid
                != (#[trigger] self.tasks@[j]).pid
        &&& forall|p: usize| #[trigger] self.machine.pids.is_allocated(p) ==> self.has_task(p)
    }

    /// The ready queue holds each ready process once and nothing else, and
    /// the process that runs is the one running process.
    pub open spec fn sched_ok(&self) -> bool {
        &&& self.manager@.no_duplicates()
        &&& forall|k: int|
            0 <= k < self.manager@.len() ==> self.has_task_in(
                #[trigger] self.manager@[k],
                TaskStatus::Ready,
            )
        &&& forall|i: int|
            0 <= i < self.tasks@.len() && (#[trigger] self.tasks@[i]).inner.task_status
                == TaskStatus::Ready ==> self.manager@.contains(self.tasks@[i].pid.0)
        &&& self.current matches Some(c) ==> self.has_task_in(c, TaskStatus::Running)
        &&& forall|i: int|
            0 <= i < self.tasks@.len() && (#[trigger] self.tasks@[i]).inner.task_status
                == TaskStatus::Running ==> self.current == Some(self.tasks@[i].pid.0)
    }

    /// The families are in order; see `families_ok`.
    pub open spec fn family_ok(&self) -> bool {
        families_ok(self.tasks@, self.machine.pids, self.initproc)
    }

    /// The same processes with the same children, while every identifier
    /// that was handed out still is, are families in order as they were.
    pub proof fn lemma_same_family(&self, now: &Kernel)
        requires
            self.family_ok(),
            now.initproc == self.initproc,
            now.tasks@.len() == self.tasks@.len(),
            forall|i: int|
                0 <= i < self.tasks@.len() ==> (#[trigger] now.tasks@[i]).pid == self.tasks@[i].pid
                    && now.tasks@[i].inner.children@ == self.tasks@[i].inner.children@,
            forall|p: usize| self.machine.pids.is_allocated(p) ==> now.machine.pids.is_allocated(p),
        ensures
            now.family_ok(),
    {
        let t0 = self.tasks@;
        let t1 = now.tasks@;
        assert forall|i: int, a: int| lists(t1, i, a) implies {
            let c = #[trigger] child_at(t1, i, a);
            &&& now.machine.pids.is_allocated(c)
            &&& c != t1[i].pid.0
            &&& c != now.initproc
        } by {
            assert(lists(t0, i, a));
            assert(child_at(t0, i, a) == child_at(t1, i, a));
        }
        assert forall|i: int, a: int, j: int, b: int|
            lists(t1, i, a) && lists(t1, j, b) && !(i == j && a == b) implies #[trigger] child_at(
            t1,
            i,
            a,
        ) != #[trigger] child_at(t1, j, b) by {
            assert(lists(t0, i, a) && lists(t0, j, b));
            assert(child_at(t0, i, a) == child_at(t1, i, a));
            assert(child_at(t0, j, b) == child_at(t1, j, b));
        }
    }

    /// The kernel is in order.
    pub open spec fn wf(&self) -> bool {
        &&& self.spaces_ok()
        &&& self.pids_ok()
        &&& self.sched_ok()
        &&& self.family_ok()
    }

    /// The position of the process `pid` in the table of processes.
    pub fn find(&self, pid: usize) -> (r: Option<usize>)
        ensures
            r matches Some(i) ==> i < self.tasks@.len() && self.tasks@[i as int].pid.0 == pid,
            r is None ==> !self.has_task(pid),
    {
        let mut i: usize = 0;
        while i < self.tasks.len()
            invariant
                i <= self.tasks@.len(),
                forall|k: int| 0 <= k < i ==> (#[trigger] self.tasks@[k]).pid.0 != pid,
            decreases self.tasks@.len() - i,
        {
            if self.tasks[i].pid.0 == pid {
                return Some(i);
            }
            i = i + 1;
        }
        None
    }

    /// The identifier of the process that runs, if one does.
    pub fn current_task(&self) -> (r: Option<usize>)
        ensures
            r == self.current,
    {
        self.current
    }

    /// Takes the process that runs off the processor: afterwards no process
    /// runs. The state of the process is left as it is.
    pub fn take_current_task(&mut self) -> (r: Option<usize>)
        ensures
            r == old(self).current,
            final(self).current is None,
            final(self).machine == old(self).machine,
            final(self).tasks == old(self).tasks,
            final(self).manager == old(self).manager,
            old(self).same_rest(final(self)),
    {
        let r = self.current;
        self.current = None;
        r
    }

    /// The same processes with the same address spaces on the same machine
    /// are in order as they were.
    pub proof fn lemma_same_spaces(&self, now: &Kernel)
        requires
            self.spaces_ok(),
            self.pids_ok(),
            now.machine == self.machine,
            now.tasks@.len() == self.tasks@.len(),
            forall|i: int|
                0 <= i < self.tasks@.len() ==> (#[trigger] now.tasks@[i]).pid == self.tasks@[i].pid
                    && now.tasks@[i].kernel_stack == self.tasks@[i].kernel_stack
                    && now.tasks@[i].inner.memory_set == self.tasks@[i].inner.memory_set,
        ensures
            now.spaces_ok(),
            now.pids_ok(),
            forall|p: usize| now.has_task(p) == self.has_task(p),
    {
        assert forall|i: int| 0 <= i < now.tasks@.len() implies (#[trigger] now.tasks@[i]).wf(
            &now.machine,
        ) by {
            assert(self.tasks@[i].wf(&self.machine));
        }
        assert forall|i: int, j: int|
            0 <= i < now.tasks@.len() && 0 <= j < now.tasks@.len() && i != j implies (#[trigger] now.tasks@[i]).inner.memory_set.frames().disjoint(
            (#[trigger] now.tasks@[j]).inner.memory_set.frames(),
        ) && now.tasks@[i].pid != now.tasks@[j].pid by {
            assert(self.tasks@[i].inner.memory_set.frames().disjoint(
                self.tasks@[j].inner.memory_set.frames(),
            ));
            assert(self.tasks@[i].pid != self.tasks@[j].pid);
        }
        assert forall|p: usize| now.has_task(p) == self.has_task(p) by {
            if now.has_task(p) {
                let i = choose|i: int| 0 <= i < now.tasks@.len() && (#[trigger] now.tasks@[i]).pid.0 == p;
                assert(self.tasks@[i].pid.0 == p);
            }
            if self.has_task(p) {
                let i = choose|i: int|
                    0 <= i < self.tasks@.len() && (#[trigger] self.tasks@[i]).pid.0 == p;
                assert(now.tasks@[i].pid.0 == p);
            }
        }
    }

    /// Gives the processor to the process at the head of the ready queue,
    /// when no process runs. Returns the identifier of that process, or
    /// `None` when the queue is empty: then still no process runs.
    pub fn run_next(&mut self) -> (r: Option<usize>)
        requires
            old(self).wf(),
            old(self).current is None,
        ensures
            final(self).wf(),
            final(self).current == r,
            r == if old(self).manager@.len() > 0 {
                Some(old(self).manager@[0])
            } else {
                None
            },
            final(self).manager@ == if old(self).manager@.len() > 0 {
                old(self).manager@.subrange(1, old(self).manager@.len() as int)
            } else {
                old(self).manager@
            },
            final(self).machine == old(self).machine,
            old(self).same_rest(final(self)),
            final(self).tasks@.len() == old(self).tasks@.len(),
            forall|i: int|
                0 <= i < old(self).tasks@.len() ==> {
                    let t = #[trigger] final(self).tasks@[i];
                    let o = old(self).tasks@[i];
                    &&& t.pid == o.pid
                    &&& t.kernel_stack == o.kernel_stack
                    &&& t.inner.memory_set == o.inner.memory_set
                    &&& t.inner.task_cx_ptr == o.inner.task_cx_ptr
                    &&& t.inner.trap_cx_ppn == o.inner.trap_cx_ppn
                    &&& t.inner.base_size == o.inner.base_size
                    &&& t.inner.parent == o.inner.parent
                    &&& t.inner.children == o.inner.children
                    &&& t.inner.exit_code == o.inner.exit_code
                    &&& t.inner.fd_table == o.inner.fd_table
                    &&& t.inner.channel == o.inner.channel
                    &&& t.inner.task_status == if Some(o.pid.0) == r {
                        TaskStatus::Running
                    } else {
                        o.inner.task_status
                    }
                },
    {
        let next = self.manager.fetch();
        match next {
            None => None,
            Some(pid) => {
                let ghost before = *self;
                proof {
                    assert(old(self).manager@[0] == pid);
                    assert(old(self).has_task_in(pid, TaskStatus::Ready));
                }
                let at = self.find(pid);
                let i: usize = at.unwrap();
                self.tasks[i].inner.task_status = TaskStatus::Running;
                self.current = Some(pid);
                proof {
                    old(self).lemma_same_spaces(self);
                    old(self).lemma_same_family(self);
                    let n = old(self).manager@.len() as int;
                    assert(self.manager@.no_duplicates()) by {
                        assert forall|a: int, b: int|
                            0 <= a < self.manager@.len() && 0 <= b < self.manager@.len() && a
                                != b implies self.manager@[a] != self.manager@[b] by {
                            assert(old(self).manager@[a + 1] != old(self).manager@[b + 1]);
                        }
                    }
                    assert forall|k: int| 0 <= k < self.manager@.len() implies self.has_task_in(
                        #[trigger] self.manager@[k],
                        TaskStatus::Ready,
                    ) by {
                        let q = self.manager@[k];
                        assert(q == old(self).manager@[k + 1]);
                        assert(old(self).has_task_in(q, TaskStatus::Ready));
                        let j = choose|j: int|
                            0 <= j < old(self).tasks@.len() && (#[trigger] old(self).tasks@[j]).pid.0
                                == q && old(self).tasks@[j].inner.task_status == TaskStatus::Ready;
                        assert(old(self).manager@[k + 1] != old(self).manager@[0]);
                        assert(self.tasks@[j].pid.0 == q);
                    }
                    assert forall|j: int|
                        0 <= j < self.tasks@.len() && (#[trigger] self.tasks@[j]).inner.task_status
                            == TaskStatus::Ready implies self.manager@.contains(
                        self.tasks@[j].pid.0,
                    ) by {
                        assert(old(self).tasks@[j].inner.task_status == TaskStatus::Ready);
                        let q = self.tasks@[j].pid.0;
                        assert(old(self).manager@.contains(q));
                        let k = choose|k: int| 0 <= k < n && old(self).manager@[k] == q;
                        assert(old(self).tasks@[j].pid != old(self).tasks@[i as int].pid);
                        assert(k != 0);
                        assert(self.manager@[k - 1] == q);
                    }
                    assert(self.tasks@[i as int].pid.0 == pid);
                    assert(self.has_task_in(pid, TaskStatus::Running));
                    assert forall|j: int|
                        0 <= j < self.tasks@.len() && (#[trigger] self.tasks@[j]).inner.task_status
                            == TaskStatus::Running implies self.current == Some(
                        self.tasks@[j].pid.0,
                    ) by {
                        if j != i {
                            assert(old(self).tasks@[j].inner.task_status == TaskStatus::Running);
                        }
                    }
                }
                Some(pid)
            },
        }
    }

    /// The other processes are untouched by a step of the machine that the
    /// process at the place `actor` made, or that made the address space
    /// of a new process when `actor` is no place: they fit the machine after
    /// the step, and share no frame with the address space that the step
    /// worked on.
    pub proof fn lemma_step_others(&self, actor: int, now: &Machine, after: Set<u64>)
        requires
            self.spaces_ok(),
            self.machine.step(
                if 0 <= actor < self.tasks@.len() {
                    self.tasks@[actor].inner.memory_set.frames()
                } else {
                    Set::<u64>::empty()
                },
                now,
                after,
            ),
            forall|p: usize| self.machine.pids.is_allocated(p) ==> now.pids.is_allocated(p),
        ensures
            now.wf(),
            forall|j: int|
                0 <= j < self.tasks@.len() && j != actor ==> {
                    let t = #[trigger] self.tasks@[j];
                    &&& t.wf(now)
                    &&& t.inner.memory_set.frames().disjoint(after)
                    &&& forall|v: u64| #[trigger]
                        t.inner.memory_set.lookup(&now.mem, v) == t.inner.memory_set.lookup(
                            &self.machine.mem,
                            v,
                        )
                    &&& forall|f: u64| #[trigger]
                        t.inner.memory_set.frames().contains(f) ==> now.mem@[f]
                            == self.machine.mem@[f]
                },
    {
        let before = if 0 <= actor < self.tasks@.len() {
            self.tasks@[actor].inner.memory_set.frames()
        } else {
            Set::<u64>::empty()
        };
        assert forall|j: int| 0 <= j < self.tasks@.len() && j != actor implies {
            let t = #[trigger] self.tasks@[j];
            &&& t.wf(now)
            &&& t.inner.memory_set.frames().disjoint(after)
            &&& forall|v: u64| #[trigger]
                t.inner.memory_set.lookup(&now.mem, v) == t.inner.memory_set.lookup(
                    &self.machine.mem,
                    v,
                )
            &&& forall|f: u64| #[trigger]
                t.inner.memory_set.frames().contains(f) ==> now.mem@[f] == self.machine.mem@[f]
        } by {
            let t = self.tasks@[j];
            assert(t.wf(&self.machine));
            if 0 <= actor < self.tasks@.len() {
                assert(self.tasks@[j].inner.memory_set.frames().disjoint(
                    self.tasks@[actor].inner.memory_set.frames(),
                ));
            }
            self.machine.lemma_step_bystander(&t.inner.memory_set, before, now, after);
        }
    }

    /// After a step of the machine that made the address space of the new
    /// process `task`, whose identifier was handed out in the step, the
    /// kernel is ready to take the process in.
    pub proof fn lemma_ready_to_add(&self, now: &Kernel, task: &TaskControlBlock)
        requires
            self.wf(),
            now.tasks@.len() == self.tasks@.len(),
            forall|j: int|
                0 <= j < self.tasks@.len() ==> same_but_family(self.tasks@[j], #[trigger] now.tasks@[j]),
            now.manager == self.manager,
            now.current == self.current,
            now.family_ok(),
            self.machine.step(Set::<u64>::empty(), &now.machine, task.inner.memory_set.frames()),
            task.wf(&now.machine),
            task.inner.children@.len() == 0,
            task.inner.task_status == TaskStatus::Ready,
            !self.machine.pids.is_allocated(task.pid.0),
            forall|p: usize|
                now.machine.pids.is_allocated(p) <==> self.machine.pids.is_allocated(p) || p
                    == task.pid.0,
        ensures
            now.wf_but(task.pid.0),
            now.can_add(task),
            forall|j: int|
                0 <= j < self.tasks@.len() ==> {
                    let t = #[trigger] self.tasks@[j];
                    &&& forall|v: u64| #[trigger]
                        t.inner.memory_set.lookup(&now.machine.mem, v) == t.inner.memory_set.lookup(
                            &self.machine.mem,
                            v,
                        )
                    &&& forall|f: u64| #[trigger]
                        t.inner.memory_set.frames().contains(f) ==> now.machine.mem@[f]
                            == self.machine.mem@[f]
                },
    {
        self.lemma_step_others(-1, &now.machine, task.inner.memory_set.frames());
        self.lemma_same_sched(now);
        assert forall|i: int| 0 <= i < now.tasks@.len() implies (#[trigger] now.tasks@[i]).wf(
            &now.machine,
        ) by {
            assert(self.tasks@[i].wf(&now.machine));
        }
        if now.has_task(task.pid.0) {
            let i = choose|i: int|
                0 <= i < now.tasks@.len() && (#[trigger] now.tasks@[i]).pid.0 == task.pid.0;
            assert(self.tasks@[i].wf(&self.machine));
        }
        assert forall|p: usize| #[trigger] now.machine.pids.is_allocated(p) implies now.has_task(p)
            || p == task.pid.0 by {
            if p != task.pid.0 {
                assert(self.machine.pids.is_allocated(p));
                assert(self.has_task(p));
                let i = choose|i: int|
                    0 <= i < self.tasks@.len() && (#[trigger] self.tasks@[i]).pid.0 == p;
                assert(now.tasks@[i].pid.0 == p);
            }
        }
    }

    /// After a step of the machine that made no new address space and
    /// handed out no identifier, the kernel is in order as it was.
    pub proof fn lemma_nothing_added(&self, now: &Kernel)
        requires
            self.wf(),
            now.tasks@ == self.tasks@,
            now.manager == self.manager,
            now.current == self.current,
            now.initproc == self.initproc,
            self.machine.step(Set::<u64>::empty(), &now.machine, Set::<u64>::empty()),
            forall|p: usize| now.machine.pids.is_allocated(p) <==> self.machine.pids.is_allocated(p),
        ensures
            now.wf(),
            forall|j: int|
                0 <= j < self.tasks@.len() ==> {
                    let t = #[trigger] self.tasks@[j];
                    &&& forall|v: u64| #[trigger]
                        t.inner.memory_set.lookup(&now.machine.mem, v) == t.inner.memory_set.lookup(
                            &self.machine.mem,
                            v,
                        )
                    &&& forall|f: u64| #[trigger]
                        t.inner.memory_set.frames().contains(f) ==> now.machine.mem@[f]
                            == self.machine.mem@[f]
                },
    {
        self.lemma_step_others(-1, &now.machine, Set::<u64>::empty());
        self.lemma_same_sched(now);
        self.lemma_same_family(now);
        assert forall|i: int| 0 <= i < now.tasks@.len() implies (#[trigger] now.tasks@[i]).wf(
            &now.machine,
        ) by {
            assert(self.tasks@[i].wf(&now.machine));
        }
        assert forall|p: usize| #[trigger] now.machine.pids.is_allocated(p) implies now.has_task(p) by {
            assert(self.machine.pids.is_allocated(p));
            assert(self.has_task(p));
            let i = choose|i: int| 0 <= i < self.tasks@.len() && (#[trigger] self.tasks@[i]).pid.0 == p;
            assert(now.tasks@[i].pid.0 == p);
        }
    }

    /// Whether `task` can be entered among the processes: it fits the
    /// machine, is ready, has an identifier that no process has, and shares
    /// no frame with a process.
    pub open spec fn can_add(&self, task: &TaskControlBlock) -> bool {
        &&& task.wf(&self.machine)
        &&& task.inner.task_status == TaskStatus::Ready
        &&& task.inner.children@.len() == 0
        &&& !self.has_task(task.pid.0)
        &&& forall|p: usize| #[trigger]
            self.machine.pids.is_allocated(p) ==> self.has_task(p) || p == task.pid.0
        &&& forall|i: int|
            0 <= i < self.tasks@.len() ==> (#[trigger] self.tasks@[i]).inner.memory_set.frames().disjoint(
                task.inner.memory_set.frames(),
            )
    }

    /// The kernel is in order but for the identifier of a process that is
    /// about to be entered: every other identifier that is handed out is
    /// that of a process.
    pub open spec fn wf_but(&self, pid: usize) -> bool {
        &&& self.spaces_ok()
        &&& self.sched_ok()
        &&& self.family_ok()
        &&& forall|i: int, j: int|
            0 <= i < self.tasks@.len() && 0 <= j < self.tasks@.len() && i != j ==> (#[trigger] self.tasks@[i]).pid
                != (#[trigger] self.tasks@[j]).pid
    }

    /// Enters the process `task` among the processes and puts it at the end
    /// of the ready queue.
    pub fn add_task(&mut self, task: TaskControlBlock)
        requires
            old(self).wf_but(task.pid.0),
            old(self).can_add(&task),
        ensures
            final(self).wf(),
            final(self).tasks@ == old(self).tasks@.push(task),
            final(self).manager@ == old(self).manager@.push(task.pid.0),
            final(self).machine == old(self).machine,
            final(self).current == old(self).current,
            old(self).same_rest(final(self)),
    {
        let pid = task.pid.0;
        self.tasks.push(task);
        self.manager.add(pid);
        proof {
            let n = old(self).tasks@.len() as int;
            assert(self.tasks@[n] == task);
            assert(self.family_ok()) by {
                let t0 = old(self).tasks@;
                let t1 = self.tasks@;
                assert forall|i: int, a: int| lists(t1, i, a) implies lists(t0, i, a) && child_at(
                    t0,
                    i,
                    a,
                ) == #[trigger] child_at(t1, i, a) && t1[i].pid == t0[i].pid by {
                    assert(i < n);
                    assert(t1[i] == t0[i]);
                }
            }
            assert forall|i: int| 0 <= i < n implies self.tasks@[i] == old(self).tasks@[i] by {}
            assert forall|p: usize| old(self).has_task(p) implies self.has_task(p) by {
                let i = choose|i: int|
                    0 <= i < old(self).tasks@.len() && (#[trigger] old(self).tasks@[i]).pid.0 == p;
                assert(self.tasks@[i].pid.0 == p);
            }
            assert forall|p: usize, st: TaskStatus| old(self).has_task_in(p, st) implies self.has_task_in(
                p,
                st,
            ) by {
                let i = choose|i: int|
                    0 <= i < old(self).tasks@.len() && (#[trigger] old(self).tasks@[i]).pid.0 == p
                        && old(self).tasks@[i].inner.task_status == st;
                assert(self.tasks@[i].pid.0 == p);
            }
            assert(self.has_task(pid)) by {
                assert(self.tasks@[n].pid.0 == pid);
            }
            assert(self.has_task_in(pid, TaskStatus::Ready)) by {
                assert(self.tasks@[n].pid.0 == pid);
            }
            assert forall|i: int, j: int|
                0 <= i < self.tasks@.len() && 0 <= j < self.tasks@.len() && i != j implies (#[trigger] self.tasks@[i]).inner.memory_set.frames().disjoint(
                (#[trigger] self.tasks@[j]).inner.memory_set.frames(),
            ) && self.tasks@[i].pid != self.tasks@[j].pid by {
                if i < n && j < n {
                } else if i < n {
                    assert(old(self).tasks@[i].pid.0 != pid);
                } else {
                    assert(old(self).tasks@[j].pid.0 != pid);
                }
            }
            assert(self.manager@.no_duplicates()) by {
                let m = old(self).manager@.len() as int;
                assert forall|a: int, b: int|
                    0 <= a < self.manager@.len() && 0 <= b < self.manager@.len() && a
                        != b implies self.manager@[a] != self.manager@[b] by {
                    if a < m && b < m {
                    } else if a < m {
                        assert(old(self).has_task_in(old(self).manager@[a], TaskStatus::Ready));
                    } else {
                        assert(old(self).has_task_in(old(self).manager@[b], TaskStatus::Ready));
                    }
                }
            }
            assert forall|k: int| 0 <= k < self.manager@.len() implies self.has_task_in(
                #[trigger] self.manager@[k],
                TaskStatus::Ready,
            ) by {
                if k < old(self).manager@.len() {
                    assert(old(self).has_task_in(old(self).manager@[k], TaskStatus::Ready));
                }
            }
            assert forall|i: int|
                0 <= i < self.tasks@.len() && (#[trigger] self.tasks@[i]).inner.task_status
                    == TaskStatus::Ready implies self.manager@.contains(self.tasks@[i].pid.0) by {
                if i < n {
                    let q = old(self).tasks@[i].pid.0;
                    assert(old(self).manager@.contains(q));
                    let k = choose|k: int| 0 <= k < old(self).manager@.len() && old(self).manager@[k] == q;
                    assert(self.manager@[k] == q);
                } else {
                    assert(self.manager@[old(self).manager@.len() as int] == pid);
                }
            }
            if self.current is Some {
                assert(old(self).has_task_in(self.current->0, TaskStatus::Running));
            }
        }
    }

    /// Whether `now` is this kernel after the process that runs has given
    /// up the processor: it is ready and at the end of the ready queue, the
    /// process that was at the head of the queue runs, and all else is as it
    /// was.
    pub open spec fn yielded(&self, now: &Kernel) -> bool {
        &&& now.wf()
        &&& now.current == Some(yield_step(self.current->0, self.manager@).0)
        &&& now.manager@ == yield_step(self.current->0, self.manager@).1
        &&& now.machine == self.machine
        &&& self.same_rest(now)
        &&& now.tasks@.len() == self.tasks@.len()
        &&& forall|i: int|
            0 <= i < self.tasks@.len() ==> {
                let t = #[trigger] now.tasks@[i];
                let o = self.tasks@[i];
                &&& same_identity(o, t)
                &&& t.inner.memory_set == o.inner.memory_set
                &&& t.inner.parent == o.inner.parent
                &&& t.inner.children == o.inner.children
                &&& t.inner.exit_code == o.inner.exit_code
                &&& t.inner.task_status == if Some(o.pid.0) == now.current {
                    TaskStatus::Running
                } else if Some(o.pid.0) == self.current {
                    TaskStatus::Ready
                } else {
                    o.inner.task_status
                }
            }
    }

    /// Takes the process that runs off the processor, puts it at the end
    /// of the ready queue, and gives the processor to the process at the
    /// head of the queue. A process must run.
    pub fn suspend_current_and_run_next(&mut self)
        requires
            old(self).wf(),
            old(self).current is Some,
        ensures
            old(self).yielded(final(self)),
            final(self).wf(),
            final(self).current == Some(yield_step(old(self).current->0, old(self).manager@).0),
            final(self).manager@ == yield_step(old(self).current->0, old(self).manager@).1,
            final(self).machine == old(self).machine,
            old(self).same_rest(final(self)),
            final(self).tasks@.len() == old(self).tasks@.len(),
            forall|i: int|
                0 <= i < old(self).tasks@.len() ==> {
                    let t = #[trigger] final(self).tasks@[i];
                    let o = old(self).tasks@[i];
                    &&& t.pid == o.pid
                    &&& t.kernel_stack == o.kernel_stack
                    &&& t.inner.memory_set == o.inner.memory_set
                    &&& t.inner.task_cx_ptr == o.inner.task_cx_ptr
                    &&& t.inner.trap_cx_ppn == o.inner.trap_cx_ppn
                    &&& t.inner.base_size == o.inner.base_size
                    &&& t.inner.parent == o.inner.parent
                    &&& t.inner.children == o.inner.children
                    &&& t.inner.exit_code == o.inner.exit_code
                    &&& t.inner.fd_table == o.inner.fd_table
                    &&& t.inner.channel == o.inner.channel
                    &&& t.inner.task_status == if Some(o.pid.0) == final(self).current {
                        TaskStatus::Running
                    } else if Some(o.pid.0) == old(self).current {
                        TaskStatus::Ready
                    } else {
                        o.inner.task_status
                    }
                },
    {
        let pid: usize = self.take_current_task().unwrap();
        proof {
            assert(old(self).has_task_in(pid, TaskStatus::Running));
        }
        let at = self.find(pid);
        let i: usize = at.unwrap();
        self.tasks[i].inner.task_status = TaskStatus::Ready;
        self.manager.add(pid);
        proof {
            old(self).lemma_same_spaces(self);
            let n = old(self).manager@.len() as int;
            assert(self.manager@[n] == pid);
            assert forall|p: usize| old(self).has_task_in(p, TaskStatus::Ready) implies self.has_task_in(
                p,
                TaskStatus::Ready,
            ) by {
                let j = choose|j: int|
                    0 <= j < old(self).tasks@.len() && (#[trigger] old(self).tasks@[j]).pid.0 == p
                        && old(self).tasks@[j].inner.task_status == TaskStatus::Ready;
                assert(self.tasks@[j].pid.0 == p);
            }
            assert(self.has_task_in(pid, TaskStatus::Ready)) by {
                assert(self.tasks@[i as int].pid.0 == pid);
            }
            assert(self.manager@.no_duplicates()) by {
                assert forall|a: int, b: int|
                    0 <= a < self.manager@.len() && 0 <= b < self.manager@.len() && a
                        != b implies self.manager@[a] != self.manager@[b] by {
                    if a < n && b < n {
                    } else {
                        let c = if a < n {
                            a
                        } else {
                            b
                        };
                        let q = old(self).manager@[c];
                        assert(old(self).has_task_in(q, TaskStatus::Ready));
                        let j = choose|j: int|
                            0 <= j < old(self).tasks@.len() && (#[trigger] old(self).tasks@[j]).pid.0
                                == q && old(self).tasks@[j].inner.task_status == TaskStatus::Ready;
                        if q == pid {
                            assert(old(self).tasks@[j].pid == old(self).tasks@[i as int].pid);
                        }
                    }
                }
            }
            assert forall|k: int| 0 <= k < self.manager@.len() implies self.has_task_in(
                #[trigger] self.manager@[k],
                TaskStatus::Ready,
            ) by {
                if k < n {
                    assert(old(self).has_task_in(old(self).manager@[k], TaskStatus::Ready));
                }
            }
            assert forall|j: int|
                0 <= j < self.tasks@.len() && (#[trigger] self.tasks@[j]).inner.task_status
                    == TaskStatus::Ready implies self.manager@.contains(self.tasks@[j].pid.0) by {
                if j != i {
                    let q = old(self).tasks@[j].pid.0;
                    assert(old(self).manager@.contains(q));
                    let k = choose|k: int| 0 <= k < n && old(self).manager@[k] == q;
                    assert(self.manager@[k] == q);
                }
            }
            assert forall|j: int|
                0 <= j < self.tasks@.len() && (#[trigger] self.tasks@[j]).inner.task_status
                    == TaskStatus::Running implies false by {
                if j != i {
                    assert(old(self).tasks@[j].inner.task_status == TaskStatus::Running);
                    assert(old(self).tasks@[j].pid != old(self).tasks@[i as int].pid);
                }
            }
        }
        proof {
            old(self).lemma_same_family(self);
        }
        let ghost mid = *self;
        let next = self.run_next();
        proof {
            assert(mid.manager@ =~= old(self).manager@.push(pid));
            assert forall|j: int| 0 <= j < old(self).tasks@.len() implies {
                let t = #[trigger] self.tasks@[j];
                let o = old(self).tasks@[j];
                t.inner.task_status == if Some(o.pid.0) == self.current {
                    TaskStatus::Running
                } else if Some(o.pid.0) == old(self).current {
                    TaskStatus::Ready
                } else {
                    o.inner.task_status
                }
            } by {
                let m = mid.tasks@[j];
                if j != i {
                    assert(old(self).tasks@[j].pid != old(self).tasks@[i as int].pid);
                }
            }
        }
    }

    /// The kernel is in order after a step that the process at the place
    /// `i` made on its own address space, when the other processes are as
    /// they were and the identifiers are handed out as they were.
    pub proof fn lemma_actor_stepped(&self, i: int, now: &Kernel)
        requires
            self.spaces_ok(),
            self.pids_ok(),
            0 <= i < self.tasks@.len(),
            now.tasks@.len() == self.tasks@.len(),
            forall|j: int|
                0 <= j < self.tasks@.len() ==> (#[trigger] now.tasks@[j]).pid == self.tasks@[j].pid
                    && now.tasks@[j].kernel_stack == self.tasks@[j].kernel_stack,
            forall|j: int|
                0 <= j < self.tasks@.len() && j != i ==> (#[trigger] now.tasks@[j]).inner.memory_set
                    == self.tasks@[j].inner.memory_set,
            self.machine.step(
                self.tasks@[i].inner.memory_set.frames(),
                &now.machine,
                now.tasks@[i].inner.memory_set.frames(),
            ),
            forall|p: usize| self.machine.pids.is_allocated(p) == now.machine.pids.is_allocated(p),
            now.machine.holds(&now.tasks@[i].inner.memory_set),
        ensures
            now.spaces_ok(),
            now.pids_ok(),
            forall|p: usize| now.has_task(p) == self.has_task(p),
            forall|j: int|
                0 <= j < self.tasks@.len() && j != i ==> {
                    let t = #[trigger] self.tasks@[j];
                    &&& forall|v: u64| #[trigger]
                        t.inner.memory_set.lookup(&now.machine.mem, v) == t.inner.memory_set.lookup(
                            &self.machine.mem,
                            v,
                        )
                    &&& forall|f: u64| #[trigger]
                        t.inner.memory_set.frames().contains(f) ==> now.machine.mem@[f]
                            == self.machine.mem@[f]
                },
    {
        let after = now.tasks@[i].inner.memory_set.frames();
        self.lemma_step_others(i, &now.machine, after);
        assert(self.tasks@[i].wf(&self.machine));
        assert forall|j: int| 0 <= j < now.tasks@.len() implies (#[trigger] now.tasks@[j]).wf(
            &now.machine,
        ) by {
            if j != i {
                assert(self.tasks@[j].wf(&now.machine));
            }
        }
        assert forall|a: int, b: int|
            0 <= a < now.tasks@.len() && 0 <= b < now.tasks@.len() && a != b implies (#[trigger] now.tasks@[a]).inner.memory_set.frames().disjoint(
            (#[trigger] now.tasks@[b]).inner.memory_set.frames(),
        ) && now.tasks@[a].pid != now.tasks@[b].pid by {
            assert(self.tasks@[a].inner.memory_set.frames().disjoint(
                self.tasks@[b].inner.memory_set.frames(),
            ));
            assert(self.tasks@[a].pid != self.tasks@[b].pid);
            if a == i {
                assert(self.tasks@[b].inner.memory_set.frames().disjoint(after));
            }
            if b == i {
                assert(self.tasks@[a].inner.memory_set.frames().disjoint(after));
            }
        }
        assert forall|p: usize| now.has_task(p) == self.has_task(p) by {
            if now.has_task(p) {
                let j = choose|j: int| 0 <= j < now.tasks@.len() && (#[trigger] now.tasks@[j]).pid.0 == p;
                assert(self.tasks@[j].pid.0 == p);
            }
            if self.has_task(p) {
                let j = choose|j: int|
                    0 <= j < self.tasks@.len() && (#[trigger] self.tasks@[j]).pid.0 == p;
                assert(now.tasks@[j].pid.0 == p);
            }
        }
    }

    /// The same processes in the same states with the same queue are
    /// scheduled in order as they were.
    pub proof fn lemma_same_sched(&self, now: &Kernel)
        requires
            self.sched_ok(),
            now.manager@ == self.manager@,
            now.current == self.current,
            now.tasks@.len() == self.tasks@.len(),
            forall|i: int|
                0 <= i < self.tasks@.len() ==> (#[trigger] now.tasks@[i]).pid == self.tasks@[i].pid
                    && now.tasks@[i].inner.task_status == self.tasks@[i].inner.task_status,
        ensures
            now.sched_ok(),
    {
        assert forall|p: usize, st: TaskStatus| self.has_task_in(p, st) implies now.has_task_in(p, st) by {
            let i = choose|i: int|
                0 <= i < self.tasks@.len() && (#[trigger] self.tasks@[i]).pid.0 == p
                    && self.tasks@[i].inner.task_status == st;
            assert(now.tasks@[i].pid.0 == p);
        }
        assert forall|k: int| 0 <= k < now.manager@.len() implies now.has_task_in(
            #[trigger] now.manager@[k],
            TaskStatus::Ready,
        ) by {
            assert(self.has_task_in(self.manager@[k], TaskStatus::Ready));
        }
        assert forall|i: int|
            0 <= i < now.tasks@.len() && (#[trigger] now.tasks@[i]).inner.task_status
                == TaskStatus::Ready implies now.manager@.contains(now.tasks@[i].pid.0) by {
            assert(self.tasks@[i].inner.task_status == TaskStatus::Ready);
        }
        if now.current is Some {
            assert(self.has_task_in(self.current->0, TaskStatus::Running));
        }
        assert forall|i: int|
            0 <= i < now.tasks@.len() && (#[trigger] now.tasks@[i]).inner.task_status
                == TaskStatus::Running implies now.current == Some(now.tasks@[i].pid.0) by {
            assert(self.tasks@[i].inner.task_status == TaskStatus::Running);
        }
    }

    /// Whether the machine of `now` is the machine of this kernel after
    /// the process at the place `i` gave up all areas of its address space:
    /// the frames of its areas are free, and no other frame is free that
    /// was not; its pages are mapped no longer; the address space of the
    /// kernel and the identifiers are as they were; and every other process
    /// has the same translations and the same contents in its frames.
    pub open spec fn space_released(&self, now: &Kernel, i: int) -> bool {
        let o = self.tasks@[i].inner.memory_set;
        &&& now.machine.config == self.machine.config
        &&& now.machine.pids == self.machine.pids
        &&& now.machine.kernel_space == self.machine.kernel_space
        &&& self.machine.kept_but(&now.machine, o.table().frames())
        &&& forall|q: u64| #[trigger]
            now.machine.frames.is_free(q) <==> self.machine.frames.is_free(q) || o.data_frames().contains(
                q,
            )
        &&& forall|v: u64|
            vpn_valid(v) ==> #[trigger] now.tasks@[i].inner.memory_set.lookup(&now.machine.mem, v)
                == if o.covered(v) {
                None
            } else {
                o.lookup(&self.machine.mem, v)
            }
        &&& forall|j: int|
            0 <= j < self.tasks@.len() && j != i ==> {
                let t = #[trigger] self.tasks@[j];
                &&& forall|v: u64| #[trigger]
                    t.inner.memory_set.lookup(&now.machine.mem, v) == t.inner.memory_set.lookup(
                        &self.machine.mem,
                        v,
                    )
                &&& forall|f: u64| #[trigger]
                    t.inner.memory_set.frames().contains(f) ==> now.machine.mem@[f]
                        == self.machine.mem@[f]
            }
    }

    /// Ends the process that runs with the exit code `exit_code` and gives
    /// the processor to the process at the head of the ready queue. A
    /// process must run.
    ///
    /// The process becomes a zombie and keeps its exit code for its parent
    /// to fetch. Its children become children of the init process. All
    /// areas of its address space go, with their frames. When the init
    /// process itself ends, it keeps its children.
    pub fn exit_current_and_run_next(&mut self, exit_code: i32)
        requires
            old(self).wf(),
            old(self).current is Some,
        ensures
            final(self).wf(),
            final(self).current == if old(self).manager@.len() > 0 {
                Some(old(self).manager@[0])
            } else {
                None
            },
            final(self).manager@ == if old(self).manager@.len() > 0 {
                old(self).manager@.subrange(1, old(self).manager@.len() as int)
            } else {
                old(self).manager@
            },
            old(self).same_rest(final(self)),
            final(self).tasks@.len() == old(self).tasks@.len(),
            forall|i: int|
                0 <= i < old(self).tasks@.len() ==> old(self).exited(
                    exit_code,
                    old(self).tasks@[i],
                    #[trigger] final(self).tasks@[i],
                    final(self).current,
                ),
            old(self).space_released(final(self), old(self).running_index()),
    {
        let i = self.make_zombie(exit_code);
        let ghost k1 = *self;
        self.release_areas(i);
        let ghost k2 = *self;
        let next = self.run_next();
        proof {
            old(self).lemma_running_index(i as int);
            old(self).lemma_released(&k1, &k2, self, i as int, exit_code);
            assert forall|j: int| 0 <= j < old(self).tasks@.len() implies old(self).exited(
                exit_code,
                old(self).tasks@[j],
                #[trigger] self.tasks@[j],
                self.current,
            ) by {
                let o = old(self).tasks@[j];
                let a = k1.tasks@[j];
                let b = k2.tasks@[j];
                let t = self.tasks@[j];
                assert(old(self).zombied(exit_code, o, a));
                if j != i {
                    assert(b == a);
                    assert(o.pid != old(self).tasks@[i as int].pid);
                }
            }
        }
    }

    /// The machine after an exit is the machine after its middle part, in
    /// which the process gives up its areas: the first part, which makes
    /// the zombie, and the last part, which gives the processor to the next
    /// process, leave the machine and all address spaces as they are.
    proof fn lemma_released(&self, k1: &Kernel, k2: &Kernel, now: &Kernel, i: int, code: i32)
        requires
            0 <= i < self.tasks@.len(),
            k1.tasks@.len() == self.tasks@.len(),
            k2.tasks@.len() == self.tasks@.len(),
            now.tasks@.len() == self.tasks@.len(),
            k1.machine == self.machine,
            now.machine == k2.machine,
            forall|j: int|
                0 <= j < self.tasks@.len() ==> self.zombied(code, self.tasks@[j], #[trigger] k1.tasks@[j]),
            k1.space_released(k2, i),
            forall|j: int|
                0 <= j < self.tasks@.len() ==> (#[trigger] now.tasks@[j]).inner.memory_set
                    == k2.tasks@[j].inner.memory_set,
        ensures
            self.space_released(now, i),
    {
        assert(self.zombied(code, self.tasks@[i], k1.tasks@[i]));
        assert(now.tasks@[i].inner.memory_set == k2.tasks@[i].inner.memory_set);
        let o = self.tasks@[i].inner.memory_set;
        assert(k1.tasks@[i].inner.memory_set == o);
        assert forall|q: u64| #[trigger]
            now.machine.frames.is_free(q) <==> self.machine.frames.is_free(q) || o.data_frames().contains(
                q,
            ) by {
            assert(k2.machine.frames.is_free(q) <==> k1.machine.frames.is_free(q) || o.data_frames().contains(
                q,
            ));
        }
        assert forall|v: u64| vpn_valid(v) implies #[trigger] now.tasks@[i].inner.memory_set.lookup(
            &now.machine.mem,
            v,
        ) == if o.covered(v) {
            None
        } else {
            o.lookup(&self.machine.mem, v)
        } by {
            assert(k2.tasks@[i].inner.memory_set.lookup(&k2.machine.mem, v) == if o.covered(v) {
                None
            } else {
                o.lookup(&k1.machine.mem, v)
            });
        }
        assert forall|j: int| 0 <= j < self.tasks@.len() && j != i implies {
            let t = #[trigger] self.tasks@[j];
            &&& forall|v: u64| #[trigger]
                t.inner.memory_set.lookup(&now.machine.mem, v) == t.inner.memory_set.lookup(
                    &self.machine.mem,
                    v,
                )
            &&& forall|f: u64| #[trigger]
                t.inner.memory_set.frames().contains(f) ==> now.machine.mem@[f]
                    == self.machine.mem@[f]
        } by {
            assert(self.zombied(code, self.tasks@[j], k1.tasks@[j]));
            let t1 = k1.tasks@[j];
            assert(t1.inner.memory_set == self.tasks@[j].inner.memory_set);
        }
    }

    /// The families stay in order when the init process, at the place `to`,
    /// takes over the children of the process at the place `i`.
    proof fn lemma_family_moved(&self, now: &Kernel, i: int, to: int)
        requires
            self.family_ok(),
            0 <= i < self.tasks@.len(),
            0 <= to < self.tasks@.len(),
            i != to,
            self.tasks@[to].pid.0 == self.initproc,
            now.initproc == self.initproc,
            now.machine.pids == self.machine.pids,
            now.tasks@.len() == self.tasks@.len(),
            forall|j: int| 0 <= j < self.tasks@.len() ==> (#[trigger] now.tasks@[j]).pid == self.tasks@[j].pid,
            forall|j: int|
                0 <= j < self.tasks@.len() && j != i && j != to ==> (#[trigger] now.tasks@[j]).inner.children@
                    == self.tasks@[j].inner.children@,
            now.tasks@[i].inner.children@.len() == 0,
            now.tasks@[to].inner.children@ == self.tasks@[to].inner.children@ + self.tasks@[i].inner.children@,
        ensures
            now.family_ok(),
    {
        let t0 = self.tasks@;
        let t1 = now.tasks@;
        let n = t0[to].inner.children@.len() as int;
        assert forall|x: int, a: int| lists(t1, x, a) implies {
            let c = #[trigger] child_at(t1, x, a);
            &&& now.machine.pids.is_allocated(c)
            &&& c != t1[x].pid.0
            &&& c != now.initproc
        } by {
            if x == to && a >= n {
                assert(lists(t0, i, a - n));
                assert(child_at(t0, i, a - n) == child_at(t1, x, a));
            } else {
                assert(lists(t0, x, a));
                assert(child_at(t0, x, a) == child_at(t1, x, a));
            }
        }
        assert forall|x: int, a: int, y: int, b: int|
            lists(t1, x, a) && lists(t1, y, b) && !(x == y && a == b) implies #[trigger] child_at(
            t1,
            x,
            a,
        ) != #[trigger] child_at(t1, y, b) by {
            let (x0, a0) = if x == to && a >= n {
                (i, a - n)
            } else {
                (x, a)
            };
            let (y0, b0) = if y == to && b >= n {
                (i, b - n)
            } else {
                (y, b)
            };
            assert(lists(t0, x0, a0) && lists(t0, y0, b0));
            assert(child_at(t0, x0, a0) == child_at(t1, x, a));
            assert(child_at(t0, y0, b0) == child_at(t1, y, b));
        }
    }

    /// The first part of an exit: the process that runs becomes a zombie
    /// with the exit code `exit_code`, its children go to the init process,
    /// and no process runs. Returns the place of the process.
    fn make_zombie(&mut self, exit_code: i32) -> (i: usize)
        requires
            old(self).wf(),
            old(self).current is Some,
        ensures
            final(self).wf(),
            final(self).current is None,
            final(self).manager == old(self).manager,
            final(self).machine == old(self).machine,
            old(self).same_rest(final(self)),
            final(self).tasks@.len() == old(self).tasks@.len(),
            i < old(self).tasks@.len(),
            old(self).tasks@[i as int].pid.0 == old(self).current->0,
            forall|j: int|
                0 <= j < old(self).tasks@.len() ==> old(self).zombied(
                    exit_code,
                    old(self).tasks@[j],
                    #[trigger] final(self).tasks@[j],
                ),
    {
        let pid: usize = self.take_current_task().unwrap();
        proof {
            assert(old(self).has_task_in(pid, TaskStatus::Running));
        }
        let at = self.find(pid);
        let i: usize = at.unwrap();
        let init: usize = self.initproc;
        let kids: Vec<usize> = copy_pids(&self.tasks[i].inner.children);
        proof {
            old(self).lemma_children_of(i as int);
        }
        let ghost mut to: int = 0;
        if pid != init {
            self.set_parents(i, &kids, init);
            match self.find(init) {
                None => {
                    proof {
                        assert(old(self).has_task(init));
                        let w = old(self).index_of(init);
                        assert(self.tasks@[w].pid.0 == init);
                    }
                },
                Some(ii) => {
                    proof {
                        to = ii as int;
                    }
                    self.give_children(ii, &kids);
                },
            }
            self.tasks[i].inner.children = Vec::new();
        }
        self.tasks[i].inner.task_status = TaskStatus::Zombie;
        self.tasks[i].inner.exit_code = exit_code;
        proof {
            let k1 = *self;
            if pid == init {
                old(self).lemma_same_family(&k1);
            } else {
                old(self).lemma_family_moved(&k1, i as int, to);
            }
            assert forall|j: int| 0 <= j < old(self).tasks@.len() implies old(self).zombied(
                exit_code,
                old(self).tasks@[j],
                #[trigger] k1.tasks@[j],
            ) by {
                if j != i {
                    assert(old(self).tasks@[j].pid != old(self).tasks@[i as int].pid);
                }
                if pid != init && old(self).tasks@[j].pid.0 == init {
                    assert(old(self).has_task(init));
                }
            }
            old(self).lemma_same_spaces(&k1);
            assert(k1.sched_ok()) by {
                assert forall|p: usize| old(self).has_task_in(p, TaskStatus::Ready) implies k1.has_task_in(
                    p,
                    TaskStatus::Ready,
                ) by {
                    let j = choose|j: int|
                        0 <= j < old(self).tasks@.len() && (#[trigger] old(self).tasks@[j]).pid.0
                            == p && old(self).tasks@[j].inner.task_status == TaskStatus::Ready;
                    assert(k1.tasks@[j].pid.0 == p);
                }
                assert forall|n: int| 0 <= n < k1.manager@.len() implies k1.has_task_in(
                    #[trigger] k1.manager@[n],
                    TaskStatus::Ready,
                ) by {
                    assert(old(self).has_task_in(old(self).manager@[n], TaskStatus::Ready));
                }
                assert forall|j: int|
                    0 <= j < k1.tasks@.len() && (#[trigger] k1.tasks@[j]).inner.task_status
                        == TaskStatus::Ready implies k1.manager@.contains(k1.tasks@[j].pid.0) by {
                    assert(old(self).tasks@[j].inner.task_status == TaskStatus::Ready);
                }
                assert forall|j: int|
                    0 <= j < k1.tasks@.len() && (#[trigger] k1.tasks@[j]).inner.task_status
                        == TaskStatus::Running implies false by {
                    assert(old(self).tasks@[j].inner.task_status == TaskStatus::Running);
                    assert(old(self).tasks@[j].pid != old(self).tasks@[i as int].pid);
                }
            }
        }
        i
    }

    /// Takes all areas out of the address space of the process at the place
    /// `i` and gives their frames back.
    fn release_areas(&mut self, i: usize)
        requires
            old(self).wf(),
            i < old(self).tasks@.len(),
        ensures
            final(self).wf(),
            final(self).current == old(self).current,
            final(self).manager == old(self).manager,
            old(self).same_rest(final(self)),
            final(self).tasks@.len() == old(self).tasks@.len(),
            forall|j: int|
                0 <= j < old(self).tasks@.len() && j != i ==> #[trigger] final(self).tasks@[j] == old(self).tasks@[j],
            ({
                let t = final(self).tasks@[i as int];
                let o = old(self).tasks@[i as int];
                &&& same_identity(o, t)
                &&& t.inner.task_status == o.inner.task_status
                &&& t.inner.exit_code == o.inner.exit_code
                &&& t.inner.parent == o.inner.parent
                &&& t.inner.children == o.inner.children
                &&& t.inner.memory_set.areas().len() == 0
                &&& t.inner.memory_set.table() == o.inner.memory_set.table()
                &&& t.inner.memory_set.trampoline() == o.inner.memory_set.trampoline()
            }),
            old(self).space_released(final(self), i as int),
    {
        proof {
            assert(self.tasks@[i as int].wf(&self.machine));
        }
        self.tasks[i].inner.memory_set.recycle_data_pages(
            &mut self.machine.mem,
            &mut self.machine.frames,
        );
        proof {
            let k2 = *self;
            old(self).machine.lemma_space_op(
                old(self).tasks@[i as int].inner.memory_set.frames(),
                &k2.machine,
                k2.tasks@[i as int].inner.memory_set.frames(),
            );
            old(self).lemma_actor_stepped(i as int, &k2);
            old(self).lemma_same_sched(&k2);
            old(self).lemma_same_family(&k2);
        }
    }

    /// What the first part of the exit of the process that runs, with the
    /// exit code `code`, does to a process that was `o` and is `t`: as
    /// `exited`, but that the address spaces are as they were and no
    /// process has got the processor.
    pub open spec fn zombied(&self, code: i32, o: TaskControlBlock, t: TaskControlBlock) -> bool {
        let me = self.current->0;
        let kids = self.children_of(me);
        &&& same_identity(o, t)
        &&& t.inner.memory_set == o.inner.memory_set
        &&& t.inner.task_status == if o.pid.0 == me {
            TaskStatus::Zombie
        } else {
            o.inner.task_status
        }
        &&& t.inner.exit_code == if o.pid.0 == me {
            code
        } else {
            o.inner.exit_code
        }
        &&& t.inner.parent == if o.pid.0 != me && me != self.initproc && kids.contains(o.pid.0) {
            Some(self.initproc)
        } else {
            o.inner.parent
        }
        &&& t.inner.children@ == if me == self.initproc {
            o.inner.children@
        } else if o.pid.0 == me {
            Seq::empty()
        } else if o.pid.0 == self.initproc {
            o.inner.children@ + kids
        } else {
            o.inner.children@
        }
    }

    /// The place of the process that runs in the table of processes. A
    /// process must run.
    pub fn current_index(&self) -> (i: usize)
        requires
            self.wf(),
            self.current is Some,
        ensures
            i < self.tasks@.len(),
            self.tasks@[i as int].pid.0 == self.current->0,
            self.tasks@[i as int].inner.task_status == TaskStatus::Running,
    {
        proof {
            assert(self.has_task_in(self.current->0, TaskStatus::Running));
            let j = choose|j: int|
                0 <= j < self.tasks@.len() && (#[trigger] self.tasks@[j]).pid.0 == self.current->0
                    && self.tasks@[j].inner.task_status == TaskStatus::Running;
            assert forall|n: int| 0 <= n < self.tasks@.len() && n != j implies (#[trigger] self.tasks@[n]).pid
                != self.tasks@[j].pid by {}
        }
        let at = self.find(self.current.unwrap());
        at.unwrap()
    }

    /// The value for the address-translation register that selects the
    /// address space of the process that runs. A process must run.
    pub fn current_user_token(&self) -> (r: u64)
        requires
            self.wf(),
            self.current is Some,
        ensures
            r == 0x8000_0000_0000_0000 + self.running().inner.memory_set.table().root(),
    {
        let i = self.current_index();
        proof {
            self.lemma_running(i as int);
            assert(self.tasks@[i as int].wf(&self.machine));
        }
        self.tasks[i].inner.get_user_token(&self.machine)
    }

    /// The process that runs.
    pub open spec fn running(&self) -> TaskControlBlock {
        self.tasks@[choose|i: int|
            0 <= i < self.tasks@.len() && (#[trigger] self.tasks@[i]).pid.0 == self.current->0]
    }

    /// The process at the place `i` is the process that runs, when it has
    /// the identifier of the process that runs.
    pub proof fn lemma_running(&self, i: int)
        requires
            self.pids_ok(),
            0 <= i < self.tasks@.len(),
            self.tasks@[i].pid.0 == self.current->0,
        ensures
            self.running() == self.tasks@[i],
    {
        let c = choose|c: int|
            0 <= c < self.tasks@.len() && (#[trigger] self.tasks@[c]).pid.0 == self.current->0;
        if c != i {
            assert(self.tasks@[c].pid != self.tasks@[i].pid);
        }
    }

    /// Whether `now` is this kernel after the process at the place `i`
    /// worked on its own address space: the other processes, the queue and
    /// the rest are as they were, and the process is as it was but for its
    /// address space.
    pub open spec fn space_changed(&self, i: int, now: &Kernel) -> bool {
        &&& now.wf()
        &&& now.current == self.current
        &&& now.manager == self.manager
        &&& self.same_rest(now)
        &&& now.machine.config == self.machine.config
        &&& now.machine.pids == self.machine.pids
        &&& now.machine.kernel_space == self.machine.kernel_space
        &&& self.machine.kept_but(&now.machine, self.tasks@[i].inner.memory_set.frames())
        &&& now.tasks@.len() == self.tasks@.len()
        &&& forall|j: int|
            0 <= j < self.tasks@.len() && j != i ==> #[trigger] now.tasks@[j] == self.tasks@[j]
        &&& same_but_space(self.tasks@[i], now.tasks@[i])
        &&& forall|j: int|
            0 <= j < self.tasks@.len() && j != i ==> {
                let t = #[trigger] self.tasks@[j];
                &&& forall|v: u64| #[trigger]
                    t.inner.memory_set.lookup(&now.machine.mem, v) == t.inner.memory_set.lookup(
                        &self.machine.mem,
                        v,
                    )
                &&& forall|f: u64| #[trigger]
                    t.inner.memory_set.frames().contains(f) ==> now.machine.mem@[f]
                        == self.machine.mem@[f]
            }
    }

    /// As `space_changed`, but that the process may also have another frame
    /// noted for its trap-context page.
    pub open spec fn space_changed_but_ppn(&self, i: int, now: &Kernel) -> bool {
        &&& now.wf()
        &&& now.current == self.current
        &&& now.manager == self.manager
        &&& self.same_rest(now)
        &&& now.machine.config == self.machine.config
        &&& self.machine.kept_but(&now.machine, self.tasks@[i].inner.memory_set.frames())
        &&& now.tasks@.len() == self.tasks@.len()
        &&& forall|j: int|
            0 <= j < self.tasks@.len() && j != i ==> #[trigger] now.tasks@[j] == self.tasks@[j]
        &&& ({
            let o = self.tasks@[i];
            let t = now.tasks@[i];
            &&& t.pid == o.pid
            &&& t.kernel_stack == o.kernel_stack
            &&& t.inner.task_cx_ptr == o.inner.task_cx_ptr
            &&& t.inner.base_size == o.inner.base_size
            &&& t.inner.fd_table == o.inner.fd_table
            &&& t.inner.channel == o.inner.channel
            &&& t.inner.task_status == o.inner.task_status
            &&& t.inner.exit_code == o.inner.exit_code
            &&& t.inner.parent == o.inner.parent
            &&& t.inner.children == o.inner.children
        })
        &&& forall|j: int|
            0 <= j < self.tasks@.len() && j != i ==> {
                let t = #[trigger] self.tasks@[j];
                &&& forall|v: u64| #[trigger]
                    t.inner.memory_set.lookup(&now.machine.mem, v) == t.inner.memory_set.lookup(
                        &self.machine.mem,
                        v,
                    )
                &&& forall|f: u64| #[trigger]
                    t.inner.memory_set.frames().contains(f) ==> now.machine.mem@[f]
                        == self.machine.mem@[f]
            }
    }

    /// A kernel in which nothing changed.
    pub proof fn lemma_space_same_but_ppn(&self, i: int)
        requires
            self.wf(),
            0 <= i < self.tasks@.len(),
        ensures
            self.space_changed_but_ppn(i, self),
    {
    }

    /// An operation of the process at the place `i` on its own address
    /// space leaves the kernel in order.
    pub proof fn lemma_space_changed(&self, i: int, now: &Kernel)
        requires
            self.wf(),
            0 <= i < self.tasks@.len(),
            now.current == self.current,
            now.manager == self.manager,
            self.same_rest(now),
            now.machine.kernel_space == self.machine.kernel_space,
            now.machine.pids == self.machine.pids,
            now.machine.config == self.machine.config,
            now.tasks@.len() == self.tasks@.len(),
            forall|j: int|
                0 <= j < self.tasks@.len() && j != i ==> #[trigger] now.tasks@[j] == self.tasks@[j],
            same_but_space(self.tasks@[i], now.tasks@[i]),
            now.tasks@[i].inner.memory_set.wf(&now.machine.mem),
            now.tasks@[i].inner.memory_set.owned(&now.machine.frames),
            effect(
                self.tasks@[i].inner.memory_set.frames(),
                &self.machine.mem,
                &self.machine.frames,
                now.tasks@[i].inner.memory_set.frames(),
                &now.machine.mem,
                &now.machine.frames,
            ),
        ensures
            self.space_changed(i, now),
    {
        assert(self.tasks@[i].wf(&self.machine));
        self.machine.lemma_space_op(
            self.tasks@[i].inner.memory_set.frames(),
            &now.machine,
            now.tasks@[i].inner.memory_set.frames(),
        );
        self.lemma_actor_stepped(i, now);
        self.lemma_same_sched(now);
        self.lemma_same_family(now);
    }

    /// A kernel in which nothing changed is the kernel after a process
    /// worked on its address space and left it as it was.
    pub proof fn lemma_space_same(&self, i: int)
        requires
            self.wf(),
            0 <= i < self.tasks@.len(),
        ensures
            self.space_changed(i, self),
    {
    }

    /// The lowest page at which `page_num` free pages start in the address
    /// space of the process that runs, if there is one. A process must run.
    pub fn find_free_frames(&self, page_num: usize) -> (r: Option<VirtPageNum>)
        requires
            self.wf(),
            self.current is Some,
        ensures
            r matches Some(v) ==> self.running().inner.memory_set.fits(v.0, page_num as nat)
                && forall|u: u64| u < v.0 ==> !self.running().inner.memory_set.fits(u, page_num as nat),
            r is None ==> forall|u: u64| !self.running().inner.memory_set.fits(u, page_num as nat),
    {
        let i = self.current_index();
        proof {
            self.lemma_running(i as int);
            assert(self.tasks@[i as int].wf(&self.machine));
        }
        self.tasks[i].inner.find_free_frames(&self.machine, page_num)
    }

    /// Whether a page of the range from `start` up to `end` belongs to an
    /// area of the process that runs. A process must run.
    pub fn check_allocated(&self, start: VirtAddr, end: VirtAddr) -> (r: bool)
        requires
            self.wf(),
            self.current is Some,
        ensures
            r == self.running().inner.memory_set.any_covered(
                (start.0 / 4096) as u64,
                ((end.0 + 4095) / 4096) as u64,
            ),
    {
        let i = self.current_index();
        proof {
            self.lemma_running(i as int);
        }
        self.tasks[i].inner.check_allocated(start, end)
    }

    /// Whether every page of the range from `start` up to `end` belongs to
    /// an area of the process that runs. A process must run.
    pub fn check_all_allocated(&self, start: VirtAddr, end: VirtAddr) -> (r: bool)
        requires
            self.wf(),
            self.current is Some,
        ensures
            r == self.running().inner.memory_set.all_covered(
                (start.0 / 4096) as u64,
                ((end.0 + 4095) / 4096) as u64,
            ),
    {
        let i = self.current_index();
        proof {
            self.lemma_running(i as int);
        }
        self.tasks[i].inner.check_all_allocated(start, end)
    }

    /// Adds a framed area over the range from `start` up to `end` to the
    /// address space of the process that runs. A process must run.
    pub fn alloc_new_frames(
        &mut self,
        start: VirtAddr,
        end: VirtAddr,
        permission: MapPermission,
    ) -> (r: Result<(), AreaError>)
        requires
            old(self).wf(),
            old(self).current is Some,
            perm_bits_valid(permission.bits),
        ensures
            old(self).space_changed(old(self).running_index(), final(self)),
            old(self).running().inner.memory_set.inserted(
                &old(self).machine.mem,
                &old(self).machine.frames,
                &final(self).running().inner.memory_set,
                &final(self).machine.mem,
                &final(self).machine.frames,
                (start.0 / 4096) as u64,
                ((end.0 + 4095) / 4096) as u64,
                permission.bits,
                r,
            ),
            r == Err::<(), AreaError>(AreaError::InvalidRange) || r == Err::<(), AreaError>(
                AreaError::Overlap,
            ) ==> final(self).machine == old(self).machine && final(self).running().inner.memory_set
                == old(self).running().inner.memory_set,
    {
        let i = self.current_index();
        proof {
            old(self).lemma_running(i as int);
            old(self).lemma_running_index(i as int);
            assert(self.tasks@[i as int].wf(&self.machine));
        }
        let r = self.tasks[i].inner.memory_set.insert_framed_area(
            &mut self.machine.mem,
            &mut self.machine.frames,
            start,
            end,
            permission,
        );
        proof {
            old(self).lemma_space_changed(i as int, self);
            self.lemma_running(i as int);
        }
        r
    }

    /// Whether `now` is this kernel after the framed area with exactly the
    /// pages `[s, e)` left the address space of the process that runs: the
    /// area is gone, its pages are mapped no longer while all other pages
    /// translate as before, and its frames, one for each page, are free.
    pub open spec fn unmapped(&self, now: &Kernel, s: u64, e: u64) -> bool {
        let ms0 = self.running().inner.memory_set;
        let ms1 = now.running().inner.memory_set;
        let at = ms0.framed_area_at(s, e);
        &&& at is Some
        &&& ms1.areas() == ms0.areas().remove(at->0)
        &&& ms1.table() == ms0.table()
        &&& ms1.trampoline() == ms0.trampoline()
        &&& forall|v: u64|
            vpn_valid(v) ==> #[trigger] ms1.lookup(&now.machine.mem, v) == if s <= v < e {
                None
            } else {
                ms0.lookup(&self.machine.mem, v)
            }
        &&& forall|q: u64|
            now.machine.frames.is_free(q) <==> self.machine.frames.is_free(q) || ms0.areas()[at->0].frames().contains(
                q,
            )
        &&& now.machine.frames.free_count() == self.machine.frames.free_count() + (e - s)
        &&& forall|f: u64| #[trigger]
            ms0.data_frames().contains(f) ==> now.machine.mem@[f] == self.machine.mem@[f]
    }

    /// Takes the framed area with exactly the pages of the range from
    /// `start` up to `end` out of the address space of the process that
    /// runs, and gives its frames back. Nothing changes when there is no
    /// such area. A process must run.
    pub fn dealloc_frames(&mut self, start: VirtAddr, end: VirtAddr) -> (r: Result<(), AreaError>)
        requires
            old(self).wf(),
            old(self).current is Some,
        ensures
            old(self).space_changed(old(self).running_index(), final(self)),
            r is Ok <==> old(self).running().inner.memory_set.framed_area_at(
                (start.0 / 4096) as u64,
                ((end.0 + 4095) / 4096) as u64,
            ) is Some,
            r is Err ==> final(self).running().inner.memory_set == old(self).running().inner.memory_set
                && final(self).machine == old(self).machine,
            r is Ok ==> old(self).unmapped(
                final(self),
                (start.0 / 4096) as u64,
                ((end.0 + 4095) / 4096) as u64,
            ),
    {
        let i = self.current_index();
        proof {
            old(self).lemma_running(i as int);
            old(self).lemma_running_index(i as int);
            assert(self.tasks@[i as int].wf(&self.machine));
            self.tasks@[i as int].inner.memory_set.lemma_wf(&self.machine.mem);
        }
        let r = self.tasks[i].inner.memory_set.delete_framed_area(
            &mut self.machine.mem,
            &mut self.machine.frames,
            start,
            end,
        );
        proof {
            old(self).lemma_space_changed(i as int, self);
            self.lemma_running(i as int);
        }
        r
    }

    /// The place of the process that runs.
    pub open spec fn running_index(&self) -> int {
        choose|i: int| 0 <= i < self.tasks@.len() && (#[trigger] self.tasks@[i]).pid.0 == self.current->0
    }

    /// The place `i` is the place of the process that runs, when the
    /// process there has the identifier of the process that runs.
    pub proof fn lemma_running_index(&self, i: int)
        requires
            self.pids_ok(),
            0 <= i < self.tasks@.len(),
            self.tasks@[i].pid.0 == self.current->0,
        ensures
            self.running_index() == i,
    {
        let c = self.running_index();
        if c != i {
            assert(self.tasks@[c].pid != self.tasks@[i].pid);
        }
    }

    /// Whether the kernel can start: the memory side can be set up, there
    /// is a program with the name of the init process, its image is well
    /// formed and fits, and the frames above the kernel are enough for the
    /// page table of the kernel, the address space of the init process and
    /// its kernel stack.
    pub open spec fn can_boot(config: BootConfig, apps: Seq<AppImage>) -> bool {
        &&& can_init(config)
        &&& app_index(apps, init_name()) matches Some(at) && {
            let d = apps[at].data@;
            &&& image_ok(d)
            &&& image_fits(d)
            &&& frames_above(config) >= 2 * range_pages(config.layout.ranges()) + 3 + 3 * (
            image_pages(segments_upto(d, ph_count(d))) + 3) + 9
        }
    }

    /// The kernel as it starts: the machine set up from `config`, and the
    /// init process, made from the program with the name `initproc`, as the
    /// one process, in the ready queue. No process runs yet.
    ///
    /// `None` when the machine cannot be set up, when there is no program
    /// with that name, or when the init process cannot be made.
    pub fn new(config: BootConfig, apps: Vec<AppImage>) -> (r: Option<Kernel>)
        ensures
            Self::can_boot(config, apps@) ==> r is Some,
            r matches Some(k) ==> {
                &&& k.wf()
                &&& k.machine.config == config
                &&& k.apps == apps
                &&& k.current is None
                &&& k.tasks@.len() == 1
                &&& k.manager@ == seq![k.initproc]
                &&& k.tasks@[0].pid.0 == k.initproc
                &&& k.initproc == 0
                &&& k.registry@ == crate::service::no_entries()
                &&& k.console_out@.len() == 0
                &&& k.console_in@.len() == 0
                &&& app_index(apps@, init_name()) matches Some(at) && image_ok(apps@[at].data@)
                    && k.tasks@[0].fresh(None, standard_files(), k.tasks@[0].inner.base_size)
                    && k.tasks@[0].runs(&k.machine, apps@[at].data@, k.tasks@[0].inner.base_size)
                    && k.tasks@[0].kernel_stack.holds_context(&k.machine, config.trap_return)
            },
    {
        let (machine, task) = match boot_machine(config, &apps) {
            None => {
                return None;
            },
            Some(x) => x,
        };
        let pid = task.pid.0;
        let mut k = Kernel {
            machine,
            tasks: Vec::new(),
            manager: TaskManager::new(),
            current: None,
            initproc: pid,
            apps,
            registry: Registry::new(),
            console_out: Vec::new(),
            console_in: VecDeque::new(),
        };
        proof {
            assert(!k.has_task(pid));
        }
        k.add_task(task);
        proof {
            assert(k.manager@ =~= seq![k.initproc]);
        }
        Some(k)
    }

    /// The word at position `idx` (below 37) of the trap context of the
    /// process at the place `i`: `None` when the process has no
    /// trap-context page, as a zombie has none.
    pub fn load_trap_word(&self, i: usize, idx: usize) -> (r: Option<u64>)
        requires
            self.wf(),
            i < self.tasks@.len(),
            idx < 37,
        ensures
            r == match self.tasks@[i as int].inner.memory_set.page_frame(TRAP_CONTEXT_VPN) {
                Some(f) => Some(trap_words(&self.machine.mem, &self.tasks@[i as int].inner.memory_set)[idx as int]),
                None => None,
            },
    {
        proof {
            assert(self.tasks@[i as int].wf(&self.machine));
        }
        read_trap_word(&self.machine.mem, &self.tasks[i].inner.memory_set, idx)
    }

    /// Stores `val` at position `idx` (below 37) of the trap context of the
    /// process at the place `i`. Returns whether the process has a
    /// trap-context page; nothing changes when it has none.
    pub fn store_trap_word(&mut self, i: usize, idx: usize, val: u64) -> (r: bool)
        requires
            old(self).wf(),
            i < old(self).tasks@.len(),
            idx < 37,
        ensures
            old(self).space_changed(i as int, final(self)),
            final(self).tasks == old(self).tasks,
            final(self).machine.frames == old(self).machine.frames,
            final(self).machine.kernel_space == old(self).machine.kernel_space,
            final(self).machine.pids == old(self).machine.pids,
            r == old(self).tasks@[i as int].inner.memory_set.page_frame(TRAP_CONTEXT_VPN) is Some,
            !r ==> final(self).machine.mem@ == old(self).machine.mem@,
            r ==> final(self).machine.mem@ == old(self).machine.mem@.insert(
                old(self).tasks@[i as int].inner.memory_set.page_frame(TRAP_CONTEXT_VPN)->0,
                old(self).machine.mem@[old(self).tasks@[i as int].inner.memory_set.page_frame(
                    TRAP_CONTEXT_VPN,
                )->0].update(idx as int, val),
            ),
            r ==> trap_words(&final(self).machine.mem, &old(self).tasks@[i as int].inner.memory_set)
                == trap_words(&old(self).machine.mem, &old(self).tasks@[i as int].inner.memory_set).update(
                idx as int,
                val,
            ),
    {
        proof {
            assert(self.tasks@[i as int].wf(&self.machine));
        }
        let r = write_trap_word(&mut self.machine.mem, &self.tasks[i].inner.memory_set, idx, val);
        proof {
            let ms = self.tasks@[i as int].inner.memory_set;
            ms.lemma_wf(&old(self).machine.mem);
            assert(effect(
                ms.frames(),
                &old(self).machine.mem,
                &old(self).machine.frames,
                ms.frames(),
                &self.machine.mem,
                &self.machine.frames,
            )) by {
                assert forall|f: u64|
                    old(self).machine.mem.has_frame(f) && !old(self).machine.frames.is_free(f)
                        && !ms.frames().contains(f) implies #[trigger] self.machine.mem@[f] == old(self).machine.mem@[f] by {
                    if ms.page_frame(TRAP_CONTEXT_VPN) == Some(f) {
                        ms.lemma_page_frame_wf(&old(self).machine.mem, TRAP_CONTEXT_VPN);
                    }
                }
            }
            old(self).lemma_space_changed(i as int, self);
        }
        r
    }

    /// Whether every process of this kernel translates in `now` as before
    /// and finds in its frames what they held.
    pub open spec fn all_kept(&self, now: &Kernel) -> bool {
        forall|j: int|
            0 <= j < self.tasks@.len() ==> {
                let t = #[trigger] self.tasks@[j];
                &&& forall|v: u64| #[trigger]
                    t.inner.memory_set.lookup(&now.machine.mem, v) == t.inner.memory_set.lookup(
                        &self.machine.mem,
                        v,
                    )
                &&& forall|f: u64| #[trigger]
                    t.inner.memory_set.frames().contains(f) ==> now.machine.mem@[f]
                        == self.machine.mem@[f]
            }
    }

    /// Whether `now` is this kernel after the process that runs has forked
    /// the child with the identifier `pid`: the child is the last process
    /// and the last in the ready queue; it is in its first state with the
    /// process that runs as parent, with its open files and the top of its
    /// user stack; its address space is a copy of that of the parent, but
    /// that its trap context has the top of its own kernel stack and the
    /// return value 0; the parent has the child as its last child; and all
    /// else is as it was.
    pub open spec fn forked(&self, now: &Kernel, pid: isize) -> bool {
        let i = self.running_index();
        let o = self.tasks@[i];
        let t = now.tasks@[i];
        let child = now.tasks@.last();
        &&& self.machine.pids.next_pid() == Some(pid as usize)
        &&& pid >= 0
        &&& now.tasks@.len() == self.tasks@.len() + 1
        &&& now.manager@ == self.manager@.push(pid as usize)
        &&& forall|j: int|
            0 <= j < self.tasks@.len() && j != i ==> #[trigger] now.tasks@[j] == self.tasks@[j]
        &&& same_but_family(o, t)
        &&& t.inner.parent == o.inner.parent
        &&& t.inner.children@ == o.inner.children@.push(pid as usize)
        &&& child.pid.0 == pid
        &&& child.fresh(Some(o.pid.0), o.inner.fd_table@, o.inner.base_size)
        &&& child.kernel_stack.holds_context(&now.machine, now.machine.config.trap_return)
        &&& copied_with(
            &o.inner.memory_set,
            &self.machine.mem,
            &child.inner.memory_set,
            &now.machine.mem,
            seq![(35int, child.kernel_stack.top()), (10int, 0u64)],
        )
        &&& forall|f: u64| #[trigger]
            o.inner.memory_set.frames().contains(f) ==> now.machine.mem@[f] == self.machine.mem@[f]
        &&& self.all_kept(now)
    }

    /// Whether no process lists the process `pid` as its child.
    pub open spec fn unlisted(&self, pid: usize) -> bool {
        forall|i: int, a: int| lists(self.tasks@, i, a) ==> #[trigger] child_at(self.tasks@, i, a) != pid
    }

    /// The families stay in order when the process at the place `i` enters
    /// the identifier `pid`, which is handed out at the same time, as its
    /// last child.
    pub proof fn lemma_child_entered(&self, now: &Kernel, i: int, pid: usize)
        requires
            self.family_ok(),
            0 <= i < self.tasks@.len(),
            now.initproc == self.initproc,
            now.tasks@.len() == self.tasks@.len(),
            forall|j: int| 0 <= j < self.tasks@.len() ==> (#[trigger] now.tasks@[j]).pid == self.tasks@[j].pid,
            forall|j: int|
                0 <= j < self.tasks@.len() && j != i ==> (#[trigger] now.tasks@[j]).inner.children@
                    == self.tasks@[j].inner.children@,
            now.tasks@[i].inner.children@ == self.tasks@[i].inner.children@.push(pid),
            !self.machine.pids.is_allocated(pid),
            self.machine.pids.is_allocated(self.tasks@[i].pid.0),
            forall|p: usize|
                now.machine.pids.is_allocated(p) <==> self.machine.pids.is_allocated(p) || p == pid,
        ensures
            now.family_ok(),
    {
        let t0 = self.tasks@;
        let t1 = now.tasks@;
        let n = t0[i].inner.children@.len() as int;
        assert forall|x: int, a: int| lists(t1, x, a) implies {
            let c = #[trigger] child_at(t1, x, a);
            &&& now.machine.pids.is_allocated(c)
            &&& c != t1[x].pid.0
            &&& c != now.initproc
            &&& (x == i && a == n ==> c == pid)
            &&& (!(x == i && a == n) ==> lists(t0, x, a) && c == child_at(t0, x, a) && c != pid)
        } by {
            if !(x == i && a == n) {
                assert(lists(t0, x, a));
                assert(child_at(t0, x, a) == child_at(t1, x, a));
            } else {
                assert(self.tasks@[i].pid == now.tasks@[i].pid);
            }
        }
        assert forall|x: int, a: int, y: int, b: int|
            lists(t1, x, a) && lists(t1, y, b) && !(x == y && a == b) implies #[trigger] child_at(
            t1,
            x,
            a,
        ) != #[trigger] child_at(t1, y, b) by {
            let first = x == i && a == n;
            let second = y == i && b == n;
            if !first {
                assert(lists(t0, x, a));
                assert(child_at(t0, x, a) == child_at(t1, x, a));
                assert(self.machine.pids.is_allocated(child_at(t0, x, a)));
            }
            if !second {
                assert(lists(t0, y, b));
                assert(child_at(t0, y, b) == child_at(t1, y, b));
                assert(self.machine.pids.is_allocated(child_at(t0, y, b)));
            }
            if first {
                assert(child_at(t1, x, a) == pid);
            }
            if second {
                assert(child_at(t1, y, b) == pid);
            }
        }
    }

    /// The families stay in order when the process at the place `i` takes
    /// the child at the place `idx` out of its children; no process lists
    /// that child then, and it is not the init process.
    pub proof fn lemma_child_removed(&self, now: &Kernel, i: int, idx: int)
        requires
            self.family_ok(),
            lists(self.tasks@, i, idx),
            now.initproc == self.initproc,
            now.machine.pids == self.machine.pids,
            now.tasks@.len() == self.tasks@.len(),
            forall|j: int| 0 <= j < self.tasks@.len() ==> (#[trigger] now.tasks@[j]).pid == self.tasks@[j].pid,
            forall|j: int|
                0 <= j < self.tasks@.len() && j != i ==> (#[trigger] now.tasks@[j]).inner.children@
                    == self.tasks@[j].inner.children@,
            now.tasks@[i].inner.children@ == self.tasks@[i].inner.children@.remove(idx),
        ensures
            now.family_ok(),
            now.unlisted(child_at(self.tasks@, i, idx)),
            child_at(self.tasks@, i, idx) != self.initproc,
    {
        let t0 = self.tasks@;
        let t1 = now.tasks@;
        let c0 = child_at(t0, i, idx);
        assert forall|x: int, a: int| lists(t1, x, a) implies {
            let a0 = if x == i && a >= idx {
                a + 1
            } else {
                a
            };
            let c = #[trigger] child_at(t1, x, a);
            &&& lists(t0, x, a0)
            &&& c == child_at(t0, x, a0)
            &&& now.machine.pids.is_allocated(c)
            &&& c != t1[x].pid.0
            &&& c != now.initproc
            &&& c != c0
        } by {
            let a0 = if x == i && a >= idx {
                a + 1
            } else {
                a
            };
            assert(lists(t0, x, a0));
            assert(child_at(t0, x, a0) == child_at(t1, x, a));
        }
        assert forall|x: int, a: int, y: int, b: int|
            lists(t1, x, a) && lists(t1, y, b) && !(x == y && a == b) implies #[trigger] child_at(
            t1,
            x,
            a,
        ) != #[trigger] child_at(t1, y, b) by {}
    }

    /// The families stay in order when the process at the place `ci`, which
    /// no process lists and which is not the init process, goes and its
    /// identifier is given back.
    proof fn lemma_family_reaped(&self, ci: int, now: &Kernel)
        requires
            self.family_ok(),
            0 <= ci < self.tasks@.len(),
            self.unlisted(self.tasks@[ci].pid.0),
            self.tasks@[ci].pid.0 != self.initproc,
            now.initproc == self.initproc,
            now.tasks@ == self.tasks@.remove(ci),
            forall|p: usize|
                now.machine.pids.is_allocated(p) <==> self.machine.pids.is_allocated(p) && p
                    != self.tasks@[ci].pid.0,
        ensures
            now.family_ok(),
    {
        let t0 = self.tasks@;
        let t1 = now.tasks@;
        assert forall|x: int, a: int| lists(t1, x, a) implies {
            let x0 = if x >= ci {
                x + 1
            } else {
                x
            };
            let c = #[trigger] child_at(t1, x, a);
            &&& lists(t0, x0, a)
            &&& c == child_at(t0, x0, a)
            &&& now.machine.pids.is_allocated(c)
            &&& c != t1[x].pid.0
            &&& c != now.initproc
        } by {
            let x0 = if x >= ci {
                x + 1
            } else {
                x
            };
            assert(t1[x] == t0[x0]);
            assert(lists(t0, x0, a));
            assert(child_at(t0, x0, a) == child_at(t1, x, a));
        }
        assert forall|x: int, a: int, y: int, b: int|
            lists(t1, x, a) && lists(t1, y, b) && !(x == y && a == b) implies #[trigger] child_at(
            t1,
            x,
            a,
        ) != #[trigger] child_at(t1, y, b) by {}
    }

    /// Takes the zombie at the place `ci`, which no process lists as its
    /// child any more and which is not the init process, out of the kernel:
    /// its task control block goes, the frames of its page table and its
    /// kernel stack go back, and its identifier is free again. Returns the
    /// identifier and the exit code.
    pub fn reap(&mut self, ci: usize) -> (r: (usize, i32))
        requires
            old(self).wf(),
            ci < old(self).tasks@.len(),
            old(self).tasks@[ci as int].inner.task_status == TaskStatus::Zombie,
            old(self).unlisted(old(self).tasks@[ci as int].pid.0),
            old(self).tasks@[ci as int].pid.0 != old(self).initproc,
        ensures
            final(self).wf(),
            final(self).current == old(self).current,
            final(self).manager == old(self).manager,
            old(self).same_rest(final(self)),
            final(self).machine.config == old(self).machine.config,
            final(self).tasks@ == old(self).tasks@.remove(ci as int),
            r == (old(self).tasks@[ci as int].pid.0, old(self).tasks@[ci as int].inner.exit_code),
            forall|p: usize|
                final(self).machine.pids.is_allocated(p) <==> old(self).machine.pids.is_allocated(p)
                    && p != r.0,
            final(self).machine.pids.next_pid() == Some(r.0),
            final(self).machine.mem.base() == old(self).machine.mem.base(),
            final(self).machine.mem.frame_count() == old(self).machine.mem.frame_count(),
            old(self).machine.kept_but(
                &final(self).machine,
                old(self).machine.kernel_space.table().frames().union(
                    old(self).tasks@[ci as int].inner.memory_set.frames(),
                ),
            ),
            forall|q: u64|
                old(self).tasks@[ci as int].inner.memory_set.frames().contains(q) ==> final(self).machine.frames.is_free(q),
            forall|j: int|
                0 <= j < old(self).tasks@.len() && j != ci ==> {
                    let t = #[trigger] old(self).tasks@[j];
                    &&& forall|v: u64| #[trigger]
                        t.inner.memory_set.lookup(&final(self).machine.mem, v)
                            == t.inner.memory_set.lookup(&old(self).machine.mem, v)
                    &&& forall|f: u64| #[trigger]
                        t.inner.memory_set.frames().contains(f) ==> final(self).machine.mem@[f] == old(self).machine.mem@[f]
                },
    {
        let ghost none = Set::<u64>::empty();
        let ghost k0 = *self;
        proof {
            assert(k0.tasks@[ci as int].wf(&k0.machine));
        }
        let child = self.tasks.remove(ci);
        let pid: usize = child.pid.0;
        let code: i32 = child.inner.exit_code;
        let ghost gone = child.inner.memory_set.frames();
        child.inner.memory_set.destroy(&mut self.machine.mem, &mut self.machine.frames);
        let ghost m1 = self.machine;
        proof {
            k0.machine.lemma_space_op(gone, &m1, none);
        }
        child.kernel_stack.release(&mut self.machine);
        let ghost m2 = self.machine;
        proof {
            m1.lemma_kernel_step(&m2, none);
            k0.machine.lemma_step_trans(gone, &m1, none, &m2, none);
        }
        self.machine.pids.deallocate(pid);
        proof {
            let m3 = self.machine;
            assert(k0.machine.step(gone, &m3, none));
            k0.lemma_reaped(ci as int, self);
        }
        (pid, code)
    }

    /// The kernel is in order after a zombie was taken out.
    proof fn lemma_reaped(&self, ci: int, now: &Kernel)
        requires
            self.wf(),
            0 <= ci < self.tasks@.len(),
            self.tasks@[ci].inner.task_status == TaskStatus::Zombie,
            now.tasks@ == self.tasks@.remove(ci),
            now.manager == self.manager,
            now.current == self.current,
            self.machine.step(
                self.tasks@[ci].inner.memory_set.frames(),
                &now.machine,
                Set::<u64>::empty(),
            ),
            now.machine.pids.wf(),
            forall|p: usize|
                now.machine.pids.is_allocated(p) <==> self.machine.pids.is_allocated(p) && p
                    != self.tasks@[ci].pid.0,
            self.unlisted(self.tasks@[ci].pid.0),
            self.tasks@[ci].pid.0 != self.initproc,
            now.initproc == self.initproc,
        ensures
            now.wf(),
            forall|j: int|
                0 <= j < self.tasks@.len() && j != ci ==> {
                    let t = #[trigger] self.tasks@[j];
                    &&& forall|v: u64| #[trigger]
                        t.inner.memory_set.lookup(&now.machine.mem, v) == t.inner.memory_set.lookup(
                            &self.machine.mem,
                            v,
                        )
                    &&& forall|f: u64| #[trigger]
                        t.inner.memory_set.frames().contains(f) ==> now.machine.mem@[f]
                            == self.machine.mem@[f]
                },
    {
        let gone = self.tasks@[ci].inner.memory_set.frames();
        let none = Set::<u64>::empty();
        let n = now.tasks@.len() as int;
        self.lemma_family_reaped(ci, now);
        assert forall|j: int| 0 <= j < n implies now.tasks@[j] == self.tasks@[if j < ci {
            j
        } else {
            j + 1
        }] by {}
        assert forall|j: int| 0 <= j < self.tasks@.len() && j != ci implies {
            let t = #[trigger] self.tasks@[j];
            &&& self.machine.holds(&t.inner.memory_set)
            &&& now.machine.holds(&t.inner.memory_set)
            &&& forall|v: u64| #[trigger]
                t.inner.memory_set.lookup(&now.machine.mem, v) == t.inner.memory_set.lookup(
                    &self.machine.mem,
                    v,
                )
            &&& forall|f: u64| #[trigger]
                t.inner.memory_set.frames().contains(f) ==> now.machine.mem@[f] == self.machine.mem@[f]
        } by {
            let t = self.tasks@[j];
            assert(t.wf(&self.machine));
            assert(self.tasks@[j].inner.memory_set.frames().disjoint(
                self.tasks@[ci].inner.memory_set.frames(),
            ));
            self.machine.lemma_step_bystander(&t.inner.memory_set, gone, &now.machine, none);
        }
        assert forall|j: int| 0 <= j < n implies (#[trigger] now.tasks@[j]).wf(&now.machine) by {
            let j2 = if j < ci {
                j
            } else {
                j + 1
            };
            assert(self.tasks@[j2].wf(&self.machine));
            assert(self.tasks@[j2].pid != self.tasks@[ci].pid);
        }
        assert forall|a: int, b: int| 0 <= a < n && 0 <= b < n && a != b implies (#[trigger] now.tasks@[a]).inner.memory_set.frames().disjoint(
            (#[trigger] now.tasks@[b]).inner.memory_set.frames(),
        ) && now.tasks@[a].pid != now.tasks@[b].pid by {
            let a2 = if a < ci {
                a
            } else {
                a + 1
            };
            let b2 = if b < ci {
                b
            } else {
                b + 1
            };
            assert(self.tasks@[a2].inner.memory_set.frames().disjoint(
                self.tasks@[b2].inner.memory_set.frames(),
            ));
            assert(self.tasks@[a2].pid != self.tasks@[b2].pid);
        }
        assert forall|p: usize, st: TaskStatus|
            self.has_task_in(p, st) && st != TaskStatus::Zombie implies now.has_task_in(p, st) by {
            let j = choose|j: int|
                0 <= j < self.tasks@.len() && (#[trigger] self.tasks@[j]).pid.0 == p
                    && self.tasks@[j].inner.task_status == st;
            let j2 = if j < ci {
                j
            } else {
                j - 1
            };
            assert(now.tasks@[j2].pid.0 == p);
        }
        assert forall|p: usize| #[trigger] now.machine.pids.is_allocated(p) implies now.has_task(p) by {
            assert(self.has_task(p));
            let j = choose|j: int| 0 <= j < self.tasks@.len() && (#[trigger] self.tasks@[j]).pid.0 == p;
            let j2 = if j < ci {
                j
            } else {
                j - 1
            };
            assert(now.tasks@[j2].pid.0 == p);
        }
        assert forall|k: int| 0 <= k < now.manager@.len() implies now.has_task_in(
            #[trigger] now.manager@[k],
            TaskStatus::Ready,
        ) by {
            assert(self.has_task_in(self.manager@[k], TaskStatus::Ready));
        }
        assert forall|j: int|
            0 <= j < n && (#[trigger] now.tasks@[j]).inner.task_status
                == TaskStatus::Ready implies now.manager@.contains(now.tasks@[j].pid.0) by {
            let j2 = if j < ci {
                j
            } else {
                j + 1
            };
            assert(self.tasks@[j2].inner.task_status == TaskStatus::Ready);
        }
        if now.current is Some {
            assert(self.has_task_in(self.current->0, TaskStatus::Running));
        }
        assert forall|j: int|
            0 <= j < n && (#[trigger] now.tasks@[j]).inner.task_status
                == TaskStatus::Running implies now.current == Some(now.tasks@[j].pid.0) by {
            let j2 = if j < ci {
                j
            } else {
                j + 1
            };
            assert(self.tasks@[j2].inner.task_status == TaskStatus::Running);
        }
    }

    /// Stores `data` at `va` and the addresses after it in the memory of
    /// the process at the place `i`, as a write from user mode. Returns
    /// whether user mode can write to all these addresses; nothing changes
    /// when it cannot.
    pub fn write_user(&mut self, i: usize, va: VirtAddr, data: &Vec<u8>) -> (r: bool)
        requires
            old(self).wf(),
            i < old(self).tasks@.len(),
        ensures
            old(self).space_changed(i as int, final(self)),
            final(self).tasks == old(self).tasks,
            final(self).machine.frames == old(self).machine.frames,
            final(self).machine.kernel_space == old(self).machine.kernel_space,
            final(self).machine.pids == old(self).machine.pids,
            ({
                let ms = old(self).tasks@[i as int].inner.memory_set;
                &&& r == ms.user_range(&old(self).machine.mem, va.0, data@.len(), PTE_W)
                &&& !r ==> final(self).machine.mem@ == old(self).machine.mem@
                &&& forall|v: u64| #[trigger]
                    ms.lookup(&final(self).machine.mem, v) == ms.lookup(&old(self).machine.mem, v)
                &&& r ==> forall|k: int|
                    0 <= k < data@.len() ==> final(self).machine.mem.byte(
                        #[trigger] ms.write_addr(&old(self).machine.mem, va.0, k),
                    ) == data@[k]
                &&& r ==> forall|pa: u64|
                    old(self).machine.mem.has_frame((pa / 4096) as u64) && !(exists|k: int|
                        0 <= k < data@.len() && #[trigger] ms.write_hits(
                            &old(self).machine.mem,
                            va.0,
                            k,
                            pa,
                        )) ==> #[trigger] final(self).machine.mem.byte(pa) == old(self).machine.mem.byte(
                        pa,
                    )
                &&& r ==> others_kept(&ms, &old(self).machine, &final(self).machine, va.0, data@.len())
                &&& forall|f: u64|
                    old(self).machine.mem.has_frame(f) && !ms.data_frames().contains(f) ==> #[trigger] final(self).machine.mem@[f] == old(self).machine.mem@[f]
            }),
    {
        proof {
            assert(self.tasks@[i as int].wf(&self.machine));
        }
        let r = self.tasks[i].inner.memory_set.write_bytes(&mut self.machine.mem, va, data);
        proof {
            let ms = self.tasks@[i as int].inner.memory_set;
            ms.lemma_wf(&self.machine.mem);
            assert(effect(
                ms.frames(),
                &old(self).machine.mem,
                &old(self).machine.frames,
                ms.frames(),
                &self.machine.mem,
                &self.machine.frames,
            )) by {
                assert forall|f: u64|
                    old(self).machine.mem.has_frame(f) && !old(self).machine.frames.is_free(f)
                        && !ms.frames().contains(f) implies #[trigger] self.machine.mem@[f] == old(self).machine.mem@[f] by {
                    assert(!ms.data_frames().contains(f));
                }
            }
            old(self).lemma_space_changed(i as int, self);
        }
        r
    }

    /// The `len` bytes from `va` on in the memory of the process at the
    /// place `i`, as user mode reads them: `None` when user mode cannot read
    /// all of them.
    pub fn read_user(&self, i: usize, va: VirtAddr, len: usize) -> (r: Option<Vec<u8>>)
        requires
            self.wf(),
            i < self.tasks@.len(),
        ensures
            ({
                let ms = self.tasks@[i as int].inner.memory_set;
                &&& r is Some <==> ms.user_range(&self.machine.mem, va.0, len as nat, PTE_R)
                &&& r matches Some(bytes) ==> {
                    &&& bytes@.len() == len
                    &&& forall|k: int|
                        0 <= k < len ==> bytes@[k] == self.machine.mem.byte(
                            (#[trigger] ms.user_addr(&self.machine.mem, (va.0 + k) as u64, PTE_R))->0,
                        )
                }
            }),
    {
        proof {
            assert(self.tasks@[i as int].wf(&self.machine));
            self.tasks@[i as int].inner.memory_set.lemma_wf(&self.machine.mem);
        }
        match translated_byte_buffer(
            &self.tasks[i].inner.memory_set,
            &self.machine.mem,
            va,
            len,
            PTE_R,
        ) {
            None => None,
            Some(buffer) => {
                let bytes = buffer.read(&self.machine.mem);
                proof {
                    let ms = self.tasks@[i as int].inner.memory_set;
                    let addrs = user_addrs(&ms, &self.machine.mem, va.0, len as nat, PTE_R);
                    assert(buffer.addrs() == addrs);
                    assert forall|k: int| 0 <= k < len implies bytes@[k] == self.machine.mem.byte(
                        (#[trigger] ms.user_addr(&self.machine.mem, (va.0 + k) as u64, PTE_R))->0,
                    ) by {
                        assert(addrs[k] == ms.user_addr(&self.machine.mem, (va.0 + k) as u64, PTE_R)->0);
                        assert(bytes@[k] == self.machine.mem.byte(buffer.addrs()[k]));
                    }
                }
                Some(bytes)
            },
        }
    }

    /// The exit code of the process `pid`; 0 when there is no such process.
    pub open spec fn exit_code_of(&self, pid: usize) -> i32 {
        if self.has_task(pid) {
            let i = choose|i: int| 0 <= i < self.tasks@.len() && (#[trigger] self.tasks@[i]).pid.0 == pid;
            self.tasks@[i].inner.exit_code
        } else {
            0
        }
    }

    /// The exit code of the process at the place `i` is that of its task
    /// control block: no other process has its identifier.
    pub proof fn lemma_exit_code_of(&self, i: int)
        requires
            self.pids_ok(),
            0 <= i < self.tasks@.len(),
        ensures
            self.exit_code_of(self.tasks@[i].pid.0) == self.tasks@[i].inner.exit_code,
    {
        let pid = self.tasks@[i].pid.0;
        let c = choose|c: int| 0 <= c < self.tasks@.len() && (#[trigger] self.tasks@[c]).pid.0 == pid;
        if c != i {
            assert(self.tasks@[c].pid != self.tasks@[i].pid);
        }
    }

    /// Takes in a byte that came from the console: it waits to be read.
    pub fn push_console_input(&mut self, byte: u8)
        requires
            old(self).wf(),
        ensures
            final(self).wf(),
            final(self).console_in@ == old(self).console_in@.push(byte),
            final(self).machine == old(self).machine,
            final(self).tasks == old(self).tasks,
            final(self).manager == old(self).manager,
            final(self).current == old(self).current,
            final(self).initproc == old(self).initproc,
            final(self).apps == old(self).apps,
            final(self).registry == old(self).registry,
            final(self).console_out == old(self).console_out,
    {
        self.console_in.push_back(byte);
    }

    /// Hands out the bytes that processes have written to the console, for
    /// the caller to put them out; none are left waiting.
    pub fn take_console_output(&mut self) -> (r: Vec<u8>)
        requires
            old(self).wf(),
        ensures
            final(self).wf(),
            r@ == old(self).console_out@,
            final(self).console_out@.len() == 0,
            final(self).machine == old(self).machine,
            final(self).tasks == old(self).tasks,
            final(self).manager == old(self).manager,
            final(self).current == old(self).current,
            final(self).initproc == old(self).initproc,
            final(self).apps == old(self).apps,
            final(self).registry == old(self).registry,
            final(self).console_in == old(self).console_in,
    {
        let mut out: Vec<u8> = Vec::new();
        std::mem::swap(&mut out, &mut self.console_out);
        out
    }

    /// The place of the process `pid`.
    pub open spec fn index_of(&self, pid: usize) -> int {
        choose|i: int| 0 <= i < self.tasks@.len() && (#[trigger] self.tasks@[i]).pid.0 == pid
    }

    /// The place `i` is the place of the process that is there: no other
    /// process has its identifier.
    pub proof fn lemma_index_of(&self, i: int)
        requires
            self.pids_ok(),
            0 <= i < self.tasks@.len(),
        ensures
            self.index_of(self.tasks@[i].pid.0) == i,
            self.has_task(self.tasks@[i].pid.0),
    {
        let c = self.index_of(self.tasks@[i].pid.0);
        if c != i {
            assert(self.tasks@[c].pid != self.tasks@[i].pid);
        }
    }

    /// Makes the process `parent` the parent of every process whose
    /// identifier is in `kids`, but for the process at the place `skip`.
    fn set_parents(&mut self, skip: usize, kids: &Vec<usize>, parent: usize)
        ensures
            final(self).machine == old(self).machine,
            final(self).manager == old(self).manager,
            final(self).current == old(self).current,
            old(self).same_rest(final(self)),
            final(self).tasks@.len() == old(self).tasks@.len(),
            forall|j: int|
                0 <= j < old(self).tasks@.len() ==> {
                    let t = #[trigger] final(self).tasks@[j];
                    let o = old(self).tasks@[j];
                    &&& same_but_family(o, t)
                    &&& t.inner.children == o.inner.children
                    &&& t.inner.parent == if j != skip && kids@.contains(o.pid.0) {
                        Some(parent)
                    } else {
                        o.inner.parent
                    }
                },
    {
        let mut k: usize = 0;
        while k < kids.len()
            invariant
                k <= kids@.len(),
                self.machine == old(self).machine,
                self.manager == old(self).manager,
                self.current == old(self).current,
                old(self).same_rest(self),
                self.tasks@.len() == old(self).tasks@.len(),
                forall|j: int|
                    0 <= j < self.tasks@.len() ==> {
                        let t = #[trigger] self.tasks@[j];
                        let o = old(self).tasks@[j];
                        &&& same_but_family(o, t)
                        &&& t.inner.children == o.inner.children
                        &&& t.inner.parent == if j != skip && kids@.take(k as int).contains(o.pid.0) {
                            Some(parent)
                        } else {
                            o.inner.parent
                        }
                    },
            decreases kids@.len() - k,
        {
            let c: usize = kids[k];
            let ghost before = *self;
            let mut j: usize = 0;
            while j < self.tasks.len()
                invariant
                    j <= self.tasks@.len(),
                    k < kids@.len(),
                    c == kids@[k as int],
                    self.machine == old(self).machine,
                    self.manager == old(self).manager,
                    self.current == old(self).current,
                    old(self).same_rest(self),
                    self.tasks@.len() == old(self).tasks@.len(),
                    forall|n: int|
                        0 <= n < self.tasks@.len() ==> {
                            let t = #[trigger] self.tasks@[n];
                            let o = before.tasks@[n];
                            &&& same_but_family(o, t)
                            &&& t.inner.children == o.inner.children
                            &&& t.inner.parent == if n < j && n != skip && o.pid.0 == c {
                                Some(parent)
                            } else {
                                o.inner.parent
                            }
                        },
                decreases self.tasks@.len() - j,
            {
                if j != skip && self.tasks[j].pid.0 == c {
                    self.tasks[j].inner.parent = Some(parent);
                }
                j = j + 1;
            }
            proof {
                assert forall|n: int| 0 <= n < self.tasks@.len() implies {
                    let t = #[trigger] self.tasks@[n];
                    let o = old(self).tasks@[n];
                    &&& same_but_family(o, t)
                    &&& t.inner.children == o.inner.children
                    &&& t.inner.parent == if n != skip && kids@.take(k as int + 1).contains(o.pid.0) {
                        Some(parent)
                    } else {
                        o.inner.parent
                    }
                } by {
                    lemma_take_contains(kids@, k as int, old(self).tasks@[n].pid.0);
                    let b = before.tasks@[n];
                    assert(same_but_family(old(self).tasks@[n], b));
                }
            }
            k = k + 1;
        }
        proof {
            assert(kids@.take(kids@.len() as int) =~= kids@);
        }
    }

    /// Adds the identifiers in `kids` to the children of the process at the
    /// place `to`.
    fn give_children(&mut self, to: usize, kids: &Vec<usize>)
        requires
            to < old(self).tasks@.len(),
        ensures
            final(self).machine == old(self).machine,
            final(self).manager == old(self).manager,
            final(self).current == old(self).current,
            old(self).same_rest(final(self)),
            final(self).tasks@.len() == old(self).tasks@.len(),
            forall|j: int|
                0 <= j < old(self).tasks@.len() ==> {
                    let t = #[trigger] final(self).tasks@[j];
                    let o = old(self).tasks@[j];
                    &&& same_but_family(o, t)
                    &&& t.inner.parent == o.inner.parent
                    &&& t.inner.children@ == if j == to {
                        o.inner.children@ + kids@
                    } else {
                        o.inner.children@
                    }
                },
    {
        let mut k: usize = 0;
        while k < kids.len()
            invariant
                k <= kids@.len(),
                to < self.tasks@.len(),
                self.machine == old(self).machine,
                self.manager == old(self).manager,
                self.current == old(self).current,
                old(self).same_rest(self),
                self.tasks@.len() == old(self).tasks@.len(),
                forall|j: int|
                    0 <= j < self.tasks@.len() ==> {
                        let t = #[trigger] self.tasks@[j];
                        let o = old(self).tasks@[j];
                        &&& same_but_family(o, t)
                        &&& t.inner.parent == o.inner.parent
                        &&& t.inner.children@ == if j == to {
                            o.inner.children@ + kids@.take(k as int)
                        } else {
                            o.inner.children@
                        }
                    },
            decreases kids@.len() - k,
        {
            let c: usize = kids[k];
            let ghost before = *self;
            self.tasks[to].inner.children.push(c);
            proof {
                assert(kids@.take(k as int + 1) =~= kids@.take(k as int).push(c));
                assert forall|j: int| 0 <= j < self.tasks@.len() implies {
                    let t = #[trigger] self.tasks@[j];
                    let o = old(self).tasks@[j];
                    &&& same_but_family(o, t)
                    &&& t.inner.parent == o.inner.parent
                    &&& t.inner.children@ == if j == to {
                        o.inner.children@ + kids@.take(k as int + 1)
                    } else {
                        o.inner.children@
                    }
                } by {
                    let b = before.tasks@[j];
                    assert(same_but_family(old(self).tasks@[j], b));
                    if j == to {
                        assert(self.tasks@[j].inner.children@ =~= old(self).tasks@[j].inner.children@
                            + kids@.take(k as int + 1));
                    }
                }
            }
            k = k + 1;
        }
        proof {
            assert(kids@.take(kids@.len() as int) =~= kids@);
        }
    }

    /// The children of the process `pid`, as its task control block lists
    /// them; none when there is no such process.
    pub open spec fn children_of(&self, pid: usize) -> Seq<usize> {
        if self.has_task(pid) {
            let i = choose|i: int| 0 <= i < self.tasks@.len() && (#[trigger] self.tasks@[i]).pid.0 == pid;
            self.tasks@[i].inner.children@
        } else {
            Seq::empty()
        }
    }

    /// The children of the process at the place `i` are those that its task
    /// control block lists: no other process has its identifier.
    pub proof fn lemma_children_of(&self, i: int)
        requires
            self.pids_ok(),
            0 <= i < self.tasks@.len(),
        ensures
            self.children_of(self.tasks@[i].pid.0) == self.tasks@[i].inner.children@,
    {
        let pid = self.tasks@[i].pid.0;
        let c = choose|c: int| 0 <= c < self.tasks@.len() && (#[trigger] self.tasks@[c]).pid.0 == pid;
        if c != i {
            assert(self.tasks@[c].pid != self.tasks@[i].pid);
        }
    }

    /// What the exit of the process that runs, with the exit code `code`,
    /// does to a process that was `o` and is `t`, when then the process
    /// `next` gets the processor.
    ///
    /// The process that exits becomes a zombie with that exit code, loses
    /// all areas of its address space and, unless it is the init process,
    /// its children. The init process, unless it is the one that exits, gets
    /// the children of the process that exits. These children get the init
    /// process as parent. The process that gets the processor runs.
    pub open spec fn exited(
        &self,
        code: i32,
        o: TaskControlBlock,
        t: TaskControlBlock,
        next: Option<usize>,
    ) -> bool {
        let me = self.current->0;
        let kids = self.children_of(me);
        &&& same_identity(o, t)
        &&& t.inner.task_status == if o.pid.0 == me {
            TaskStatus::Zombie
        } else if Some(o.pid.0) == next {
            TaskStatus::Running
        } else {
            o.inner.task_status
        }
        &&& t.inner.exit_code == if o.pid.0 == me {
            code
        } else {
            o.inner.exit_code
        }
        &&& t.inner.parent == if o.pid.0 != me && me != self.initproc && kids.contains(o.pid.0) {
            Some(self.initproc)
        } else {
            o.inner.parent
        }
        &&& t.inner.children@ == if me == self.initproc {
            o.inner.children@
        } else if o.pid.0 == me {
            Seq::empty()
        } else if o.pid.0 == self.initproc {
            o.inner.children@ + kids
        } else {
            o.inner.children@
        }
        &&& if o.pid.0 == me {
            t.inner.memory_set.areas().len() == 0 && t.inner.memory_set.table()
                == o.inner.memory_set.table() && t.inner.memory_set.trampoline()
                == o.inner.memory_set.trampoline()
        } else {
            t.inner.memory_set == o.inner.memory_set
        }
    }
}

/// Whether the process `t` is the process `o` with what never changes in
/// the life of a process but by its own system calls: identifier, kernel
/// stack, saved context, open files and channel.
pub open spec fn same_identity(o: TaskControlBlock, t: TaskControlBlock) -> bool {
    &&& t.pid == o.pid
    &&& t.kernel_stack == o.kernel_stack
    &&& t.inner.task_cx_ptr == o.inner.task_cx_ptr
    &&& t.inner.trap_cx_ppn == o.inner.trap_cx_ppn
    &&& t.inner.base_size == o.inner.base_size
    &&& t.inner.fd_table == o.inner.fd_table
    &&& t.inner.channel == o.inner.channel
}

/// The name of the program of the init process.
pub open spec fn init_name() -> Seq<char> {
    seq!['i', 'n', 'i', 't', 'p', 'r', 'o', 'c']
}

/// The place of the first program with the name `name`.
pub open spec fn app_index(apps: Seq<AppImage>, name: Seq<char>) -> Option<int> {
    if exists|i: int| 0 <= i < apps.len() && (#[trigger] apps[i]).name@ == name {
        Some(
            choose|i: int|
                0 <= i < apps.len() && (#[trigger] apps[i]).name@ == name && forall|j: int|
                    0 <= j < i ==> (#[trigger] apps[j]).name@ != name,
        )
    } else {
        None
    }
}

/// The place of the first program with the name `name` among `apps`, if
/// there is one.
pub fn get_app_data_by_name(apps: &Vec<AppImage>, name: &String) -> (r: Option<usize>)
    ensures
        r is Some <==> app_index(apps@, name@) is Some,
        r matches Some(i) ==> i < apps@.len() && app_index(apps@, name@) == Some(i as int)
            && apps@[i as int].name@ == name@,
{
    let mut i: usize = 0;
    while i < apps.len()
        invariant
            i <= apps@.len(),
            forall|j: int| 0 <= j < i ==> (#[trigger] apps@[j]).name@ != name@,
        decreases apps@.len() - i,
    {
        if apps[i].name == *name {
            proof {
                let c = app_index(apps@, name@)->0;
                assert(apps@[i as int].name@ == name@);
                if c < i {
                    assert(apps@[c].name@ != name@);
                }
                if i < c {
                    assert(apps@[i as int].name@ != name@);
                }
            }
            return Some(i);
        }
        i = i + 1;
    }
    proof {
        if app_index(apps@, name@) is Some {
            let c = choose|c: int| 0 <= c < apps@.len() && (#[trigger] apps@[c]).name@ == name@;
            assert(apps@[c].name@ != name@);
        }
    }
    None
}

/// Whether the machine `now` is the machine `before` but for the `n` bytes
/// that a write from user mode at `va` through the address space `ms`
/// reaches: every other byte of the memory is as it was, and so are the
/// allocator, the address space of the kernel and the identifiers.
pub open spec fn others_kept(ms: &MemorySet, before: &Machine, now: &Machine, va: u64, n: nat) -> bool {
    &&& now.frames == before.frames
    &&& now.kernel_space == before.kernel_space
    &&& now.pids == before.pids
    &&& now.config == before.config
    &&& forall|pa: u64|
        before.mem.has_frame((pa / 4096) as u64) && !(exists|k: int|
            0 <= k < n && #[trigger] ms.write_hits(&before.mem, va, k, pa)) ==> #[trigger] now.mem.byte(
            pa,
        ) == before.mem.byte(pa)
}

/// Whether the process `t` is the process `o` but for its address space.
pub open spec fn same_but_space(o: TaskControlBlock, t: TaskControlBlock) -> bool {
    &&& same_identity(o, t)
    &&& t.inner.task_status == o.inner.task_status
    &&& t.inner.exit_code == o.inner.exit_code
    &&& t.inner.parent == o.inner.parent
    &&& t.inner.children == o.inner.children
}

/// Whether the process `t` is the process `o` but for its parent and its
/// children.
pub open spec fn same_but_family(o: TaskControlBlock, t: TaskControlBlock) -> bool {
    &&& same_identity(o, t)
    &&& t.inner.memory_set == o.inner.memory_set
    &&& t.inner.task_status == o.inner.task_status
    &&& t.inner.exit_code == o.inner.exit_code
}

/// An item is among the first `k + 1` items of a sequence when it is among
/// the first `k` or is the item at place `k`.
pub proof fn lemma_take_contains(s: Seq<usize>, k: int, x: usize)
    requires
        0 <= k < s.len(),
    ensures
        s.take(k + 1).contains(x) <==> s.take(k).contains(x) || s[k] == x,
{
    let a = s.take(k + 1);
    let b = s.take(k);
    if a.contains(x) {
        let i = choose|i: int| 0 <= i < a.len() && a[i] == x;
        if i < k {
            assert(b[i] == x);
        }
    }
    if b.contains(x) {
        let i = choose|i: int| 0 <= i < b.len() && b[i] == x;
        assert(a[i] == x);
    }
    if s[k] == x {
        assert(a[k] == x);
    }
}

/// A list of its own with the identifiers of `pids`.
pub fn copy_pids(pids: &Vec<usize>) -> (r: Vec<usize>)
    ensures
        r@ == pids@,
{
    let mut r: Vec<usize> = Vec::new();
    let mut i: usize = 0;
    while i < pids.len()
        invariant
            i <= pids@.len(),
            r@ == pids@.take(i as int),
        decreases pids@.len() - i,
    {
        r.push(pids[i]);
        proof {
            assert(r@ =~= pids@.take(i as int + 1));
        }
        i = i + 1;
    }
    proof {
        assert(pids@.take(pids@.len() as int) =~= pids@);
    }
    r
}

} // verus!
