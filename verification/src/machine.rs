//! The memory side of the kernel: the physical memory, the frame allocator,
//! the address space of the kernel with the kernel stacks of the processes,
//! and the allocator of process identifiers.

use vstd::prelude::*;
use crate::address::{PhysPageNum, VirtAddr, VirtPageNum};
use crate::config::{KERNEL_STACK_SIZE, PAGE_SIZE, TRAMPOLINE};
use crate::frame_allocator::StackFrameAllocator;
use crate::memory::{PhysMemory, zero_frame};
use crate::memory_set::{
    HALF_PAGES,
    AreaError,
    MapPermission,
    MapType,
    MemorySet,
    PERM_R,
    PERM_W,
    effect,
    lemma_effect_frame,
    lemma_effect_trans,
    perm_bits_valid,
    vpn_valid,
};
use crate::pid::PidAllocator;
use crate::spaces::{KernelLayout, kernel_area, layout_fits, lemma_effect_none, range_pages};

verus! {

/// What the kernel is told of the machine when it starts.
#[derive(Clone, Copy, Debug, PartialEq, Eq, Structural)]
pub struct BootConfig {
    /// The page number of the first frame of the physical memory.
    pub memory_base: u64,
    /// The number of frames of the physical memory.
    pub memory_frames: usize,
    /// Where the sections of the kernel lie.
    pub layout: KernelLayout,
    /// The address of the code that handles a trap from user mode.
    pub trap_handler: u64,
    /// The address of the code that leaves the kernel for user mode.
    pub trap_return: u64,
    /// The status register of the machine.
    pub sstatus: u64,
}

/// The number of processes whose kernel stacks fit into the upper half of
/// the address space of the kernel.
pub const MAX_STACKS: usize = 22369620;

/// The memory, its allocator, the address space of the kernel and the
/// allocator of process identifiers.
pub struct Machine {
    pub mem: PhysMemory,
    pub frames: StackFrameAllocator,
    pub kernel_space: MemorySet,
    pub pids: PidAllocator,
    pub config: BootConfig,
}

impl Machine {
    /// The frame of the trampoline code.
    pub open spec fn trampoline(&self) -> u64 {
        (self.config.layout.strampoline / 4096) as u64
    }

    /// The memory and the allocators are in order, the frames of the
    /// allocator are frames of the memory, and the address space of the
    /// kernel is in order and holds allocated frames only.
    pub open spec fn wf(&self) -> bool {
        &&& self.mem.wf()
        &&& self.frames.wf()
        &&& self.frames.within(&self.mem)
        &&& self.kernel_space.wf(&self.mem)
        &&& self.kernel_space.owned(&self.frames)
        &&& self.pids.wf()
        &&& self.trampoline() < 0x1000_0000_0000
    }

    /// Whether every frame that was handed out and is none of `touched`
    /// holds in `now` what it holds in this machine.
    pub open spec fn kept_but(&self, now: &Machine, touched: Set<u64>) -> bool {
        forall|f: u64|
            self.mem.has_frame(f) && !self.frames.is_free(f) && !touched.contains(f) ==> #[trigger] now.mem@[f]
                == self.mem@[f]
    }

    /// What an operation may do to the machine, when the address space it
    /// worked on had the frames `before` and has the frames `after`: the
    /// machine is in order, and frames that were neither free nor those of
    /// that address space or of the kernel keep their contents and stay
    /// allocated.
    pub open spec fn step(&self, before: Set<u64>, now: &Machine, after: Set<u64>) -> bool {
        &&& now.wf()
        &&& now.config == self.config
        &&& effect(
            self.kernel_space.frames().union(before),
            &self.mem,
            &self.frames,
            now.kernel_space.frames().union(after),
            &now.mem,
            &now.frames,
        )
    }

    /// Whether the address space `space` is in order on this machine: its
    /// frames are allocated and none of them is a frame of the kernel.
    pub open spec fn holds(&self, space: &MemorySet) -> bool {
        &&& space.wf(&self.mem)
        &&& space.owned(&self.frames)
        &&& space.frames().disjoint(self.kernel_space.frames())
    }

    /// Two steps in a row are a step.
    pub proof fn lemma_step_trans(
        &self,
        a: Set<u64>,
        mid: &Machine,
        b: Set<u64>,
        now: &Machine,
        c: Set<u64>,
    )
        requires
            self.step(a, mid, b),
            mid.step(b, now, c),
        ensures
            self.step(a, now, c),
    {
        lemma_effect_trans(
            self.kernel_space.frames().union(a),
            &self.mem,
            &self.frames,
            mid.kernel_space.frames().union(b),
            &mid.mem,
            &mid.frames,
            now.kernel_space.frames().union(c),
            &now.mem,
            &now.frames,
        );
    }

    /// An address space that shares no frame with the one a step worked on
    /// is untouched by the step.
    pub proof fn lemma_step_bystander(
        &self,
        space: &MemorySet,
        before: Set<u64>,
        now: &Machine,
        after: Set<u64>,
    )
        requires
            self.holds(space),
            space.frames().disjoint(before),
            self.step(before, now, after),
        ensures
            now.holds(space),
            space.frames().disjoint(after),
            forall|v: u64| #[trigger] space.lookup(&now.mem, v) == space.lookup(&self.mem, v),
            forall|f: u64| #[trigger] space.frames().contains(f) ==> now.mem@[f] == self.mem@[f],
    {
        space.lemma_bystander(
            &self.mem,
            &self.frames,
            self.kernel_space.frames().union(before),
            now.kernel_space.frames().union(after),
            &now.mem,
            &now.frames,
        );
    }

    /// An operation on the address space of the kernel alone is a step for
    /// every other address space, whose frames are neither free nor frames
    /// of the kernel.
    pub proof fn lemma_kernel_step(&self, now: &Machine, other: Set<u64>)
        requires
            now.wf(),
            now.config == self.config,
            forall|q: u64|
                other.contains(q) ==> !self.frames.is_free(q) && !self.kernel_space.frames().contains(q),
            effect(
                self.kernel_space.frames(),
                &self.mem,
                &self.frames,
                now.kernel_space.frames(),
                &now.mem,
                &now.frames,
            ),
        ensures
            self.step(other, now, other),
    {
        lemma_effect_frame(
            self.kernel_space.frames(),
            &self.mem,
            &self.frames,
            now.kernel_space.frames(),
            &now.mem,
            &now.frames,
            other,
        );
    }

    /// An operation on an address space that shares no frame with the
    /// kernel, which leaves the rest of the machine as it is, is a step, and
    /// the address space shares no frame with the kernel afterwards.
    pub proof fn lemma_space_op(&self, before: Set<u64>, now: &Machine, after: Set<u64>)
        requires
            self.wf(),
            self.kernel_space.frames().disjoint(before),
            effect(before, &self.mem, &self.frames, after, &now.mem, &now.frames),
            now.kernel_space == self.kernel_space,
            now.pids == self.pids,
            now.config == self.config,
        ensures
            self.step(before, now, after),
            now.kernel_space.frames().disjoint(after),
    {
        self.lemma_space_step(before, &now.mem, &now.frames, after);
    }

    /// An operation on an address space that shares no frame with the
    /// kernel, which leaves the address space of the kernel as it is, is a
    /// step.
    pub proof fn lemma_space_step(
        &self,
        before: Set<u64>,
        mem2: &PhysMemory,
        frames2: &StackFrameAllocator,
        after: Set<u64>,
    )
        requires
            self.wf(),
            self.kernel_space.frames().disjoint(before),
            effect(before, &self.mem, &self.frames, after, mem2, frames2),
        ensures
            self.kernel_space.wf(mem2),
            self.kernel_space.owned(frames2),
            self.kernel_space.frames().disjoint(after),
            frames2.within(mem2),
            effect(
                self.kernel_space.frames().union(before),
                &self.mem,
                &self.frames,
                self.kernel_space.frames().union(after),
                mem2,
                frames2,
            ),
    {
        self.kernel_space.lemma_bystander(&self.mem, &self.frames, before, after, mem2, frames2);
    }
}

/// The addresses of the bottom and the top of the kernel stack of the
/// process `app_id`: the stacks lie below the trampoline, one guard page
/// between each two. `None` when `app_id` is at or above `MAX_STACKS`.
pub fn kernel_stack_position(app_id: usize) -> (r: Option<(u64, u64)>)
    ensures
        r is Some <==> app_id < MAX_STACKS,
        r matches Some((bottom, top)) ==> {
            &&& top == TRAMPOLINE - app_id * (KERNEL_STACK_SIZE + PAGE_SIZE)
            &&& bottom == top - KERNEL_STACK_SIZE
            &&& bottom >= 0xffff_ffc0_0000_0000
            &&& bottom % 4096 == 0
            &&& top % 4096 == 0
        },
{
    if app_id >= MAX_STACKS {
        return None;
    }
    let top_page: u64 = 0xf_ffff_ffff_ffff - (app_id as u64) * 3;
    let top: u64 = top_page * 4096;
    let bottom: u64 = (top_page - 2) * 4096;
    Some((bottom, top))
}

/// The kernel stack of a process: an area of the address space of the
/// kernel, at the place that the identifier of the process gives.
#[derive(Clone, Copy, Debug, PartialEq, Eq, Structural)]
pub struct KernelStack {
    pub pid: usize,
}

impl KernelStack {
    /// The address of the top of the stack.
    pub open spec fn top(&self) -> u64 {
        (TRAMPOLINE - self.pid * (KERNEL_STACK_SIZE + PAGE_SIZE)) as u64
    }

    /// The first page of the stack.
    pub open spec fn first_page(&self) -> u64 {
        ((self.top() - KERNEL_STACK_SIZE) / 4096) as u64
    }

    /// Whether the stack can be mapped on the machine: its process is
    /// below `MAX_STACKS`, none of its two pages belongs to an area of the
    /// kernel, and the free frames are enough for it.
    pub open spec fn fits(&self, machine: &Machine) -> bool {
        &&& self.pid < MAX_STACKS
        &&& !machine.kernel_space.any_covered(self.first_page(), (self.first_page() + 2) as u64)
        &&& machine.frames.free_count() >= machine.kernel_space.frames_for(
            &machine.mem,
            self.first_page(),
            (self.first_page() + 2) as u64,
        )
    }

    /// Whether the stack holds, at its top, the task context of a process
    /// that has not run yet: the return address `ra`, and zeros in the saved
    /// registers and in the rest of the last page of the stack.
    pub open spec fn holds_context(&self, machine: &Machine, ra: u64) -> bool {
        machine.kernel_space.page_frame((self.first_page() + 1) as u64) matches Some(f)
            && machine.mem@[f] == zero_frame().update(499, ra)
    }

    /// Maps the kernel stack of the process `pid` into the address space of
    /// the kernel, on fresh zeroed frames.
    ///
    /// `None`, with nothing changed but for the page table of the kernel,
    /// when `pid` is at or above `MAX_STACKS`, when the place of the stack
    /// is taken, or when the frames run out.
    pub fn new(machine: &mut Machine, pid: usize) -> (r: Option<KernelStack>)
        requires
            old(machine).wf(),
        ensures
            final(machine).wf(),
            final(machine).config == old(machine).config,
            final(machine).pids == old(machine).pids,
            effect(
                old(machine).kernel_space.frames(),
                &old(machine).mem,
                &old(machine).frames,
                final(machine).kernel_space.frames(),
                &final(machine).mem,
                &final(machine).frames,
            ),
            final(machine).kernel_space.trampoline() == old(machine).kernel_space.trampoline(),
            r is None ==> final(machine).kernel_space.areas() == old(machine).kernel_space.areas(),
            r is Some <==> (KernelStack { pid }).fits(old(machine)),
            old(machine).kernel_space.frames().subset_of(final(machine).kernel_space.frames()),
            old(machine).kept_but(final(machine), old(machine).kernel_space.table().frames()),
            final(machine).frames.free_count() <= old(machine).frames.free_count(),
            final(machine).frames.free_count() + 6 >= old(machine).frames.free_count(),
            r matches Some(stack) ==> {
                &&& stack.pid == pid
                &&& pid < MAX_STACKS
                &&& final(machine).kernel_space.areas().drop_last() == old(machine).kernel_space.areas()
                &&& final(machine).kernel_space.areas().len() == old(machine).kernel_space.areas().len() + 1
                &&& final(machine).kernel_space.areas().last().is_framed_over(
                    stack.first_page(),
                    (stack.first_page() + 2) as u64,
                )
                &&& final(machine).kernel_space.areas().last().perm() == PERM_R | PERM_W
                &&& forall|k: int|
                    0 <= k < 2 ==> final(machine).mem@[#[trigger] final(machine).kernel_space.areas().last().frames()[k]]
                        == zero_frame()
            },
    {
        let (bottom, top) = match kernel_stack_position(pid) {
            None => {
                proof {
                    machine.kernel_space.lemma_wf(&machine.mem);
                    lemma_effect_same(
                        machine.kernel_space.frames(),
                        &machine.mem,
                        &machine.frames,
                    );
                }
                return None;
            },
            Some(p) => p,
        };
        assert((2u8 | 4u8) & 0xe1 == 0) by (bit_vector);
        let res = machine.kernel_space.insert_framed_area(
            &mut machine.mem,
            &mut machine.frames,
            VirtAddr(bottom),
            VirtAddr(top),
            MapPermission { bits: PERM_R | PERM_W },
        );
        proof {
            machine.kernel_space.lemma_wf(&machine.mem);
            if res is Err {
                let err = res->Err_0;
                assert(res == Err::<(), AreaError>(err));
                match err {
                    AreaError::InvalidRange => {},
                    AreaError::Overlap => {},
                    AreaError::NoSuchArea => {},
                    AreaError::OutOfFrames => {},
                }
            }
        }
        match res {
            Err(_) => None,
            Ok(_) => Some(KernelStack { pid }),
        }
    }

    /// The address of the top of the stack.
    pub fn get_top(&self) -> (r: u64)
        requires
            self.pid < MAX_STACKS,
        ensures
            r == self.top(),
    {
        match kernel_stack_position(self.pid) {
            Some((_, top)) => top,
            None => 0,
        }
    }

    /// Stores the word `ra` at the top of the stack as the return address of
    /// a task context whose other registers are zero, and returns the
    /// address of that task context. `None` when the stack is not mapped.
    pub fn push_on_top(&self, machine: &mut Machine, ra: u64) -> (r: Option<u64>)
        requires
            old(machine).wf(),
            self.pid < MAX_STACKS,
        ensures
            final(machine).wf(),
            final(machine).config == old(machine).config,
            final(machine).pids == old(machine).pids,
            final(machine).kernel_space == old(machine).kernel_space,
            final(machine).frames == old(machine).frames,
            effect(
                old(machine).kernel_space.frames(),
                &old(machine).mem,
                &old(machine).frames,
                final(machine).kernel_space.frames(),
                &final(machine).mem,
                &final(machine).frames,
            ),
            r is Some <==> old(machine).kernel_space.page_frame((self.first_page() + 1) as u64) is Some,
            r is None ==> final(machine).mem@ == old(machine).mem@,
            r matches Some(ptr) ==> {
                let f = old(machine).kernel_space.page_frame((self.first_page() + 1) as u64)->0;
                &&& ptr == self.top() - 104
                &&& final(machine).mem@ == old(machine).mem@.insert(
                    f,
                    old(machine).mem@[f].update(499, ra),
                )
            },
    {
        let top: u64 = self.get_top();
        let vpn = VirtPageNum(top / 4096 - 1);
        let ok = machine.kernel_space.store_word(&mut machine.mem, vpn, 499, ra);
        proof {
            machine.kernel_space.lemma_wf(&old(machine).mem);
            assert(effect(
                old(machine).kernel_space.frames(),
                &old(machine).mem,
                &old(machine).frames,
                machine.kernel_space.frames(),
                &machine.mem,
                &machine.frames,
            )) by {
                assert forall|f: u64|
                    old(machine).mem.has_frame(f) && !old(machine).frames.is_free(f) && !old(machine).kernel_space.frames().contains(f) implies #[trigger] machine.mem@[f] == old(machine).mem@[f] by {
                    assert(!machine.kernel_space.data_frames().contains(f));
                }
            }
        }
        if ok {
            Some(top - 104)
        } else {
            None
        }
    }

    /// The position, among the areas of the kernel, of the area that holds
    /// the stack: the first framed area over its two pages. `None` when the
    /// stack is not mapped.
    pub open spec fn mapped_at(&self, machine: &Machine) -> Option<int> {
        if self.pid < MAX_STACKS {
            machine.kernel_space.framed_area_at(self.first_page(), (self.first_page() + 2) as u64)
        } else {
            None
        }
    }

    /// Takes the kernel stack out of the address space of the kernel and
    /// gives its frames back: the area of the stack goes, its two pages
    /// are mapped no longer, and its two frames are free. Nothing changes
    /// when the stack is not mapped.
    pub fn release(self, machine: &mut Machine)
        requires
            old(machine).wf(),
        ensures
            final(machine).wf(),
            final(machine).config == old(machine).config,
            final(machine).pids == old(machine).pids,
            final(machine).kernel_space.table() == old(machine).kernel_space.table(),
            old(machine).kept_but(final(machine), old(machine).kernel_space.table().frames()),
            match self.mapped_at(old(machine)) {
                None => {
                    &&& final(machine).kernel_space == old(machine).kernel_space
                    &&& final(machine).mem == old(machine).mem
                    &&& final(machine).frames == old(machine).frames
                },
                Some(at) => {
                    &&& final(machine).kernel_space.areas() == old(machine).kernel_space.areas().remove(at)
                    &&& forall|v: u64|
                        vpn_valid(v) ==> #[trigger] final(machine).kernel_space.lookup(
                            &final(machine).mem,
                            v,
                        ) == if self.first_page() <= v < self.first_page() + 2 {
                            None
                        } else {
                            old(machine).kernel_space.lookup(&old(machine).mem, v)
                        }
                    &&& forall|q: u64|
                        final(machine).frames.is_free(q) <==> old(machine).frames.is_free(q) || old(machine).kernel_space.areas()[at].frames().contains(q)
                    &&& final(machine).frames.free_count() == old(machine).frames.free_count() + 2
                },
            },
            effect(
                old(machine).kernel_space.frames(),
                &old(machine).mem,
                &old(machine).frames,
                final(machine).kernel_space.frames(),
                &final(machine).mem,
                &final(machine).frames,
            ),
            final(machine).kernel_space.trampoline() == old(machine).kernel_space.trampoline(),
            forall|q: u64| old(machine).frames.is_free(q) ==> final(machine).frames.is_free(q),
    {
        match kernel_stack_position(self.pid) {
            None => {
                proof {
                    machine.kernel_space.lemma_wf(&machine.mem);
                    lemma_effect_same(
                        machine.kernel_space.frames(),
                        &machine.mem,
                        &machine.frames,
                    );
                }
            },
            Some((bottom, top)) => {
                let res = machine.kernel_space.delete_framed_area(
                    &mut machine.mem,
                    &mut machine.frames,
                    VirtAddr(bottom),
                    VirtAddr(top),
                );
                proof {
                    machine.kernel_space.lemma_wf(&machine.mem);
                }
            },
        }
    }
}

/// Doing nothing to frames that are not free has the effect of an operation
/// that changed nothing.
pub proof fn lemma_effect_same(a: Set<u64>, mem: &PhysMemory, allocator: &StackFrameAllocator)
    requires
        mem.wf(),
        allocator.wf(),
        forall|q: u64| a.contains(q) ==> !allocator.is_free(q),
    ensures
        effect(a, mem, allocator, a, mem, allocator),
{
}

/// The place of the kernel stack of the first process is free in an
/// address space whose areas all end in the lower half.
pub proof fn lemma_first_stack_free(space: &MemorySet)
    requires
        forall|j: int| 0 <= j < space.areas().len() ==> (#[trigger] space.areas()[j]).end() <= HALF_PAGES,
    ensures
        !space.any_covered(
            (KernelStack { pid: 0 }).first_page(),
            ((KernelStack { pid: 0 }).first_page() + 2) as u64,
        ),
{
    let first = (KernelStack { pid: 0 }).first_page();
    assert(first == 0xf_ffff_ffff_fffd);
    if space.any_covered(first, (first + 2) as u64) {
        let v = choose|v: u64| first <= v < first + 2 && space.covered(v);
        let j = choose|j: int| 0 <= j < space.areas().len() && (#[trigger] space.areas()[j]).contains(v);
        assert(space.areas()[j].end() <= HALF_PAGES);
    }
}

/// The number of frames between the end of the kernel and the end of the
/// memory that the kernel manages.
pub open spec fn frames_above(config: BootConfig) -> int {
    config.layout.memory_end / 4096 - (config.layout.ekernel + 4095) / 4096
}

/// Whether the memory side of the kernel can be set up: the memory holds
/// the frames above the kernel, the sections of the kernel can be mapped,
/// and those frames are enough for the page table of the kernel.
pub open spec fn can_init(config: BootConfig) -> bool {
    &&& config.memory_base <= 0x1000_0000_0000
    &&& config.memory_frames <= 0x1000_0000_0000 - config.memory_base
    &&& config.memory_frames <= usize::MAX / 512
    &&& config.memory_base <= (config.layout.ekernel + 4095) / 4096
    &&& config.layout.memory_end / 4096 <= config.memory_base + config.memory_frames
    &&& frames_above(config) >= 0
    &&& frames_above(config) >= 2 * range_pages(config.layout.ranges()) + 3
    &&& layout_fits(config.layout)
}

/// Sets up the memory side of the kernel: the physical memory, the
/// allocator of the frames above the kernel, and the address space of the
/// kernel.
///
/// `None` when the memory does not hold the frames above the kernel, when
/// the sections of the kernel do not lie beside each other, or when the
/// frames do not suffice for the page table of the kernel.
pub fn init(config: BootConfig) -> (r: Option<Machine>)
    ensures
        can_init(config) ==> r is Some,
        r matches Some(m) ==> {
            &&& m.wf()
            &&& m.config == config
            &&& m.frames.free_count() + 2 * range_pages(config.layout.ranges()) + 3 >= frames_above(
                config,
            )
            &&& forall|j: int|
                0 <= j < 5 ==> kernel_area(#[trigger] m.kernel_space.areas()[j], config.layout.ranges()[j])
            &&& m.mem.base() == config.memory_base
            &&& m.mem.frame_count() == config.memory_frames
            &&& m.frames.range_start() == (config.layout.ekernel + 4095) / 4096
            &&& m.frames.range_end() == config.layout.memory_end / 4096
            &&& m.kernel_space.trampoline() == Some(m.trampoline())
            &&& m.kernel_space.areas().len() == 5
            &&& forall|p: usize| !m.pids.is_allocated(p)
            &&& m.pids.next_pid() == Some(0usize)
        },
{
    if config.memory_base > 0x1000_0000_0000 || config.memory_frames as u64 > 0x1000_0000_0000
        - config.memory_base || config.memory_frames > usize::MAX / 512 {
        return None;
    }
    let first: u64 = VirtAddr(config.layout.ekernel).ceil().0;
    let last: u64 = config.layout.memory_end / 4096;
    if first > last || first < config.memory_base || last > config.memory_base
        + config.memory_frames as u64 {
        return None;
    }
    let mut mem = PhysMemory::new(config.memory_base, config.memory_frames);
    let mut frames = StackFrameAllocator::new(PhysPageNum(first), PhysPageNum(last));
    let kernel_space = match MemorySet::new_kernel(&mut mem, &mut frames, &config.layout) {
        None => {
            return None;
        },
        Some(ks) => ks,
    };
    proof {
        kernel_space.lemma_wf(&mem);
    }
    let m = Machine { mem, frames, kernel_space, pids: PidAllocator::new(), config };
    Some(m)
}

} // verus!
