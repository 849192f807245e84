//! Address spaces: a page table and the virtual memory areas mapped in it.

use vstd::prelude::*;
use crate::address::{PhysAddr, PhysPageNum, VirtAddr, VirtPageNum, same_entry};
use crate::config::TRAMPOLINE;
use crate::frame_allocator::{StackFrameAllocator, frame_alloc};
use crate::memory::{PhysMemory, frame_byte, frame_with_byte, lemma_frame_with_byte, zero_frame};
use crate::page_table::{
    OutOfFrames,
    PTEFlags,
    PageTable,
    PageTableEntry,
    PTE_R,
    PTE_U,
    PTE_V,
    PTE_W,
    PTE_X,
    bits_contain,
    entry_flags,
    entry_ppn,
    missing_beside,
    same_leaf,
    same_middle,
    lemma_pte_bits,
    pte_bits,
};

verus! {

/// Permission bit: the area may be read.
pub const PERM_R: u8 = 2;

/// Permission bit: the area may be written.
pub const PERM_W: u8 = 4;

/// Permission bit: the area may be executed.
pub const PERM_X: u8 = 8;

/// Permission bit: the area is open to user mode.
pub const PERM_U: u8 = 16;

/// The virtual page number of the trampoline page.
pub const TRAMPOLINE_VPN: u64 = 0xf_ffff_ffff_ffff;

/// The first virtual page number of the upper half of the address space.
pub const UPPER_HALF_VPN: u64 = 0xf_ffff_fc00_0000;

/// The number of pages in each half of the address space.
pub const HALF_PAGES: u64 = 0x400_0000;

/// The permissions of an area: a subset of read, write, execute and user,
/// at the bit positions of the page-table flags.
#[derive(Clone, Copy, Debug, PartialEq, Eq, Structural)]
pub struct MapPermission {
    pub bits: u8,
}

/// Whether `bits` holds permission bits only.
pub open spec fn perm_bits_valid(bits: u8) -> bool {
    bits & 0xe1 == 0
}

impl MapPermission {
    /// The permissions with the given bits, if these are permission bits
    /// only.
    pub fn from_bits(bits: u8) -> (r: Option<Self>)
        ensures
            r == if perm_bits_valid(bits) {
                Some(MapPermission { bits })
            } else {
                None
            },
    {
        if bits & 0xe1 == 0 {
            Some(MapPermission { bits })
        } else {
            None
        }
    }

    /// The bits of the permissions.
    pub fn bits(&self) -> (r: u8)
        ensures
            r == self.bits,
    {
        self.bits
    }
}

/// How the pages of an area get their frames.
#[derive(Clone, Copy, Debug, PartialEq, Eq, Structural)]
pub enum MapType {
    /// Every page is mapped to the frame with its own number.
    Identical,
    /// Every page is mapped to a frame of its own from the allocator.
    Framed,
}

/// Why an area could not be added to or taken out of an address space.
#[derive(Clone, Copy, Debug, PartialEq, Eq, Structural)]
pub enum AreaError {
    /// The range ends before it starts, leaves the 39-bit address space or
    /// spans both of its halves.
    InvalidRange,
    /// A page of the range belongs to an area already, or is the trampoline.
    Overlap,
    /// The allocator ran out of frames.
    OutOfFrames,
    /// No area has exactly the given range.
    NoSuchArea,
}

/// Whether `v` is a page of the 39-bit address space: of its lower half,
/// from 0, or of its upper half, up to the top of the 64-bit space.
pub open spec fn vpn_valid(v: u64) -> bool {
    v < HALF_PAGES || UPPER_HALF_VPN <= v <= TRAMPOLINE_VPN
}

/// Whether the pages from `s` up to `e` lie in one half of the address
/// space.
pub open spec fn range_valid(s: u64, e: u64) -> bool {
    s <= e && (e <= HALF_PAGES || (UPPER_HALF_VPN <= s && e <= TRAMPOLINE_VPN + 1))
}

/// Whether the page ranges `[s1, e1)` and `[s2, e2)` share a page.
pub open spec fn ranges_overlap(s1: u64, e1: u64, s2: u64, e2: u64) -> bool {
    s1 < e1 && s2 < e2 && s1 < e2 && s2 < e1
}

/// Distinct pages of the address space select distinct leaf entries.
pub proof fn lemma_valid_entries(a: u64, b: u64)
    requires
        vpn_valid(a),
        vpn_valid(b),
    ensures
        same_entry(a, b) <==> a == b,
{
    assert((a < 0x400_0000 || (0xf_ffff_fc00_0000 <= a && a <= 0xf_ffff_ffff_ffff)) && (b
        < 0x400_0000 || (0xf_ffff_fc00_0000 <= b && b <= 0xf_ffff_ffff_ffff)) ==> ((a
        % 0x800_0000 == b % 0x800_0000) <==> a == b)) by (bit_vector);
}

/// What an operation on an address space may do to the memory and the
/// allocator, when the address space had the frames `before` and has the
/// frames `after`: frames that were neither free nor its own keep their
/// contents and stay allocated, its new frames were free or its own, and
/// no frame is lost: the frames that are free afterwards are those that
/// were free or its own, without those that it has now.
pub open spec fn effect(
    before: Set<u64>,
    mem: &PhysMemory,
    allocator: &StackFrameAllocator,
    after: Set<u64>,
    mem2: &PhysMemory,
    allocator2: &StackFrameAllocator,
) -> bool {
    &&& mem2.wf()
    &&& mem2.base() == mem.base()
    &&& mem2.frame_count() == mem.frame_count()
    &&& allocator2.wf()
    &&& allocator2.range_start() == allocator.range_start()
    &&& allocator2.range_end() == allocator.range_end()
    &&& forall|f: u64|
        mem.has_frame(f) && !allocator.is_free(f) && !before.contains(f) ==> #[trigger] mem2@[f]
            == mem@[f]
    &&& forall|q: u64|
        #[trigger] allocator2.is_free(q) <==> (allocator.is_free(q) || before.contains(q))
            && !after.contains(q)
    &&& forall|f: u64| #[trigger] after.contains(f) ==> before.contains(f) || allocator.is_free(f)
}

/// An operation on one address space is an operation on that address space
/// and frames beside it, which are neither free nor its own and which it
/// leaves alone.
pub proof fn lemma_effect_frame(
    before: Set<u64>,
    mem: &PhysMemory,
    allocator: &StackFrameAllocator,
    after: Set<u64>,
    mem2: &PhysMemory,
    allocator2: &StackFrameAllocator,
    beside: Set<u64>,
)
    requires
        effect(before, mem, allocator, after, mem2, allocator2),
        forall|q: u64| beside.contains(q) ==> !allocator.is_free(q) && !before.contains(q),
    ensures
        effect(before.union(beside), mem, allocator, after.union(beside), mem2, allocator2),
{
    assert forall|q: u64|
        #[trigger] allocator2.is_free(q) <==> (allocator.is_free(q) || before.union(beside).contains(
            q,
        )) && !after.union(beside).contains(q) by {
        if beside.contains(q) {
            assert(!allocator.is_free(q) && !before.contains(q));
        }
    }
    assert forall|q: u64| #[trigger] allocator2.is_free(q) implies allocator.is_free(q)
        || before.union(beside).contains(q) by {
        if !allocator.is_free(q) {
            assert(before.contains(q));
        }
    }
    assert forall|f: u64| #[trigger] after.union(beside).contains(f) implies before.union(
        beside,
    ).contains(f) || allocator.is_free(f) by {
    }
}

/// Two operations in a row have the effect of one.
pub proof fn lemma_effect_trans(
    a: Set<u64>,
    mem: &PhysMemory,
    allocator: &StackFrameAllocator,
    b: Set<u64>,
    mem1: &PhysMemory,
    allocator1: &StackFrameAllocator,
    c: Set<u64>,
    mem2: &PhysMemory,
    allocator2: &StackFrameAllocator,
)
    requires
        effect(a, mem, allocator, b, mem1, allocator1),
        effect(b, mem1, allocator1, c, mem2, allocator2),
    ensures
        effect(a, mem, allocator, c, mem2, allocator2),
{
    assert forall|f: u64|
        mem.has_frame(f) && !allocator.is_free(f) && !a.contains(f) implies #[trigger] mem2@[f]
        == mem@[f] by {
        assert(mem1@[f] == mem@[f]);
        if b.contains(f) {
        }
        assert(mem2@[f] == mem1@[f]);
    }
    assert forall|q: u64| #[trigger] allocator2.is_free(q) implies allocator.is_free(q) || a.contains(
        q,
    ) by {
        if b.contains(q) {
        }
    }
    assert forall|f: u64| #[trigger] c.contains(f) implies a.contains(f) || allocator.is_free(f) by {
        if allocator1.is_free(f) {
        }
    }
}

/// A virtual memory area: a range of pages with one permission set and one
/// way of mapping.
pub struct MapArea {
    start: u64,
    end: u64,
    data_frames: Vec<u64>,
    map_type: MapType,
    map_perm: MapPermission,
}

impl MapArea {
    /// The first page of the area.
    pub closed spec fn start(&self) -> u64 {
        self.start
    }

    /// The page after the last one of the area.
    pub closed spec fn end(&self) -> u64 {
        self.end
    }

    /// The permission bits of the area.
    pub closed spec fn perm(&self) -> u8 {
        self.map_perm.bits
    }

    /// How the area is mapped.
    pub closed spec fn map_type(&self) -> MapType {
        self.map_type
    }

    /// The frames of a framed area, in the order of its pages.
    pub closed spec fn frames(&self) -> Seq<u64> {
        self.data_frames@
    }

    /// Whether `v` is a page of the area.
    pub open spec fn contains(&self, v: u64) -> bool {
        self.start() <= v < self.end()
    }

    /// The frame that the page `v` of the area is mapped to.
    pub open spec fn frame_of(&self, v: u64) -> u64 {
        match self.map_type() {
            MapType::Framed => self.frames()[v - self.start()],
            MapType::Identical => v,
        }
    }

    /// The page-table entry of the page `v` of the area.
    pub open spec fn entry_of(&self, v: u64) -> PageTableEntry {
        PageTableEntry { bits: pte_bits(self.frame_of(v), self.perm() | PTE_V) }
    }

    /// The range lies in one half of the address space, the permission bits
    /// are permission bits, and a framed area has one frame for each page. An
    /// identically mapped area is closed to user mode and ends below 2^44,
    /// so that its pages are frame numbers.
    pub open spec fn wf(&self) -> bool {
        &&& range_valid(self.start(), self.end())
        &&& perm_bits_valid(self.perm())
        &&& match self.map_type() {
            MapType::Framed => self.frames().len() == self.end() - self.start(),
            MapType::Identical => self.frames().len() == 0 && self.perm() & PERM_U == 0
                && self.end() <= 0x1000_0000_0000,
        }
    }

    /// Whether this is a framed area with the pages `[s, e)`.
    pub open spec fn is_framed_over(&self, s: u64, e: u64) -> bool {
        self.start() == s && self.end() == e && self.map_type() == MapType::Framed
    }

    /// The first page of the area.
    pub fn get_start(&self) -> (r: VirtPageNum)
        ensures
            r.0 == self.start(),
    {
        VirtPageNum(self.start)
    }

    /// The page after the last one of the area.
    pub fn get_end(&self) -> (r: VirtPageNum)
        ensures
            r.0 == self.end(),
    {
        VirtPageNum(self.end)
    }

    /// The permissions of the area.
    pub fn permission(&self) -> (r: MapPermission)
        ensures
            r.bits == self.perm(),
    {
        self.map_perm
    }

    /// How the area is mapped.
    pub fn kind(&self) -> (r: MapType)
        ensures
            r == self.map_type(),
    {
        self.map_type
    }
}

/// An address space: a page table, the areas mapped in it, and the
/// trampoline page if it is mapped.
pub struct MemorySet {
    page_table: PageTable,
    areas: Vec<MapArea>,
    trampoline: Option<u64>,
    image_end: u64,
}

impl MemorySet {
    /// The areas of the address space, in the order in which they were added.
    pub closed spec fn areas(&self) -> Seq<MapArea> {
        self.areas@
    }

    /// The page table of the address space.
    pub closed spec fn table(&self) -> PageTable {
        self.page_table
    }

    /// The frame that the trampoline page is mapped to, if it is mapped.
    pub closed spec fn trampoline(&self) -> Option<u64> {
        self.trampoline
    }

    /// The first page above the fixed part of the address space: the search
    /// for free pages starts here.
    pub closed spec fn image_end(&self) -> u64 {
        self.image_end
    }

    /// Whether the page `v` belongs to an area.
    pub open spec fn covered(&self, v: u64) -> bool {
        exists|i: int| 0 <= i < self.areas().len() && (#[trigger] self.areas()[i]).contains(v)
    }

    /// Whether a page of `[s, e)` belongs to an area.
    pub open spec fn any_covered(&self, s: u64, e: u64) -> bool {
        exists|v: u64| s <= v < e && self.covered(v)
    }

    /// Whether every page of `[s, e)` belongs to an area.
    pub open spec fn all_covered(&self, s: u64, e: u64) -> bool {
        forall|v: u64| s <= v < e ==> self.covered(v)
    }

    /// The frames that back the pages of the framed areas.
    pub open spec fn data_frames(&self) -> Set<u64> {
        Set::new(
            |f: u64|
                exists|i: int, k: int|
                    0 <= i < self.areas().len() && 0 <= k < self.areas()[i].frames().len()
                        && #[trigger] self.areas()[i].frames()[k] == f,
        )
    }

    /// All frames of the address space: those of its page table and those
    /// of its framed areas.
    pub open spec fn frames(&self) -> Set<u64> {
        self.table().frames().union(self.data_frames())
    }

    /// Whether every frame of the address space is allocated in `allocator`.
    pub open spec fn owned(&self, allocator: &StackFrameAllocator) -> bool {
        forall|f: u64| #[trigger] self.frames().contains(f) ==> allocator.is_allocated(f)
    }

    /// The translation of `vpn` in this address space.
    pub open spec fn lookup(&self, mem: &PhysMemory, vpn: u64) -> Option<PageTableEntry> {
        self.table().lookup(mem, vpn)
    }

    /// Whether `n` free pages start at `v`: above the fixed part, inside the
    /// lower half, and none of them in an area.
    pub open spec fn fits(&self, v: u64, n: nat) -> bool {
        &&& self.image_end() <= v
        &&& v + n <= HALF_PAGES
        &&& forall|u: u64| v <= u < v + n ==> !self.covered(u)
    }

    /// The areas are well formed and no two of them share a page.
    pub open spec fn areas_disjoint(&self) -> bool {
        &&& forall|i: int| 0 <= i < self.areas().len() ==> (#[trigger] self.areas()[i]).wf()
        &&& forall|i: int, j: int|
            0 <= i < self.areas().len() && 0 <= j < self.areas().len() && i != j
                ==> !ranges_overlap(
                (#[trigger] self.areas()[i]).start(),
                self.areas()[i].end(),
                (#[trigger] self.areas()[j]).start(),
                self.areas()[j].end(),
            )
    }

    /// The page table is a tree of frames of `mem`; the areas are disjoint;
    /// exactly the pages of the areas and the trampoline are mapped, each
    /// page of an area to its frame with the area's permissions; and the
    /// frames of the framed areas are distinct frames of `mem`, none of them
    /// a table.
    pub closed spec fn wf(&self, mem: &PhysMemory) -> bool {
        &&& self.page_table.wf(mem)
        &&& self.areas_disjoint()
        &&& self.image_end <= HALF_PAGES
        &&& forall|i: int, v: u64|
            0 <= i < self.areas@.len() && (#[trigger] self.areas@[i]).contains(v)
                ==> #[trigger] self.page_table.lookup(mem, v) == Some(self.areas@[i].entry_of(v))
        &&& forall|v: u64|
            vpn_valid(v) && (#[trigger] self.page_table.lookup(mem, v)) is Some ==> self.covered(v)
                || (v == TRAMPOLINE_VPN && self.trampoline is Some)
        &&& self.trampoline matches Some(p) ==> {
            &&& p < 0x1000_0000_0000
            &&& !self.covered(TRAMPOLINE_VPN)
            &&& self.page_table.lookup(mem, TRAMPOLINE_VPN) == Some(
                PageTableEntry { bits: pte_bits(p, PTE_R | PTE_X | PTE_V) },
            )
        }
        &&& forall|i: int, k: int|
            0 <= i < self.areas@.len() && 0 <= k < self.areas@[i].frames().len() ==> {
                let f = #[trigger] self.areas@[i].frames()[k];
                mem.has_frame(f) && !self.page_table.frames().contains(f)
            }
        &&& forall|i: int, k: int, j: int, l: int|
            0 <= i < self.areas@.len() && 0 <= k < self.areas@[i].frames().len() && 0 <= j
                < self.areas@.len() && 0 <= l < self.areas@[j].frames().len() && (i != j || k
                != l) ==> #[trigger] self.areas@[i].frames()[k] != #[trigger] self.areas@[j].frames()[l]
    }

    /// What well-formedness gives to the users of an address space.
    pub proof fn lemma_wf(&self, mem: &PhysMemory)
        requires
            self.wf(mem),
        ensures
            mem.wf(),
            self.table().wf(mem),
            self.areas_disjoint(),
            self.image_end() <= HALF_PAGES,
            forall|i: int, v: u64|
                0 <= i < self.areas().len() && (#[trigger] self.areas()[i]).contains(v)
                    ==> #[trigger] self.lookup(mem, v) == Some(self.areas()[i].entry_of(v)),
            forall|v: u64|
                vpn_valid(v) && (#[trigger] self.lookup(mem, v)) is Some ==> self.covered(v) || (v
                    == TRAMPOLINE_VPN && self.trampoline() is Some),
            self.trampoline() matches Some(p) ==> p < 0x1000_0000_0000 && !self.covered(
                TRAMPOLINE_VPN,
            ) && self.lookup(
                mem,
                TRAMPOLINE_VPN,
            ) == Some(PageTableEntry { bits: pte_bits(p, PTE_R | PTE_X | PTE_V) }),
            forall|f: u64| #[trigger] self.data_frames().contains(f) ==> mem.has_frame(f) && !self.table().frames().contains(f),
            forall|f: u64| #[trigger] self.table().frames().contains(f) ==> mem.has_frame(f),
            forall|i: int, k: int, j: int, l: int|
                0 <= i < self.areas().len() && 0 <= k < self.areas()[i].frames().len() && 0 <= j
                    < self.areas().len() && 0 <= l < self.areas()[j].frames().len() && (i != j || k
                    != l) ==> #[trigger] self.areas()[i].frames()[k] != #[trigger] self.areas()[j].frames()[l],
    {
        self.page_table.lemma_frames(mem);
        assert(self.page_table.wf(mem));
    }

    /// The translations depend on the frames of the page table only: a
    /// memory that agrees with `mem` on them gives the same address space.
    pub proof fn lemma_stable(&self, mem: &PhysMemory, mem2: &PhysMemory)
        requires
            self.wf(mem),
            mem2.wf(),
            mem2.base() == mem.base(),
            mem2.frame_count() == mem.frame_count(),
            forall|f: u64| #[trigger] self.table().frames().contains(f) ==> mem2@[f] == mem@[f],
        ensures
            self.wf(mem2),
            forall|v: u64| #[trigger] self.lookup(mem2, v) == self.lookup(mem, v),
    {
        self.page_table.lemma_frames(mem);
        assert forall|f: u64| #[trigger] self.page_table.frames().contains(f) implies mem2.has_frame(f)
            && mem2@[f] == mem@[f] by {
            assert(self.table().frames().contains(f));
            assert(mem.has_frame(f));
        }
        self.page_table.lemma_stable(mem, mem2);
    }

    /// An address space without areas. `None` when no frame is free for the
    /// root of its page table; nothing changes then.
    pub fn new_bare(mem: &mut PhysMemory, allocator: &mut StackFrameAllocator) -> (r: Option<Self>)
        requires
            old(mem).wf(),
            old(allocator).wf(),
            old(allocator).within(old(mem)),
        ensures
            final(mem).wf(),
            final(mem).base() == old(mem).base(),
            final(mem).frame_count() == old(mem).frame_count(),
            final(allocator).wf(),
            final(allocator).range_start() == old(allocator).range_start(),
            final(allocator).range_end() == old(allocator).range_end(),
            r is None <==> old(allocator).free_count() == 0,
            r is None ==> *final(allocator) == *old(allocator) && final(mem)@ == old(mem)@,
            r matches Some(ms) ==> {
                &&& ms.wf(final(mem))
                &&& ms.owned(final(allocator))
                &&& ms.areas().len() == 0
                &&& ms.trampoline() is None
                &&& ms.image_end() == 0
                &&& old(allocator).is_free(ms.table().root())
                &&& ms.frames() == set![ms.table().root()]
                &&& forall|v: u64| (#[trigger] ms.lookup(final(mem), v)) is None
                &&& forall|q: u64|
                    final(allocator).is_free(q) <==> old(allocator).is_free(q) && q
                        != ms.table().root()
                &&& final(allocator).free_count() == old(allocator).free_count() - 1
                &&& final(mem)@ == old(mem)@.insert(ms.table().root(), zero_frame())
                &&& effect(
                    Set::<u64>::empty(),
                    old(mem),
                    old(allocator),
                    ms.frames(),
                    final(mem),
                    final(allocator),
                )
            },
    {
        match PageTable::new(mem, allocator) {
            None => None,
            Some(page_table) => {
                let ms = MemorySet { page_table, areas: Vec::new(), trampoline: None, image_end: 0 };
                proof {
                    assert(ms.data_frames() =~= Set::<u64>::empty());
                    assert(ms.frames() =~= set![ms.table().root()]);
                    assert(final(allocator).allocated().contains(ms.table().root()));
                    assert forall|q: u64|
                        final(allocator).is_free(q) <==> old(allocator).is_free(q) && q
                            != ms.table().root() by {
                        old(allocator).lemma_free();
                        final(allocator).lemma_free();
                        if old(allocator).is_free(q) && q != ms.table().root() {
                            assert(!old(allocator).allocated().contains(q));
                            assert(!final(allocator).allocated().contains(q));
                        }
                        if final(allocator).is_free(q) {
                            assert(!final(allocator).allocated().contains(q));
                            assert(!old(allocator).allocated().contains(q));
                        }
                    }
                }
                Some(ms)
            },
        }
    }

    /// The value for the address-translation register that selects this
    /// address space.
    pub fn token(&self, mem: &PhysMemory) -> (r: u64)
        requires
            self.wf(mem),
        ensures
            r == 0x8000_0000_0000_0000 + self.table().root(),
    {
        proof {
            self.page_table.lemma_frames(mem);
            mem.lemma_view();
        }
        self.page_table.token()
    }

    /// The translation of `vpn`, if it is mapped.
    pub fn translate(&self, mem: &PhysMemory, vpn: VirtPageNum) -> (r: Option<PageTableEntry>)
        requires
            mem.wf(),
        ensures
            r == self.lookup(mem, vpn.0),
    {
        self.page_table.translate(mem, vpn)
    }

    /// The number of areas.
    pub fn area_count(&self) -> (r: usize)
        ensures
            r == self.areas().len(),
    {
        self.areas.len()
    }

    /// The area at position `i`.
    pub fn area(&self, i: usize) -> (r: &MapArea)
        requires
            i < self.areas().len(),
        ensures
            *r == self.areas()[i as int],
    {
        &self.areas[i]
    }

    /// The position of an area that shares a page with `[s, e)`.
    fn find_overlap(&self, s: u64, e: u64) -> (r: Option<usize>)
        ensures
            r matches Some(i) ==> i < self.areas().len() && ranges_overlap(
                self.areas()[i as int].start(),
                self.areas()[i as int].end(),
                s,
                e,
            ),
            r is None ==> forall|i: int|
                0 <= i < self.areas().len() ==> !ranges_overlap(
                    (#[trigger] self.areas()[i]).start(),
                    self.areas()[i].end(),
                    s,
                    e,
                ),
            r is Some <==> self.any_covered(s, e),
    {
        let mut i: usize = 0;
        while i < self.areas.len()
            invariant
                i <= self.areas@.len(),
                forall|k: int|
                    0 <= k < i ==> !ranges_overlap(
                        (#[trigger] self.areas@[k]).start(),
                        self.areas@[k].end(),
                        s,
                        e,
                    ),
            decreases self.areas@.len() - i,
        {
            let a = &self.areas[i];
            if a.start < a.end && s < e && a.start < e && s < a.end {
                proof {
                    let v: u64 = if s < a.start {
                        a.start
                    } else {
                        s
                    };
                    assert(self.areas()[i as int].contains(v));
                    assert(self.covered(v));
                }
                return Some(i);
            }
            i = i + 1;
        }
        proof {
            if self.any_covered(s, e) {
                let v = choose|v: u64| s <= v < e && self.covered(v);
                let k = choose|k: int| 0 <= k < self.areas().len() && (#[trigger] self.areas()[k]).contains(v);
                assert(ranges_overlap(self.areas@[k].start(), self.areas@[k].end(), s, e));
            }
        }
        None
    }

    /// The position of the area that holds the page `v`.
    fn find_containing(&self, v: u64) -> (r: Option<usize>)
        ensures
            r matches Some(i) ==> i < self.areas().len() && self.areas()[i as int].contains(v),
            r is Some <==> self.covered(v),
    {
        let mut i: usize = 0;
        while i < self.areas.len()
            invariant
                i <= self.areas@.len(),
                forall|k: int| 0 <= k < i ==> !(#[trigger] self.areas@[k]).contains(v),
            decreases self.areas@.len() - i,
        {
            let a = &self.areas[i];
            if a.start <= v && v < a.end {
                return Some(i);
            }
            i = i + 1;
        }
        None
    }

    /// Whether a page of the range from `start` up to `end` belongs to an
    /// area. The range is widened to whole pages.
    pub fn check_allocated(&self, start: VirtAddr, end: VirtAddr) -> (r: bool)
        ensures
            r == self.any_covered((start.0 / 4096) as u64, ((end.0 + 4095) / 4096) as u64),
    {
        let s = start.floor();
        let e = end.ceil();
        self.find_overlap(s.0, e.0).is_some()
    }

    /// Whether every page of the range from `start` up to `end` belongs to
    /// an area. The range is widened to whole pages.
    pub fn check_all_allocated(&self, start: VirtAddr, end: VirtAddr) -> (r: bool)
        ensures
            r == self.all_covered((start.0 / 4096) as u64, ((end.0 + 4095) / 4096) as u64),
    {
        let s: u64 = start.floor().0;
        let e: u64 = end.ceil().0;
        let mut cur: u64 = s;
        while cur < e
            invariant
                s <= cur,
                s == (start.0 / 4096) as u64,
                e == ((end.0 + 4095) / 4096) as u64,
                forall|v: u64| s <= v < cur && v < e ==> self.covered(v),
            decreases
                    (if cur < e {
                        e - cur
                    } else {
                        0
                    }),
        {
            match self.find_containing(cur) {
                None => {
                    return false;
                },
                Some(i) => {
                    let next: u64 = self.areas[i].end;
                    proof {
                        assert(self.areas()[i as int].contains(cur));
                        assert forall|v: u64| s <= v < next && v < e implies self.covered(v) by {
                            if v >= cur {
                                assert(self.areas()[i as int].contains(v));
                            }
                        }
                    }
                    cur = next;
                },
            }
        }
        true
    }

    /// The lowest page at which `page_count` free pages start: the first
    /// fit above the fixed part of the address space, inside its lower half.
    /// `None` when there is no such page.
    pub fn find_free_areas(&self, page_count: usize) -> (r: Option<VirtPageNum>)
        requires
            self.image_end() <= HALF_PAGES,
            forall|i: int| 0 <= i < self.areas().len() ==> (#[trigger] self.areas()[i]).wf(),
        ensures
            r matches Some(v) ==> self.fits(v.0, page_count as nat) && forall|u: u64|
                u < v.0 ==> !self.fits(u, page_count as nat),
            r is None ==> forall|u: u64| !self.fits(u, page_count as nat),
    {
        let n: u64 = page_count as u64;
        let mut cand: u64 = self.image_end;
        loop
            invariant
                self.image_end() <= cand <= HALF_PAGES,
                n == page_count,
                forall|i: int| 0 <= i < self.areas().len() ==> (#[trigger] self.areas()[i]).wf(),
                forall|u: u64| u < cand ==> !self.fits(u, n as nat),
            decreases HALF_PAGES - cand,
        {
            if n > HALF_PAGES - cand {
                return None;
            }
            match self.find_overlap(cand, cand + n) {
                None => {
                    proof {
                        assert forall|u: u64| cand <= u < cand + n implies !self.covered(u) by {
                            if self.covered(u) {
                                assert(self.any_covered(cand, (cand + n) as u64));
                            }
                        }
                    }
                    return Some(VirtPageNum(cand));
                },
                Some(i) => {
                    let next: u64 = self.areas[i].end;
                    proof {
                        let a = self.areas()[i as int];
                        assert(a.wf());
                        assert forall|u: u64| u < next implies !self.fits(u, n as nat) by {
                            if u >= cand && self.fits(u, n as nat) {
                                let w: u64 = if u < a.start() {
                                    a.start()
                                } else {
                                    u
                                };
                                assert(a.contains(w));
                                assert(self.covered(w));
                            }
                        }
                    }
                    cand = next;
                },
            }
        }
    }

    /// Adds a framed area over the pages that the range from `start_va` up to
    /// `end_va` touches, each page mapped to a fresh zeroed frame.
    ///
    /// Fails, and leaves the areas and all translations as they are, when
    /// the range is not valid, when one of its pages belongs to an area
    /// already or is the trampoline, or when the frames run out.
    pub fn insert_framed_area(
        &mut self,
        mem: &mut PhysMemory,
        allocator: &mut StackFrameAllocator,
        start_va: VirtAddr,
        end_va: VirtAddr,
        permission: MapPermission,
    ) -> (r: Result<(), AreaError>)
        requires
            old(self).wf(old(mem)),
            old(allocator).wf(),
            old(allocator).within(old(mem)),
            old(self).owned(old(allocator)),
            perm_bits_valid(permission.bits),
        ensures
            old(self).inserted(
                old(mem),
                old(allocator),
                final(self),
                final(mem),
                final(allocator),
                (start_va.0 / 4096) as u64,
                ((end_va.0 + 4095) / 4096) as u64,
                permission.bits,
                r,
            ),
    {
        self.insert_framed_pages(mem, allocator, start_va.floor(), end_va.ceil(), permission)
    }

    /// The number of frames that a framed area over the pages `[s, e)`
    /// takes: one for each page, and one for each table that the mappings of
    /// the pages, one after the other, have to add.
    pub open spec fn frames_for(&self, mem: &PhysMemory, s: u64, e: u64) -> nat {
        if s <= e {
            ((e - s) + self.table().tables_for(mem, s, e)) as nat
        } else {
            0
        }
    }

    /// What the insertion of a framed area over the pages `[s, e)` does to
    /// an address space, the memory and the allocator.
    pub open spec fn inserted(
        &self,
        mem: &PhysMemory,
        allocator: &StackFrameAllocator,
        now: &MemorySet,
        mem2: &PhysMemory,
        allocator2: &StackFrameAllocator,
        s: u64,
        e: u64,
        perm: u8,
        r: Result<(), AreaError>,
    ) -> bool {
        &&& now.wf(mem2)
        &&& now.owned(allocator2)
        &&& now.table().root() == self.table().root()
        &&& now.trampoline() == self.trampoline()
        &&& now.image_end() == self.image_end()
        &&& mem2.base() == mem.base()
        &&& mem2.frame_count() == mem.frame_count()
        &&& allocator2.wf()
        &&& allocator2.range_start() == allocator.range_start()
        &&& allocator2.range_end() == allocator.range_end()
        &&& forall|f: u64|
            mem.has_frame(f) && !allocator.is_free(f) && !self.table().frames().contains(f)
                ==> #[trigger] mem2@[f] == mem@[f]
        &&& forall|q: u64|
            allocator2.is_free(q) <==> allocator.is_free(q) && !now.frames().contains(q)
        &&& self.frames().subset_of(now.frames())
        &&& forall|f: u64| #[trigger]
            now.frames().contains(f) && !self.frames().contains(f) ==> allocator.is_free(f)
        &&& effect(self.frames(), mem, allocator, now.frames(), mem2, allocator2)
        &&& allocator2.free_count() <= allocator.free_count()
        &&& allocator2.free_count() + 3 * (e - s) >= allocator.free_count() || !range_valid(s, e)
        &&& r == Err::<(), AreaError>(AreaError::InvalidRange) <==> !range_valid(s, e)
        &&& r == Err::<(), AreaError>(AreaError::Overlap) <==> range_valid(s, e) && (
        self.any_covered(s, e) || (self.trampoline() is Some && s <= TRAMPOLINE_VPN < e))
        &&& r == Err::<(), AreaError>(AreaError::OutOfFrames) ==> allocator.free_count() < 3 * (e
            - s)
        &&& r == Err::<(), AreaError>(AreaError::OutOfFrames) <==> range_valid(s, e) && !(
        self.any_covered(s, e) || (self.trampoline() is Some && s <= TRAMPOLINE_VPN < e))
            && allocator.free_count() < self.frames_for(mem, s, e)
        &&& r != Err::<(), AreaError>(AreaError::NoSuchArea)
        &&& r is Err ==> {
            &&& now.areas() == self.areas()
            &&& forall|v: u64| vpn_valid(v) ==> #[trigger] now.lookup(mem2, v) == self.lookup(mem, v)
        }
        &&& r == Err::<(), AreaError>(AreaError::InvalidRange) || r == Err::<(), AreaError>(
            AreaError::Overlap,
        ) ==> *now == *self && *mem2 == *mem && *allocator2 == *allocator
        &&& r is Ok ==> {
            &&& now.areas().len() == self.areas().len() + 1
            &&& now.areas().drop_last() == self.areas()
            &&& now.areas().last().start() == s
            &&& now.areas().last().end() == e
            &&& now.areas().last().perm() == perm
            &&& now.areas().last().map_type() == MapType::Framed
            &&& forall|k: int|
                0 <= k < e - s ==> {
                    let f = #[trigger] now.areas().last().frames()[k];
                    allocator.is_free(f) && mem2@[f] == zero_frame()
                }
        }
    }

    /// Adds a framed area over the pages `[s, e)`, each page mapped to a
    /// fresh zeroed frame.
    pub fn insert_framed_pages(
        &mut self,
        mem: &mut PhysMemory,
        allocator: &mut StackFrameAllocator,
        s: VirtPageNum,
        e: VirtPageNum,
        permission: MapPermission,
    ) -> (r: Result<(), AreaError>)
        requires
            old(self).wf(old(mem)),
            old(allocator).wf(),
            old(allocator).within(old(mem)),
            old(self).owned(old(allocator)),
            perm_bits_valid(permission.bits),
        ensures
            old(self).inserted(
                old(mem),
                old(allocator),
                final(self),
                final(mem),
                final(allocator),
                s.0,
                e.0,
                permission.bits,
                r,
            ),
    {
        let s: u64 = s.0;
        let e: u64 = e.0;
        if !(s <= e && (e <= HALF_PAGES || (s >= UPPER_HALF_VPN && e <= TRAMPOLINE_VPN + 1))) {
            proof {
                self.lemma_keep(old(mem), old(allocator));
            }
            return Err(AreaError::InvalidRange);
        }
        if self.trampoline.is_some() && s <= TRAMPOLINE_VPN && TRAMPOLINE_VPN < e {
            proof {
                self.lemma_keep(old(mem), old(allocator));
            }
            return Err(AreaError::Overlap);
        }
        if self.find_overlap(s, e).is_some() {
            proof {
                self.lemma_keep(old(mem), old(allocator));
            }
            return Err(AreaError::Overlap);
        }
        proof {
            assert forall|u: u64| s <= u < e implies (#[trigger] self.page_table.lookup(mem, u)) is None by {
                assert(vpn_valid(u));
                if self.page_table.lookup(mem, u) is Some {
                    if self.covered(u) {
                        assert(self.any_covered(s, e));
                    }
                }
            }
            assert forall|f: u64| #[trigger] self.page_table.frames().contains(f) implies allocator.is_allocated(
                f,
            ) by {
                assert(self.frames().contains(f));
            }
        }
        match map_framed(&mut self.page_table, mem, allocator, s, e, permission.bits) {
            Err(_) => {
                proof {
                    old(self).lemma_grown(old(mem), old(allocator), self, mem, allocator);
                    self.lemma_wf(mem);
                    assert forall|f: u64|
                        old(mem).has_frame(f) && !old(allocator).is_free(f) && !old(self).frames().contains(f) implies #[trigger] mem@[f] == old(mem)@[f] by {
                        assert(!old(self).table().frames().contains(f));
                    }
                }
                Err(AreaError::OutOfFrames)
            },
            Ok(frames) => {
                let ghost fs = frames@;
                let ghost mid = *self;
                proof {
                    old(self).lemma_grown_mapped(
                        old(mem),
                        old(allocator),
                        &mid,
                        mem,
                        allocator,
                        s,
                        e,
                        fs,
                        |u: u64| PageTableEntry { bits: pte_bits(fs[u - s], permission.bits | PTE_V) },
                    );
                }
                let area = MapArea {
                    start: s,
                    end: e,
                    data_frames: frames,
                    map_type: MapType::Framed,
                    map_perm: permission,
                };
                self.areas.push(area);
                proof {
                    assert(self.areas@.drop_last() =~= old(self).areas@);
                    assert(self.areas@.last() == area);
                    mid.lemma_pushed(old(allocator), self, mem, allocator, area);
                    self.lemma_wf(mem);
                    assert forall|f: u64|
                        old(mem).has_frame(f) && !old(allocator).is_free(f) && !old(self).frames().contains(f) implies #[trigger] mem@[f] == old(mem)@[f] by {
                        assert(!old(self).table().frames().contains(f));
                    }
                }
                Ok(())
            },
        }
    }

    /// Free frames are no frames of the address space, and leaving all as it
    /// is has the effect of an operation.
    proof fn lemma_keep(&self, mem: &PhysMemory, allocator: &StackFrameAllocator)
        requires
            self.wf(mem),
            self.owned(allocator),
            allocator.wf(),
        ensures
            forall|q: u64| allocator.is_free(q) ==> !self.frames().contains(q),
            effect(self.frames(), mem, allocator, self.frames(), mem, allocator),
    {
        self.lemma_wf(mem);
        assert forall|q: u64| allocator.is_free(q) implies !self.frames().contains(q) by {
            if self.frames().contains(q) {
                assert(allocator.is_allocated(q));
            }
        }
    }

    /// When only the page table grew by frames that were free, and the
    /// valid pages translate as before, the address space is as before.
    proof fn lemma_grown(
        &self,
        mem: &PhysMemory,
        allocator: &StackFrameAllocator,
        now: &MemorySet,
        mem2: &PhysMemory,
        allocator2: &StackFrameAllocator,
    )
        requires
            self.wf(mem),
            self.owned(allocator),
            allocator.wf(),
            now.areas@ == self.areas@,
            now.trampoline == self.trampoline,
            now.image_end == self.image_end,
            now.page_table.wf(mem2),
            now.page_table.owned(allocator2),
            mem2.base() == mem.base(),
            mem2.frame_count() == mem.frame_count(),
            allocator2.wf(),
            allocator2.range_start() == allocator.range_start(),
            allocator2.range_end() == allocator.range_end(),
            self.page_table.frames().subset_of(now.page_table.frames()),
            forall|f: u64| #[trigger]
                now.page_table.frames().contains(f) && !self.page_table.frames().contains(f)
                    ==> allocator.is_free(f),
            forall|u: u64|
                vpn_valid(u) ==> #[trigger] now.page_table.lookup(mem2, u) == self.page_table.lookup(
                    mem,
                    u,
                ),
            forall|q: u64|
                allocator2.is_free(q) <==> allocator.is_free(q) && !now.page_table.frames().contains(
                    q,
                ),
        ensures
            now.wf(mem2),
            now.owned(allocator2),
            self.frames().subset_of(now.frames()),
            forall|q: u64| allocator2.is_free(q) <==> allocator.is_free(q) && !now.frames().contains(q),
            forall|f: u64| #[trigger]
                now.frames().contains(f) && !self.frames().contains(f) ==> allocator.is_free(f),
            forall|v: u64| vpn_valid(v) ==> #[trigger] now.lookup(mem2, v) == self.lookup(mem, v),
    {
        assert forall|v: u64| now.covered(v) == self.covered(v) by {
            if now.covered(v) {
                let i = choose|i: int| 0 <= i < now.areas().len() && (#[trigger] now.areas()[i]).contains(v);
                assert(self.areas()[i].contains(v));
            }
            if self.covered(v) {
                let i = choose|i: int| 0 <= i < self.areas().len() && (#[trigger] self.areas()[i]).contains(v);
                assert(now.areas()[i].contains(v));
            }
        }
        assert forall|i: int, v: u64|
            0 <= i < now.areas@.len() && (#[trigger] now.areas@[i]).contains(v) implies #[trigger] now.page_table.lookup(
            mem2,
            v,
        ) == Some(now.areas@[i].entry_of(v)) by {
            assert(self.areas()[i].wf());
            assert(vpn_valid(v));
            assert(self.page_table.lookup(mem, v) == Some(self.areas@[i].entry_of(v)));
        }
        assert forall|v: u64|
            vpn_valid(v) && (#[trigger] now.page_table.lookup(mem2, v)) is Some implies now.covered(v)
            || (v == TRAMPOLINE_VPN && now.trampoline is Some) by {
            assert(self.page_table.lookup(mem, v) is Some);
        }
        assert(now.data_frames() =~= self.data_frames());
        assert forall|i: int, k: int|
            0 <= i < now.areas@.len() && 0 <= k < now.areas@[i].frames().len() implies {
            let f = #[trigger] now.areas@[i].frames()[k];
            mem2.has_frame(f) && !now.page_table.frames().contains(f)
        } by {
            let f = now.areas@[i].frames()[k];
            assert(self.areas()[i].frames()[k] == f);
            assert(self.data_frames().contains(f));
            assert(self.frames().contains(f));
            assert(allocator.is_allocated(f));
        }
        assert forall|f: u64| #[trigger] now.frames().contains(f) implies allocator2.is_allocated(f) by {
            if now.page_table.frames().contains(f) {
            } else {
                assert(self.data_frames().contains(f));
                assert(self.frames().contains(f));
                assert(allocator.is_allocated(f));
            }
        }
        assert forall|q: u64| allocator2.is_free(q) <==> allocator.is_free(q) && !now.frames().contains(
            q,
        ) by {
            if now.data_frames().contains(q) {
                assert(self.frames().contains(q));
                assert(allocator.is_allocated(q));
            }
        }
    }

    /// As `lemma_grown`, when in addition the pages of `[s, e)`, which were
    /// not mapped, are now mapped to the fresh frames `fs`: what the wider
    /// address space with that area needs is there.
    proof fn lemma_grown_mapped(
        &self,
        mem: &PhysMemory,
        allocator: &StackFrameAllocator,
        now: &MemorySet,
        mem2: &PhysMemory,
        allocator2: &StackFrameAllocator,
        s: u64,
        e: u64,
        fs: Seq<u64>,
        entry: spec_fn(u64) -> PageTableEntry,
    )
        requires
            self.wf(mem),
            self.owned(allocator),
            allocator.wf(),
            range_valid(s, e),
            !self.any_covered(s, e),
            !(self.trampoline is Some && s <= TRAMPOLINE_VPN < e),
            now.areas@ == self.areas@,
            now.trampoline == self.trampoline,
            now.image_end == self.image_end,
            now.page_table.wf(mem2),
            now.page_table.owned(allocator2),
            mem2.base() == mem.base(),
            mem2.frame_count() == mem.frame_count(),
            allocator2.wf(),
            allocator2.range_start() == allocator.range_start(),
            allocator2.range_end() == allocator.range_end(),
            self.page_table.frames().subset_of(now.page_table.frames()),
            forall|f: u64| #[trigger]
                now.page_table.frames().contains(f) && !self.page_table.frames().contains(f)
                    ==> allocator.is_free(f),
            fs.no_duplicates(),
            forall|k: int|
                0 <= k < fs.len() ==> {
                    let f = #[trigger] fs[k];
                    &&& allocator.is_free(f)
                    &&& mem2.has_frame(f)
                    &&& !now.page_table.frames().contains(f)
                },
            forall|u: u64|
                vpn_valid(u) ==> #[trigger] now.page_table.lookup(mem2, u) == if s <= u < e {
                    Some(entry(u))
                } else {
                    self.page_table.lookup(mem, u)
                },
            forall|q: u64|
                allocator2.is_free(q) <==> allocator.is_free(q) && !now.page_table.frames().contains(
                    q,
                ) && !fs.contains(q),
        ensures
            now.page_table.wf(mem2),
            now.areas_disjoint(),
            now.image_end <= HALF_PAGES,
            forall|i: int, v: u64|
                0 <= i < now.areas@.len() && (#[trigger] now.areas@[i]).contains(v)
                    ==> #[trigger] now.page_table.lookup(mem2, v) == Some(now.areas@[i].entry_of(v)),
            forall|v: u64|
                vpn_valid(v) && (#[trigger] now.page_table.lookup(mem2, v)) is Some ==> now.covered(v)
                    || (v == TRAMPOLINE_VPN && now.trampoline is Some) || s <= v < e,
            now.trampoline matches Some(p) ==> {
                &&& p < 0x1000_0000_0000
                &&& !now.covered(TRAMPOLINE_VPN)
                &&& now.page_table.lookup(mem2, TRAMPOLINE_VPN) == Some(
                    PageTableEntry { bits: pte_bits(p, PTE_R | PTE_X | PTE_V) },
                )
            },
            forall|i: int, k: int|
                0 <= i < now.areas@.len() && 0 <= k < now.areas@[i].frames().len() ==> {
                    let f = #[trigger] now.areas@[i].frames()[k];
                    mem2.has_frame(f) && !now.page_table.frames().contains(f) && !fs.contains(f)
                        && allocator.is_allocated(f)
                },
            forall|i: int, k: int, j: int, l: int|
                0 <= i < now.areas@.len() && 0 <= k < now.areas@[i].frames().len() && 0 <= j
                    < now.areas@.len() && 0 <= l < now.areas@[j].frames().len() && (i != j || k
                    != l) ==> #[trigger] now.areas@[i].frames()[k] != #[trigger] now.areas@[j].frames()[l],
            forall|i: int|
                0 <= i < now.areas@.len() ==> !ranges_overlap(
                    (#[trigger] now.areas@[i]).start(),
                    now.areas@[i].end(),
                    s,
                    e,
                ),
            self.frames().subset_of(now.frames()),
            forall|f: u64| #[trigger]
                now.frames().contains(f) && !self.frames().contains(f) ==> allocator.is_free(f),
    {
        assert(now.data_frames() =~= self.data_frames());
        assert forall|v: u64| now.covered(v) == self.covered(v) by {
            if now.covered(v) {
                let i = choose|i: int| 0 <= i < now.areas().len() && (#[trigger] now.areas()[i]).contains(v);
                assert(self.areas()[i].contains(v));
            }
            if self.covered(v) {
                let i = choose|i: int| 0 <= i < self.areas().len() && (#[trigger] self.areas()[i]).contains(v);
                assert(now.areas()[i].contains(v));
            }
        }
        assert forall|i: int|
            0 <= i < now.areas@.len() implies !ranges_overlap(
            (#[trigger] now.areas@[i]).start(),
            now.areas@[i].end(),
            s,
            e,
        ) by {
            let a = now.areas@[i];
            if ranges_overlap(a.start(), a.end(), s, e) {
                let v: u64 = if s < a.start() {
                    a.start()
                } else {
                    s
                };
                assert(self.areas()[i].contains(v));
                assert(self.covered(v));
                assert(self.any_covered(s, e));
            }
        }
        assert forall|i: int, v: u64|
            0 <= i < now.areas@.len() && (#[trigger] now.areas@[i]).contains(v) implies #[trigger] now.page_table.lookup(
            mem2,
            v,
        ) == Some(now.areas@[i].entry_of(v)) by {
            assert(self.areas()[i].wf());
            assert(vpn_valid(v));
            assert(self.page_table.lookup(mem, v) == Some(self.areas@[i].entry_of(v)));
            if s <= v < e {
                assert(self.covered(v));
                assert(self.any_covered(s, e));
            }
        }
        assert forall|v: u64|
            vpn_valid(v) && (#[trigger] now.page_table.lookup(mem2, v)) is Some implies now.covered(v)
            || (v == TRAMPOLINE_VPN && now.trampoline is Some) || s <= v < e by {
            if !(s <= v < e) {
                assert(self.page_table.lookup(mem, v) is Some);
            }
        }
        assert forall|i: int, k: int|
            0 <= i < now.areas@.len() && 0 <= k < now.areas@[i].frames().len() implies {
            let f = #[trigger] now.areas@[i].frames()[k];
            mem2.has_frame(f) && !now.page_table.frames().contains(f) && !fs.contains(f)
                && allocator.is_allocated(f)
        } by {
            let f = now.areas@[i].frames()[k];
            assert(self.areas()[i].frames()[k] == f);
            assert(self.data_frames().contains(f));
            assert(self.frames().contains(f));
            assert(allocator.is_allocated(f));
            if fs.contains(f) {
                let j = choose|j: int| 0 <= j < fs.len() && fs[j] == f;
                assert(allocator.is_free(fs[j]));
            }
        }
    }

    /// Adding an area whose pages are mapped to fresh frames to an address
    /// space that is otherwise in order gives an address space in order.
    proof fn lemma_pushed(
        &self,
        before: &StackFrameAllocator,
        now: &MemorySet,
        mem: &PhysMemory,
        allocator: &StackFrameAllocator,
        area: MapArea,
    )
        requires
            now.areas@ == self.areas@.push(area),
            now.page_table == self.page_table,
            now.trampoline == self.trampoline,
            now.image_end == self.image_end,
            area.wf(),
            before.wf(),
            allocator.wf(),
            allocator.range_start() == before.range_start(),
            allocator.range_end() == before.range_end(),
            !(self.trampoline is Some && area.start <= TRAMPOLINE_VPN < area.end),
            self.page_table.wf(mem),
            self.page_table.owned(allocator),
            self.areas_disjoint(),
            self.image_end <= HALF_PAGES,
            area.data_frames@.no_duplicates(),
            forall|k: int|
                0 <= k < area.data_frames@.len() ==> {
                    let f = #[trigger] area.data_frames@[k];
                    &&& before.is_free(f)
                    &&& mem.has_frame(f)
                    &&& !self.page_table.frames().contains(f)
                },
            forall|u: u64|
                area.start <= u < area.end ==> #[trigger] self.page_table.lookup(mem, u) == Some(
                    area.entry_of(u),
                ),
            forall|i: int, v: u64|
                0 <= i < self.areas@.len() && (#[trigger] self.areas@[i]).contains(v)
                    ==> #[trigger] self.page_table.lookup(mem, v) == Some(self.areas@[i].entry_of(v)),
            forall|v: u64|
                vpn_valid(v) && (#[trigger] self.page_table.lookup(mem, v)) is Some ==> self.covered(v)
                    || (v == TRAMPOLINE_VPN && self.trampoline is Some) || area.start <= v
                    < area.end,
            self.trampoline matches Some(p) ==> {
                &&& p < 0x1000_0000_0000
                &&& !self.covered(TRAMPOLINE_VPN)
                &&& self.page_table.lookup(mem, TRAMPOLINE_VPN) == Some(
                    PageTableEntry { bits: pte_bits(p, PTE_R | PTE_X | PTE_V) },
                )
            },
            forall|i: int, k: int|
                0 <= i < self.areas@.len() && 0 <= k < self.areas@[i].frames().len() ==> {
                    let f = #[trigger] self.areas@[i].frames()[k];
                    mem.has_frame(f) && !self.page_table.frames().contains(f)
                        && !area.data_frames@.contains(f) && before.is_allocated(f)
                },
            forall|i: int, k: int, j: int, l: int|
                0 <= i < self.areas@.len() && 0 <= k < self.areas@[i].frames().len() && 0 <= j
                    < self.areas@.len() && 0 <= l < self.areas@[j].frames().len() && (i != j || k
                    != l) ==> #[trigger] self.areas@[i].frames()[k] != #[trigger] self.areas@[j].frames()[l],
            forall|i: int|
                0 <= i < self.areas@.len() ==> !ranges_overlap(
                    (#[trigger] self.areas@[i]).start(),
                    self.areas@[i].end(),
                    area.start,
                    area.end,
                ),
            forall|q: u64|
                allocator.is_free(q) <==> before.is_free(q) && !self.page_table.frames().contains(q)
                    && !area.data_frames@.contains(q),
        ensures
            now.wf(mem),
            now.owned(allocator),
            self.frames().subset_of(now.frames()),
            forall|q: u64| allocator.is_free(q) <==> before.is_free(q) && !now.frames().contains(q),
            forall|f: u64| #[trigger]
                now.frames().contains(f) && !self.frames().contains(f) ==> before.is_free(f),
    {
        let n = self.areas@.len() as int;
        assert(now.areas@[n] == area);
        assert forall|i: int| 0 <= i < n implies now.areas@[i] == self.areas@[i] by {}
        assert forall|v: u64| now.covered(v) == (self.covered(v) || area.contains(v)) by {
            if now.covered(v) {
                let i = choose|i: int| 0 <= i < now.areas().len() && (#[trigger] now.areas()[i]).contains(v);
                if i < n {
                    assert(self.areas()[i].contains(v));
                }
            }
            if self.covered(v) {
                let i = choose|i: int| 0 <= i < self.areas().len() && (#[trigger] self.areas()[i]).contains(v);
                assert(now.areas()[i].contains(v));
            }
            if area.contains(v) {
                assert(now.areas()[n].contains(v));
            }
        }
        assert(now.areas_disjoint()) by {
            assert forall|i: int| 0 <= i < now.areas().len() implies (#[trigger] now.areas()[i]).wf() by {
                if i < n {
                    assert(self.areas()[i].wf());
                }
            }
            assert forall|i: int, j: int|
                0 <= i < now.areas().len() && 0 <= j < now.areas().len() && i != j implies !ranges_overlap(
                (#[trigger] now.areas()[i]).start(),
                now.areas()[i].end(),
                (#[trigger] now.areas()[j]).start(),
                now.areas()[j].end(),
            ) by {
                if i < n && j < n {
                    assert(!ranges_overlap(
                        self.areas()[i].start(),
                        self.areas()[i].end(),
                        self.areas()[j].start(),
                        self.areas()[j].end(),
                    ));
                } else if i < n {
                    assert(!ranges_overlap(
                        self.areas@[i].start(),
                        self.areas@[i].end(),
                        area.start,
                        area.end,
                    ));
                } else {
                    assert(!ranges_overlap(
                        self.areas@[j].start(),
                        self.areas@[j].end(),
                        area.start,
                        area.end,
                    ));
                }
            }
        }
        assert forall|i: int, v: u64|
            0 <= i < now.areas@.len() && (#[trigger] now.areas@[i]).contains(v) implies #[trigger] now.page_table.lookup(
            mem,
            v,
        ) == Some(now.areas@[i].entry_of(v)) by {
            if i < n {
                assert(self.areas@[i].contains(v));
            }
        }
        assert forall|i: int, k: int|
            0 <= i < now.areas@.len() && 0 <= k < now.areas@[i].frames().len() implies {
            let f = #[trigger] now.areas@[i].frames()[k];
            mem.has_frame(f) && !now.page_table.frames().contains(f)
        } by {
            if i < n {
                let f = self.areas@[i].frames()[k];
            } else {
                let f = area.data_frames@[k];
            }
        }
        assert forall|i: int, k: int, j: int, l: int|
            0 <= i < now.areas@.len() && 0 <= k < now.areas@[i].frames().len() && 0 <= j
                < now.areas@.len() && 0 <= l < now.areas@[j].frames().len() && (i != j || k
                != l) implies #[trigger] now.areas@[i].frames()[k] != #[trigger] now.areas@[j].frames()[l] by {
            if i < n && j < n {
                assert(self.areas@[i].frames()[k] != self.areas@[j].frames()[l]);
            } else if i < n {
                let f = self.areas@[i].frames()[k];
                assert(!area.data_frames@.contains(f));
                assert(area.data_frames@[l] != f);
            } else if j < n {
                let f = self.areas@[j].frames()[l];
                assert(!area.data_frames@.contains(f));
                assert(area.data_frames@[k] != f);
            } else {
                assert(area.data_frames@[k] != area.data_frames@[l]);
            }
        }
        before.lemma_free();
        assert forall|f: u64| now.data_frames().contains(f) <==> self.data_frames().contains(f)
            || area.data_frames@.contains(f) by {
            if now.data_frames().contains(f) {
                let (i, k) = choose|i: int, k: int|
                    0 <= i < now.areas().len() && 0 <= k < now.areas()[i].frames().len()
                        && #[trigger] now.areas()[i].frames()[k] == f;
                if i < n {
                    assert(self.areas()[i].frames()[k] == f);
                } else {
                    assert(area.data_frames@[k] == f);
                }
            }
            if self.data_frames().contains(f) {
                let (i, k) = choose|i: int, k: int|
                    0 <= i < self.areas().len() && 0 <= k < self.areas()[i].frames().len()
                        && #[trigger] self.areas()[i].frames()[k] == f;
                assert(now.areas()[i].frames()[k] == f);
            }
            if area.data_frames@.contains(f) {
                let k = choose|k: int| 0 <= k < area.data_frames@.len() && area.data_frames@[k] == f;
                assert(now.areas()[n].frames()[k] == f);
            }
        }
        assert forall|f: u64| #[trigger] now.frames().contains(f) implies allocator.is_allocated(f) by {
            if now.page_table.frames().contains(f) {
            } else if area.data_frames@.contains(f) {
                let k = choose|k: int| 0 <= k < area.data_frames@.len() && area.data_frames@[k] == f;
                assert(before.is_free(area.data_frames@[k]));
            } else {
                let (i, k) = choose|i: int, k: int|
                    0 <= i < self.areas().len() && 0 <= k < self.areas()[i].frames().len()
                        && #[trigger] self.areas()[i].frames()[k] == f;
                assert(before.is_allocated(self.areas@[i].frames()[k]));
            }
        }
        assert forall|q: u64| allocator.is_free(q) <==> before.is_free(q) && !now.frames().contains(q) by {
            if self.data_frames().contains(q) {
                let (i, k) = choose|i: int, k: int|
                    0 <= i < self.areas().len() && 0 <= k < self.areas()[i].frames().len()
                        && #[trigger] self.areas()[i].frames()[k] == q;
                assert(before.is_allocated(self.areas@[i].frames()[k]));
            }
        }
    }

    /// Takes the area at position `idx` out of the address space: unmaps its
    /// pages and gives the frames of a framed area back.
    fn remove_area(&mut self, mem: &mut PhysMemory, allocator: &mut StackFrameAllocator, idx: usize)
        requires
            old(self).wf(old(mem)),
            old(allocator).wf(),
            old(self).owned(old(allocator)),
            idx < old(self).areas().len(),
        ensures
            final(self).wf(final(mem)),
            final(self).owned(final(allocator)),
            final(self).table() == old(self).table(),
            final(self).trampoline() == old(self).trampoline(),
            final(self).image_end() == old(self).image_end(),
            final(self).areas() == old(self).areas().remove(idx as int),
            final(mem).base() == old(mem).base(),
            final(mem).frame_count() == old(mem).frame_count(),
            final(allocator).wf(),
            final(allocator).range_start() == old(allocator).range_start(),
            final(allocator).range_end() == old(allocator).range_end(),
            forall|v: u64|
                vpn_valid(v) ==> #[trigger] final(self).lookup(final(mem), v) == if old(self).areas()[idx as int].contains(v) {
                    None
                } else {
                    old(self).lookup(old(mem), v)
                },
            forall|f: u64|
                old(mem).has_frame(f) && !old(self).table().frames().contains(f) ==> #[trigger] final(mem)@[f]
                    == old(mem)@[f],
            forall|q: u64|
                final(allocator).is_free(q) <==> old(allocator).is_free(q) || old(self).areas()[idx as int].frames().contains(q),
            final(allocator).free_count() == old(allocator).free_count() + old(self).areas()[idx as int].frames().len(),
            effect(
                old(self).frames(),
                old(mem),
                old(allocator),
                final(self).frames(),
                final(mem),
                final(allocator),
            ),
    {
        proof {
            assert(self.areas()[idx as int].wf());
        }
        let area = self.areas.remove(idx);
        proof {
            assert forall|u: u64| area.start <= u < area.end implies (#[trigger] self.page_table.lookup(
                mem,
                u,
            )) is Some by {
                assert(old(self).areas@[idx as int].contains(u));
            }
        }
        match area.map_type {
            MapType::Framed => {
                proof {
                    assert forall|k: int| 0 <= k < area.data_frames@.len() implies allocator.is_allocated(
                        #[trigger] area.data_frames@[k],
                    ) by {
                        let f = old(self).areas()[idx as int].frames()[k];
                        assert(old(self).data_frames().contains(f));
                        assert(old(self).frames().contains(f));
                    }
                    assert forall|k: int, j: int|
                        0 <= k < area.data_frames@.len() && 0 <= j < area.data_frames@.len() && k
                            != j implies area.data_frames@[k] != area.data_frames@[j] by {
                        assert(old(self).areas@[idx as int].frames()[k] != old(self).areas@[idx as int].frames()[j]);
                    }
                }
                unmap_framed(
                    &mut self.page_table,
                    mem,
                    allocator,
                    area.start,
                    &area.data_frames,
                    area.data_frames.len(),
                );
                proof {
                    assert forall|q: u64|
                        allocator.is_free(q) <==> old(allocator).is_free(q)
                            || area.data_frames@.contains(q) by {
                        if area.data_frames@.contains(q) {
                            let k = choose|k: int| 0 <= k < area.data_frames@.len() && area.data_frames@[k] == q;
                            assert(area.data_frames@[k] == q);
                        }
                    }
                }
            },
            MapType::Identical => {
                unmap_range(&mut self.page_table, mem, area.start, area.end);
                proof {
                    assert forall|q: u64|
                        allocator.is_free(q) <==> old(allocator).is_free(q)
                            || area.data_frames@.contains(q) by {}
                }
            },
        }
        proof {
            old(self).lemma_removed(old(mem), old(allocator), self, mem, allocator, idx as int);
            self.lemma_wf(mem);
            assert forall|f: u64|
                old(mem).has_frame(f) && !old(allocator).is_free(f) && !old(self).frames().contains(
                    f,
                ) implies #[trigger] mem@[f] == old(mem)@[f] by {
                assert(!old(self).table().frames().contains(f));
            }
            assert forall|q: u64|
                #[trigger] allocator.is_free(q) <==> (old(allocator).is_free(q) || old(self).frames().contains(
                    q,
                )) && !self.frames().contains(q) by {
                let gone = old(self).areas()[idx as int];
                if self.frames().contains(q) {
                    assert(allocator.is_allocated(q));
                }
                if old(self).frames().contains(q) {
                    assert(old(allocator).is_allocated(q));
                }
                if gone.frames().contains(q) {
                    let k = choose|k: int| 0 <= k < gone.frames().len() && gone.frames()[k] == q;
                    assert(old(self).areas()[idx as int].frames()[k] == q);
                    assert(old(self).data_frames().contains(q));
                }
                if old(self).data_frames().contains(q) && !gone.frames().contains(q) {
                    let (i, k) = choose|i: int, k: int|
                        0 <= i < old(self).areas().len() && 0 <= k < old(self).areas()[i].frames().len()
                            && #[trigger] old(self).areas()[i].frames()[k] == q;
                    if i == idx {
                        assert(gone.frames()[k] == q);
                    }
                    let j = if i < idx {
                        i
                    } else {
                        i - 1
                    };
                    assert(self.areas()[j] == old(self).areas()[i]);
                    assert(self.areas()[j].frames()[k] == q);
                    assert(self.data_frames().contains(q));
                }
            }
        }
    }

    /// Taking out an area whose pages were unmapped and whose frames were
    /// given back leaves an address space in order.
    proof fn lemma_removed(
        &self,
        mem: &PhysMemory,
        allocator: &StackFrameAllocator,
        now: &MemorySet,
        mem2: &PhysMemory,
        allocator2: &StackFrameAllocator,
        idx: int,
    )
        requires
            self.wf(mem),
            self.owned(allocator),
            allocator.wf(),
            0 <= idx < self.areas@.len(),
            now.areas@ == self.areas@.remove(idx),
            now.page_table == self.page_table,
            now.trampoline == self.trampoline,
            now.image_end == self.image_end,
            now.page_table.wf(mem2),
            mem2.base() == mem.base(),
            mem2.frame_count() == mem.frame_count(),
            allocator2.wf(),
            allocator2.range_start() == allocator.range_start(),
            allocator2.range_end() == allocator.range_end(),
            forall|u: u64|
                vpn_valid(u) ==> #[trigger] now.page_table.lookup(mem2, u) == if self.areas@[idx].contains(
                    u,
                ) {
                    None
                } else {
                    self.page_table.lookup(mem, u)
                },
            forall|q: u64|
                allocator2.is_free(q) <==> allocator.is_free(q) || self.areas@[idx].frames().contains(
                    q,
                ),
        ensures
            now.wf(mem2),
            now.owned(allocator2),
            now.frames().subset_of(self.frames()),
            forall|q: u64| #[trigger] self.areas@[idx].frames().contains(q) ==> self.frames().contains(q),
    {
        let n = now.areas@.len() as int;
        let gone = self.areas@[idx];
        assert forall|f: u64| now.data_frames().contains(f) implies self.data_frames().contains(f) by {
            let (i, k) = choose|i: int, k: int|
                0 <= i < now.areas().len() && 0 <= k < now.areas()[i].frames().len()
                    && #[trigger] now.areas()[i].frames()[k] == f;
            let i2 = if i < idx {
                i
            } else {
                i + 1
            };
            assert(now.areas@[i] == self.areas@[i2]);
            assert(self.areas()[i2].frames()[k] == f);
        }
        assert forall|q: u64| #[trigger] self.areas@[idx].frames().contains(q) implies self.frames().contains(
            q,
        ) by {
            let k = choose|k: int| 0 <= k < gone.frames().len() && gone.frames()[k] == q;
            assert(self.areas()[idx].frames()[k] == q);
            assert(self.data_frames().contains(q));
        }
        assert forall|i: int| 0 <= i < n implies now.areas@[i] == self.areas@[if i < idx {
            i
        } else {
            i + 1
        }] by {}
        assert forall|v: u64| self.covered(v) == (now.covered(v) || gone.contains(v)) by {
            if now.covered(v) {
                let i = choose|i: int| 0 <= i < now.areas().len() && (#[trigger] now.areas()[i]).contains(v);
                let i2 = if i < idx {
                    i
                } else {
                    i + 1
                };
                assert(self.areas()[i2].contains(v));
            }
            if self.covered(v) {
                let i = choose|i: int| 0 <= i < self.areas().len() && (#[trigger] self.areas()[i]).contains(v);
                if i != idx {
                    let i2 = if i < idx {
                        i
                    } else {
                        i - 1
                    };
                    assert(now.areas()[i2].contains(v));
                }
            }
            if gone.contains(v) {
                assert(self.areas()[idx].contains(v));
            }
        }
        assert(now.areas_disjoint()) by {
            assert forall|i: int| 0 <= i < now.areas().len() implies (#[trigger] now.areas()[i]).wf() by {
                let i2 = if i < idx {
                    i
                } else {
                    i + 1
                };
                assert(self.areas()[i2].wf());
            }
            assert forall|i: int, j: int|
                0 <= i < now.areas().len() && 0 <= j < now.areas().len() && i != j implies !ranges_overlap(
                (#[trigger] now.areas()[i]).start(),
                now.areas()[i].end(),
                (#[trigger] now.areas()[j]).start(),
                now.areas()[j].end(),
            ) by {
                let i2 = if i < idx {
                    i
                } else {
                    i + 1
                };
                let j2 = if j < idx {
                    j
                } else {
                    j + 1
                };
                assert(!ranges_overlap(
                    self.areas()[i2].start(),
                    self.areas()[i2].end(),
                    self.areas()[j2].start(),
                    self.areas()[j2].end(),
                ));
            }
        }
        assert forall|i: int, v: u64|
            0 <= i < now.areas@.len() && (#[trigger] now.areas@[i]).contains(v) implies #[trigger] now.page_table.lookup(
            mem2,
            v,
        ) == Some(now.areas@[i].entry_of(v)) by {
            let i2 = if i < idx {
                i
            } else {
                i + 1
            };
            assert(self.areas()[i2].wf());
            assert(self.areas@[i2].contains(v));
            assert(vpn_valid(v));
            assert(self.page_table.lookup(mem, v) == Some(self.areas@[i2].entry_of(v)));
            if gone.contains(v) {
                assert(ranges_overlap(
                    self.areas()[i2].start(),
                    self.areas()[i2].end(),
                    self.areas()[idx].start(),
                    self.areas()[idx].end(),
                ));
            }
        }
        assert forall|v: u64|
            vpn_valid(v) && (#[trigger] now.page_table.lookup(mem2, v)) is Some implies now.covered(v)
            || (v == TRAMPOLINE_VPN && now.trampoline is Some) by {
            assert(self.page_table.lookup(mem, v) is Some);
        }
        if now.trampoline is Some {
            assert(vpn_valid(TRAMPOLINE_VPN));
            assert(!self.covered(TRAMPOLINE_VPN));
        }
        assert forall|i: int, k: int|
            0 <= i < now.areas@.len() && 0 <= k < now.areas@[i].frames().len() implies {
            let f = #[trigger] now.areas@[i].frames()[k];
            mem2.has_frame(f) && !now.page_table.frames().contains(f)
        } by {
            let i2 = if i < idx {
                i
            } else {
                i + 1
            };
            let f = self.areas@[i2].frames()[k];
        }
        assert forall|i: int, k: int, j: int, l: int|
            0 <= i < now.areas@.len() && 0 <= k < now.areas@[i].frames().len() && 0 <= j
                < now.areas@.len() && 0 <= l < now.areas@[j].frames().len() && (i != j || k
                != l) implies #[trigger] now.areas@[i].frames()[k] != #[trigger] now.areas@[j].frames()[l] by {
            let i2 = if i < idx {
                i
            } else {
                i + 1
            };
            let j2 = if j < idx {
                j
            } else {
                j + 1
            };
            assert(self.areas@[i2].frames()[k] != self.areas@[j2].frames()[l]);
        }
        assert forall|f: u64| #[trigger] now.frames().contains(f) implies allocator2.is_allocated(f) by {
            if now.page_table.frames().contains(f) {
                assert(self.frames().contains(f));
                assert(allocator.is_allocated(f));
                if gone.frames().contains(f) {
                    let k = choose|k: int| 0 <= k < gone.frames().len() && gone.frames()[k] == f;
                    let g = self.areas@[idx].frames()[k];
                }
            } else {
                let (i, k) = choose|i: int, k: int|
                    0 <= i < now.areas().len() && 0 <= k < now.areas()[i].frames().len()
                        && #[trigger] now.areas()[i].frames()[k] == f;
                let i2 = if i < idx {
                    i
                } else {
                    i + 1
                };
                assert(self.areas()[i2].frames()[k] == f);
                assert(self.data_frames().contains(f));
                assert(self.frames().contains(f));
                assert(allocator.is_allocated(f));
                if gone.frames().contains(f) {
                    let l = choose|l: int| 0 <= l < gone.frames().len() && gone.frames()[l] == f;
                    assert(self.areas@[i2].frames()[k] != self.areas@[idx].frames()[l]);
                }
            }
        }
    }

    /// Takes out the framed area whose pages are exactly those that the
    /// range from `start_va` up to `end_va` touches: unmaps them and gives
    /// their frames back. Where several areas have that range, which can
    /// only be empty then, the first one goes.
    ///
    /// Fails with `NoSuchArea`, and changes nothing, when no framed area has
    /// that range.
    pub fn delete_framed_area(
        &mut self,
        mem: &mut PhysMemory,
        allocator: &mut StackFrameAllocator,
        start_va: VirtAddr,
        end_va: VirtAddr,
    ) -> (r: Result<(), AreaError>)
        requires
            old(self).wf(old(mem)),
            old(allocator).wf(),
            old(self).owned(old(allocator)),
        ensures
            final(self).wf(final(mem)),
            final(self).owned(final(allocator)),
            final(self).table() == old(self).table(),
            final(self).trampoline() == old(self).trampoline(),
            final(self).image_end() == old(self).image_end(),
            final(mem).base() == old(mem).base(),
            final(mem).frame_count() == old(mem).frame_count(),
            final(allocator).wf(),
            final(allocator).range_start() == old(allocator).range_start(),
            final(allocator).range_end() == old(allocator).range_end(),
            forall|f: u64|
                old(mem).has_frame(f) && !old(self).table().frames().contains(f) ==> #[trigger] final(mem)@[f]
                    == old(mem)@[f],
            effect(
                old(self).frames(),
                old(mem),
                old(allocator),
                final(self).frames(),
                final(mem),
                final(allocator),
            ),
            ({
                let s = (start_va.0 / 4096) as u64;
                let e = ((end_va.0 + 4095) / 4096) as u64;
                let at = old(self).framed_area_at(s, e);
                &&& r is Ok <==> at is Some
                &&& r is Err ==> r == Err::<(), AreaError>(AreaError::NoSuchArea) && *final(self)
                    == *old(self) && *final(mem) == *old(mem) && *final(allocator) == *old(allocator)
                &&& r is Ok ==> {
                    &&& final(self).areas() == old(self).areas().remove(at->0)
                    &&& forall|v: u64|
                        vpn_valid(v) ==> #[trigger] final(self).lookup(final(mem), v) == if s <= v
                            < e {
                            None
                        } else {
                            old(self).lookup(old(mem), v)
                        }
                    &&& forall|q: u64|
                        final(allocator).is_free(q) <==> old(allocator).is_free(q) || old(self).areas()[at->0].frames().contains(q)
                    &&& final(allocator).free_count() == old(allocator).free_count() + (e - s)
                }
            }),
    {
        let s: u64 = start_va.floor().0;
        let e: u64 = end_va.ceil().0;
        let mut i: usize = 0;
        while i < self.areas.len()
            invariant
                i <= self.areas@.len(),
                *self == *old(self),
                *mem == *old(mem),
                *allocator == *old(allocator),
                self.wf(mem),
                self.owned(allocator),
                allocator.wf(),
                s == (start_va.0 / 4096) as u64,
                e == ((end_va.0 + 4095) / 4096) as u64,
                forall|k: int| 0 <= k < i ==> !(#[trigger] self.areas@[k]).is_framed_over(s, e),
            decreases self.areas@.len() - i,
        {
            let a = &self.areas[i];
            let framed = match a.map_type {
                MapType::Framed => true,
                MapType::Identical => false,
            };
            if a.start == s && a.end == e && framed {
                proof {
                    assert(self.areas()[i as int].is_framed_over(s, e));
                    assert(self.areas()[i as int].wf());
                    assert(old(self).framed_area_at(s, e) == Some(i as int)) by {
                        let c = old(self).framed_area_at(s, e)->0;
                        if c < i {
                            assert(!self.areas@[c].is_framed_over(s, e));
                        }
                        if i < c {
                            assert(!old(self).areas()[i as int].is_framed_over(s, e));
                        }
                    }
                    assert forall|v: u64| self.areas()[i as int].contains(v) <==> s <= v < e by {}
                }
                self.remove_area(mem, allocator, i);
                return Ok(());
            }
            i = i + 1;
        }
        proof {
            if old(self).framed_area_at(s, e) is Some {
                let c = choose|c: int| 0 <= c < self.areas().len() && (#[trigger] self.areas()[c]).is_framed_over(s, e);
                assert(!self.areas@[c].is_framed_over(s, e));
            }
            self.lemma_keep(mem, allocator);
        }
        Err(AreaError::NoSuchArea)
    }

    /// The position of the first framed area with the pages `[s, e)`.
    pub open spec fn framed_area_at(&self, s: u64, e: u64) -> Option<int> {
        if exists|i: int| 0 <= i < self.areas().len() && (#[trigger] self.areas()[i]).is_framed_over(s, e) {
            Some(
                choose|i: int|
                    0 <= i < self.areas().len() && (#[trigger] self.areas()[i]).is_framed_over(s, e)
                        && forall|k: int|
                        0 <= k < i ==> !(#[trigger] self.areas()[k]).is_framed_over(s, e),
            )
        } else {
            None
        }
    }

    /// Maps the trampoline page, the last page of the address space, to the
    /// frame `ppn`, readable and executable and closed to user mode.
    ///
    /// Fails, and leaves all translations as they are, when the trampoline
    /// is mapped already or its page belongs to an area (`Overlap`), or when
    /// the frames run out (`OutOfFrames`).
    pub fn map_trampoline(
        &mut self,
        mem: &mut PhysMemory,
        allocator: &mut StackFrameAllocator,
        ppn: PhysPageNum,
    ) -> (r: Result<(), AreaError>)
        requires
            old(self).wf(old(mem)),
            old(allocator).wf(),
            old(allocator).within(old(mem)),
            old(self).owned(old(allocator)),
            ppn.0 < 0x1000_0000_0000,
        ensures
            final(self).wf(final(mem)),
            final(self).owned(final(allocator)),
            final(self).table().root() == old(self).table().root(),
            final(self).image_end() == old(self).image_end(),
            final(self).areas() == old(self).areas(),
            final(mem).base() == old(mem).base(),
            final(mem).frame_count() == old(mem).frame_count(),
            final(allocator).wf(),
            final(allocator).range_start() == old(allocator).range_start(),
            final(allocator).range_end() == old(allocator).range_end(),
            forall|f: u64|
                old(mem).has_frame(f) && !old(allocator).is_free(f) && !old(self).table().frames().contains(f) ==> #[trigger] final(mem)@[f] == old(mem)@[f],
            forall|q: u64|
                final(allocator).is_free(q) <==> old(allocator).is_free(q) && !final(self).frames().contains(q),
            old(self).frames().subset_of(final(self).frames()),
            forall|f: u64| #[trigger]
                final(self).frames().contains(f) && !old(self).frames().contains(f) ==> old(allocator).is_free(f),
            r == Err::<(), AreaError>(AreaError::Overlap) <==> old(self).trampoline() is Some
                || old(self).covered(TRAMPOLINE_VPN),
            r is Err ==> (r == Err::<(), AreaError>(AreaError::Overlap) || r == Err::<
                (),
                AreaError,
            >(AreaError::OutOfFrames)),
            r == Err::<(), AreaError>(AreaError::OutOfFrames) <==> old(self).trampoline() is None
                && !old(self).covered(TRAMPOLINE_VPN) && old(allocator).free_count() < old(self).table().tables_missing(old(mem), TRAMPOLINE_VPN),
            final(allocator).free_count() <= old(allocator).free_count(),
            final(allocator).free_count() + 2 >= old(allocator).free_count(),
            effect(
                old(self).frames(),
                old(mem),
                old(allocator),
                final(self).frames(),
                final(mem),
                final(allocator),
            ),
            r is Err ==> final(self).trampoline() == old(self).trampoline(),
            r is Ok ==> final(self).trampoline() == Some(ppn.0),
            forall|v: u64|
                vpn_valid(v) && !(r is Ok && v == TRAMPOLINE_VPN) ==> #[trigger] final(self).lookup(
                    final(mem),
                    v,
                ) == old(self).lookup(old(mem), v),
    {
        if self.trampoline.is_some() || self.find_containing(TRAMPOLINE_VPN).is_some() {
            proof {
                self.lemma_keep(old(mem), old(allocator));
            }
            return Err(AreaError::Overlap);
        }
        proof {
            assert(vpn_valid(TRAMPOLINE_VPN));
            assert(self.page_table.lookup(mem, TRAMPOLINE_VPN) is None);
            assert forall|f: u64| #[trigger] self.page_table.frames().contains(f) implies allocator.is_allocated(
                f,
            ) by {
                assert(self.frames().contains(f));
            }
        }
        let flags = PTEFlags { bits: PTE_R | PTE_X };
        match self.page_table.map(mem, allocator, VirtPageNum(TRAMPOLINE_VPN), ppn, flags) {
            Err(_) => {
                proof {
                    assert forall|u: u64| vpn_valid(u) implies #[trigger] self.page_table.lookup(mem, u)
                        == old(self).page_table.lookup(old(mem), u) by {}
                    old(self).lemma_grown(old(mem), old(allocator), self, mem, allocator);
                    assert forall|f: u64|
                        old(mem).has_frame(f) && !old(allocator).is_free(f) && !old(self).table().frames().contains(f) implies #[trigger] mem@[f] == old(mem)@[f] by {
                        if self.page_table.frames().contains(f) {
                            assert(old(allocator).is_free(f));
                        }
                    }
                    self.lemma_wf(mem);
                    assert forall|f: u64|
                        old(mem).has_frame(f) && !old(allocator).is_free(f) && !old(self).frames().contains(f) implies #[trigger] mem@[f] == old(mem)@[f] by {
                        assert(!old(self).table().frames().contains(f));
                    }
                }
                Err(AreaError::OutOfFrames)
            },
            Ok(_) => {
                let ghost mid = *self;
                self.trampoline = Some(ppn.0);
                proof {
                    assert forall|u: u64| vpn_valid(u) implies #[trigger] self.page_table.lookup(mem, u)
                        == if u == TRAMPOLINE_VPN {
                        Some(PageTableEntry { bits: pte_bits(ppn.0, PTE_R | PTE_X | PTE_V) })
                    } else {
                        old(self).page_table.lookup(old(mem), u)
                    } by {
                        lemma_valid_entries(u, TRAMPOLINE_VPN);
                    }
                    old(self).lemma_trampoline_mapped(old(mem), old(allocator), self, mem, allocator);
                    assert forall|f: u64|
                        old(mem).has_frame(f) && !old(allocator).is_free(f) && !old(self).table().frames().contains(f) implies #[trigger] mem@[f] == old(mem)@[f] by {
                        if self.page_table.frames().contains(f) {
                            assert(old(allocator).is_free(f));
                        }
                    }
                    self.lemma_wf(mem);
                    assert forall|f: u64|
                        old(mem).has_frame(f) && !old(allocator).is_free(f) && !old(self).frames().contains(f) implies #[trigger] mem@[f] == old(mem)@[f] by {
                        assert(!old(self).table().frames().contains(f));
                    }
                }
                Ok(())
            },
        }
    }

    /// As `lemma_grown`, when the trampoline page, which was not mapped, is
    /// mapped now.
    proof fn lemma_trampoline_mapped(
        &self,
        mem: &PhysMemory,
        allocator: &StackFrameAllocator,
        now: &MemorySet,
        mem2: &PhysMemory,
        allocator2: &StackFrameAllocator,
    )
        requires
            self.wf(mem),
            self.owned(allocator),
            allocator.wf(),
            self.trampoline is None,
            !self.covered(TRAMPOLINE_VPN),
            now.areas@ == self.areas@,
            now.trampoline is Some,
            now.trampoline->0 < 0x1000_0000_0000,
            now.image_end == self.image_end,
            now.page_table.wf(mem2),
            now.page_table.owned(allocator2),
            mem2.base() == mem.base(),
            mem2.frame_count() == mem.frame_count(),
            allocator2.wf(),
            allocator2.range_start() == allocator.range_start(),
            allocator2.range_end() == allocator.range_end(),
            self.page_table.frames().subset_of(now.page_table.frames()),
            forall|f: u64| #[trigger]
                now.page_table.frames().contains(f) && !self.page_table.frames().contains(f)
                    ==> allocator.is_free(f),
            forall|u: u64|
                vpn_valid(u) ==> #[trigger] now.page_table.lookup(mem2, u) == if u == TRAMPOLINE_VPN {
                    Some(PageTableEntry { bits: pte_bits(now.trampoline->0, PTE_R | PTE_X | PTE_V) })
                } else {
                    self.page_table.lookup(mem, u)
                },
            forall|q: u64|
                allocator2.is_free(q) <==> allocator.is_free(q) && !now.page_table.frames().contains(
                    q,
                ),
        ensures
            now.wf(mem2),
            now.owned(allocator2),
            self.frames().subset_of(now.frames()),
            forall|q: u64| allocator2.is_free(q) <==> allocator.is_free(q) && !now.frames().contains(q),
            forall|f: u64| #[trigger]
                now.frames().contains(f) && !self.frames().contains(f) ==> allocator.is_free(f),
    {
        assert(vpn_valid(TRAMPOLINE_VPN));
        assert forall|v: u64| now.covered(v) == self.covered(v) by {
            if now.covered(v) {
                let i = choose|i: int| 0 <= i < now.areas().len() && (#[trigger] now.areas()[i]).contains(v);
                assert(self.areas()[i].contains(v));
            }
            if self.covered(v) {
                let i = choose|i: int| 0 <= i < self.areas().len() && (#[trigger] self.areas()[i]).contains(v);
                assert(now.areas()[i].contains(v));
            }
        }
        assert forall|i: int, v: u64|
            0 <= i < now.areas@.len() && (#[trigger] now.areas@[i]).contains(v) implies #[trigger] now.page_table.lookup(
            mem2,
            v,
        ) == Some(now.areas@[i].entry_of(v)) by {
            assert(self.areas()[i].wf());
            assert(vpn_valid(v));
            assert(self.areas()[i].contains(v));
            assert(self.covered(v));
            assert(self.page_table.lookup(mem, v) == Some(self.areas@[i].entry_of(v)));
        }
        assert forall|v: u64|
            vpn_valid(v) && (#[trigger] now.page_table.lookup(mem2, v)) is Some implies now.covered(v)
            || (v == TRAMPOLINE_VPN && now.trampoline is Some) by {
            if v != TRAMPOLINE_VPN {
                assert(self.page_table.lookup(mem, v) is Some);
            }
        }
        assert(now.data_frames() =~= self.data_frames());
        assert forall|i: int, k: int|
            0 <= i < now.areas@.len() && 0 <= k < now.areas@[i].frames().len() implies {
            let f = #[trigger] now.areas@[i].frames()[k];
            mem2.has_frame(f) && !now.page_table.frames().contains(f)
        } by {
            let f = now.areas@[i].frames()[k];
            assert(self.areas()[i].frames()[k] == f);
            assert(self.data_frames().contains(f));
            assert(self.frames().contains(f));
            assert(allocator.is_allocated(f));
        }
        assert forall|f: u64| #[trigger] now.frames().contains(f) implies allocator2.is_allocated(f) by {
            if now.page_table.frames().contains(f) {
            } else {
                assert(self.data_frames().contains(f));
                assert(self.frames().contains(f));
                assert(allocator.is_allocated(f));
            }
        }
        assert forall|q: u64| allocator2.is_free(q) <==> allocator.is_free(q) && !now.frames().contains(
            q,
        ) by {
            if now.data_frames().contains(q) {
                assert(self.frames().contains(q));
                assert(allocator.is_allocated(q));
            }
        }
    }

    /// Takes every area out of the address space: unmaps their pages and
    /// gives the frames of the framed ones back. The page table and the
    /// trampoline stay.
    pub fn recycle_data_pages(&mut self, mem: &mut PhysMemory, allocator: &mut StackFrameAllocator)
        requires
            old(self).wf(old(mem)),
            old(allocator).wf(),
            old(self).owned(old(allocator)),
        ensures
            final(self).wf(final(mem)),
            final(self).owned(final(allocator)),
            final(self).table() == old(self).table(),
            final(self).trampoline() == old(self).trampoline(),
            final(self).image_end() == old(self).image_end(),
            final(self).areas().len() == 0,
            final(mem).base() == old(mem).base(),
            final(mem).frame_count() == old(mem).frame_count(),
            final(allocator).wf(),
            final(allocator).range_start() == old(allocator).range_start(),
            final(allocator).range_end() == old(allocator).range_end(),
            forall|v: u64|
                vpn_valid(v) ==> #[trigger] final(self).lookup(final(mem), v) == if old(self).covered(
                    v,
                ) {
                    None
                } else {
                    old(self).lookup(old(mem), v)
                },
            forall|f: u64|
                old(mem).has_frame(f) && !old(self).table().frames().contains(f) ==> #[trigger] final(mem)@[f]
                    == old(mem)@[f],
            forall|q: u64|
                final(allocator).is_free(q) <==> old(allocator).is_free(q) || old(self).data_frames().contains(q),
            effect(
                old(self).frames(),
                old(mem),
                old(allocator),
                final(self).frames(),
                final(mem),
                final(allocator),
            ),
            final(self).frames() == old(self).table().frames(),
    {
        proof {
            self.lemma_keep(mem, allocator);
        }
        while self.areas.len() > 0
            invariant
                self.wf(mem),
                effect(old(self).frames(), old(mem), old(allocator), self.frames(), mem, allocator),
                self.owned(allocator),
                allocator.wf(),
                self.table() == old(self).table(),
                self.trampoline() == old(self).trampoline(),
                self.image_end() == old(self).image_end(),
                self.areas().len() <= old(self).areas().len(),
                self.areas() == old(self).areas().take(self.areas().len() as int),
                mem.base() == old(mem).base(),
                mem.frame_count() == old(mem).frame_count(),
                allocator.range_start() == old(allocator).range_start(),
                allocator.range_end() == old(allocator).range_end(),
                forall|v: u64|
                    vpn_valid(v) ==> #[trigger] self.lookup(mem, v) == if old(self).covered(v)
                        && !self.covered(v) {
                        None
                    } else {
                        old(self).lookup(old(mem), v)
                    },
                forall|f: u64|
                    old(mem).has_frame(f) && !old(self).table().frames().contains(f) ==> #[trigger] mem@[f]
                        == old(mem)@[f],
                forall|q: u64|
                    allocator.is_free(q) <==> old(allocator).is_free(q) || (old(self).data_frames().contains(q) && !self.data_frames().contains(q)),
            decreases self.areas().len(),
        {
            let n: usize = self.areas.len() - 1;
            let ghost before = *self;
            let ghost mem1 = *mem;
            let ghost alloc1 = *allocator;
            self.remove_area(mem, allocator, n);
            proof {
                lemma_effect_trans(
                    old(self).frames(),
                    old(mem),
                    old(allocator),
                    before.frames(),
                    &mem1,
                    &alloc1,
                    self.frames(),
                    mem,
                    allocator,
                );
                let gone = before.areas()[n as int];
                assert(self.areas() =~= old(self).areas().take(n as int));
                assert(gone == old(self).areas()[n as int]);
                assert forall|v: u64| before.covered(v) == (self.covered(v) || gone.contains(v)) by {
                    if before.covered(v) {
                        let i = choose|i: int|
                            0 <= i < before.areas().len() && (#[trigger] before.areas()[i]).contains(v);
                        if i < n {
                            assert(self.areas()[i].contains(v));
                        }
                    }
                    if self.covered(v) {
                        let i = choose|i: int|
                            0 <= i < self.areas().len() && (#[trigger] self.areas()[i]).contains(v);
                        assert(before.areas()[i].contains(v));
                    }
                    if gone.contains(v) {
                        assert(before.areas()[n as int].contains(v));
                    }
                }
                assert forall|v: u64| gone.contains(v) implies old(self).covered(v) by {
                    assert(old(self).areas()[n as int].contains(v));
                }
                assert forall|v: u64| vpn_valid(v) implies #[trigger] self.lookup(mem, v) == if old(self).covered(v) && !self.covered(v) {
                    None
                } else {
                    old(self).lookup(old(mem), v)
                } by {
                    assert(before.lookup(&mem1, v) == if old(self).covered(v) && !before.covered(v) {
                        None
                    } else {
                        old(self).lookup(old(mem), v)
                    });
                    if gone.contains(v) && self.covered(v) {
                        let i = choose|i: int|
                            0 <= i < self.areas().len() && (#[trigger] self.areas()[i]).contains(v);
                        before.lemma_wf(&mem1);
                        assert(before.areas()[i].contains(v));
                        assert(ranges_overlap(
                            before.areas()[i].start(),
                            before.areas()[i].end(),
                            before.areas()[n as int].start(),
                            before.areas()[n as int].end(),
                        ));
                    }
                }
                assert forall|q: u64|
                    allocator.is_free(q) <==> old(allocator).is_free(q) || (old(self).data_frames().contains(q) && !self.data_frames().contains(q)) by {
                    if gone.frames().contains(q) {
                        let k = choose|k: int| 0 <= k < gone.frames().len() && gone.frames()[k] == q;
                        assert(old(self).areas()[n as int].frames()[k] == q);
                        assert(old(self).data_frames().contains(q));
                        if self.data_frames().contains(q) {
                            let (i, l) = choose|i: int, l: int|
                                0 <= i < self.areas().len() && 0 <= l < self.areas()[i].frames().len()
                                    && #[trigger] self.areas()[i].frames()[l] == q;
                            before.lemma_wf(&mem1);
                            assert(before.areas()[i].frames()[l] != before.areas()[n as int].frames()[k]);
                        }
                    }
                    if before.data_frames().contains(q) && !self.data_frames().contains(q) {
                        let (i, l) = choose|i: int, l: int|
                            0 <= i < before.areas().len() && 0 <= l < before.areas()[i].frames().len()
                                && #[trigger] before.areas()[i].frames()[l] == q;
                        if i < n {
                            assert(self.areas()[i].frames()[l] == q);
                        }
                    }
                    if self.data_frames().contains(q) {
                        let (i, l) = choose|i: int, l: int|
                            0 <= i < self.areas().len() && 0 <= l < self.areas()[i].frames().len()
                                && #[trigger] self.areas()[i].frames()[l] == q;
                        assert(before.areas()[i].frames()[l] == q);
                        assert(before.data_frames().contains(q));
                    }
                }
            }
        }
        proof {
            assert forall|v: u64| !self.covered(v) by {}
            assert(self.data_frames() =~= Set::<u64>::empty());
            assert(self.frames() =~= old(self).table().frames());
        }
    }

    /// Gives up the address space: every frame of its framed areas and of
    /// its page table goes back to the allocator.
    pub fn destroy(self, mem: &mut PhysMemory, allocator: &mut StackFrameAllocator)
        requires
            self.wf(old(mem)),
            old(allocator).wf(),
            self.owned(old(allocator)),
        ensures
            final(mem).wf(),
            final(mem).base() == old(mem).base(),
            final(mem).frame_count() == old(mem).frame_count(),
            final(allocator).wf(),
            final(allocator).range_start() == old(allocator).range_start(),
            final(allocator).range_end() == old(allocator).range_end(),
            forall|f: u64|
                old(mem).has_frame(f) && !self.table().frames().contains(f) ==> #[trigger] final(mem)@[f]
                    == old(mem)@[f],
            forall|q: u64|
                final(allocator).is_free(q) <==> old(allocator).is_free(q) || self.frames().contains(q),
            effect(
                self.frames(),
                old(mem),
                old(allocator),
                Set::<u64>::empty(),
                final(mem),
                final(allocator),
            ),
    {
        let mut this = self;
        this.recycle_data_pages(mem, allocator);
        proof {
            this.lemma_wf(mem);
            assert(this.data_frames() =~= Set::<u64>::empty());
            assert forall|f: u64| #[trigger] this.page_table.frames().contains(f) implies allocator.is_allocated(
                f,
            ) by {
                assert(this.frames().contains(f));
            }
        }
        this.page_table.destroy(mem, allocator);
    }

    /// The physical address behind the virtual address `va`, for an access
    /// from user mode that needs the flags `need`: the page must be a page of
    /// the address space, mapped, open to user mode and have these flags.
    pub open spec fn user_addr(&self, mem: &PhysMemory, va: u64, need: u8) -> Option<u64> {
        let v = (va / 4096) as u64;
        if vpn_valid(v) {
            match self.lookup(mem, v) {
                Some(e) => if bits_contain(entry_flags(e.bits), need | PTE_U) {
                    Some((entry_ppn(e.bits) * 4096 + va % 4096) as u64)
                } else {
                    None
                },
                None => None,
            }
        } else {
            None
        }
    }

    /// A page that user mode can reach is a page of a framed area, and the
    /// address behind it lies in the frame that backs the page.
    pub proof fn lemma_user_addr(&self, mem: &PhysMemory, va: u64, need: u8)
        requires
            self.wf(mem),
            self.user_addr(mem, va, need) is Some,
        ensures
            ({
                let pa = self.user_addr(mem, va, need)->0;
                let v = (va / 4096) as u64;
                &&& pa % 4096 == va % 4096
                &&& mem.has_frame((pa / 4096) as u64)
                &&& self.data_frames().contains((pa / 4096) as u64)
                &&& !self.table().frames().contains((pa / 4096) as u64)
                &&& exists|i: int|
                    0 <= i < self.areas().len() && (#[trigger] self.areas()[i]).contains(v)
                        && self.areas()[i].map_type() == MapType::Framed
                        && self.areas()[i].frames()[v - self.areas()[i].start()] == pa / 4096
            }),
    {
        let v = (va / 4096) as u64;
        let e = self.lookup(mem, v)->0;
        let need_u: u8 = need | PTE_U;
        self.lemma_wf(mem);
        mem.lemma_view();
        if self.covered(v) {
            let i = choose|i: int| 0 <= i < self.areas().len() && (#[trigger] self.areas()[i]).contains(v);
            let a = self.areas()[i];
            assert(a.wf());
            assert(self.lookup(mem, v) == Some(a.entry_of(v)));
            let p: u8 = a.perm();
            assert(bits_contain((p | 1u8), need_u) && need_u == need | 16u8 ==> p & 16u8 != 0u8) by {
                assert(((p | 1u8) & (need | 16u8)) == (need | 16u8) ==> p & 16u8 != 0u8)
                    by (bit_vector);
            }
            match a.map_type() {
                MapType::Framed => {
                    let k = v - a.start();
                    let f = a.frames()[k];
                    assert(self.areas@[i].frames()[k] == f);
                    assert(mem.has_frame(f));
                    lemma_pte_bits(f, p | PTE_V);
                    assert(self.data_frames().contains(f));
                },
                MapType::Identical => {
                    lemma_pte_bits(v, p | PTE_V);
                },
            }
        } else {
            let p = self.trampoline->0;
            lemma_pte_bits(p, PTE_R | PTE_X | PTE_V);
            assert(((2u8 | 8u8 | 1u8) & (need | 16u8)) != (need | 16u8)) by (bit_vector);
        }
    }

    /// Distinct addresses that user mode can reach lie at distinct physical
    /// addresses.
    pub proof fn lemma_user_addr_injective(
        &self,
        mem: &PhysMemory,
        va1: u64,
        need1: u8,
        va2: u64,
        need2: u8,
    )
        requires
            self.wf(mem),
            self.user_addr(mem, va1, need1) is Some,
            self.user_addr(mem, va2, need2) is Some,
            va1 != va2,
        ensures
            self.user_addr(mem, va1, need1) != self.user_addr(mem, va2, need2),
    {
        self.lemma_user_addr(mem, va1, need1);
        self.lemma_user_addr(mem, va2, need2);
        let v1 = (va1 / 4096) as u64;
        let v2 = (va2 / 4096) as u64;
        let pa1 = self.user_addr(mem, va1, need1)->0;
        let pa2 = self.user_addr(mem, va2, need2)->0;
        if v1 != v2 {
            let i = choose|i: int|
                0 <= i < self.areas().len() && (#[trigger] self.areas()[i]).contains(v1)
                    && self.areas()[i].map_type() == MapType::Framed
                    && self.areas()[i].frames()[v1 - self.areas()[i].start()] == pa1 / 4096;
            let j = choose|j: int|
                0 <= j < self.areas().len() && (#[trigger] self.areas()[j]).contains(v2)
                    && self.areas()[j].map_type() == MapType::Framed
                    && self.areas()[j].frames()[v2 - self.areas()[j].start()] == pa2 / 4096;
            assert(self.areas()[i].wf());
            assert(self.areas()[j].wf());
            let k = v1 - self.areas()[i].start();
            let l = v2 - self.areas()[j].start();
            assert(self.areas@[i].frames()[k] != self.areas@[j].frames()[l]);
        }
    }

    /// The physical address behind `va` for an access from user mode that
    /// needs the flags `need`.
    pub fn translate_user(&self, mem: &PhysMemory, va: VirtAddr, need: u8) -> (r: Option<PhysAddr>)
        requires
            mem.wf(),
        ensures
            r is Some <==> self.user_addr(mem, va.0, need) is Some,
            r matches Some(pa) ==> self.user_addr(mem, va.0, need) == Some(pa.0),
    {
        let v: u64 = va.0 / 4096;
        if !(v < HALF_PAGES || v >= UPPER_HALF_VPN) {
            return None;
        }
        match self.page_table.translate(mem, VirtPageNum(v)) {
            None => None,
            Some(e) => {
                let want: u8 = need | PTE_U;
                if e.flags().bits & want == want {
                    Some(PhysAddr(e.ppn().0 * 4096 + va.0 % 4096))
                } else {
                    None
                }
            },
        }
    }

    /// The byte at `va`, read from user mode: `None` when user mode cannot
    /// read there.
    pub fn read_byte(&self, mem: &PhysMemory, va: VirtAddr) -> (r: Option<u8>)
        requires
            self.wf(mem),
        ensures
            r == match self.user_addr(mem, va.0, PTE_R) {
                Some(pa) => Some(mem.byte(pa)),
                None => None,
            },
    {
        proof {
            self.lemma_wf(mem);
        }
        match self.translate_user(mem, va, PTE_R) {
            None => None,
            Some(pa) => {
                proof {
                    self.lemma_user_addr(mem, va.0, PTE_R);
                }
                Some(mem.read_byte(pa))
            },
        }
    }

    /// Stores `b` at `va`, from user mode. Returns whether user mode can
    /// write there; nothing changes when it cannot.
    pub fn write_byte(&self, mem: &mut PhysMemory, va: VirtAddr, b: u8) -> (r: bool)
        requires
            self.wf(old(mem)),
        ensures
            self.wf(final(mem)),
            final(mem).base() == old(mem).base(),
            final(mem).frame_count() == old(mem).frame_count(),
            r == self.user_addr(old(mem), va.0, PTE_W) is Some,
            !r ==> final(mem)@ == old(mem)@,
            forall|v: u64| #[trigger] self.lookup(final(mem), v) == self.lookup(old(mem), v),
            forall|f: u64|
                old(mem).has_frame(f) && !self.data_frames().contains(f) ==> #[trigger] final(mem)@[f]
                    == old(mem)@[f],
            r ==> {
                let pa = self.user_addr(old(mem), va.0, PTE_W)->0;
                let f = (pa / 4096) as u64;
                &&& self.data_frames().contains(f)
                &&& final(mem)@ == old(mem)@.insert(
                    f,
                    frame_with_byte(old(mem)@[f], (pa % 4096) as int, b),
                )
            },
    {
        proof {
            self.lemma_wf(mem);
        }
        match self.translate_user(mem, va, PTE_W) {
            None => {
                proof {
                    self.lemma_stable(old(mem), mem);
                }
                false
            },
            Some(pa) => {
                proof {
                    self.lemma_user_addr(mem, va.0, PTE_W);
                }
                mem.write_byte(pa, b);
                proof {
                    self.lemma_stable(old(mem), mem);
                }
                true
            },
        }
    }

    /// Whether a write from user mode to the byte `i` after `va` goes to the
    /// physical address `pa`.
    pub open spec fn write_hits(&self, mem: &PhysMemory, va: u64, i: int, pa: u64) -> bool {
        self.user_addr(mem, (va + i) as u64, PTE_W) == Some(pa)
    }

    /// The byte at `va` as user mode reads it: `None` where user mode
    /// cannot read.
    pub open spec fn user_view(&self, mem: &PhysMemory, va: u64) -> Option<u8> {
        match self.user_addr(mem, va, PTE_R) {
            Some(pa) => Some(mem.byte(pa)),
            None => None,
        }
    }

    /// Address spaces are isolated from each other: a byte that user mode
    /// writes through one address space changes nothing of what user mode
    /// reads through another one that shares no frame with it, as the copy
    /// that a fork makes shares none with what it was copied from.
    pub proof fn lemma_isolated(
        &self,
        other: &MemorySet,
        mem: &PhysMemory,
        mem2: &PhysMemory,
        va: u64,
        b: u8,
        at: u64,
    )
        requires
            self.wf(mem),
            other.wf(mem),
            self.frames().disjoint(other.frames()),
            self.user_addr(mem, va, PTE_W) is Some,
            mem2.wf(),
            mem2.base() == mem.base(),
            mem2.frame_count() == mem.frame_count(),
            mem2@ == mem@.insert(
                (self.user_addr(mem, va, PTE_W)->0 / 4096) as u64,
                frame_with_byte(
                    mem@[(self.user_addr(mem, va, PTE_W)->0 / 4096) as u64],
                    (self.user_addr(mem, va, PTE_W)->0 % 4096) as int,
                    b,
                ),
            ),
        ensures
            other.wf(mem2),
            other.user_view(mem2, at) == other.user_view(mem, at),
    {
        self.lemma_user_addr(mem, va, PTE_W);
        let f = (self.user_addr(mem, va, PTE_W)->0 / 4096) as u64;
        assert(self.frames().contains(f));
        other.lemma_wf(mem);
        assert forall|g: u64| #[trigger] other.table().frames().contains(g) implies mem2@[g] == mem@[g] by {
            assert(other.frames().contains(g));
        }
        other.lemma_stable(mem, mem2);
        assert(other.lookup(mem2, (at / 4096) as u64) == other.lookup(mem, (at / 4096) as u64));
        if other.user_addr(mem, at, PTE_R) is Some {
            other.lemma_user_addr(mem, at, PTE_R);
            let g = (other.user_addr(mem, at, PTE_R)->0 / 4096) as u64;
            assert(other.frames().contains(g));
        }
    }

    /// The physical address to which a write from user mode to the byte `i`
    /// after `va` goes.
    pub open spec fn write_addr(&self, mem: &PhysMemory, va: u64, i: int) -> u64 {
        self.user_addr(mem, (va + i) as u64, PTE_W)->0
    }

    /// Whether user mode can reach the `len` bytes from `va` on with the
    /// flags `need`.
    pub open spec fn user_range(&self, mem: &PhysMemory, va: u64, len: nat, need: u8) -> bool {
        &&& va + len <= 0x1_0000_0000_0000_0000
        &&& forall|i: nat| i < len ==> (#[trigger] self.user_addr(mem, (va + i) as u64, need)) is Some
    }

    /// Whether user mode can reach the `len` bytes from `va` on with the
    /// flags `need`.
    pub fn check_user_range(&self, mem: &PhysMemory, va: VirtAddr, len: usize, need: u8) -> (r: bool)
        requires
            mem.wf(),
        ensures
            r == self.user_range(mem, va.0, len as nat, need),
    {
        if len as u64 > 0 && va.0 > u64::MAX - (len as u64 - 1) {
            return false;
        }
        let mut i: usize = 0;
        while i < len
            invariant
                i <= len,
                mem.wf(),
                va.0 + len <= 0x1_0000_0000_0000_0000,
                forall|k: nat| k < i ==> (#[trigger] self.user_addr(mem, (va.0 + k) as u64, need)) is Some,
            decreases len - i,
        {
            if self.translate_user(mem, VirtAddr(va.0 + i as u64), need).is_none() {
                proof {
                    assert(self.user_addr(mem, (va.0 + (i as nat)) as u64, need) is None);
                }
                return false;
            }
            i = i + 1;
        }
        true
    }

    /// The `len` bytes from `va` on, read from user mode: `None` when user
    /// mode cannot read all of them.
    pub fn read_bytes(&self, mem: &PhysMemory, va: VirtAddr, len: usize) -> (r: Option<Vec<u8>>)
        requires
            self.wf(mem),
        ensures
            r is Some <==> self.user_range(mem, va.0, len as nat, PTE_R),
            r matches Some(bytes) ==> {
                &&& bytes@.len() == len
                &&& forall|i: int|
                    0 <= i < len ==> bytes@[i] == mem.byte(
                        (#[trigger] self.user_addr(mem, (va.0 + i) as u64, PTE_R))->0,
                    )
            },
    {
        proof {
            self.lemma_wf(mem);
        }
        if !self.check_user_range(mem, va, len, PTE_R) {
            return None;
        }
        let mut bytes: Vec<u8> = Vec::new();
        let mut i: usize = 0;
        while i < len
            invariant
                i <= len,
                self.wf(mem),
                self.user_range(mem, va.0, len as nat, PTE_R),
                bytes@.len() == i,
                forall|k: int|
                    0 <= k < i ==> bytes@[k] == mem.byte(
                        (#[trigger] self.user_addr(mem, (va.0 + k) as u64, PTE_R))->0,
                    ),
            decreases len - i,
        {
            proof {
                assert(self.user_addr(mem, (va.0 + (i as nat)) as u64, PTE_R) is Some);
            }
            let b = self.read_byte(mem, VirtAddr(va.0 + i as u64));
            bytes.push(b.unwrap());
            i = i + 1;
        }
        Some(bytes)
    }

    /// Stores `data` at `va` and the addresses after it, from user mode.
    /// Returns whether user mode can write to all of them; nothing changes
    /// when it cannot.
    pub fn write_bytes(&self, mem: &mut PhysMemory, va: VirtAddr, data: &Vec<u8>) -> (r: bool)
        requires
            self.wf(old(mem)),
        ensures
            self.wf(final(mem)),
            final(mem).base() == old(mem).base(),
            final(mem).frame_count() == old(mem).frame_count(),
            r == self.user_range(old(mem), va.0, data@.len(), PTE_W),
            !r ==> final(mem)@ == old(mem)@,
            forall|v: u64| #[trigger] self.lookup(final(mem), v) == self.lookup(old(mem), v),
            forall|f: u64|
                old(mem).has_frame(f) && !self.data_frames().contains(f) ==> #[trigger] final(mem)@[f]
                    == old(mem)@[f],
            r ==> forall|pa: u64|
                old(mem).has_frame((pa / 4096) as u64) ==> #[trigger] final(mem).byte(pa) == if exists|
                    i: int,
                |
                    0 <= i < data@.len() && #[trigger] self.write_hits(old(mem), va.0, i, pa) {
                    data@[choose|i: int|
                        0 <= i < data@.len() && #[trigger] self.write_hits(old(mem), va.0, i, pa)]
                } else {
                    old(mem).byte(pa)
                },
            r ==> forall|i: int|
                0 <= i < data@.len() ==> final(mem).byte(#[trigger] self.write_addr(old(mem), va.0, i))
                    == data@[i],
    {
        proof {
            self.lemma_wf(mem);
        }
        let len: usize = data.len();
        if !self.check_user_range(mem, va, len, PTE_W) {
            proof {
                self.lemma_stable(old(mem), mem);
            }
            return false;
        }
        let mut i: usize = 0;
        while i < len
            invariant
                i <= len,
                len == data@.len(),
                self.wf(mem),
                self.wf(old(mem)),
                mem.base() == old(mem).base(),
                mem.frame_count() == old(mem).frame_count(),
                self.user_range(old(mem), va.0, len as nat, PTE_W),
                forall|v: u64| #[trigger] self.lookup(mem, v) == self.lookup(old(mem), v),
                forall|f: u64|
                    old(mem).has_frame(f) && !self.data_frames().contains(f) ==> #[trigger] mem@[f]
                        == old(mem)@[f],
                forall|pa: u64|
                    old(mem).has_frame((pa / 4096) as u64) ==> #[trigger] mem.byte(pa) == if exists|
                        k: int,
                    |
                        0 <= k < i && #[trigger] self.write_hits(old(mem), va.0, k, pa) {
                        data@[choose|k: int|
                            0 <= k < i && #[trigger] self.write_hits(old(mem), va.0, k, pa)]
                    } else {
                        old(mem).byte(pa)
                    },
            decreases len - i,
        {
            let ghost mem1 = *mem;
            let ghost vi = (va.0 + i) as u64;
            proof {
                assert(self.user_addr(old(mem), (va.0 + (i as nat)) as u64, PTE_W) is Some);
                assert(self.user_addr(mem, vi, PTE_W) == self.user_addr(old(mem), vi, PTE_W));
                self.lemma_user_addr(mem, vi, PTE_W);
                self.lemma_wf(mem);
                mem.lemma_view();
            }
            let ok = self.write_byte(mem, VirtAddr(va.0 + i as u64), data[i]);
            proof {
                let pi = self.user_addr(old(mem), vi, PTE_W)->0;
                assert(self.write_hits(old(mem), va.0, i as int, pi));
                assert forall|pa: u64| old(mem).has_frame((pa / 4096) as u64) implies #[trigger] mem.byte(
                    pa,
                ) == if exists|k: int|
                    0 <= k < i + 1 && #[trigger] self.write_hits(old(mem), va.0, k, pa) {
                    data@[choose|k: int|
                        0 <= k < i + 1 && #[trigger] self.write_hits(old(mem), va.0, k, pa)]
                } else {
                    old(mem).byte(pa)
                } by {
                    self.lemma_wf(&mem1);
                    mem1.lemma_view();
                    lemma_frame_with_byte(
                        mem1@[(pi / 4096) as u64],
                        (pi % 4096) as int,
                        data@[i as int],
                        (pa % 4096) as int,
                    );
                    if pa == pi {
                        let c = choose|k: int|
                            0 <= k < i + 1 && #[trigger] self.write_hits(old(mem), va.0, k, pa);
                        if c != i {
                            self.lemma_user_addr_injective(
                                old(mem),
                                (va.0 + c) as u64,
                                PTE_W,
                                vi,
                                PTE_W,
                            );
                        }
                    } else {
                        assert(mem.byte(pa) == mem1.byte(pa));
                        if exists|k: int|
                            0 <= k < i + 1 && #[trigger] self.write_hits(old(mem), va.0, k, pa) {
                            let c = choose|k: int|
                                0 <= k < i + 1 && #[trigger] self.write_hits(old(mem), va.0, k, pa);
                            assert(c < i);
                            assert(self.write_hits(old(mem), va.0, c, pa));
                            let d = choose|k: int|
                                0 <= k < i && #[trigger] self.write_hits(old(mem), va.0, k, pa);
                            if c != d {
                                self.lemma_user_addr_injective(
                                    old(mem),
                                    (va.0 + c) as u64,
                                    PTE_W,
                                    (va.0 + d) as u64,
                                    PTE_W,
                                );
                            }
                        } else {
                            if exists|k: int|
                                0 <= k < i && #[trigger] self.write_hits(old(mem), va.0, k, pa) {
                                let d = choose|k: int|
                                    0 <= k < i && #[trigger] self.write_hits(old(mem), va.0, k, pa);
                                assert(self.write_hits(old(mem), va.0, d, pa));
                            }
                        }
                    }
                }
            }
            i = i + 1;
        }
        proof {
            assert forall|k: int| 0 <= k < data@.len() implies mem.byte(
                #[trigger] self.write_addr(old(mem), va.0, k),
            ) == data@[k] by {
                let vk = (va.0 + k) as u64;
                assert(self.user_addr(old(mem), (va.0 + (k as nat)) as u64, PTE_W) is Some);
                let pa = self.write_addr(old(mem), va.0, k);
                self.lemma_user_addr(old(mem), vk, PTE_W);
                assert(self.write_hits(old(mem), va.0, k, pa));
                let c = choose|c: int|
                    0 <= c < data@.len() && #[trigger] self.write_hits(old(mem), va.0, c, pa);
                if c != k {
                    self.lemma_user_addr_injective(old(mem), (va.0 + c) as u64, PTE_W, vk, PTE_W);
                }
            }
        }
        true
    }

    /// Adds an identically mapped area over the pages that the range from
    /// `start_va` up to `end_va` touches: every page is mapped to the frame
    /// with its own number. The area must be closed to user mode.
    ///
    /// Fails, and leaves the areas and all translations as they are, when
    /// the range does not lie in the lower half of the address space, when
    /// one of its pages belongs to an area already, or when the frames for
    /// the page table run out.
    pub fn insert_identical_area(
        &mut self,
        mem: &mut PhysMemory,
        allocator: &mut StackFrameAllocator,
        start_va: VirtAddr,
        end_va: VirtAddr,
        permission: MapPermission,
    ) -> (r: Result<(), AreaError>)
        requires
            old(self).wf(old(mem)),
            old(allocator).wf(),
            old(allocator).within(old(mem)),
            old(self).owned(old(allocator)),
            perm_bits_valid(permission.bits),
            permission.bits & PERM_U == 0,
        ensures
            final(self).wf(final(mem)),
            final(self).owned(final(allocator)),
            final(self).table().root() == old(self).table().root(),
            final(self).trampoline() == old(self).trampoline(),
            final(self).image_end() == old(self).image_end(),
            effect(
                old(self).frames(),
                old(mem),
                old(allocator),
                final(self).frames(),
                final(mem),
                final(allocator),
            ),
            final(self).data_frames() == old(self).data_frames(),
            final(allocator).free_count() <= old(allocator).free_count(),
            ({
                let s = (start_va.0 / 4096) as u64;
                let e = ((end_va.0 + 4095) / 4096) as u64;
                &&& final(allocator).free_count() + 2 * (e - s) >= old(allocator).free_count() || !(s
                    <= e)
                &&& r == Err::<(), AreaError>(AreaError::InvalidRange) <==> !(s <= e <= HALF_PAGES)
                &&& r == Err::<(), AreaError>(AreaError::Overlap) <==> s <= e <= HALF_PAGES && old(self).any_covered(s, e)
                &&& r == Err::<(), AreaError>(AreaError::OutOfFrames) ==> old(allocator).free_count() < 2 * (e - s)
                &&& r == Err::<(), AreaError>(AreaError::OutOfFrames) <==> s <= e <= HALF_PAGES
                    && !old(self).any_covered(s, e) && old(allocator).free_count() < old(self).table().tables_for(old(mem), s, e)
                &&& r != Err::<(), AreaError>(AreaError::NoSuchArea)
                &&& r == Err::<(), AreaError>(AreaError::InvalidRange) || r == Err::<(), AreaError>(
                    AreaError::Overlap,
                ) ==> *final(self) == *old(self) && *final(mem) == *old(mem) && *final(allocator)
                    == *old(allocator)
                &&& r is Err ==> {
                    &&& final(self).areas() == old(self).areas()
                    &&& forall|v: u64|
                        vpn_valid(v) ==> #[trigger] final(self).lookup(final(mem), v) == old(self).lookup(old(mem), v)
                }
                &&& r is Ok ==> {
                    &&& final(self).areas().len() == old(self).areas().len() + 1
                    &&& final(self).areas().drop_last() == old(self).areas()
                    &&& final(self).areas().last().start() == s
                    &&& final(self).areas().last().end() == e
                    &&& final(self).areas().last().perm() == permission.bits
                    &&& final(self).areas().last().map_type() == MapType::Identical
                }
            }),
    {
        let s: u64 = start_va.floor().0;
        let e: u64 = end_va.ceil().0;
        if !(s <= e && e <= HALF_PAGES) {
            proof {
                self.lemma_keep(old(mem), old(allocator));
            }
            return Err(AreaError::InvalidRange);
        }
        if self.find_overlap(s, e).is_some() {
            proof {
                self.lemma_keep(old(mem), old(allocator));
            }
            return Err(AreaError::Overlap);
        }
        proof {
            assert forall|u: u64| s <= u < e implies (#[trigger] self.page_table.lookup(mem, u)) is None by {
                assert(vpn_valid(u));
                if self.page_table.lookup(mem, u) is Some {
                    if self.covered(u) {
                        assert(self.any_covered(s, e));
                    }
                }
            }
            assert forall|f: u64| #[trigger] self.page_table.frames().contains(f) implies allocator.is_allocated(
                f,
            ) by {
                assert(self.frames().contains(f));
            }
        }
        match map_identical(&mut self.page_table, mem, allocator, s, e, permission.bits) {
            Err(_) => {
                proof {
                    old(self).lemma_grown(old(mem), old(allocator), self, mem, allocator);
                    self.lemma_wf(mem);
                    assert forall|f: u64|
                        old(mem).has_frame(f) && !old(allocator).is_free(f) && !old(self).frames().contains(f) implies #[trigger] mem@[f] == old(mem)@[f] by {
                        assert(!old(self).table().frames().contains(f));
                    }
                    assert(self.data_frames() =~= old(self).data_frames());
                }
                Err(AreaError::OutOfFrames)
            },
            Ok(_) => {
                let ghost mid = *self;
                let frames: Vec<u64> = Vec::new();
                proof {
                    assert forall|q: u64|
                        allocator.is_free(q) <==> old(allocator).is_free(q)
                            && !self.page_table.frames().contains(q) && !frames@.contains(q) by {}
                    old(self).lemma_grown_mapped(
                        old(mem),
                        old(allocator),
                        &mid,
                        mem,
                        allocator,
                        s,
                        e,
                        frames@,
                        |u: u64| PageTableEntry { bits: pte_bits(u, permission.bits | PTE_V) },
                    );
                }
                let area = MapArea {
                    start: s,
                    end: e,
                    data_frames: frames,
                    map_type: MapType::Identical,
                    map_perm: permission,
                };
                self.areas.push(area);
                proof {
                    assert(self.areas@.drop_last() =~= old(self).areas@);
                    assert(self.areas@.last() == area);
                    mid.lemma_pushed(old(allocator), self, mem, allocator, area);
                    self.lemma_wf(mem);
                    assert forall|f: u64|
                        old(mem).has_frame(f) && !old(allocator).is_free(f) && !old(self).frames().contains(f) implies #[trigger] mem@[f] == old(mem)@[f] by {
                        assert(!old(self).table().frames().contains(f));
                    }
                    assert forall|f: u64| self.data_frames().contains(f) <==> old(self).data_frames().contains(f) by {
                        let n = old(self).areas@.len() as int;
                        if self.data_frames().contains(f) {
                            let (i, k) = choose|i: int, k: int|
                                0 <= i < self.areas().len() && 0 <= k < self.areas()[i].frames().len()
                                    && #[trigger] self.areas()[i].frames()[k] == f;
                            assert(i < n);
                            assert(old(self).areas()[i].frames()[k] == f);
                        }
                        if old(self).data_frames().contains(f) {
                            let (i, k) = choose|i: int, k: int|
                                0 <= i < old(self).areas().len() && 0 <= k < old(self).areas()[i].frames().len() && #[trigger] old(self).areas()[i].frames()[k] == f;
                            assert(self.areas()[i].frames()[k] == f);
                        }
                    }
                    assert(self.data_frames() =~= old(self).data_frames());
                }
                Ok(())
            },
        }
    }

    /// A range of pages of which one belongs to an area shares a page with
    /// that area.
    pub proof fn lemma_any_covered(&self, s: u64, e: u64)
        requires
            self.any_covered(s, e),
        ensures
            exists|i: int|
                0 <= i < self.areas().len() && ranges_overlap(
                    (#[trigger] self.areas()[i]).start(),
                    self.areas()[i].end(),
                    s,
                    e,
                ),
    {
        let v = choose|v: u64| s <= v < e && self.covered(v);
        let i = choose|i: int| 0 <= i < self.areas().len() && (#[trigger] self.areas()[i]).contains(v);
        assert(ranges_overlap(self.areas()[i].start(), self.areas()[i].end(), s, e));
    }

    /// No page belongs to two areas.
    pub proof fn lemma_areas_apart(&self, mem: &PhysMemory, i: int, j: int, v: u64)
        requires
            self.wf(mem),
            0 <= i < self.areas().len(),
            0 <= j < self.areas().len(),
            i != j,
            self.areas()[i].contains(v),
        ensures
            !self.areas()[j].contains(v),
    {
        if self.areas()[j].contains(v) {
            assert(ranges_overlap(
                self.areas()[i].start(),
                self.areas()[i].end(),
                self.areas()[j].start(),
                self.areas()[j].end(),
            ));
        }
    }

    /// The frame that backs the page `v`, if `v` is a page of a framed area.
    pub open spec fn page_frame(&self, v: u64) -> Option<u64> {
        if exists|i: int|
            0 <= i < self.areas().len() && (#[trigger] self.areas()[i]).contains(v)
                && self.areas()[i].map_type() == MapType::Framed {
            let i = choose|i: int|
                0 <= i < self.areas().len() && (#[trigger] self.areas()[i]).contains(v)
                    && self.areas()[i].map_type() == MapType::Framed;
            Some(self.areas()[i].frames()[v - self.areas()[i].start()])
        } else {
            None
        }
    }

    /// The physical address behind `va`, if `va` lies in a framed area.
    pub open spec fn page_addr(&self, va: u64) -> Option<u64> {
        match self.page_frame((va / 4096) as u64) {
            Some(f) => Some((f * 4096 + va % 4096) as u64),
            None => None,
        }
    }

    /// Whether the byte `i` after `va` lies at the physical address `pa`.
    pub open spec fn store_hits(&self, va: u64, i: int, pa: u64) -> bool {
        self.page_addr((va + i) as u64) == Some(pa)
    }

    /// The frame behind a page of the framed area at position `i` is the
    /// frame that the area has for it: a page belongs to one area only.
    pub proof fn lemma_page_frame(&self, i: int, v: u64)
        requires
            self.areas_disjoint(),
            0 <= i < self.areas().len(),
            self.areas()[i].contains(v),
        ensures
            self.page_frame(v) == match self.areas()[i].map_type() {
                MapType::Framed => Some(self.areas()[i].frames()[v - self.areas()[i].start()]),
                MapType::Identical => None,
            },
    {
        assert forall|j: int|
            0 <= j < self.areas().len() && (#[trigger] self.areas()[j]).contains(v) implies j == i by {
            if j != i {
                assert(ranges_overlap(
                    self.areas()[i].start(),
                    self.areas()[i].end(),
                    self.areas()[j].start(),
                    self.areas()[j].end(),
                ));
            }
        }
    }

    /// A frame that backs a page is a frame of the memory and of the
    /// address space, no table, and is what the page table maps the page to;
    /// distinct pages have distinct frames.
    pub proof fn lemma_page_frame_wf(&self, mem: &PhysMemory, v: u64)
        requires
            self.wf(mem),
            self.page_frame(v) is Some,
        ensures
            mem.has_frame(self.page_frame(v)->0),
            self.page_frame(v)->0 < 0x1000_0000_0000,
            self.data_frames().contains(self.page_frame(v)->0),
            !self.table().frames().contains(self.page_frame(v)->0),
            self.covered(v),
            vpn_valid(v),
            self.lookup(mem, v) is Some,
            entry_ppn(self.lookup(mem, v)->0.bits) == self.page_frame(v)->0,
            forall|w: u64| w != v && self.page_frame(w) is Some ==> self.page_frame(w) != self.page_frame(v),
    {
        let i = choose|i: int|
            0 <= i < self.areas().len() && (#[trigger] self.areas()[i]).contains(v)
                && self.areas()[i].map_type() == MapType::Framed;
        let a = self.areas()[i];
        let k = v - a.start();
        assert(a.wf());
        assert(self.areas@[i].frames()[k] == self.page_frame(v)->0);
        self.lemma_wf(mem);
        mem.lemma_view();
        lemma_pte_bits(a.frames()[k], a.perm() | PTE_V);
        assert(self.lookup(mem, v) == Some(a.entry_of(v)));
        assert forall|w: u64| w != v && self.page_frame(w) is Some implies self.page_frame(w)
            != self.page_frame(v) by {
            let j = choose|j: int|
                0 <= j < self.areas().len() && (#[trigger] self.areas()[j]).contains(w)
                    && self.areas()[j].map_type() == MapType::Framed;
            let b = self.areas()[j];
            assert(b.wf());
            let l = w - b.start();
            assert(self.areas@[i].frames()[k] != self.areas@[j].frames()[l]);
        }
    }

    /// The frame that backs the page `vpn`, if it is a page of a framed area.
    pub fn frame_of(&self, vpn: VirtPageNum) -> (r: Option<PhysPageNum>)
        requires
            self.areas_disjoint(),
        ensures
            r is Some <==> self.page_frame(vpn.0) is Some,
            r matches Some(p) ==> self.page_frame(vpn.0) == Some(p.0),
    {
        match self.find_containing(vpn.0) {
            None => {
                proof {
                    if self.page_frame(vpn.0) is Some {
                        let i = choose|i: int|
                            0 <= i < self.areas().len() && (#[trigger] self.areas()[i]).contains(vpn.0)
                                && self.areas()[i].map_type() == MapType::Framed;
                        assert(self.areas()[i].contains(vpn.0));
                    }
                }
                None
            },
            Some(i) => {
                proof {
                    self.lemma_page_frame(i as int, vpn.0);
                    assert(self.areas()[i as int].wf());
                }
                let a = &self.areas[i];
                match a.map_type {
                    MapType::Framed => Some(PhysPageNum(a.data_frames[(vpn.0 - a.start) as usize])),
                    MapType::Identical => None,
                }
            },
        }
    }

    /// The word at index `idx` of the page `vpn`, read by the kernel: `None`
    /// when `vpn` is no page of a framed area.
    pub fn load_word(&self, mem: &PhysMemory, vpn: VirtPageNum, idx: usize) -> (r: Option<u64>)
        requires
            self.wf(mem),
            idx < 512,
        ensures
            r == match self.page_frame(vpn.0) {
                Some(f) => Some(mem@[f][idx as int]),
                None => None,
            },
    {
        proof {
            self.lemma_wf(mem);
        }
        match self.frame_of(vpn) {
            None => None,
            Some(p) => {
                proof {
                    self.lemma_page_frame_wf(mem, vpn.0);
                }
                Some(mem.read_word(p, idx))
            },
        }
    }

    /// Stores `val` at index `idx` of the page `vpn`, by the kernel. Returns
    /// whether `vpn` is a page of a framed area; nothing changes when it is
    /// not.
    pub fn store_word(&self, mem: &mut PhysMemory, vpn: VirtPageNum, idx: usize, val: u64) -> (r: bool)
        requires
            self.wf(old(mem)),
            idx < 512,
        ensures
            self.wf(final(mem)),
            final(mem).wf(),
            final(mem).base() == old(mem).base(),
            final(mem).frame_count() == old(mem).frame_count(),
            r == self.page_frame(vpn.0) is Some,
            !r ==> final(mem)@ == old(mem)@,
            forall|v: u64| #[trigger] self.lookup(final(mem), v) == self.lookup(old(mem), v),
            forall|f: u64|
                old(mem).has_frame(f) && !self.data_frames().contains(f) ==> #[trigger] final(mem)@[f]
                    == old(mem)@[f],
            r ==> final(mem)@ == old(mem)@.insert(
                self.page_frame(vpn.0)->0,
                old(mem)@[self.page_frame(vpn.0)->0].update(idx as int, val),
            ),
    {
        proof {
            self.lemma_wf(mem);
        }
        match self.frame_of(vpn) {
            None => {
                proof {
                    self.lemma_stable(old(mem), mem);
                }
                false
            },
            Some(p) => {
                proof {
                    self.lemma_page_frame_wf(mem, vpn.0);
                }
                mem.write_word(p, idx, val);
                proof {
                    self.lemma_stable(old(mem), mem);
                }
                true
            },
        }
    }

    /// Stores `b` at the address `va`, by the kernel. Returns whether `va`
    /// lies in a framed area; nothing changes when it does not.
    pub fn store_byte(&self, mem: &mut PhysMemory, va: VirtAddr, b: u8) -> (r: bool)
        requires
            self.wf(old(mem)),
        ensures
            self.wf(final(mem)),
            final(mem).wf(),
            final(mem).base() == old(mem).base(),
            final(mem).frame_count() == old(mem).frame_count(),
            r == self.page_addr(va.0) is Some,
            !r ==> final(mem)@ == old(mem)@,
            forall|v: u64| #[trigger] self.lookup(final(mem), v) == self.lookup(old(mem), v),
            forall|f: u64|
                old(mem).has_frame(f) && !self.data_frames().contains(f) ==> #[trigger] final(mem)@[f]
                    == old(mem)@[f],
            r ==> {
                let pa = self.page_addr(va.0)->0;
                let f = (pa / 4096) as u64;
                final(mem)@ == old(mem)@.insert(f, frame_with_byte(old(mem)@[f], (pa % 4096) as int, b))
            },
    {
        proof {
            self.lemma_wf(mem);
        }
        match self.frame_of(VirtPageNum(va.0 / 4096)) {
            None => {
                proof {
                    self.lemma_stable(old(mem), mem);
                }
                false
            },
            Some(p) => {
                proof {
                    self.lemma_page_frame_wf(mem, (va.0 / 4096) as u64);
                }
                mem.write_byte(PhysAddr(p.0 * 4096 + va.0 % 4096), b);
                proof {
                    self.lemma_stable(old(mem), mem);
                }
                true
            },
        }
    }

    /// The byte at the address `va`, read by the kernel: `None` when `va`
    /// does not lie in a framed area.
    pub fn load_byte(&self, mem: &PhysMemory, va: VirtAddr) -> (r: Option<u8>)
        requires
            self.wf(mem),
        ensures
            r == match self.page_addr(va.0) {
                Some(pa) => Some(mem.byte(pa)),
                None => None,
            },
    {
        proof {
            self.lemma_wf(mem);
        }
        match self.frame_of(VirtPageNum(va.0 / 4096)) {
            None => None,
            Some(p) => {
                proof {
                    self.lemma_page_frame_wf(mem, (va.0 / 4096) as u64);
                }
                Some(mem.read_byte(PhysAddr(p.0 * 4096 + va.0 % 4096)))
            },
        }
    }

    /// Whether the `len` bytes from `va` on lie in framed areas.
    pub open spec fn page_range(&self, va: u64, len: nat) -> bool {
        &&& va + len <= 0x1_0000_0000_0000_0000
        &&& forall|i: nat| i < len ==> (#[trigger] self.page_addr((va + i) as u64)) is Some
    }

    /// Stores the `len` bytes of `data` from position `from` on at `va` and
    /// the addresses after it, by the kernel. Returns whether all these
    /// addresses lie in framed areas; nothing changes when they do not.
    pub fn store_bytes(
        &self,
        mem: &mut PhysMemory,
        va: VirtAddr,
        data: &[u8],
        from: usize,
        len: usize,
    ) -> (r: bool)
        requires
            self.wf(old(mem)),
            from + len <= data@.len(),
        ensures
            self.wf(final(mem)),
            final(mem).wf(),
            final(mem).base() == old(mem).base(),
            final(mem).frame_count() == old(mem).frame_count(),
            r == self.page_range(va.0, len as nat),
            !r ==> final(mem)@ == old(mem)@,
            forall|v: u64| #[trigger] self.lookup(final(mem), v) == self.lookup(old(mem), v),
            forall|f: u64|
                old(mem).has_frame(f) && !self.data_frames().contains(f) ==> #[trigger] final(mem)@[f]
                    == old(mem)@[f],
            r ==> forall|pa: u64|
                old(mem).has_frame((pa / 4096) as u64) ==> #[trigger] final(mem).byte(pa) == if exists|
                    i: int,
                |
                    0 <= i < len && #[trigger] self.store_hits(va.0, i, pa) {
                    data@[from + choose|i: int| 0 <= i < len && #[trigger] self.store_hits(va.0, i, pa)]
                } else {
                    old(mem).byte(pa)
                },
    {
        proof {
            self.lemma_wf(mem);
        }
        if len as u64 > 0 && va.0 > u64::MAX - (len as u64 - 1) {
            proof {
                self.lemma_stable(old(mem), mem);
            }
            return false;
        }
        let total: usize = data.len();
        let mut j: usize = 0;
        while j < len
            invariant
                j <= len,
                self.areas_disjoint(),
                self.wf(mem),
                mem.wf(),
                *mem == *old(mem),
                va.0 + len <= 0x1_0000_0000_0000_0000,
                forall|k: nat| k < j ==> (#[trigger] self.page_addr((va.0 + k) as u64)) is Some,
            decreases len - j,
        {
            if self.frame_of(VirtPageNum((va.0 + j as u64) / 4096)).is_none() {
                proof {
                    assert(self.page_addr((va.0 + (j as nat)) as u64) is None);
                    self.lemma_stable(old(mem), mem);
                }
                return false;
            }
            j = j + 1;
        }
        let mut i: usize = 0;
        while i < len
            invariant
                i <= len,
                from + len <= data@.len(),
                total == data@.len(),
                self.wf(mem),
                self.wf(old(mem)),
                mem.wf(),
                mem.base() == old(mem).base(),
                mem.frame_count() == old(mem).frame_count(),
                self.page_range(va.0, len as nat),
                forall|v: u64| #[trigger] self.lookup(mem, v) == self.lookup(old(mem), v),
                forall|f: u64|
                    old(mem).has_frame(f) && !self.data_frames().contains(f) ==> #[trigger] mem@[f]
                        == old(mem)@[f],
                forall|pa: u64|
                    old(mem).has_frame((pa / 4096) as u64) ==> #[trigger] mem.byte(pa) == if exists|
                        k: int,
                    |
                        0 <= k < i && #[trigger] self.store_hits(va.0, k, pa) {
                        data@[from + choose|k: int| 0 <= k < i && #[trigger] self.store_hits(va.0, k, pa)]
                    } else {
                        old(mem).byte(pa)
                    },
            decreases len - i,
        {
            let ghost mem1 = *mem;
            let ghost vi = (va.0 + i) as u64;
            proof {
                assert(self.page_addr((va.0 + (i as nat)) as u64) is Some);
                self.lemma_page_frame_wf(mem, (vi / 4096) as u64);
                mem.lemma_view();
            }
            let ok = self.store_byte(mem, VirtAddr(va.0 + i as u64), data[from + i]);
            proof {
                let pi = self.page_addr(vi)->0;
                assert(self.store_hits(va.0, i as int, pi));
                assert forall|pa: u64| old(mem).has_frame((pa / 4096) as u64) implies #[trigger] mem.byte(
                    pa,
                ) == if exists|k: int| 0 <= k < i + 1 && #[trigger] self.store_hits(va.0, k, pa) {
                    data@[from + choose|k: int|
                        0 <= k < i + 1 && #[trigger] self.store_hits(va.0, k, pa)]
                } else {
                    old(mem).byte(pa)
                } by {
                    mem1.lemma_view();
                    lemma_frame_with_byte(
                        mem1@[(pi / 4096) as u64],
                        (pi % 4096) as int,
                        data@[from + i],
                        (pa % 4096) as int,
                    );
                    if pa == pi {
                        let c = choose|k: int|
                            0 <= k < i + 1 && #[trigger] self.store_hits(va.0, k, pa);
                        if c != i {
                            self.lemma_page_addr_injective(old(mem), (va.0 + c) as u64, vi);
                        }
                    } else {
                        assert(mem.byte(pa) == mem1.byte(pa));
                        if exists|k: int| 0 <= k < i + 1 && #[trigger] self.store_hits(va.0, k, pa) {
                            let c = choose|k: int|
                                0 <= k < i + 1 && #[trigger] self.store_hits(va.0, k, pa);
                            assert(c < i);
                            assert(self.store_hits(va.0, c, pa));
                            let d = choose|k: int|
                                0 <= k < i && #[trigger] self.store_hits(va.0, k, pa);
                            if c != d {
                                self.lemma_page_addr_injective(
                                    old(mem),
                                    (va.0 + c) as u64,
                                    (va.0 + d) as u64,
                                );
                            }
                        } else {
                            if exists|k: int| 0 <= k < i && #[trigger] self.store_hits(va.0, k, pa) {
                                let d = choose|k: int|
                                    0 <= k < i && #[trigger] self.store_hits(va.0, k, pa);
                                assert(self.store_hits(va.0, d, pa));
                            }
                        }
                    }
                }
            }
            i = i + 1;
        }
        true
    }

    /// Distinct addresses in framed areas lie at distinct physical
    /// addresses.
    pub proof fn lemma_page_addr_injective(&self, mem: &PhysMemory, va1: u64, va2: u64)
        requires
            self.wf(mem),
            self.page_addr(va1) is Some,
            self.page_addr(va2) is Some,
            va1 != va2,
        ensures
            self.page_addr(va1) != self.page_addr(va2),
    {
        self.lemma_page_frame_wf(mem, (va1 / 4096) as u64);
        self.lemma_page_frame_wf(mem, (va2 / 4096) as u64);
    }

    /// Sets the first page above the fixed part of the address space, from
    /// which the search for free pages starts. It must lie in the lower
    /// half.
    pub fn set_image_end(&mut self, mem: &PhysMemory, end: VirtPageNum)
        requires
            old(self).wf(mem),
            end.0 <= HALF_PAGES,
        ensures
            final(self).wf(mem),
            final(self).image_end() == end.0,
            final(self).areas() == old(self).areas(),
            final(self).table() == old(self).table(),
            final(self).trampoline() == old(self).trampoline(),
            final(self).frames() == old(self).frames(),
            final(self).data_frames() == old(self).data_frames(),
            forall|v: u64| final(self).covered(v) == old(self).covered(v),
            forall|v: u64| final(self).page_frame(v) == old(self).page_frame(v),
            forall|v: u64| #[trigger] final(self).lookup(mem, v) == old(self).lookup(mem, v),
    {
        self.image_end = end.0;
        proof {
            assert(self.data_frames() =~= old(self).data_frames());
            assert(self.frames() =~= old(self).frames());
            assert forall|v: u64| self.covered(v) == old(self).covered(v) by {
                if self.covered(v) {
                    let i = choose|i: int| 0 <= i < self.areas().len() && (#[trigger] self.areas()[i]).contains(v);
                    assert(old(self).areas()[i].contains(v));
                }
                if old(self).covered(v) {
                    let i = choose|i: int|
                        0 <= i < old(self).areas().len() && (#[trigger] old(self).areas()[i]).contains(v);
                    assert(self.areas()[i].contains(v));
                }
            }
            assert(self.areas_disjoint());
        }
    }

    /// A page that a framed area backs keeps its frame when an area is
    /// added at the end.
    pub proof fn lemma_page_frame_pushed(&self, now: &MemorySet, v: u64)
        requires
            self.areas_disjoint(),
            now.areas_disjoint(),
            now.areas().len() == self.areas().len() + 1,
            now.areas().drop_last() == self.areas(),
            self.page_frame(v) is Some,
        ensures
            now.page_frame(v) == self.page_frame(v),
    {
        let i = choose|i: int|
            0 <= i < self.areas().len() && (#[trigger] self.areas()[i]).contains(v)
                && self.areas()[i].map_type() == MapType::Framed;
        assert(now.areas().drop_last()[i] == now.areas()[i]);
        self.lemma_page_frame(i, v);
        now.lemma_page_frame(i, v);
    }

    /// The pages of the last area, when it is framed, are backed by its
    /// frames.
    pub proof fn lemma_page_frame_last(&self, v: u64)
        requires
            self.areas_disjoint(),
            self.areas().len() > 0,
            self.areas().last().contains(v),
            self.areas().last().map_type() == MapType::Framed,
        ensures
            self.page_frame(v) == Some(
                self.areas().last().frames()[v - self.areas().last().start()],
            ),
    {
        self.lemma_page_frame(self.areas().len() - 1, v);
    }

    /// Whether every area is framed.
    pub open spec fn all_framed(&self) -> bool {
        forall|i: int|
            0 <= i < self.areas().len() ==> (#[trigger] self.areas()[i]).map_type()
                == MapType::Framed
    }

    /// Whether `child` is a copy of this address space as it was in the
    /// memory `mem`: the same trampoline and the same areas, framed, with
    /// frames of their own that hold in `mem2` what the frames of this
    /// address space held in `mem`.
    pub open spec fn copied_to(&self, mem: &PhysMemory, child: &MemorySet, mem2: &PhysMemory) -> bool {
        &&& child.trampoline() == self.trampoline()
        &&& child.image_end() == self.image_end()
        &&& child.areas().len() == self.areas().len()
        &&& forall|i: int|
            0 <= i < self.areas().len() ==> {
                let a = #[trigger] self.areas()[i];
                let c = child.areas()[i];
                &&& c.start() == a.start()
                &&& c.end() == a.end()
                &&& c.perm() == a.perm()
                &&& c.map_type() == MapType::Framed
                &&& c.frames().len() == a.frames().len()
            }
        &&& forall|i: int, k: int|
            0 <= i < self.areas().len() && 0 <= k < self.areas()[i].frames().len() ==> mem2@[#[trigger] child.areas()[i].frames()[k]]
                == mem@[self.areas()[i].frames()[k]]
    }

    /// Whether every area is framed.
    pub fn is_all_framed(&self) -> (r: bool)
        ensures
            r == self.all_framed(),
    {
        let mut i: usize = 0;
        while i < self.areas.len()
            invariant
                i <= self.areas@.len(),
                forall|k: int| 0 <= k < i ==> (#[trigger] self.areas()[k]).map_type() == MapType::Framed,
            decreases self.areas@.len() - i,
        {
            match self.areas[i].map_type {
                MapType::Framed => {},
                MapType::Identical => {
                    assert(self.areas()[i as int].map_type() != MapType::Framed);
                    return false;
                },
            }
            i = i + 1;
        }
        true
    }

    /// A copy of the address space `parent`, as a fork needs it: the same
    /// areas and trampoline, every page on a fresh frame of its own that
    /// holds what the page of `parent` holds.
    ///
    /// `None` when `parent` has an area that is not framed, or when the
    /// frames run out; then every frame that was taken is given back. With
    /// three free frames for every page of `parent` and three more there are
    /// enough.
    pub fn from_existed_user_space(
        mem: &mut PhysMemory,
        allocator: &mut StackFrameAllocator,
        parent: &MemorySet,
    ) -> (r: Option<MemorySet>)
        requires
            parent.wf(old(mem)),
            old(allocator).wf(),
            old(allocator).within(old(mem)),
            parent.owned(old(allocator)),
        ensures
            final(mem).base() == old(mem).base(),
            final(mem).frame_count() == old(mem).frame_count(),
            final(allocator).wf(),
            final(allocator).range_start() == old(allocator).range_start(),
            final(allocator).range_end() == old(allocator).range_end(),
            parent.wf(final(mem)),
            parent.owned(final(allocator)),
            forall|v: u64| #[trigger] parent.lookup(final(mem), v) == parent.lookup(old(mem), v),
            forall|f: u64|
                old(mem).has_frame(f) && !old(allocator).is_free(f) ==> #[trigger] final(mem)@[f]
                    == old(mem)@[f],
            r is None ==> !parent.all_framed() || old(allocator).free_count() < 3 * page_total(
                parent.areas(),
            ) + 3,
            r is None ==> forall|q: u64| final(allocator).is_free(q) <==> old(allocator).is_free(q),
            r is None ==> final(allocator).free_count() == old(allocator).free_count(),
            r matches Some(child) ==> forall|q: u64|
                final(allocator).is_free(q) <==> old(allocator).is_free(q) && !child.frames().contains(q),
            final(mem).wf(),
            r is None ==> effect(
                Set::<u64>::empty(),
                old(mem),
                old(allocator),
                Set::<u64>::empty(),
                final(mem),
                final(allocator),
            ),
            r matches Some(child) ==> {
                &&& child.wf(final(mem))
                &&& child.owned(final(allocator))
                &&& effect(
                    Set::<u64>::empty(),
                    old(mem),
                    old(allocator),
                    child.frames(),
                    final(mem),
                    final(allocator),
                )
                &&& child.frames().disjoint(parent.frames())
                &&& final(allocator).free_count() + 3 * page_total(parent.areas()) + 3 >= old(allocator).free_count()
                &&& parent.copied_to(old(mem), &child, final(mem))
                &&& forall|f: u64| #[trigger] child.frames().contains(f) ==> old(allocator).is_free(f)
                &&& forall|q: u64|
                    final(allocator).is_free(q) <==> old(allocator).is_free(q)
                        && !child.frames().contains(q)
            },
    {
        proof {
            parent.lemma_wf(old(mem));
            old(allocator).lemma_free();
            assert forall|f: u64| #[trigger] parent.table().frames().contains(f) implies !old(allocator).is_free(f) by {
                assert(parent.frames().contains(f));
                assert(old(allocator).is_allocated(f));
            }
        }
        if !parent.is_all_framed() {
            proof {
                parent.lemma_keep(old(mem), old(allocator));
            }
            proof {
                old(allocator).lemma_same_free(allocator);
            }
            return None;
        }
        let mut child = match MemorySet::new_bare(mem, allocator) {
            None => {
                proof {
                    parent.lemma_untouched(old(mem), old(allocator), mem);
                    parent.lemma_owned_after(old(allocator), allocator);
                    lemma_page_total_nonneg(parent.areas());
                }
                proof {
                    old(allocator).lemma_same_free(allocator);
                }
                return None;
            },
            Some(c) => c,
        };
        let ghost child0 = child;
        let ghost mem0 = *mem;
        let ghost alloc0 = *allocator;
        child.image_end = parent.image_end;
        proof {
            assert forall|v: u64| !child.covered(v) by {}
            assert(child.data_frames() =~= child0.data_frames());
            assert(child.wf(mem)) by {
                assert(child.areas_disjoint());
            }
        }
        match parent.trampoline {
            None => {},
            Some(p) => {
                match child.map_trampoline(mem, allocator, PhysPageNum(p)) {
                    Err(_) => {
                        let ghost mem1 = *mem;
                        child.destroy(mem, allocator);
                        proof {
                            assert forall|f: u64|
                                old(mem).has_frame(f) && !old(allocator).is_free(f) implies #[trigger] mem@[f]
                                    == old(mem)@[f] by {
                                assert(!alloc0.is_free(f));
                                if child0.table().frames().contains(f) {
                                    assert(child0.frames().contains(f));
                                }
                                assert(mem0@[f] == old(mem)@[f]);
                                if child.table().frames().contains(f) {
                                    assert(child.frames().contains(f));
                                    if !child0.frames().contains(f) {
                                        assert(alloc0.is_free(f));
                                    }
                                }
                                assert(mem1@[f] == mem0@[f]);
                            }
                            parent.lemma_untouched(old(mem), old(allocator), mem);
                            parent.lemma_owned_after(old(allocator), allocator);
                            lemma_page_total_nonneg(parent.areas());
                            assert forall|q: u64| allocator.is_free(q) <==> old(allocator).is_free(q) by {
                                if child.frames().contains(q) {
                                    if !child0.frames().contains(q) {
                                        assert(alloc0.is_free(q));
                                    }
                                }
                            }
                        }
                        proof {
                            old(allocator).lemma_same_free(allocator);
                        }
                        return None;
                    },
                    Ok(_) => {},
                }
            },
        }
        let mut i: usize = 0;
        proof {
            assert(parent.areas().take(0) =~= Seq::<MapArea>::empty());
            assert forall|f: u64|
                old(mem).has_frame(f) && !old(allocator).is_free(f) implies #[trigger] mem@[f] == old(mem)@[f] by {
                assert(!alloc0.is_free(f));
                if child0.table().frames().contains(f) {
                    assert(child0.frames().contains(f));
                }
                assert(mem0@[f] == old(mem)@[f]);
            }
            child.lemma_wf(mem);
            assert forall|f: u64| #[trigger] child.frames().contains(f) implies old(allocator).is_free(
                f,
            ) by {
                if !child0.frames().contains(f) {
                    assert(alloc0.is_free(f));
                }
            }
            assert forall|q: u64|
                allocator.is_free(q) <==> old(allocator).is_free(q) && !child.frames().contains(q) by {
                if child0.frames().contains(q) {
                    assert(child.frames().contains(q));
                }
            }
        }
        while i < parent.areas.len()
            invariant
                old(allocator).wf(),
                i <= parent.areas().len(),
                parent.wf(old(mem)),
                parent.owned(old(allocator)),
                parent.all_framed(),
                old(allocator).wf(),
                old(allocator).within(old(mem)),
                mem.base() == old(mem).base(),
                mem.frame_count() == old(mem).frame_count(),
                allocator.wf(),
                allocator.within(mem),
                allocator.range_start() == old(allocator).range_start(),
                allocator.range_end() == old(allocator).range_end(),
                mem.wf(),
                child.wf(mem),
                child.owned(allocator),
                child.trampoline() == parent.trampoline(),
                child.image_end() == parent.image_end(),
                child.areas().len() == i,
                forall|j: int|
                    0 <= j < i ==> {
                        let a = #[trigger] parent.areas()[j];
                        let c = child.areas()[j];
                        &&& c.start() == a.start()
                        &&& c.end() == a.end()
                        &&& c.perm() == a.perm()
                        &&& c.map_type() == MapType::Framed
                        &&& c.frames().len() == a.frames().len()
                    },
                forall|j: int, k: int|
                    0 <= j < i && 0 <= k < parent.areas()[j].frames().len() ==> mem@[#[trigger] child.areas()[j].frames()[k]]
                        == old(mem)@[parent.areas()[j].frames()[k]],
                forall|f: u64| #[trigger] child.frames().contains(f) ==> old(allocator).is_free(f),
                forall|q: u64|
                    allocator.is_free(q) <==> old(allocator).is_free(q) && !child.frames().contains(q),
                forall|f: u64|
                    old(mem).has_frame(f) && !old(allocator).is_free(f) ==> #[trigger] mem@[f] == old(mem)@[f],
                allocator.free_count() + 3 + 3 * page_total(parent.areas().take(i as int)) >= old(allocator).free_count(),
            decreases parent.areas().len() - i,
        {
            let a = &parent.areas[i];
            let ghost mem1 = *mem;
            let ghost child1 = child;
            let ghost alloc1 = *allocator;
            proof {
                parent.lemma_wf(old(mem));
                assert(parent.areas()[i as int].wf());
                assert(parent.areas().take(i as int + 1).drop_last() =~= parent.areas().take(i as int));
                assert(parent.areas().take(i as int + 1).last() == parent.areas()[i as int]);
                assert(!child.any_covered(a.start, a.end)) by {
                    if child.any_covered(a.start, a.end) {
                        let v = choose|v: u64| a.start <= v < a.end && child.covered(v);
                        let j = choose|j: int|
                            0 <= j < child.areas().len() && (#[trigger] child.areas()[j]).contains(v);
                        assert(parent.areas()[j].contains(v));
                        assert(ranges_overlap(
                            parent.areas()[j].start(),
                            parent.areas()[j].end(),
                            parent.areas()[i as int].start(),
                            parent.areas()[i as int].end(),
                        ));
                    }
                }
                if parent.trampoline() is Some && a.start <= TRAMPOLINE_VPN < a.end {
                    assert(parent.areas()[i as int].contains(TRAMPOLINE_VPN));
                    assert(parent.covered(TRAMPOLINE_VPN));
                }
            }
            let res = child.insert_framed_pages(
                mem,
                allocator,
                VirtPageNum(a.start),
                VirtPageNum(a.end),
                a.map_perm,
            );
            proof {
                assert(child1.inserted(
                    &mem1,
                    &alloc1,
                    &child,
                    mem,
                    allocator,
                    a.start,
                    a.end,
                    a.map_perm.bits,
                    res,
                ));
                assert(range_valid(a.start, a.end));
                if res is Err {
                    assert(res != Err::<(), AreaError>(AreaError::InvalidRange));
                    assert(res != Err::<(), AreaError>(AreaError::Overlap));
                    assert(res != Err::<(), AreaError>(AreaError::NoSuchArea));
                    let err = res->Err_0;
                    assert(res == Err::<(), AreaError>(err));
                    match err {
                        AreaError::InvalidRange => {},
                        AreaError::Overlap => {},
                        AreaError::NoSuchArea => {},
                        AreaError::OutOfFrames => {},
                    }
                    assert(res == Err::<(), AreaError>(AreaError::OutOfFrames));
                }
            }
            match res {
                Err(_) => {
                    let ghost mem2 = *mem;
                    child.destroy(mem, allocator);
                    proof {
                        assert forall|f: u64|
                            old(mem).has_frame(f) && !old(allocator).is_free(f) implies #[trigger] mem@[f]
                                == old(mem)@[f] by {
                            assert(!alloc1.is_free(f));
                            if child1.table().frames().contains(f) {
                                assert(child1.frames().contains(f));
                            }
                            if child.table().frames().contains(f) {
                                assert(child.frames().contains(f));
                            }
                            assert(mem2@[f] == mem1@[f]);
                        }
                        assert forall|q: u64| allocator.is_free(q) <==> old(allocator).is_free(q) by {
                            if child.frames().contains(q) {
                                if !child1.frames().contains(q) {
                                    assert(alloc1.is_free(q));
                                }
                            }
                        }
                        parent.lemma_untouched(old(mem), old(allocator), mem);
                        parent.lemma_owned_after(old(allocator), allocator);
                        lemma_page_total_mono(parent.areas(), i as int + 1);
                        assert(range_valid(a.start, a.end));
                        assert(alloc1.free_count() < 3 * (a.end - a.start));
                        assert(page_total(parent.areas().take(i as int + 1)) == page_total(
                            parent.areas().take(i as int),
                        ) + (a.end - a.start));
                    }
                    proof {
                        old(allocator).lemma_same_free(allocator);
                    }
                    return None;
                },
                Ok(_) => {
                    let ghost mem2 = *mem;
                    proof {
                        child.lemma_wf(mem);
                        assert(child.areas()[i as int] == child.areas().last());
                        assert forall|j: int| 0 <= j < i implies child.areas()[j] == child1.areas()[j] by {
                            assert(child.areas().drop_last()[j] == child.areas()[j]);
                        }
                        let dst = child.areas()[i as int].frames();
                        let src = parent.areas()[i as int].frames();
                        assert forall|k: int| 0 <= k < dst.len() implies mem.has_frame(#[trigger] dst[k]) by {
                            assert(child.areas()[i as int].frames()[k] == dst[k]);
                            assert(child.data_frames().contains(dst[k]));
                        }
                        assert forall|k: int| 0 <= k < src.len() implies mem.has_frame(#[trigger] src[k])
                            && !old(allocator).is_free(src[k]) by {
                            assert(parent.areas()[i as int].frames()[k] == src[k]);
                            assert(parent.data_frames().contains(src[k]));
                            assert(parent.frames().contains(src[k]));
                            assert(old(allocator).is_allocated(src[k]));
                        }
                        assert forall|k: int, l: int|
                            0 <= k < dst.len() && 0 <= l < dst.len() && k != l implies dst[k]
                            != dst[l] by {
                            assert(child.areas()[i as int].frames()[k] != child.areas()[i as int].frames()[l]);
                        }
                        assert forall|k: int| 0 <= k < dst.len() implies alloc1.is_free(#[trigger] dst[k]) by {
                            assert(child.areas().last().frames()[k] == dst[k]);
                        }
                        assert forall|k: int, l: int|
                            0 <= k < dst.len() && 0 <= l < src.len() implies dst[k] != src[l] by {
                            assert(alloc1.is_free(dst[k]));
                        }
                    }
                    copy_frames(mem, &child.areas[i].data_frames, &a.data_frames);
                    proof {
                        let dst = child.areas()[i as int].frames();
                        let src = parent.areas()[i as int].frames();
                        assert forall|f: u64| #[trigger] child.table().frames().contains(f) implies mem@[f]
                            == mem2@[f] by {
                            if dst.contains(f) {
                                let k = choose|k: int| 0 <= k < dst.len() && dst[k] == f;
                                assert(child.areas()[i as int].frames()[k] == f);
                                assert(child.data_frames().contains(f));
                            }
                        }
                        child.lemma_stable(&mem2, mem);
                        assert forall|f: u64|
                            old(mem).has_frame(f) && !old(allocator).is_free(f) implies #[trigger] mem@[f]
                                == old(mem)@[f] by {
                            assert(!alloc1.is_free(f));
                            if child1.table().frames().contains(f) {
                                assert(child1.frames().contains(f));
                            }
                            assert(mem2@[f] == mem1@[f]);
                            if dst.contains(f) {
                                let k = choose|k: int| 0 <= k < dst.len() && dst[k] == f;
                                assert(alloc1.is_free(dst[k]));
                            }
                        }
                        assert forall|j: int, k: int|
                            0 <= j < i + 1 && 0 <= k < parent.areas()[j].frames().len() implies mem@[#[trigger] child.areas()[j].frames()[k]]
                            == old(mem)@[parent.areas()[j].frames()[k]] by {
                            let f = child.areas()[j].frames()[k];
                            if j < i {
                                assert(child1.areas()[j].frames()[k] == f);
                                assert(child1.data_frames().contains(f));
                                assert(child1.frames().contains(f));
                                assert(!alloc1.is_free(f)) by {
                                    assert(alloc1.is_allocated(f));
                                }
                                assert(!child1.table().frames().contains(f)) by {
                                    child1.lemma_wf(&mem1);
                                }
                                assert(mem2@[f] == mem1@[f]);
                                if dst.contains(f) {
                                    let l = choose|l: int| 0 <= l < dst.len() && dst[l] == f;
                                    assert(alloc1.is_free(dst[l]));
                                }
                                assert(mem@[f] == mem2@[f]);
                            } else {
                                let g = parent.areas()[i as int].frames()[k];
                                assert(mem@[dst[k]] == mem2@[src[k]]);
                                assert(mem2@[g] == old(mem)@[g]) by {
                                    assert(!old(allocator).is_free(src[k]));
                                    assert(!alloc1.is_free(g));
                                    assert(mem1@[g] == old(mem)@[g]);
                                    if child1.table().frames().contains(g) {
                                        assert(child1.frames().contains(g));
                                    }
                                }
                            }
                        }
                        assert forall|f: u64| #[trigger] child.frames().contains(f) implies old(allocator).is_free(f) by {
                            if !child1.frames().contains(f) {
                                assert(alloc1.is_free(f));
                            }
                        }
                        assert forall|q: u64|
                            allocator.is_free(q) <==> old(allocator).is_free(q)
                                && !child.frames().contains(q) by {
                            if child1.frames().contains(q) {
                                assert(child.frames().contains(q));
                            }
                        }
                    }
                },
            }
            i = i + 1;
        }
        proof {
            parent.lemma_untouched(old(mem), old(allocator), mem);
            parent.lemma_owned_after(old(allocator), allocator);
            assert(parent.copied_to(old(mem), &child, mem));
            assert(parent.areas().take(parent.areas().len() as int) =~= parent.areas());
        }
        Some(child)
    }

    /// An address space whose frames are allocated is untouched by changes
    /// to frames that were free.
    proof fn lemma_untouched(
        &self,
        mem: &PhysMemory,
        allocator: &StackFrameAllocator,
        mem2: &PhysMemory,
    )
        requires
            self.wf(mem),
            self.owned(allocator),
            mem2.wf(),
            mem2.base() == mem.base(),
            mem2.frame_count() == mem.frame_count(),
            forall|f: u64|
                mem.has_frame(f) && !allocator.is_free(f) ==> #[trigger] mem2@[f] == mem@[f],
        ensures
            self.wf(mem2),
            forall|v: u64| #[trigger] self.lookup(mem2, v) == self.lookup(mem, v),
    {
        self.lemma_wf(mem);
        assert forall|f: u64| #[trigger] self.table().frames().contains(f) implies mem2@[f] == mem@[f] by {
            assert(self.frames().contains(f));
            assert(allocator.is_allocated(f));
        }
        self.lemma_stable(mem, mem2);
    }

    /// An address space is untouched by an operation on another one with
    /// which it shares no frame: it stays in order, keeps its frames and
    /// their contents and all its translations, and shares no frame with the
    /// other one afterwards.
    pub proof fn lemma_bystander(
        &self,
        mem: &PhysMemory,
        allocator: &StackFrameAllocator,
        before: Set<u64>,
        after: Set<u64>,
        mem2: &PhysMemory,
        allocator2: &StackFrameAllocator,
    )
        requires
            self.wf(mem),
            self.owned(allocator),
            self.frames().disjoint(before),
            effect(before, mem, allocator, after, mem2, allocator2),
        ensures
            self.wf(mem2),
            self.owned(allocator2),
            self.frames().disjoint(after),
            forall|v: u64| #[trigger] self.lookup(mem2, v) == self.lookup(mem, v),
            forall|f: u64| #[trigger] self.frames().contains(f) ==> mem2@[f] == mem@[f],
    {
        self.lemma_wf(mem);
        assert forall|f: u64| #[trigger] self.frames().contains(f) implies mem2@[f] == mem@[f]
            && allocator2.is_allocated(f) && !after.contains(f) by {
            assert(allocator.is_allocated(f));
            assert(!before.contains(f));
            if self.table().frames().contains(f) {
            } else {
                assert(self.data_frames().contains(f));
            }
            assert(mem.has_frame(f));
            if after.contains(f) {
            }
        }
        assert forall|f: u64| #[trigger] self.table().frames().contains(f) implies mem2@[f] == mem@[f] by {
            assert(self.frames().contains(f));
        }
        self.lemma_stable(mem, mem2);
    }

    /// The frames of an address space stay allocated while the allocator
    /// hands out frames only.
    proof fn lemma_owned_after(&self, before: &StackFrameAllocator, after: &StackFrameAllocator)
        requires
            self.owned(before),
            after.range_start() == before.range_start(),
            after.range_end() == before.range_end(),
            forall|q: u64| after.is_free(q) ==> before.is_free(q),
        ensures
            self.owned(after),
    {
        assert forall|f: u64| #[trigger] self.frames().contains(f) implies after.is_allocated(f) by {
            assert(before.is_allocated(f));
        }
    }
}

/// The number of pages of all the areas together.
pub open spec fn page_total(areas: Seq<MapArea>) -> int
    decreases areas.len(),
{
    if areas.len() == 0 {
        0
    } else {
        page_total(areas.drop_last()) + (areas.last().end() - areas.last().start())
    }
}

/// Areas that end where or after they start have no fewer pages together
/// than the first `i` of them.
proof fn lemma_page_total_mono(areas: Seq<MapArea>, i: int)
    requires
        0 <= i <= areas.len(),
        forall|j: int| 0 <= j < areas.len() ==> (#[trigger] areas[j]).start() <= areas[j].end(),
    ensures
        page_total(areas.take(i)) <= page_total(areas),
    decreases areas.len() - i,
{
    if i == areas.len() {
        assert(areas.take(i) =~= areas);
    } else {
        lemma_page_total_mono(areas, i + 1);
        assert(areas.take(i + 1).drop_last() =~= areas.take(i));
        assert(areas.take(i + 1).last() == areas[i]);
    }
}

/// Areas that end where or after they start have no negative number of
/// pages together.
proof fn lemma_page_total_nonneg(areas: Seq<MapArea>)
    requires
        forall|j: int| 0 <= j < areas.len() ==> (#[trigger] areas[j]).start() <= areas[j].end(),
    ensures
        0 <= page_total(areas),
{
    lemma_page_total_mono(areas, 0);
    assert(areas.take(0) =~= Seq::<MapArea>::empty());
}

/// Copies the frame `src[k]` into the frame `dst[k]`, for every `k`.
fn copy_frames(mem: &mut PhysMemory, dst: &Vec<u64>, src: &Vec<u64>)
    requires
        old(mem).wf(),
        dst@.len() == src@.len(),
        forall|k: int| 0 <= k < dst@.len() ==> old(mem).has_frame(#[trigger] dst@[k]),
        forall|k: int| 0 <= k < src@.len() ==> old(mem).has_frame(#[trigger] src@[k]),
        forall|k: int, l: int| 0 <= k < dst@.len() && 0 <= l < dst@.len() && k != l ==> dst@[k] != dst@[l],
        forall|k: int, l: int| 0 <= k < dst@.len() && 0 <= l < src@.len() ==> dst@[k] != src@[l],
    ensures
        final(mem).wf(),
        final(mem).base() == old(mem).base(),
        final(mem).frame_count() == old(mem).frame_count(),
        forall|f: u64|
            old(mem).has_frame(f) && !dst@.contains(f) ==> #[trigger] final(mem)@[f] == old(mem)@[f],
        forall|k: int| 0 <= k < dst@.len() ==> final(mem)@[#[trigger] dst@[k]] == old(mem)@[src@[k]],
{
    let mut k: usize = 0;
    while k < dst.len()
        invariant
            k <= dst@.len(),
            dst@.len() == src@.len(),
            mem.wf(),
            mem.base() == old(mem).base(),
            mem.frame_count() == old(mem).frame_count(),
            forall|j: int| 0 <= j < dst@.len() ==> old(mem).has_frame(#[trigger] dst@[j]),
            forall|j: int| 0 <= j < src@.len() ==> old(mem).has_frame(#[trigger] src@[j]),
            forall|j: int, l: int|
                0 <= j < dst@.len() && 0 <= l < dst@.len() && j != l ==> dst@[j] != dst@[l],
            forall|j: int, l: int| 0 <= j < dst@.len() && 0 <= l < src@.len() ==> dst@[j] != src@[l],
            forall|f: u64|
                old(mem).has_frame(f) && !dst@.contains(f) ==> #[trigger] mem@[f] == old(mem)@[f],
            forall|j: int| 0 <= j < k ==> mem@[#[trigger] dst@[j]] == old(mem)@[src@[j]],
        decreases dst@.len() - k,
    {
        let ghost mem1 = *mem;
        proof {
            assert(old(mem).has_frame(dst@[k as int]));
            assert(old(mem).has_frame(src@[k as int]));
            assert(!dst@.contains(src@[k as int])) by {
                if dst@.contains(src@[k as int]) {
                    let j = choose|j: int| 0 <= j < dst@.len() && dst@[j] == src@[k as int];
                    assert(dst@[j] != src@[k as int]);
                }
            }
        }
        mem.copy_frame(PhysPageNum(dst[k]), PhysPageNum(src[k]));
        proof {
            assert forall|j: int| 0 <= j < k + 1 implies mem@[#[trigger] dst@[j]] == old(mem)@[src@[j]] by {
                if j < k {
                    assert(dst@[j] != dst@[k as int]);
                    assert(mem1@[dst@[j]] == old(mem)@[src@[j]]);
                }
            }
            assert forall|f: u64| old(mem).has_frame(f) && !dst@.contains(f) implies #[trigger] mem@[f]
                == old(mem)@[f] by {
                assert(f != dst@[k as int]);
            }
        }
        k = k + 1;
    }
}

/// Unmaps the pages `s`, `s + 1`, ... that the first `n` frames of `frames`
/// back, and gives these frames back to the allocator.
fn unmap_framed(
    page_table: &mut PageTable,
    mem: &mut PhysMemory,
    allocator: &mut StackFrameAllocator,
    s: u64,
    frames: &Vec<u64>,
    n: usize,
)
    requires
        old(page_table).wf(old(mem)),
        old(allocator).wf(),
        n <= frames@.len(),
        range_valid(s, (s + n) as u64),
        s + n <= TRAMPOLINE_VPN + 1,
        forall|u: u64| s <= u < s + n ==> (#[trigger] old(page_table).lookup(old(mem), u)) is Some,
        forall|k: int| 0 <= k < n ==> old(allocator).is_allocated(#[trigger] frames@[k]),
        forall|k: int, j: int| 0 <= k < n && 0 <= j < n && k != j ==> frames@[k] != frames@[j],
    ensures
        final(page_table).wf(final(mem)),
        *final(page_table) == *old(page_table),
        final(mem).base() == old(mem).base(),
        final(mem).frame_count() == old(mem).frame_count(),
        final(allocator).wf(),
        final(allocator).range_start() == old(allocator).range_start(),
        final(allocator).range_end() == old(allocator).range_end(),
        forall|u: u64|
            vpn_valid(u) ==> #[trigger] final(page_table).lookup(final(mem), u) == if s <= u < s
                + n {
                None
            } else {
                old(page_table).lookup(old(mem), u)
            },
        forall|f: u64|
            old(mem).has_frame(f) && !old(page_table).frames().contains(f) ==> #[trigger] final(mem)@[f]
                == old(mem)@[f],
        forall|q: u64|
            final(allocator).is_free(q) <==> old(allocator).is_free(q) || exists|k: int|
                0 <= k < n && frames@[k] == q,
        final(allocator).free_count() == old(allocator).free_count() + n,
{
    let mut k: usize = 0;
    while k < n
        invariant
            k <= n,
            n <= frames@.len(),
            range_valid(s, (s + n) as u64),
            s + n <= TRAMPOLINE_VPN + 1,
            page_table.wf(mem),
            *page_table == *old(page_table),
            mem.base() == old(mem).base(),
            mem.frame_count() == old(mem).frame_count(),
            allocator.wf(),
            allocator.range_start() == old(allocator).range_start(),
            allocator.range_end() == old(allocator).range_end(),
            forall|u: u64| s <= u < s + n ==> (#[trigger] old(page_table).lookup(old(mem), u)) is Some,
            forall|j: int| 0 <= j < n ==> old(allocator).is_allocated(#[trigger] frames@[j]),
            forall|i: int, j: int| 0 <= i < n && 0 <= j < n && i != j ==> frames@[i] != frames@[j],
            forall|u: u64|
                vpn_valid(u) ==> #[trigger] page_table.lookup(mem, u) == if s <= u < s + k {
                    None
                } else {
                    old(page_table).lookup(old(mem), u)
                },
            forall|f: u64|
                old(mem).has_frame(f) && !old(page_table).frames().contains(f) ==> #[trigger] mem@[f]
                    == old(mem)@[f],
            forall|q: u64|
                allocator.is_free(q) <==> old(allocator).is_free(q) || exists|j: int|
                    0 <= j < k && frames@[j] == q,
            allocator.free_count() == old(allocator).free_count() + k,
        decreases n - k,
    {
        let v: u64 = s + k as u64;
        let f: u64 = frames[k];
        let ghost mem1 = *mem;
        proof {
            assert(vpn_valid(v));
            assert(old(page_table).lookup(old(mem), v) is Some);
            assert(page_table.lookup(mem, v) is Some);
            assert(old(allocator).is_allocated(frames@[k as int]));
            if allocator.is_free(f) {
                let j = choose|j: int| 0 <= j < k && frames@[j] == f;
                assert(frames@[j] != frames@[k as int]);
            }
        }
        page_table.unmap(mem, VirtPageNum(v));
        allocator.deallocate(PhysPageNum(f));
        proof {
            assert forall|u: u64| vpn_valid(u) implies #[trigger] page_table.lookup(mem, u) == if s
                <= u < s + k + 1 {
                None
            } else {
                old(page_table).lookup(old(mem), u)
            } by {
                lemma_valid_entries(u, v);
                assert(page_table.lookup(&mem1, u) == if s <= u < s + k {
                    None
                } else {
                    old(page_table).lookup(old(mem), u)
                });
            }
            assert forall|q: u64|
                allocator.is_free(q) <==> old(allocator).is_free(q) || exists|j: int|
                    0 <= j < k + 1 && frames@[j] == q by {
                if q == f {
                    assert(frames@[k as int] == q);
                }
            }
        }
        k = k + 1;
    }
}

/// Unmaps the pages of `[s, e)`.
fn unmap_range(page_table: &mut PageTable, mem: &mut PhysMemory, s: u64, e: u64)
    requires
        old(page_table).wf(old(mem)),
        range_valid(s, e),
        forall|u: u64| s <= u < e ==> (#[trigger] old(page_table).lookup(old(mem), u)) is Some,
    ensures
        final(page_table).wf(final(mem)),
        *final(page_table) == *old(page_table),
        final(mem).base() == old(mem).base(),
        final(mem).frame_count() == old(mem).frame_count(),
        forall|u: u64|
            vpn_valid(u) ==> #[trigger] final(page_table).lookup(final(mem), u) == if s <= u < e {
                None
            } else {
                old(page_table).lookup(old(mem), u)
            },
        forall|f: u64|
            old(mem).has_frame(f) && !old(page_table).frames().contains(f) ==> #[trigger] final(mem)@[f]
                == old(mem)@[f],
{
    let mut v: u64 = s;
    while v < e
        invariant
            s <= v <= e,
            range_valid(s, e),
            page_table.wf(mem),
            *page_table == *old(page_table),
            mem.base() == old(mem).base(),
            mem.frame_count() == old(mem).frame_count(),
            forall|u: u64| s <= u < e ==> (#[trigger] old(page_table).lookup(old(mem), u)) is Some,
            forall|u: u64|
                vpn_valid(u) ==> #[trigger] page_table.lookup(mem, u) == if s <= u < v {
                    None
                } else {
                    old(page_table).lookup(old(mem), u)
                },
            forall|f: u64|
                old(mem).has_frame(f) && !old(page_table).frames().contains(f) ==> #[trigger] mem@[f]
                    == old(mem)@[f],
        decreases e - v,
    {
        let ghost mem1 = *mem;
        proof {
            assert(vpn_valid(v));
            assert(old(page_table).lookup(old(mem), v) is Some);
            assert(page_table.lookup(mem, v) is Some);
        }
        page_table.unmap(mem, VirtPageNum(v));
        proof {
            assert forall|u: u64| vpn_valid(u) implies #[trigger] page_table.lookup(mem, u) == if s
                <= u < v + 1 {
                None
            } else {
                old(page_table).lookup(old(mem), u)
            } by {
                lemma_valid_entries(u, v);
                assert(page_table.lookup(&mem1, u) == if s <= u < v {
                    None
                } else {
                    old(page_table).lookup(old(mem), u)
                });
            }
        }
        v = v + 1;
    }
}

/// The number of tables that are missing for the page `u` once the pages
/// from `s` up to `v` are mapped, when `n` were missing at first.
pub open spec fn pending(n: nat, u: u64, s: u64, v: u64) -> nat {
    if v <= s {
        n
    } else {
        missing_beside(n, u, (v - 1) as u64)
    }
}

/// Whether, for the pages from `v` up to `e`, the tables that are missing
/// in the table `pt` are those that are pending from the table `pt0` once
/// the pages from `s` up to `v` are mapped.
#[verifier::opaque]
spec fn tables_pending(
    pt0: &PageTable,
    mem0: &PhysMemory,
    pt: &PageTable,
    mem: &PhysMemory,
    s: u64,
    v: u64,
    e: u64,
) -> bool {
    forall|u: u64|
        v <= u < e ==> #[trigger] pt.tables_missing(mem, u) == pending(
            pt0.tables_missing(mem0, u),
            u,
            s,
            v,
        )
}

/// Of three pages of one half in their order, the middle one shares each
/// table that the outer ones share.
proof fn lemma_between(a: u64, b: u64, c: u64, e: u64)
    requires
        a <= b <= c < e,
        range_valid(a, e),
    ensures
        same_leaf(a, c) ==> same_leaf(b, c),
        same_middle(a, c) ==> same_middle(b, c),
{
    assert(a <= b && b <= c && (c < 0x400_0000 || (0xf_ffff_fc00_0000 <= a && c
        <= 0xf_ffff_ffff_ffff)) ==> ((a / 0x40000) % 512 == (c / 0x40000) % 512 ==> (b / 0x40000)
        % 512 == (c / 0x40000) % 512) && ((a / 0x40000) % 512 == (c / 0x40000) % 512 && (a / 512)
        % 512 == (c / 512) % 512 ==> (b / 512) % 512 == (c / 512) % 512)) by (bit_vector);
}

/// Before any page is mapped, what is missing is pending.
proof fn lemma_pending_start(pt: &PageTable, mem: &PhysMemory, s: u64, e: u64)
    ensures
        tables_pending(pt, mem, pt, mem, s, s, e),
{
    reveal(tables_pending);
}

/// What is pending stays pending in a memory with the same tables.
proof fn lemma_pending_stable(
    pt0: &PageTable,
    mem0: &PhysMemory,
    pt: &PageTable,
    mem1: &PhysMemory,
    mem2: &PhysMemory,
    s: u64,
    v: u64,
    e: u64,
)
    requires
        tables_pending(pt0, mem0, pt, mem1, s, v, e),
        forall|u: u64| pt.tables_missing(mem2, u) == pt.tables_missing(mem1, u),
    ensures
        tables_pending(pt0, mem0, pt, mem2, s, v, e),
{
    reveal(tables_pending);
    assert forall|u: u64| v <= u < e implies #[trigger] pt.tables_missing(mem2, u) == pending(
        pt0.tables_missing(mem0, u),
        u,
        s,
        v,
    ) by {
        assert(pt.tables_missing(mem2, u) == pt.tables_missing(mem1, u));
    }
}

/// The tables that are missing for the next page are those that its
/// mapping adds.
proof fn lemma_pending_here(
    pt0: &PageTable,
    mem0: &PhysMemory,
    pt: &PageTable,
    mem: &PhysMemory,
    s: u64,
    v: u64,
    e: u64,
)
    requires
        s <= v < e,
        tables_pending(pt0, mem0, pt, mem, s, v, e),
    ensures
        pt.tables_missing(mem, v) == pt0.tables_at(mem0, s, v),
        pt0.tables_for(mem0, s, (v + 1) as u64) == pt0.tables_for(mem0, s, v) + pt0.tables_at(
            mem0,
            s,
            v,
        ),
{
    reveal(tables_pending);
}

/// Once the next page is mapped, what is missing is pending again.
proof fn lemma_pending_step(
    pt0: &PageTable,
    mem0: &PhysMemory,
    pt1: &PageTable,
    mem1: &PhysMemory,
    pt2: &PageTable,
    mem2: &PhysMemory,
    s: u64,
    v: u64,
    e: u64,
)
    requires
        s <= v < e,
        range_valid(s, e),
        tables_pending(pt0, mem0, pt1, mem1, s, v, e),
        forall|u: u64| #[trigger]
            pt2.tables_missing(mem2, u) == missing_beside(pt1.tables_missing(mem1, u), u, v),
    ensures
        tables_pending(pt0, mem0, pt2, mem2, s, (v + 1) as u64, e),
{
    reveal(tables_pending);
    assert forall|u: u64| v + 1 <= u < e implies #[trigger] pt2.tables_missing(mem2, u) == pending(
        pt0.tables_missing(mem0, u),
        u,
        s,
        (v + 1) as u64,
    ) by {
        let n = pt0.tables_missing(mem0, u);
        assert(pt1.tables_missing(mem1, u) == pending(n, u, s, v));
        if v > s {
            lemma_between((v - 1) as u64, v, u, e);
            assert(same_leaf((v - 1) as u64, u) == same_leaf(u, (v - 1) as u64));
            assert(same_middle((v - 1) as u64, u) == same_middle(u, (v - 1) as u64));
            assert(same_leaf(v, u) == same_leaf(u, v));
            assert(same_middle(v, u) == same_middle(u, v));
        }
    }
}

/// The mappings of the first pages of a range add no more tables than the
/// mappings of them all, and no mapping adds more than two.
pub proof fn lemma_tables_for(pt: &PageTable, mem: &PhysMemory, s: u64, v: u64, e: u64)
    requires
        s <= v <= e,
    ensures
        pt.tables_for(mem, s, v) <= pt.tables_for(mem, s, e),
        pt.tables_for(mem, s, e) <= 2 * (e - s),
    decreases e - v, e - s,
{
    if v < e {
        lemma_tables_for(pt, mem, s, v, (e - 1) as u64);
    } else if s < e {
        lemma_tables_for(pt, mem, s, (e - 1) as u64, (e - 1) as u64);
    }
}

/// Maps every page of `[s, e)` to the frame with its own number, with
/// `flags`. When the allocator runs out of frames for the page table on the
/// way, all that was mapped is unmapped again.
fn map_identical(
    page_table: &mut PageTable,
    mem: &mut PhysMemory,
    allocator: &mut StackFrameAllocator,
    s: u64,
    e: u64,
    flags: u8,
) -> (r: Result<(), OutOfFrames>)
    requires
        old(page_table).wf(old(mem)),
        old(allocator).wf(),
        old(allocator).within(old(mem)),
        old(page_table).owned(old(allocator)),
        s <= e <= HALF_PAGES,
        forall|u: u64| s <= u < e ==> (#[trigger] old(page_table).lookup(old(mem), u)) is None,
    ensures
        final(page_table).wf(final(mem)),
        final(page_table).root() == old(page_table).root(),
        final(page_table).owned(final(allocator)),
        final(mem).base() == old(mem).base(),
        final(mem).frame_count() == old(mem).frame_count(),
        final(allocator).wf(),
        final(allocator).range_start() == old(allocator).range_start(),
        final(allocator).range_end() == old(allocator).range_end(),
        old(page_table).frames().subset_of(final(page_table).frames()),
        forall|f: u64| #[trigger]
            final(page_table).frames().contains(f) && !old(page_table).frames().contains(f) ==> old(allocator).is_free(f),
        forall|f: u64|
            old(mem).has_frame(f) && !old(allocator).is_free(f) && !old(page_table).frames().contains(f) ==> #[trigger] final(mem)@[f] == old(mem)@[f],
        forall|q: u64|
            final(allocator).is_free(q) <==> old(allocator).is_free(q) && !final(page_table).frames().contains(q),
        final(allocator).free_count() <= old(allocator).free_count(),
        final(allocator).free_count() + 2 * (e - s) >= old(allocator).free_count(),
        forall|u: u64|
            vpn_valid(u) ==> #[trigger] final(page_table).lookup(final(mem), u) == if r is Ok && s
                <= u < e {
                Some(PageTableEntry { bits: pte_bits(u, flags | PTE_V) })
            } else {
                old(page_table).lookup(old(mem), u)
            },
        r is Err ==> old(allocator).free_count() < 2 * (e - s),
        r is Err <==> old(allocator).free_count() < old(page_table).tables_for(old(mem), s, e),
{
    let mut v: u64 = s;
    proof {
        lemma_pending_start(page_table, mem, s, e);
        assert forall|q: u64|
            allocator.is_free(q) <==> old(allocator).is_free(q) && !page_table.frames().contains(q) by {
            if page_table.frames().contains(q) {
                assert(allocator.is_allocated(q));
            }
        }
    }
    while v < e
        invariant
            s <= v <= e <= HALF_PAGES,
            page_table.wf(mem),
            page_table.root() == old(page_table).root(),
            page_table.owned(allocator),
            mem.base() == old(mem).base(),
            mem.frame_count() == old(mem).frame_count(),
            allocator.wf(),
            allocator.within(mem),
            allocator.range_start() == old(allocator).range_start(),
            allocator.range_end() == old(allocator).range_end(),
            old(page_table).frames().subset_of(page_table.frames()),
            forall|f: u64| #[trigger]
                page_table.frames().contains(f) && !old(page_table).frames().contains(f) ==> old(allocator).is_free(f),
            forall|f: u64|
                old(mem).has_frame(f) && !old(allocator).is_free(f) && !old(page_table).frames().contains(f) ==> #[trigger] mem@[f] == old(mem)@[f],
            forall|q: u64|
                allocator.is_free(q) <==> old(allocator).is_free(q) && !page_table.frames().contains(
                    q,
                ),
            allocator.free_count() <= old(allocator).free_count(),
            allocator.free_count() + 2 * (v - s) >= old(allocator).free_count(),
            forall|u: u64|
                vpn_valid(u) ==> #[trigger] page_table.lookup(mem, u) == if s <= u < v {
                    Some(PageTableEntry { bits: pte_bits(u, flags | PTE_V) })
                } else {
                    old(page_table).lookup(old(mem), u)
                },
            forall|u: u64| s <= u < e ==> (#[trigger] old(page_table).lookup(old(mem), u)) is None,
            tables_pending(old(page_table), old(mem), page_table, mem, s, v, e),
            allocator.free_count() + old(page_table).tables_for(old(mem), s, v) == old(allocator).free_count(),
        decreases e - v,
    {
        let ghost mem1 = *mem;
        let ghost pt1 = *page_table;
        let ghost alloc1 = *allocator;
        proof {
            lemma_pending_here(old(page_table), old(mem), page_table, mem, s, v, e);
            lemma_tables_for(old(page_table), old(mem), s, (v + 1) as u64, e);
            assert(vpn_valid(v));
            assert(page_table.lookup(mem, v) == old(page_table).lookup(old(mem), v));
        }
        match page_table.map(mem, allocator, VirtPageNum(v), PhysPageNum(v), PTEFlags { bits: flags }) {
            Err(_) => {
                proof {
                    assert forall|u: u64| s <= u < v implies (#[trigger] page_table.lookup(mem, u)) is Some by {
                        assert(vpn_valid(u));
                        assert(page_table.lookup(mem, u) == pt1.lookup(&mem1, u));
                    }
                    assert forall|g: u64|
                        old(mem).has_frame(g) && !old(allocator).is_free(g) && !old(page_table).frames().contains(g) implies #[trigger] mem@[g] == old(mem)@[g] by {
                        assert(mem1@[g] == old(mem)@[g]);
                        if page_table.frames().contains(g) {
                            if !pt1.frames().contains(g) {
                                assert(alloc1.is_free(g));
                            }
                        }
                    }
                    assert forall|g: u64| #[trigger]
                        page_table.frames().contains(g) && !old(page_table).frames().contains(
                            g,
                        ) implies old(allocator).is_free(g) by {
                        if !pt1.frames().contains(g) {
                            assert(alloc1.is_free(g));
                        }
                    }
                }
                let ghost mem2 = *mem;
                let ghost pt2 = *page_table;
                unmap_range(page_table, mem, s, v);
                proof {
                    assert forall|u: u64| vpn_valid(u) implies #[trigger] page_table.lookup(mem, u)
                        == old(page_table).lookup(old(mem), u) by {
                        assert(pt2.lookup(&mem2, u) == pt1.lookup(&mem1, u));
                    }
                    assert forall|g: u64|
                        old(mem).has_frame(g) && !old(allocator).is_free(g) && !old(page_table).frames().contains(g) implies #[trigger] mem@[g] == old(mem)@[g] by {
                        assert(mem2@[g] == old(mem)@[g]);
                        if pt2.frames().contains(g) {
                            assert(old(allocator).is_free(g));
                        }
                    }
                }
                return Err(OutOfFrames);
            },
            Ok(_) => {
                proof {
                    lemma_pending_step(
                        old(page_table),
                        old(mem),
                        &pt1,
                        &mem1,
                        page_table,
                        mem,
                        s,
                        v,
                        e,
                    );
                    assert forall|u: u64| vpn_valid(u) implies #[trigger] page_table.lookup(mem, u)
                        == if s <= u < v + 1 {
                        Some(PageTableEntry { bits: pte_bits(u, flags | PTE_V) })
                    } else {
                        old(page_table).lookup(old(mem), u)
                    } by {
                        lemma_valid_entries(u, v);
                    }
                    assert forall|g: u64|
                        old(mem).has_frame(g) && !old(allocator).is_free(g) && !old(page_table).frames().contains(g) implies #[trigger] mem@[g] == old(mem)@[g] by {
                        assert(mem1@[g] == old(mem)@[g]);
                        if page_table.frames().contains(g) {
                            if !pt1.frames().contains(g) {
                                assert(alloc1.is_free(g));
                            }
                        }
                    }
                    assert forall|g: u64| #[trigger]
                        page_table.frames().contains(g) && !old(page_table).frames().contains(
                            g,
                        ) implies old(allocator).is_free(g) by {
                        if !pt1.frames().contains(g) {
                            assert(alloc1.is_free(g));
                        }
                    }
                }
                v = v + 1;
            },
        }
    }
    Ok(())
}

/// Maps every page of `[s, e)` to a fresh zeroed frame with `flags`. When
/// the allocator runs out of frames on the way, all that was mapped is
/// unmapped again and its frames are given back.
fn map_framed(
    page_table: &mut PageTable,
    mem: &mut PhysMemory,
    allocator: &mut StackFrameAllocator,
    s: u64,
    e: u64,
    flags: u8,
) -> (r: Result<Vec<u64>, OutOfFrames>)
    requires
        old(page_table).wf(old(mem)),
        old(allocator).wf(),
        old(allocator).within(old(mem)),
        old(page_table).owned(old(allocator)),
        range_valid(s, e),
        forall|u: u64| s <= u < e ==> (#[trigger] old(page_table).lookup(old(mem), u)) is None,
    ensures
        final(page_table).wf(final(mem)),
        final(page_table).root() == old(page_table).root(),
        final(page_table).owned(final(allocator)),
        final(mem).base() == old(mem).base(),
        final(mem).frame_count() == old(mem).frame_count(),
        final(allocator).wf(),
        final(allocator).range_start() == old(allocator).range_start(),
        final(allocator).range_end() == old(allocator).range_end(),
        old(page_table).frames().subset_of(final(page_table).frames()),
        forall|f: u64| #[trigger]
            final(page_table).frames().contains(f) && !old(page_table).frames().contains(f) ==> old(allocator).is_free(f),
        forall|f: u64|
            old(mem).has_frame(f) && !old(allocator).is_free(f) && !old(page_table).frames().contains(f) ==> #[trigger] final(mem)@[f] == old(mem)@[f],
        final(allocator).free_count() <= old(allocator).free_count(),
        final(allocator).free_count() + 3 * (e - s) >= old(allocator).free_count(),
        r is Err <==> old(allocator).free_count() < (e - s) + old(page_table).tables_for(
            old(mem),
            s,
            e,
        ),
        match r {
            Ok(frames) => {
                &&& frames@.len() == e - s
                &&& frames@.no_duplicates()
                &&& forall|k: int|
                    0 <= k < frames@.len() ==> {
                        let f = #[trigger] frames@[k];
                        &&& old(allocator).is_free(f)
                        &&& final(mem).has_frame(f)
                        &&& !final(page_table).frames().contains(f)
                        &&& final(mem)@[f] == zero_frame()
                    }
                &&& forall|u: u64|
                    vpn_valid(u) ==> #[trigger] final(page_table).lookup(final(mem), u) == if s <= u
                        < e {
                        Some(PageTableEntry { bits: pte_bits(frames@[u - s], flags | PTE_V) })
                    } else {
                        old(page_table).lookup(old(mem), u)
                    }
                &&& forall|q: u64|
                    final(allocator).is_free(q) <==> old(allocator).is_free(q) && !final(page_table).frames().contains(q) && !frames@.contains(q)
            },
            Err(_) => {
                &&& forall|u: u64|
                    vpn_valid(u) ==> #[trigger] final(page_table).lookup(final(mem), u) == old(page_table).lookup(old(mem), u)
                &&& forall|q: u64|
                    final(allocator).is_free(q) <==> old(allocator).is_free(q) && !final(page_table).frames().contains(q)
                &&& old(allocator).free_count() < 3 * (e - s)
            },
        },
{
    let mut frames: Vec<u64> = Vec::new();
    let mut v: u64 = s;
    proof {
        old(allocator).lemma_free();
        lemma_pending_start(page_table, mem, s, e);
        assert forall|q: u64|
            allocator.is_free(q) <==> old(allocator).is_free(q) && !page_table.frames().contains(q)
                && !frames@.contains(q) by {
            if page_table.frames().contains(q) {
                assert(allocator.is_allocated(q));
            }
        }
    }
    while v < e
        invariant
            s <= v <= e,
            range_valid(s, e),
            page_table.wf(mem),
            page_table.root() == old(page_table).root(),
            page_table.owned(allocator),
            mem.base() == old(mem).base(),
            mem.frame_count() == old(mem).frame_count(),
            allocator.wf(),
            allocator.within(mem),
            old(allocator).wf(),
            allocator.range_start() == old(allocator).range_start(),
            allocator.range_end() == old(allocator).range_end(),
            old(page_table).frames().subset_of(page_table.frames()),
            forall|f: u64| #[trigger]
                page_table.frames().contains(f) && !old(page_table).frames().contains(f) ==> old(allocator).is_free(f),
            forall|f: u64|
                old(mem).has_frame(f) && !old(allocator).is_free(f) && !old(page_table).frames().contains(f) ==> #[trigger] mem@[f] == old(mem)@[f],
            frames@.len() == v - s,
            frames@.no_duplicates(),
            forall|k: int|
                0 <= k < frames@.len() ==> {
                    let f = #[trigger] frames@[k];
                    &&& old(allocator).is_free(f)
                    &&& mem.has_frame(f)
                    &&& !page_table.frames().contains(f)
                    &&& mem@[f] == zero_frame()
                },
            forall|u: u64|
                vpn_valid(u) ==> #[trigger] page_table.lookup(mem, u) == if s <= u < v {
                    Some(PageTableEntry { bits: pte_bits(frames@[u - s], flags | PTE_V) })
                } else {
                    old(page_table).lookup(old(mem), u)
                },
            forall|q: u64|
                allocator.is_free(q) <==> old(allocator).is_free(q) && !page_table.frames().contains(
                    q,
                ) && !frames@.contains(q),
            allocator.free_count() + 3 * (v - s) >= old(allocator).free_count(),
            allocator.free_count() + (v - s) <= old(allocator).free_count(),
            forall|u: u64| s <= u < e ==> (#[trigger] old(page_table).lookup(old(mem), u)) is None,
            tables_pending(old(page_table), old(mem), page_table, mem, s, v, e),
            allocator.free_count() + (v - s) + old(page_table).tables_for(old(mem), s, v) == old(allocator).free_count(),
        decreases e - v,
    {
        let ghost mem1 = *mem;
        let ghost pt1 = *page_table;
        let ghost alloc1 = *allocator;
        let ghost frames1 = frames@;
        proof {
            allocator.lemma_free();
            page_table.lemma_frames(mem);
        }
        match frame_alloc(mem, allocator) {
            None => {
                proof {
                    lemma_tables_for(old(page_table), old(mem), s, v, e);
                    assert forall|g: u64| #[trigger] page_table.frames().contains(g) implies mem.has_frame(
                        g,
                    ) && mem@[g] == mem1@[g] by {
                        assert(mem1.has_frame(g));
                    }
                    page_table.lemma_stable(&mem1, mem);
                    assert forall|u: u64| vpn_valid(u) implies #[trigger] page_table.lookup(mem, u)
                        == if s <= u < v {
                        Some(PageTableEntry { bits: pte_bits(frames@[u - s], flags | PTE_V) })
                    } else {
                        old(page_table).lookup(old(mem), u)
                    } by {
                        assert(page_table.lookup(mem, u) == page_table.lookup(&mem1, u));
                    }
                    lemma_rollback_ready(page_table, mem, allocator, old(allocator), s, v, frames@, flags);
                }
                unmap_framed(page_table, mem, allocator, s, &frames, frames.len());
                proof {
                    assert forall|q: u64|
                        allocator.is_free(q) <==> old(allocator).is_free(q)
                            && !page_table.frames().contains(q) by {
                        if exists|k: int| 0 <= k < frames@.len() && frames@[k] == q {
                            let k = choose|k: int| 0 <= k < frames@.len() && frames@[k] == q;
                            assert(old(allocator).is_free(frames@[k]));
                        }
                    }
                }
                return Err(OutOfFrames);
            },
            Some(p) => {
                let f: u64 = p.0;
                let ghost mem2 = *mem;
                let ghost alloc2 = *allocator;
                proof {
                    assert(!page_table.frames().contains(f)) by {
                        if page_table.frames().contains(f) {
                            assert(alloc1.is_allocated(f));
                        }
                    }
                    assert forall|g: u64| #[trigger] page_table.frames().contains(g) implies mem.has_frame(
                        g,
                    ) && mem@[g] == mem1@[g] by {
                        assert(mem1.has_frame(g));
                    }
                    page_table.lemma_stable(&mem1, mem);
                    lemma_pending_stable(old(page_table), old(mem), page_table, &mem1, mem, s, v, e);
                    lemma_pending_here(old(page_table), old(mem), page_table, mem, s, v, e);
                    lemma_tables_for(old(page_table), old(mem), s, (v + 1) as u64, e);
                    assert(vpn_valid(v));
                    assert(page_table.lookup(&mem1, v) == old(page_table).lookup(old(mem), v));
                    assert forall|g: u64| #[trigger] page_table.frames().contains(g) implies allocator.is_allocated(
                        g,
                    ) by {
                        assert(alloc1.is_allocated(g));
                    }
                    mem.lemma_view();
                }
                match page_table.map(mem, allocator, VirtPageNum(v), p, PTEFlags { bits: flags }) {
                    Err(_) => {
                        let ghost mem3 = *mem;
                        let ghost alloc3 = *allocator;
                        proof {
                            allocator.lemma_free();
                            assert(alloc2.is_allocated(f));
                            assert(!allocator.is_free(f));
                            assert forall|k: int| 0 <= k < frames@.len() implies {
                                let g = #[trigger] frames@[k];
                                &&& old(allocator).is_free(g)
                                &&& mem.has_frame(g)
                                &&& !page_table.frames().contains(g)
                                &&& mem@[g] == zero_frame()
                            } by {
                                let g = frames@[k];
                                assert(!alloc1.is_free(g));
                                assert(!alloc2.is_free(g));
                                if page_table.frames().contains(g) {
                                    assert(!pt1.frames().contains(g));
                                    assert(alloc2.is_free(g));
                                }
                                assert(mem2@[g] == mem1@[g]);
                            }
                            assert forall|u: u64| vpn_valid(u) implies #[trigger] page_table.lookup(
                                mem,
                                u,
                            ) == if s <= u < v {
                                Some(PageTableEntry { bits: pte_bits(frames@[u - s], flags | PTE_V) })
                            } else {
                                old(page_table).lookup(old(mem), u)
                            } by {
                                assert(page_table.lookup(mem, u) == pt1.lookup(&mem2, u));
                                assert(pt1.lookup(&mem2, u) == pt1.lookup(&mem1, u));
                            }
                        }
                        allocator.deallocate(p);
                        proof {
                            assert forall|q: u64|
                                allocator.is_free(q) <==> old(allocator).is_free(q)
                                    && !page_table.frames().contains(q) && !frames@.contains(q) by {
                                if q == f {
                                    if frames@.contains(f) {
                                        let k = choose|k: int| 0 <= k < frames@.len() && frames@[k] == f;
                                        assert(!alloc1.is_free(frames@[k]));
                                    }
                                    if page_table.frames().contains(f) {
                                        assert(alloc2.is_free(f));
                                    }
                                }
                            }
                            assert forall|g: u64| #[trigger] page_table.frames().contains(g) implies allocator.is_allocated(
                                g,
                            ) by {
                                assert(alloc3.is_allocated(g));
                            }
                            assert forall|g: u64|
                                old(mem).has_frame(g) && !old(allocator).is_free(g) && !old(page_table).frames().contains(g) implies #[trigger] mem@[g] == old(mem)@[g] by {
                                assert(mem1@[g] == old(mem)@[g]);
                                assert(!alloc1.is_free(g));
                                assert(g != f);
                                assert(mem2@[g] == mem1@[g]);
                                if page_table.frames().contains(g) {
                                    if !pt1.frames().contains(g) {
                                        assert(alloc2.is_free(g));
                                    } else {
                                        assert(old(allocator).is_free(g));
                                    }
                                }
                            }
                            assert forall|g: u64| #[trigger]
                                page_table.frames().contains(g) && !old(page_table).frames().contains(
                                    g,
                                ) implies old(allocator).is_free(g) by {
                                if !pt1.frames().contains(g) {
                                    assert(alloc2.is_free(g));
                                    assert(alloc1.is_free(g));
                                }
                            }
                            lemma_rollback_ready(page_table, mem, allocator, old(allocator), s, v, frames@, flags);
                        }
                        let ghost alloc4 = *allocator;
                        unmap_framed(page_table, mem, allocator, s, &frames, frames.len());
                        proof {
                            assert forall|q: u64|
                                allocator.is_free(q) <==> old(allocator).is_free(q)
                                    && !page_table.frames().contains(q) by {
                                if exists|k: int| 0 <= k < frames@.len() && frames@[k] == q {
                                    let k = choose|k: int| 0 <= k < frames@.len() && frames@[k] == q;
                                    assert(old(allocator).is_free(frames@[k]));
                                    assert(!page_table.frames().contains(frames@[k]));
                                }
                            }
                        }
                        return Err(OutOfFrames);
                    },
                    Ok(_) => {
                        frames.push(f);
                        proof {
                            lemma_pending_step(
                                old(page_table),
                                old(mem),
                                &pt1,
                                &mem2,
                                page_table,
                                mem,
                                s,
                                v,
                                e,
                            );
                            let n = frames1.len() as int;
                            assert(frames@[n] == f);
                            assert forall|k: int| 0 <= k < frames@.len() implies {
                                let g = #[trigger] frames@[k];
                                &&& old(allocator).is_free(g)
                                &&& mem.has_frame(g)
                                &&& !page_table.frames().contains(g)
                                &&& mem@[g] == zero_frame()
                            } by {
                                let g = frames@[k];
                                if k < n {
                                    assert(frames1[k] == g);
                                    assert(frames1.contains(g));
                                    assert(!alloc1.is_free(g));
                                    assert(mem2@[g] == mem1@[g]);
                                }
                                assert(!alloc2.is_free(g));
                                if page_table.frames().contains(g) {
                                    assert(!pt1.frames().contains(g));
                                    assert(alloc2.is_free(g));
                                }
                            }
                            assert(frames@.no_duplicates()) by {
                                assert forall|a: int, b: int|
                                    0 <= a < frames@.len() && 0 <= b < frames@.len() && a
                                        != b implies frames@[a] != frames@[b] by {
                                    if a < n {
                                        assert(frames1[a] == frames@[a]);
                                        assert(frames1.contains(frames@[a]));
                                    }
                                    if b < n {
                                        assert(frames1[b] == frames@[b]);
                                        assert(frames1.contains(frames@[b]));
                                    }
                                }
                            }
                            assert forall|u: u64| vpn_valid(u) implies #[trigger] page_table.lookup(
                                mem,
                                u,
                            ) == if s <= u < v + 1 {
                                Some(PageTableEntry { bits: pte_bits(frames@[u - s], flags | PTE_V) })
                            } else {
                                old(page_table).lookup(old(mem), u)
                            } by {
                                lemma_valid_entries(u, v);
                                assert(pt1.lookup(&mem2, u) == pt1.lookup(&mem1, u));
                                if s <= u < v {
                                    assert(frames@[u - s] == frames1[u - s]);
                                }
                            }
                            assert forall|q: u64|
                                allocator.is_free(q) <==> old(allocator).is_free(q)
                                    && !page_table.frames().contains(q) && !frames@.contains(q) by {
                                if frames@.contains(q) {
                                    let k = choose|k: int| 0 <= k < frames@.len() && frames@[k] == q;
                                    if k < n {
                                        assert(frames1[k] == q);
                                        assert(frames1.contains(q));
                                    }
                                }
                                if frames1.contains(q) {
                                    let k = choose|k: int| 0 <= k < frames1.len() && frames1[k] == q;
                                    assert(frames@[k] == q);
                                }
                            }
                            assert forall|g: u64|
                                old(mem).has_frame(g) && !old(allocator).is_free(g) && !old(page_table).frames().contains(g) implies #[trigger] mem@[g] == old(mem)@[g] by {
                                assert(mem1@[g] == old(mem)@[g]);
                                assert(!alloc1.is_free(g));
                                assert(g != f);
                                assert(mem2@[g] == mem1@[g]);
                                if page_table.frames().contains(g) {
                                    if !pt1.frames().contains(g) {
                                        assert(alloc2.is_free(g));
                                    } else {
                                        assert(old(allocator).is_free(g));
                                    }
                                }
                            }
                            assert forall|g: u64| #[trigger]
                                page_table.frames().contains(g) && !old(page_table).frames().contains(
                                    g,
                                ) implies old(allocator).is_free(g) by {
                                if !pt1.frames().contains(g) {
                                    assert(alloc2.is_free(g));
                                    assert(alloc1.is_free(g));
                                }
                            }
                        }
                        v = v + 1;
                    },
                }
            },
        }
    }
    Ok(frames)
}

/// What the unmapping of the pages mapped so far needs: they are mapped,
/// and their frames are allocated and distinct.
proof fn lemma_rollback_ready(
    page_table: &PageTable,
    mem: &PhysMemory,
    allocator: &StackFrameAllocator,
    before: &StackFrameAllocator,
    s: u64,
    v: u64,
    frames: Seq<u64>,
    flags: u8,
)
    requires
        allocator.wf(),
        before.wf(),
        allocator.range_start() == before.range_start(),
        allocator.range_end() == before.range_end(),
        s <= v,
        range_valid(s, v),
        frames.len() == v - s,
        frames.no_duplicates(),
        forall|u: u64|
            vpn_valid(u) ==> #[trigger] page_table.lookup(mem, u) == if s <= u < v {
                Some(PageTableEntry { bits: pte_bits(frames[u - s], flags | PTE_V) })
            } else {
                page_table.lookup(mem, u)
            },
        forall|k: int| 0 <= k < frames.len() ==> before.is_free(#[trigger] frames[k]),
        forall|q: u64| allocator.is_free(q) ==> !frames.contains(q),
    ensures
        s + frames.len() <= TRAMPOLINE_VPN + 1,
        range_valid(s, (s + frames.len()) as u64),
        forall|u: u64| s <= u < s + frames.len() ==> (#[trigger] page_table.lookup(mem, u)) is Some,
        forall|k: int| 0 <= k < frames.len() ==> allocator.is_allocated(#[trigger] frames[k]),
        forall|k: int, j: int|
            0 <= k < frames.len() && 0 <= j < frames.len() && k != j ==> frames[k] != frames[j],
{
    before.lemma_free();
    assert forall|u: u64| s <= u < s + frames.len() implies (#[trigger] page_table.lookup(mem, u)) is Some by {
        assert(vpn_valid(u));
    }
    assert forall|k: int| 0 <= k < frames.len() implies allocator.is_allocated(#[trigger] frames[k]) by {
        assert(frames.contains(frames[k]));
        assert(before.is_free(frames[k]));
    }
}

} // verus!
