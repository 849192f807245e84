//! Building address spaces: that of a program from its executable image,
//! and that of the kernel from the layout of the machine.

use vstd::prelude::*;
use crate::address::{PhysPageNum, VirtAddr, VirtPageNum};
use crate::config::{TRAMPOLINE, TRAP_CONTEXT, USER_STACK_SIZE};
use crate::elf::{ElfImage, PF_R, PF_W, PF_X, Segment, le64, parse_elf, ph_count, segment_ok, segments_upto, image_ok};
use crate::frame_allocator::StackFrameAllocator;
use crate::memory::PhysMemory;
use crate::memory_set::{
    AreaError,
    HALF_PAGES,
    ranges_overlap,
    range_valid,
    MapArea,
    MapPermission,
    MapType,
    MemorySet,
    PERM_R,
    PERM_U,
    PERM_W,
    PERM_X,
    TRAMPOLINE_VPN,
    effect,
    lemma_effect_trans,
    perm_bits_valid,
};

verus! {

/// The virtual page number of the trap-context page.
pub const TRAP_CONTEXT_VPN: u64 = 0xf_ffff_ffff_fffe;

/// The permissions of the area of a segment with the given flags: open to
/// user mode, and readable, writable and executable as the flags say.
pub open spec fn segment_perm(flags: u32) -> u8 {
    PERM_U | (if flags & PF_R != 0 {
        PERM_R
    } else {
        0u8
    }) | (if flags & PF_W != 0 {
        PERM_W
    } else {
        0u8
    }) | (if flags & PF_X != 0 {
        PERM_X
    } else {
        0u8
    })
}

/// The permissions of the area of a segment with the given flags.
pub fn perm_of(flags: u32) -> (r: MapPermission)
    ensures
        r.bits == segment_perm(flags),
        perm_bits_valid(r.bits),
{
    let pr: u8 = if flags & PF_R != 0 {
        PERM_R
    } else {
        0
    };
    let pw: u8 = if flags & PF_W != 0 {
        PERM_W
    } else {
        0
    };
    let px: u8 = if flags & PF_X != 0 {
        PERM_X
    } else {
        0
    };
    assert((16u8 | pr | pw | px) & 0xe1 == 0) by (bit_vector)
        requires
            pr == 2 || pr == 0,
            pw == 4 || pw == 0,
            px == 8 || px == 0,
    ;
    MapPermission { bits: PERM_U | pr | pw | px }
}

/// Whether `area` is the framed area of the segment `seg`: it holds the
/// pages that the segment touches, with the permissions of its flags.
pub open spec fn segment_area(area: MapArea, seg: Segment) -> bool {
    &&& area.start() == seg.vaddr / 4096
    &&& area.end() == (seg.vaddr + seg.mem_size + 4095) / 4096
    &&& area.perm() == segment_perm(seg.flags)
    &&& area.map_type() == MapType::Framed
}

/// The byte at `va` as the kernel reads it through the address space `ms`.
pub open spec fn byte_at(ms: &MemorySet, mem: &PhysMemory, va: u64) -> Option<u8> {
    match ms.page_addr(va) {
        Some(pa) => Some(mem.byte(pa)),
        None => None,
    }
}

/// The byte `i` of the segment `seg` in memory.
pub open spec fn segment_byte(ms: &MemorySet, mem: &PhysMemory, seg: Segment, i: int) -> Option<u8> {
    byte_at(ms, mem, (seg.vaddr + i) as u64)
}

/// The byte `i` of the segment `seg` as the image `d` gives it: a byte of
/// the file, or zero after the bytes that the file has for the segment.
pub open spec fn seg_content(d: Seq<u8>, seg: Segment, i: int) -> u8 {
    if i < seg.file_size {
        d[seg.offset + i]
    } else {
        0
    }
}

/// Whether the segment `seg` of the image `d` stands in memory at its
/// addresses: the bytes that the file has for it, and zeros after them.
pub open spec fn loaded(ms: &MemorySet, mem: &PhysMemory, d: Seq<u8>, seg: Segment) -> bool {
    forall|i: int|
        0 <= i < seg.mem_size ==> #[trigger] segment_byte(ms, mem, seg, i) == Some(
            seg_content(d, seg, i),
        )
}

/// The page after the last page of the last segment, or 0 without segments.
pub open spec fn image_top(segs: Seq<Segment>) -> int {
    if segs.len() == 0 {
        0
    } else {
        (segs.last().vaddr + segs.last().mem_size + 4095) / 4096
    }
}

/// The address of the bottom of the user stack: one page, which stays
/// unmapped as a guard, above the image.
pub open spec fn stack_bottom(segs: Seq<Segment>) -> int {
    image_top(segs) * 4096 + 4096
}

/// The first page of the segment.
pub open spec fn seg_first(s: Segment) -> u64 {
    (s.vaddr / 4096) as u64
}

/// The page after the last page of the segment.
pub open spec fn seg_after(s: Segment) -> u64 {
    ((s.vaddr + s.mem_size + 4095) / 4096) as u64
}

/// The number of pages of all the segments together.
pub open spec fn image_pages(segs: Seq<Segment>) -> int
    decreases segs.len(),
{
    if segs.len() == 0 {
        0
    } else {
        image_pages(segs.drop_last()) + (seg_after(segs.last()) - seg_first(segs.last()))
    }
}

/// Whether the segments of the image `d` fit into an address space: each
/// lies in the lower half, no two share a page, and the user stack has room
/// above a guard page above the last segment, where no segment lies.
pub open spec fn image_fits(d: Seq<u8>) -> bool {
    let segs = segments_upto(d, ph_count(d));
    &&& forall|j: int|
        0 <= j < segs.len() ==> (#[trigger] segs[j]).vaddr + segs[j].mem_size <= u64::MAX
            && seg_after(segs[j]) <= HALF_PAGES
    &&& forall|i: int, j: int|
        0 <= i < segs.len() && 0 <= j < segs.len() && i != j ==> !ranges_overlap(
            seg_first(#[trigger] segs[i]),
            seg_after(segs[i]),
            seg_first(#[trigger] segs[j]),
            seg_after(segs[j]),
        )
    &&& image_top(segs) + 3 <= HALF_PAGES
    &&& forall|j: int|
        0 <= j < segs.len() ==> !ranges_overlap(
            seg_first(#[trigger] segs[j]),
            seg_after(segs[j]),
            (image_top(segs) + 1) as u64,
            (image_top(segs) + 3) as u64,
        )
}

/// Whether `free` free frames are enough for the address space of the
/// image `d`, which must be well formed and fit: three for each page of a
/// segment, of the user stack and of the trap context, and three more for
/// the root of the page table and the trampoline.
pub open spec fn enough_for(d: Seq<u8>, free: nat) -> bool {
    &&& image_ok(d)
    &&& image_fits(d)
    &&& free >= 3 * (image_pages(segments_upto(d, ph_count(d))) + 3) + 3
}

/// The first `i` segments have no more pages than all of them.
proof fn lemma_image_pages_mono(segs: Seq<Segment>, i: int)
    requires
        0 <= i <= segs.len(),
        forall|j: int| 0 <= j < segs.len() ==> seg_first(#[trigger] segs[j]) <= seg_after(segs[j]),
    ensures
        image_pages(segs.take(i)) <= image_pages(segs),
        0 <= image_pages(segs.take(i)),
    decreases segs.len() - i,
{
    if i == segs.len() {
        assert(segs.take(i) =~= segs);
    } else {
        lemma_image_pages_mono(segs, i + 1);
        assert(segs.take(i + 1).drop_last() =~= segs.take(i));
        assert(segs.take(i + 1).last() == segs[i]);
    }
    assert forall|j: int| 0 <= j < segs.take(i).len() implies seg_first(#[trigger] segs.take(i)[j])
        <= seg_after(segs.take(i)[j]) by {
        assert(segs.take(i)[j] == segs[j]);
    }
    lemma_image_pages_nonneg(segs.take(i));
}

/// Segments have no negative number of pages together.
proof fn lemma_image_pages_nonneg(segs: Seq<Segment>)
    requires
        forall|j: int| 0 <= j < segs.len() ==> seg_first(#[trigger] segs[j]) <= seg_after(segs[j]),
    ensures
        0 <= image_pages(segs),
    decreases segs.len(),
{
    if segs.len() > 0 {
        assert forall|j: int| 0 <= j < segs.drop_last().len() implies seg_first(
            #[trigger] segs.drop_last()[j],
        ) <= seg_after(segs.drop_last()[j]) by {
            assert(segs.drop_last()[j] == segs[j]);
        }
        lemma_image_pages_nonneg(segs.drop_last());
        assert(seg_first(segs[segs.len() - 1]) <= seg_after(segs[segs.len() - 1]));
    }
}

/// When the area of the segment at the place `k` cannot be added to an
/// address space that holds the areas of the segments before it, the
/// segments do not fit or the frames are not enough.
proof fn lemma_segment_refused(
    ms: &MemorySet,
    mem: &PhysMemory,
    allocator: &StackFrameAllocator,
    ms2: &MemorySet,
    mem2: &PhysMemory,
    allocator2: &StackFrameAllocator,
    d: Seq<u8>,
    k: int,
    res: Result<(), AreaError>,
    free: nat,
)
    requires
        0 <= k < segments_upto(d, ph_count(d)).len(),
        ms.areas().len() == k,
        forall|j: int|
            0 <= j < k ==> segment_area(#[trigger] ms.areas()[j], segments_upto(d, ph_count(d))[j]),
        segments_upto(d, ph_count(d))[k].vaddr + segments_upto(d, ph_count(d))[k].mem_size
            <= u64::MAX,
        forall|j: int|
            0 <= j < segments_upto(d, ph_count(d)).len() ==> (#[trigger] segments_upto(
                d,
                ph_count(d),
            )[j]).file_size <= segments_upto(d, ph_count(d))[j].mem_size,
        ms.inserted(
            mem,
            allocator,
            ms2,
            mem2,
            allocator2,
            seg_first(segments_upto(d, ph_count(d))[k]),
            seg_after(segments_upto(d, ph_count(d))[k]),
            segment_perm(segments_upto(d, ph_count(d))[k].flags),
            res,
        ),
        res is Err,
        allocator.free_count() + 3 + 3 * image_pages(segments_upto(d, ph_count(d)).take(k)) >= free,
    ensures
        !enough_for(d, free),
{
    let segs = segments_upto(d, ph_count(d));
    let s = seg_first(segs[k]);
    let e = seg_after(segs[k]);
    if enough_for(d, free) {
        assert(segs[k].vaddr + segs[k].mem_size <= u64::MAX && seg_after(segs[k]) <= HALF_PAGES);
        assert(range_valid(s, e));
        if ms.any_covered(s, e) {
            ms.lemma_any_covered(s, e);
            let i = choose|i: int|
                0 <= i < ms.areas().len() && ranges_overlap(
                    (#[trigger] ms.areas()[i]).start(),
                    ms.areas()[i].end(),
                    s,
                    e,
                );
            assert(segment_area(ms.areas()[i], segs[i]));
            assert(ranges_overlap(seg_first(segs[i]), seg_after(segs[i]), s, e));
        }
        let err = res->Err_0;
        assert(res == Err::<(), AreaError>(err));
        match err {
            AreaError::InvalidRange => {},
            AreaError::Overlap => {},
            AreaError::NoSuchArea => {},
            AreaError::OutOfFrames => {},
        }
        assert forall|j: int| 0 <= j < segs.len() implies seg_first(#[trigger] segs[j]) <= seg_after(
            segs[j],
        ) by {
            assert(segs[j].vaddr + segs[j].mem_size <= u64::MAX);
        }
        lemma_image_pages_mono(segs, k + 1);
        assert(segs.take(k + 1).drop_last() =~= segs.take(k));
        assert(segs.take(k + 1).last() == segs[k]);
    }
}

/// When the area of the user stack cannot be added to an address space
/// that holds the areas of all segments, the segments do not fit or the
/// frames are not enough.
proof fn lemma_stack_refused(
    ms: &MemorySet,
    mem: &PhysMemory,
    allocator: &StackFrameAllocator,
    ms2: &MemorySet,
    mem2: &PhysMemory,
    allocator2: &StackFrameAllocator,
    d: Seq<u8>,
    res: Result<(), AreaError>,
    free: nat,
)
    requires
        ms.areas().len() == segments_upto(d, ph_count(d)).len(),
        forall|j: int|
            0 <= j < ms.areas().len() ==> segment_area(
                #[trigger] ms.areas()[j],
                segments_upto(d, ph_count(d))[j],
            ),
        image_top(segments_upto(d, ph_count(d))) <= HALF_PAGES,
        ms.inserted(
            mem,
            allocator,
            ms2,
            mem2,
            allocator2,
            (image_top(segments_upto(d, ph_count(d))) + 1) as u64,
            (image_top(segments_upto(d, ph_count(d))) + 3) as u64,
            PERM_R | PERM_W | PERM_U,
            res,
        ),
        res is Err || image_top(segments_upto(d, ph_count(d))) + 3 > HALF_PAGES,
        allocator.free_count() + 3 + 3 * image_pages(segments_upto(d, ph_count(d))) >= free,
    ensures
        !enough_for(d, free),
{
    let segs = segments_upto(d, ph_count(d));
    let s = (image_top(segs) + 1) as u64;
    let e = (image_top(segs) + 3) as u64;
    if enough_for(d, free) {
        assert(range_valid(s, e));
        if ms.any_covered(s, e) {
            ms.lemma_any_covered(s, e);
            let i = choose|i: int|
                0 <= i < ms.areas().len() && ranges_overlap(
                    (#[trigger] ms.areas()[i]).start(),
                    ms.areas()[i].end(),
                    s,
                    e,
                );
            assert(segment_area(ms.areas()[i], segs[i]));
            assert(segs[i].vaddr + segs[i].mem_size <= u64::MAX);
            assert(ranges_overlap(seg_first(segs[i]), seg_after(segs[i]), s, e));
        }
        let err = res->Err_0;
        assert(res == Err::<(), AreaError>(err));
        match err {
            AreaError::InvalidRange => {},
            AreaError::Overlap => {},
            AreaError::NoSuchArea => {},
            AreaError::OutOfFrames => {},
        }
    }
}

/// When the area of the trap context cannot be added to an address space
/// whose areas all lie in the lower half, fewer than three frames are free.
proof fn lemma_trap_refused(
    ms: &MemorySet,
    mem: &PhysMemory,
    allocator: &StackFrameAllocator,
    ms2: &MemorySet,
    mem2: &PhysMemory,
    allocator2: &StackFrameAllocator,
    res: Result<(), AreaError>,
)
    requires
        forall|j: int| 0 <= j < ms.areas().len() ==> (#[trigger] ms.areas()[j]).end() <= HALF_PAGES,
        ms.inserted(
            mem,
            allocator,
            ms2,
            mem2,
            allocator2,
            TRAP_CONTEXT_VPN,
            TRAMPOLINE_VPN,
            PERM_R | PERM_W,
            res,
        ),
        res is Err,
    ensures
        allocator.free_count() < 3,
{
    let s = TRAP_CONTEXT_VPN;
    let e = TRAMPOLINE_VPN;
    assert(range_valid(s, e));
    if ms.any_covered(s, e) {
        ms.lemma_any_covered(s, e);
        let i = choose|i: int|
            0 <= i < ms.areas().len() && ranges_overlap(
                (#[trigger] ms.areas()[i]).start(),
                ms.areas()[i].end(),
                s,
                e,
            );
        assert(ms.areas()[i].end() <= HALF_PAGES);
    }
    let err = res->Err_0;
    assert(res == Err::<(), AreaError>(err));
    match err {
        AreaError::InvalidRange => {},
        AreaError::Overlap => {},
        AreaError::NoSuchArea => {},
        AreaError::OutOfFrames => {},
    }
}

/// What was loaded stays loaded when an area is added.
proof fn lemma_loaded_kept(
    ms: &MemorySet,
    mem: &PhysMemory,
    allocator: &StackFrameAllocator,
    ms2: &MemorySet,
    mem2: &PhysMemory,
    d: Seq<u8>,
    seg: Segment,
)
    requires
        ms.wf(mem),
        ms.owned(allocator),
        ms2.wf(mem2),
        mem2.base() == mem.base(),
        mem2.frame_count() == mem.frame_count(),
        ms2.areas().len() == ms.areas().len() + 1,
        ms2.areas().drop_last() == ms.areas(),
        forall|f: u64|
            mem.has_frame(f) && !allocator.is_free(f) && !ms.table().frames().contains(f)
                ==> #[trigger] mem2@[f] == mem@[f],
        loaded(ms, mem, d, seg),
    ensures
        loaded(ms2, mem2, d, seg),
{
    ms.lemma_wf(mem);
    ms2.lemma_wf(mem2);
    assert forall|i: int| 0 <= i < seg.mem_size implies #[trigger] segment_byte(ms2, mem2, seg, i)
        == Some(seg_content(d, seg, i)) by {
        assert(segment_byte(ms, mem, seg, i) == Some(seg_content(d, seg, i)));
        let va = (seg.vaddr + i) as u64;
        let v = (va / 4096) as u64;
        ms.lemma_page_frame_wf(mem, v);
        ms.lemma_page_frame_pushed(ms2, v);
        let f = ms.page_frame(v)->0;
        assert(ms.frames().contains(f));
        assert(allocator.is_allocated(f));
        assert(mem2@[f] == mem@[f]);
    }
}

/// What was loaded stays loaded when the address space is left as it is
/// and the memory keeps the contents of its frames.
proof fn lemma_loaded_same(
    ms: &MemorySet,
    mem: &PhysMemory,
    ms2: &MemorySet,
    mem2: &PhysMemory,
    d: Seq<u8>,
    seg: Segment,
)
    requires
        ms.wf(mem),
        forall|v: u64| ms2.page_frame(v) == ms.page_frame(v),
        forall|f: u64| #[trigger] ms.data_frames().contains(f) ==> mem2@[f] == mem@[f],
        loaded(ms, mem, d, seg),
    ensures
        loaded(ms2, mem2, d, seg),
{
    assert forall|i: int| 0 <= i < seg.mem_size implies #[trigger] segment_byte(ms2, mem2, seg, i)
        == Some(seg_content(d, seg, i)) by {
        assert(segment_byte(ms, mem, seg, i) == Some(seg_content(d, seg, i)));
        let va = (seg.vaddr + i) as u64;
        let v = (va / 4096) as u64;
        ms.lemma_page_frame_wf(mem, v);
    }
}

/// The bytes of a segment whose area is on zeroed frames are zero, and all
/// of them lie in the area.
proof fn lemma_fresh_zero(ms: &MemorySet, mem: &PhysMemory, seg: Segment, k: int)
    requires
        ms.wf(mem),
        0 <= k < ms.areas().len(),
        segment_area(ms.areas()[k], seg),
        seg.vaddr + seg.mem_size <= u64::MAX,
        forall|j: int|
            0 <= j < ms.areas()[k].frames().len() ==> mem@[#[trigger] ms.areas()[k].frames()[j]]
                == crate::memory::zero_frame(),
    ensures
        ms.page_range(seg.vaddr, seg.mem_size as nat),
        forall|i: int| 0 <= i < seg.mem_size ==> #[trigger] segment_byte(ms, mem, seg, i) == Some(0u8),
{
    ms.lemma_wf(mem);
    let a = ms.areas()[k];
    assert(a.wf());
    assert forall|i: int| 0 <= i < seg.mem_size implies ms.page_addr((seg.vaddr + i) as u64) is Some
        && #[trigger] segment_byte(ms, mem, seg, i) == Some(0u8) by {
        let va = (seg.vaddr + i) as u64;
        let v = (va / 4096) as u64;
        assert(a.contains(v));
        ms.lemma_page_frame(k, v);
        let f = a.frames()[v - a.start()];
        assert(mem@[f] == crate::memory::zero_frame());
        ms.lemma_page_frame_wf(mem, v);
        let pa = ms.page_addr(va)->0;
        assert(pa / 4096 == f);
        crate::memory::lemma_zero_byte((pa % 4096) as int);
    }
    assert forall|i: nat| i < seg.mem_size implies (#[trigger] ms.page_addr(
        (seg.vaddr + i) as u64,
    )) is Some by {
        assert(segment_byte(ms, mem, seg, i as int) == Some(0u8));
    }
}

/// The bytes of a segment that were just stored are loaded.
proof fn lemma_store_loaded(
    ms: &MemorySet,
    mem: &PhysMemory,
    mem2: &PhysMemory,
    d: Seq<u8>,
    seg: Segment,
    from: usize,
    len: usize,
)
    requires
        ms.wf(mem),
        mem2.base() == mem.base(),
        mem2.frame_count() == mem.frame_count(),
        from == seg.offset,
        len == seg.file_size,
        seg.file_size <= seg.mem_size,
        seg.vaddr + seg.mem_size <= u64::MAX,
        ms.page_range(seg.vaddr, seg.mem_size as nat),
        seg.offset + seg.file_size <= d.len(),
        forall|i: int| 0 <= i < seg.mem_size ==> #[trigger] segment_byte(ms, mem, seg, i) == Some(0u8),
        forall|pa: u64|
            mem.has_frame((pa / 4096) as u64) ==> #[trigger] mem2.byte(pa) == if exists|i: int|
                0 <= i < len && #[trigger] ms.store_hits(seg.vaddr, i, pa) {
                d[from + choose|i: int| 0 <= i < len && #[trigger] ms.store_hits(seg.vaddr, i, pa)]
            } else {
                mem.byte(pa)
            },
    ensures
        loaded(ms, mem2, d, seg),
{
    assert forall|i: int| 0 <= i < seg.mem_size implies #[trigger] segment_byte(ms, mem2, seg, i)
        == Some(seg_content(d, seg, i)) by {
        let va = (seg.vaddr + i) as u64;
        assert(ms.page_addr((seg.vaddr + (i as nat)) as u64) is Some);
        let pa = ms.page_addr(va)->0;
        ms.lemma_page_frame_wf(mem, (va / 4096) as u64);
        assert(mem.has_frame((pa / 4096) as u64));
        assert(segment_byte(ms, mem, seg, i) == Some(0u8));
        if i < seg.file_size {
            assert(ms.store_hits(seg.vaddr, i, pa));
            let c = choose|c: int| 0 <= c < len && #[trigger] ms.store_hits(seg.vaddr, c, pa);
            if c != i {
                ms.lemma_page_addr_injective(mem, (seg.vaddr + c) as u64, va);
            }
        } else {
            if exists|c: int| 0 <= c < len && #[trigger] ms.store_hits(seg.vaddr, c, pa) {
                let c = choose|c: int| 0 <= c < len && #[trigger] ms.store_hits(seg.vaddr, c, pa);
                ms.lemma_page_addr_injective(mem, (seg.vaddr + c) as u64, va);
            }
        }
    }
}

/// What was loaded for a segment stays loaded when the bytes of a segment
/// in another area are stored.
proof fn lemma_store_kept(
    ms: &MemorySet,
    mem: &PhysMemory,
    mem2: &PhysMemory,
    d: Seq<u8>,
    other: Segment,
    j: int,
    seg: Segment,
    k: int,
    from: usize,
    len: usize,
)
    requires
        ms.wf(mem),
        mem2.base() == mem.base(),
        mem2.frame_count() == mem.frame_count(),
        from == seg.offset,
        len == seg.file_size,
        0 <= j < ms.areas().len(),
        0 <= k < ms.areas().len(),
        j != k,
        segment_area(ms.areas()[j], other),
        segment_area(ms.areas()[k], seg),
        other.file_size <= other.mem_size,
        seg.file_size <= seg.mem_size,
        other.vaddr + other.mem_size <= u64::MAX,
        seg.vaddr + seg.mem_size <= u64::MAX,
        loaded(ms, mem, d, other),
        forall|pa: u64|
            mem.has_frame((pa / 4096) as u64) ==> #[trigger] mem2.byte(pa) == if exists|i: int|
                0 <= i < len && #[trigger] ms.store_hits(seg.vaddr, i, pa) {
                d[from + choose|i: int| 0 <= i < len && #[trigger] ms.store_hits(seg.vaddr, i, pa)]
            } else {
                mem.byte(pa)
            },
    ensures
        loaded(ms, mem2, d, other),
{
    ms.lemma_wf(mem);
    assert forall|i: int| 0 <= i < other.mem_size implies #[trigger] segment_byte(ms, mem2, other, i)
        == Some(seg_content(d, other, i)) by {
        assert(segment_byte(ms, mem, other, i) == Some(seg_content(d, other, i)));
        let va = (other.vaddr + i) as u64;
        let v = (va / 4096) as u64;
        let pa = ms.page_addr(va)->0;
        ms.lemma_page_frame_wf(mem, v);
        assert(mem.has_frame((pa / 4096) as u64));
        if exists|c: int| 0 <= c < len && #[trigger] ms.store_hits(seg.vaddr, c, pa) {
            let c = choose|c: int| 0 <= c < len && #[trigger] ms.store_hits(seg.vaddr, c, pa);
            let vb = (seg.vaddr + c) as u64;
            if vb != va {
                ms.lemma_page_addr_injective(mem, vb, va);
            }
            assert(ms.areas()[j].contains(v));
            assert(ms.areas()[k].contains(v));
            ms.lemma_page_frame(j, v);
            ms.lemma_page_frame(k, v);
            assert(crate::memory_set::ranges_overlap(
                ms.areas()[j].start(),
                ms.areas()[j].end(),
                ms.areas()[k].start(),
                ms.areas()[k].end(),
            ));
        }
    }
}

impl MemorySet {
    /// What `from_elf` gives for the image `d` when it succeeds: the address
    /// space `ms` with the trampoline, one framed area for each loadable
    /// segment, holding the bytes of the segment and zeros after them, then
    /// the user stack above a guard page, on zeroed frames, then the
    /// trap-context page; the top of the user stack `sp`; and the entry
    /// point `entry`.
    pub open spec fn built_from(
        ms: &MemorySet,
        mem: &PhysMemory,
        d: Seq<u8>,
        trampoline: u64,
        sp: u64,
        entry: u64,
    ) -> bool {
        let segs = segments_upto(d, ph_count(d));
        let n = segs.len() as int;
        &&& image_ok(d)
        &&& ms.trampoline() == Some(trampoline)
        &&& entry == le64(d, 24)
        &&& sp == stack_bottom(segs) + 8192
        &&& ms.image_end() * 4096 == sp
        &&& ms.areas().len() == n + 2
        &&& forall|j: int| 0 <= j < n ==> segment_area(#[trigger] ms.areas()[j], segs[j])
        &&& forall|j: int| 0 <= j < n ==> segment_ok(#[trigger] segs[j], d.len() as int)
        &&& forall|j: int| 0 <= j < n ==> loaded(ms, mem, d, #[trigger] segs[j])
        &&& ms.areas()[n].start() * 4096 == stack_bottom(segs)
        &&& ms.areas()[n].end() * 4096 == sp
        &&& ms.areas()[n].perm() == PERM_R | PERM_W | PERM_U
        &&& ms.areas()[n].map_type() == MapType::Framed
        &&& forall|j: int|
            0 <= j < ms.areas()[n].frames().len() ==> mem@[#[trigger] ms.areas()[n].frames()[j]]
                == crate::memory::zero_frame()
        &&& ms.areas()[n + 1].start() == TRAP_CONTEXT_VPN
        &&& ms.areas()[n + 1].end() == TRAMPOLINE_VPN
        &&& ms.areas()[n + 1].perm() == PERM_R | PERM_W
        &&& ms.areas()[n + 1].map_type() == MapType::Framed
    }

    /// The address space of a program, from its executable image: the
    /// trampoline at the frame `trampoline`, one area for each loadable
    /// segment with the bytes of the segment, the user stack above a guard
    /// page, and the trap-context page. With it come the top of the user
    /// stack and the entry point.
    ///
    /// `None` when the image is malformed, when its segments do not fit
    /// beside each other in the lower half of the address space, or when
    /// the frames run out; then every frame that was taken is given back.
    pub fn from_elf(
        mem: &mut PhysMemory,
        allocator: &mut StackFrameAllocator,
        elf_data: &[u8],
        trampoline: PhysPageNum,
    ) -> (r: Option<(MemorySet, u64, u64)>)
        requires
            old(mem).wf(),
            old(allocator).wf(),
            old(allocator).within(old(mem)),
            trampoline.0 < 0x1000_0000_0000,
        ensures
            !image_ok(elf_data@) ==> r is None,
            enough_for(elf_data@, old(allocator).free_count()) ==> r is Some,
            r is None ==> forall|q: u64| final(allocator).is_free(q) <==> old(allocator).is_free(q),
            r is None ==> final(allocator).free_count() == old(allocator).free_count(),
            r matches Some((ms, sp, entry)) ==> forall|q: u64|
                final(allocator).is_free(q) <==> old(allocator).is_free(q) && !ms.frames().contains(q),
            r is None ==> effect(
                Set::<u64>::empty(),
                old(mem),
                old(allocator),
                Set::<u64>::empty(),
                final(mem),
                final(allocator),
            ),
            r matches Some((ms, sp, entry)) ==> {
                &&& ms.wf(final(mem))
                &&& ms.owned(final(allocator))
                &&& effect(
                    Set::<u64>::empty(),
                    old(mem),
                    old(allocator),
                    ms.frames(),
                    final(mem),
                    final(allocator),
                )
                &&& Self::built_from(&ms, final(mem), elf_data@, trampoline.0, sp, entry)
                &&& final(allocator).free_count() + 3 * (image_pages(
                    segments_upto(elf_data@, ph_count(elf_data@)),
                ) + 3) + 3 >= old(allocator).free_count()
            },
    {
        let image = match parse_elf(elf_data) {
            None => {
                proof {
                    lemma_effect_none(old(mem), old(allocator));
                }
                proof {
                    old(allocator).lemma_same_free(allocator);
                }
                return None;
            },
            Some(i) => i,
        };
        let total: usize = elf_data.len();
        let ghost d = elf_data@;
        let ghost segs = image.segments@;
        let ghost none = Set::<u64>::empty();
        proof {
            assert forall|j: int| 0 <= j < segs.len() && image_fits(d) implies seg_first(
                #[trigger] segs[j],
            ) <= seg_after(segs[j]) by {
                assert(segs[j].vaddr + segs[j].mem_size <= u64::MAX);
            }
            if image_fits(d) {
                lemma_image_pages_nonneg(segs);
            }
        }
        let mut ms = match MemorySet::new_bare(mem, allocator) {
            None => {
                proof {
                    lemma_effect_none(old(mem), old(allocator));
                }
                proof {
                    old(allocator).lemma_same_free(allocator);
                }
                return None;
            },
            Some(m) => m,
        };
        let ghost ms0 = ms;
        let ghost mem0 = *mem;
        let ghost alloc0 = *allocator;
        match ms.map_trampoline(mem, allocator, trampoline) {
            Err(_) => {
                let ghost ms1 = ms;
                let ghost mem1 = *mem;
                let ghost alloc1 = *allocator;
                ms.destroy(mem, allocator);
                proof {
                    lemma_effect_trans(
                        none, old(mem), old(allocator), ms0.frames(), &mem0, &alloc0,
                        ms1.frames(), &mem1, &alloc1,
                    );
                    lemma_effect_trans(
                        none, old(mem), old(allocator), ms1.frames(), &mem1, &alloc1,
                        none, mem, allocator,
                    );
                    assert(!ms0.covered(TRAMPOLINE_VPN));
                    assert(alloc0.free_count() < 2);
                }
                proof {
                    old(allocator).lemma_same_free(allocator);
                }
                return None;
            },
            Ok(_) => {},
        }
        proof {
            lemma_effect_trans(
                none, old(mem), old(allocator), ms0.frames(), &mem0, &alloc0,
                ms.frames(), mem, allocator,
            );
            ms.lemma_wf(mem);
        }
        let mut max_end: u64 = 0;
        let mut k: usize = 0;
        proof {
            assert(segs.take(0) =~= Seq::<Segment>::empty());
        }
        while k < image.segments.len()
            invariant
                old(allocator).wf(),
                k <= segs.len(),
                segs == image.segments@,
                d == elf_data@,
                d.len() == total,
                none == Set::<u64>::empty(),
                image_ok(d),
                segs == segments_upto(d, ph_count(d)),
                forall|j: int| 0 <= j < segs.len() ==> segment_ok(#[trigger] segs[j], d.len() as int),
                ms.wf(mem),
                ms.owned(allocator),
                mem.wf(),
                allocator.wf(),
                allocator.within(mem),
                effect(none, old(mem), old(allocator), ms.frames(), mem, allocator),
                ms.trampoline() == Some(trampoline.0),
                ms.image_end() == 0,
                ms.areas().len() == k,
                forall|j: int| 0 <= j < k ==> segment_area(#[trigger] ms.areas()[j], segs[j]),
                forall|j: int| 0 <= j < k ==> loaded(&ms, mem, d, #[trigger] segs[j]),
                forall|j: int| 0 <= j < k ==> (#[trigger] segs[j]).vaddr + segs[j].mem_size <= u64::MAX,
                max_end == image_top(segs.take(k as int)),
                allocator.free_count() + 3 + 3 * image_pages(segs.take(k as int)) >= old(allocator).free_count(),
            decreases segs.len() - k,
        {
            let seg = image.segments[k];
            let ghost ms1 = ms;
            let ghost mem1 = *mem;
            let ghost alloc1 = *allocator;
            proof {
                assert(segment_ok(segs[k as int], d.len() as int));
            }
            if seg.vaddr > u64::MAX - seg.mem_size {
                ms.destroy(mem, allocator);
                proof {
                    lemma_effect_trans(
                        none, old(mem), old(allocator), ms1.frames(), &mem1, &alloc1,
                        none, mem, allocator,
                    );
                    assert(!(segs[k as int].vaddr + segs[k as int].mem_size <= u64::MAX));
                }
                proof {
                    old(allocator).lemma_same_free(allocator);
                }
                return None;
            }
            let perm = perm_of(seg.flags);
            let res = ms.insert_framed_area(
                mem,
                allocator,
                VirtAddr(seg.vaddr),
                VirtAddr(seg.vaddr + seg.mem_size),
                perm,
            );
            let ghost ms2 = ms;
            let ghost mem2 = *mem;
            let ghost alloc2 = *allocator;
            proof {
                lemma_effect_trans(
                    none, old(mem), old(allocator), ms1.frames(), &mem1, &alloc1,
                    ms2.frames(), &mem2, &alloc2,
                );
            }
            if res.is_err() {
                ms.destroy(mem, allocator);
                proof {
                    lemma_effect_trans(
                        none, old(mem), old(allocator), ms2.frames(), &mem2, &alloc2,
                        none, mem, allocator,
                    );
                    lemma_segment_refused(
                        &ms1,
                        &mem1,
                        &alloc1,
                        &ms2,
                        &mem2,
                        &alloc2,
                        d,
                        k as int,
                        res,
                        old(allocator).free_count(),
                    );
                }
                proof {
                    old(allocator).lemma_same_free(allocator);
                }
                return None;
            }
            proof {
                ms.lemma_wf(mem);
                assert(segs.take(k as int + 1).drop_last() =~= segs.take(k as int));
                assert(segs.take(k as int + 1).last() == segs[k as int]);
                assert(ms.areas()[k as int] == ms.areas().last());
                assert forall|j: int| 0 <= j < k implies ms.areas()[j] == ms1.areas()[j] by {
                    assert(ms.areas().drop_last()[j] == ms.areas()[j]);
                }
                assert forall|j: int| 0 <= j < k implies loaded(&ms, mem, d, #[trigger] segs[j]) by {
                    lemma_loaded_kept(&ms1, &mem1, &alloc1, &ms, mem, d, segs[j]);
                }
            }
            let stored = ms.store_bytes(
                mem,
                VirtAddr(seg.vaddr),
                elf_data,
                seg.offset as usize,
                seg.file_size as usize,
            );
            let ghost mem3 = *mem;
            proof {
                assert(effect(ms2.frames(), &mem2, &alloc2, ms2.frames(), &mem3, &alloc2)) by {
                    assert forall|f: u64|
                        mem2.has_frame(f) && !alloc2.is_free(f) && !ms2.frames().contains(
                            f,
                        ) implies #[trigger] mem3@[f] == mem2@[f] by {
                        assert(!ms2.data_frames().contains(f));
                    }
                }
                lemma_effect_trans(
                    none, old(mem), old(allocator), ms2.frames(), &mem2, &alloc2,
                    ms2.frames(), &mem3, &alloc2,
                );
            }
            if !stored {
                ms.destroy(mem, allocator);
                proof {
                    lemma_effect_trans(
                        none, old(mem), old(allocator), ms2.frames(), &mem3, &alloc2,
                        none, mem, allocator,
                    );
                }
                proof {
                    old(allocator).lemma_same_free(allocator);
                }
                return None;
            }
            proof {
                assert(ms2.areas()[k as int].wf());
                lemma_fresh_zero(&ms, &mem2, segs[k as int], k as int);
                lemma_store_loaded(
                    &ms,
                    &mem2,
                    mem,
                    d,
                    segs[k as int],
                    seg.offset as usize,
                    seg.file_size as usize,
                );
                assert forall|j: int| 0 <= j < k implies loaded(&ms, mem, d, #[trigger] segs[j]) by {
                    lemma_store_kept(
                        &ms,
                        &mem2,
                        mem,
                        d,
                        segs[j],
                        j,
                        segs[k as int],
                        k as int,
                        seg.offset as usize,
                        seg.file_size as usize,
                    );
                }
                assert(segs.take(k as int + 1).last() == segs[k as int]);
            }
            max_end = VirtAddr(seg.vaddr + seg.mem_size).ceil().0;
            k = k + 1;
        }
        proof {
            assert(segs.take(k as int) =~= segs);
        }
        let ghost ms1 = ms;
        let ghost mem1 = *mem;
        let ghost alloc1 = *allocator;
        if max_end > HALF_PAGES {
            ms.destroy(mem, allocator);
            proof {
                lemma_effect_trans(
                    none, old(mem), old(allocator), ms1.frames(), &mem1, &alloc1,
                    none, mem, allocator,
                );
            }
            proof {
                old(allocator).lemma_same_free(allocator);
            }
            return None;
        }
        let bottom: u64 = max_end * 4096 + 4096;
        let top: u64 = bottom + USER_STACK_SIZE;
        assert((2u8 | 4u8 | 16u8) & 0xe1 == 0) by (bit_vector);
        assert((2u8 | 4u8) & 0xe1 == 0) by (bit_vector);
        let res = ms.insert_framed_area(
            mem,
            allocator,
            VirtAddr(bottom),
            VirtAddr(top),
            MapPermission { bits: PERM_R | PERM_W | PERM_U },
        );
        let ghost ms2 = ms;
        let ghost mem2 = *mem;
        let ghost alloc2 = *allocator;
        proof {
            lemma_effect_trans(
                none, old(mem), old(allocator), ms1.frames(), &mem1, &alloc1,
                ms2.frames(), &mem2, &alloc2,
            );
        }
        if res.is_err() || top / 4096 > HALF_PAGES {
            ms.destroy(mem, allocator);
            proof {
                lemma_effect_trans(
                    none, old(mem), old(allocator), ms2.frames(), &mem2, &alloc2,
                    none, mem, allocator,
                );
                lemma_stack_refused(
                    &ms1,
                    &mem1,
                    &alloc1,
                    &ms2,
                    &mem2,
                    &alloc2,
                    d,
                    res,
                    old(allocator).free_count(),
                );
            }
            proof {
                old(allocator).lemma_same_free(allocator);
            }
            return None;
        }
        proof {
            ms.lemma_wf(mem);
            assert(ms.areas()[k as int] == ms.areas().last());
            assert forall|j: int| 0 <= j < k implies ms.areas()[j] == ms1.areas()[j] by {
                assert(ms.areas().drop_last()[j] == ms.areas()[j]);
            }
            assert forall|j: int| 0 <= j < k implies loaded(&ms, mem, d, #[trigger] segs[j]) by {
                lemma_loaded_kept(&ms1, &mem1, &alloc1, &ms, mem, d, segs[j]);
            }
        }
        ms.set_image_end(mem, VirtPageNum(top / 4096));
        let ghost ms3 = ms;
        proof {
            assert forall|j: int| 0 <= j < k implies loaded(&ms, mem, d, #[trigger] segs[j]) by {
                lemma_loaded_same(&ms2, mem, &ms, mem, d, segs[j]);
            }
            assert(ms3.owned(allocator)) by {
                assert forall|f: u64| #[trigger] ms3.frames().contains(f) implies allocator.is_allocated(f) by {
                    assert(ms2.frames().contains(f));
                }
            }
        }
        let res = ms.insert_framed_area(
            mem,
            allocator,
            VirtAddr(TRAP_CONTEXT),
            VirtAddr(TRAMPOLINE),
            MapPermission { bits: PERM_R | PERM_W },
        );
        let ghost ms4 = ms;
        let ghost mem4 = *mem;
        let ghost alloc4 = *allocator;
        proof {
            lemma_effect_trans(
                none, old(mem), old(allocator), ms3.frames(), &mem2, &alloc2,
                ms4.frames(), &mem4, &alloc4,
            );
        }
        if res.is_err() {
            ms.destroy(mem, allocator);
            proof {
                lemma_effect_trans(
                    none, old(mem), old(allocator), ms4.frames(), &mem4, &alloc4,
                    none, mem, allocator,
                );
                if enough_for(d, old(allocator).free_count()) {
                    assert forall|j: int| 0 <= j < ms3.areas().len() implies (#[trigger] ms3.areas()[j]).end()
                        <= HALF_PAGES by {
                        if j < k {
                            assert(segment_area(ms3.areas()[j], segs[j]));
                            assert(segs[j].vaddr + segs[j].mem_size <= u64::MAX && seg_after(segs[j])
                                <= HALF_PAGES);
                        }
                    }
                    lemma_trap_refused(&ms3, &mem2, &alloc2, &ms4, &mem4, &alloc4, res);
                    lemma_image_pages_nonneg(segs);
                }
            }
            proof {
                old(allocator).lemma_same_free(allocator);
            }
            return None;
        }
        proof {
            ms.lemma_wf(mem);
            assert(ms.areas()[k as int + 1] == ms.areas().last());
            assert forall|j: int| 0 <= j < k + 1 implies ms.areas()[j] == ms3.areas()[j] by {
                assert(ms.areas().drop_last()[j] == ms.areas()[j]);
            }
            assert forall|j: int| 0 <= j < k implies loaded(&ms, mem, d, #[trigger] segs[j]) by {
                lemma_loaded_kept(&ms3, &mem2, &alloc2, &ms, mem, d, segs[j]);
            }
        }
        Some((ms, top, image.entry))
    }
}

/// An image that was loaded stays loaded while its address space is left
/// as it is and all its frames but that of the trap-context page keep their
/// contents.
pub proof fn lemma_built_kept(
    ms: &MemorySet,
    mem: &PhysMemory,
    mem2: &PhysMemory,
    d: Seq<u8>,
    trampoline: u64,
    sp: u64,
    entry: u64,
)
    requires
        ms.wf(mem),
        MemorySet::built_from(ms, mem, d, trampoline, sp, entry),
        forall|f: u64| #[trigger]
            ms.data_frames().contains(f) && ms.page_frame(TRAP_CONTEXT_VPN) != Some(f) ==> mem2@[f]
                == mem@[f],
    ensures
        MemorySet::built_from(ms, mem2, d, trampoline, sp, entry),
{
    let segs = segments_upto(d, ph_count(d));
    let n = segs.len() as int;
    ms.lemma_wf(mem);
    assert forall|j: int| 0 <= j < ms.areas()[n].frames().len() implies mem2@[#[trigger] ms.areas()[n].frames()[j]]
        == crate::memory::zero_frame() by {
        let f = ms.areas()[n].frames()[j];
        assert(ms.data_frames().contains(f));
        assert(ms.areas()[n + 1].contains(TRAP_CONTEXT_VPN));
        assert(ms.areas()[n + 1].wf());
        ms.lemma_page_frame(n + 1, TRAP_CONTEXT_VPN);
        assert(ms.areas()[n].frames()[j] != ms.areas()[n + 1].frames()[0]);
    }
    assert forall|j: int| 0 <= j < n implies loaded(ms, mem2, d, #[trigger] segs[j]) by {
        let seg = segs[j];
        assert(loaded(ms, mem, d, seg));
        assert(segment_area(ms.areas()[j], seg));
        assert forall|i: int| 0 <= i < seg.mem_size implies #[trigger] segment_byte(ms, mem2, seg, i)
            == Some(seg_content(d, seg, i)) by {
            assert(segment_byte(ms, mem, seg, i) == Some(seg_content(d, seg, i)));
            let va = (seg.vaddr + i) as u64;
            let v = (va / 4096) as u64;
            ms.lemma_page_frame_wf(mem, v);
            if ms.page_frame(TRAP_CONTEXT_VPN) == ms.page_frame(v) {
                assert(segment_ok(seg, d.len() as int));
                assert(ms.areas()[j].contains(v));
                assert(ms.areas()[n + 1].contains(TRAP_CONTEXT_VPN));
                ms.lemma_page_frame(n + 1, TRAP_CONTEXT_VPN);
                assert(v == TRAP_CONTEXT_VPN);
                assert(crate::memory_set::ranges_overlap(
                    ms.areas()[j].start(),
                    ms.areas()[j].end(),
                    ms.areas()[n + 1].start(),
                    ms.areas()[n + 1].end(),
                ));
            }
        }
    }
}

/// The layout of the kernel in physical memory: the addresses at which its
/// sections start and end, the end of the memory it manages, and the address
/// of the trampoline code.
#[derive(Clone, Copy, Debug, PartialEq, Eq, Structural)]
pub struct KernelLayout {
    pub stext: u64,
    pub etext: u64,
    pub srodata: u64,
    pub erodata: u64,
    pub sdata: u64,
    pub edata: u64,
    pub sbss: u64,
    pub ebss: u64,
    pub ekernel: u64,
    pub memory_end: u64,
    pub strampoline: u64,
}

impl KernelLayout {
    /// The ranges of the identically mapped areas of the kernel, each with
    /// its permissions: code, read-only data, data, zeroed data, and the
    /// memory that the kernel manages.
    pub open spec fn ranges(&self) -> Seq<(u64, u64, u8)> {
        seq![
            (self.stext, self.etext, PERM_R | PERM_X),
            (self.srodata, self.erodata, PERM_R),
            (self.sdata, self.edata, PERM_R | PERM_W),
            (self.sbss, self.ebss, PERM_R | PERM_W),
            (self.ekernel, self.memory_end, PERM_R | PERM_W),
        ]
    }
}

/// The first page that the range touches.
pub open spec fn range_first(r: (u64, u64, u8)) -> u64 {
    (r.0 / 4096) as u64
}

/// The page after the last page that the range touches.
pub open spec fn range_after(r: (u64, u64, u8)) -> u64 {
    ((r.1 + 4095) / 4096) as u64
}

/// The number of pages that the ranges touch together.
pub open spec fn range_pages(ranges: Seq<(u64, u64, u8)>) -> int
    decreases ranges.len(),
{
    if ranges.len() == 0 {
        0
    } else {
        range_pages(ranges.drop_last()) + (range_after(ranges.last()) - range_first(ranges.last()))
    }
}

/// Whether the sections of the kernel can be mapped: each lies in the lower
/// half of the address space, no two share a page, and the trampoline lies
/// at a frame whose number fits into a page-table entry.
pub open spec fn layout_fits(layout: KernelLayout) -> bool {
    let r = layout.ranges();
    &&& layout.strampoline / 4096 < 0x1000_0000_0000
    &&& forall|j: int|
        0 <= j < 5 ==> range_first(#[trigger] r[j]) <= range_after(r[j]) <= HALF_PAGES
    &&& forall|i: int, j: int|
        0 <= i < 5 && 0 <= j < 5 && i != j ==> !ranges_overlap(
            range_first(#[trigger] r[i]),
            range_after(r[i]),
            range_first(#[trigger] r[j]),
            range_after(r[j]),
        )
}

/// Whether `free` free frames are enough for the page table of the kernel
/// with the layout `layout`, which must fit: two for each page, and three
/// more for the root and the trampoline.
pub open spec fn enough_for_kernel(layout: KernelLayout, free: nat) -> bool {
    layout_fits(layout) && free >= 2 * range_pages(layout.ranges()) + 3
}

/// The first `i` ranges touch no more pages than all of them.
proof fn lemma_range_pages_mono(ranges: Seq<(u64, u64, u8)>, i: int)
    requires
        0 <= i <= ranges.len(),
        forall|j: int| 0 <= j < ranges.len() ==> range_first(#[trigger] ranges[j]) <= range_after(ranges[j]),
    ensures
        range_pages(ranges.take(i)) <= range_pages(ranges),
        0 <= range_pages(ranges.take(i)),
    decreases ranges.len() - i,
{
    if i == ranges.len() {
        assert(ranges.take(i) =~= ranges);
    } else {
        lemma_range_pages_mono(ranges, i + 1);
        assert(ranges.take(i + 1).drop_last() =~= ranges.take(i));
        assert(ranges.take(i + 1).last() == ranges[i]);
    }
    assert forall|j: int| 0 <= j < ranges.take(i).len() implies range_first(
        #[trigger] ranges.take(i)[j],
    ) <= range_after(ranges.take(i)[j]) by {
        assert(ranges.take(i)[j] == ranges[j]);
    }
    lemma_range_pages_nonneg(ranges.take(i));
}

/// Ranges touch no negative number of pages together.
proof fn lemma_range_pages_nonneg(ranges: Seq<(u64, u64, u8)>)
    requires
        forall|j: int| 0 <= j < ranges.len() ==> range_first(#[trigger] ranges[j]) <= range_after(ranges[j]),
    ensures
        0 <= range_pages(ranges),
    decreases ranges.len(),
{
    if ranges.len() > 0 {
        assert forall|j: int| 0 <= j < ranges.drop_last().len() implies range_first(
            #[trigger] ranges.drop_last()[j],
        ) <= range_after(ranges.drop_last()[j]) by {
            assert(ranges.drop_last()[j] == ranges[j]);
        }
        lemma_range_pages_nonneg(ranges.drop_last());
        assert(range_first(ranges[ranges.len() - 1]) <= range_after(ranges[ranges.len() - 1]));
    }
}

/// When the area of the range at the place `k` cannot be added to an
/// address space that holds the areas of the ranges before it, the layout
/// does not fit or the frames are not enough.
proof fn lemma_range_refused(
    ks: &MemorySet,
    layout: KernelLayout,
    k: int,
    res: Result<(), AreaError>,
    free_now: nat,
    free: nat,
)
    requires
        0 <= k < 5,
        ks.areas().len() == k,
        forall|j: int| 0 <= j < k ==> kernel_area(#[trigger] ks.areas()[j], layout.ranges()[j]),
        res is Err,
        res == Err::<(), AreaError>(AreaError::InvalidRange) <==> !(range_first(layout.ranges()[k])
            <= range_after(layout.ranges()[k]) <= HALF_PAGES),
        res == Err::<(), AreaError>(AreaError::Overlap) <==> range_first(layout.ranges()[k])
            <= range_after(layout.ranges()[k]) <= HALF_PAGES && ks.any_covered(
            range_first(layout.ranges()[k]),
            range_after(layout.ranges()[k]),
        ),
        res == Err::<(), AreaError>(AreaError::OutOfFrames) ==> free_now < 2 * (range_after(
            layout.ranges()[k],
        ) - range_first(layout.ranges()[k])),
        res != Err::<(), AreaError>(AreaError::NoSuchArea),
        free_now + 3 + 2 * range_pages(layout.ranges().take(k)) >= free,
    ensures
        !enough_for_kernel(layout, free),
{
    let r = layout.ranges();
    let s = range_first(r[k]);
    let e = range_after(r[k]);
    if enough_for_kernel(layout, free) {
        assert(range_first(r[k]) <= range_after(r[k]) <= HALF_PAGES);
        if ks.any_covered(s, e) {
            ks.lemma_any_covered(s, e);
            let i = choose|i: int|
                0 <= i < ks.areas().len() && ranges_overlap(
                    (#[trigger] ks.areas()[i]).start(),
                    ks.areas()[i].end(),
                    s,
                    e,
                );
            assert(kernel_area(ks.areas()[i], r[i]));
            assert(ranges_overlap(range_first(r[i]), range_after(r[i]), s, e));
        }
        let err = res->Err_0;
        assert(res == Err::<(), AreaError>(err));
        match err {
            AreaError::InvalidRange => {},
            AreaError::Overlap => {},
            AreaError::NoSuchArea => {},
            AreaError::OutOfFrames => {},
        }
        lemma_range_pages_mono(r, k + 1);
        assert(r.take(k + 1).drop_last() =~= r.take(k));
        assert(r.take(k + 1).last() == r[k]);
    }
}

/// Whether `area` is the identically mapped area of the pages that the
/// range `r` touches, with the permissions of `r`.
pub open spec fn kernel_area(area: MapArea, r: (u64, u64, u8)) -> bool {
    &&& area.start() == r.0 / 4096
    &&& area.end() == (r.1 + 4095) / 4096
    &&& area.perm() == r.2
    &&& area.map_type() == MapType::Identical
}

impl MemorySet {
    /// The address space of the kernel: every section of the kernel and the
    /// memory it manages mapped identically, and the trampoline.
    ///
    /// `None` when the sections do not lie beside each other in the lower
    /// half of the address space, or when the frames for the page table run
    /// out; then every frame that was taken is given back.
    pub fn new_kernel(
        mem: &mut PhysMemory,
        allocator: &mut StackFrameAllocator,
        layout: &KernelLayout,
    ) -> (r: Option<MemorySet>)
        requires
            old(mem).wf(),
            old(allocator).wf(),
            old(allocator).within(old(mem)),
        ensures
            enough_for_kernel(*layout, old(allocator).free_count()) ==> r is Some,
            r is None ==> forall|q: u64| final(allocator).is_free(q) <==> old(allocator).is_free(q),
            r is None ==> final(allocator).free_count() == old(allocator).free_count(),
            r matches Some(ks) ==> forall|q: u64|
                final(allocator).is_free(q) <==> old(allocator).is_free(q) && !ks.frames().contains(q),
            r is None ==> effect(
                Set::<u64>::empty(),
                old(mem),
                old(allocator),
                Set::<u64>::empty(),
                final(mem),
                final(allocator),
            ),
            r matches Some(ks) ==> {
                &&& ks.wf(final(mem))
                &&& ks.owned(final(allocator))
                &&& effect(
                    Set::<u64>::empty(),
                    old(mem),
                    old(allocator),
                    ks.frames(),
                    final(mem),
                    final(allocator),
                )
                &&& ks.trampoline() == Some((layout.strampoline / 4096) as u64)
                &&& ks.areas().len() == 5
                &&& forall|j: int| 0 <= j < 5 ==> kernel_area(#[trigger] ks.areas()[j], layout.ranges()[j])
                &&& ks.data_frames() == Set::<u64>::empty()
                &&& final(allocator).free_count() + 2 * range_pages(layout.ranges()) + 3 >= old(allocator).free_count()
            },
    {
        let ghost none = Set::<u64>::empty();
        if layout.strampoline / 4096 >= 0x1000_0000_0000 {
            proof {
                lemma_effect_none(old(mem), old(allocator));
            }
            proof {
                old(allocator).lemma_same_free(allocator);
            }
            return None;
        }
        let mut ks = match MemorySet::new_bare(mem, allocator) {
            None => {
                proof {
                    lemma_effect_none(old(mem), old(allocator));
                    if layout_fits(*layout) {
                        lemma_range_pages_nonneg(layout.ranges());
                    }
                }
                proof {
                    old(allocator).lemma_same_free(allocator);
                }
                return None;
            },
            Some(m) => m,
        };
        let ghost ks0 = ks;
        let ghost mem0 = *mem;
        let ghost alloc0 = *allocator;
        let tramp = ks.map_trampoline(mem, allocator, PhysPageNum(layout.strampoline / 4096));
        proof {
            lemma_effect_trans(
                none, old(mem), old(allocator), ks0.frames(), &mem0, &alloc0,
                ks.frames(), mem, allocator,
            );
        }
        if tramp.is_err() {
            let ghost ks1 = ks;
            let ghost mem1 = *mem;
            let ghost alloc1 = *allocator;
            ks.destroy(mem, allocator);
            proof {
                lemma_effect_trans(
                    none, old(mem), old(allocator), ks1.frames(), &mem1, &alloc1,
                    none, mem, allocator,
                );
                assert(!ks0.covered(TRAMPOLINE_VPN));
                assert(alloc0.free_count() < 2);
                if layout_fits(*layout) {
                    lemma_range_pages_nonneg(layout.ranges());
                }
            }
            proof {
                old(allocator).lemma_same_free(allocator);
            }
            return None;
        }
        assert((2u8 | 8u8) & 0xe1 == 0 && (2u8 | 8u8) & 16 == 0) by (bit_vector);
        assert(2u8 & 0xe1 == 0 && 2u8 & 16 == 0) by (bit_vector);
        assert((2u8 | 4u8) & 0xe1 == 0 && (2u8 | 4u8) & 16 == 0) by (bit_vector);
        let mut ranges: Vec<(u64, u64, u8)> = Vec::new();
        ranges.push((layout.stext, layout.etext, PERM_R | PERM_X));
        ranges.push((layout.srodata, layout.erodata, PERM_R));
        ranges.push((layout.sdata, layout.edata, PERM_R | PERM_W));
        ranges.push((layout.sbss, layout.ebss, PERM_R | PERM_W));
        ranges.push((layout.ekernel, layout.memory_end, PERM_R | PERM_W));
        proof {
            assert(ranges@ =~= layout.ranges());
            ks.lemma_wf(mem);
            assert(ks.data_frames() =~= none) by {
                assert(ks.areas().len() == 0);
            }
        }
        let mut k: usize = 0;
        proof {
            assert(layout.ranges().take(0) =~= Seq::<(u64, u64, u8)>::empty());
        }
        while k < ranges.len()
            invariant
                old(allocator).wf(),
                k <= 5,
                allocator.free_count() + 3 + 2 * range_pages(layout.ranges().take(k as int)) >= old(allocator).free_count(),
                ranges@ == layout.ranges(),
                none == Set::<u64>::empty(),
                ks.wf(mem),
                ks.owned(allocator),
                mem.wf(),
                allocator.wf(),
                allocator.within(mem),
                effect(none, old(mem), old(allocator), ks.frames(), mem, allocator),
                ks.trampoline() == Some((layout.strampoline / 4096) as u64),
                ks.areas().len() == k,
                ks.data_frames() == none,
                forall|j: int| 0 <= j < 5 ==> perm_bits_valid((#[trigger] ranges@[j]).2) && ranges@[j].2
                    & PERM_U == 0,
                forall|j: int| 0 <= j < k ==> kernel_area(#[trigger] ks.areas()[j], ranges@[j]),
            decreases 5 - k,
        {
            let (start, end, bits) = ranges[k];
            let ghost ks1 = ks;
            let ghost mem1 = *mem;
            let ghost alloc1 = *allocator;
            proof {
                assert(perm_bits_valid(ranges@[k as int].2));
            }
            let res = ks.insert_identical_area(
                mem,
                allocator,
                VirtAddr(start),
                VirtAddr(end),
                MapPermission { bits },
            );
            let ghost ks2 = ks;
            let ghost mem2 = *mem;
            let ghost alloc2 = *allocator;
            proof {
                lemma_effect_trans(
                    none, old(mem), old(allocator), ks1.frames(), &mem1, &alloc1,
                    ks2.frames(), &mem2, &alloc2,
                );
            }
            if res.is_err() {
                ks.destroy(mem, allocator);
                proof {
                    lemma_effect_trans(
                        none, old(mem), old(allocator), ks2.frames(), &mem2, &alloc2,
                        none, mem, allocator,
                    );
                    lemma_range_refused(
                        &ks1,
                        *layout,
                        k as int,
                        res,
                        alloc1.free_count(),
                        old(allocator).free_count(),
                    );
                }
                proof {
                    old(allocator).lemma_same_free(allocator);
                }
                return None;
            }
            proof {
                assert(layout.ranges().take(k as int + 1).drop_last() =~= layout.ranges().take(k as int));
                assert(layout.ranges().take(k as int + 1).last() == layout.ranges()[k as int]);
                ks.lemma_wf(mem);
                assert(ks.areas()[k as int] == ks.areas().last());
                assert forall|j: int| 0 <= j < k implies ks.areas()[j] == ks1.areas()[j] by {
                    assert(ks.areas().drop_last()[j] == ks.areas()[j]);
                }
            }
            k = k + 1;
        }
        proof {
            assert(layout.ranges().take(5) =~= layout.ranges());
        }
        Some(ks)
    }
}

/// Doing nothing has the effect of an operation that changed nothing.
pub proof fn lemma_effect_none(mem: &PhysMemory, allocator: &StackFrameAllocator)
    requires
        mem.wf(),
        allocator.wf(),
    ensures
        effect(Set::<u64>::empty(), mem, allocator, Set::<u64>::empty(), mem, allocator),
{
}

} // verus!
