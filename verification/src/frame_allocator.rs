//! The physical frame allocator: a stack of recycled frames on top of the
//! untouched tail of the pool.

use vstd::prelude::*;
use crate::address::PhysPageNum;
use crate::memory::{PhysMemory, zero_frame};

verus! {

/// A sequence without repetition whose items lie in `[lo, hi)` has at most
/// `hi - lo` items.
proof fn lemma_bounded_len(s: Seq<u64>, lo: int, hi: int)
    requires
        lo <= hi,
        s.no_duplicates(),
        forall|i: int| 0 <= i < s.len() ==> lo <= #[trigger] s[i] < hi,
    ensures
        s.len() <= hi - lo,
    decreases hi - lo,
{
    if s.len() == 0 {
    } else if hi == lo {
        assert(lo <= s[0] < hi);
    } else {
        if exists|i: int| 0 <= i < s.len() && s[i] == hi - 1 {
            let i = choose|i: int| 0 <= i < s.len() && s[i] == hi - 1;
            let t = s.remove(i);
            assert forall|j: int| 0 <= j < t.len() implies lo <= #[trigger] t[j] < hi - 1 by {
                if j < i {
                    assert(t[j] == s[j]);
                } else {
                    assert(t[j] == s[j + 1]);
                }
            }
            assert(t.no_duplicates()) by {
                assert forall|a: int, b: int| 0 <= a < t.len() && 0 <= b < t.len() && a != b implies t[a] != t[b] by {
                    let a2 = if a < i { a } else { a + 1 };
                    let b2 = if b < i { b } else { b + 1 };
                    assert(t[a] == s[a2] && t[b] == s[b2]);
                }
            }
            lemma_bounded_len(t, lo, hi - 1);
        } else {
            lemma_bounded_len(s, lo, hi - 1);
        }
    }
}

/// The frames from `lo` up to `hi`.
pub open spec fn frame_range(lo: u64, hi: u64) -> Set<u64> {
    Set::new(|q: u64| lo <= q < hi)
}

/// There are `hi - lo` frames from `lo` up to `hi`.
proof fn lemma_frame_range(lo: u64, hi: u64)
    requires
        lo <= hi,
    ensures
        frame_range(lo, hi).finite(),
        frame_range(lo, hi).len() == hi - lo,
    decreases hi - lo,
{
    if lo == hi {
        assert(frame_range(lo, hi) =~= Set::<u64>::empty());
    } else {
        let last = (hi - 1) as u64;
        lemma_frame_range(lo, last);
        assert(frame_range(lo, hi) =~= frame_range(lo, last).insert(last));
    }
}

/// An operation on the allocator.
pub enum FrameOp {
    /// A frame is asked for.
    Allocate,
    /// The frame with this number is given back.
    Deallocate(u64),
}

/// The allocator of the frames `[range_start(), range_end())`.
///
/// A frame is free when it was never handed out or was given back since;
/// otherwise it is allocated. Frames that were given back are handed out
/// again before untouched ones, the last one given back first.
pub struct StackFrameAllocator {
    start: u64,
    current: u64,
    end: u64,
    recycled: Vec<u64>,
}

impl StackFrameAllocator {
    /// The first frame of the pool.
    pub closed spec fn range_start(&self) -> u64 {
        self.start
    }

    /// The frame after the last one of the pool.
    pub closed spec fn range_end(&self) -> u64 {
        self.end
    }

    /// No frame is recorded as given back twice, and only frames that were
    /// handed out are recorded as given back.
    pub closed spec fn wf(&self) -> bool {
        &&& self.start <= self.current <= self.end
        &&& self.recycled@.no_duplicates()
        &&& forall|i: int|
            0 <= i < self.recycled@.len() ==> self.start <= #[trigger] self.recycled@[i]
                < self.current
    }

    /// Whether the frame `p` is free.
    pub closed spec fn is_free(&self, p: u64) -> bool {
        (self.current <= p < self.end) || self.recycled@.contains(p)
    }

    /// Whether the frame `p` is handed out and not given back.
    pub open spec fn is_allocated(&self, p: u64) -> bool {
        self.range_start() <= p < self.range_end() && !self.is_free(p)
    }

    /// The frames that are handed out and not given back.
    pub open spec fn allocated(&self) -> Set<u64> {
        Set::new(|p: u64| self.is_allocated(p))
    }

    /// The number of free frames.
    pub closed spec fn free_count(&self) -> nat {
        (self.recycled@.len() + (self.end - self.current)) as nat
    }

    /// The frame that the next allocation hands out, if any is free.
    pub closed spec fn next_frame(&self) -> Option<u64> {
        if self.recycled@.len() > 0 {
            Some(self.recycled@.last())
        } else if self.current < self.end {
            Some(self.current)
        } else {
            None
        }
    }

    /// Whether every frame of the pool is a frame of `mem`.
    pub open spec fn within(&self, mem: &PhysMemory) -> bool {
        mem.base() <= self.range_start() && self.range_end() <= mem.base() + mem.frame_count()
    }

    /// Whether the operation `op` takes this allocator to `next` and hands
    /// out `got`: an allocation hands out the next frame, if there is one,
    /// which is allocated from then on; a deallocation hands out nothing and
    /// is of an allocated frame, which is allocated no longer.
    pub open spec fn takes(&self, op: FrameOp, next: &Self, got: Option<u64>) -> bool {
        match op {
            FrameOp::Allocate => got == self.next_frame() && next.allocated() == (match got {
                Some(p) => self.allocated().insert(p),
                None => self.allocated(),
            }),
            FrameOp::Deallocate(p) => got is None && self.is_allocated(p) && next.allocated()
                == self.allocated().remove(p),
        }
    }

    /// The free frames.
    pub open spec fn free_set(&self) -> Set<u64> {
        Set::new(|q: u64| self.is_free(q))
    }

    /// The number of free frames is the number of frames that are free.
    pub proof fn lemma_free_count(&self)
        requires
            self.wf(),
        ensures
            self.free_set().finite(),
            self.free_set().len() == self.free_count(),
    {
        let a = frame_range(self.current, self.end);
        let b = self.recycled@.to_set();
        lemma_frame_range(self.current, self.end);
        self.recycled@.unique_seq_to_set();
        vstd::seq_lib::seq_to_set_is_finite(self.recycled@);
        assert(a.disjoint(b)) by {
            assert forall|q: u64| a.contains(q) implies !b.contains(q) by {
                if self.recycled@.contains(q) {
                    let i = choose|i: int| 0 <= i < self.recycled@.len() && self.recycled@[i] == q;
                    assert(self.recycled@[i] < self.current);
                }
            }
        }
        vstd::set_lib::lemma_set_disjoint_lens(a, b);
        assert(self.free_set() =~= a + b);
    }

    /// Two allocators with the same free frames have equally many.
    pub proof fn lemma_same_free(&self, other: &Self)
        requires
            self.wf(),
            other.wf(),
            forall|q: u64| self.is_free(q) <==> other.is_free(q),
        ensures
            self.free_count() == other.free_count(),
    {
        self.lemma_free_count();
        other.lemma_free_count();
        assert(self.free_set() =~= other.free_set());
    }

    /// Free frames lie in the pool; the next frame to hand out is free; and
    /// there is a next frame exactly when a frame is free.
    pub proof fn lemma_free(&self)
        requires
            self.wf(),
        ensures
            self.range_start() <= self.range_end(),
            forall|p: u64| self.is_free(p) ==> self.range_start() <= p < self.range_end(),
            self.next_frame() is Some ==> self.is_free(self.next_frame()->0),
            self.next_frame() is None <==> self.free_count() == 0,
            self.free_count() <= self.range_end() - self.range_start(),
    {
        if self.recycled@.len() > 0 {
            assert(self.recycled@[self.recycled@.len() - 1] == self.recycled@.last());
        }
        lemma_bounded_len(self.recycled@, self.start as int, self.current as int);
    }

    /// An allocator of the frames from `start` up to `end`, all free.
    pub fn new(start: PhysPageNum, end: PhysPageNum) -> (r: Self)
        requires
            start.0 <= end.0,
        ensures
            r.wf(),
            r.range_start() == start.0,
            r.range_end() == end.0,
            r.free_count() == end.0 - start.0,
            forall|p: u64| r.is_free(p) <==> start.0 <= p < end.0,
            r.allocated() == Set::<u64>::empty(),
    {
        let r = StackFrameAllocator { start: start.0, current: start.0, end: end.0, recycled: Vec::new() };
        assert(r.allocated() =~= Set::<u64>::empty());
        r
    }

    /// The number of free frames.
    pub fn free_frames(&self) -> (r: u64)
        requires
            self.wf(),
        ensures
            r == self.free_count(),
    {
        proof {
            self.lemma_free();
        }
        self.recycled.len() as u64 + (self.end - self.current)
    }

    /// Whether the frame `ppn` is handed out and not given back.
    pub fn holds(&self, ppn: PhysPageNum) -> (r: bool)
        requires
            self.wf(),
        ensures
            r == self.is_allocated(ppn.0),
    {
        if ppn.0 < self.start || ppn.0 >= self.current {
            return false;
        }
        let mut i: usize = 0;
        while i < self.recycled.len()
            invariant
                i <= self.recycled@.len(),
                forall|k: int| 0 <= k < i ==> self.recycled@[k] != ppn.0,
            decreases self.recycled@.len() - i,
        {
            if self.recycled[i] == ppn.0 {
                return false;
            }
            i = i + 1;
        }
        true
    }

    /// Hands out a free frame: the one given back last, or else the first
    /// untouched one. `None` when no frame is free; nothing changes then.
    pub fn allocate(&mut self) -> (r: Option<PhysPageNum>)
        requires
            old(self).wf(),
        ensures
            final(self).wf(),
            final(self).range_start() == old(self).range_start(),
            final(self).range_end() == old(self).range_end(),
            r is None <==> old(self).free_count() == 0,
            r is None ==> *final(self) == *old(self),
            old(self).takes(FrameOp::Allocate, final(self), match r {
                Some(p) => Some(p.0),
                None => None,
            }),
            r matches Some(p) ==> {
                &&& old(self).next_frame() == Some(p.0)
                &&& old(self).is_free(p.0)
                &&& !old(self).allocated().contains(p.0)
                &&& final(self).allocated() == old(self).allocated().insert(p.0)
                &&& forall|q: u64| final(self).is_free(q) <==> old(self).is_free(q) && q != p.0
                &&& final(self).free_count() == old(self).free_count() - 1
            },
    {
        proof {
            self.lemma_free();
        }
        if self.recycled.len() > 0 {
            let p: u64 = self.recycled.pop().unwrap();
            proof {
                let n = old(self).recycled@.len() - 1;
                assert(self.recycled@ =~= old(self).recycled@.take(n));
                assert(old(self).recycled@[n] == p);
                assert forall|q: u64| self.is_free(q) <==> old(self).is_free(q) && q != p by {
                    if self.recycled@.contains(q) {
                        let i = choose|i: int| 0 <= i < self.recycled@.len() && self.recycled@[i] == q;
                        assert(old(self).recycled@[i] == q);
                    }
                    if old(self).recycled@.contains(q) && q != p {
                        let i = choose|i: int| 0 <= i < old(self).recycled@.len() && old(self).recycled@[i] == q;
                        assert(self.recycled@[i] == q);
                    }
                }
                assert(self.allocated() =~= old(self).allocated().insert(p));
            }
            Some(PhysPageNum(p))
        } else if self.current == self.end {
            None
        } else {
            let p: u64 = self.current;
            self.current = self.current + 1;
            proof {
                assert(self.allocated() =~= old(self).allocated().insert(p));
            }
            Some(PhysPageNum(p))
        }
    }

    /// Takes back the frame `ppn`, which must be allocated: giving back a
    /// frame that is free already is a fault of the caller.
    pub fn deallocate(&mut self, ppn: PhysPageNum)
        requires
            old(self).wf(),
            old(self).is_allocated(ppn.0),
        ensures
            final(self).wf(),
            final(self).range_start() == old(self).range_start(),
            final(self).range_end() == old(self).range_end(),
            final(self).next_frame() == Some(ppn.0),
            final(self).allocated() == old(self).allocated().remove(ppn.0),
            old(self).takes(FrameOp::Deallocate(ppn.0), final(self), None),
            forall|q: u64| final(self).is_free(q) <==> old(self).is_free(q) || q == ppn.0,
            final(self).free_count() == old(self).free_count() + 1,
    {
        self.recycled.push(ppn.0);
        proof {
            let n = old(self).recycled@.len() as int;
            assert(self.recycled@[n] == ppn.0);
            assert forall|q: u64| self.is_free(q) <==> old(self).is_free(q) || q == ppn.0 by {
                if self.recycled@.contains(q) && q != ppn.0 {
                    let i = choose|i: int| 0 <= i < self.recycled@.len() && self.recycled@[i] == q;
                    assert(old(self).recycled@[i] == q);
                }
                if old(self).recycled@.contains(q) {
                    let i = choose|i: int| 0 <= i < old(self).recycled@.len() && old(self).recycled@[i] == q;
                    assert(self.recycled@[i] == q);
                }
            }
            assert(self.allocated() =~= old(self).allocated().remove(ppn.0));
        }
    }
}

/// Whether `states`, `ops` and `got` are a run of the allocator: each state
/// is in order, and each operation takes its state to the next one and
/// hands out what `got` has at its place.
pub open spec fn is_run(
    states: Seq<StackFrameAllocator>,
    ops: Seq<FrameOp>,
    got: Seq<Option<u64>>,
) -> bool {
    &&& states.len() == ops.len() + 1
    &&& got.len() == ops.len()
    &&& forall|k: int|
        0 <= k < ops.len() ==> (#[trigger] states[k]).wf() && states[k].takes(
            ops[k],
            &states[k + 1],
            got[k],
        )
}

/// In a run, a frame that was handed out at the place `i` stays allocated
/// up to the place `m` when it is not given back in between.
proof fn lemma_stays_allocated(
    states: Seq<StackFrameAllocator>,
    ops: Seq<FrameOp>,
    got: Seq<Option<u64>>,
    i: int,
    m: int,
    f: u64,
)
    requires
        is_run(states, ops, got),
        0 <= i < m <= ops.len(),
        ops[i] == FrameOp::Allocate,
        got[i] == Some(f),
        forall|k: int| i < k < m ==> ops[k] != FrameOp::Deallocate(f),
    ensures
        states[m].allocated().contains(f),
    decreases m - i,
{
    assert(states[i].wf());
    if m == i + 1 {
    } else {
        lemma_stays_allocated(states, ops, got, i, m - 1, f);
        assert(states[m - 1].wf());
        assert(ops[m - 1] != FrameOp::Deallocate(f));
    }
}

/// Frame uniqueness: in any run of allocations and deallocations, a frame
/// that is handed out a second time was given back in between. So no frame
/// is handed out while it is still owned.
pub proof fn lemma_frames_unique(
    states: Seq<StackFrameAllocator>,
    ops: Seq<FrameOp>,
    got: Seq<Option<u64>>,
    i: int,
    j: int,
)
    requires
        is_run(states, ops, got),
        0 <= i < j < ops.len(),
        ops[i] == FrameOp::Allocate,
        ops[j] == FrameOp::Allocate,
        got[i] is Some,
        got[j] == got[i],
    ensures
        exists|k: int| i < k < j && ops[k] == FrameOp::Deallocate(got[i]->0),
{
    let f = got[i]->0;
    if forall|k: int| i < k < j ==> ops[k] != FrameOp::Deallocate(f) {
        lemma_stays_allocated(states, ops, got, i, j, f);
        assert(states[j].wf());
        states[j].lemma_free();
        assert(states[j].is_free(f));
    }
}

/// Hands out a free frame of `allocator`, filled with zeros, so that nothing of
/// its former owner is left in it. `None` when no frame is free.
pub fn frame_alloc(mem: &mut PhysMemory, allocator: &mut StackFrameAllocator) -> (r: Option<PhysPageNum>)
    requires
        old(mem).wf(),
        old(allocator).wf(),
        old(allocator).within(old(mem)),
    ensures
        final(mem).wf(),
        final(mem).base() == old(mem).base(),
        final(mem).frame_count() == old(mem).frame_count(),
        final(allocator).wf(),
        final(allocator).range_start() == old(allocator).range_start(),
        final(allocator).range_end() == old(allocator).range_end(),
        r is None <==> old(allocator).free_count() == 0,
        r is None ==> *final(allocator) == *old(allocator) && final(mem)@ == old(mem)@,
        r matches Some(p) ==> {
            &&& old(allocator).next_frame() == Some(p.0)
            &&& old(allocator).is_free(p.0)
            &&& final(mem).has_frame(p.0)
            &&& final(allocator).allocated() == old(allocator).allocated().insert(p.0)
            &&& forall|q: u64| final(allocator).is_free(q) <==> old(allocator).is_free(q) && q != p.0
            &&& final(allocator).free_count() == old(allocator).free_count() - 1
            &&& final(mem)@ == old(mem)@.insert(p.0, zero_frame())
        },
{
    proof {
        allocator.lemma_free();
    }
    match allocator.allocate() {
        None => None,
        Some(p) => {
            mem.clear_frame(p);
            Some(p)
        },
    }
}

/// Takes back the frame `ppn`, which must be allocated.
pub fn frame_dealloc(allocator: &mut StackFrameAllocator, ppn: PhysPageNum)
    requires
        old(allocator).wf(),
        old(allocator).is_allocated(ppn.0),
    ensures
        final(allocator).wf(),
        final(allocator).range_start() == old(allocator).range_start(),
        final(allocator).range_end() == old(allocator).range_end(),
        final(allocator).next_frame() == Some(ppn.0),
        final(allocator).allocated() == old(allocator).allocated().remove(ppn.0),
        forall|q: u64| final(allocator).is_free(q) <==> old(allocator).is_free(q) || q == ppn.0,
        final(allocator).free_count() == old(allocator).free_count() + 1,
{
    allocator.deallocate(ppn);
}

} // verus!
