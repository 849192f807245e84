//! The physical memory of the machine: a run of 4 KiB frames, each held as
//! 512 little-endian 64-bit words.

use vstd::prelude::*;
use crate::address::{PhysAddr, PhysPageNum};

verus! {

/// The byte at position `k` (0 to 7) of a little-endian word.
pub open spec fn word_byte(w: u64, k: int) -> u8 {
    ((w >> ((8 * k) as u64)) & 0xff) as u8
}

/// The word `w` with its byte at position `k` (0 to 7) replaced by `b`.
pub open spec fn word_with_byte(w: u64, k: int, b: u8) -> u64 {
    (w & !(0xffu64 << ((8 * k) as u64))) | ((b as u64) << ((8 * k) as u64))
}

/// The byte at offset `off` (0 to 4095) of a frame.
pub open spec fn frame_byte(frame: Seq<u64>, off: int) -> u8 {
    word_byte(frame[off / 8], off % 8)
}

/// The frame with its byte at offset `off` replaced by `b`.
pub open spec fn frame_with_byte(frame: Seq<u64>, off: int, b: u8) -> Seq<u64> {
    frame.update(off / 8, word_with_byte(frame[off / 8], off % 8, b))
}

/// A frame of 512 zero words.
pub open spec fn zero_frame() -> Seq<u64> {
    Seq::new(512, |i: int| 0u64)
}

/// Every byte of a zeroed frame is zero.
pub proof fn lemma_zero_byte(off: int)
    requires
        0 <= off < 4096,
    ensures
        frame_byte(zero_frame(), off) == 0,
{
    let k = (8 * (off % 8)) as u64;
    assert(((0u64 >> k) & 0xff) == 0) by (bit_vector);
}

/// Replacing one byte of a word changes that byte and no other.
pub proof fn lemma_word_with_byte(w: u64, k: int, b: u8, j: int)
    requires
        0 <= k < 8,
        0 <= j < 8,
    ensures
        word_byte(word_with_byte(w, k, b), j) == if j == k {
            b
        } else {
            word_byte(w, j)
        },
{
    let sk: u64 = (8 * k) as u64;
    let sj: u64 = (8 * j) as u64;
    let w2: u64 = (w & !(0xffu64 << sk)) | ((b as u64) << sk);
    if j == k {
        assert((((w & !(0xffu64 << sk)) | ((b as u64) << sk)) >> sk) & 0xff == b as u64)
            by (bit_vector)
            requires
                sk < 64,
                sk % 8 == 0,
        ;
    } else {
        assert((((w & !(0xffu64 << sk)) | ((b as u64) << sk)) >> sj) & 0xff == (w >> sj) & 0xff)
            by (bit_vector)
            requires
                sk < 64,
                sj < 64,
                sk % 8 == 0,
                sj % 8 == 0,
                sk != sj,
        ;
    }
}

/// Replacing one byte of a frame changes that byte and no other.
pub proof fn lemma_frame_with_byte(frame: Seq<u64>, off: int, b: u8, other: int)
    requires
        frame.len() == 512,
        0 <= off < 4096,
        0 <= other < 4096,
    ensures
        frame_with_byte(frame, off, b).len() == 512,
        frame_byte(frame_with_byte(frame, off, b), other) == if other == off {
            b
        } else {
            frame_byte(frame, other)
        },
{
    if other / 8 == off / 8 {
        lemma_word_with_byte(frame[off / 8], off % 8, b, other % 8);
    }
}

/// The physical memory: the frames with page numbers from `base()` up to
/// `base() + frame_count()`.
pub struct PhysMemory {
    base: u64,
    words: Vec<u64>,
}

impl View for PhysMemory {
    type V = Map<u64, Seq<u64>>;

    /// The contents of every frame, by page number, as 512 words each.
    closed spec fn view(&self) -> Map<u64, Seq<u64>> {
        Map::new(
            |p: u64| self.base <= p && p - self.base < self.words@.len() / 512,
            |p: u64| self.words@.subrange((p - self.base) * 512, (p - self.base) * 512 + 512),
        )
    }
}

impl PhysMemory {
    /// The page number of the first frame.
    pub closed spec fn base(&self) -> u64 {
        self.base
    }

    /// The number of frames.
    pub closed spec fn frame_count(&self) -> nat {
        (self.words@.len() / 512) as nat
    }

    /// The memory is a whole number of frames, and every page number fits
    /// in the 44 bits that a page-table entry has for it.
    pub closed spec fn wf(&self) -> bool {
        &&& self.words@.len() % 512 == 0
        &&& self.base + self.words@.len() / 512 <= 0x1000_0000_0000
    }

    /// Whether the memory holds the frame `ppn`.
    pub open spec fn has_frame(&self, ppn: u64) -> bool {
        self.base() <= ppn < self.base() + self.frame_count()
    }

    /// The byte at the physical address `pa`.
    pub open spec fn byte(&self, pa: u64) -> u8 {
        frame_byte(self@[(pa / 4096) as u64], (pa % 4096) as int)
    }

    /// The view holds exactly the frames of the memory, 512 words each.
    pub proof fn lemma_view(&self)
        requires
            self.wf(),
        ensures
            self.base() + self.frame_count() <= 0x1000_0000_0000,
            forall|p: u64| self@.dom().contains(p) <==> self.has_frame(p),
            forall|p: u64| self.has_frame(p) ==> (#[trigger] self@[p]).len() == 512,
    {
    }

    /// A memory of `frames` zeroed frames that starts at page number `base`.
    pub fn new(base: u64, frames: usize) -> (r: Self)
        requires
            base + frames <= 0x1000_0000_0000,
            frames * 512 <= usize::MAX,
        ensures
            r.wf(),
            r.base() == base,
            r.frame_count() == frames,
            forall|p: u64| r.has_frame(p) ==> r@[p] == zero_frame(),
    {
        let mut words: Vec<u64> = Vec::new();
        let total: usize = frames * 512;
        let mut i: usize = 0;
        while i < total
            invariant
                i <= total,
                words@.len() == i,
                forall|k: int| 0 <= k < i ==> words@[k] == 0u64,
            decreases total - i,
        {
            words.push(0u64);
            i = i + 1;
        }
        let r = PhysMemory { base, words };
        assert forall|p: u64| r.has_frame(p) implies r@[p] == zero_frame() by {
            assert(r@[p] =~= zero_frame());
        }
        r
    }

    /// The page number of the first frame.
    pub fn base_ppn(&self) -> (r: PhysPageNum)
        ensures
            r.0 == self.base(),
    {
        PhysPageNum(self.base)
    }

    /// The number of frames.
    pub fn frames(&self) -> (r: usize)
        ensures
            r == self.frame_count(),
    {
        self.words.len() / 512
    }

    /// Whether the memory holds the frame `ppn`.
    pub fn contains(&self, ppn: PhysPageNum) -> (r: bool)
        ensures
            r == self.has_frame(ppn.0),
    {
        ppn.0 >= self.base && ppn.0 - self.base < (self.words.len() / 512) as u64
    }

    /// The word at index `idx` of the frame `ppn`.
    pub fn read_word(&self, ppn: PhysPageNum, idx: usize) -> (r: u64)
        requires
            self.wf(),
            self.has_frame(ppn.0),
            idx < 512,
        ensures
            r == self@[ppn.0][idx as int],
    {
        let d: u64 = ppn.0 - self.base;
        let n: usize = self.words.len();
        assert(d < n / 512);
        assert(d * 512 + 512 <= n);
        let i: usize = d as usize * 512 + idx;
        self.words[i]
    }

    /// Stores `val` at index `idx` of the frame `ppn`.
    pub fn write_word(&mut self, ppn: PhysPageNum, idx: usize, val: u64)
        requires
            old(self).wf(),
            old(self).has_frame(ppn.0),
            idx < 512,
        ensures
            final(self).wf(),
            final(self).base() == old(self).base(),
            final(self).frame_count() == old(self).frame_count(),
            final(self)@ == old(self)@.insert(ppn.0, old(self)@[ppn.0].update(idx as int, val)),
    {
        let d: u64 = ppn.0 - self.base;
        let n: usize = self.words.len();
        assert(d < n / 512);
        assert(d * 512 + 512 <= n);
        let i: usize = d as usize * 512 + idx;
        self.words.set(i, val);
        proof {
            let want = old(self)@.insert(ppn.0, old(self)@[ppn.0].update(idx as int, val));
            assert forall|p: u64| self@.dom().contains(p) implies #[trigger] self@[p] == want[p] by {
                let e: int = p - self.base;
                assert(e * 512 + 512 <= self.words@.len());
                if p != ppn.0 {
                    assert(e * 512 + 512 <= d * 512 || d * 512 + 512 <= e * 512);
                }
                assert(self@[p] =~= want[p]);
            }
            assert(self@ =~= want);
        }
    }

    /// The byte at the physical address `pa`.
    pub fn read_byte(&self, pa: PhysAddr) -> (r: u8)
        requires
            self.wf(),
            self.has_frame((pa.0 / 4096) as u64),
        ensures
            r == self.byte(pa.0),
    {
        let off: usize = (pa.0 % 4096) as usize;
        let w: u64 = self.read_word(PhysPageNum(pa.0 / 4096), off / 8);
        let k: u64 = (off % 8) as u64;
        let sh: u64 = 8 * k;
        ((w >> sh) & 0xff) as u8
    }

    /// Stores `b` at the physical address `pa`.
    pub fn write_byte(&mut self, pa: PhysAddr, b: u8)
        requires
            old(self).wf(),
            old(self).has_frame((pa.0 / 4096) as u64),
        ensures
            final(self).wf(),
            final(self).base() == old(self).base(),
            final(self).frame_count() == old(self).frame_count(),
            final(self)@ == old(self)@.insert(
                (pa.0 / 4096) as u64,
                frame_with_byte(old(self)@[(pa.0 / 4096) as u64], (pa.0 % 4096) as int, b),
            ),
    {
        let off: usize = (pa.0 % 4096) as usize;
        let ppn = PhysPageNum(pa.0 / 4096);
        let w: u64 = self.read_word(ppn, off / 8);
        let k: u64 = (off % 8) as u64;
        let sh: u64 = 8 * k;
        let w2: u64 = (w & !(0xffu64 << sh)) | ((b as u64) << sh);
        self.write_word(ppn, off / 8, w2);
    }

    /// Fills the frame `ppn` with zeros.
    pub fn clear_frame(&mut self, ppn: PhysPageNum)
        requires
            old(self).wf(),
            old(self).has_frame(ppn.0),
        ensures
            final(self).wf(),
            final(self).base() == old(self).base(),
            final(self).frame_count() == old(self).frame_count(),
            final(self)@ == old(self)@.insert(ppn.0, zero_frame()),
    {
        let mut i: usize = 0;
        proof {
            self.lemma_view();
        }
        while i < 512
            invariant
                i <= 512,
                self.wf(),
                self.has_frame(ppn.0),
                self.base() == old(self).base(),
                self.frame_count() == old(self).frame_count(),
                self@.dom() == old(self)@.dom(),
                forall|p: u64| p != ppn.0 && self@.dom().contains(p) ==> self@[p] == old(self)@[p],
                self@[ppn.0].len() == 512,
                forall|k: int| 0 <= k < i ==> self@[ppn.0][k] == 0u64,
            decreases 512 - i,
        {
            self.write_word(ppn, i, 0u64);
            i = i + 1;
        }
        proof {
            assert(self@[ppn.0] =~= zero_frame());
            assert(self@ =~= old(self)@.insert(ppn.0, zero_frame()));
        }
    }

    /// Copies the contents of the frame `src` into the frame `dst`.
    pub fn copy_frame(&mut self, dst: PhysPageNum, src: PhysPageNum)
        requires
            old(self).wf(),
            old(self).has_frame(dst.0),
            old(self).has_frame(src.0),
        ensures
            final(self).wf(),
            final(self).base() == old(self).base(),
            final(self).frame_count() == old(self).frame_count(),
            final(self)@ == old(self)@.insert(dst.0, old(self)@[src.0]),
    {
        proof {
            self.lemma_view();
        }
        if dst.0 == src.0 {
            assert(self@ =~= old(self)@.insert(dst.0, old(self)@[src.0]));
            return ;
        }
        let mut i: usize = 0;
        while i < 512
            invariant
                i <= 512,
                dst.0 != src.0,
                self.wf(),
                self.has_frame(dst.0),
                self.has_frame(src.0),
                self.base() == old(self).base(),
                self.frame_count() == old(self).frame_count(),
                self@.dom() == old(self)@.dom(),
                forall|p: u64| p != dst.0 && self@.dom().contains(p) ==> self@[p] == old(self)@[p],
                self@[dst.0].len() == 512,
                old(self)@[src.0].len() == 512,
                forall|k: int| 0 <= k < i ==> self@[dst.0][k] == old(self)@[src.0][k],
            decreases 512 - i,
        {
            let w: u64 = self.read_word(src, i);
            self.write_word(dst, i, w);
            i = i + 1;
        }
        proof {
            assert(self@[dst.0] =~= old(self)@[src.0]);
            assert(self@ =~= old(self)@.insert(dst.0, old(self)@[src.0]));
        }
    }
}

} // verus!
