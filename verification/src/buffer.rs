//! Buffers in user memory: the bytes behind a range of virtual addresses, as
//! runs of bytes that each lie inside one frame, in their order.

use vstd::prelude::*;
use crate::address::{PhysAddr, VirtAddr};
use crate::memory::PhysMemory;
use crate::memory_set::MemorySet;

verus! {

/// A run of bytes of the physical memory: the address of the first byte
/// and the number of bytes.
#[derive(Clone, Copy, Debug, PartialEq, Eq, Structural)]
pub struct ByteRange {
    pub pa: u64,
    pub len: usize,
}

/// Whether the run is not empty and lies inside one frame.
pub open spec fn in_one_frame(r: ByteRange) -> bool {
    r.len > 0 && r.pa % 4096 + r.len <= 4096
}

/// The addresses of the bytes of the run, in their order.
pub open spec fn run_addrs(r: ByteRange) -> Seq<u64> {
    Seq::new(r.len as nat, |i: int| (r.pa + i) as u64)
}

/// The addresses of the bytes of the runs, in their order.
pub open spec fn range_addrs(ranges: Seq<ByteRange>) -> Seq<u64>
    decreases ranges.len(),
{
    if ranges.len() == 0 {
        Seq::empty()
    } else {
        range_addrs(ranges.drop_last()) + run_addrs(ranges.last())
    }
}

/// The physical addresses behind the `len` virtual addresses from `va` on,
/// for an access from user mode that needs the flags `need`.
pub open spec fn user_addrs(ms: &MemorySet, mem: &PhysMemory, va: u64, len: nat, need: u8) -> Seq<
    u64,
> {
    Seq::new(len, |k: int| ms.user_addr(mem, (va + k) as u64, need)->0)
}

/// The physical address behind the virtual address `i` bytes after `va`.
pub open spec fn addr_after(ms: &MemorySet, mem: &PhysMemory, va: u64, i: int, need: u8) -> Option<
    u64,
> {
    ms.user_addr(mem, (va + i) as u64, need)
}

/// One run more adds its addresses at the end.
proof fn lemma_one_more(ranges: Seq<ByteRange>, r: ByteRange)
    ensures
        range_addrs(ranges.push(r)) == range_addrs(ranges) + run_addrs(r),
{
    assert(ranges.push(r).drop_last() =~= ranges);
    assert(ranges.push(r).last() == r);
}

/// The first runs hold no more bytes than all of them.
proof fn lemma_prefix_len(ranges: Seq<ByteRange>, j: int)
    requires
        0 <= j <= ranges.len(),
    ensures
        range_addrs(ranges.take(j)).len() <= range_addrs(ranges).len(),
    decreases ranges.len() - j,
{
    if j < ranges.len() {
        lemma_prefix_len(ranges, j + 1);
        assert(ranges.take(j + 1).drop_last() =~= ranges.take(j));
    } else {
        assert(ranges.take(j) =~= ranges);
    }
}

/// The bytes behind a range of virtual addresses of a process.
pub struct UserBuffer {
    pub buffers: Vec<ByteRange>,
}

impl UserBuffer {
    /// The addresses of the bytes of the buffer, in their order.
    pub open spec fn addrs(&self) -> Seq<u64> {
        range_addrs(self.buffers@)
    }

    /// Every run of the buffer is not empty and lies inside one frame of
    /// the memory `mem`.
    pub open spec fn wf(&self, mem: &PhysMemory) -> bool {
        forall|j: int|
            0 <= j < self.buffers@.len() ==> in_one_frame(#[trigger] self.buffers@[j])
                && mem.has_frame((self.buffers@[j].pa / 4096) as u64)
    }

    /// The buffer of the runs `buffers`.
    pub fn new(buffers: Vec<ByteRange>) -> (r: Self)
        ensures
            r.buffers == buffers,
    {
        UserBuffer { buffers }
    }

    /// The number of bytes of the buffer.
    pub fn len(&self) -> (r: usize)
        requires
            self.addrs().len() <= usize::MAX,
        ensures
            r == self.addrs().len(),
    {
        let mut total: usize = 0;
        let mut j: usize = 0;
        proof {
            assert(self.buffers@.take(0) =~= Seq::<ByteRange>::empty());
        }
        while j < self.buffers.len()
            invariant
                j <= self.buffers@.len(),
                total == range_addrs(self.buffers@.take(j as int)).len(),
                self.addrs().len() <= usize::MAX,
            decreases self.buffers@.len() - j,
        {
            proof {
                lemma_prefix_len(self.buffers@, j + 1);
                assert(self.buffers@.take(j + 1).drop_last() =~= self.buffers@.take(j as int));
                assert(self.buffers@.take(j + 1).last() == self.buffers@[j as int]);
            }
            total = total + self.buffers[j].len;
            j = j + 1;
        }
        proof {
            assert(self.buffers@.take(j as int) =~= self.buffers@);
        }
        total
    }

    /// The bytes of the buffer, gathered from the memory in their order.
    pub fn read(&self, mem: &PhysMemory) -> (r: Vec<u8>)
        requires
            mem.wf(),
            self.wf(mem),
        ensures
            r@.len() == self.addrs().len(),
            forall|k: int| 0 <= k < r@.len() ==> r@[k] == mem.byte(#[trigger] self.addrs()[k]),
    {
        let mut out: Vec<u8> = Vec::new();
        let mut j: usize = 0;
        proof {
            assert(self.buffers@.take(0) =~= Seq::<ByteRange>::empty());
        }
        while j < self.buffers.len()
            invariant
                j <= self.buffers@.len(),
                mem.wf(),
                self.wf(mem),
                out@.len() == range_addrs(self.buffers@.take(j as int)).len(),
                forall|k: int|
                    0 <= k < out@.len() ==> out@[k] == mem.byte(
                        #[trigger] range_addrs(self.buffers@.take(j as int))[k],
                    ),
            decreases self.buffers@.len() - j,
        {
            let run = self.buffers[j];
            let ghost before = out@;
            let ghost head = range_addrs(self.buffers@.take(j as int));
            proof {
                assert(in_one_frame(self.buffers@[j as int]));
                assert(self.buffers@.take(j + 1).drop_last() =~= self.buffers@.take(j as int));
                assert(self.buffers@.take(j + 1).last() == run);
            }
            let mut i: usize = 0;
            while i < run.len
                invariant
                    i <= run.len,
                    mem.wf(),
                    in_one_frame(run),
                    mem.has_frame((run.pa / 4096) as u64),
                    out@.len() == before.len() + i,
                    before.len() == head.len(),
                    forall|k: int| 0 <= k < before.len() ==> out@[k] == before[k],
                    forall|k: int|
                        0 <= k < i ==> #[trigger] out@[before.len() + k] == mem.byte(
                            (run.pa + k) as u64,
                        ),
                decreases run.len - i,
            {
                let b = mem.read_byte(PhysAddr(run.pa + i as u64));
                out.push(b);
                i = i + 1;
            }
            proof {
                let all = range_addrs(self.buffers@.take(j + 1));
                assert(all == head + run_addrs(run));
                assert forall|k: int| 0 <= k < out@.len() implies out@[k] == mem.byte(
                    #[trigger] all[k],
                ) by {
                    if k < head.len() {
                        assert(all[k] == head[k]);
                        assert(out@[k] == before[k]);
                    } else {
                        let d = k - head.len();
                        assert(all[k] == run_addrs(run)[d]);
                        assert(out@[before.len() + d] == mem.byte((run.pa + d) as u64));
                    }
                }
            }
            j = j + 1;
        }
        proof {
            assert(self.buffers@.take(j as int) =~= self.buffers@);
        }
        out
    }
}

/// The buffer of the `len` bytes from `va` on in the address space `ms`,
/// for an access from user mode that needs the flags `need`: one run for
/// each page that the range touches, in the order of the addresses. `None`
/// when user mode cannot reach all of the bytes in that way.
pub fn translated_byte_buffer(
    ms: &MemorySet,
    mem: &PhysMemory,
    va: VirtAddr,
    len: usize,
    need: u8,
) -> (r: Option<UserBuffer>)
    requires
        ms.wf(mem),
    ensures
        r is Some <==> ms.user_range(mem, va.0, len as nat, need),
        r matches Some(buf) ==> {
            &&& buf.wf(mem)
            &&& buf.addrs() == user_addrs(ms, mem, va.0, len as nat, need)
            &&& forall|j: int|
                0 <= j < buf.buffers@.len() - 1 ==> ((#[trigger] buf.buffers@[j]).pa
                    + buf.buffers@[j].len) % 4096 == 0
        },
{
    if len as u64 > 0 && va.0 > u64::MAX - (len as u64 - 1) {
        return None;
    }
    let mut buffers: Vec<ByteRange> = Vec::new();
    let mut done: usize = 0;
    proof {
        ms.lemma_wf(mem);
        assert(range_addrs(buffers@) =~= user_addrs(ms, mem, va.0, 0, need));
    }
    while done < len
        invariant
            done <= len,
            ms.wf(mem),
            mem.wf(),
            va.0 + len <= 0x1_0000_0000_0000_0000,
            done < len ==> done == 0 || (va.0 + done) % 4096 == 0,
            forall|k: nat| k < done ==> (#[trigger] ms.user_addr(mem, (va.0 + k) as u64, need)) is Some,
            range_addrs(buffers@) == user_addrs(ms, mem, va.0, done as nat, need),
            forall|j: int|
                0 <= j < buffers@.len() ==> in_one_frame(#[trigger] buffers@[j]) && mem.has_frame(
                    (buffers@[j].pa / 4096) as u64,
                ),
            forall|j: int|
                0 <= j < buffers@.len() - 1 ==> ((#[trigger] buffers@[j]).pa + buffers@[j].len) % 4096
                    == 0,
            buffers@.len() > 0 && done < len ==> (buffers@.last().pa + buffers@.last().len) % 4096
                == 0,
        decreases len - done,
    {
        let cur: u64 = va.0 + done as u64;
        let pa = match ms.translate_user(mem, VirtAddr(cur), need) {
            None => {
                proof {
                    assert(ms.user_addr(mem, (va.0 + (done as nat)) as u64, need) is None);
                }
                return None;
            },
            Some(p) => p.0,
        };
        let room: u64 = 4096 - cur % 4096;
        let left: u64 = (len - done) as u64;
        let n: usize = if left < room {
            len - done
        } else {
            room as usize
        };
        let ghost old_buffers = buffers@;
        let run = ByteRange { pa, len: n };
        proof {
            ms.lemma_user_addr(mem, cur, need);
            assert(pa % 4096 == cur % 4096);
            assert forall|i: int| 0 <= i < n implies #[trigger] addr_after(ms, mem, cur, i, need)
                == Some((pa + i) as u64) by {
                assert((cur + i) / 4096 == cur / 4096);
                assert((cur + i) % 4096 == cur % 4096 + i);
            }
            lemma_one_more(old_buffers, run);
            assert(range_addrs(old_buffers) + run_addrs(run) =~= user_addrs(
                ms,
                mem,
                va.0,
                (done + n) as nat,
                need,
            )) by {
                assert forall|k: int| 0 <= k < done + n implies (range_addrs(old_buffers) + run_addrs(
                    run,
                ))[k] == user_addrs(ms, mem, va.0, (done + n) as nat, need)[k] by {
                    if k < done {
                        assert(range_addrs(old_buffers)[k] == user_addrs(
                            ms,
                            mem,
                            va.0,
                            done as nat,
                            need,
                        )[k]);
                    } else {
                        let i = k - done;
                        assert(run_addrs(run)[i] == (pa + i) as u64);
                        assert(addr_after(ms, mem, cur, i, need) == Some((pa + i) as u64));
                    }
                }
            }
            assert forall|k: nat| k < done + n implies (#[trigger] ms.user_addr(
                mem,
                (va.0 + k) as u64,
                need,
            )) is Some by {
                if k >= done {
                    let i = k - done;
                    assert(addr_after(ms, mem, cur, i, need) == Some((pa + i) as u64));
                }
            }
        }
        buffers.push(run);
        proof {
            assert forall|j: int| 0 <= j < buffers@.len() implies in_one_frame(#[trigger] buffers@[j])
                && mem.has_frame((buffers@[j].pa / 4096) as u64) by {
                if j < old_buffers.len() {
                    assert(buffers@[j] == old_buffers[j]);
                }
            }
            assert forall|j: int| 0 <= j < buffers@.len() - 1 implies ((#[trigger] buffers@[j]).pa
                + buffers@[j].len) % 4096 == 0 by {
                assert(buffers@[j] == old_buffers[j]);
                if j == old_buffers.len() - 1 {
                    assert(old_buffers.last() == old_buffers[j]);
                }
            }
        }
        done = done + n;
    }
    Some(UserBuffer { buffers })
}

} // verus!
