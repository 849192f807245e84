//! Process identifiers and their allocator.

use vstd::prelude::*;

verus! {

/// The identifier of a process.
#[derive(Clone, Copy, Debug, PartialEq, Eq, Structural)]
pub struct PidHandle(pub usize);

/// The allocator of process identifiers: identifiers that were given back
/// are handed out again before new ones, the last one given back first.
pub struct PidAllocator {
    current: usize,
    recycled: Vec<usize>,
}

impl PidAllocator {
    /// No identifier is recorded as given back twice, and only identifiers
    /// that were handed out are recorded as given back.
    pub closed spec fn wf(&self) -> bool {
        &&& self.recycled@.no_duplicates()
        &&& forall|i: int| 0 <= i < self.recycled@.len() ==> #[trigger] self.recycled@[i] < self.current
    }

    /// Whether the identifier `pid` is handed out and not given back.
    pub closed spec fn is_allocated(&self, pid: usize) -> bool {
        pid < self.current && !self.recycled@.contains(pid)
    }

    /// The identifier that the next allocation hands out, if there is one.
    pub closed spec fn next_pid(&self) -> Option<usize> {
        if self.recycled@.len() > 0 {
            Some(self.recycled@.last())
        } else if self.current < usize::MAX {
            Some(self.current)
        } else {
            None
        }
    }

    /// The identifier to hand out next is not handed out.
    pub proof fn lemma_next(&self)
        requires
            self.wf(),
        ensures
            self.next_pid() matches Some(p) ==> !self.is_allocated(p),
    {
        if self.recycled@.len() > 0 {
            assert(self.recycled@[self.recycled@.len() - 1] == self.recycled@.last());
        }
    }

    /// An allocator that has handed out nothing: the first identifier it
    /// hands out is 0.
    pub fn new() -> (r: Self)
        ensures
            r.wf(),
            r.next_pid() == Some(0usize),
            forall|p: usize| !r.is_allocated(p),
    {
        PidAllocator { current: 0, recycled: Vec::new() }
    }

    /// Hands out an identifier that is not handed out: the one given back
    /// last, or else the next new one. `None` when there is none left.
    pub fn allocate(&mut self) -> (r: Option<PidHandle>)
        requires
            old(self).wf(),
        ensures
            final(self).wf(),
            r == match old(self).next_pid() {
                Some(p) => Some(PidHandle(p)),
                None => None,
            },
            r is None ==> *final(self) == *old(self),
            r matches Some(h) ==> {
                &&& !old(self).is_allocated(h.0)
                &&& forall|p: usize| final(self).is_allocated(p) <==> old(self).is_allocated(p) || p == h.0
            },
    {
        if self.recycled.len() > 0 {
            let p: usize = self.recycled.pop().unwrap();
            proof {
                let n = old(self).recycled@.len() - 1;
                assert(self.recycled@ =~= old(self).recycled@.take(n));
                assert(old(self).recycled@[n] == p);
                assert forall|q: usize| self.is_allocated(q) <==> old(self).is_allocated(q) || q == p by {
                    if self.recycled@.contains(q) {
                        let i = choose|i: int| 0 <= i < self.recycled@.len() && self.recycled@[i] == q;
                        assert(old(self).recycled@[i] == q);
                    }
                    if old(self).recycled@.contains(q) && q != p {
                        let i = choose|i: int|
                            0 <= i < old(self).recycled@.len() && old(self).recycled@[i] == q;
                        assert(self.recycled@[i] == q);
                    }
                }
            }
            Some(PidHandle(p))
        } else if self.current == usize::MAX {
            None
        } else {
            let p: usize = self.current;
            self.current = self.current + 1;
            Some(PidHandle(p))
        }
    }

    /// Takes back the identifier `pid`, which must be handed out.
    pub fn deallocate(&mut self, pid: usize)
        requires
            old(self).wf(),
            old(self).is_allocated(pid),
        ensures
            final(self).wf(),
            final(self).next_pid() == Some(pid),
            forall|p: usize| final(self).is_allocated(p) <==> old(self).is_allocated(p) && p != pid,
    {
        self.recycled.push(pid);
        proof {
            let n = old(self).recycled@.len() as int;
            assert(self.recycled@[n] == pid);
            assert forall|q: usize| self.is_allocated(q) <==> old(self).is_allocated(q) && q != pid by {
                if self.recycled@.contains(q) && q != pid {
                    let i = choose|i: int| 0 <= i < self.recycled@.len() && self.recycled@[i] == q;
                    assert(old(self).recycled@[i] == q);
                }
                if old(self).recycled@.contains(q) {
                    let i = choose|i: int|
                        0 <= i < old(self).recycled@.len() && old(self).recycled@[i] == q;
                    assert(self.recycled@[i] == q);
                }
            }
        }
    }
}

/// Hands out an identifier of `pids` that is not handed out.
pub fn pid_alloc(pids: &mut PidAllocator) -> (r: Option<PidHandle>)
    requires
        old(pids).wf(),
    ensures
        final(pids).wf(),
        r == match old(pids).next_pid() {
            Some(p) => Some(PidHandle(p)),
            None => None,
        },
        r is None ==> *final(pids) == *old(pids),
        r matches Some(h) ==> {
            &&& !old(pids).is_allocated(h.0)
            &&& forall|p: usize| final(pids).is_allocated(p) <==> old(pids).is_allocated(p) || p == h.0
        },
{
    pids.allocate()
}

} // verus!
