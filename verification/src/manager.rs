//! The ready queue: the processes that wait for the processor, first come
//! first served.

use std::collections::VecDeque;
use vstd::prelude::*;

verus! {

/// The queue of the identifiers of the ready processes.
pub struct TaskManager {
    ready_queue: VecDeque<usize>,
}

impl View for TaskManager {
    type V = Seq<usize>;

    /// The identifiers in the queue, the next one to run first.
    closed spec fn view(&self) -> Seq<usize> {
        self.ready_queue@
    }
}

impl TaskManager {
    /// An empty queue.
    pub fn new() -> (r: Self)
        ensures
            r@ == Seq::<usize>::empty(),
    {
        TaskManager { ready_queue: VecDeque::new() }
    }

    /// Puts the process `pid` at the end of the queue.
    pub fn add(&mut self, pid: usize)
        ensures
            final(self)@ == old(self)@.push(pid),
    {
        self.ready_queue.push_back(pid);
    }

    /// Takes the process at the head of the queue, if there is one.
    pub fn fetch(&mut self) -> (r: Option<usize>)
        ensures
            old(self)@.len() == 0 ==> r is None && final(self)@ == old(self)@,
            old(self)@.len() > 0 ==> r == Some(old(self)@[0]) && final(self)@ == old(self)@.subrange(
                1,
                old(self)@.len() as int,
            ),
    {
        self.ready_queue.pop_front()
    }

    /// The process `pid`, if it is in the queue.
    pub fn find_task(&self, pid: usize) -> (r: Option<usize>)
        ensures
            r == if self@.contains(pid) {
                Some(pid)
            } else {
                None
            },
    {
        let mut i: usize = 0;
        while i < self.ready_queue.len()
            invariant
                i <= self@.len(),
                forall|k: int| 0 <= k < i ==> self@[k] != pid,
            decreases self@.len() - i,
        {
            if self.ready_queue[i] == pid {
                return Some(pid);
            }
            i = i + 1;
        }
        None
    }

    /// The number of processes in the queue.
    pub fn len(&self) -> (r: usize)
        ensures
            r == self@.len(),
    {
        self.ready_queue.len()
    }
}

} // verus!
