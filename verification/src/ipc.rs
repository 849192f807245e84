//! Message channels between processes.

use std::collections::VecDeque;
use vstd::prelude::*;
use crate::pid::PidHandle;

verus! {

/// A message: its bytes and the process that sent it.
pub struct MessagePacket {
    pub data: Vec<u8>,
    pub handle: PidHandle,
}

/// One end of a channel: the queue of the messages that wait to be read at
/// this end. A message written at the other end is added to it.
pub struct Channel {
    recv_queue: VecDeque<MessagePacket>,
}

impl View for Channel {
    type V = Seq<MessagePacket>;

    /// The messages that wait at this end, the oldest first.
    closed spec fn view(&self) -> Seq<MessagePacket> {
        self.recv_queue@
    }
}

impl Channel {
    /// The two ends of a new channel, with no message waiting at either.
    pub fn create() -> (r: (Channel, Channel))
        ensures
            r.0@.len() == 0,
            r.1@.len() == 0,
    {
        (Channel { recv_queue: VecDeque::new() }, Channel { recv_queue: VecDeque::new() })
    }

    /// Takes the oldest message that waits at this end, if there is one.
    pub fn read_msg(&mut self) -> (r: Option<MessagePacket>)
        ensures
            old(self)@.len() == 0 ==> r is None && final(self)@ == old(self)@,
            old(self)@.len() > 0 ==> r == Some(old(self)@[0]) && final(self)@ == old(self)@.subrange(
                1,
                old(self)@.len() as int,
            ),
    {
        self.recv_queue.pop_front()
    }

    /// Writes `msg` at this end: it is added to the messages that wait at
    /// the other end, `peer`.
    pub fn write_msg(&self, peer: &mut Channel, msg: MessagePacket)
        ensures
            final(peer)@ == old(peer)@.push(msg),
    {
        peer.push_general(msg);
    }

    /// Adds `msg` to the messages that wait at this end.
    fn push_general(&mut self, msg: MessagePacket)
        ensures
            final(self)@ == old(self)@.push(msg),
    {
        self.recv_queue.push_back(msg);
    }

    /// The number of bytes of the oldest message that waits at this end, if
    /// there is one.
    pub fn front_len(&self) -> (r: Option<usize>)
        ensures
            r == if self@.len() > 0 {
                Some(self@[0].data@.len() as usize)
            } else {
                None
            },
    {
        if self.recv_queue.len() == 0 {
            None
        } else {
            Some(self.recv_queue[0].data.len())
        }
    }

    /// The number of messages that wait at this end.
    pub fn pending(&self) -> (r: usize)
        ensures
            r == self@.len(),
    {
        self.recv_queue.len()
    }
}

} // verus!
