use vstd::prelude::*;

use std::collections::VecDeque;

use crate::request::DataReply;

verus! {

/// Acknowledgement of one publish: its packet id and where the record went.
#[derive(Debug)]
pub struct Ack {
    pub pkid: u16,
    pub offset: (u64, u64),
}

#[derive(Debug)]
pub enum ConnectionAck {
    Success(usize),
    Failure(String),
}

/// What the router sends to a connection.
#[derive(Debug)]
pub enum Notification {
    ConnectionAck(ConnectionAck),
    Acks(Vec<Ack>),
    Data(DataReply),
    Topics(Vec<String>),
    Pause,
}

/// Outcome of a push into a connection's outbox.
#[derive(PartialEq, Eq, Structural)]
pub enum Push {
    Accepted,
    Full,
}

/// A client as the router sees it: a bounded outbox and whether the router may
/// push into it.
pub struct Connection {
    client_id: String,
    id: usize,
    capacity: usize,
    outbox: VecDeque<Notification>,
    ready: bool,
    closed: bool,
    pending_acks: Vec<Ack>,
}

impl Connection {
    /// The client id the connection was opened with.
    pub closed spec fn client(&self) -> Seq<char> {
        self.client_id@
    }

    pub closed spec fn id(&self) -> usize {
        self.id
    }

    pub closed spec fn capacity(&self) -> usize {
        self.capacity
    }

    pub closed spec fn outbox(&self) -> Seq<Notification> {
        self.outbox@
    }

    pub closed spec fn is_ready(&self) -> bool {
        self.ready
    }

    /// Acks not delivered yet, oldest first.
    pub closed spec fn pending_acks(&self) -> Seq<Ack> {
        self.pending_acks@
    }

    /// Whether the connection was closed; a closed connection is never ready.
    pub closed spec fn is_closed(&self) -> bool {
        self.closed
    }

    /// The outbox never holds more than the capacity, and a closed connection is
    /// not ready.
    pub closed spec fn wf(&self) -> bool {
        &&& self.outbox@.len() <= self.capacity
        &&& self.closed ==> !self.ready
    }

    pub fn new(client_id: String, id: usize, capacity: usize) -> (r: Connection)
        ensures
            r.wf(),
            r.client() == client_id@,
            r.id() == id,
            r.capacity() == capacity,
            r.outbox().len() == 0,
            r.is_ready(),
            !r.is_closed(),
            r.pending_acks().len() == 0,
    {
        Connection { client_id, id, capacity, outbox: VecDeque::new(), ready: true, closed: false, pending_acks: Vec::new() }
    }

    pub fn client_id(&self) -> (r: &String)
        ensures
            r@ == self.client(),
    {
        &self.client_id
    }

    pub fn closed(&self) -> (r: bool)
        ensures
            r == self.is_closed(),
    {
        self.closed
    }

    /// Whether a push now would be accepted.
    pub fn has_room(&self) -> (r: bool)
        ensures
            r == (self.is_ready() && self.outbox().len() < self.capacity()),
    {
        self.ready && self.outbox.len() < self.capacity
    }

    /// Marks the connection unready after the router held a notification back for
    /// want of room; nothing else changes.
    pub fn block(&mut self)
        requires
            old(self).wf(),
        ensures
            final(self).wf(),
            final(self).client() == old(self).client(),
            final(self).id() == old(self).id(),
            final(self).capacity() == old(self).capacity(),
            final(self).is_closed() == old(self).is_closed(),
            final(self).outbox() == old(self).outbox(),
            final(self).pending_acks() == old(self).pending_acks(),
            !final(self).is_ready(),
    {
        self.ready = false;
    }

    pub fn ready(&self) -> (r: bool)
        ensures
            r == self.is_ready(),
    {
        self.ready
    }

    pub fn len(&self) -> (r: usize)
        ensures
            r == self.outbox().len(),
    {
        self.outbox.len()
    }

    /// Queues `n` when the connection is ready and its outbox below capacity.
    /// Otherwise `n` is dropped, the outbox is left as it was, and the connection is
    /// no longer ready: nothing more goes in until `mark_ready`.
    pub fn push(&mut self, n: Notification) -> (r: Push)
        requires
            old(self).wf(),
        ensures
            final(self).client() == old(self).client(),
            final(self).is_closed() == old(self).is_closed(),
            final(self).pending_acks() == old(self).pending_acks(),
            final(self).wf(),
            final(self).id() == old(self).id(),
            final(self).capacity() == old(self).capacity(),
            (old(self).is_ready() && old(self).outbox().len() < old(self).capacity()) ==> {
                &&& r == Push::Accepted
                &&& final(self).outbox() == old(self).outbox().push(n)
                &&& final(self).is_ready()
            },
            !(old(self).is_ready() && old(self).outbox().len() < old(self).capacity()) ==> {
                &&& r == Push::Full
                &&& final(self).outbox() == old(self).outbox()
                &&& !final(self).is_ready()
            },
    {
        if self.ready && self.outbox.len() < self.capacity {
            self.outbox.push_back(n);
            Push::Accepted
        } else {
            self.ready = false;
            Push::Full
        }
    }

    /// Takes the oldest notification, as the consumer does when draining.
    pub fn recv(&mut self) -> (r: Option<Notification>)
        requires
            old(self).wf(),
        ensures
            final(self).client() == old(self).client(),
            final(self).is_closed() == old(self).is_closed(),
            final(self).pending_acks() == old(self).pending_acks(),
            final(self).wf(),
            final(self).id() == old(self).id(),
            final(self).capacity() == old(self).capacity(),
            final(self).is_ready() == old(self).is_ready(),
            old(self).outbox().len() == 0 ==> r is None && final(self).outbox() == old(self).outbox(),
            old(self).outbox().len() > 0 ==> r == Some(old(self).outbox()[0]) && final(self).outbox()
                == old(self).outbox().drop_first(),
    {
        let r = self.outbox.pop_front();
        proof {
            if old(self).outbox().len() > 0 {
                assert(self.outbox() =~= old(self).outbox().drop_first());
            }
        }
        r
    }

    /// The consumer's `Ready`: the router may push again, unless the connection
    /// is closed. Pending acks then go out as one notification when there is room.
    pub fn mark_ready(&mut self)
        requires
            old(self).wf(),
        ensures
            final(self).wf(),
            final(self).client() == old(self).client(),
            final(self).id() == old(self).id(),
            final(self).capacity() == old(self).capacity(),
            final(self).is_closed() == old(self).is_closed(),
            final(self).is_ready() == !old(self).is_closed(),
            ({
                let room = !old(self).is_closed() && old(self).outbox().len() < old(self).capacity();
                &&& (room && old(self).pending_acks().len() > 0) ==> {
                    &&& final(self).outbox().len() == old(self).outbox().len() + 1
                    &&& final(self).outbox().take(old(self).outbox().len() as int) == old(self).outbox()
                    &&& final(self).outbox().last() matches Notification::Acks(v) && v@ == old(self).pending_acks()
                    &&& final(self).pending_acks().len() == 0
                }
                &&& !(room && old(self).pending_acks().len() > 0) ==> {
                    &&& final(self).outbox() == old(self).outbox()
                    &&& final(self).pending_acks() == old(self).pending_acks()
                }
            }),
    {
        self.ready = !self.closed;
        if self.ready && self.outbox.len() < self.capacity && self.pending_acks.len() > 0 {
            self.deliver_acks();
        }
    }

    /// Queues `acks` behind the pending ones. When the connection is ready and its
    /// outbox has room, all pending acks go out as one notification; otherwise they
    /// stay pending, in order, and the connection is no longer ready.
    pub fn send_acks(&mut self, acks: Vec<Ack>)
        requires
            old(self).wf(),
        ensures
            final(self).wf(),
            final(self).client() == old(self).client(),
            final(self).id() == old(self).id(),
            final(self).capacity() == old(self).capacity(),
            final(self).is_closed() == old(self).is_closed(),
            ({
                let all = old(self).pending_acks() + acks@;
                let room = old(self).is_ready() && old(self).outbox().len() < old(self).capacity();
                &&& (room && all.len() > 0) ==> {
                    &&& final(self).outbox().len() == old(self).outbox().len() + 1
                    &&& final(self).outbox().take(old(self).outbox().len() as int) == old(self).outbox()
                    &&& final(self).outbox().last() matches Notification::Acks(v) && v@ == all
                    &&& final(self).pending_acks().len() == 0
                    &&& final(self).is_ready()
                }
                &&& (room && all.len() == 0) ==> final(self).outbox() == old(self).outbox()
                    && final(self).pending_acks().len() == 0 && final(self).is_ready()
                &&& !room ==> {
                    &&& final(self).outbox() == old(self).outbox()
                    &&& final(self).pending_acks() == all
                    &&& !final(self).is_ready()
                }
            }),
    {
        let ghost new_acks = acks@;
        let mut acks = acks;
        let ghost before = self.pending_acks@;
        self.pending_acks.append(&mut acks);
        assert(self.pending_acks@ =~= before + new_acks);
        if self.ready && self.outbox.len() < self.capacity {
            if self.pending_acks.len() > 0 {
                self.deliver_acks();
            }
        } else {
            self.ready = false;
        }
    }

    /// Sends all pending acks as one notification.
    fn deliver_acks(&mut self)
        requires
            old(self).wf(),
            old(self).is_ready(),
            old(self).outbox().len() < old(self).capacity(),
        ensures
            final(self).wf(),
            final(self).client() == old(self).client(),
            final(self).id() == old(self).id(),
            final(self).capacity() == old(self).capacity(),
            final(self).is_closed() == old(self).is_closed(),
            final(self).is_ready(),
            final(self).outbox().len() == old(self).outbox().len() + 1,
            final(self).outbox().take(old(self).outbox().len() as int) == old(self).outbox(),
            final(self).outbox().last() matches Notification::Acks(v) && v@ == old(self).pending_acks(),
            final(self).pending_acks().len() == 0,
    {
        let mut acks: Vec<Ack> = Vec::new();
        std::mem::swap(&mut acks, &mut self.pending_acks);
        self.outbox.push_back(Notification::Acks(acks));
        assert(self.outbox@.take(old(self).outbox@.len() as int) =~= old(self).outbox@);
    }

    /// Closes the connection: what its outbox held is dropped, and it is never
    /// ready again.
    pub fn close(&mut self)
        requires
            old(self).wf(),
        ensures
            final(self).wf(),
            final(self).client() == old(self).client(),
            final(self).id() == old(self).id(),
            final(self).capacity() == old(self).capacity(),
            final(self).outbox().len() == 0,
            final(self).is_closed(),
            !final(self).is_ready(),
            final(self).pending_acks().len() == 0,
    {
        self.outbox = VecDeque::new();
        self.pending_acks = Vec::new();
        self.closed = true;
        self.ready = false;
    }
}

} // verus!
