use vstd::prelude::*;

use std::sync::Arc;

use crate::connection::{Ack, Connection, ConnectionAck, Notification, Push};
use crate::datalog::{DataLog, REPLICATION_IDS, slot_of};
use crate::request::{Config, DataRequest};
use crate::segment::Cursor;
use crate::subscriptions::{
    Subscription,
    fresh_requests,
    lemma_subscribe_tracks_from_start,
    out_topics,
    pairs,
    subscribe_all,
    strings,
    trackings_view,
    zero_cursors,
};
use crate::topics::TopicsIndex;

verus! {

/// One publish of a data event.
pub struct Publish {
    pub topic: String,
    pub payload: Vec<u8>,
    pub pkid: u16,
}

/// A queued data request as (topic, cursors).
pub type RequestView = (Seq<char>, Seq<Cursor>);

/// What a reply to request `q` from caller `id` holds: its cursors and records.
pub open spec fn reply_of(data: DataLog, id: usize, q: RequestView) -> (Seq<Cursor>, Seq<Seq<u8>>) {
    if id < REPLICATION_IDS {
        data.native_data(q.0, q.1)
    } else {
        data.all_data(q.0, q.1)
    }
}

/// The outcome of serving a queue of data requests with room for `room` replies.
pub struct ServeOutcome {
    /// The requests served, as they go back into the queue, in order.
    pub processed: Seq<RequestView>,
    /// The replies sent, as (topic, cursors, records), in order.
    pub sent: Seq<(Seq<char>, Seq<Cursor>, Seq<Seq<u8>>)>,
    /// How many requests were taken from the front of the queue and served.
    pub taken: nat,
    /// Whether a reply found the outbox full.
    pub blocked: bool,
}

/// Serving `reqs` in order: a request with records sends a reply and goes back
/// with the reply's cursors; a caught-up one goes back as it was; serving stops
/// at the first reply that finds no room.
pub open spec fn serve_spec(data: DataLog, id: usize, reqs: Seq<RequestView>, room: int) -> ServeOutcome
    decreases reqs.len(),
{
    if reqs.len() == 0 {
        ServeOutcome { processed: Seq::empty(), sent: Seq::empty(), taken: 0, blocked: false }
    } else {
        let q = reqs[0];
        let (cs, p) = reply_of(data, id, q);
        if p.len() == 0 {
            let rest = serve_spec(data, id, reqs.drop_first(), room);
            ServeOutcome {
                processed: seq![q] + rest.processed,
                sent: rest.sent,
                taken: rest.taken + 1,
                blocked: rest.blocked,
            }
        } else if room <= 0 {
            ServeOutcome { processed: Seq::empty(), sent: Seq::empty(), taken: 0, blocked: true }
        } else {
            let rest = serve_spec(data, id, reqs.drop_first(), room - 1);
            ServeOutcome {
                processed: seq![(q.0, cs)] + rest.processed,
                sent: seq![(q.0, cs, p)] + rest.sent,
                taken: rest.taken + 1,
                blocked: rest.blocked,
            }
        }
    }
}

/// The acks that went out between two states `c0` and `c1` of a connection: those
/// of the acks notification added at the end of its outbox, if one was.
pub open spec fn acks_sent(c0: Connection, c1: Connection) -> Seq<Ack> {
    if c1.outbox().len() == c0.outbox().len() + 1 {
        match c1.outbox().last() {
            Notification::Acks(v) => v@,
            _ => Seq::empty(),
        }
    } else {
        Seq::empty()
    }
}

/// The payloads of the publishes in `ps` on topic `t`, in order.
pub open spec fn payloads_on(ps: Seq<Publish>, t: Seq<char>) -> Seq<Seq<u8>>
    decreases ps.len(),
{
    if ps.len() == 0 {
        Seq::empty()
    } else {
        let prev = payloads_on(ps.drop_last(), t);
        if ps.last().topic@ == t {
            prev.push(ps.last().payload@)
        } else {
            prev
        }
    }
}

proof fn lemma_payloads_on_len(ps: Seq<Publish>, t: Seq<char>)
    ensures
        payloads_on(ps, t).len() <= ps.len(),
    decreases ps.len(),
{
    if ps.len() > 0 {
        lemma_payloads_on_len(ps.drop_last(), t);
    }
}

/// The topics index after the topics of `ps`, in order, each added unless there.
pub open spec fn index_after(index: Seq<Seq<char>>, ps: Seq<Publish>) -> Seq<Seq<char>>
    decreases ps.len(),
{
    if ps.len() == 0 {
        index
    } else {
        let prev = index_after(index, ps.drop_last());
        let t = ps.last().topic@;
        if prev.contains(t) {
            prev
        } else {
            prev.push(t)
        }
    }
}

/// The single owner of the commit logs, the topics index and every local
/// connection with its tracker. Local connection `REPLICATION_IDS + i` is the
/// `i`-th one.
pub struct Router {
    data: DataLog,
    topics: TopicsIndex,
    connections: Vec<Connection>,
    trackers: Vec<Subscription>,
}

impl Router {
    pub closed spec fn data(&self) -> DataLog {
        self.data
    }

    pub closed spec fn index(&self) -> TopicsIndex {
        self.topics
    }

    pub closed spec fn connection(&self, i: int) -> Connection {
        self.connections@[i]
    }

    pub closed spec fn tracker(&self, i: int) -> Subscription {
        self.trackers@[i]
    }

    /// Number of local connections.
    pub closed spec fn len(&self) -> nat {
        self.connections@.len()
    }

    /// Some open connection has client id `c`.
    pub open spec fn has_client(&self, c: Seq<char>) -> bool {
        exists|i: int| 0 <= i < self.len() && #[trigger] self.connection(i).client() == c && !self.connection(i).is_closed()
    }

    pub open spec fn is_local(&self, id: usize) -> bool {
        REPLICATION_IDS <= id < REPLICATION_IDS + self.len()
    }

    /// Every outbox within its capacity, and every topic of every slot in the
    /// topics index.
    pub closed spec fn wf(&self) -> bool {
        &&& self.data.wf()
        &&& self.data.native() < 3
        &&& self.topics.wf()
        &&& self.connections@.len() == self.trackers@.len()
        &&& self.connections@.len() + REPLICATION_IDS <= usize::MAX
        &&& forall|i: int| 0 <= i < self.connections@.len() ==> (#[trigger] self.connections@[i]).wf()
        &&& forall|i: int|
            0 <= i < self.connections@.len() ==> (#[trigger] self.connections@[i]).id() == REPLICATION_IDS + i
        &&& forall|i: int| 0 <= i < self.trackers@.len() ==> (#[trigger] self.trackers@[i]).wf()
        &&& forall|s: int, t: Seq<char>|
            0 <= s < 3 && #[trigger] self.data.slot(s).topics().contains(t) ==> self.topics.topics().contains(t)
    }

    pub fn new(config: Arc<Config>) -> (r: Router)
        requires
            config.id < 3,
            config.max_payload_per_read > 0,
        ensures
            r.wf(),
            r.len() == 0,
            r.index().topics().len() == 0,
            r.data().native() == config.id,
    {
        let data = DataLog::new(config.id, config.clone());
        Router { data, topics: TopicsIndex::new(), connections: Vec::new(), trackers: Vec::new() }
    }

    /// Admits a local connection for client `client_id` with an outbox of
    /// `capacity` and a fresh tracker, and sends it its id. Returns the id; a client
    /// id already connected is refused with a failure, and nothing changes.
    pub fn connect(&mut self, client_id: String, capacity: usize) -> (r: Result<usize, ConnectionAck>)
        requires
            old(self).wf(),
            old(self).len() + REPLICATION_IDS < usize::MAX,
        ensures
            final(self).wf(),
            old(self).has_client(client_id@) ==> (r matches Err(ConnectionAck::Failure(_))) && *final(self)
                == *old(self),
            !old(self).has_client(client_id@) ==> {
                let n = old(self).len() as int;
                let c = final(self).connection(n);
                &&& r == Ok::<usize, ConnectionAck>((REPLICATION_IDS + n) as usize)
                &&& final(self).len() == n + 1
                &&& c.client() == client_id@
                &&& c.capacity() == capacity
                &&& c.outbox().len() == if capacity > 0 {
                    1int
                } else {
                    0int
                }
                &&& capacity > 0 ==> (c.outbox()[0] matches Notification::ConnectionAck(ConnectionAck::Success(x)) && x
                    == REPLICATION_IDS + n)
                &&& c.is_ready()
                &&& final(self).tracker(n).count_spec() == 0
                &&& final(self).tracker(n).requests().len() == 0
                &&& final(self).tracker(n).pending_topics() is None
                &&& forall|i: int| 0 <= i < n ==> #[trigger] final(self).connection(i) == old(self).connection(i)
                &&& forall|i: int| 0 <= i < n ==> #[trigger] final(self).tracker(i) == old(self).tracker(i)
                &&& final(self).data() == old(self).data()
                &&& final(self).index() == old(self).index()
            },
    {
        let n = self.connections.len();
        let mut j: usize = 0;
        while j < n
            invariant
                0 <= j <= n,
                n == self.connections@.len(),
                *self == *old(self),
                old(self).wf(),
                forall|k: int| 0 <= k < j ==> (#[trigger] self.connections@[k]).client() != client_id@ || self.connections@[k].is_closed(),
            decreases n - j,
        {
            if *self.connections[j].client_id() == client_id && !self.connections[j].closed() {
                assert(self.connection(j as int).client() == client_id@);
                return Err(ConnectionAck::Failure(String::from_str("client id already connected")));
            }
            j += 1;
        }
        assert(!self.has_client(client_id@)) by {
            if self.has_client(client_id@) {
                let k = choose|k: int| 0 <= k < self.len() && self.connection(k).client() == client_id@ && !self.connection(k).is_closed();
                assert(self.connections@[k].client() == client_id@);
            }
        }
        let id = REPLICATION_IDS + self.connections.len();
        let mut connection = Connection::new(client_id, id, capacity);
        connection.push(Notification::ConnectionAck(ConnectionAck::Success(id)));
        connection.mark_ready();
        self.connections.push(connection);
        self.trackers.push(Subscription::new());
        Ok(id)
    }

    /// Appends one publish from caller `id` to the caller's slot and records a new
    /// topic in the topics index. Returns the publish's ack; `None`, with nothing
    /// changed, when that topic's log is full.
    pub fn publish(&mut self, id: usize, publish: &Publish) -> (r: Option<Ack>)
        requires
            old(self).wf(),
            id < 3 || id >= REPLICATION_IDS,
        ensures
            final(self).wf(),
            final(self).data().native() == old(self).data().native(),
            final(self).len() == old(self).len(),
            forall|i: int| 0 <= i < old(self).len() ==> #[trigger] final(self).connection(i) == old(self).connection(i),
            forall|i: int| 0 <= i < old(self).len() ==> #[trigger] final(self).tracker(i) == old(self).tracker(i),
            ({
                let s = slot_of(old(self).data().native(), id);
                let t = publish.topic@;
                let before = old(self).data().slot(s);
                let after = final(self).data().slot(s);
                &&& before.records_of(t).len() >= u64::MAX ==> {
                    &&& r is None
                    &&& final(self).index() == old(self).index()
                    &&& forall|k: int| 0 <= k < 3 ==> #[trigger] final(self).data().slot(k) == old(self).data().slot(k)
                }
                &&& before.records_of(t).len() < u64::MAX ==> {
                    &&& r matches Some(a) && a.pkid == publish.pkid && a.offset.1 == before.records_of(t).len()
                        && a.offset.0 <= a.offset.1
                    &&& after.records_of(t) == before.records_of(t).push(publish.payload@)
                    &&& forall|u: Seq<char>| u != t ==> after.records_of(u) == before.records_of(u)
                    &&& forall|k: int| 0 <= k < 3 && k != s ==> #[trigger] final(self).data().slot(k) == old(self).data().slot(k)
                    &&& final(self).index().topics() == if old(self).index().topics().contains(t) {
                        old(self).index().topics()
                    } else {
                        old(self).index().topics().push(t)
                    }
                }
            }),
    {
        let ghost s = slot_of(self.data.native(), id);
        let ghost old_data = self.data;
        let name = publish.topic.as_str();
        assert(name@ == publish.topic@);
        let appended = self.data.append_to_commitlog(id, name, publish.payload.clone());
        match appended {
            Some((is_new, offset)) => {
                if is_new {
                    let inserted = self.topics.insert_if_new(&publish.topic);
                    proof {
                        if inserted {
                            assert(self.topics.topics()[self.topics.topics().len() - 1] == publish.topic@);
                        }
                        assert(self.topics.topics().contains(publish.topic@));
                    }
                }
                proof {
                    let t = publish.topic@;
                    assert(appended is Some);
                    assert(old_data.slot(s).records_of(t).len() < u64::MAX);
                    if is_new {
                        assert(self.data.slot(s).topics() == old_data.slot(s).topics().push(t));
                    } else {
                        assert(self.data.slot(s).topics() == old_data.slot(s).topics());
                        assert(old_data.slot(s).topics().contains(t));
                    }
                    assert forall|k: int, u: Seq<char>|
                        0 <= k < 3 && #[trigger] self.data.slot(k).topics().contains(u) implies self.topics.topics().contains(u) by {
                        if k == s && u == t {
                            if !is_new {
                                assert(old(self).data.slot(s).topics().contains(t));
                            }
                        } else if k == s {
                            let j = choose|j: int| 0 <= j < self.data.slot(k).topics().len() && self.data.slot(k).topics()[j] == u;
                            if is_new {
                                assert(j < old_data.slot(k).topics().len());
                                assert(old_data.slot(k).topics()[j] == u);
                            }
                            assert(old_data.slot(k).topics().contains(u));
                        } else {
                            assert(old_data.slot(k).topics().contains(u));
                        }
                        if old(self).topics.topics().contains(u) {
                            let j = choose|j: int| 0 <= j < old(self).topics.topics().len() && old(self).topics.topics()[j] == u;
                            assert(self.topics.topics()[j] == u);
                        }
                    }
                }
                proof {
                    let t = publish.topic@;
                    assert(offset.1 == old_data.slot(s).records_of(t).len());
                    if !is_new {
                        assert(old(self).data.slot(s).topics().contains(t));
                        assert(old(self).topics.topics().contains(t));
                    }
                    assert(self.data.slot(s).records_of(t) == old_data.slot(s).records_of(t).push(publish.payload@));
                    assert(self.topics.topics() == if old(self).topics.topics().contains(t) {
                        old(self).topics.topics()
                    } else {
                        old(self).topics.topics().push(t)
                    });
                }
                Some(Ack { pkid: publish.pkid, offset })
            },
            None => None,
        }
    }

    /// Handles a data event from caller `id`: appends each publish in order (see
    /// `publish`) and, for a local caller, queues the acks of those appended behind
    /// its pending ones (see `Connection::send_acks`): they go out as one `Acks`
    /// notification when the outbox has room, and are held until `ready` otherwise,
    /// so that no ack is lost and all keep their order. Returns how many were
    /// appended. When every topic's log in the caller's slot has room for all the
    /// publishes, all are appended: each topic's records grow by its payloads in
    /// order, and the acks give each publish's packet id and offset in order.
    pub fn handle_data(&mut self, id: usize, publishes: Vec<Publish>) -> (r: usize)
        requires
            old(self).wf(),
            id < 3 || id >= REPLICATION_IDS,
        ensures
            final(self).wf(),
            final(self).len() == old(self).len(),
            r <= publishes@.len(),
            forall|i: int| 0 <= i < old(self).len() ==> #[trigger] final(self).tracker(i) == old(self).tracker(i),
            forall|i: int|
                0 <= i < old(self).len() && i != id - REPLICATION_IDS ==> #[trigger] final(self).connection(i)
                    == old(self).connection(i),
            ({
                let s = slot_of(old(self).data().native(), id);
                let ps = publishes@;
                let before = old(self).data().slot(s);
                let after = final(self).data().slot(s);
                &&& forall|k: int| 0 <= k < 3 && k != s ==> #[trigger] final(self).data().slot(k) == old(self).data().slot(k)
                &&& (forall|t: Seq<char>| #[trigger] before.records_of(t).len() + ps.len() < u64::MAX) ==> {
                    &&& r == ps.len()
                    &&& forall|t: Seq<char>| #[trigger] after.records_of(t) == before.records_of(t) + payloads_on(ps, t)
                    &&& final(self).index().topics() == index_after(old(self).index().topics(), ps)
                }
            }),
            old(self).is_local(id) ==> {
                let i = id - REPLICATION_IDS;
                let c0 = old(self).connection(i);
                let c1 = final(self).connection(i);
                let s = slot_of(old(self).data().native(), id);
                let ps = publishes@;
                let before = old(self).data().slot(s);
                let n0 = c0.pending_acks().len();
                let all = acks_sent(c0, c1) + c1.pending_acks();
                &&& c1.capacity() == c0.capacity()
                &&& c1.is_closed() == c0.is_closed()
                &&& all.len() == n0 + r
                &&& all.take(n0 as int) == c0.pending_acks()
                &&& (forall|t: Seq<char>| #[trigger] before.records_of(t).len() + ps.len() < u64::MAX) ==> forall|j: int|
                    0 <= j < ps.len() ==> {
                        &&& (#[trigger] all[n0 + j]).pkid == ps[j].pkid
                        &&& all[n0 + j].offset.1 == before.records_of(ps[j].topic@).len() + payloads_on(
                            ps.take(j),
                            ps[j].topic@,
                        ).len()
                        &&& all[n0 + j].offset.0 <= all[n0 + j].offset.1
                    }
                &&& c1.outbox().take(c0.outbox().len() as int) == c0.outbox()
                &&& (c0.is_ready() && c0.outbox().len() < c0.capacity()) ==> c1.is_ready() && c1.pending_acks().len()
                    == 0 && c1.outbox().len() <= c0.outbox().len() + 1
                &&& !(c0.is_ready() && c0.outbox().len() < c0.capacity()) ==> c1.outbox() == c0.outbox()
                    && !c1.is_ready()
            },
    {
        let ghost s = slot_of(self.data.native(), id);
        let ghost ps = publishes@;
        let ghost before = self.data.slot(s);
        let ghost room = forall|t: Seq<char>| #[trigger] before.records_of(t).len() + ps.len() < u64::MAX;
        let mut acks: Vec<Ack> = Vec::new();
        let n = publishes.len();
        let mut k: usize = 0;
        assert(ps.take(0) =~= Seq::<Publish>::empty());
        while k < n
            invariant
                0 <= k <= n,
                n == publishes@.len(),
                ps == publishes@,
                id < 3 || id >= REPLICATION_IDS,
                acks@.len() <= k,
                self.wf(),
                self.len() == old(self).len(),
                s == slot_of(old(self).data().native(), id),
                self.data().native() == old(self).data().native(),
                before == old(self).data().slot(s),
                room == forall|t: Seq<char>| #[trigger] before.records_of(t).len() + ps.len() < u64::MAX,
                forall|i: int| 0 <= i < old(self).len() ==> #[trigger] self.connection(i) == old(self).connection(i),
                forall|i: int| 0 <= i < old(self).len() ==> #[trigger] self.tracker(i) == old(self).tracker(i),
                forall|j: int| 0 <= j < 3 && j != s ==> #[trigger] self.data().slot(j) == old(self).data().slot(j),
                room ==> {
                    &&& acks@.len() == k
                    &&& forall|t: Seq<char>| #[trigger] self.data().slot(s).records_of(t) == before.records_of(t) + payloads_on(ps.take(k as int), t)
                    &&& self.index().topics() == index_after(old(self).index().topics(), ps.take(k as int))
                    &&& forall|j: int|
                        0 <= j < k ==> {
                            &&& (#[trigger] acks@[j]).pkid == ps[j].pkid
                            &&& acks@[j].offset.1 == before.records_of(ps[j].topic@).len() + payloads_on(
                                ps.take(j),
                                ps[j].topic@,
                            ).len()
                            &&& acks@[j].offset.0 <= acks@[j].offset.1
                        }
                },
            decreases n - k,
        {
            let ghost pre = self.data().slot(s);
            let ghost pre_index = self.index().topics();
            let ghost t = ps[k as int].topic@;
            proof {
                if room {
                    lemma_payloads_on_len(ps.take(k as int), t);
                    assert(before.records_of(t).len() + ps.len() < u64::MAX);
                    assert(pre.records_of(t).len() < u64::MAX);
                }
                assert(ps.take(k + 1).drop_last() =~= ps.take(k as int));
                assert(ps.take(k + 1).last() == ps[k as int]);
            }
            let ghost acks_pre = acks@;
            match self.publish(id, &publishes[k]) {
                Some(ack) => acks.push(ack),
                None => {},
            }
            proof {
                if room {
                    assert forall|u: Seq<char>| #[trigger] self.data().slot(s).records_of(u) == before.records_of(u) + payloads_on(ps.take(k + 1), u) by {
                        if u == t {
                            assert(before.records_of(u) + payloads_on(ps.take(k + 1), u) =~= (before.records_of(u) + payloads_on(ps.take(k as int), u)).push(ps[k as int].payload@));
                        }
                    }
                    assert forall|j: int| 0 <= j < k + 1 implies {
                        &&& (#[trigger] acks@[j]).pkid == ps[j].pkid
                        &&& acks@[j].offset.1 == before.records_of(ps[j].topic@).len() + payloads_on(ps.take(j), ps[j].topic@).len()
                        &&& acks@[j].offset.0 <= acks@[j].offset.1
                    } by {
                        if j < k {
                            assert(acks@[j] == acks_pre[j]);
                        }
                    }
                }
            }
            k += 1;
        }
        proof {
            assert(ps.take(n as int) =~= ps);
        }
        let appended = acks.len();
        if id >= REPLICATION_IDS && id - REPLICATION_IDS < self.connections.len() {
            let i = id - REPLICATION_IDS;
            let ghost prev = *self;
            let ghost av = acks@;
            self.connections[i].send_acks(acks);
            assert(prev.connection(i as int) == old(self).connection(i as int));
            assert forall|j: int| 0 <= j < old(self).len() implies #[trigger] self.tracker(j) == old(self).tracker(j) by {
                assert(prev.tracker(j) == old(self).tracker(j));
            }
            assert forall|j: int| 0 <= j < old(self).len() && j != i implies #[trigger] self.connection(j) == old(
                self,
            ).connection(j) by {
                assert(prev.connection(j) == old(self).connection(j));
            }
            proof {
                let c0 = old(self).connection(i as int);
                let c1 = self.connections@[i as int];
                let all = acks_sent(c0, c1) + c1.pending_acks();
                assert(all =~= c0.pending_acks() + av);
                assert(c1.outbox().take(c0.outbox().len() as int) =~= c0.outbox());
                assert(all.take(c0.pending_acks().len() as int) =~= c0.pending_acks());
            }
        }
        appended
    }

    /// Adds filters to connection `id`. Every known topic that they match and the
    /// connection does not track yet is queued for reading from the start of every
    /// slot, published before the filters came or not. On a first subscription a
    /// topics request at the current end of the topics index is registered. The
    /// subscribe's ack is queued behind the pending acks, as in `handle_data`.
    /// Returns whether this was the first subscription.
    pub fn subscribe(&mut self, id: usize, filters: Vec<(String, u8)>, pkid: u16) -> (r: bool)
        requires
            old(self).wf(),
            old(self).is_local(id),
            old(self).tracker(id - REPLICATION_IDS).count_spec() + filters@.len() <= usize::MAX,
        ensures
            final(self).wf(),
            final(self).len() == old(self).len(),
            final(self).data() == old(self).data(),
            final(self).index() == old(self).index(),
            forall|i: int|
                0 <= i < old(self).len() && i != id - REPLICATION_IDS ==> #[trigger] final(self).connection(i)
                    == old(self).connection(i) && final(self).tracker(i) == old(self).tracker(i),
            ({
                let i = id - REPLICATION_IDS;
                let before = old(self).tracker(i);
                let after = final(self).tracker(i);
                let st = subscribe_all(before.start_state(), pairs(filters@), old(self).index().topics());
                &&& r == (before.count_spec() == 0)
                &&& after.concrete() == st.concrete
                &&& after.wild() == st.wild
                &&& after.index() == st.index
                &&& after.requests() == before.requests() + fresh_requests(st.index.skip(before.index().len() as int))
                &&& after.pending_topics() == if r {
                    Some(old(self).index().topics().len() as usize)
                } else {
                    before.pending_topics()
                }
                &&& final(self).connection(i).capacity() == old(self).connection(i).capacity()
                &&& ({
                    let c0 = old(self).connection(i);
                    let c1 = final(self).connection(i);
                    let n0 = c0.pending_acks().len();
                    let all = acks_sent(c0, c1) + c1.pending_acks();
                    &&& all.len() == n0 + 1
                    &&& all.take(n0 as int) == c0.pending_acks()
                    &&& all[n0 as int].pkid == pkid
                    &&& c1.is_closed() == c0.is_closed()
                    &&& c1.outbox().take(c0.outbox().len() as int) == c0.outbox()
                    &&& (c0.is_ready() && c0.outbox().len() < c0.capacity()) ==> {
                        &&& c1.outbox().len() == c0.outbox().len() + 1
                        &&& c1.is_ready()
                        &&& c1.pending_acks().len() == 0
                    }
                    &&& !(c0.is_ready() && c0.outbox().len() < c0.capacity()) ==> c1.outbox() == c0.outbox()
                        && !c1.is_ready()
                })
            }),
    {
        let i = id - REPLICATION_IDS;
        let ghost before = self.trackers@[i as int];
        let (_, known) = self.topics.snapshot_from(0);
        assert(self.topics.topics().subrange(0, self.topics.topics().len() as int) =~= self.topics.topics());
        let (first, out) = self.trackers[i].add_subscripiton(filters, &known);
        let ghost st = subscribe_all(before.start_state(), pairs(filters@), self.topics.topics());
        let ghost n0 = before.index().len() as int;
        proof {
            before.lemma_wf();
            lemma_subscribe_tracks_from_start(before.start_state(), pairs(filters@), self.topics.topics());
        }
        let n = out.len();
        let mut k: usize = 0;
        assert(st.index.skip(n0).take(0) =~= Seq::<Seq<char>>::empty());
        assert(before.requests() + fresh_requests(Seq::<Seq<char>>::empty()) =~= before.requests());
        while k < n
            invariant
                0 <= k <= n,
                n == out@.len(),
                i < self.trackers@.len(),
                old(self).wf(),
                i == id - REPLICATION_IDS,
                self.connections == old(self).connections,
                self.topics == old(self).topics,
                self.data == old(self).data,
                self.trackers@.len() == old(self).trackers@.len(),
                forall|j: int| 0 <= j < self.trackers@.len() && j != i ==> #[trigger] self.trackers@[j] == old(self).trackers@[j],
                self.trackers@[i as int].wf(),
                self.trackers@[i as int].concrete() == st.concrete,
                self.trackers@[i as int].wild() == st.wild,
                self.trackers@[i as int].index() == st.index,
                self.trackers@[i as int].pending_topics() == before.pending_topics(),
                self.trackers@[i as int].requests() == before.requests() + fresh_requests(st.index.skip(n0).take(k as int)),
                trackings_view(out@) == st.out,
                out_topics(st.out) == st.index.skip(n0),
                forall|m: int| 0 <= m < st.out.len() ==> (#[trigger] st.out[m]).2 == zero_cursors(),
            decreases n - k,
        {
            let request = DataRequest { topic: out[k].0.clone(), cursors: out[k].2 };
            proof {
                assert(trackings_view(out@)[k as int] == st.out[k as int]);
                assert(out_topics(st.out)[k as int] == st.out[k as int].0);
                assert(st.index.skip(n0).take(k + 1) =~= st.index.skip(n0).take(k as int).push(st.index.skip(n0)[k as int]));
                assert(fresh_requests(st.index.skip(n0).take(k + 1)) =~= fresh_requests(st.index.skip(n0).take(k as int)).push(
                    (st.index.skip(n0)[k as int], zero_cursors()),
                ));
            }
            self.trackers[i].push_data_request(request);
            k += 1;
        }
        proof {
            assert(out_topics(st.out).len() == st.out.len());
            assert(st.index.skip(n0).take(n as int) =~= st.index.skip(n0));
        }
        if first {
            let tail = self.topics.len();
            self.trackers[i].register_topics_request(tail);
        }
        let mut acks: Vec<Ack> = Vec::new();
        acks.push(Ack { pkid, offset: (0, 0) });
        let ghost av = acks@;
        self.connections[i].send_acks(acks);
        proof {
            let c0 = old(self).connection(i as int);
            let c1 = self.connections@[i as int];
            let all = acks_sent(c0, c1) + c1.pending_acks();
            assert(all =~= c0.pending_acks() + av);
            assert(c1.outbox().take(c0.outbox().len() as int) =~= c0.outbox());
            assert(all.take(c0.pending_acks().len() as int) =~= c0.pending_acks());
        }
        first
    }

    /// The topics a pending topics request at `offset` brings: those after it.
    pub open spec fn topics_after(&self, offset: Option<usize>) -> Seq<Seq<char>> {
        match offset {
            Some(o) => if o <= self.index().topics().len() {
                self.index().topics().subrange(o as int, self.index().topics().len() as int)
            } else {
                Seq::empty()
            },
            None => Seq::empty(),
        }
    }

    /// Serves connection `id` when it is ready. A pending topics request is
    /// answered first: the topics after its offset are offered to the tracker, the
    /// request is renewed at the end of the index, and the new topics are sent in
    /// a `Topics` notification. Then the queued data requests are served in order
    /// (see `serve_spec`): a reply goes into the outbox and its request is queued
    /// again from the reply's cursors; a caught-up request is queued again as it
    /// was. When the outbox refuses a notification, the connection stays unready,
    /// a refused request is back at the front, and serving stops. Returns how many
    /// replies went out.
    pub fn serve(&mut self, id: usize) -> (r: usize)
        requires
            old(self).wf(),
            old(self).is_local(id),
        ensures
            final(self).wf(),
            final(self).len() == old(self).len(),
            final(self).data() == old(self).data(),
            final(self).index() == old(self).index(),
            forall|i: int|
                0 <= i < old(self).len() && i != id - REPLICATION_IDS ==> #[trigger] final(self).connection(i)
                    == old(self).connection(i),
            forall|i: int|
                0 <= i < old(self).len() && i != id - REPLICATION_IDS ==> #[trigger] final(self).tracker(i)
                    == old(self).tracker(i),
            ({
                let i = id - REPLICATION_IDS;
                let before = old(self).tracker(i);
                let after = final(self).tracker(i);
                let c0 = old(self).connection(i);
                let c1 = final(self).connection(i);
                let fresh = old(self).topics_after(before.pending_topics());
                let mid_index = before.tracked_after(before.index(), fresh);
                let mid_reqs = before.requests() + fresh_requests(mid_index.skip(before.index().len() as int));
                let tp = fresh.len() > 0;
                let base = c0.outbox().len() + if tp {
                    1int
                } else {
                    0int
                };
                let o = serve_spec(old(self).data(), id, mid_reqs, c0.capacity() - base);
                &&& !c0.is_ready() ==> r == 0 && c1 == c0 && after == before
                &&& c0.is_ready() ==> {
                    &&& after.concrete() == before.concrete()
                    &&& after.wild() == before.wild()
                    &&& c1.capacity() == c0.capacity()
                    &&& c1.pending_acks() == c0.pending_acks()
                    &&& (tp && c0.outbox().len() >= c0.capacity()) ==> {
                        &&& r == 0
                        &&& c1.outbox() == c0.outbox()
                        &&& !c1.is_ready()
                        &&& after.index() == before.index()
                        &&& after.requests() == before.requests()
                        &&& after.pending_topics() == before.pending_topics()
                    }
                    &&& !(tp && c0.outbox().len() >= c0.capacity()) ==> {
                        &&& after.index() == mid_index
                        &&& after.pending_topics() == if before.pending_topics() is Some {
                            Some(old(self).index().topics().len() as usize)
                        } else {
                            None::<usize>
                        }
                        &&& tp ==> (c1.outbox()[c0.outbox().len() as int] matches Notification::Topics(v) && strings(v@) == fresh)
                        &&& c1.outbox().len() == base + r
                        &&& c1.outbox().take(c0.outbox().len() as int) == c0.outbox()
                        &&& r == o.sent.len()
                        &&& forall|j: int| 0 <= j < r ==> (#[trigger] c1.outbox()[base + j] matches Notification::Data(rep)
                            && rep.topic@ == o.sent[j].0 && rep.cursors@ == o.sent[j].1 && rep.payloads() == o.sent[j].2)
                        &&& after.requests() == mid_reqs.skip(o.taken as int) + o.processed
                        &&& c1.is_ready() == !o.blocked
                    }
                }
            }),
    {
        let i = id - REPLICATION_IDS;
        if !self.connections[i].ready() {
            return 0;
        }
        let ghost before = self.trackers@[i as int];
        let ghost c0 = self.connections@[i as int];
        let ghost fresh_v = old(self).topics_after(before.pending_topics());
        match self.trackers[i].take_topics_request() {
            Some(offset) => {
                let (next, fresh) = self.topics.snapshot_from(offset);
                if fresh.len() > 0 && !self.connections[i].has_room() {
                    self.trackers[i].register_topics_request(offset);
                    self.connections[i].block();
                    return 0;
                }
                self.trackers[i].track_matched_topics(fresh.as_slice());
                self.trackers[i].register_topics_request(next);

                if fresh.len() > 0 {
                    match self.connections[i].push(Notification::Topics(fresh)) {
                        Push::Full => {
                            return 0;
                        },
                        Push::Accepted => {
                            assert(self.connections@[i as int].outbox()[c0.outbox().len() as int] matches Notification::Topics(v)
                                && strings(v@) == fresh_v);
                        },
                    }
                }
            },
            None => {
                assert(before.tracked_after(before.index(), Seq::<Seq<char>>::empty()) == before.index());
                assert(before.index().skip(before.index().len() as int) =~= Seq::<Seq<char>>::empty());
                assert(before.requests() + fresh_requests(Seq::<Seq<char>>::empty()) =~= before.requests());
            },
        }
        proof {
            let fresh = old(self).topics_after(before.pending_topics());
            let mid_index = before.tracked_after(before.index(), fresh);
            let mid_reqs = before.requests() + fresh_requests(mid_index.skip(before.index().len() as int));
            assert(self.trackers@[i as int].requests() == mid_reqs);
            assert(self.trackers@[i as int].index() == mid_index);
            let tp = fresh.len() > 0;
            assert(self.connections@[i as int].outbox().len() == c0.outbox().len() + if tp {
                1int
            } else {
                0int
            });
            assert(self.connections@[i as int].outbox().take(c0.outbox().len() as int) =~= c0.outbox());
        }
        let ghost reqs0 = self.trackers@[i as int].requests();
        let ghost mid = self.trackers@[i as int];
        let ghost out0 = self.connections@[i as int].outbox();
        let ghost room0 = self.connections@[i as int].capacity() - out0.len();
        let ghost total = serve_spec(self.data, id, reqs0, room0);
        let ghost mut processed: Seq<RequestView> = Seq::empty();
        let ghost mut sent_v: Seq<(Seq<char>, Seq<Cursor>, Seq<Seq<u8>>)> = Seq::empty();
        let n = self.trackers[i].request_count();
        let mut sent: usize = 0;
        let mut k: usize = 0;
        assert(reqs0.skip(0) + processed =~= reqs0);
        assert(out0.take(out0.len() as int) =~= out0);
        while k < n
            invariant
                0 <= k <= n,
                n == reqs0.len(),
                sent <= k,
                sent == sent_v.len(),
                old(self).wf(),
                i == id - REPLICATION_IDS,
                i < old(self).len(),
                self.topics == old(self).topics,
                self.data == old(self).data,
                self.trackers@.len() == old(self).trackers@.len(),
                self.connections@.len() == old(self).connections@.len(),
                forall|j: int| 0 <= j < self.trackers@.len() && j != i ==> #[trigger] self.trackers@[j] == old(self).trackers@[j],
                forall|j: int| 0 <= j < self.connections@.len() && j != i ==> #[trigger] self.connections@[j] == old(self).connections@[j],
                self.trackers@[i as int].wf(),
                self.trackers@[i as int].concrete() == mid.concrete(),
                self.trackers@[i as int].wild() == mid.wild(),
                self.trackers@[i as int].index() == mid.index(),
                self.trackers@[i as int].pending_topics() == mid.pending_topics(),
                self.trackers@[i as int].requests() == reqs0.skip(k as int) + processed,
                total == serve_spec(self.data, id, reqs0, room0),
                before == old(self).trackers@[i as int],
                c0 == old(self).connections@[i as int],
                c0.is_ready(),
                fresh_v == old(self).topics_after(before.pending_topics()),
                mid.index() == before.tracked_after(before.index(), fresh_v),
                mid.concrete() == before.concrete(),
                mid.wild() == before.wild(),
                mid.pending_topics() == if before.pending_topics() is Some {
                    Some(old(self).index().topics().len() as usize)
                } else {
                    None::<usize>
                },
                reqs0 == before.requests() + fresh_requests(mid.index().skip(before.index().len() as int)),
                out0.len() == c0.outbox().len() + if fresh_v.len() > 0 {
                    1int
                } else {
                    0int
                },
                out0.take(c0.outbox().len() as int) == c0.outbox(),
                fresh_v.len() > 0 ==> c0.outbox().len() < c0.capacity(),
                fresh_v.len() > 0 ==> (out0[c0.outbox().len() as int] matches Notification::Topics(v) && strings(v@) == fresh_v),
                ({
                    let rest = serve_spec(self.data, id, reqs0.skip(k as int), room0 - sent);
                    &&& total.processed == processed + rest.processed
                    &&& total.sent == sent_v + rest.sent
                    &&& total.taken == k + rest.taken
                    &&& total.blocked == rest.blocked
                }),
                self.connections@[i as int].wf(),
                self.connections@[i as int].is_ready(),
                self.connections@[i as int].pending_acks() == c0.pending_acks(),
                self.connections@[i as int].id() == old(self).connections@[i as int].id(),
                self.connections@[i as int].capacity() == old(self).connections@[i as int].capacity(),
                room0 == self.connections@[i as int].capacity() - out0.len(),
                self.connections@[i as int].outbox().len() == out0.len() + sent,
                self.connections@[i as int].outbox().take(out0.len() as int) == out0,
                forall|j: int| 0 <= j < sent ==> (#[trigger] self.connections@[i as int].outbox()[out0.len() + j] matches Notification::Data(rep)
                    && rep.topic@ == sent_v[j].0 && rep.cursors@ == sent_v[j].1 && rep.payloads() == sent_v[j].2),
            decreases n - k,
        {
            let ghost q = reqs0[k as int];
            let ghost tail = reqs0.skip(k as int);
            proof {
                assert(tail[0] == q);
                assert(tail.drop_first() =~= reqs0.skip(k + 1));
                assert((reqs0.skip(k as int) + processed)[0] == q);
            }
            let request = match self.trackers[i].pop_data_request() {
                Some(request) => request,
                None => {
                    return sent;
                },
            };
            proof {
                assert(self.trackers@[i as int].requests() =~= reqs0.skip(k + 1) + processed);
            }
            let ghost out_before = self.connections@[i as int].outbox();
            match self.data.handle_data_request(id, &request) {
                Some(reply) => {
                    let ghost rv = (reply.topic@, reply.cursors@, reply.payloads());
                    let next = DataRequest { topic: reply.topic.clone(), cursors: reply.cursors };
                    match self.connections[i].push(Notification::Data(reply)) {
                        Push::Accepted => {
                            self.trackers[i].push_data_request(next);
                            proof {
                                assert(self.trackers@[i as int].requests() =~= reqs0.skip(k + 1) + processed.push((q.0, rv.1)));
                                processed = processed.push((q.0, rv.1));
                                sent_v = sent_v.push(rv);
                                assert(self.connections@[i as int].outbox().take(out0.len() as int) =~= out0) by {
                                    assert(out_before.take(out0.len() as int) == out0);
                                }
                                assert forall|j: int| 0 <= j < sent + 1 implies (#[trigger] self.connections@[i as int].outbox()[out0.len() + j] matches Notification::Data(rep)
                                    && rep.topic@ == sent_v[j].0 && rep.cursors@ == sent_v[j].1 && rep.payloads() == sent_v[j].2) by {
                                    if j < sent {
                                        assert(self.connections@[i as int].outbox()[out0.len() + j] == out_before[out0.len() + j]);
                                    }
                                }
                            }
                            sent += 1;
                        },
                        Push::Full => {
                            self.trackers[i].push_front_data_request(request);
                            proof {
                                assert(self.trackers@[i as int].requests() =~= reqs0.skip(k as int) + processed);
                                assert(reply_of(self.data, id, q).1.len() > 0);
                                assert(room0 - sent <= 0);
                                let rest = serve_spec(self.data, id, reqs0.skip(k as int), room0 - sent);
                                assert(rest.blocked && rest.taken == 0);
                                assert(rest.processed =~= Seq::<RequestView>::empty());
                                assert(rest.sent =~= Seq::<(Seq<char>, Seq<Cursor>, Seq<Seq<u8>>)>::empty());
                                assert(total.processed =~= processed);
                                assert(total.sent =~= sent_v);
                                let c1 = self.connections@[i as int];
                                assert(c1.outbox() == out_before);
                                assert(!c1.is_ready());
                                assert(c1.outbox().take(c0.outbox().len() as int) =~= c0.outbox()) by {
                                    assert(out_before.take(out0.len() as int) == out0);
                                    assert forall|j: int| 0 <= j < c0.outbox().len() implies c1.outbox()[j] == c0.outbox()[j] by {
                                        assert(out0.take(c0.outbox().len() as int)[j] == out0[j]);
                                        assert(out_before.take(out0.len() as int)[j] == out_before[j]);
                                    }
                                }
                                if fresh_v.len() > 0 {
                                    assert(out_before.take(out0.len() as int)[c0.outbox().len() as int] == out_before[c0.outbox().len() as int]);
                                }
                                let base = out0.len() as int;
                                let o = serve_spec(old(self).data(), id, reqs0, c0.capacity() - base);
                                assert(o == total);
                                assert(c1.outbox().len() == base + sent);
                                assert(sent == o.sent.len());
                                assert(self.trackers@[i as int].requests() == reqs0.skip(o.taken as int) + o.processed);
                                assert(c1.is_ready() == !o.blocked);
                                assert(!(fresh_v.len() > 0 && c0.outbox().len() >= c0.capacity()));
                            }
                            return sent;
                        },
                    }
                },
                None => {
                    self.trackers[i].push_data_request(request);
                    proof {
                        assert(self.trackers@[i as int].requests() =~= reqs0.skip(k + 1) + processed.push(q));
                        processed = processed.push(q);
                    }
                },
            }
            k += 1;
        }
        proof {
            assert(reqs0.skip(k as int).len() == 0);
            let rest = serve_spec(self.data, id, reqs0.skip(k as int), room0 - sent);
            assert(rest.processed =~= Seq::<RequestView>::empty());
            assert(rest.sent =~= Seq::<(Seq<char>, Seq<Cursor>, Seq<Seq<u8>>)>::empty());
            assert(total.processed =~= processed);
            assert(total.sent =~= sent_v);
        }
        sent
    }

    /// Takes the oldest notification of connection `id`, as its consumer does.
    pub fn recv(&mut self, id: usize) -> (r: Option<Notification>)
        requires
            old(self).wf(),
            old(self).is_local(id),
        ensures
            final(self).wf(),
            final(self).len() == old(self).len(),
            final(self).data() == old(self).data(),
            final(self).index() == old(self).index(),
            forall|i: int| 0 <= i < old(self).len() ==> #[trigger] final(self).tracker(i) == old(self).tracker(i),
            forall|i: int|
                0 <= i < old(self).len() && i != id - REPLICATION_IDS ==> #[trigger] final(self).connection(i)
                    == old(self).connection(i),
            ({
                let c0 = old(self).connection(id - REPLICATION_IDS);
                let c1 = final(self).connection(id - REPLICATION_IDS);
                &&& c1.is_ready() == c0.is_ready()
                &&& c1.capacity() == c0.capacity()
                &&& c0.outbox().len() == 0 ==> r is None && c1.outbox() == c0.outbox()
                &&& c0.outbox().len() > 0 ==> r == Some(c0.outbox()[0]) && c1.outbox() == c0.outbox().drop_first()
            }),
    {
        let i = id - REPLICATION_IDS;
        self.connections[i].recv()
    }

    /// Whether connection `id` may be pushed to.
    pub fn is_ready(&self, id: usize) -> (r: bool)
        requires
            self.wf(),
            self.is_local(id),
        ensures
            r == self.connection(id - REPLICATION_IDS).is_ready(),
    {
        self.connections[id - REPLICATION_IDS].ready()
    }

    /// Drops connection `id`: its outbox and its tracker's filters and requests are
    /// discarded, it is never served again, and its client id is free.
    pub fn disconnect(&mut self, id: usize)
        requires
            old(self).wf(),
            old(self).is_local(id),
        ensures
            final(self).wf(),
            final(self).len() == old(self).len(),
            final(self).data() == old(self).data(),
            final(self).index() == old(self).index(),
            forall|i: int|
                0 <= i < old(self).len() && i != id - REPLICATION_IDS ==> #[trigger] final(self).connection(i)
                    == old(self).connection(i),
            forall|i: int|
                0 <= i < old(self).len() && i != id - REPLICATION_IDS ==> #[trigger] final(self).tracker(i)
                    == old(self).tracker(i),
            ({
                let c = final(self).connection(id - REPLICATION_IDS);
                let t = final(self).tracker(id - REPLICATION_IDS);
                &&& c.is_closed() && !c.is_ready() && c.outbox().len() == 0
                &&& t.count_spec() == 0 && t.requests().len() == 0 && t.pending_topics() is None
            }),
    {
        let i = id - REPLICATION_IDS;
        self.connections[i].close();
        self.trackers.set(i, Subscription::new());
    }

    /// The consumer of connection `id` has drained its outbox: it may be served
    /// again, and the acks held back while it was full go out.
    pub fn ready(&mut self, id: usize)
        requires
            old(self).wf(),
            old(self).is_local(id),
        ensures
            final(self).wf(),
            final(self).len() == old(self).len(),
            ({
                let c0 = old(self).connection(id - REPLICATION_IDS);
                let c1 = final(self).connection(id - REPLICATION_IDS);
                let room = !c0.is_closed() && c0.outbox().len() < c0.capacity();
                &&& c1.is_ready() == !c0.is_closed()
                &&& c1.capacity() == c0.capacity()
                &&& (room && c0.pending_acks().len() > 0) ==> {
                    &&& c1.outbox().len() == c0.outbox().len() + 1
                    &&& c1.outbox().take(c0.outbox().len() as int) == c0.outbox()
                    &&& acks_sent(c0, c1) == c0.pending_acks()
                    &&& c1.pending_acks().len() == 0
                }
                &&& !(room && c0.pending_acks().len() > 0) ==> c1.outbox() == c0.outbox() && c1.pending_acks()
                    == c0.pending_acks()
            }),
            forall|i: int|
                0 <= i < old(self).len() && i != id - REPLICATION_IDS ==> #[trigger] final(self).connection(i)
                    == old(self).connection(i),
            forall|i: int| 0 <= i < old(self).len() ==> #[trigger] final(self).tracker(i) == old(self).tracker(i),
            final(self).data() == old(self).data(),
            final(self).index() == old(self).index(),
    {
        let i = id - REPLICATION_IDS;
        self.connections[i].mark_ready();
        proof {
            let c0 = old(self).connection(i as int);
            let c1 = self.connections@[i as int];
            if !(!c0.is_closed() && c0.outbox().len() < c0.capacity() && c0.pending_acks().len() > 0) {
                assert(c1.outbox() == c0.outbox());
            }
        }
    }
}

} // verus!
