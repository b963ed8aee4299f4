use vstd::prelude::*;

use std::sync::Arc;

use crate::commitlog::{TopicLog, position_of};
use crate::request::{Config, DataReply, DataRequest};
use crate::segment::{
    Cursor,
    appended,
    drain,
    first_record,
    lemma_read_step,
    lemma_drain,
    lemma_extends_keeps_cursor,
    lemma_reads_return_appended,
    lemma_resume_from_reply,
    next_cursor,
    payloads_view,
};

verus! {

/// Ids below this one are replication peers; each names the slot it writes to.
pub const REPLICATION_IDS: usize = 10;

/// Slot that a write from caller `id` goes to: its own for a replication peer, the
/// native slot for a local connection.
pub open spec fn slot_of(native: usize, id: usize) -> int {
    if id < REPLICATION_IDS {
        id as int
    } else {
        native as int
    }
}

/// The three commit logs of a router, one per slot; slot `id` is the native one.
pub struct DataLog {
    id: usize,
    commitlog: Vec<TopicLog>,
}

impl DataLog {
    pub closed spec fn native(&self) -> usize {
        self.id
    }

    pub closed spec fn slot(&self, s: int) -> TopicLog {
        self.commitlog@[s]
    }

    pub closed spec fn wf(&self) -> bool {
        &&& self.id < 3
        &&& self.commitlog@.len() == 3
        &&& forall|s: int| 0 <= s < 3 ==> (#[trigger] self.commitlog@[s]).wf()
        &&& forall|s: int| 0 <= s < 3 ==> (#[trigger] self.commitlog@[s]).max_read() > 0
    }

    /// The native slot is a slot, and every slot is well formed and reads at least
    /// one record at a time.
    pub proof fn lemma_wf(&self)
        requires
            self.wf(),
        ensures
            self.native() < 3,
            forall|s: int| 0 <= s < 3 ==> (#[trigger] self.slot(s)).wf() && self.slot(s).max_read() > 0,
    {
    }

    /// The cursor and records that reading slot `s` of topic `t` from `c` gives: the
    /// input cursor and nothing when the slot is caught up.
    pub open spec fn advanced(&self, s: int, t: Seq<char>, c: Cursor) -> (Cursor, Seq<Seq<u8>>) {
        match self.slot(s).read_spec(t, c) {
            Some(b) => (next_cursor(b), b.payloads),
            None => (c, Seq::empty()),
        }
    }

    /// Reading the native slot alone: only its cursor moves.
    pub open spec fn native_data(&self, t: Seq<char>, cs: Seq<Cursor>) -> (Seq<Cursor>, Seq<Seq<u8>>) {
        let a = self.advanced(self.native() as int, t, cs[self.native() as int]);
        (cs.update(self.native() as int, a.0), a.1)
    }

    /// Reading all three slots: each cursor moves by its own read, and the records
    /// come in slot order.
    pub open spec fn all_data(&self, t: Seq<char>, cs: Seq<Cursor>) -> (Seq<Cursor>, Seq<Seq<u8>>) {
        let a0 = self.advanced(0, t, cs[0]);
        let a1 = self.advanced(1, t, cs[1]);
        let a2 = self.advanced(2, t, cs[2]);
        (seq![a0.0, a1.0, a2.0], a0.1 + a1.1 + a2.1)
    }

    /// What a reply to `request` holds: a replication peer reads the native slot
    /// only, a local connection all three.
    pub open spec fn reply_spec(&self, id: usize, request: &DataRequest) -> (Seq<Cursor>, Seq<Seq<u8>>) {
        if id < REPLICATION_IDS {
            self.native_data(request.topic@, request.cursors@)
        } else {
            self.all_data(request.topic@, request.cursors@)
        }
    }

    pub fn new(id: usize, config: Arc<Config>) -> (r: DataLog)
        requires
            id < 3,
            config.max_payload_per_read > 0,
        ensures
            r.wf(),
            r.native() == id,
            forall|s: int| 0 <= s < 3 ==> (#[trigger] r.slot(s)).topics().len() == 0,
            forall|s: int| 0 <= s < 3 ==> (#[trigger] r.slot(s)).max_read() == config.max_payload_per_read,
            forall|s: int| 0 <= s < 3 ==> (#[trigger] r.slot(s)).max_segment_size() == config.max_segment_size,
    {
        let mut commitlog: Vec<TopicLog> = Vec::new();
        commitlog.push(TopicLog::new(config.max_segment_size, config.max_payload_per_read));
        commitlog.push(TopicLog::new(config.max_segment_size, config.max_payload_per_read));
        commitlog.push(TopicLog::new(config.max_segment_size, config.max_payload_per_read));
        DataLog { id, commitlog }
    }

    /// Answers a data request from caller `id`: a replication peer gets only what
    /// was written to the native slot, a local connection what all three hold.
    /// `None` when nothing new is there to read.
    pub fn handle_data_request(&mut self, id: usize, request: &DataRequest) -> (r: Option<DataReply>)
        requires
            old(self).wf(),
        ensures
            *final(self) == *old(self),
            ({
                let (cs, p) = old(self).reply_spec(id, request);
                &&& r is None <==> p.len() == 0
                &&& r matches Some(reply) ==> {
                    &&& reply.topic@ == request.topic@
                    &&& reply.cursors@ == cs
                    &&& reply.payloads() == p
                }
            }),
    {
        if id < REPLICATION_IDS {
            self.extract_connection_data(request)
        } else {
            self.extract_all_data(request)
        }
    }

    /// Reads the native slot from the request's native cursor. Only that cursor
    /// moves in the reply; `None` when the slot is caught up.
    pub fn extract_connection_data(&mut self, request: &DataRequest) -> (r: Option<DataReply>)
        requires
            old(self).wf(),
        ensures
            *final(self) == *old(self),
            ({
                let (cs, p) = old(self).native_data(request.topic@, request.cursors@);
                &&& r is None <==> p.len() == 0
                &&& r matches Some(reply) ==> {
                    &&& reply.topic@ == request.topic@
                    &&& reply.cursors@ == cs
                    &&& reply.payloads() == p
                }
            }),
    {
        let native = self.id;
        let mut cursors = request.cursors;
        let (segment, offset) = cursors[native];
        match self.commitlog[native].readv(&request.topic, (segment, offset)) {
            Some(batch) => {
                match batch.jump {
                    Some(next) => cursors[native] = (next, next),
                    None => cursors[native] = (batch.base_offset, batch.record_offset),
                }
                if batch.payloads.len() == 0 {
                    return None;
                }
                Some(DataReply { topic: request.topic.clone(), cursors, payload: batch.payloads })
            },
            None => None,
        }
    }

    /// Reads slot `s` of `topic` from `c`: the cursor to resume from and the records.
    fn read_slot(&self, s: usize, topic: &String, c: Cursor) -> (r: (Cursor, Vec<Vec<u8>>))
        requires
            self.wf(),
            s < 3,
        ensures
            r.0 == self.advanced(s as int, topic@, c).0,
            payloads_view(r.1@) == self.advanced(s as int, topic@, c).1,
    {
        match self.commitlog[s].readv(topic, c) {
            Some(batch) => {
                let next = match batch.jump {
                    Some(j) => (j, j),
                    None => (batch.base_offset, batch.record_offset),
                };
                (next, batch.payloads)
            },
            None => {
                let empty: Vec<Vec<u8>> = Vec::new();
                assert(payloads_view(empty@) =~= Seq::<Seq<u8>>::empty());
                (c, empty)
            },
        }
    }

    /// Reads all three slots, each from its own cursor, and joins the records in
    /// slot order. A caught-up slot keeps its cursor; `None` when all are caught up.
    pub fn extract_all_data(&mut self, request: &DataRequest) -> (r: Option<DataReply>)
        requires
            old(self).wf(),
        ensures
            *final(self) == *old(self),
            ({
                let (cs, p) = old(self).all_data(request.topic@, request.cursors@);
                &&& r is None <==> p.len() == 0
                &&& r matches Some(reply) ==> {
                    &&& reply.topic@ == request.topic@
                    &&& reply.cursors@ == cs
                    &&& reply.payloads() == p
                }
            }),
    {
        let topic = &request.topic;
        let (c0, mut d0) = self.read_slot(0, topic, request.cursors[0]);
        let (c1, mut d1) = self.read_slot(1, topic, request.cursors[1]);
        let (c2, mut d2) = self.read_slot(2, topic, request.cursors[2]);
        let ghost (p0, p1, p2) = (d0@, d1@, d2@);
        let mut payload: Vec<Vec<u8>> = Vec::new();
        payload.append(&mut d0);
        payload.append(&mut d1);
        payload.append(&mut d2);
        assert(payload@ =~= p0 + p1 + p2);
        assert(payloads_view(payload@) =~= payloads_view(p0) + payloads_view(p1) + payloads_view(p2));
        let cursors = [c0, c1, c2];
        assert(cursors@ =~= seq![c0, c1, c2]);
        if payload.len() == 0 {
            None
        } else {
            Some(DataReply { topic: request.topic.clone(), cursors, payload })
        }
    }

    /// Sets each entry's cursor for slot `id` to the current tail of its topic there.
    pub fn seek_offsets_to_end(&self, id: usize, topics: &mut Vec<(String, u8, [(u64, u64); 3])>)
        requires
            self.wf(),
            id < 3,
        ensures
            final(topics)@.len() == old(topics)@.len(),
            forall|j: int|
                0 <= j < final(topics)@.len() ==> {
                    let (t, q, cs) = #[trigger] final(topics)@[j];
                    &&& t == old(topics)@[j].0
                    &&& q == old(topics)@[j].1
                    &&& cs@ == old(topics)@[j].2@.update(id as int, self.slot(id as int).tail_of(t@))
                },
    {
        self.commitlog[id].seek_offsets_to_end(id, topics);
    }

    /// Appends a record from caller `id` to `topic` in the caller's slot (see
    /// `slot_of`). Returns whether the topic is new to that slot and where the
    /// record went; `None`, with nothing changed, when that topic's log is full.
    pub fn append_to_commitlog(&mut self, id: usize, topic: &str, bytes: Vec<u8>) -> (r: Option<(bool, (u64, u64))>)
        requires
            old(self).wf(),
            id < 3 || id >= REPLICATION_IDS,
        ensures
            final(self).wf(),
            final(self).native() == old(self).native(),
            ({
                let s = slot_of(old(self).native(), id);
                let before = old(self).slot(s);
                let after = final(self).slot(s);
                &&& forall|k: int| 0 <= k < 3 && k != s ==> #[trigger] final(self).slot(k) == old(self).slot(k)
                &&& after.max_read() == before.max_read()
                &&& after.max_segment_size() == before.max_segment_size()
                &&& before.records_of(topic@).len() >= u64::MAX ==> r is None && after == before
                &&& before.records_of(topic@).len() < u64::MAX ==> {
                    &&& r is Some
                    &&& r->Some_0.0 == !before.topics().contains(topic@)
                    &&& r->Some_0.0 == (before.records_of(topic@).len() == 0)
                    &&& r->Some_0.1 == (after.log_of(topic@).last_base(), before.records_of(topic@).len() as u64)
                    &&& r->Some_0.1.0 <= r->Some_0.1.1
                    &&& after.topics().contains(topic@)
                    &&& if r->Some_0.0 {
                        first_record(&after.log_of(topic@), before.max_segment_size(), bytes@)
                    } else {
                        appended(&before.log_of(topic@), &after.log_of(topic@), bytes@)
                    }
                    &&& forall|t: Seq<char>|
                        t != topic@ && before.topics().contains(t) ==> after.log_of(t) == before.log_of(t)
                    &&& after.topics() == if r->Some_0.0 {
                        before.topics().push(topic@)
                    } else {
                        before.topics()
                    }
                    &&& r->Some_0.1.1 == before.records_of(topic@).len()
                    &&& after.records_of(topic@) == before.records_of(topic@).push(bytes@)
                    &&& forall|t: Seq<char>| t != topic@ ==> after.records_of(t) == before.records_of(t)
                }
            }),
    {
        let slot = if id < REPLICATION_IDS {
            id
        } else {
            self.id
        };
        let name = topic.to_owned();
        let r = self.commitlog[slot].append(&name, bytes);
        proof {
            let before = old(self).slot(slot as int);
            if position_of(before.topics(), topic@) is Some {
                let i = position_of(before.topics(), topic@)->Some_0;
                assert(before.topics()[i] == topic@);
            }
        }
        r
    }
}

/// Reading a topic of any slot from its start, each read resuming where the
/// previous one ended, returns every record appended to that topic in that slot
/// once, in append order.
pub proof fn lemma_slot_reads_return_appended(data: &DataLog, s: int, t: Seq<char>)
    requires
        data.wf(),
        0 <= s < 3,
        data.slot(s).topics().contains(t),
    ensures
        drain(&data.slot(s).log_of(t), (0, 0), data.slot(s).max_read(), data.slot(s).records_of(t).len())
            == data.slot(s).records_of(t),
{
    data.lemma_wf();
    data.slot(s).lemma_wf(t);
    lemma_reads_return_appended(&data.slot(s).log_of(t), data.slot(s).max_read());
}

/// A read of a slot from a valid cursor of the topic's log comes back empty
/// exactly when the cursor stands at the end of the topic's records.
pub proof fn lemma_slot_read_none_iff_caught_up(data: &DataLog, s: int, t: Seq<char>, c: Cursor)
    requires
        data.wf(),
        0 <= s < 3,
        data.slot(s).topics().contains(t),
        data.slot(s).log_of(t).valid_cursor(c),
    ensures
        (data.slot(s).read_spec(t, c) is None) == (c.1 == data.slot(s).records_of(t).len()),
        (data.advanced(s, t, c).1.len() == 0) == (c.1 == data.slot(s).records_of(t).len()),
{
    data.lemma_wf();
    data.slot(s).lemma_wf(t);
    lemma_read_step(&data.slot(s).log_of(t), c, data.slot(s).max_read());
}

/// A request resumed from the cursor of an earlier reply on a slot, after more
/// appends to that slot, reads exactly the records after that reply, in order.
pub proof fn lemma_slot_resume_from_reply(earlier: &DataLog, later: &DataLog, s: int, t: Seq<char>, c: Cursor)
    requires
        earlier.wf(),
        later.wf(),
        0 <= s < 3,
        earlier.slot(s).topics().contains(t),
        later.slot(s).topics().contains(t),
        later.slot(s).log_of(t).extends(&earlier.slot(s).log_of(t)),
        later.slot(s).max_read() == earlier.slot(s).max_read(),
        earlier.slot(s).log_of(t).valid_cursor(c),
        earlier.slot(s).read_spec(t, c) is Some,
    ensures
        ({
            let r = next_cursor(earlier.slot(s).read_spec(t, c)->Some_0);
            let l = later.slot(s).log_of(t);
            &&& drain(&l, r, later.slot(s).max_read(), l.len()) == l.records().subrange(r.1 as int, l.len() as int)
            &&& r.1 == earlier.slot(s).records_of(t).len() ==> drain(&l, r, later.slot(s).max_read(), l.len())
                == l.records().skip(earlier.slot(s).records_of(t).len() as int)
        }),
{
    earlier.lemma_wf();
    later.lemma_wf();
    earlier.slot(s).lemma_wf(t);
    later.slot(s).lemma_wf(t);
    lemma_resume_from_reply(&earlier.slot(s).log_of(t), &later.slot(s).log_of(t), c, later.slot(s).max_read());
}

/// A local request resumed from the cursors of an earlier reply, on the data log
/// as it has grown since, reads from each slot exactly the records after the
/// position the reply had reached there, in order: none returned before is
/// returned again and none is skipped. For a slot the reply had read to its tail,
/// these are exactly the records appended to that slot since.
pub proof fn lemma_all_data_resume(
    earlier: &DataLog,
    later: &DataLog,
    t: Seq<char>,
    cs0: Seq<Cursor>,
    s: int,
)
    requires
        earlier.wf(),
        later.wf(),
        0 <= s < 3,
        cs0.len() == 3,
        earlier.slot(s).topics().contains(t),
        later.slot(s).topics().contains(t),
        later.slot(s).log_of(t).extends(&earlier.slot(s).log_of(t)),
        later.slot(s).max_read() == earlier.slot(s).max_read(),
        earlier.slot(s).log_of(t).valid_cursor(cs0[s]),
    ensures
        ({
            let c = earlier.all_data(t, cs0).0[s];
            let l = later.slot(s).log_of(t);
            &&& c.1 >= cs0[s].1
            &&& l.valid_cursor(c)
            &&& drain(&l, c, later.slot(s).max_read(), l.len()) == l.records().subrange(c.1 as int, l.len() as int)
            &&& c.1 == earlier.slot(s).records_of(t).len() ==> drain(&l, c, later.slot(s).max_read(), l.len())
                == l.records().skip(earlier.slot(s).records_of(t).len() as int)
        }),
{
    earlier.lemma_wf();
    later.lemma_wf();
    earlier.slot(s).lemma_wf(t);
    later.slot(s).lemma_wf(t);
    let e = earlier.slot(s).log_of(t);
    let l = later.slot(s).log_of(t);
    let max = later.slot(s).max_read();
    let c = earlier.all_data(t, cs0).0[s];
    assert(c == earlier.advanced(s, t, cs0[s]).0);
    lemma_read_step(&e, cs0[s], max);
    lemma_extends_keeps_cursor(&e, &l, c);
    lemma_drain(&l, c, max, l.len());
    assert(l.records().subrange(e.len() as int, l.len() as int) =~= l.records().skip(e.len() as int));
}

} // verus!
