use vstd::prelude::*;

use std::collections::VecDeque;

use crate::commitlog::{lemma_position_unique, unique};
use crate::filter::{has_wildcards, is_wild, takes, topic_takes};
use crate::request::{DataRequest, TopicsRequest};
use crate::segment::Cursor;

verus! {

/// Cursors at the start of all three slots.
pub open spec fn zero_cursors() -> Seq<Cursor> {
    seq![(0u64, 0u64), (0u64, 0u64), (0u64, 0u64)]
}

/// Data requests that read each topic of `ts` from the start of every slot.
pub open spec fn fresh_requests(ts: Seq<Seq<char>>) -> Seq<(Seq<char>, Seq<Cursor>)> {
    ts.map_values(|t: Seq<char>| (t, zero_cursors()))
}

pub open spec fn strings(v: Seq<String>) -> Seq<Seq<char>> {
    v.map_values(|s: String| s@)
}

pub open spec fn pairs(v: Seq<(String, u8)>) -> Seq<(Seq<char>, u8)> {
    v.map_values(|p: (String, u8)| (p.0@, p.1))
}

pub open spec fn keys(v: Seq<(Seq<char>, u8)>) -> Seq<Seq<char>> {
    v.map_values(|p: (Seq<char>, u8)| p.0)
}

/// The tracked topics after scanning `topics`, in order, for filter `f`: each one
/// not tracked yet that matches `f` is added.
pub open spec fn scan(index: Seq<Seq<char>>, f: Seq<char>, topics: Seq<Seq<char>>) -> Seq<Seq<char>>
    decreases topics.len(),
{
    if topics.len() == 0 {
        index
    } else {
        let prev = scan(index, f, topics.drop_last());
        let t = topics.last();
        if !prev.contains(t) && takes(t, f) {
            prev.push(t)
        } else {
            prev
        }
    }
}

/// Concrete filters after recording filter `f` with QoS `q`: an equal filter
/// takes the new QoS in place, else `f` is added at the end.
pub open spec fn insert_filter(c: Seq<(Seq<char>, u8)>, f: Seq<char>, q: u8) -> Seq<(Seq<char>, u8)> {
    if keys(c).contains(f) {
        c.update(keys(c).index_of(f), (f, q))
    } else {
        c.push((f, q))
    }
}

/// Tracker state as `add_subscripiton` builds it, with the new trackings so far.
pub struct SubscribeState {
    pub concrete: Seq<(Seq<char>, u8)>,
    pub wild: Seq<(Seq<char>, u8)>,
    pub index: Seq<Seq<char>>,
    pub out: Seq<(Seq<char>, u8, Seq<Cursor>)>,
}

/// New trackings of topics `ts` with QoS `q`, from the start of every slot.
pub open spec fn trackings(ts: Seq<Seq<char>>, q: u8) -> Seq<(Seq<char>, u8, Seq<Cursor>)> {
    ts.map_values(|t: Seq<char>| (t, q, zero_cursors()))
}

pub open spec fn trackings_view(v: Seq<(String, u8, [Cursor; 3])>) -> Seq<(Seq<char>, u8, Seq<Cursor>)> {
    v.map_values(|e: (String, u8, [Cursor; 3])| (e.0@, e.1, e.2@))
}

/// Records filter `f` in the bucket its wildcards call for, then tracks each known
/// topic that it matches and nothing tracks yet.
pub open spec fn subscribe_one(st: SubscribeState, f: (Seq<char>, u8), topics: Seq<Seq<char>>) -> SubscribeState {
    let index = scan(st.index, f.0, topics);
    SubscribeState {
        concrete: if is_wild(f.0) {
            st.concrete
        } else {
            insert_filter(st.concrete, f.0, f.1)
        },
        wild: if is_wild(f.0) {
            st.wild.push(f)
        } else {
            st.wild
        },
        index,
        out: st.out + trackings(index.skip(st.index.len() as int), f.1),
    }
}

/// `subscribe_one` for each filter of `filters`, in order.
pub open spec fn subscribe_all(
    st: SubscribeState,
    filters: Seq<(Seq<char>, u8)>,
    topics: Seq<Seq<char>>,
) -> SubscribeState
    decreases filters.len(),
{
    if filters.len() == 0 {
        st
    } else {
        subscribe_one(subscribe_all(st, filters.drop_last(), topics), filters.last(), topics)
    }
}

pub open spec fn out_topics(out: Seq<(Seq<char>, u8, Seq<Cursor>)>) -> Seq<Seq<char>> {
    out.map_values(|e: (Seq<char>, u8, Seq<Cursor>)| e.0)
}

proof fn lemma_scan_extends(index: Seq<Seq<char>>, f: Seq<char>, topics: Seq<Seq<char>>)
    ensures
        scan(index, f, topics).len() >= index.len(),
        scan(index, f, topics).subrange(0, index.len() as int) == index,
    decreases topics.len(),
{
    if topics.len() == 0 {
        assert(index.subrange(0, index.len() as int) =~= index);
    } else {
        lemma_scan_extends(index, f, topics.drop_last());
        let prev = scan(index, f, topics.drop_last());
        assert(prev.push(topics.last()).subrange(0, index.len() as int) =~= prev.subrange(0, index.len() as int));
    }
}

proof fn lemma_scan_unique(index: Seq<Seq<char>>, f: Seq<char>, topics: Seq<Seq<char>>)
    requires
        unique(index),
    ensures
        unique(scan(index, f, topics)),
    decreases topics.len(),
{
    if topics.len() > 0 {
        lemma_scan_unique(index, f, topics.drop_last());
        let prev = scan(index, f, topics.drop_last());
        let t = topics.last();
        if !prev.contains(t) && takes(t, f) {
            assert forall|i: int, j: int|
                0 <= i < prev.len() + 1 && 0 <= j < prev.len() + 1 && i != j implies prev.push(t)[i] != prev.push(t)[j] by {
                if i == prev.len() {
                    assert(prev[j] != t);
                } else if j == prev.len() {
                    assert(prev[i] != t);
                }
            }
        }
    }
}

/// Adding filters tracks topics only from the start of every slot, and each topic
/// once: the new trackings name, in order, exactly the topics that joined the
/// index, each with all three cursors at the start, whether the topic was
/// published before the filter came or not. No topic is tracked twice, and none
/// that was tracked before is tracked again.
pub proof fn lemma_subscribe_tracks_from_start(
    st: SubscribeState,
    filters: Seq<(Seq<char>, u8)>,
    topics: Seq<Seq<char>>,
)
    requires
        st.out.len() == 0,
        unique(st.index),
    ensures
        ({
            let r = subscribe_all(st, filters, topics);
            &&& unique(r.index)
            &&& unique(out_topics(r.out))
            &&& forall|k: int| 0 <= k < r.out.len() ==> !st.index.contains(#[trigger] r.out[k].0)
            &&& r.index.len() >= st.index.len()
            &&& r.index.subrange(0, st.index.len() as int) == st.index
            &&& out_topics(r.out) == r.index.skip(st.index.len() as int)
            &&& forall|k: int| 0 <= k < r.out.len() ==> (#[trigger] r.out[k]).2 == zero_cursors()
        }),
    decreases filters.len(),
{
    let r = subscribe_all(st, filters, topics);
    if filters.len() == 0 {
        assert(st.index.subrange(0, st.index.len() as int) =~= st.index);
        assert(out_topics(r.out) =~= r.index.skip(st.index.len() as int));
    } else {
        lemma_subscribe_tracks_from_start(st, filters.drop_last(), topics);
        let p = subscribe_all(st, filters.drop_last(), topics);
        let f = filters.last();
        lemma_scan_extends(p.index, f.0, topics);
        lemma_scan_unique(p.index, f.0, topics);
        let n = st.index.len() as int;
        assert(r.index.subrange(0, n) =~= p.index.subrange(0, n)) by {
            assert(r.index.subrange(0, p.index.len() as int) == p.index);
            assert forall|k: int| 0 <= k < n implies r.index.subrange(0, n)[k] == p.index.subrange(0, n)[k] by {
                assert(r.index.subrange(0, p.index.len() as int)[k] == r.index[k]);
            }
        }
        let added = r.index.skip(p.index.len() as int);
        assert(out_topics(trackings(added, f.1)) =~= added);
        assert(out_topics(r.out) =~= out_topics(p.out) + out_topics(trackings(added, f.1)));
        assert(r.index.skip(n) =~= p.index.skip(n) + added) by {
            assert forall|k: int| 0 <= k < p.index.len() - n implies r.index.skip(n)[k] == p.index.skip(n)[k] by {
                assert(r.index.subrange(0, p.index.len() as int)[k + n] == r.index[k + n]);
            }
        }
        assert forall|k: int| 0 <= k < r.out.len() implies (#[trigger] r.out[k]).2 == zero_cursors() by {
            if k >= p.out.len() {
                assert(r.out[k] == trackings(added, f.1)[k - p.out.len()]);
            } else {
                assert(r.out[k] == p.out[k]);
            }
        }
    }
}

/// Filters `concrete` and `wild` take topic `t`: a concrete filter equal to it, or
/// a wildcard filter that `takes` it (no topic starting outside ASCII).
pub open spec fn wanted(concrete: Seq<(Seq<char>, u8)>, wild: Seq<(Seq<char>, u8)>, t: Seq<char>) -> bool {
    ||| keys(concrete).contains(t)
    ||| exists|j: int| 0 <= j < wild.len() && takes(t, #[trigger] wild[j].0)
}

/// The tracked topics after offering `topics`, in order, to a tracker with these
/// filters whose index is `index`: each one wanted and not yet tracked is added.
pub open spec fn track_all(
    concrete: Seq<(Seq<char>, u8)>,
    wild: Seq<(Seq<char>, u8)>,
    index: Seq<Seq<char>>,
    topics: Seq<Seq<char>>,
) -> Seq<Seq<char>>
    decreases topics.len(),
{
    if topics.len() == 0 {
        index
    } else {
        let prev = track_all(concrete, wild, index, topics.drop_last());
        let t = topics.last();
        if !prev.contains(t) && wanted(concrete, wild, t) {
            prev.push(t)
        } else {
            prev
        }
    }
}

/// Filters, matched topics and pending requests of one connection.
pub struct Subscription {
    /// Pending topics request
    topics_request: Option<TopicsRequest>,
    /// Requests to read data from the commit logs, in the order they are served
    data_requests: VecDeque<DataRequest>,
    /// Topics already tracked, so that none is requested twice
    topics_index: Vec<String>,
    /// Filters without wildcards, each with its QoS; one entry per filter
    concrete_subscriptions: Vec<(String, u8)>,
    /// Filters with wildcards, each with its QoS, in the order they came
    wild_subscriptions: Vec<(String, u8)>,
}

impl Subscription {
    pub closed spec fn index(&self) -> Seq<Seq<char>> {
        strings(self.topics_index@)
    }

    pub closed spec fn concrete(&self) -> Seq<(Seq<char>, u8)> {
        pairs(self.concrete_subscriptions@)
    }

    pub closed spec fn wild(&self) -> Seq<(Seq<char>, u8)> {
        pairs(self.wild_subscriptions@)
    }

    /// Pending data requests as (topic, cursors), front first.
    pub closed spec fn requests(&self) -> Seq<(Seq<char>, Seq<Cursor>)> {
        self.data_requests@.map_values(|r: DataRequest| (r.topic@, r.cursors@))
    }

    /// Offset of the pending topics request, if any.
    pub closed spec fn pending_topics(&self) -> Option<usize> {
        match self.topics_request {
            Some(r) => Some(r.offset),
            None => None,
        }
    }

    pub open spec fn count_spec(&self) -> nat {
        self.concrete().len() + self.wild().len()
    }

    pub closed spec fn wf(&self) -> bool {
        &&& unique(self.index())
        &&& unique(keys(self.concrete()))
        &&& self.concrete().len() + self.wild().len() <= usize::MAX
    }

    /// A well-formed tracker tracks each topic once.
    pub proof fn lemma_wf(&self)
        requires
            self.wf(),
        ensures
            unique(self.index()),
    {
    }

    /// Some filter takes topic `t`: a concrete filter equal to it, or a wildcard
    /// filter that matches it.
    pub open spec fn wants(&self, t: Seq<char>) -> bool {
        wanted(self.concrete(), self.wild(), t)
    }

    /// The tracked topics after offering `topics`, in order, to a tracker whose
    /// index is `index`: each one wanted and not yet tracked is added.
    pub open spec fn tracked_after(&self, index: Seq<Seq<char>>, topics: Seq<Seq<char>>) -> Seq<Seq<char>> {
        track_all(self.concrete(), self.wild(), index, topics)
    }

    pub fn new() -> (r: Subscription)
        ensures
            r.wf(),
            r.index().len() == 0,
            r.concrete().len() == 0,
            r.wild().len() == 0,
            r.requests().len() == 0,
            r.pending_topics() is None,
    {
        Subscription {
            topics_request: None,
            data_requests: VecDeque::with_capacity(100),
            topics_index: Vec::new(),
            concrete_subscriptions: Vec::new(),
            wild_subscriptions: Vec::new(),
        }
    }

    /// Takes the data request at the front of the queue.
    pub fn pop_data_request(&mut self) -> (r: Option<DataRequest>)
        requires
            old(self).wf(),
        ensures
            final(self).wf(),
            final(self).index() == old(self).index(),
            final(self).concrete() == old(self).concrete(),
            final(self).wild() == old(self).wild(),
            final(self).pending_topics() == old(self).pending_topics(),
            old(self).requests().len() == 0 ==> r is None && final(self).requests() == old(self).requests(),
            old(self).requests().len() > 0 ==> {
                &&& r matches Some(q) && (q.topic@, q.cursors@) == old(self).requests()[0]
                &&& final(self).requests() == old(self).requests().drop_first()
            },
    {
        let r = self.data_requests.pop_front();
        proof {
            if old(self).requests().len() > 0 {
                assert(self.requests() =~= old(self).requests().drop_first());
            }
        }
        r
    }

    /// Puts a data request back at the front, to be served first.
    pub fn push_front_data_request(&mut self, request: DataRequest)
        requires
            old(self).wf(),
        ensures
            final(self).wf(),
            final(self).index() == old(self).index(),
            final(self).concrete() == old(self).concrete(),
            final(self).wild() == old(self).wild(),
            final(self).pending_topics() == old(self).pending_topics(),
            final(self).requests() == seq![(request.topic@, request.cursors@)] + old(self).requests(),
    {
        let ghost q = (request.topic@, request.cursors@);
        self.data_requests.push_front(request);
        assert(self.requests() =~= seq![q] + old(self).requests());
    }

    /// Number of queued data requests.
    pub fn request_count(&self) -> (r: usize)
        ensures
            r == self.requests().len(),
    {
        self.data_requests.len()
    }

    /// Takes the pending topics request, leaving none.
    pub fn take_topics_request(&mut self) -> (r: Option<usize>)
        requires
            old(self).wf(),
        ensures
            final(self).wf(),
            r == old(self).pending_topics(),
            final(self).pending_topics() is None,
            final(self).index() == old(self).index(),
            final(self).concrete() == old(self).concrete(),
            final(self).wild() == old(self).wild(),
            final(self).requests() == old(self).requests(),
    {
        match self.topics_request.take() {
            Some(r) => Some(r.offset),
            None => None,
        }
    }

    /// Queues a data request at the back.
    pub fn push_data_request(&mut self, request: DataRequest)
        requires
            old(self).wf(),
        ensures
            final(self).wf(),
            final(self).index() == old(self).index(),
            final(self).concrete() == old(self).concrete(),
            final(self).wild() == old(self).wild(),
            final(self).pending_topics() == old(self).pending_topics(),
            final(self).requests() == old(self).requests().push((request.topic@, request.cursors@)),
    {
        let ghost q = (request.topic@, request.cursors@);
        self.data_requests.push_back(request);
        assert(self.requests() =~= old(self).requests().push(q));
    }

    /// Number of filters, concrete and wildcard.
    pub fn count(&self) -> (r: usize)
        requires
            self.wf(),
        ensures
            r == self.count_spec(),
    {
        self.concrete_subscriptions.len() + self.wild_subscriptions.len()
    }

    /// Sets the pending topics request to `next_offset`, replacing any other.
    pub fn register_topics_request(&mut self, next_offset: usize)
        requires
            old(self).wf(),
        ensures
            final(self).wf(),
            final(self).index() == old(self).index(),
            final(self).concrete() == old(self).concrete(),
            final(self).wild() == old(self).wild(),
            final(self).requests() == old(self).requests(),
            final(self).pending_topics() == Some(next_offset),
    {
        let request = TopicsRequest::offset(next_offset);
        self.topics_request = Some(request);
    }

    pub open spec fn start_state(&self) -> SubscribeState {
        SubscribeState {
            concrete: self.concrete(),
            wild: self.wild(),
            index: self.index(),
            out: Seq::empty(),
        }
    }

    /// Adds filters, each with its QoS, and tracks the known topics `topics` that
    /// they match, from the start of every slot. Returns whether the tracker had no
    /// filter before, and the new trackings in the order they were made.
    pub fn add_subscripiton(&mut self, filters: Vec<(String, u8)>, topics: &[String]) -> (r: (
        bool,
        Vec<(String, u8, [(u64, u64); 3])>,
    ))
        requires
            old(self).wf(),
            old(self).count_spec() + filters@.len() <= usize::MAX,
        ensures
            final(self).wf(),
            r.0 == (old(self).count_spec() == 0),
            ({
                let st = subscribe_all(old(self).start_state(), pairs(filters@), strings(topics@));
                &&& final(self).concrete() == st.concrete
                &&& final(self).wild() == st.wild
                &&& final(self).index() == st.index
                &&& trackings_view(r.1@) == st.out
            }),
            final(self).requests() == old(self).requests(),
            final(self).pending_topics() == old(self).pending_topics(),
    {
        let first_subscription = self.concrete_subscriptions.len() + self.wild_subscriptions.len() == 0;
        let ghost fs = pairs(filters@);
        let ghost ts = strings(topics@);
        let mut out: Vec<(String, u8, [(u64, u64); 3])> = Vec::new();
        let nf = filters.len();
        let mut k: usize = 0;
        assert(fs.take(0) =~= Seq::<(Seq<char>, u8)>::empty());
        assert(trackings_view(out@) =~= Seq::<(Seq<char>, u8, Seq<Cursor>)>::empty());
        while k < nf
            invariant
                0 <= k <= nf,
                nf == filters@.len(),
                fs == pairs(filters@),
                ts == strings(topics@),
                self.wf(),
                self.requests() == old(self).requests(),
                self.pending_topics() == old(self).pending_topics(),
                self.count_spec() <= old(self).count_spec() + k,
                old(self).count_spec() + nf <= usize::MAX,
                ({
                    let st = subscribe_all(old(self).start_state(), fs.take(k as int), ts);
                    &&& self.concrete() == st.concrete
                    &&& self.wild() == st.wild
                    &&& self.index() == st.index
                    &&& trackings_view(out@) == st.out
                }),
            decreases nf - k,
        {
            let ghost prev = subscribe_all(old(self).start_state(), fs.take(k as int), ts);
            let path = filters[k].0.clone();
            let qos = filters[k].1;
            if has_wildcards(path.as_str()) {
                self.wild_subscriptions.push((path.clone(), qos));
                assert(self.wild() =~= prev.wild.push((path@, qos)));
            } else {
                self.insert_concrete(path.clone(), qos);
            }
            let ghost index0 = self.index();
            let ghost c1 = self.concrete();
            let ghost w1 = self.wild();
            let ghost out0 = trackings_view(out@);
            let n0 = self.topics_index.len();
            let nt = topics.len();
            let mut j: usize = 0;
            assert(ts.take(0) =~= Seq::<Seq<char>>::empty());
            assert(self.index().skip(n0 as int) =~= Seq::<Seq<char>>::empty());
            assert(out0 + trackings(Seq::<Seq<char>>::empty(), qos) =~= out0);
            while j < nt
                invariant
                    0 <= j <= nt,
                    nt == topics@.len(),
                    ts == strings(topics@),
                    n0 == index0.len(),
                    self.wf(),
                    self.concrete() == c1,
                    self.wild() == w1,
                    self.requests() == old(self).requests(),
                    self.pending_topics() == old(self).pending_topics(),
                    self.index() == scan(index0, path@, ts.take(j as int)),
                    self.index().len() >= n0,
                    trackings_view(out@) == out0 + trackings(self.index().skip(n0 as int), qos),
                decreases nt - j,
            {
                let ghost before = self.index();
                let topic = &topics[j];
                if !self.index_contains(topic) && topic_takes(topic.as_str(), path.as_str()) {
                    let ghost before_out = out@;
                    self.topics_index.push(topic.clone());
                    out.push((topic.clone(), qos, [(0, 0), (0, 0), (0, 0)]));
                    proof {
                        assert(self.index() =~= before.push(topic@));
                        assert(forall|m: int| 0 <= m < before.len() ==> before[m] != topic@);
                        assert(self.index().skip(n0 as int) =~= before.skip(n0 as int).push(topic@));
                        let e = (topic@, qos, [(0u64, 0u64), (0u64, 0u64), (0u64, 0u64)]@);
                        assert([(0u64, 0u64), (0u64, 0u64), (0u64, 0u64)]@ =~= zero_cursors());
                        assert(trackings(self.index().skip(n0 as int), qos) =~= trackings(
                            before.skip(n0 as int),
                            qos,
                        ).push((topic@, qos, zero_cursors())));
                        assert(trackings_view(out@) =~= trackings_view(before_out).push(
                            (topic@, qos, zero_cursors()),
                        ));
                        assert(trackings_view(out@) =~= out0 + trackings(self.index().skip(n0 as int), qos));
                    }
                }
                proof {
                    assert(ts.take(j + 1).drop_last() =~= ts.take(j as int));
                    assert(ts.take(j + 1).last() == topic@);
                }
                j += 1;
            }
            proof {
                assert(ts.take(nt as int) =~= ts);
                assert(fs.take(k + 1).drop_last() =~= fs.take(k as int));
                assert(fs.take(k + 1).last() == (path@, qos));
            }
            k += 1;
        }
        assert(fs.take(nf as int) =~= fs);
        (first_subscription, out)
    }

    /// Records concrete filter `f` with QoS `q`, replacing the QoS of an equal one.
    fn insert_concrete(&mut self, f: String, q: u8)
        requires
            old(self).wf(),
            old(self).count_spec() < usize::MAX,
        ensures
            final(self).wf(),
            final(self).concrete() == insert_filter(old(self).concrete(), f@, q),
            final(self).count_spec() <= old(self).count_spec() + 1,
            final(self).index() == old(self).index(),
            final(self).wild() == old(self).wild(),
            final(self).requests() == old(self).requests(),
            final(self).pending_topics() == old(self).pending_topics(),
    {
        let n = self.concrete_subscriptions.len();
        let mut i: usize = 0;
        while i < n
            invariant
                0 <= i <= n,
                n == self.concrete_subscriptions@.len(),
                self.wf(),
                *self == *old(self),
                old(self).count_spec() < usize::MAX,
                forall|m: int| 0 <= m < i ==> keys(self.concrete())[m] != f@,
            decreases n - i,
        {
            if self.concrete_subscriptions[i].0 == f {
                let ghost c = self.concrete();
                proof {
                    assert(keys(c)[i as int] == f@);
                    assert(keys(c).contains(f@));
                    let x = keys(c).index_of(f@);
                    assert(0 <= x < keys(c).len() && keys(c)[x] == f@);
                    assert(x == i);
                }
                self.concrete_subscriptions[i] = (f, q);
                proof {
                    assert(self.concrete() =~= c.update(i as int, (f@, q)));
                    assert(keys(self.concrete()) =~= keys(c));
                }
                return;
            }
            i += 1;
        }
        let ghost c = self.concrete();
        self.concrete_subscriptions.push((f, q));
        proof {
            assert(!keys(c).contains(f@));
            assert(self.concrete() =~= c.push((f@, q)));
            assert(keys(self.concrete()) =~= keys(c).push(f@));
        }
    }

    fn index_contains(&self, topic: &String) -> (r: bool)
        ensures
            r == self.index().contains(topic@),
    {
        let n = self.topics_index.len();
        let mut i: usize = 0;
        while i < n
            invariant
                0 <= i <= n,
                n == self.topics_index@.len(),
                forall|k: int| 0 <= k < i ==> self.index()[k] != topic@,
            decreases n - i,
        {
            if self.topics_index[i] == *topic {
                assert(self.index()[i as int] == topic@);
                return true;
            }
            i += 1;
        }
        false
    }

    fn concrete_contains(&self, topic: &String) -> (r: bool)
        ensures
            r == keys(self.concrete()).contains(topic@),
    {
        let n = self.concrete_subscriptions.len();
        let mut i: usize = 0;
        while i < n
            invariant
                0 <= i <= n,
                n == self.concrete_subscriptions@.len(),
                forall|k: int| 0 <= k < i ==> keys(self.concrete())[k] != topic@,
            decreases n - i,
        {
            if self.concrete_subscriptions[i].0 == *topic {
                assert(keys(self.concrete())[i as int] == topic@);
                return true;
            }
            i += 1;
        }
        false
    }

    /// Whether a wildcard filter matches `topic`; stops at the first that does.
    fn wild_matches(&self, topic: &String) -> (r: bool)
        ensures
            r == exists|j: int| 0 <= j < self.wild().len() && takes(topic@, #[trigger] self.wild()[j].0),
    {
        let n = self.wild_subscriptions.len();
        let mut i: usize = 0;
        while i < n
            invariant
                0 <= i <= n,
                n == self.wild_subscriptions@.len(),
                forall|k: int| 0 <= k < i ==> !takes(topic@, #[trigger] self.wild()[k].0),
            decreases n - i,
        {
            if topic_takes(topic.as_str(), self.wild_subscriptions[i].0.as_str()) {
                assert(takes(topic@, self.wild()[i as int].0));
                return true;
            }
            i += 1;
        }
        false
    }

    /// Tracks `topic` when no earlier call did and some filter takes it: it joins
    /// the index and a request reading it from the start of every slot is queued.
    fn track_if_matched(&mut self, topic: &String) -> (r: bool)
        requires
            old(self).wf(),
        ensures
            final(self).wf(),
            r == (!old(self).index().contains(topic@) && old(self).wants(topic@)),
            final(self).index() == if r {
                old(self).index().push(topic@)
            } else {
                old(self).index()
            },
            final(self).requests() == if r {
                old(self).requests().push((topic@, zero_cursors()))
            } else {
                old(self).requests()
            },
            final(self).concrete() == old(self).concrete(),
            final(self).wild() == old(self).wild(),
            final(self).pending_topics() == old(self).pending_topics(),
    {
        if self.index_contains(topic) {
            return false;
        }
        if self.concrete_contains(topic) || self.wild_matches(topic) {
            let request = DataRequest::new(topic.clone());
            self.push_data_request(request);
            self.topics_index.push(topic.clone());
            proof {
                assert(self.index() =~= old(self).index().push(topic@));
                assert(forall|k: int| 0 <= k < old(self).index().len() ==> old(self).index()[k] != topic@);
            }
            return true;
        }
        false
    }

    /// Offers new topics, in order, to this tracker: each one that some filter
    /// takes and that is not tracked yet is tracked from the start of every slot.
    /// Returns how many were.
    pub fn track_matched_topics(&mut self, topics: &[String]) -> (r: usize)
        requires
            old(self).wf(),
        ensures
            final(self).wf(),
            final(self).index() == old(self).tracked_after(old(self).index(), strings(topics@)),
            final(self).requests() == old(self).requests() + fresh_requests(
                final(self).index().skip(old(self).index().len() as int),
            ),
            r == final(self).index().len() - old(self).index().len(),
            final(self).concrete() == old(self).concrete(),
            final(self).wild() == old(self).wild(),
            final(self).pending_topics() == old(self).pending_topics(),
    {
        let ghost n0 = old(self).index().len() as int;
        let mut matched_count: usize = 0;
        let n = topics.len();
        let mut i: usize = 0;
        assert(strings(topics@).take(0) =~= Seq::<Seq<char>>::empty());
        assert(self.index().skip(n0) =~= Seq::<Seq<char>>::empty());
        assert(old(self).requests() + fresh_requests(Seq::<Seq<char>>::empty()) =~= old(self).requests());
        while i < n
            invariant
                0 <= i <= n,
                n == topics@.len(),
                self.wf(),
                self.concrete() == old(self).concrete(),
                self.wild() == old(self).wild(),
                self.pending_topics() == old(self).pending_topics(),
                self.index() == old(self).tracked_after(old(self).index(), strings(topics@).take(i as int)),
                n0 == old(self).index().len(),
                self.index().len() >= n0,
                self.requests() == old(self).requests() + fresh_requests(self.index().skip(n0)),
                matched_count == self.index().len() - n0,
                matched_count <= i,
            decreases n - i,
        {
            let ghost before = self.index();
            let ghost reqs = self.requests();
            let matched = self.track_if_matched(&topics[i]);
            proof {
                let ts = strings(topics@);
                assert(ts.take(i + 1).drop_last() =~= ts.take(i as int));
                assert(ts.take(i + 1).last() == topics@[i as int]@);
                if matched {
                    assert(self.index() == before.push(topics@[i as int]@));
                    assert(before.len() >= n0);
                    assert(self.index().skip(n0).len() == before.skip(n0).len() + 1);
                    assert forall|k: int| 0 <= k < self.index().skip(n0).len() implies self.index().skip(n0)[k] == before.skip(n0).push(topics@[i as int]@)[k] by {
                        if k < before.skip(n0).len() {
                            assert(self.index()[k + n0] == before[k + n0]);
                        }
                    }
                    assert(self.index().skip(n0) =~= before.skip(n0).push(topics@[i as int]@));
                    assert(fresh_requests(self.index().skip(n0)) =~= fresh_requests(before.skip(n0)).push(
                        (topics@[i as int]@, zero_cursors()),
                    ));
                    assert(self.requests() =~= old(self).requests() + fresh_requests(self.index().skip(n0)));
                }
            }
            if matched {
                matched_count += 1;
            }
            i += 1;
        }
        assert(strings(topics@).take(n as int) =~= strings(topics@));
        matched_count
    }
}

} // verus!
