use vstd::prelude::*;

use crate::segment::{BatchView, Cursor, ReadBatch, SegmentLog, appended, first_record};

verus! {

/// Position of `t` in `topics`, if it is there.
pub open spec fn position_of(topics: Seq<Seq<char>>, t: Seq<char>) -> Option<int> {
    if exists|i: int| 0 <= i < topics.len() && topics[i] == t {
        Some(choose|i: int| 0 <= i < topics.len() && topics[i] == t)
    } else {
        None
    }
}

pub proof fn lemma_position_unique(topics: Seq<Seq<char>>, t: Seq<char>, i: int)
    requires
        unique(topics),
        0 <= i < topics.len(),
        topics[i] == t,
    ensures
        position_of(topics, t) == Some(i),
{
}

pub open spec fn unique(topics: Seq<Seq<char>>) -> bool {
    forall|i: int, j: int| 0 <= i < topics.len() && 0 <= j < topics.len() && i != j ==> topics[i] != topics[j]
}

/// The commit log of one slot: a segment log for each topic, topics kept in the
/// order they first appeared.
pub struct TopicLog {
    topics: Vec<String>,
    logs: Vec<SegmentLog>,
    max_segment_size: u64,
    max_read: usize,
}

impl TopicLog {
    /// Topic names in order of first append.
    pub closed spec fn topics(&self) -> Seq<Seq<char>> {
        self.topics@.map_values(|s: String| s@)
    }

    /// The segment log of the `i`-th topic.
    pub closed spec fn log_at(&self, i: int) -> SegmentLog {
        self.logs@[i]
    }

    pub closed spec fn max_segment_size(&self) -> u64 {
        self.max_segment_size
    }

    /// Largest number of records that one read returns.
    pub closed spec fn max_read(&self) -> usize {
        self.max_read
    }

    pub closed spec fn wf(&self) -> bool {
        &&& self.topics@.len() == self.logs@.len()
        &&& unique(self.topics())
        &&& forall|i: int| 0 <= i < self.logs@.len() ==> (#[trigger] self.logs@[i]).wf()
        &&& forall|i: int| 0 <= i < self.logs@.len() ==> (#[trigger] self.logs@[i]).max_segment_size() == self.max_segment_size
        &&& forall|i: int| 0 <= i < self.logs@.len() ==> (#[trigger] self.logs@[i]).len() > 0
    }

    /// The segment log of topic `t`, for a topic that has one.
    pub open spec fn log_of(&self, t: Seq<char>) -> SegmentLog {
        self.log_at(position_of(self.topics(), t)->Some_0)
    }

    /// Each listed topic has a well-formed segment log, with this log's segment
    /// size and at least one record.
    pub proof fn lemma_wf(&self, t: Seq<char>)
        requires
            self.wf(),
            self.topics().contains(t),
        ensures
            position_of(self.topics(), t) is Some,
            self.log_of(t).wf(),
            self.log_of(t).max_segment_size() == self.max_segment_size(),
            self.records_of(t) == self.log_of(t).records(),
            self.records_of(t).len() > 0,
            forall|c: Cursor| #[trigger] self.read_spec(t, c) == self.log_of(t).read_spec(c, self.max_read()),
    {
        let i = choose|i: int| 0 <= i < self.topics().len() && self.topics()[i] == t;
        lemma_position_unique(self.topics(), t, i);
    }

    /// A topic that is not listed has no records and reads nothing.
    pub proof fn lemma_unlisted(&self, t: Seq<char>)
        requires
            self.wf(),
            !self.topics().contains(t),
        ensures
            position_of(self.topics(), t) is None,
            self.records_of(t).len() == 0,
            forall|c: Cursor| #[trigger] self.read_spec(t, c) is None,
    {
        if position_of(self.topics(), t) is Some {
            let i = position_of(self.topics(), t)->Some_0;
            assert(self.topics()[i] == t);
        }
    }

    /// Records of topic `t`; empty for a topic never appended to.
    pub open spec fn records_of(&self, t: Seq<char>) -> Seq<Seq<u8>> {
        match position_of(self.topics(), t) {
            Some(i) => self.log_at(i).records(),
            None => Seq::empty(),
        }
    }

    /// What a read of topic `t` from cursor `c` returns.
    pub open spec fn read_spec(&self, t: Seq<char>, c: Cursor) -> Option<BatchView> {
        match position_of(self.topics(), t) {
            Some(i) => self.log_at(i).read_spec(c, self.max_read()),
            None => None,
        }
    }

    /// The cursor at the tail of topic `t`: `(0, 0)` for a topic never appended to.
    pub open spec fn tail_of(&self, t: Seq<char>) -> Cursor {
        match position_of(self.topics(), t) {
            Some(i) => self.log_at(i).tail(),
            None => (0, 0),
        }
    }

    pub fn new(max_segment_size: u64, max_read: usize) -> (r: TopicLog)
        ensures
            r.wf(),
            r.topics() == Seq::<Seq<char>>::empty(),
            r.max_segment_size() == max_segment_size,
            r.max_read() == max_read,
    {
        let r = TopicLog { topics: Vec::new(), logs: Vec::new(), max_segment_size, max_read };
        assert(r.topics() =~= Seq::<Seq<char>>::empty());
        r
    }

    /// Reads topic `topic` from cursor `c`; `None` for a topic never appended to.
    pub fn readv(&self, topic: &String, c: Cursor) -> (r: Option<ReadBatch>)
        requires
            self.wf(),
        ensures
            match r {
                Some(b) => self.read_spec(topic@, c) == Some(b@),
                None => self.read_spec(topic@, c) is None,
            },
    {
        match self.find(topic) {
            Some(i) => self.logs[i].readv(c, self.max_read),
            None => None,
        }
    }

    /// The cursor at the tail of topic `topic`.
    pub fn tail(&self, topic: &String) -> (r: Cursor)
        requires
            self.wf(),
        ensures
            r == self.tail_of(topic@),
    {
        match self.find(topic) {
            Some(i) => self.logs[i].tail_exec(),
            None => (0, 0),
        }
    }

    /// Sets the cursor of slot `slot` of each entry to the tail of the entry's topic,
    /// so that the entry skips what this log already holds.
    pub fn seek_offsets_to_end(&self, slot: usize, topics: &mut Vec<(String, u8, [Cursor; 3])>)
        requires
            self.wf(),
            slot < 3,
        ensures
            final(topics)@.len() == old(topics)@.len(),
            forall|j: int|
                0 <= j < final(topics)@.len() ==> {
                    let (t, q, cs) = #[trigger] final(topics)@[j];
                    &&& t == old(topics)@[j].0
                    &&& q == old(topics)@[j].1
                    &&& cs@ == old(topics)@[j].2@.update(slot as int, self.tail_of(t@))
                },
    {
        let n = topics.len();
        let mut j: usize = 0;
        while j < n
            invariant
                self.wf(),
                slot < 3,
                0 <= j <= n,
                n == topics@.len(),
                topics@.len() == old(topics)@.len(),
                forall|k: int|
                    j <= k < n ==> #[trigger] topics@[k] == old(topics)@[k],
                forall|k: int|
                    0 <= k < j ==> {
                        let (t, q, cs) = #[trigger] topics@[k];
                        &&& t == old(topics)@[k].0
                        &&& q == old(topics)@[k].1
                        &&& cs@ == old(topics)@[k].2@.update(slot as int, self.tail_of(t@))
                    },
            decreases n - j,
        {
            let end = self.tail(&topics[j].0);
            topics[j].2[slot] = end;
            j += 1;
        }
    }

    fn find(&self, topic: &String) -> (r: Option<usize>)
        requires
            self.wf(),
        ensures
            match r {
                Some(i) => position_of(self.topics(), topic@) == Some(i as int) && i < self.logs@.len(),
                None => position_of(self.topics(), topic@) is None,
            },
    {
        let n = self.topics.len();
        let mut i: usize = 0;
        while i < n
            invariant
                0 <= i <= n,
                n == self.topics@.len(),
                self.wf(),
                forall|k: int| 0 <= k < i ==> self.topics()[k] != topic@,
            decreases n - i,
        {
            if self.topics[i] == *topic {
                proof {
                    assert(self.topics()[i as int] == self.topics@[i as int]@);
                    lemma_position_unique(self.topics(), topic@, i as int);
                }
                return Some(i);
            }
            i += 1;
        }
        None
    }

    /// Appends a record to topic `topic`, creating its log on first write. Returns
    /// whether the topic is new, and the segment base and offset of the record;
    /// `None`, with nothing changed, when the topic's log holds `u64::MAX` records.
    pub fn append(&mut self, topic: &String, payload: Vec<u8>) -> (r: Option<(bool, Cursor)>)
        requires
            old(self).wf(),
        ensures
            final(self).wf(),
            final(self).max_segment_size() == old(self).max_segment_size(),
            final(self).max_read() == old(self).max_read(),
            old(self).records_of(topic@).len() >= u64::MAX ==> r is None && *final(self) == *old(self),
            old(self).records_of(topic@).len() < u64::MAX ==> {
                &&& r is Some
                &&& r->Some_0.0 == (position_of(old(self).topics(), topic@) is None)
                &&& r->Some_0.0 == (old(self).records_of(topic@).len() == 0)
                &&& r->Some_0.1 == (final(self).log_of(topic@).last_base(), old(self).records_of(topic@).len() as u64)
                &&& r->Some_0.1.0 <= r->Some_0.1.1
                &&& final(self).topics() == if r->Some_0.0 {
                    old(self).topics().push(topic@)
                } else {
                    old(self).topics()
                }
                &&& final(self).topics().contains(topic@)
                &&& if r->Some_0.0 {
                    first_record(&final(self).log_of(topic@), old(self).max_segment_size(), payload@)
                } else {
                    appended(&old(self).log_of(topic@), &final(self).log_of(topic@), payload@)
                }
                &&& final(self).records_of(topic@) == old(self).records_of(topic@).push(payload@)
                &&& forall|t: Seq<char>| t != topic@ ==> final(self).records_of(t) == old(self).records_of(t)
                &&& forall|t: Seq<char>|
                    t != topic@ && old(self).topics().contains(t) ==> final(self).log_of(t) == old(self).log_of(t)
            },
    {
        match self.find(topic) {
            Some(i) => {
                if self.logs[i].len_exec() == u64::MAX {
                    assert(self.records_of(topic@).len() >= u64::MAX);
                    return None;
                }
                let c = self.logs[i].append(payload);
                proof {
                    assert(self.topics() == old(self).topics());
                    assert forall|t: Seq<char>| t != topic@ implies self.records_of(t) == old(
                        self,
                    ).records_of(t) by {
                        match position_of(self.topics(), t) {
                            Some(j) => {
                                assert(self.topics()[j] == t);
                                assert(j != i);
                            },
                            None => {},
                        }
                    }
                    assert forall|t: Seq<char>|
                        t != topic@ && old(self).topics().contains(t) implies self.log_of(t) == old(self).log_of(t) by {
                        let j = choose|j: int| 0 <= j < old(self).topics().len() && old(self).topics()[j] == t;
                        lemma_position_unique(old(self).topics(), t, j);
                        assert(j != i);
                    }
                    assert(old(self).records_of(topic@).len() > 0);
                }
                Some((false, c))
            },
            None => {
                let mut log = SegmentLog::new(self.max_segment_size);
                let c = log.append(payload);
                let name = topic.clone();
                self.topics.push(name);
                self.logs.push(log);
                proof {
                    let n = old(self).topics@.len() as int;
                    assert(self.topics() =~= old(self).topics().push(topic@));
                    assert(forall|k: int| 0 <= k < n ==> old(self).topics()[k] != topic@);
                    assert(unique(self.topics()));
                    lemma_position_unique(self.topics(), topic@, n);
                    assert(log.records() =~= Seq::<Seq<u8>>::empty().push(payload@));
                    assert(log.records() =~= seq![payload@]);
                    assert(self.log_of(topic@) == log);
                    assert(old(self).records_of(topic@).len() == 0);
                    assert forall|t: Seq<char>|
                        t != topic@ && old(self).topics().contains(t) implies self.log_of(t) == old(self).log_of(t) by {
                        let j = choose|j: int| 0 <= j < old(self).topics().len() && old(self).topics()[j] == t;
                        lemma_position_unique(old(self).topics(), t, j);
                        assert(self.topics()[j] == t);
                        lemma_position_unique(self.topics(), t, j);
                    }
                    assert forall|t: Seq<char>| t != topic@ implies self.records_of(t) == old(
                        self,
                    ).records_of(t) by {
                        match position_of(old(self).topics(), t) {
                            Some(j) => {
                                assert(old(self).topics()[j] == t);
                                assert(self.topics()[j] == t);
                                lemma_position_unique(self.topics(), t, j);
                            },
                            None => {
                                assert forall|k: int| 0 <= k < self.topics().len() implies self.topics()[k] != t by {
                                    if k < n {
                                        assert(self.topics()[k] == old(self).topics()[k]);
                                    }
                                }
                            },
                        }
                    }
                }
                Some((true, c))
            },
        }
    }
}

} // verus!
