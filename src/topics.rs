use vstd::prelude::*;

use crate::commitlog::unique;
use crate::subscriptions::strings;

verus! {

/// Every topic name this router has seen, in order of first appearance. A
/// subscriber polls it from the offset it has seen up to.
pub struct TopicsIndex {
    topics: Vec<String>,
}

impl TopicsIndex {
    pub closed spec fn topics(&self) -> Seq<Seq<char>> {
        strings(self.topics@)
    }

    pub closed spec fn wf(&self) -> bool {
        unique(self.topics())
    }

    pub fn new() -> (r: TopicsIndex)
        ensures
            r.wf(),
            r.topics() == Seq::<Seq<char>>::empty(),
    {
        let r = TopicsIndex { topics: Vec::new() };
        assert(r.topics() =~= Seq::<Seq<char>>::empty());
        r
    }

    /// Appends `topic` unless it is already there; returns whether it was appended.
    pub fn insert_if_new(&mut self, topic: &String) -> (r: bool)
        requires
            old(self).wf(),
        ensures
            final(self).wf(),
            r == !old(self).topics().contains(topic@),
            final(self).topics() == if r {
                old(self).topics().push(topic@)
            } else {
                old(self).topics()
            },
    {
        let n = self.topics.len();
        let mut i: usize = 0;
        while i < n
            invariant
                0 <= i <= n,
                n == self.topics@.len(),
                *self == *old(self),
                old(self).wf(),
                forall|k: int| 0 <= k < i ==> self.topics()[k] != topic@,
            decreases n - i,
        {
            if self.topics[i] == *topic {
                assert(self.topics()[i as int] == topic@);
                return false;
            }
            i += 1;
        }
        self.topics.push(topic.clone());
        assert(self.topics() =~= old(self).topics().push(topic@));
        true
    }

    /// Current length: the offset a subscriber resumes from once it has seen all.
    pub fn len(&self) -> (r: usize)
        ensures
            r == self.topics().len(),
    {
        self.topics.len()
    }

    /// The topics appended at or after `offset`, and the offset after the last.
    pub fn snapshot_from(&self, offset: usize) -> (r: (usize, Vec<String>))
        ensures
            r.0 == self.topics().len(),
            strings(r.1@) == if offset <= self.topics().len() {
                self.topics().subrange(offset as int, self.topics().len() as int)
            } else {
                Seq::<Seq<char>>::empty()
            },
    {
        let n = self.topics.len();
        let mut out: Vec<String> = Vec::new();
        let mut i: usize = offset;
        if i > n {
            i = n;
        }
        let ghost start = i as int;
        assert(strings(out@) =~= self.topics().subrange(start, start));
        while i < n
            invariant
                start <= i <= n,
                n == self.topics@.len(),
                offset <= n ==> start == offset,
                start == n || start == offset,
                strings(out@) == self.topics().subrange(start, i as int),
            decreases n - i,
        {
            let ghost prev = out@;
            out.push(self.topics[i].clone());
            assert(strings(out@) =~= strings(prev).push(self.topics()[i as int]));
            assert(self.topics().subrange(start, i + 1) =~= self.topics().subrange(start, i as int).push(
                self.topics()[i as int],
            ));
            i += 1;
        }
        proof {
            if offset > n {
                assert(strings(out@) =~= Seq::<Seq<char>>::empty());
            }
        }
        (n, out)
    }
}

} // verus!
