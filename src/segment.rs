use vstd::prelude::*;

verus! {

/// Cursor into a segment log: (base offset of a segment, offset of the next record).
pub type Cursor = (u64, u64);

/// What one bulk read of a segment log produced, in mathematical form.
pub struct BatchView {
    pub jump: Option<u64>,
    pub base_offset: u64,
    pub record_offset: u64,
    pub payloads: Seq<Seq<u8>>,
}

/// One bulk read: the records read and where the next read resumes.
pub struct ReadBatch {
    /// Base of the next segment when the read finished a segment that is not the last.
    pub jump: Option<u64>,
    /// Base of the segment that was read.
    pub base_offset: u64,
    /// Offset of the record after the last one read.
    pub record_offset: u64,
    pub payloads: Vec<Vec<u8>>,
}

impl View for ReadBatch {
    type V = BatchView;

    open spec fn view(&self) -> BatchView {
        BatchView {
            jump: self.jump,
            base_offset: self.base_offset,
            record_offset: self.record_offset,
            payloads: payloads_view(self.payloads@),
        }
    }
}

pub open spec fn payloads_view(v: Seq<Vec<u8>>) -> Seq<Seq<u8>> {
    v.map_values(|r: Vec<u8>| r@)
}

/// The cursor from which the read after `b` resumes.
pub open spec fn next_cursor(b: BatchView) -> Cursor {
    match b.jump {
        Some(j) => (j, j),
        None => (b.base_offset, b.record_offset),
    }
}

/// Append-only storage of the records of one topic in one slot. Record offsets
/// are the positions in `records`; `bases` holds the base offset of each segment.
pub struct SegmentLog {
    records: Vec<Vec<u8>>,
    bases: Vec<u64>,
    active_size: u64,
    max_segment_size: u64,
}

impl SegmentLog {
    /// All records appended so far, in offset order.
    pub closed spec fn records(&self) -> Seq<Seq<u8>> {
        payloads_view(self.records@)
    }

    /// Base offsets of the segments, in order.
    pub closed spec fn bases(&self) -> Seq<u64> {
        self.bases@
    }

    /// Bytes held by the active (last) segment, saturated at `u64::MAX`.
    pub closed spec fn active_bytes(&self) -> u64 {
        self.active_size
    }

    pub closed spec fn max_segment_size(&self) -> u64 {
        self.max_segment_size
    }

    pub open spec fn len(&self) -> nat {
        self.records().len()
    }

    pub open spec fn last_base(&self) -> u64 {
        self.bases().last()
    }

    /// One past the last record offset of segment `i`.
    pub open spec fn seg_end(&self, i: int) -> int {
        if i + 1 < self.bases().len() {
            self.bases()[i + 1] as int
        } else {
            self.len() as int
        }
    }

    pub open spec fn wf(&self) -> bool {
        &&& self.bases().len() >= 1
        &&& self.bases()[0] == 0
        &&& forall|i: int, j: int|
            0 <= i < j < self.bases().len() ==> #[trigger] self.bases()[i] < #[trigger] self.bases()[j]
        &&& self.last_base() <= self.len()
        &&& self.len() <= u64::MAX
    }

    /// The segment whose base is `seg`.
    pub open spec fn index_of(&self, seg: u64) -> int {
        choose|i: int| 0 <= i < self.bases().len() && self.bases()[i] == seg
    }

    /// `(seg, off)` names a segment of the log and a position inside it or at its end.
    pub open spec fn valid_cursor(&self, c: Cursor) -> bool {
        &&& exists|i: int| 0 <= i < self.bases().len() && self.bases()[i] == c.0
        &&& c.0 <= c.1 <= self.seg_end(self.index_of(c.0))
    }

    /// The segment a read from a valid cursor takes its records from: the cursor's
    /// own, or the next one when the cursor stands at the end of a finished segment.
    pub open spec fn read_segment(&self, c: Cursor) -> int {
        let i0 = self.index_of(c.0);
        if c.1 == self.seg_end(i0) && i0 + 1 < self.bases().len() {
            i0 + 1
        } else {
            i0
        }
    }

    /// What `readv(c, max)` returns: up to `max` records from the cursor's position
    /// to the end of its segment, or nothing when there is none to read.
    pub open spec fn read_spec(&self, c: Cursor, max: usize) -> Option<BatchView> {
        if !self.valid_cursor(c) {
            None
        } else {
            let i = self.read_segment(c);
            let end = self.seg_end(i);
            let n = if end - c.1 < max { end - c.1 } else { max as int };
            if n <= 0 {
                None
            } else {
                let next = c.1 + n;
                Some(
                    BatchView {
                        jump: if next == end && i + 1 < self.bases().len() {
                            Some(self.bases()[i + 1])
                        } else {
                            None
                        },
                        base_offset: self.bases()[i],
                        record_offset: next as u64,
                        payloads: self.records().subrange(c.1 as int, next),
                    },
                )
            }
        }
    }

    /// The cursor at the tail of the log: a read from it returns nothing yet.
    pub open spec fn tail(&self) -> Cursor {
        (self.last_base(), self.len() as u64)
    }

    pub fn new(max_segment_size: u64) -> (r: SegmentLog)
        ensures
            r.wf(),
            r.records() == Seq::<Seq<u8>>::empty(),
            r.bases() == seq![0u64],
            r.active_bytes() == 0,
            r.max_segment_size() == max_segment_size,
    {
        let r = SegmentLog { records: Vec::new(), bases: vec![0u64], active_size: 0, max_segment_size };
        assert(r.records() =~= Seq::<Seq<u8>>::empty());
        r
    }

    pub fn tail_exec(&self) -> (r: Cursor)
        requires
            self.wf(),
        ensures
            r == self.tail(),
    {
        (self.bases[self.bases.len() - 1], self.records.len() as u64)
    }

    pub fn len_exec(&self) -> (r: u64)
        requires
            self.wf(),
        ensures
            r == self.len(),
    {
        self.records.len() as u64
    }

    /// `self` is `earlier` with records appended: what was there stays, and any
    /// segment added since starts at or after the earlier tail.
    pub open spec fn extends(&self, earlier: &SegmentLog) -> bool {
        &&& earlier.len() <= self.len()
        &&& self.records().subrange(0, earlier.len() as int) == earlier.records()
        &&& earlier.bases().len() <= self.bases().len()
        &&& self.bases().subrange(0, earlier.bases().len() as int) == earlier.bases()
        &&& forall|k: int|
            earlier.bases().len() <= k < self.bases().len() ==> #[trigger] self.bases()[k] >= earlier.len()
    }

    /// Appends a record. When the active segment holds records and at least
    /// `max_segment_size` bytes, a new segment starting at the new record is opened
    /// first. Returns the base of the segment that took the record and its offset.
    pub fn append(&mut self, payload: Vec<u8>) -> (r: Cursor)
        requires
            old(self).wf(),
            old(self).len() < u64::MAX,
        ensures
            appended(old(self), final(self), payload@),
            r == (final(self).last_base(), old(self).len() as u64),
            r.0 <= r.1,
    {
        let n = self.records.len() as u64;
        let last = self.bases[self.bases.len() - 1];
        if last < n && self.active_size >= self.max_segment_size {
            self.bases.push(n);
            self.active_size = 0;
        }
        let size = payload.len() as u64;
        self.active_size = self.active_size.saturating_add(size);
        self.records.push(payload);
        assert(self.records() =~= old(self).records().push(payload@));
        assert(self.records().subrange(0, old(self).len() as int) =~= old(self).records());
        assert(self.bases().subrange(0, old(self).bases().len() as int) =~= old(self).bases());
        (self.bases[self.bases.len() - 1], n)
    }

    proof fn lemma_index_of(&self, i: int)
        requires
            self.wf(),
            0 <= i < self.bases().len(),
        ensures
            self.index_of(self.bases()[i]) == i,
    {
        let j = self.index_of(self.bases()[i]);
        assert(0 <= j < self.bases().len() && self.bases()[j] == self.bases()[i]);
        if j < i {
            assert(self.bases()[j] < self.bases()[i]);
        } else if i < j {
            assert(self.bases()[i] < self.bases()[j]);
        }
    }

    /// Reads up to `max` records from cursor `c`; `None` when nothing is there to
    /// read or the cursor names no position of this log.
    pub fn readv(&self, c: Cursor, max: usize) -> (r: Option<ReadBatch>)
        requires
            self.wf(),
        ensures
            match r {
                Some(b) => self.read_spec(c, max) == Some(b@),
                None => self.read_spec(c, max) is None,
            },
    {
        let (seg, off) = c;
        let nb = self.bases.len();
        let mut i: usize = 0;
        while i < nb && self.bases[i] != seg
            invariant
                0 <= i <= nb,
                nb == self.bases@.len(),
                forall|k: int| 0 <= k < i ==> self.bases@[k] != seg,
            decreases nb - i,
        {
            i += 1;
        }
        if i == nb {
            return None;
        }
        proof {
            self.lemma_index_of(i as int);
        }
        let n_rec = self.records.len() as u64;
        let end0 = if i + 1 < nb {
            self.bases[i + 1]
        } else {
            n_rec
        };
        if off < seg || off > end0 {
            return None;
        }
        let mut i = i;
        let mut end = end0;
        if off == end0 && i + 1 < nb {
            i = i + 1;
            end = if i + 1 < nb {
                self.bases[i + 1]
            } else {
                n_rec
            };
            assert(off <= end) by {
                if (i + 1 < nb) {
                    assert(self.bases()[i as int] < self.bases()[i + 1]);
                }
            }
        }
        assert(i as int == self.read_segment(c));
        let avail = end - off;
        let n: u64 = if avail < max as u64 {
            avail
        } else {
            max as u64
        };
        if n == 0 {
            return None;
        }
        let next = off + n;
        let mut payloads: Vec<Vec<u8>> = Vec::new();
        let stop = next as usize;
        let mut k: usize = off as usize;
        while k < stop
            invariant
                self.wf(),
                off <= k <= stop, stop == next, next <= self.records@.len(),
                payloads_view(payloads@) == self.records().subrange(off as int, k as int),
            decreases stop - k,
        {
            let rec = self.records[k].clone();
            let ghost prev = payloads@;
            proof {
                assert(rec@ =~= self.records@[k as int]@);
            }
            payloads.push(rec);
            proof {
                assert(payloads@ == prev.push(rec));
                assert(payloads_view(payloads@) =~= payloads_view(prev).push(rec@));
                assert(self.records().subrange(off as int, k + 1) =~= self.records().subrange(
                    off as int,
                    k as int,
                ).push(self.records()[k as int]));
            }
            k += 1;
        }
        let jump = if next == end && i + 1 < nb {
            Some(self.bases[i + 1])
        } else {
            None
        };
        Some(ReadBatch { jump, base_offset: self.bases[i], record_offset: next, payloads })
    }
}

/// `after` is `before` with record `p` appended: when the active segment holds
/// records and at least `max_segment_size` bytes, a new segment starting at the
/// new record is opened first.
pub open spec fn appended(before: &SegmentLog, after: &SegmentLog, p: Seq<u8>) -> bool {
    let rolled = before.last_base() < before.len() && before.active_bytes() >= before.max_segment_size();
    let sum = (if rolled {
        0
    } else {
        before.active_bytes() as int
    }) + p.len();
    &&& after.wf()
    &&& after.extends(before)
    &&& after.records() == before.records().push(p)
    &&& after.max_segment_size() == before.max_segment_size()
    &&& after.bases() == if rolled {
        before.bases().push(before.len() as u64)
    } else {
        before.bases()
    }
    &&& after.active_bytes() == if sum > u64::MAX {
        u64::MAX as int
    } else {
        sum
    }
}

/// `log` is a log whose segments roll at `max` bytes holding record `p` alone, as
/// after its first append.
pub open spec fn first_record(log: &SegmentLog, max: u64, p: Seq<u8>) -> bool {
    &&& log.wf()
    &&& log.records() == seq![p]
    &&& log.bases() == seq![0u64]
    &&& log.max_segment_size() == max
    &&& log.active_bytes() == if p.len() > u64::MAX {
        u64::MAX as int
    } else {
        p.len() as int
    }
}

/// One read from a valid cursor returns the records from the cursor's position on,
/// in order, and leaves a valid cursor just past them; it returns nothing only at
/// the tail.
pub proof fn lemma_read_step(log: &SegmentLog, c: Cursor, max: usize)
    requires
        log.wf(),
        log.valid_cursor(c),
        max > 0,
    ensures
        (log.read_spec(c, max) is None) == (c.1 == log.len()),
        match log.read_spec(c, max) {
            None => c.1 == log.len(),
            Some(b) => {
                &&& b.payloads.len() > 0
                &&& log.valid_cursor(next_cursor(b))
                &&& next_cursor(b).1 == c.1 + b.payloads.len()
                &&& b.payloads == log.records().subrange(c.1 as int, next_cursor(b).1 as int)
            },
        },
{
    let nb = log.bases().len();
    let i0 = log.index_of(c.0);
    let i = log.read_segment(c);
    assert(0 <= i < nb);
    if i + 1 < nb {
        assert(log.bases()[i] < log.bases()[i + 1]);
        if i == i0 + 1 {
            assert(log.bases()[i0] < log.bases()[i]);
        }
    }
    if i == i0 + 1 {
        assert(log.bases()[i] <= log.seg_end(i));
    }
    if c.1 == log.len() && i + 1 < nb {
        assert(log.bases()[i + 1] <= log.last_base()) by {
            if i + 1 < nb - 1 {
                assert(log.bases()[i + 1] < log.bases()[nb - 1]);
            }
        }
        if i == i0 {
            assert(log.bases()[i0 + 1] <= log.len());
        }
    }
    match log.read_spec(c, max) {
        None => {},
        Some(b) => {
            let nc = next_cursor(b);
            match b.jump {
                Some(j) => {
                    log.lemma_index_of(i + 1);
                    if i + 2 < nb {
                        assert(log.bases()[i + 1] < log.bases()[i + 2]);
                    }
                },
                None => {
                    log.lemma_index_of(i);
                },
            }
            assert(log.valid_cursor(nc));
        },
    }
}

/// The records that `k` successive reads return, concatenated, each read starting
/// at the cursor that the previous one gave back.
pub open spec fn drain(log: &SegmentLog, c: Cursor, max: usize, k: nat) -> Seq<Seq<u8>>
    decreases k,
{
    if k == 0 {
        Seq::empty()
    } else {
        match log.read_spec(c, max) {
            None => Seq::empty(),
            Some(b) => b.payloads + drain(log, next_cursor(b), max, (k - 1) as nat),
        }
    }
}

/// Repeated reads from any valid cursor return, concatenated, exactly the
/// records from the cursor's position to the tail, once enough reads are made.
pub proof fn lemma_drain(log: &SegmentLog, c: Cursor, max: usize, k: nat)
    requires
        log.wf(),
        log.valid_cursor(c),
        max > 0,
        k >= log.len() - c.1,
    ensures
        drain(log, c, max, k) == log.records().subrange(c.1 as int, log.len() as int),
    decreases k,
{
    lemma_read_step(log, c, max);
    match log.read_spec(c, max) {
        None => {
            assert(log.records().subrange(c.1 as int, log.len() as int) =~= Seq::<Seq<u8>>::empty());
        },
        Some(b) => {
            let nc = next_cursor(b);
            lemma_drain(log, nc, max, (k - 1) as nat);
            assert(log.records().subrange(c.1 as int, log.len() as int) =~= log.records().subrange(
                c.1 as int,
                nc.1 as int,
            ) + log.records().subrange(nc.1 as int, log.len() as int));
        },
    }
}

/// Reading a log from its start, each read resuming where the previous one ended,
/// returns every appended record once, in append order: after as many reads as
/// there are records, the concatenated payloads are exactly the log's records.
pub proof fn lemma_reads_return_appended(log: &SegmentLog, max: usize)
    requires
        log.wf(),
        max > 0,
    ensures
        drain(log, (0, 0), max, log.len()) == log.records(),
{
    log.lemma_index_of(0);
    assert(log.bases()[0] <= log.seg_end(0)) by {
        if 1 < log.bases().len() {
            assert(log.bases()[0] < log.bases()[1]);
        }
    }
    lemma_drain(log, (0, 0), max, log.len());
    assert(log.records().subrange(0, log.len() as int) =~= log.records());
}

/// A cursor of a log stays valid in every log grown from it.
pub proof fn lemma_extends_keeps_cursor(earlier: &SegmentLog, later: &SegmentLog, c: Cursor)
    requires
        earlier.wf(),
        later.wf(),
        later.extends(earlier),
        earlier.valid_cursor(c),
    ensures
        later.valid_cursor(c),
{
    let i = earlier.index_of(c.0);
    earlier.lemma_index_of(i);
    assert(later.bases()[i] == earlier.bases()[i]) by {
        assert(later.bases().subrange(0, earlier.bases().len() as int)[i] == earlier.bases()[i]);
    }
    later.lemma_index_of(i);
    if i + 1 < earlier.bases().len() {
        assert(later.bases().subrange(0, earlier.bases().len() as int)[i + 1] == earlier.bases()[i + 1]);
    } else if i + 1 < later.bases().len() {
        assert(later.bases()[i + 1] >= earlier.len());
    }
}

/// Appending is a growth of the log that composes: a log grown from a grown log
/// is grown from the first.
pub proof fn lemma_extends_trans(a: &SegmentLog, b: &SegmentLog, c: &SegmentLog)
    requires
        b.extends(a),
        c.extends(b),
    ensures
        c.extends(a),
{
    assert(c.records().subrange(0, a.len() as int) =~= b.records().subrange(0, a.len() as int));
    assert(c.bases().subrange(0, a.bases().len() as int) =~= b.bases().subrange(
        0,
        a.bases().len() as int,
    ));
    assert forall|k: int| a.bases().len() <= k < c.bases().len() implies #[trigger] c.bases()[k] >= a.len() by {
        if k < b.bases().len() {
            assert(c.bases().subrange(0, b.bases().len() as int)[k] == b.bases()[k]);
        }
    }
}

/// A request resumed from the cursor of an earlier reply, on the log as it has
/// grown since, reads exactly the records after that reply, in order: all of them
/// once the reads are repeated as many times as the log has records. When the
/// reply had reached the tail, these are exactly the records appended after it.
pub proof fn lemma_resume_from_reply(
    earlier: &SegmentLog,
    later: &SegmentLog,
    c: Cursor,
    max: usize,
)
    requires
        earlier.wf(),
        later.wf(),
        later.extends(earlier),
        earlier.valid_cursor(c),
        max > 0,
        earlier.read_spec(c, max) is Some,
    ensures
        ({
            let r = next_cursor(earlier.read_spec(c, max)->Some_0);
            &&& drain(later, r, max, later.len()) == later.records().subrange(r.1 as int, later.len() as int)
            &&& r.1 == earlier.len() ==> drain(later, r, max, later.len()) == later.records().skip(
                earlier.len() as int,
            )
        }),
{
    lemma_read_step(earlier, c, max);
    let r = next_cursor(earlier.read_spec(c, max)->Some_0);
    lemma_extends_keeps_cursor(earlier, later, r);
    lemma_drain(later, r, max, later.len());
    assert(later.records().subrange(earlier.len() as int, later.len() as int) =~= later.records().skip(
        earlier.len() as int,
    ));
}

} // verus!
