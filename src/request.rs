use vstd::prelude::*;

use crate::segment::{Cursor, payloads_view};

verus! {

/// Router settings.
pub struct Config {
    /// Router id in `0..3`; names the native slot.
    pub id: usize,
    /// Bytes after which a segment is closed and a new one opened.
    pub max_segment_size: u64,
    /// Retention bound of segments per topic.
    pub max_segment_count: usize,
    /// Admission bound on connections.
    pub max_connections: usize,
    /// Largest number of records that one read returns.
    pub max_payload_per_read: usize,
}

/// Request to read a topic, with one cursor per slot.
pub struct DataRequest {
    pub topic: String,
    pub cursors: [Cursor; 3],
}

impl DataRequest {
    /// A request that reads `topic` from the start of every slot.
    pub fn new(topic: String) -> (r: DataRequest)
        ensures
            r.topic == topic,
            r.cursors@ == seq![(0u64, 0u64), (0u64, 0u64), (0u64, 0u64)],
    {
        let r = DataRequest { topic, cursors: [(0, 0), (0, 0), (0, 0)] };
        assert(r.cursors@ =~= seq![(0u64, 0u64), (0u64, 0u64), (0u64, 0u64)]);
        r
    }
}

/// Records read for a request, and the cursors the next request resumes from.
#[derive(Debug)]
pub struct DataReply {
    pub topic: String,
    pub cursors: [Cursor; 3],
    pub payload: Vec<Vec<u8>>,
}

impl DataReply {
    pub open spec fn payloads(&self) -> Seq<Seq<u8>> {
        payloads_view(self.payload@)
    }
}

/// Request for the topics that appeared after `offset` in the topics index.
pub struct TopicsRequest {
    pub offset: usize,
}

impl TopicsRequest {
    pub fn offset(offset: usize) -> (r: TopicsRequest)
        ensures
            r.offset == offset,
    {
        TopicsRequest { offset }
    }
}

} // verus!
