use vstd::prelude::*;
use vstd::string::StrSliceExecFns;

verus! {

/// Whether a topic falls under an MQTT filter, as `mqtt4bytes::matches` decides it
/// (levels split on `/`, `+` one level, `#` the rest, `$` topics excluded).
pub uninterp spec fn topic_matches(topic: Seq<char>, filter: Seq<char>) -> bool;

/// A topic that `mqtt4bytes::matches` can take: empty, or starting with an ASCII
/// character (it slices the first byte off the topic).
pub open spec fn matchable(t: Seq<char>) -> bool {
    t.len() == 0 || (t[0] as u32) < 128
}

/// Topic `t` falls under filter `f`. A topic that does not start with an ASCII
/// character falls under no filter.
pub open spec fn takes(t: Seq<char>, f: Seq<char>) -> bool {
    matchable(t) && topic_matches(t, f)
}

/// A filter that holds `+` or `#`.
pub open spec fn is_wild(filter: Seq<char>) -> bool {
    filter.contains('+') || filter.contains('#')
}

/// Relies on `mqtt4bytes::matches`: whether `topic` falls under `filter`; the answer
/// depends on the two strings alone.
#[verifier::external_body]
fn filter_matches(topic: &str, filter: &str) -> (r: bool)
    requires
        matchable(topic@),
    ensures
        r == topic_matches(topic@, filter@),
{
    mqtt4bytes::matches(topic, filter)
}

/// Whether `topic` falls under `filter`; false for a topic that starts with a
/// character outside ASCII.
pub fn topic_takes(topic: &str, filter: &str) -> (r: bool)
    ensures
        r == takes(topic@, filter@),
{
    if topic.is_empty() || (topic.get_char(0) as u32) < 128 {
        filter_matches(topic, filter)
    } else {
        false
    }
}

/// Relies on `mqtt4bytes::has_wildcards`: true iff the string contains `+` or `#`.
#[verifier::external_body]
pub(crate) fn has_wildcards(s: &str) -> (r: bool)
    ensures
        r == is_wild(s@),
{
    mqtt4bytes::has_wildcards(s)
}

} // verus!
