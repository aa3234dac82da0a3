//! How report generation reads the event log.
use vstd::prelude::*;

use crate::text::{chars_equal, to_chars};

verus! {

/// The kinds of records in the event log.
#[derive(Debug, Clone, Copy, PartialEq, Eq, Structural)]
pub enum EventKind {
    /// A sampled request result (`"request"`).
    Request,
    /// A periodic system snapshot (`"metric"`).
    Metric,
    /// Anything else, which reports ignore.
    Other,
}

/// The kind of a record whose `event_type` is `t`.
pub open spec fn event_kind_spec(t: Seq<char>) -> EventKind {
    if t == seq!['r', 'e', 'q', 'u', 'e', 's', 't'] {
        EventKind::Request
    } else if t == seq!['m', 'e', 't', 'r', 'i', 'c'] {
        EventKind::Metric
    } else {
        EventKind::Other
    }
}

/// Classifies a log record by its `event_type`.
pub fn event_kind(event_type: &str) -> (k: EventKind)
    ensures
        k == event_kind_spec(event_type@),
{
    let t = to_chars(event_type);
    let request: Vec<char> = vec!['r', 'e', 'q', 'u', 'e', 's', 't'];
    let metric: Vec<char> = vec!['m', 'e', 't', 'r', 'i', 'c'];
    if chars_equal(&t, &request) {
        EventKind::Request
    } else if chars_equal(&t, &metric) {
        EventKind::Metric
    } else {
        EventKind::Other
    }
}

} // verus!
