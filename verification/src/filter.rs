//! Selection by time.

use vstd::prelude::*;

verus! {

/// A span of time: from the second `start` on, where there is one, to before the second `end`, where
/// there is one. Seconds count from the Unix epoch.
#[derive(Clone, Copy, Debug, PartialEq, Eq, Structural)]
pub struct DateFilter {
    pub start: Option<i64>,
    pub end: Option<i64>,
}

impl DateFilter {
    /// Whether the second `secs` lies in the span.
    pub open spec fn includes(self, secs: i64) -> bool {
        (self.start matches Some(start) ==> start <= secs) && (self.end matches Some(end) ==> secs
            < end)
    }

    /// The filter that lets everything pass.
    pub fn all() -> (filter: DateFilter)
        ensures
            forall|secs: i64| filter.includes(secs),
    {
        DateFilter { start: None, end: None }
    }

    /// Whether the second `secs` lies in the span.
    pub fn matches_unix_seconds(&self, secs: i64) -> (answer: bool)
        ensures
            answer == self.includes(secs),
    {
        let late_enough: bool = match self.start {
            Some(start) => start <= secs,
            None => true,
        };
        let early_enough: bool = match self.end {
            Some(end) => secs < end,
            None => true,
        };
        late_enough && early_enough
    }
}

/// A filter lets pass what lies at its start or later and before its end, and is open where it has no
/// start or no end.
pub proof fn filters_are_half_open(start: i64, end: i64, secs: i64)
    ensures
        (DateFilter { start: Some(start), end: Some(end) }).includes(secs) <==> start <= secs < end,
        (DateFilter { start: Some(start), end: None }).includes(secs) <==> start <= secs,
        (DateFilter { start: None, end: Some(end) }).includes(secs) <==> secs < end,
        (DateFilter { start: None, end: None }).includes(secs),
{
}

} // verus!
