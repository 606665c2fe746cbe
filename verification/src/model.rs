//! The data model: readings, per-metric series, per-provider groups, and the
//! well-formedness bounds that keep all arithmetic inside `i128`.

use vstd::prelude::*;

verus! {

/// One time-stamped numeric reading. The value is a fixed-point integer in
/// whatever scale the caller chose; the timestamp is in a consistent time
/// unit (typically milliseconds), non-decreasing within one series.
#[derive(Clone, Copy, Debug, PartialEq, Eq, Structural)]
pub struct Reading {
    pub value: i64,
    pub timestamp: u64,
}

/// A reading value small enough that sums and squares over a bounded series
/// stay inside `i128`.
pub open spec fn value_in_bounds(v: int) -> bool {
    -(crate::MAX_ABS_VALUE as int) <= v <= crate::MAX_ABS_VALUE as int
}

/// A well-formed series: bounded length, every value bounded.
pub open spec fn series_wf(s: Seq<Reading>) -> bool {
    &&& s.len() <= crate::MAX_SERIES_LEN as int
    &&& forall|i: int| 0 <= i < s.len() ==> value_in_bounds((#[trigger] s[i]).value as int)
}

} // verus!
