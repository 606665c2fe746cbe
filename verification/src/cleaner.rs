//! The series cleaner: walk a series in arrival order and classify each
//! reading as retained or as a duplicate of the last retained reading.
//!
//! A reading is a duplicate when it is both close in time (strictly less
//! than the jitter window) and close in value (strictly less than half the
//! series' standard deviation) to the last retained reading. The value test
//! is decided exactly on squares: with `n` readings and variance numerator
//! `var_num` (so `stddev == sqrt(var_num) / n`),
//! `delta < stddev / 2  <=>  4 * delta^2 * n^2 < var_num`.

use vstd::prelude::*;

use crate::model::Reading;
use crate::model::series_wf;
use crate::model::value_in_bounds;
use crate::stats::DispersionSummary;

verus! {

/// Jitter tolerance of a provider nominally sending at a fixed cadence: a
/// reading strictly closer in time than this to the last retained reading is
/// a duplicate candidate.
pub const DUPLICATE_TIME_WINDOW: u64 = 100;

/// Elapsed time from the last retained reading to the current one. A
/// timestamp that goes backwards is clamped to an elapsed time of zero: this
/// deliberately biases out-of-order pairs toward the duplicate side.
pub open spec fn time_delta_of(prev: u64, cur: u64) -> int {
    if cur >= prev {
        cur - prev
    } else {
        0
    }
}

/// Absolute difference of two values.
pub open spec fn value_delta_of(prev: int, cur: int) -> int {
    if cur >= prev {
        cur - prev
    } else {
        prev - cur
    }
}

/// The duplicate test against the last retained reading, calibrated by the
/// series' own dispersion: strictly within the time window and strictly
/// within half a standard deviation. With `delta = |cur - prev|` and
/// `stddev = sqrt(var_num) / count`, comparing squares gives
/// `delta < stddev / 2  <=>  4 * delta^2 * count^2 < var_num`, exactly.
pub open spec fn is_duplicate_of(prev: Reading, cur: Reading, count: int, var_num: int) -> bool {
    let delta = value_delta_of(prev.value as int, cur.value as int);
    &&& time_delta_of(prev.timestamp, cur.timestamp) < DUPLICATE_TIME_WINDOW
    &&& 4 * delta * delta * count * count < var_num
}

/// The state of one scan over a series: the readings retained so far, one
/// classification flag per reading seen (`true` = duplicate), the number of
/// duplicates, the length of the current duplicate run, the longest run so
/// far, and the last retained reading (`None` before the first).
pub struct ScanState {
    pub retained: Seq<Reading>,
    pub flags: Seq<bool>,
    pub dups: nat,
    pub run: nat,
    pub max_run: nat,
    pub prev: Option<Reading>,
}

/// The scan state before any reading has been seen.
pub open spec fn scan_init() -> ScanState {
    ScanState {
        retained: Seq::empty(),
        flags: Seq::empty(),
        dups: 0,
        run: 0,
        max_run: 0,
        prev: None,
    }
}

/// One step of the scan. The first reading of a series is always retained
/// and seeds the comparison state; afterwards a duplicate is suppressed
/// without advancing the comparison state, and a retained reading advances
/// it and breaks the current duplicate run.
pub open spec fn scan_step(st: ScanState, r: Reading, count: int, var_num: int) -> ScanState {
    match st.prev {
        None => ScanState {
            retained: st.retained.push(r),
            flags: st.flags.push(false),
            dups: st.dups,
            run: 0,
            max_run: st.max_run,
            prev: Some(r),
        },
        Some(p) => if is_duplicate_of(p, r, count, var_num) {
            ScanState {
                retained: st.retained,
                flags: st.flags.push(true),
                dups: st.dups + 1,
                run: st.run + 1,
                max_run: if st.run + 1 > st.max_run {
                    st.run + 1
                } else {
                    st.max_run
                },
                prev: st.prev,
            }
        } else {
            ScanState {
                retained: st.retained.push(r),
                flags: st.flags.push(false),
                dups: st.dups,
                run: 0,
                max_run: st.max_run,
                prev: Some(r),
            }
        },
    }
}

/// The scan of a whole series, reading by reading in arrival order, given
/// the series' reading count and variance numerator.
pub open spec fn scan_spec(s: Seq<Reading>, count: int, var_num: int) -> ScanState
    decreases s.len(),
{
    if s.len() == 0 {
        scan_init()
    } else {
        scan_step(scan_spec(s.drop_last(), count, var_num), s.last(), count, var_num)
    }
}

/// What cleaning one series produces: the cleaned series, how many readings
/// were suppressed as duplicates, and the longest consecutive duplicate run.
pub struct CleanOutcome {
    pub retained: Vec<Reading>,
    pub duplicates: u32,
    pub max_run: u32,
}

/// Decide whether `cur` is a duplicate of the last retained reading `prev`
/// under the dispersion of `summary`, exactly as `is_duplicate_of` states.
pub fn is_duplicate(prev: Reading, cur: Reading, summary: &DispersionSummary) -> (dup: bool)
    requires
        summary.wf(),
        value_in_bounds(prev.value as int),
        value_in_bounds(cur.value as int),
    ensures
        dup == is_duplicate_of(prev, cur, summary.count as int, summary.var_num as int),
{
    let time_delta: u64 = if cur.timestamp >= prev.timestamp {
        cur.timestamp - prev.timestamp
    } else {
        0
    };
    if time_delta >= DUPLICATE_TIME_WINDOW {
        return false;
    }
    let delta: i64 = if cur.value >= prev.value {
        cur.value - prev.value
    } else {
        prev.value - cur.value
    };
    proof {
        lemma_threshold_product_fits(delta as int, summary.count as int);
    }
    let lhs: i128 = 4 * (delta as i128) * (delta as i128) * (summary.count as i128) * (
    summary.count as i128);
    lhs < summary.var_num
}

/// Every intermediate product of the squared threshold test stays inside
/// `i128` when the value delta and the reading count are bounded.
proof fn lemma_threshold_product_fits(d: int, n: int)
    requires
        0 <= d <= 0x200_0000_0000,
        1 <= n <= 0x10_0000,
    ensures
        0 <= 4 * d <= 0x800_0000_0000,
        0 <= 4 * d * d <= 0x800_0000_0000 * 0x200_0000_0000,
        0 <= 4 * d * d * n <= 0x800_0000_0000 * 0x200_0000_0000 * 0x10_0000,
        0 <= 4 * d * d * n * n <= 0x800_0000_0000 * 0x200_0000_0000 * 0x10_0000 * 0x10_0000,
{
    assert(0 <= 4 * d * d <= 0x800_0000_0000 * 0x200_0000_0000) by (nonlinear_arith)
        requires
            0 <= d <= 0x200_0000_0000,
    ;
    assert(0 <= 4 * d * d * n <= 0x800_0000_0000 * 0x200_0000_0000 * 0x10_0000)
        by (nonlinear_arith)
        requires
            0 <= 4 * d * d <= 0x800_0000_0000 * 0x200_0000_0000,
            1 <= n <= 0x10_0000,
    ;
    assert(0 <= 4 * d * d * n * n <= 0x800_0000_0000 * 0x200_0000_0000 * 0x10_0000 * 0x10_0000)
        by (nonlinear_arith)
        requires
            0 <= 4 * d * d * n <= 0x800_0000_0000 * 0x200_0000_0000 * 0x10_0000,
            1 <= n <= 0x10_0000,
    ;
}

impl CleanOutcome {
    /// The outcome is exactly what the scan of `s` under the given
    /// dispersion produces.
    pub open spec fn is_scan_of(self, s: Seq<Reading>, count: int, var_num: int) -> bool {
        let st = scan_spec(s, count, var_num);
        &&& self.retained@ == st.retained
        &&& self.duplicates as nat == st.dups
        &&& self.max_run as nat == st.max_run
    }
}

/// Clean one series against its dispersion summary: retain the first
/// reading, then suppress every reading that is a duplicate of the last
/// retained one, counting duplicates and the longest duplicate run.
pub fn clean_series(readings: &Vec<Reading>, summary: &DispersionSummary) -> (outcome:
    CleanOutcome)
    requires
        series_wf(readings@),
        summary.wf(),
    ensures
        outcome.is_scan_of(readings@, summary.count as int, summary.var_num as int),
{
    let ghost n = summary.count as int;
    let ghost vn = summary.var_num as int;
    let mut retained: Vec<Reading> = Vec::new();
    let mut duplicates: u32 = 0;
    let mut run: u32 = 0;
    let mut max_run: u32 = 0;
    let mut prev: Option<Reading> = None;
    let mut i: usize = 0;
    while i < readings.len()
        invariant
            0 <= i <= readings@.len(),
            readings@.len() <= crate::MAX_SERIES_LEN,
            series_wf(readings@),
            summary.wf(),
            n == summary.count as int,
            vn == summary.var_num as int,
            retained@ == scan_spec(readings@.take(i as int), n, vn).retained,
            duplicates as nat == scan_spec(readings@.take(i as int), n, vn).dups,
            run as nat == scan_spec(readings@.take(i as int), n, vn).run,
            max_run as nat == scan_spec(readings@.take(i as int), n, vn).max_run,
            prev == scan_spec(readings@.take(i as int), n, vn).prev,
            prev matches Some(p) ==> value_in_bounds(p.value as int),
            duplicates as int <= i,
            run as int <= i,
            max_run as int <= i,
        decreases readings@.len() - i,
    {
        let r = readings[i];
        proof {
            assert(readings@.take(i + 1).drop_last() =~= readings@.take(i as int));
            assert(readings@.take(i + 1).last() == readings@[i as int]);
            assert(value_in_bounds(readings@[i as int].value as int));
        }
        match prev {
            None => {
                retained.push(r);
                prev = Some(r);
                run = 0;
            },
            Some(p) => {
                if is_duplicate(p, r, summary) {
                    duplicates = duplicates + 1;
                    run = run + 1;
                    if run > max_run {
                        max_run = run;
                    }
                } else {
                    retained.push(r);
                    prev = Some(r);
                    run = 0;
                }
            },
        }
        i = i + 1;
    }
    proof {
        assert(readings@.take(i as int) =~= readings@);
    }
    CleanOutcome { retained, duplicates, max_run }
}

} // verus!
