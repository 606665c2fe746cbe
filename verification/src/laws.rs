//! Laws of the series cleaner, proved once for every series, every
//! dispersion summary, and every duplicate classification the scan can make.

use vstd::prelude::*;

use crate::cleaner::DUPLICATE_TIME_WINDOW;
use crate::cleaner::ScanState;
use crate::cleaner::is_duplicate_of;
use crate::cleaner::scan_spec;
use crate::cleaner::scan_step;
use crate::cleaner::time_delta_of;
use crate::cleaner::value_delta_of;
use crate::model::Reading;

verus! {

/// How many readings a scan flagged as duplicates.
pub open spec fn count_trues(flags: Seq<bool>) -> nat
    decreases flags.len(),
{
    if flags.len() == 0 {
        0
    } else {
        count_trues(flags.drop_last()) + if flags.last() {
            1nat
        } else {
            0nat
        }
    }
}

/// Bookkeeping shape of every scan: one flag per reading, every reading
/// either retained or counted as a duplicate, the duplicate count is the
/// number of raised flags, and no run outgrows the series.
pub proof fn lemma_scan_shape(s: Seq<Reading>, count: int, var_num: int)
    ensures
        scan_spec(s, count, var_num).flags.len() == s.len(),
        scan_spec(s, count, var_num).retained.len() + scan_spec(s, count, var_num).dups == s.len(),
        scan_spec(s, count, var_num).dups == count_trues(scan_spec(s, count, var_num).flags),
        scan_spec(s, count, var_num).run <= scan_spec(s, count, var_num).max_run,
        scan_spec(s, count, var_num).max_run <= s.len(),
        scan_spec(s, count, var_num).dups <= s.len(),
    decreases s.len(),
{
    if s.len() == 0 {
    } else {
        lemma_scan_shape(s.drop_last(), count, var_num);
        let flags = scan_spec(s.drop_last(), count, var_num).flags;
        assert(flags.push(true).drop_last() =~= flags);
        assert(flags.push(false).drop_last() =~= flags);
    }
}

/// Gap conservation: the length of the input series equals the length of the
/// cleaned series plus the number of readings classified as duplicates.
pub proof fn lemma_gap_conservation(s: Seq<Reading>, count: int, var_num: int)
    ensures
        scan_spec(s, count, var_num).retained.len() + scan_spec(s, count, var_num).dups == s.len(),
{
    lemma_scan_shape(s, count, var_num);
}

/// `a` can be obtained from `b` by deleting readings only: no reordering, no
/// insertion.
pub open spec fn is_subsequence_of(a: Seq<Reading>, b: Seq<Reading>) -> bool
    decreases a.len() + b.len(),
{
    if a.len() == 0 {
        true
    } else if b.len() == 0 {
        false
    } else {
        ||| (a.last() == b.last() && is_subsequence_of(a.drop_last(), b.drop_last()))
        ||| is_subsequence_of(a, b.drop_last())
    }
}

/// Appending to the right of the longer sequence keeps a subsequence.
proof fn lemma_subsequence_push_right(a: Seq<Reading>, b: Seq<Reading>, x: Reading)
    requires
        is_subsequence_of(a, b),
    ensures
        is_subsequence_of(a, b.push(x)),
{
    assert(b.push(x).drop_last() =~= b);
    if a.len() == 0 {
    } else {
        assert(is_subsequence_of(a, b.push(x).drop_last()));
    }
}

/// Appending the same reading to both sides keeps a subsequence.
proof fn lemma_subsequence_push_both(a: Seq<Reading>, b: Seq<Reading>, x: Reading)
    requires
        is_subsequence_of(a, b),
    ensures
        is_subsequence_of(a.push(x), b.push(x)),
{
    assert(a.push(x).drop_last() =~= a);
    assert(b.push(x).drop_last() =~= b);
    assert(a.push(x).last() == b.push(x).last());
}

/// Order preservation, first half: the cleaned series is a subsequence of
/// the input series — duplicates are deleted, nothing is inserted or moved.
pub proof fn lemma_cleaned_is_subsequence(s: Seq<Reading>, count: int, var_num: int)
    ensures
        is_subsequence_of(scan_spec(s, count, var_num).retained, s),
    decreases s.len(),
{
    if s.len() == 0 {
    } else {
        lemma_cleaned_is_subsequence(s.drop_last(), count, var_num);
        let st = scan_spec(s.drop_last(), count, var_num);
        let r = s.last();
        assert(s.drop_last().push(r) =~= s);
        match st.prev {
            None => {
                lemma_subsequence_push_both(st.retained, s.drop_last(), r);
            },
            Some(p) => {
                if is_duplicate_of(p, r, count, var_num) {
                    lemma_subsequence_push_right(st.retained, s.drop_last(), r);
                } else {
                    lemma_subsequence_push_both(st.retained, s.drop_last(), r);
                }
            },
        }
    }
}

/// Timestamps never decrease along the sequence.
pub open spec fn timestamps_non_decreasing(s: Seq<Reading>) -> bool {
    forall|i: int, j: int|
        0 <= i <= j < s.len() ==> (#[trigger] s[i]).timestamp <= (#[trigger] s[j]).timestamp
}

/// Dropping the last reading keeps timestamps non-decreasing.
proof fn lemma_sorted_drop_last(b: Seq<Reading>)
    requires
        timestamps_non_decreasing(b),
        b.len() > 0,
    ensures
        timestamps_non_decreasing(b.drop_last()),
{
    assert forall|i: int, j: int| 0 <= i <= j < b.drop_last().len() implies (#[trigger] b.drop_last()[i]).timestamp
        <= (#[trigger] b.drop_last()[j]).timestamp by {
        assert(b.drop_last()[i] == b[i]);
        assert(b.drop_last()[j] == b[j]);
    }
}

/// A subsequence of a series with non-decreasing timestamps has
/// non-decreasing timestamps itself, and its last reading is no later than
/// the last reading it was drawn from.
proof fn lemma_subsequence_keeps_order(a: Seq<Reading>, b: Seq<Reading>)
    requires
        is_subsequence_of(a, b),
        timestamps_non_decreasing(b),
    ensures
        timestamps_non_decreasing(a),
        a.len() > 0 ==> b.len() > 0 && a.last().timestamp <= b.last().timestamp,
    decreases a.len() + b.len(),
{
    if a.len() == 0 {
    } else {
        lemma_sorted_drop_last(b);
        if a.last() == b.last() && is_subsequence_of(a.drop_last(), b.drop_last()) {
            lemma_subsequence_keeps_order(a.drop_last(), b.drop_last());
            assert forall|i: int, j: int| 0 <= i <= j < a.len() implies (#[trigger] a[i]).timestamp
                <= (#[trigger] a[j]).timestamp by {
                if j < a.len() - 1 {
                    assert(a.drop_last()[i] == a[i]);
                    assert(a.drop_last()[j] == a[j]);
                } else if i < j {
                    assert(a.drop_last()[i] == a[i]);
                    assert(a.drop_last()[a.len() - 2] == a[a.len() - 2]);
                    assert(a[i].timestamp <= a.drop_last().last().timestamp);
                    assert(b.drop_last().last().timestamp <= b.last().timestamp) by {
                        assert(b.drop_last()[b.len() - 2] == b[b.len() - 2]);
                    }
                }
            }
        } else {
            assert(is_subsequence_of(a, b.drop_last()));
            lemma_subsequence_keeps_order(a, b.drop_last());
            assert(b.drop_last().last().timestamp <= b.last().timestamp) by {
                assert(b.drop_last()[b.len() - 2] == b[b.len() - 2]);
            }
        }
    }
}

/// Order preservation: the cleaned series is a subsequence of the input, and
/// when the input's timestamps never decrease, no cleaned reading carries a
/// timestamp earlier than a reading before it.
pub proof fn lemma_order_preservation(s: Seq<Reading>, count: int, var_num: int)
    requires
        timestamps_non_decreasing(s),
    ensures
        is_subsequence_of(scan_spec(s, count, var_num).retained, s),
        timestamps_non_decreasing(scan_spec(s, count, var_num).retained),
{
    lemma_cleaned_is_subsequence(s, count, var_num);
    lemma_subsequence_keeps_order(scan_spec(s, count, var_num).retained, s);
}

/// The flags hold an unbroken run of raised flags of length `len` starting
/// at `start`.
pub open spec fn true_run_at(flags: Seq<bool>, start: int, len: int) -> bool {
    &&& 0 <= start
    &&& 0 <= len
    &&& start + len <= flags.len()
    &&& forall|j: int| start <= j < start + len ==> #[trigger] flags[j]
}

/// The flags hold some unbroken run of raised flags of length `len`.
pub open spec fn has_true_run(flags: Seq<bool>, len: int) -> bool {
    exists|start: int| #[trigger] true_run_at(flags, start, len)
}

/// A run survives appending a flag on the right.
proof fn lemma_true_run_push(flags: Seq<bool>, x: bool, k: int)
    requires
        has_true_run(flags, k),
    ensures
        has_true_run(flags.push(x), k),
{
    let start = choose|start: int| true_run_at(flags, start, k);
    assert forall|j: int| start <= j < start + k implies #[trigger] flags.push(x)[j] by {
        assert(flags[j]);
    }
    assert(true_run_at(flags.push(x), start, k));
}

/// The run bookkeeping a scan maintains: the current run is exactly the
/// unbroken block of raised flags at the end (bounded on its left by a
/// lowered flag or the start), and `max_run` is the length of the longest
/// unbroken block anywhere — a block of length `k` exists if and only if
/// `k <= max_run`.
pub open spec fn run_bookkeeping_ok(st: ScanState) -> bool {
    &&& st.run <= st.flags.len()
    &&& (forall|j: int| st.flags.len() - st.run <= j < st.flags.len() ==> #[trigger] st.flags[j])
    &&& (st.run < st.flags.len() ==> !st.flags[st.flags.len() - st.run - 1])
    &&& st.run <= st.max_run
    &&& (forall|k: int| 0 <= k ==> (#[trigger] has_true_run(st.flags, k) <==> k <= st.max_run))
}

/// A step that retains a reading lowers a flag and resets the current run;
/// every unbroken block of the new flags avoids the new last position, so
/// the longest block is unchanged.
proof fn lemma_bookkeeping_push_false(st: ScanState, st2: ScanState)
    requires
        run_bookkeeping_ok(st),
        st2.flags == st.flags.push(false),
        st2.run == 0,
        st2.max_run == st.max_run,
    ensures
        run_bookkeeping_ok(st2),
{
    let flags = st.flags;
    let len = flags.len() as int;
    assert(!st2.flags[len]);
    assert forall|k: int| 0 <= k implies (#[trigger] has_true_run(st2.flags, k) <==> k
        <= st2.max_run) by {
        if k <= st2.max_run {
            assert(has_true_run(flags, k));
            lemma_true_run_push(flags, false, k);
        }
        if has_true_run(st2.flags, k) && k > 0 {
            let start = choose|start: int| true_run_at(st2.flags, start, k);
            if start + k <= len {
                assert forall|j: int| start <= j < start + k implies #[trigger] flags[j] by {
                    assert(st2.flags[j]);
                }
                assert(true_run_at(flags, start, k));
                assert(has_true_run(flags, k));
                assert(k <= st.max_run);
            } else {
                assert(st2.flags[len]);
                assert(false);
            }
        }
    }
}

/// A step that suppresses a duplicate raises a flag: the trailing block
/// grows by one, and the longest block is the larger of the old longest and
/// the grown trailing block.
proof fn lemma_bookkeeping_push_true(st: ScanState, st2: ScanState)
    requires
        run_bookkeeping_ok(st),
        st2.flags == st.flags.push(true),
        st2.run == st.run + 1,
        st2.max_run == if st.run + 1 > st.max_run {
            st.run + 1
        } else {
            st.max_run
        },
    ensures
        run_bookkeeping_ok(st2),
{
    let flags = st.flags;
    let len = flags.len() as int;
    let run = st.run as int;
    assert forall|j: int| st2.flags.len() - st2.run <= j < st2.flags.len() implies #[trigger] st2.flags[j] by {
        if j < len {
            assert(flags[j]);
        }
    }
    assert forall|k: int| 0 <= k implies (#[trigger] has_true_run(st2.flags, k) <==> k
        <= st2.max_run) by {
        if k <= st2.max_run {
            if k <= st.max_run {
                assert(has_true_run(flags, k));
                lemma_true_run_push(flags, true, k);
            } else {
                assert(k <= run + 1);
                assert forall|j: int| len + 1 - k <= j < len + 1 implies #[trigger] st2.flags[j] by {
                    if j < len {
                        assert(flags[j]);
                    }
                }
                assert(true_run_at(st2.flags, len + 1 - k, k));
            }
        }
        if has_true_run(st2.flags, k) && k > 0 {
            let start = choose|start: int| true_run_at(st2.flags, start, k);
            if start + k <= len {
                assert forall|j: int| start <= j < start + k implies #[trigger] flags[j] by {
                    assert(st2.flags[j]);
                }
                assert(true_run_at(flags, start, k));
                assert(has_true_run(flags, k));
                assert(k <= st.max_run);
            } else {
                if start < len - run {
                    assert(run < len);
                    assert(st2.flags[len - run - 1]);
                    assert(!flags[len - run - 1]);
                    assert(false);
                }
                assert(k <= run + 1);
            }
        }
    }
}

/// Every scan keeps its run bookkeeping.
proof fn lemma_scan_run_bookkeeping(s: Seq<Reading>, count: int, var_num: int)
    ensures
        run_bookkeeping_ok(scan_spec(s, count, var_num)),
    decreases s.len(),
{
    if s.len() == 0 {
        let flags = scan_spec(s, count, var_num).flags;
        assert forall|k: int| 0 <= k implies (#[trigger] has_true_run(flags, k) <==> k <= 0) by {
            if has_true_run(flags, k) {
                let start = choose|start: int| true_run_at(flags, start, k);
                assert(start + k <= 0);
            }
            if k == 0 {
                assert(true_run_at(flags, 0, 0));
            }
        }
    } else {
        lemma_scan_run_bookkeeping(s.drop_last(), count, var_num);
        let st = scan_spec(s.drop_last(), count, var_num);
        let st2 = scan_step(st, s.last(), count, var_num);
        match st.prev {
            None => {
                lemma_bookkeeping_push_false(st, st2);
            },
            Some(p) => {
                if is_duplicate_of(p, s.last(), count, var_num) {
                    lemma_bookkeeping_push_true(st, st2);
                } else {
                    lemma_bookkeeping_push_false(st, st2);
                }
            },
        }
    }
}

/// Max-run correctness: a scan's `max_run` is exactly the length of the
/// longest unbroken run of duplicate-classified readings — a run of length
/// `k` exists in the scan's classification if and only if `k <= max_run`,
/// and a run broken by even one retained reading is not one run.
pub proof fn lemma_max_run_correct(s: Seq<Reading>, count: int, var_num: int)
    ensures
        forall|k: int|
            0 <= k ==> (#[trigger] has_true_run(scan_spec(s, count, var_num).flags, k) <==> k
                <= scan_spec(s, count, var_num).max_run),
{
    lemma_scan_run_bookkeeping(s, count, var_num);
}

/// Threshold boundary in time: a reading whose elapsed time since the last
/// retained reading is exactly the jitter window — or more — is never a
/// duplicate; the comparison is strict.
pub proof fn lemma_time_threshold_boundary(prev: Reading, cur: Reading, count: int, var_num: int)
    requires
        time_delta_of(prev.timestamp, cur.timestamp) >= DUPLICATE_TIME_WINDOW,
    ensures
        !is_duplicate_of(prev, cur, count, var_num),
{
}

/// Threshold boundary in value: a reading whose value delta is exactly half
/// the standard deviation — `4 * delta^2 * count^2 == var_num` says
/// `delta == stddev / 2` exactly — or more is never a duplicate; the
/// comparison is strict.
pub proof fn lemma_value_threshold_boundary(prev: Reading, cur: Reading, count: int, var_num: int)
    requires
        4 * value_delta_of(prev.value as int, cur.value as int) * value_delta_of(
            prev.value as int,
            cur.value as int,
        ) * count * count >= var_num,
    ensures
        !is_duplicate_of(prev, cur, count, var_num),
{
}

} // verus!
