//! The per-provider pipeline: aggregate each metric series, clean it against
//! its own dispersion summary, and accumulate gap statistics per provider —
//! duplicates summed across the provider's metrics, duplicate runs compared
//! for the single longest one.

use vstd::prelude::*;

use crate::cleaner::ScanState;
use crate::cleaner::clean_series;
use crate::cleaner::scan_spec;
use crate::model::Reading;
use crate::model::series_wf;
use crate::stats::DispersionSummary;
use crate::stats::values_of;
use crate::stats::var_num_of;

verus! {

/// One metric's series within a provider.
#[derive(Debug)]
pub struct MetricSeries {
    pub key: u32,
    pub readings: Vec<Reading>,
}

/// All series of one provider, keyed uniquely by metric key.
#[derive(Debug)]
pub struct ProviderGroup {
    pub provider_id: u32,
    pub metrics: Vec<MetricSeries>,
}

/// All providers of one processing run, keyed uniquely by provider id.
#[derive(Debug)]
pub struct Batch {
    pub providers: Vec<ProviderGroup>,
}

/// Per-provider gap statistics: how many readings were suppressed as
/// duplicates across all the provider's metrics, and the single longest
/// consecutive duplicate run observed within any one metric's series.
#[derive(Clone, Copy, Debug, PartialEq, Eq, Structural)]
pub struct GapStatistics {
    pub total_gap_count: u32,
    pub max_gap_run: u32,
}

/// The gap statistics of one provider, by id.
#[derive(Clone, Copy, Debug, PartialEq, Eq, Structural)]
pub struct ProviderGaps {
    pub provider_id: u32,
    pub stats: GapStatistics,
}

/// Variance numerator of a series' own values.
pub open spec fn series_var_num(s: Seq<Reading>) -> int {
    var_num_of(values_of(s))
}

/// The scan of a series under its own dispersion summary.
pub open spec fn series_scan(s: Seq<Reading>) -> ScanState {
    scan_spec(s, s.len() as int, series_var_num(s))
}

/// The cleaned series: what the scan retains. An empty series stays empty.
pub open spec fn cleaned_of(s: Seq<Reading>) -> Seq<Reading> {
    series_scan(s).retained
}

/// How many readings of a series are suppressed as duplicates.
pub open spec fn dups_of(s: Seq<Reading>) -> nat {
    series_scan(s).dups
}

/// The longest consecutive duplicate run within one series.
pub open spec fn series_max_run_of(s: Seq<Reading>) -> nat {
    series_scan(s).max_run
}

/// Readings held by a sequence of metric series, in total.
pub open spec fn total_readings_of(metrics: Seq<MetricSeries>) -> nat
    decreases metrics.len(),
{
    if metrics.len() == 0 {
        0
    } else {
        total_readings_of(metrics.drop_last()) + metrics.last().readings@.len()
    }
}

/// Readings retained across a provider's metrics, in total.
pub open spec fn total_cleaned_of(metrics: Seq<MetricSeries>) -> nat
    decreases metrics.len(),
{
    if metrics.len() == 0 {
        0
    } else {
        total_cleaned_of(metrics.drop_last()) + cleaned_of(metrics.last().readings@).len()
    }
}

/// A provider's total gap count: duplicates summed across its metrics.
pub open spec fn total_gaps_of(metrics: Seq<MetricSeries>) -> nat
    decreases metrics.len(),
{
    if metrics.len() == 0 {
        0
    } else {
        total_gaps_of(metrics.drop_last()) + dups_of(metrics.last().readings@)
    }
}

/// A provider's longest duplicate run: the maximum over its metrics, never
/// summed across them.
pub open spec fn provider_max_run_of(metrics: Seq<MetricSeries>) -> nat
    decreases metrics.len(),
{
    if metrics.len() == 0 {
        0
    } else {
        let rest = provider_max_run_of(metrics.drop_last());
        let last = series_max_run_of(metrics.last().readings@);
        if last > rest {
            last
        } else {
            rest
        }
    }
}

impl ProviderGroup {
    /// Metric keys are unique within the provider.
    pub open spec fn keys_unique(self) -> bool {
        forall|i: int, j: int|
            0 <= i < j < self.metrics@.len() ==> (#[trigger] self.metrics@[i]).key != (
            #[trigger] self.metrics@[j]).key
    }

    /// A well-formed group: unique keys, every series bounded.
    pub open spec fn wf(self) -> bool {
        &&& self.keys_unique()
        &&& forall|i: int|
            0 <= i < self.metrics@.len() ==> series_wf((#[trigger] self.metrics@[i]).readings@)
    }
}

impl Batch {
    /// Provider ids are unique within the batch.
    pub open spec fn ids_unique(self) -> bool {
        forall|i: int, j: int|
            0 <= i < j < self.providers@.len() ==> (#[trigger] self.providers@[i]).provider_id != (
            #[trigger] self.providers@[j]).provider_id
    }

    /// A well-formed batch: unique provider ids, every group well-formed.
    pub open spec fn wf(self) -> bool {
        &&& self.ids_unique()
        &&& forall|i: int| 0 <= i < self.providers@.len() ==> (#[trigger] self.providers@[i]).wf()
    }
}

/// Gap conservation at the provider level: a provider's readings are exactly
/// its retained readings plus its total gap count, summed over its metrics.
pub proof fn lemma_provider_gap_conservation(metrics: Seq<MetricSeries>)
    ensures
        total_readings_of(metrics) == total_cleaned_of(metrics) + total_gaps_of(metrics),
    decreases metrics.len(),
{
    if metrics.len() == 0 {
    } else {
        lemma_provider_gap_conservation(metrics.drop_last());
        let s = metrics.last().readings@;
        crate::laws::lemma_gap_conservation(s, s.len() as int, series_var_num(s));
    }
}

/// Max-run correctness at the provider level: no metric's longest duplicate
/// run exceeds the provider's `max_gap_run`, and some one metric's longest
/// run equals it — runs from different metrics are compared for the
/// maximum, never summed.
pub proof fn lemma_provider_max_run_correct(metrics: Seq<MetricSeries>)
    ensures
        forall|m: int|
            0 <= m < metrics.len() ==> series_max_run_of((#[trigger] metrics[m]).readings@)
                <= provider_max_run_of(metrics),
        metrics.len() > 0 ==> exists|m: int|
            0 <= m < metrics.len() && series_max_run_of((#[trigger] metrics[m]).readings@)
                == provider_max_run_of(metrics),
    decreases metrics.len(),
{
    if metrics.len() == 0 {
    } else {
        lemma_provider_max_run_correct(metrics.drop_last());
        let t = metrics.drop_last();
        assert forall|m: int| 0 <= m < metrics.len() implies series_max_run_of(
            (#[trigger] metrics[m]).readings@,
        ) <= provider_max_run_of(metrics) by {
            if m < metrics.len() - 1 {
                assert(t[m] == metrics[m]);
            }
        }
        if t.len() == 0 || series_max_run_of(metrics.last().readings@) > provider_max_run_of(t) {
            assert(series_max_run_of((metrics[metrics.len() - 1]).readings@)
                == provider_max_run_of(metrics));
        } else {
            let w = choose|m: int|
                0 <= m < t.len() && series_max_run_of((#[trigger] t[m]).readings@)
                    == provider_max_run_of(t);
            assert(t[w] == metrics[w]);
            assert(series_max_run_of((metrics[w]).readings@) == provider_max_run_of(metrics));
        }
    }
}

/// A duplicate count never exceeds the readings counted over.
proof fn lemma_total_gaps_le_readings(metrics: Seq<MetricSeries>)
    ensures
        total_gaps_of(metrics) <= total_readings_of(metrics),
    decreases metrics.len(),
{
    if metrics.len() == 0 {
    } else {
        lemma_total_gaps_le_readings(metrics.drop_last());
        let s = metrics.last().readings@;
        crate::laws::lemma_scan_shape(s, s.len() as int, series_var_num(s));
    }
}

/// A prefix of the metrics holds at most as many readings as all of them.
proof fn lemma_total_readings_prefix(metrics: Seq<MetricSeries>, i: int)
    requires
        0 <= i <= metrics.len(),
    ensures
        total_readings_of(metrics.take(i)) <= total_readings_of(metrics),
    decreases metrics.len() - i,
{
    if i == metrics.len() {
        assert(metrics.take(i) =~= metrics);
    } else {
        lemma_total_readings_prefix(metrics, i + 1);
        assert(metrics.take(i + 1).drop_last() =~= metrics.take(i));
        assert(metrics.take(i + 1).last() == metrics[i]);
    }
}

/// Clean every metric series of one provider against that series' own
/// dispersion summary. An empty series has no summary and is skipped: it
/// stays empty in the output and contributes no gap. The provider's gap
/// statistics sum the duplicates of all its metrics and take the longest
/// single duplicate run among them.
pub fn clean_provider(group: &ProviderGroup) -> (out: (ProviderGroup, GapStatistics))
    requires
        group.wf(),
        total_readings_of(group.metrics@) < 0x1_0000_0000,
    ensures
        out.0.provider_id == group.provider_id,
        out.0.metrics@.len() == group.metrics@.len(),
        forall|i: int|
            0 <= i < group.metrics@.len() ==> (#[trigger] out.0.metrics@[i]).key
                == group.metrics@[i].key,
        forall|i: int|
            0 <= i < group.metrics@.len() ==> (#[trigger] out.0.metrics@[i]).readings@
                == cleaned_of(group.metrics@[i].readings@),
        out.1.total_gap_count as nat == total_gaps_of(group.metrics@),
        out.1.max_gap_run as nat == provider_max_run_of(group.metrics@),
{
    let mut cleaned: Vec<MetricSeries> = Vec::new();
    let mut total_gap_count: u32 = 0;
    let mut max_gap_run: u32 = 0;
    let mut i: usize = 0;
    while i < group.metrics.len()
        invariant
            0 <= i <= group.metrics@.len(),
            group.wf(),
            total_readings_of(group.metrics@) < 0x1_0000_0000,
            cleaned@.len() == i,
            forall|k: int|
                0 <= k < i ==> (#[trigger] cleaned@[k]).key == group.metrics@[k].key,
            forall|k: int|
                0 <= k < i ==> (#[trigger] cleaned@[k]).readings@ == cleaned_of(
                    group.metrics@[k].readings@,
                ),
            total_gap_count as nat == total_gaps_of(group.metrics@.take(i as int)),
            max_gap_run as nat == provider_max_run_of(group.metrics@.take(i as int)),
        decreases group.metrics@.len() - i,
    {
        proof {
            assert(group.metrics@.take(i + 1).drop_last() =~= group.metrics@.take(i as int));
            assert(group.metrics@.take(i + 1).last() == group.metrics@[i as int]);
            assert(series_wf(group.metrics@[i as int].readings@));
            lemma_total_gaps_le_readings(group.metrics@.take(i + 1));
            lemma_total_readings_prefix(group.metrics@, i + 1);
        }
        let m = &group.metrics[i];
        match DispersionSummary::aggregate(&m.readings) {
            Ok(summary) => {
                let outcome = clean_series(&m.readings, &summary);
                proof {
                    assert(summary.count as int == m.readings@.len() as int);
                    assert(summary.var_num as int == series_var_num(m.readings@));
                }
                cleaned.push(MetricSeries { key: m.key, readings: outcome.retained });
                total_gap_count = total_gap_count + outcome.duplicates;
                if outcome.max_run > max_gap_run {
                    max_gap_run = outcome.max_run;
                }
            },
            Err(_) => {
                cleaned.push(MetricSeries { key: m.key, readings: Vec::new() });
            },
        }
        i = i + 1;
    }
    proof {
        assert(group.metrics@.take(i as int) =~= group.metrics@);
    }
    (
        ProviderGroup { provider_id: group.provider_id, metrics: cleaned },
        GapStatistics { total_gap_count, max_gap_run },
    )
}

/// Clean a whole batch: every provider independently, every metric series
/// against its own dispersion summary. Returns the cleaned batch and, per
/// provider in the same order, the provider's gap statistics. One empty
/// series never disturbs sibling metrics or other providers.
pub fn clean_batch(batch: &Batch) -> (out: (Batch, Vec<ProviderGaps>))
    requires
        batch.wf(),
        forall|g: int|
            0 <= g < batch.providers@.len() ==> total_readings_of(
                (#[trigger] batch.providers@[g]).metrics@,
            ) < 0x1_0000_0000,
    ensures
        out.0.providers@.len() == batch.providers@.len(),
        out.1@.len() == batch.providers@.len(),
        forall|g: int|
            0 <= g < batch.providers@.len() ==> {
                let group = #[trigger] batch.providers@[g];
                &&& out.0.providers@[g].provider_id == group.provider_id
                &&& out.0.providers@[g].metrics@.len() == group.metrics@.len()
                &&& (forall|i: int|
                    0 <= i < group.metrics@.len() ==> (#[trigger] out.0.providers@[g].metrics@[i]).key
                        == group.metrics@[i].key)
                &&& (forall|i: int|
                    0 <= i < group.metrics@.len() ==> (
                    #[trigger] out.0.providers@[g].metrics@[i]).readings@ == cleaned_of(
                        group.metrics@[i].readings@,
                    ))
                &&& out.1@[g].provider_id == group.provider_id
                &&& out.1@[g].stats.total_gap_count as nat == total_gaps_of(group.metrics@)
                &&& out.1@[g].stats.max_gap_run as nat == provider_max_run_of(group.metrics@)
            },
{
    let mut providers: Vec<ProviderGroup> = Vec::new();
    let mut gaps: Vec<ProviderGaps> = Vec::new();
    let mut g: usize = 0;
    while g < batch.providers.len()
        invariant
            0 <= g <= batch.providers@.len(),
            batch.wf(),
            forall|k: int|
                0 <= k < batch.providers@.len() ==> total_readings_of(
                    (#[trigger] batch.providers@[k]).metrics@,
                ) < 0x1_0000_0000,
            providers@.len() == g,
            gaps@.len() == g,
            forall|k: int|
                0 <= k < g ==> {
                    let group = #[trigger] batch.providers@[k];
                    &&& providers@[k].provider_id == group.provider_id
                    &&& providers@[k].metrics@.len() == group.metrics@.len()
                    &&& (forall|i: int|
                        0 <= i < group.metrics@.len() ==> (#[trigger] providers@[k].metrics@[i]).key
                            == group.metrics@[i].key)
                    &&& (forall|i: int|
                        0 <= i < group.metrics@.len() ==> (
                        #[trigger] providers@[k].metrics@[i]).readings@ == cleaned_of(
                            group.metrics@[i].readings@,
                        ))
                    &&& gaps@[k].provider_id == group.provider_id
                    &&& gaps@[k].stats.total_gap_count as nat == total_gaps_of(group.metrics@)
                    &&& gaps@[k].stats.max_gap_run as nat == provider_max_run_of(group.metrics@)
                },
        decreases batch.providers@.len() - g,
    {
        let group = &batch.providers[g];
        let (cleaned_group, stats) = clean_provider(group);
        gaps.push(ProviderGaps { provider_id: group.provider_id, stats });
        providers.push(cleaned_group);
        g = g + 1;
    }
    (Batch { providers }, gaps)
}

} // verus!
