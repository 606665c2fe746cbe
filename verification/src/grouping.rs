//! Grouping scaffolding: fold a flat, already-parsed stream of records into
//! per-provider, per-metric series, in arrival order, with provider ids and
//! metric keys unique and every record landing in exactly one series.

use vstd::prelude::*;

use crate::model::Reading;
use crate::model::series_wf;
use crate::model::value_in_bounds;
use crate::pipeline::Batch;
use crate::pipeline::MetricSeries;
use crate::pipeline::ProviderGroup;
use crate::pipeline::total_readings_of;

verus! {

/// One already-parsed numeric record: which provider, which metric, the
/// fixed-point value and the timestamp. Non-numeric payloads are excluded
/// upstream and never reach this engine.
#[derive(Clone, Copy, Debug, PartialEq, Eq, Structural)]
pub struct RawReading {
    pub provider_id: u32,
    pub key: u32,
    pub value: i64,
    pub timestamp: u64,
}

/// The reading a record carries.
pub open spec fn reading_of(r: RawReading) -> Reading {
    Reading { value: r.value, timestamp: r.timestamp }
}

/// The record belongs to the series of `(pid, key)`.
pub open spec fn matches_pair(r: RawReading, pid: u32, key: u32) -> bool {
    r.provider_id == pid && r.key == key
}

/// The series of `(pid, key)`: the readings of exactly the records with that
/// provider id and key, in arrival order.
pub open spec fn readings_for(records: Seq<RawReading>, pid: u32, key: u32) -> Seq<Reading>
    decreases records.len(),
{
    if records.len() == 0 {
        Seq::empty()
    } else {
        let rest = readings_for(records.drop_last(), pid, key);
        if matches_pair(records.last(), pid, key) {
            rest.push(reading_of(records.last()))
        } else {
            rest
        }
    }
}

/// Some record belongs to the series of `(pid, key)`.
pub open spec fn has_pair(records: Seq<RawReading>, pid: u32, key: u32) -> bool {
    exists|j: int| 0 <= j < records.len() && matches_pair(#[trigger] records[j], pid, key)
}

/// Some group holds a series for `(pid, key)`.
pub open spec fn providers_have_pair(providers: Seq<ProviderGroup>, pid: u32, key: u32) -> bool {
    exists|g: int, m: int|
        {
            &&& 0 <= g < providers.len()
            &&& 0 <= m < providers[g].metrics@.len()
            &&& providers[g].provider_id == pid
            &&& (#[trigger] providers[g].metrics@[m]).key == key
        }
}

/// Provider ids unique, and within each group metric keys unique and every
/// series bounded.
pub open spec fn providers_wf(providers: Seq<ProviderGroup>) -> bool {
    &&& (forall|a: int, b: int|
        0 <= a < b < providers.len() ==> (#[trigger] providers[a]).provider_id != (
        #[trigger] providers[b]).provider_id)
    &&& (forall|g: int| 0 <= g < providers.len() ==> (#[trigger] providers[g]).wf())
}

/// What grouping maintains after folding the first `i` records: the groups
/// are well-formed, every series is exactly the series of its pair over the
/// records seen, every series' pair occurs in the records seen, every record
/// seen has its series, and no group holds more readings than records seen.
pub open spec fn grouping_inv(providers: Seq<ProviderGroup>, records: Seq<RawReading>, i: int) -> bool {
    &&& providers_wf(providers)
    &&& (forall|g: int, m: int|
        0 <= g < providers.len() && 0 <= m < providers[g].metrics@.len() ==> (
        #[trigger] providers[g].metrics@[m]).readings@ == readings_for(
            records.take(i),
            providers[g].provider_id,
            providers[g].metrics@[m].key,
        ))
    &&& (forall|g: int, m: int|
        0 <= g < providers.len() && 0 <= m < providers[g].metrics@.len() ==> has_pair(
            records.take(i),
            providers[g].provider_id,
            (#[trigger] providers[g].metrics@[m]).key,
        ))
    &&& (forall|j: int|
        0 <= j < i ==> providers_have_pair(
            providers,
            (#[trigger] records[j]).provider_id,
            records[j].key,
        ))
    &&& (forall|g: int|
        0 <= g < providers.len() ==> total_readings_of((#[trigger] providers[g]).metrics@) <= i)
}

/// A series never outgrows the records it is drawn from.
pub proof fn lemma_readings_for_len(records: Seq<RawReading>, pid: u32, key: u32)
    ensures
        readings_for(records, pid, key).len() <= records.len(),
    decreases records.len(),
{
    if records.len() == 0 {
    } else {
        lemma_readings_for_len(records.drop_last(), pid, key);
    }
}

/// When no record belongs to `(pid, key)`, its series is empty.
proof fn lemma_readings_for_absent(records: Seq<RawReading>, pid: u32, key: u32)
    requires
        !has_pair(records, pid, key),
    ensures
        readings_for(records, pid, key) == Seq::<Reading>::empty(),
    decreases records.len(),
{
    if records.len() == 0 {
    } else {
        assert(!matches_pair(records[records.len() - 1], pid, key));
        assert forall|j: int| 0 <= j < records.drop_last().len() implies !matches_pair(
            #[trigger] records.drop_last()[j],
            pid,
            key,
        ) by {
            assert(records.drop_last()[j] == records[j]);
        }
        lemma_readings_for_absent(records.drop_last(), pid, key);
    }
}

/// One more record extends exactly its own series and no other.
proof fn lemma_readings_for_step(records: Seq<RawReading>, i: int, pid: u32, key: u32)
    requires
        0 <= i < records.len(),
    ensures
        readings_for(records.take(i + 1), pid, key) == if matches_pair(records[i], pid, key) {
            readings_for(records.take(i), pid, key).push(reading_of(records[i]))
        } else {
            readings_for(records.take(i), pid, key)
        },
{
    assert(records.take(i + 1).drop_last() =~= records.take(i));
    assert(records.take(i + 1).last() == records[i]);
}

/// A pair present among the first `i` records is present among the first
/// `i + 1`, and the new record's own pair is present among the first `i + 1`.
proof fn lemma_has_pair_step(records: Seq<RawReading>, i: int, pid: u32, key: u32)
    requires
        0 <= i < records.len(),
        has_pair(records.take(i), pid, key) || matches_pair(records[i], pid, key),
    ensures
        has_pair(records.take(i + 1), pid, key),
{
    if has_pair(records.take(i), pid, key) {
        let j = choose|j: int|
            0 <= j < records.take(i).len() && matches_pair(#[trigger] records.take(i)[j], pid, key);
        assert(matches_pair(records.take(i + 1)[j], pid, key));
    } else {
        assert(matches_pair(records.take(i + 1)[i], pid, key));
    }
}

/// When the groups lack a pair but cover the first `i` records, no record
/// among the first `i` belongs to that pair, so its series so far is empty.
proof fn lemma_pair_absent(
    providers: Seq<ProviderGroup>,
    records: Seq<RawReading>,
    i: int,
    pid: u32,
    key: u32,
)
    requires
        grouping_inv(providers, records, i),
        0 <= i <= records.len(),
        !providers_have_pair(providers, pid, key),
    ensures
        readings_for(records.take(i), pid, key) == Seq::<Reading>::empty(),
{
    assert forall|j: int| 0 <= j < records.take(i).len() implies !matches_pair(
        #[trigger] records.take(i)[j],
        pid,
        key,
    ) by {
        if matches_pair(records.take(i)[j], pid, key) {
            assert(records.take(i)[j] == records[j]);
            assert(providers_have_pair(providers, pid, key));
        }
    }
    if has_pair(records.take(i), pid, key) {
        let j = choose|j: int|
            0 <= j < records.take(i).len() && matches_pair(#[trigger] records.take(i)[j], pid, key);
        assert(false);
    }
    lemma_readings_for_absent(records.take(i), pid, key);
}

/// Replacing one metric series changes the total reading count by exactly
/// the difference of the two series' lengths.
proof fn lemma_total_readings_update(metrics: Seq<MetricSeries>, mi: int, m2: MetricSeries)
    requires
        0 <= mi < metrics.len(),
    ensures
        total_readings_of(metrics.update(mi, m2)) + metrics[mi].readings@.len()
            == total_readings_of(metrics) + m2.readings@.len(),
    decreases metrics.len(),
{
    if mi == metrics.len() - 1 {
        assert(metrics.update(mi, m2).drop_last() =~= metrics.drop_last());
        assert(metrics.update(mi, m2).last() == m2);
    } else {
        lemma_total_readings_update(metrics.drop_last(), mi, m2);
        assert(metrics.update(mi, m2).drop_last() =~= metrics.drop_last().update(mi, m2));
        assert(metrics.update(mi, m2).last() == metrics.last());
    }
}

/// Appending one metric series grows the total reading count by its length.
proof fn lemma_total_readings_push(metrics: Seq<MetricSeries>, m2: MetricSeries)
    ensures
        total_readings_of(metrics.push(m2)) == total_readings_of(metrics) + m2.readings@.len(),
{
    assert(metrics.push(m2).drop_last() =~= metrics);
    assert(metrics.push(m2).last() == m2);
}

/// Index of the group of `pid`, if one exists.
fn find_provider(providers: &Vec<ProviderGroup>, pid: u32) -> (found: Option<usize>)
    ensures
        match found {
            Some(idx) => idx < providers@.len() && providers@[idx as int].provider_id == pid,
            None => forall|k: int|
                0 <= k < providers@.len() ==> (#[trigger] providers@[k]).provider_id != pid,
        },
{
    let mut k: usize = 0;
    while k < providers.len()
        invariant
            0 <= k <= providers@.len(),
            forall|j: int| 0 <= j < k ==> (#[trigger] providers@[j]).provider_id != pid,
        decreases providers@.len() - k,
    {
        if providers[k].provider_id == pid {
            return Some(k);
        }
        k = k + 1;
    }
    None
}

/// Index of the series of `key` within one group, if one exists.
fn find_metric(metrics: &Vec<MetricSeries>, key: u32) -> (found: Option<usize>)
    ensures
        match found {
            Some(idx) => idx < metrics@.len() && metrics@[idx as int].key == key,
            None => forall|k: int| 0 <= k < metrics@.len() ==> (#[trigger] metrics@[k]).key != key,
        },
{
    let mut k: usize = 0;
    while k < metrics.len()
        invariant
            0 <= k <= metrics@.len(),
            forall|j: int| 0 <= j < k ==> (#[trigger] metrics@[j]).key != key,
        decreases metrics@.len() - k,
    {
        if metrics[k].key == key {
            return Some(k);
        }
        k = k + 1;
    }
    None
}

/// Group a flat record stream by provider and metric, in arrival order: each
/// record's reading is appended to the series of its `(provider_id, key)`
/// pair, and groups and series are created at a pair's first appearance. The
/// batch holds a series exactly for the pairs that occur, each being exactly
/// the readings of its pair's records in order.
pub fn group_readings(records: &Vec<RawReading>) -> (batch: Batch)
    requires
        records@.len() <= crate::MAX_SERIES_LEN,
        forall|j: int|
            0 <= j < records@.len() ==> value_in_bounds((#[trigger] records@[j]).value as int),
    ensures
        batch.wf(),
        grouping_inv(batch.providers@, records@, records@.len() as int),
        forall|g: int, m: int|
            0 <= g < batch.providers@.len() && 0 <= m < batch.providers@[g].metrics@.len() ==> (
            #[trigger] batch.providers@[g].metrics@[m]).readings@ == readings_for(
                records@,
                batch.providers@[g].provider_id,
                batch.providers@[g].metrics@[m].key,
            ),
        forall|j: int|
            0 <= j < records@.len() ==> providers_have_pair(
                batch.providers@,
                (#[trigger] records@[j]).provider_id,
                records@[j].key,
            ),
        forall|g: int|
            0 <= g < batch.providers@.len() ==> total_readings_of(
                (#[trigger] batch.providers@[g]).metrics@,
            ) <= records@.len(),
{
    let mut providers: Vec<ProviderGroup> = Vec::new();
    let mut i: usize = 0;
    while i < records.len()
        invariant
            0 <= i <= records@.len(),
            records@.len() <= crate::MAX_SERIES_LEN,
            forall|j: int|
                0 <= j < records@.len() ==> value_in_bounds((#[trigger] records@[j]).value as int),
            grouping_inv(providers@, records@, i as int),
        decreases records@.len() - i,
    {
        let r = records[i];
        let reading = Reading { value: r.value, timestamp: r.timestamp };
        let ghost old_providers = providers@;
        proof {
            assert(reading == reading_of(records@[i as int]));
        }
        match find_provider(&providers, r.provider_id) {
            None => {
                // First record of this provider: new group, new series.
                let mut readings: Vec<Reading> = Vec::new();
                readings.push(reading);
                let mut metrics: Vec<MetricSeries> = Vec::new();
                metrics.push(MetricSeries { key: r.key, readings });
                let group = ProviderGroup { provider_id: r.provider_id, metrics };
                let ghost new_group = group;
                providers.push(group);
                proof {
                    assert(new_group.metrics@[0].readings@ =~= seq![
                        reading_of(records@[i as int]),
                    ]);
                    lemma_step_new_provider(
                        old_providers,
                        providers@,
                        records@,
                        i as int,
                        new_group,
                    );
                }
            },
            Some(gi) => {
                let mut group = providers.remove(gi);
                let ghost old_metrics = group.metrics@;
                match find_metric(&group.metrics, r.key) {
                    None => {
                        // First record of this metric within the provider.
                        let mut readings: Vec<Reading> = Vec::new();
                        readings.push(reading);
                        group.metrics.push(MetricSeries { key: r.key, readings });
                        let ghost new_group = group;
                        providers.insert(gi, group);
                        proof {
                            assert(providers@ =~= old_providers.update(gi as int, new_group));
                            assert(new_group.metrics@.drop_last() =~= old_metrics);
                            assert(new_group.metrics@.last().readings@ =~= seq![
                                reading_of(records@[i as int]),
                            ]);
                            lemma_step_new_metric(
                                old_providers,
                                providers@,
                                records@,
                                i as int,
                                gi as int,
                                new_group,
                            );
                        }
                    },
                    Some(mi) => {
                        // The pair exists: append to its series.
                        let mut metric = group.metrics.remove(mi);
                        metric.readings.push(reading);
                        let ghost new_metric = metric;
                        group.metrics.insert(mi, metric);
                        let ghost new_group = group;
                        providers.insert(gi, group);
                        proof {
                            assert(new_group.metrics@ =~= old_metrics.update(
                                mi as int,
                                new_metric,
                            ));
                            assert(providers@ =~= old_providers.update(gi as int, new_group));
                            lemma_step_append(
                                old_providers,
                                providers@,
                                records@,
                                i as int,
                                gi as int,
                                mi as int,
                                new_metric,
                                new_group,
                            );
                        }
                    },
                }
            },
        }
        i = i + 1;
    }
    proof {
        assert(records@.take(i as int) =~= records@);
        let batch = Batch { providers };
        assert(batch.wf()) by {
            assert(forall|g: int|
                0 <= g < providers@.len() ==> (#[trigger] providers@[g]).wf());
        }
    }
    Batch { providers }
}

/// Folding a record of a new provider onto the groups keeps the grouping
/// invariant: a fresh group with that record's singleton series is appended.
proof fn lemma_step_new_provider(
    old_p: Seq<ProviderGroup>,
    new_p: Seq<ProviderGroup>,
    records: Seq<RawReading>,
    i: int,
    group: ProviderGroup,
)
    requires
        grouping_inv(old_p, records, i),
        0 <= i < records.len(),
        records.len() <= crate::MAX_SERIES_LEN,
        value_in_bounds(records[i].value as int),
        forall|k: int|
            0 <= k < old_p.len() ==> (#[trigger] old_p[k]).provider_id
                != records[i].provider_id,
        new_p == old_p.push(group),
        group.provider_id == records[i].provider_id,
        group.metrics@.len() == 1,
        group.metrics@[0].key == records[i].key,
        group.metrics@[0].readings@ == seq![reading_of(records[i])],
    ensures
        grouping_inv(new_p, records, i + 1),
{
    let pid = records[i].provider_id;
    let key = records[i].key;
    if providers_have_pair(old_p, pid, key) {
        let (g, m) = choose|g: int, m: int|
            {
                &&& 0 <= g < old_p.len()
                &&& 0 <= m < old_p[g].metrics@.len()
                &&& old_p[g].provider_id == pid
                &&& (#[trigger] old_p[g].metrics@[m]).key == key
            };
        assert(false);
    }
    lemma_pair_absent(old_p, records, i, pid, key);
    lemma_readings_for_step(records, i, pid, key);
    // The fresh group is well-formed: one metric, one bounded reading.
    assert forall|g: int| 0 <= g < new_p.len() implies (#[trigger] new_p[g]).wf() by {
        if g < old_p.len() {
            assert(new_p[g] == old_p[g]);
        } else {
            assert(new_p[g] == group);
            assert(group.metrics@[0].readings@[0] == reading_of(records[i]));
            assert(series_wf(group.metrics@[0].readings@));
        }
    }
    // Every series is the series of its pair over the first i + 1 records.
    assert forall|g: int, m: int|
        0 <= g < new_p.len() && 0 <= m < new_p[g].metrics@.len() implies (
    #[trigger] new_p[g].metrics@[m]).readings@ == readings_for(
        records.take(i + 1),
        new_p[g].provider_id,
        new_p[g].metrics@[m].key,
    ) by {
        if g < old_p.len() {
            assert(new_p[g] == old_p[g]);
            lemma_readings_for_step(records, i, new_p[g].provider_id, new_p[g].metrics@[m].key);
        } else {
            assert(new_p[g] == group);
            assert(readings_for(records.take(i), pid, key) =~= Seq::<Reading>::empty());
            assert(group.metrics@[0].readings@ == readings_for(records.take(i), pid, key).push(
                reading_of(records[i]),
            ));
        }
    }
    // Every series' pair occurs among the first i + 1 records.
    assert forall|g: int, m: int|
        0 <= g < new_p.len() && 0 <= m < new_p[g].metrics@.len() implies has_pair(
        records.take(i + 1),
        new_p[g].provider_id,
        (#[trigger] new_p[g].metrics@[m]).key,
    ) by {
        if g < old_p.len() {
            assert(new_p[g] == old_p[g]);
            lemma_has_pair_step(records, i, new_p[g].provider_id, new_p[g].metrics@[m].key);
        } else {
            lemma_has_pair_step(records, i, pid, key);
        }
    }
    // Every record seen has its series.
    assert forall|j: int| 0 <= j < i + 1 implies providers_have_pair(
        new_p,
        (#[trigger] records[j]).provider_id,
        records[j].key,
    ) by {
        if j < i {
            let (g, m) = choose|g: int, m: int|
                {
                    &&& 0 <= g < old_p.len()
                    &&& 0 <= m < old_p[g].metrics@.len()
                    &&& old_p[g].provider_id == records[j].provider_id
                    &&& (#[trigger] old_p[g].metrics@[m]).key == records[j].key
                };
            assert(new_p[g] == old_p[g]);
            assert((new_p[g].metrics@[m]).key == records[j].key);
        } else {
            assert((new_p[old_p.len() as int].metrics@[0]).key == key);
        }
    }
    // No group outgrows the records seen.
    assert forall|g: int| 0 <= g < new_p.len() implies total_readings_of(
        (#[trigger] new_p[g]).metrics@,
    ) <= i + 1 by {
        if g < old_p.len() {
            assert(new_p[g] == old_p[g]);
        } else {
            assert(group.metrics@.drop_last() =~= Seq::<MetricSeries>::empty());
            assert(total_readings_of(Seq::<MetricSeries>::empty()) == 0);
            assert(group.metrics@.last() == group.metrics@[0]);
            assert(total_readings_of(group.metrics@) == 1);
        }
    }
}

/// Folding a record of a known provider but a new metric key onto the groups
/// keeps the grouping invariant: the record's singleton series is appended
/// to that provider's group.
proof fn lemma_step_new_metric(
    old_p: Seq<ProviderGroup>,
    new_p: Seq<ProviderGroup>,
    records: Seq<RawReading>,
    i: int,
    gi: int,
    group: ProviderGroup,
)
    requires
        grouping_inv(old_p, records, i),
        0 <= i < records.len(),
        records.len() <= crate::MAX_SERIES_LEN,
        value_in_bounds(records[i].value as int),
        0 <= gi < old_p.len(),
        old_p[gi].provider_id == records[i].provider_id,
        forall|k: int|
            0 <= k < old_p[gi].metrics@.len() ==> (#[trigger] old_p[gi].metrics@[k]).key
                != records[i].key,
        new_p == old_p.update(gi, group),
        group.provider_id == records[i].provider_id,
        group.metrics@.len() == old_p[gi].metrics@.len() + 1,
        group.metrics@.drop_last() == old_p[gi].metrics@,
        group.metrics@.last().key == records[i].key,
        group.metrics@.last().readings@ == seq![reading_of(records[i])],
    ensures
        grouping_inv(new_p, records, i + 1),
{
    let pid = records[i].provider_id;
    let key = records[i].key;
    let old_len = old_p[gi].metrics@.len() as int;
    assert forall|m: int| 0 <= m < old_len implies group.metrics@[m] == old_p[gi].metrics@[m] by {
        assert(group.metrics@.drop_last()[m] == group.metrics@[m]);
    }
    if providers_have_pair(old_p, pid, key) {
        let (g, m) = choose|g: int, m: int|
            {
                &&& 0 <= g < old_p.len()
                &&& 0 <= m < old_p[g].metrics@.len()
                &&& old_p[g].provider_id == pid
                &&& (#[trigger] old_p[g].metrics@[m]).key == key
            };
        assert(g == gi);
        assert(false);
    }
    lemma_pair_absent(old_p, records, i, pid, key);
    lemma_readings_for_step(records, i, pid, key);
    // The updated group is well-formed.
    assert forall|g: int| 0 <= g < new_p.len() implies (#[trigger] new_p[g]).wf() by {
        if g != gi {
            assert(new_p[g] == old_p[g]);
        } else {
            assert(new_p[g] == group);
            assert(group.metrics@.last().readings@[0] == reading_of(records[i]));
            assert(series_wf(group.metrics@.last().readings@));
            assert forall|a: int, b: int| 0 <= a < b < group.metrics@.len() implies (
            #[trigger] group.metrics@[a]).key != (#[trigger] group.metrics@[b]).key by {
                if b < old_len {
                    assert(old_p[gi].metrics@[a].key != old_p[gi].metrics@[b].key);
                } else {
                    assert(group.metrics@[b] == group.metrics@.last());
                    assert(old_p[gi].metrics@[a].key != key);
                }
            }
            assert forall|m: int| 0 <= m < group.metrics@.len() implies series_wf(
                (#[trigger] group.metrics@[m]).readings@,
            ) by {
                if m < old_len {
                    assert(series_wf(old_p[gi].metrics@[m].readings@));
                } else {
                    assert(group.metrics@[m] == group.metrics@.last());
                }
            }
        }
    }
    // Every series is the series of its pair over the first i + 1 records.
    assert forall|g: int, m: int|
        0 <= g < new_p.len() && 0 <= m < new_p[g].metrics@.len() implies (
    #[trigger] new_p[g].metrics@[m]).readings@ == readings_for(
        records.take(i + 1),
        new_p[g].provider_id,
        new_p[g].metrics@[m].key,
    ) by {
        lemma_readings_for_step(records, i, new_p[g].provider_id, new_p[g].metrics@[m].key);
        if g != gi {
            assert(new_p[g] == old_p[g]);
        } else if m < old_len {
            assert(new_p[g].metrics@[m] == old_p[gi].metrics@[m]);
            assert(old_p[gi].metrics@[m].key != key);
        } else {
            assert(new_p[g].metrics@[m] == group.metrics@.last());
            assert(readings_for(records.take(i), pid, key) =~= Seq::<Reading>::empty());
        }
    }
    // Every series' pair occurs among the first i + 1 records.
    assert forall|g: int, m: int|
        0 <= g < new_p.len() && 0 <= m < new_p[g].metrics@.len() implies has_pair(
        records.take(i + 1),
        new_p[g].provider_id,
        (#[trigger] new_p[g].metrics@[m]).key,
    ) by {
        if g != gi {
            assert(new_p[g] == old_p[g]);
            lemma_has_pair_step(records, i, new_p[g].provider_id, new_p[g].metrics@[m].key);
        } else if m < old_len {
            assert(new_p[g].metrics@[m] == old_p[gi].metrics@[m]);
            lemma_has_pair_step(records, i, pid, old_p[gi].metrics@[m].key);
        } else {
            lemma_has_pair_step(records, i, pid, key);
        }
    }
    // Every record seen has its series.
    assert forall|j: int| 0 <= j < i + 1 implies providers_have_pair(
        new_p,
        (#[trigger] records[j]).provider_id,
        records[j].key,
    ) by {
        if j < i {
            let (g, m) = choose|g: int, m: int|
                {
                    &&& 0 <= g < old_p.len()
                    &&& 0 <= m < old_p[g].metrics@.len()
                    &&& old_p[g].provider_id == records[j].provider_id
                    &&& (#[trigger] old_p[g].metrics@[m]).key == records[j].key
                };
            if g != gi {
                assert(new_p[g] == old_p[g]);
                assert((new_p[g].metrics@[m]).key == records[j].key);
            } else {
                assert(new_p[g].metrics@[m] == old_p[gi].metrics@[m]);
                assert((new_p[g].metrics@[m]).key == records[j].key);
            }
        } else {
            assert((new_p[gi].metrics@[old_len]).key == key);
        }
    }
    // No group outgrows the records seen.
    assert forall|g: int| 0 <= g < new_p.len() implies total_readings_of(
        (#[trigger] new_p[g]).metrics@,
    ) <= i + 1 by {
        if g != gi {
            assert(new_p[g] == old_p[g]);
        } else {
            lemma_total_readings_push(old_p[gi].metrics@, group.metrics@.last());
            assert(group.metrics@ =~= old_p[gi].metrics@.push(group.metrics@.last()));
        }
    }
}

/// Folding a record of a known pair onto the groups keeps the grouping
/// invariant: the reading is appended to exactly that pair's series.
proof fn lemma_step_append(
    old_p: Seq<ProviderGroup>,
    new_p: Seq<ProviderGroup>,
    records: Seq<RawReading>,
    i: int,
    gi: int,
    mi: int,
    metric: MetricSeries,
    group: ProviderGroup,
)
    requires
        grouping_inv(old_p, records, i),
        0 <= i < records.len(),
        records.len() <= crate::MAX_SERIES_LEN,
        value_in_bounds(records[i].value as int),
        0 <= gi < old_p.len(),
        0 <= mi < old_p[gi].metrics@.len(),
        old_p[gi].provider_id == records[i].provider_id,
        old_p[gi].metrics@[mi].key == records[i].key,
        metric.key == records[i].key,
        metric.readings@ == old_p[gi].metrics@[mi].readings@.push(reading_of(records[i])),
        new_p == old_p.update(gi, group),
        group.provider_id == old_p[gi].provider_id,
        group.metrics@ == old_p[gi].metrics@.update(mi, metric),
    ensures
        grouping_inv(new_p, records, i + 1),
{
    let pid = records[i].provider_id;
    let key = records[i].key;
    let old_metrics = old_p[gi].metrics@;
    let new_metrics = new_p[gi].metrics@;
    lemma_readings_for_step(records, i, pid, key);
    lemma_readings_for_len(records.take(i), pid, key);
    // The updated group is well-formed: same keys, one series one longer.
    assert forall|g: int| 0 <= g < new_p.len() implies (#[trigger] new_p[g]).wf() by {
        if g != gi {
            assert(new_p[g] == old_p[g]);
        } else {
            assert forall|a: int, b: int| 0 <= a < b < new_metrics.len() implies (
            #[trigger] new_metrics[a]).key != (#[trigger] new_metrics[b]).key by {
                assert(old_metrics[a].key != old_metrics[b].key);
                assert(new_metrics[a].key == old_metrics[a].key);
                assert(new_metrics[b].key == old_metrics[b].key);
            }
            assert forall|m: int| 0 <= m < new_metrics.len() implies series_wf(
                (#[trigger] new_metrics[m]).readings@,
            ) by {
                assert(series_wf(old_metrics[m].readings@));
                if m == mi {
                    assert(old_metrics[mi].readings@ == readings_for(records.take(i), pid, key));
                    assert(metric.readings@.len() <= i + 1);
                    assert forall|j: int| 0 <= j < metric.readings@.len() implies value_in_bounds(
                        (#[trigger] metric.readings@[j]).value as int,
                    ) by {
                        if j < old_metrics[mi].readings@.len() {
                            assert(metric.readings@[j] == old_metrics[mi].readings@[j]);
                        } else {
                            assert(metric.readings@[j] == reading_of(records[i]));
                        }
                    }
                }
            }
        }
    }
    // Every series is the series of its pair over the first i + 1 records.
    assert forall|g: int, m: int|
        0 <= g < new_p.len() && 0 <= m < new_p[g].metrics@.len() implies (
    #[trigger] new_p[g].metrics@[m]).readings@ == readings_for(
        records.take(i + 1),
        new_p[g].provider_id,
        new_p[g].metrics@[m].key,
    ) by {
        lemma_readings_for_step(records, i, new_p[g].provider_id, new_p[g].metrics@[m].key);
        if g != gi {
            assert(new_p[g] == old_p[g]);
        } else if m != mi {
            assert(new_p[g].metrics@[m] == old_metrics[m]);
            assert(old_metrics[m].key != key);
        } else {
            assert(new_p[g].metrics@[m] == metric);
            assert(old_metrics[mi].readings@ == readings_for(records.take(i), pid, key));
        }
    }
    // Every series' pair occurs among the first i + 1 records.
    assert forall|g: int, m: int|
        0 <= g < new_p.len() && 0 <= m < new_p[g].metrics@.len() implies has_pair(
        records.take(i + 1),
        new_p[g].provider_id,
        (#[trigger] new_p[g].metrics@[m]).key,
    ) by {
        if g != gi {
            assert(new_p[g] == old_p[g]);
            lemma_has_pair_step(records, i, new_p[g].provider_id, new_p[g].metrics@[m].key);
        } else if m != mi {
            assert(new_p[g].metrics@[m] == old_metrics[m]);
            lemma_has_pair_step(records, i, pid, old_metrics[m].key);
        } else {
            lemma_has_pair_step(records, i, pid, key);
        }
    }
    // Every record seen has its series.
    assert forall|j: int| 0 <= j < i + 1 implies providers_have_pair(
        new_p,
        (#[trigger] records[j]).provider_id,
        records[j].key,
    ) by {
        if j < i {
            let (g, m) = choose|g: int, m: int|
                {
                    &&& 0 <= g < old_p.len()
                    &&& 0 <= m < old_p[g].metrics@.len()
                    &&& old_p[g].provider_id == records[j].provider_id
                    &&& (#[trigger] old_p[g].metrics@[m]).key == records[j].key
                };
            if g != gi {
                assert(new_p[g] == old_p[g]);
                assert((new_p[g].metrics@[m]).key == records[j].key);
            } else if m != mi {
                assert(new_p[g].metrics@[m] == old_metrics[m]);
                assert((new_p[g].metrics@[m]).key == records[j].key);
            } else {
                assert((new_p[gi].metrics@[mi]).key == key);
                assert((new_p[g].metrics@[m]).key == records[j].key);
            }
        } else {
            assert((new_p[gi].metrics@[mi]).key == key);
        }
    }
    // No group outgrows the records seen.
    assert forall|g: int| 0 <= g < new_p.len() implies total_readings_of(
        (#[trigger] new_p[g]).metrics@,
    ) <= i + 1 by {
        if g != gi {
            assert(new_p[g] == old_p[g]);
        } else {
            lemma_total_readings_update(old_metrics, mi, metric);
        }
    }
}

} // verus!
