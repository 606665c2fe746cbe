use series_quality::AggregateError;
use series_quality::Batch;
use series_quality::DispersionSummary;
use series_quality::GapStatistics;
use series_quality::MetricSeries;
use series_quality::ProviderGroup;
use series_quality::RawReading;
use series_quality::Reading;
use series_quality::clean_batch;
use series_quality::clean_provider;
use series_quality::clean_series;
use series_quality::group_readings;
use series_quality::is_duplicate;

fn reading(value: i64, timestamp: u64) -> Reading {
    Reading { value, timestamp }
}

fn series(pairs: &[(i64, u64)]) -> Vec<Reading> {
    pairs.iter().map(|&(v, t)| reading(v, t)).collect()
}

/// Values 10.0, 10.05, 10.0, 50.0 held as fixed-point hundredths.
fn jitter_series() -> Vec<Reading> {
    series(&[(1000, 0), (1005, 50), (1000, 1000), (5000, 1050)])
}

#[test]
fn aggregate_exact_summary() {
    let s = DispersionSummary::aggregate(&jitter_series()).unwrap();
    assert_eq!(s.min, 1000);
    assert_eq!(s.max, 5000);
    assert_eq!(s.count, 4);
    // 4 * (1000^2 + 1005^2 + 1000^2 + 5000^2) - (1000 + 1005 + 1000 + 5000)^2
    assert_eq!(s.var_num, 47_960_075);
}

#[test]
fn aggregate_empty_series_refused() {
    let result = DispersionSummary::aggregate(&Vec::new());
    assert_eq!(result, Err(AggregateError::EmptySeries));
}

#[test]
fn aggregate_is_idempotent() {
    let input = jitter_series();
    let first = DispersionSummary::aggregate(&input).unwrap();
    let second = DispersionSummary::aggregate(&input).unwrap();
    assert_eq!(first, second);
}

#[test]
fn aggregate_single_reading() {
    let s = DispersionSummary::aggregate(&series(&[(-7, 3)])).unwrap();
    assert_eq!(s.min, -7);
    assert_eq!(s.max, -7);
    assert_eq!(s.count, 1);
    assert_eq!(s.var_num, 0);
}

#[test]
fn stddev_floor_is_exact() {
    // var_num = 47960075, so stddev = sqrt(47960075) / 4 ~ 6925.32 / 4,
    // which is 17.31 in whole value units; its floor in hundredths is 1731.
    let s = DispersionSummary::aggregate(&jitter_series()).unwrap();
    assert_eq!(s.stddev_floor(), 1731);
}

#[test]
fn stddev_floor_of_a_flat_series_is_zero() {
    let s = DispersionSummary::aggregate(&series(&[(9, 0), (9, 10), (9, 20)])).unwrap();
    assert_eq!(s.var_num, 0);
    assert_eq!(s.stddev_floor(), 0);
}

#[test]
fn jitter_noise_scenario() {
    // stddev is about 17.3 hundredths-units, so half of it is about 8.66:
    // the 0.05 bump 50ms later is noise, the 40.0 jump is a real reading.
    let input = jitter_series();
    let summary = DispersionSummary::aggregate(&input).unwrap();
    let outcome = clean_series(&input, &summary);
    assert_eq!(outcome.retained, series(&[(1000, 0), (1000, 1000), (5000, 1050)]));
    assert_eq!(outcome.duplicates, 1);
    assert_eq!(outcome.max_run, 1);
}

#[test]
fn flat_series_spaced_a_second_apart_is_kept() {
    let input = series(&[(42, 0), (42, 1000), (42, 2000), (42, 3000)]);
    let summary = DispersionSummary::aggregate(&input).unwrap();
    assert_eq!(summary.var_num, 0);
    let outcome = clean_series(&input, &summary);
    assert_eq!(outcome.retained, input);
    assert_eq!(outcome.duplicates, 0);
    assert_eq!(outcome.max_run, 0);
}

#[test]
fn time_delta_of_exactly_the_window_is_not_a_duplicate() {
    // Values repeat exactly, so only timing could suppress them; every
    // elapsed time is exactly 100, and the comparison is strict.
    let input = series(&[(0, 0), (0, 100), (0, 200), (40, 300)]);
    let summary = DispersionSummary::aggregate(&input).unwrap();
    let outcome = clean_series(&input, &summary);
    assert_eq!(outcome.retained, input);
    assert_eq!(outcome.duplicates, 0);
    assert_eq!(outcome.max_run, 0);
}

#[test]
fn time_delta_just_inside_the_window_is_a_duplicate() {
    let input = series(&[(0, 0), (0, 99), (0, 199), (40, 300)]);
    let summary = DispersionSummary::aggregate(&input).unwrap();
    let outcome = clean_series(&input, &summary);
    // The second reading repeats the first 99ms later: suppressed. The third
    // is compared against the first retained reading, 199ms apart: kept.
    assert_eq!(outcome.retained, series(&[(0, 0), (0, 199), (40, 300)]));
    assert_eq!(outcome.duplicates, 1);
    assert_eq!(outcome.max_run, 1);
}

#[test]
fn value_delta_of_exactly_half_the_stddev_is_not_a_duplicate() {
    // A flat pair: stddev is 0 and the value delta is exactly stddev / 2,
    // which the strict comparison refuses even 50ms apart.
    let input = series(&[(7, 0), (7, 50)]);
    let summary = DispersionSummary::aggregate(&input).unwrap();
    assert_eq!(summary.var_num, 0);
    let outcome = clean_series(&input, &summary);
    assert_eq!(outcome.retained, input);
    assert_eq!(outcome.duplicates, 0);
}

#[test]
fn value_delta_below_half_the_stddev_is_a_duplicate() {
    // var_num = 4 * (64 + 1600) - 48^2 = 4352, so a delta d is noise when
    // 64 * d^2 < 4352, i.e. d <= 8.
    let input = series(&[(0, 0), (8, 50), (0, 60), (40, 70)]);
    let summary = DispersionSummary::aggregate(&input).unwrap();
    assert_eq!(summary.var_num, 4352);
    let outcome = clean_series(&input, &summary);
    assert_eq!(outcome.retained, series(&[(0, 0), (40, 70)]));
    assert_eq!(outcome.duplicates, 2);
    assert_eq!(outcome.max_run, 2);
}

#[test]
fn value_delta_above_half_the_stddev_is_retained() {
    // var_num = 4 * (81 + 1600) - 49^2 = 4323, and 64 * 9^2 = 5184 >= 4323:
    // a delta of 9 is a genuine new observation.
    let input = series(&[(0, 0), (9, 50), (0, 60), (40, 70)]);
    let summary = DispersionSummary::aggregate(&input).unwrap();
    assert_eq!(summary.var_num, 4323);
    let outcome = clean_series(&input, &summary);
    assert_eq!(outcome.retained, input);
    assert_eq!(outcome.duplicates, 0);
}

#[test]
fn duplicate_test_on_the_raw_thresholds() {
    let input = series(&[(0, 0), (0, 100), (0, 200), (40, 300)]);
    let summary = DispersionSummary::aggregate(&input).unwrap();
    assert_eq!(summary.var_num, 4800);
    assert!(is_duplicate(reading(0, 0), reading(8, 50), &summary));
    assert!(!is_duplicate(reading(0, 0), reading(9, 50), &summary));
    assert!(!is_duplicate(reading(0, 0), reading(0, 100), &summary));
    assert!(is_duplicate(reading(0, 0), reading(0, 99), &summary));
    // An out-of-order timestamp clamps the elapsed time to zero, which is
    // inside the window.
    assert!(is_duplicate(reading(0, 500), reading(0, 400), &summary));
}

#[test]
fn gap_conservation_per_series() {
    let input = series(&[(0, 0), (8, 50), (0, 60), (40, 70)]);
    let summary = DispersionSummary::aggregate(&input).unwrap();
    let outcome = clean_series(&input, &summary);
    assert_eq!(input.len(), outcome.retained.len() + outcome.duplicates as usize);
}

#[test]
fn cleaned_series_preserves_order() {
    let input = jitter_series();
    let summary = DispersionSummary::aggregate(&input).unwrap();
    let outcome = clean_series(&input, &summary);
    // Every retained reading appears in the input, in the same relative
    // order: the cleaned series is a subsequence.
    let mut next: usize = 0;
    for kept in &outcome.retained {
        while input[next] != *kept {
            next += 1;
        }
        next += 1;
    }
    for pair in outcome.retained.windows(2) {
        assert!(pair[0].timestamp <= pair[1].timestamp);
    }
}

#[test]
fn provider_gaps_sum_counts_and_take_the_longest_run() {
    let group = ProviderGroup {
        provider_id: 9,
        metrics: vec![
            MetricSeries { key: 1, readings: series(&[(0, 0), (8, 50), (0, 60), (40, 70)]) },
            MetricSeries { key: 2, readings: jitter_series() },
        ],
    };
    let (cleaned, stats) = clean_provider(&group);
    assert_eq!(cleaned.provider_id, 9);
    assert_eq!(cleaned.metrics.len(), 2);
    assert_eq!(cleaned.metrics[0].key, 1);
    assert_eq!(cleaned.metrics[0].readings, series(&[(0, 0), (40, 70)]));
    assert_eq!(cleaned.metrics[1].key, 2);
    assert_eq!(cleaned.metrics[1].readings, series(&[(1000, 0), (1000, 1000), (5000, 1050)]));
    // 2 duplicates from metric 1 and 1 from metric 2 are summed; the runs
    // (2 and 1) are compared, never summed.
    assert_eq!(stats, GapStatistics { total_gap_count: 3, max_gap_run: 2 });
}

#[test]
fn empty_series_is_skipped_without_disturbing_siblings() {
    let group = ProviderGroup {
        provider_id: 4,
        metrics: vec![
            MetricSeries { key: 10, readings: Vec::new() },
            MetricSeries { key: 11, readings: series(&[(5, 0), (5, 1000)]) },
        ],
    };
    let (cleaned, stats) = clean_provider(&group);
    assert_eq!(cleaned.metrics.len(), 2);
    assert_eq!(cleaned.metrics[0].key, 10);
    assert!(cleaned.metrics[0].readings.is_empty());
    assert_eq!(cleaned.metrics[1].readings, series(&[(5, 0), (5, 1000)]));
    assert_eq!(stats, GapStatistics { total_gap_count: 0, max_gap_run: 0 });
}

#[test]
fn batch_cleaning_keeps_providers_independent() {
    let batch = Batch {
        providers: vec![
            ProviderGroup {
                provider_id: 1,
                metrics: vec![MetricSeries { key: 0, readings: jitter_series() }],
            },
            ProviderGroup {
                provider_id: 2,
                metrics: vec![
                    MetricSeries { key: 0, readings: Vec::new() },
                    MetricSeries {
                        key: 7,
                        readings: series(&[(0, 0), (8, 50), (0, 60), (40, 70)]),
                    },
                ],
            },
        ],
    };
    let (cleaned, gaps) = clean_batch(&batch);
    assert_eq!(cleaned.providers.len(), 2);
    assert_eq!(gaps.len(), 2);
    assert_eq!(gaps[0].provider_id, 1);
    assert_eq!(gaps[0].stats, GapStatistics { total_gap_count: 1, max_gap_run: 1 });
    assert_eq!(gaps[1].provider_id, 2);
    assert_eq!(gaps[1].stats, GapStatistics { total_gap_count: 2, max_gap_run: 2 });
    assert!(cleaned.providers[1].metrics[0].readings.is_empty());
    assert_eq!(cleaned.providers[1].metrics[1].readings, series(&[(0, 0), (40, 70)]));
}

fn record(provider_id: u32, key: u32, value: i64, timestamp: u64) -> RawReading {
    RawReading { provider_id, key, value, timestamp }
}

#[test]
fn grouping_splits_by_provider_and_metric() {
    let records = vec![
        record(1, 10, 100, 0),
        record(2, 10, 200, 5),
        record(1, 11, 300, 10),
        record(1, 10, 400, 15),
        record(2, 10, 500, 20),
    ];
    let batch = group_readings(&records);
    assert_eq!(batch.providers.len(), 2);

    let first_provider = &batch.providers[0];
    assert_eq!(first_provider.provider_id, 1);
    assert_eq!(first_provider.metrics.len(), 2);
    assert_eq!(first_provider.metrics[0].key, 10);
    assert_eq!(first_provider.metrics[0].readings, series(&[(100, 0), (400, 15)]));
    assert_eq!(first_provider.metrics[1].key, 11);
    assert_eq!(first_provider.metrics[1].readings, series(&[(300, 10)]));

    let second_provider = &batch.providers[1];
    assert_eq!(second_provider.provider_id, 2);
    assert_eq!(second_provider.metrics.len(), 1);
    assert_eq!(second_provider.metrics[0].key, 10);
    assert_eq!(second_provider.metrics[0].readings, series(&[(200, 5), (500, 20)]));
}

#[test]
fn grouping_keeps_arrival_order_within_a_series() {
    let records = vec![
        record(3, 1, 9, 100),
        record(3, 1, 8, 50),
        record(3, 1, 7, 200),
    ];
    let batch = group_readings(&records);
    assert_eq!(batch.providers.len(), 1);
    assert_eq!(batch.providers[0].metrics.len(), 1);
    // Arrival order is trusted, never sorted.
    assert_eq!(batch.providers[0].metrics[0].readings, series(&[(9, 100), (8, 50), (7, 200)]));
}

#[test]
fn grouped_then_cleaned_end_to_end() {
    let records = vec![
        record(5, 1, 1000, 0),
        record(5, 1, 1005, 50),
        record(5, 1, 1000, 1000),
        record(5, 1, 5000, 1050),
        record(6, 1, 42, 0),
        record(6, 1, 42, 1000),
    ];
    let batch = group_readings(&records);
    let (cleaned, gaps) = clean_batch(&batch);
    assert_eq!(cleaned.providers[0].metrics[0].readings.len(), 3);
    assert_eq!(gaps[0].provider_id, 5);
    assert_eq!(gaps[0].stats, GapStatistics { total_gap_count: 1, max_gap_run: 1 });
    assert_eq!(gaps[1].provider_id, 6);
    assert_eq!(gaps[1].stats, GapStatistics { total_gap_count: 0, max_gap_run: 0 });
}
