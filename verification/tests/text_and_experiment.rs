use cavity_bit_filter::experiment::{
    build_until, check_prefixes, churn_cycles, churn_prefill, count_false_positives,
    first_missing, latency_stream, query_build, query_domain_key, BuildPause, BuildRun,
    QueryBuild, WindowCounters,
    sampled_false_negatives, seed_range, verification_stride, PrefixCheck, BUILD_FILTER_SALT,
    BUILD_KEY_SALT, CHURN_FILTER_SALT, LATENCY_SIDECAR_MAGIC, QUERY_KEY_SALT,
};
use cavity_bit_filter::hash::splitmix64;
use cavity_bit_filter::names::{decimal_text, parse_u32, DecimalError};
use cavity_bit_filter::{
    Config, ConfigError, CuckooFilter, InsertStats, PathActivation, PathConfig, PathReset, Policy,
};

#[test]
fn latency_sidecar_stream_is_counted_u64_little_endian() {
    let bytes = latency_stream(&[7, 0x0102_0304_0506_0708]);
    assert_eq!(&bytes[..8], &LATENCY_SIDECAR_MAGIC);
    assert_eq!(&bytes[..8], b"CBLAT001");
    assert_eq!(u64::from_le_bytes(bytes[8..16].try_into().unwrap()), 2);
    assert_eq!(u64::from_le_bytes(bytes[16..24].try_into().unwrap()), 7);
    assert_eq!(u64::from_le_bytes(bytes[24..32].try_into().unwrap()), 0x0102_0304_0506_0708);
    assert_eq!(bytes.len(), 32);
}

#[test]
fn seed_range_uses_absolute_start_and_rejects_empty_ranges() {
    assert_eq!(seed_range(41, 2).unwrap(), (41, 43));
    assert_eq!(seed_range(0, 0).unwrap_err(), "--seeds must be greater than zero");
    assert_eq!(seed_range(u64::MAX, 1).unwrap_err(), "--seed-start plus --seeds overflows u64");
}

#[test]
fn validation_sampling_and_query_domains_cover_boundaries() {
    assert_eq!(verification_stride(10, 6), Some(2));
    assert_eq!(verification_stride(10, 0), None);
    assert_eq!(verification_stride(0, 6), None);

    for index in 0..1_024 {
        let present = query_domain_key(7, BUILD_KEY_SALT, index, false);
        let absent = query_domain_key(7, QUERY_KEY_SALT, index, true);
        assert_eq!(present & 1, 0);
        assert_eq!(absent & 1, 1);
        assert_ne!(present, query_domain_key(7, BUILD_KEY_SALT, index + 1, false));
    }
}

#[test]
fn sampling_counts_only_strided_missing_keys() {
    let mut filter = CuckooFilter::new(Config {
        bucket_count: 64,
        policy: Policy::CavityRank4,
        seed: 1,
        max_kicks: 100,
        bfs_depth: 4,
        path: PathConfig::default(),
    })
    .unwrap();
    let keys: Vec<u64> = (1..=10).collect();
    for &key in &keys[..5] {
        assert!(filter.insert(key).inserted);
    }
    // Stride 2 samples keys 1, 3, 5, 7, 9; 7 and 9 were never inserted
    // (unless a fingerprint collision reports them).
    let missed = sampled_false_negatives(&filter, &keys, 5);
    let expected = [7u64, 9].iter().filter(|&&key| !filter.contains(key)).count();
    assert_eq!(missed, expected);
    assert_eq!(sampled_false_negatives(&filter, &keys, 0), 0);
    assert_eq!(sampled_false_negatives(&filter, &keys[..5], 100), 0);
    assert_eq!(verification_stride(10, 3), Some(4));
    assert_eq!(verification_stride(9, 3), Some(3));
}

#[test]
fn names_and_messages_round_trip() {
    let policies = [
        Policy::Random,
        Policy::BetterChoice,
        Policy::Rotor,
        Policy::EvictionLabel,
        Policy::Lsa,
        Policy::CavityD4,
        Policy::CavityScan,
        Policy::CavityBit,
        Policy::CavityRank4,
        Policy::CavityRank4Path,
        Policy::DenseCavityRank4,
        Policy::Bfs,
    ];
    for policy in policies {
        assert_eq!(Policy::parse(policy.name()), Ok(policy));
    }
    assert_eq!(Policy::Rotor.name(), "rotor_queue");
    assert_eq!(Policy::DenseCavityRank4.name(), "dense_cr4");
    assert_eq!(Policy::parse("cuckoo").unwrap_err(), "unknown policy: cuckoo");
    assert_eq!(PathReset::parse("lazy").unwrap_err(), "unknown path reset: lazy");
    assert_eq!(PathActivation::After(128).text(), "after:128");
    assert_eq!(PathActivation::parse("after:+7"), Ok(PathActivation::After(7)));
    assert_eq!(
        PathActivation::parse("after:nope").unwrap_err(),
        "invalid path activation after:nope: invalid digit found in string"
    );
    assert_eq!(
        PathActivation::parse("after:").unwrap_err(),
        "invalid path activation after:: cannot parse integer from empty string"
    );
    assert_eq!(
        PathActivation::parse("after:4294967296").unwrap_err(),
        "invalid path activation after:4294967296: number too large to fit in target type"
    );
    assert_eq!(PathActivation::parse("after:4294967295"), Ok(PathActivation::After(u32::MAX)));
    assert_eq!(PathActivation::parse("plateau").unwrap_err(), "unknown path activation: plateau");
    assert_eq!(
        ConfigError::PathBytes.message(),
        "path sketch bytes must be 512 or 2048"
    );
}

#[test]
fn decimal_reading_matches_the_standard_library() {
    for text in ["0", "+0", "17", "+17", "4294967295", "4294967296", "", "+", "-", "-1", "1a", "00012", "99999999999x"] {
        let expected = match text.parse::<u32>() {
            Ok(value) => Ok(value),
            Err(error) => Err(match error.kind() {
                std::num::IntErrorKind::Empty => DecimalError::Empty,
                std::num::IntErrorKind::PosOverflow => DecimalError::PosOverflow,
                _ => DecimalError::InvalidDigit,
            }),
        };
        assert_eq!(parse_u32(text), expected, "text={text:?}");
    }
    for value in [0u64, 9, 10, 99, 100, 12_345, u64::MAX] {
        assert_eq!(decimal_text(value), value.to_string());
    }
}

#[test]
fn configuration_errors_cover_every_rule() {
    let base = Config {
        bucket_count: 16,
        policy: Policy::CavityBit,
        seed: 0,
        max_kicks: 10,
        bfs_depth: 2,
        path: PathConfig::default(),
    };
    assert!(CuckooFilter::new(base).is_ok());
    assert_eq!(CuckooFilter::new(Config { bucket_count: 1, ..base }).unwrap_err(), ConfigError::BucketCount);
    assert_eq!(CuckooFilter::new(Config { bucket_count: 0, ..base }).unwrap_err(), ConfigError::BucketCount);
    assert_eq!(CuckooFilter::new(Config { max_kicks: 0, ..base }).unwrap_err(), ConfigError::MaxKicks);
    assert_eq!(CuckooFilter::new(Config { bfs_depth: 0, ..base }).unwrap_err(), ConfigError::BfsDepth);
    assert_eq!(
        CuckooFilter::new(Config { policy: Policy::CavityRank4Path, path: PathConfig { bytes: 100, ..PathConfig::default() }, ..base })
            .unwrap_err(),
        ConfigError::PathBytes
    );
    assert!(CuckooFilter::new(Config { path: PathConfig { bytes: 100, ..PathConfig::default() }, ..base }).is_ok());
    if usize::BITS == 64 {
        assert_eq!(
            CuckooFilter::new(Config { bucket_count: 1usize << 33, ..base }).unwrap_err(),
            ConfigError::BucketCountTooLarge
        );
    }
}

fn prefix_run(
    bucket_count: usize,
    policy: Policy,
    seed: u64,
    load: f64,
    max_kicks: u32,
    bfs_depth: u8,
    path: PathConfig,
) -> (PrefixCheck, usize) {
    let mut filter = CuckooFilter::new(Config {
        bucket_count,
        policy,
        seed: splitmix64(seed ^ BUILD_FILTER_SALT),
        max_kicks,
        bfs_depth,
        path,
    })
    .unwrap();
    let target = (filter.capacity() as f64 * load).floor() as usize;
    (check_prefixes(&mut filter, seed, target), target)
}

#[test]
fn correctness_checks_every_successful_prefix() {
    let (row, target) = prefix_run(
        32,
        Policy::CavityRank4Path,
        0,
        0.5,
        1_000,
        8,
        PathConfig {
            bytes: 512,
            activation: PathActivation::After(0),
            reset: PathReset::Full,
        },
    );
    let reached = !row.failed_attempt && row.false_negatives == 0 && row.inserted >= target;
    assert!(reached);
    assert_eq!(row.inserted, 64);
    assert_eq!(row.successful_insertions_checked, row.inserted);
    assert_eq!(
        row.membership_checks,
        row.inserted as u64 * (row.inserted as u64 + 1) / 2
    );
    assert_eq!(row.false_negatives, 0);
    assert!(!row.failed_attempt);

    let (failed, target) = prefix_run(64, Policy::Random, 0, 0.99, 1, 1, PathConfig::default());
    let reached = !failed.failed_attempt && failed.false_negatives == 0 && failed.inserted >= target;
    assert!(!reached);
    assert!(failed.failed_attempt);
    assert_eq!(failed.inserted, 182);
    assert_eq!(failed.successful_insertions_checked, failed.inserted);
    assert_eq!(
        failed.membership_checks,
        failed.inserted as u64 * (failed.inserted as u64 + 1) / 2
    );
    assert_eq!(failed.false_negatives, 0);
    assert!(!failed.filter_usable);
}

#[test]
fn prefix_checks_find_no_miss_for_any_policy() {
    for policy in [
        Policy::Random,
        Policy::BetterChoice,
        Policy::Rotor,
        Policy::EvictionLabel,
        Policy::Lsa,
        Policy::CavityScan,
        Policy::CavityBit,
        Policy::CavityRank4,
        Policy::CavityRank4Path,
        Policy::DenseCavityRank4,
        Policy::CavityD4,
        Policy::Bfs,
    ] {
        let (row, target) = prefix_run(64, policy, 5, 0.9, 500, 6, PathConfig::default());
        assert_eq!(row.false_negatives, 0);
        assert_eq!(row.failed_attempt, row.inserted < target);
        assert_eq!(row.filter_usable, !row.failed_attempt || policy == Policy::Bfs);
    }
}

struct ChurnOutcome {
    reached: bool,
    completed: usize,
    false_negatives: usize,
    filter_usable: bool,
    relocations: Vec<u32>,
    reads: Vec<u32>,
    writes: Vec<u32>,
}

#[allow(clippy::too_many_arguments)]
fn churn_run(
    bucket_count: usize,
    policy: Policy,
    seed: u64,
    load: f64,
    operations: usize,
    max_kicks: u32,
    bfs_depth: u8,
    verify_samples: usize,
) -> ChurnOutcome {
    let mut filter = CuckooFilter::new(Config {
        bucket_count,
        policy,
        seed: splitmix64(seed ^ CHURN_FILTER_SALT),
        max_kicks,
        bfs_depth,
        path: PathConfig::default(),
    })
    .unwrap();
    let target = (filter.capacity() as f64 * load).floor() as usize;
    let mut state = churn_prefill(&mut filter, seed, target);
    let mut relocations = Vec::new();
    let mut reads = Vec::new();
    let mut writes = Vec::new();
    let cycles = churn_cycles(
        &mut filter,
        &mut state,
        seed,
        operations,
        &mut relocations,
        &mut reads,
        &mut writes,
    );
    let mut false_negatives = cycles.false_negatives;
    let mut filter_usable = state.filter_usable;
    if false_negatives == 0 {
        false_negatives = sampled_false_negatives(&filter, &state.active, verify_samples);
        filter_usable &= false_negatives == 0;
    }
    ChurnOutcome {
        reached: state.reached,
        completed: cycles.completed,
        false_negatives,
        filter_usable,
        relocations,
        reads,
        writes,
    }
}

fn mean(values: &[u32]) -> f64 {
    values.iter().map(|&value| u64::from(value)).sum::<u64>() as f64 / values.len() as f64
}

fn interpolated(values: &[u32], probability: f64) -> f64 {
    let mut sorted = values.to_vec();
    sorted.sort_unstable();
    let index = probability * (sorted.len() - 1) as f64;
    let lower = index.floor() as usize;
    let upper = index.ceil() as usize;
    let fraction = index - lower as f64;
    f64::from(sorted[lower]) * (1.0 - fraction) + f64::from(sorted[upper]) * fraction
}

fn assert_close(actual: f64, expected: f64) {
    assert!((actual - expected).abs() < 0.000_000_5, "{actual} != {expected}");
}

struct BuildOutcome {
    reached: bool,
    inserted: usize,
    failure: Option<InsertStats>,
    window: WindowCounters,
    missing: Option<u64>,
    filter: CuckooFilter,
}

fn build_run(
    bucket_count: usize,
    policy: Policy,
    seed: u64,
    target_load: f64,
    window_width: f64,
    max_kicks: u32,
    bfs_depth: u8,
    path: PathConfig,
    verify: bool,
) -> BuildOutcome {
    let mut filter = CuckooFilter::new(Config {
        bucket_count,
        policy,
        seed: splitmix64(seed ^ BUILD_FILTER_SALT),
        max_kicks,
        bfs_depth,
        path,
    })
    .unwrap();
    let target = (filter.capacity() as f64 * target_load).floor() as usize;
    let window_begin =
        (filter.capacity() as f64 * (target_load - window_width).max(0.0)).floor() as usize;
    let stride = if verify { verification_stride(target, 200_000) } else { None };
    let mut run = BuildRun::start(seed, stride);
    loop {
        let until = if filter.len() < window_begin { window_begin } else { target };
        match build_until(&mut filter, &mut run, until, window_begin, stride, true) {
            BuildPause::Reached => {
                if filter.len() >= target {
                    break;
                }
            }
            BuildPause::PrepareDue => {
                let _ = filter.prepare_dense();
            }
            BuildPause::Failed => break,
        }
    }
    let missing = if verify && run.failure.is_none() {
        first_missing(&filter, &run.samples)
    } else {
        None
    };
    BuildOutcome {
        reached: run.failure.is_none() && filter.len() >= target,
        inserted: filter.len(),
        failure: run.failure,
        window: run.window,
        missing,
        filter,
    }
}

#[test]
fn experiment_smoke_test() {
    let build = build_run(256, Policy::CavityBit, 0, 0.9, 0.01, 1_000, 8, PathConfig::default(), true);
    assert!(build.reached);
    assert_eq!(build.inserted, 921);
    assert_eq!(build.missing, None);

    let churn = churn_run(256, Policy::CavityBit, 0, 0.9, 1_000, 1_000, 8, 1_000);
    assert!(churn.reached);
    assert_eq!(churn.false_negatives, 0);
    assert!(churn.filter_usable);
    assert_eq!(churn.completed, 1_000);
    assert_eq!(churn.relocations.len(), churn.completed);

    let (query, _, filter) = query_run(256, Policy::CavityBit, 0, 0.9, 10_000, 1_000, 8, 1_000);
    assert!(query.reached);
    assert_eq!(query.false_negatives, 0);
    assert!(query.filter_usable);
    assert_eq!(filter.persistent_metadata_bytes(), 0);
    assert_eq!(filter.transient_insertion_workspace_bytes(), 0);

    let (failed_query, _, _) = query_run(64, Policy::Random, 0, 0.99, 10, 1, 1, 200);
    assert!(!failed_query.reached);
    assert!(!failed_query.filter_usable);
}

fn query_run(
    bucket_count: usize,
    policy: Policy,
    seed: u64,
    load: f64,
    queries: usize,
    max_kicks: u32,
    bfs_depth: u8,
    verify_samples: usize,
) -> (QueryBuild, usize, CuckooFilter) {
    let mut filter = CuckooFilter::new(Config {
        bucket_count,
        policy,
        seed: splitmix64(seed ^ BUILD_FILTER_SALT),
        max_kicks,
        bfs_depth,
        path: PathConfig::default(),
    })
    .unwrap();
    let target = (filter.capacity() as f64 * load).floor() as usize;
    let build = query_build(&mut filter, seed, target, verify_samples);
    let false_positives = if build.reached {
        count_false_positives(&filter, seed, queries)
    } else {
        0
    };
    (build, false_positives, filter)
}

#[test]
fn query_build_stores_the_present_domain_and_counts_absent_hits() {
    let (build, false_positives, filter) =
        query_run(1_024, Policy::CavityBit, 7, 0.9, 20_000, 1_000, 8, 1_000);
    assert!(build.reached);
    assert_eq!(filter.len(), 3_686);
    for index in 0..filter.len() {
        assert!(filter.contains(query_domain_key(7, BUILD_KEY_SALT, index, false)));
    }
    let mut expected = 0;
    for index in 0..20_000 {
        if filter.contains(query_domain_key(7, QUERY_KEY_SALT, index, true)) {
            expected += 1;
        }
    }
    assert_eq!(false_positives, expected);
    assert!(false_positives < 20_000);

    let empty = CuckooFilter::new(Config {
        bucket_count: 16,
        policy: Policy::Random,
        seed: 0,
        max_kicks: 10,
        bfs_depth: 2,
        path: PathConfig::default(),
    })
    .unwrap();
    assert_eq!(count_false_positives(&empty, 7, 1_000), 0);
}

#[test]
fn present_and_absent_query_keys_differ_in_the_low_bit() {
    for seed in [0, 1, u64::MAX] {
        for index in [0, 1, 1_000, usize::MAX] {
            let present = query_domain_key(seed, BUILD_KEY_SALT, index, false);
            let absent = query_domain_key(seed, QUERY_KEY_SALT, index, true);
            assert_eq!(present & 1, 0);
            assert_eq!(absent & 1, 1);
            assert_ne!(present, absent);
        }
    }
}

#[test]
fn churn_counters_regression() {
    let expected = [
        (Policy::Random, 41.151_4, 221.02, 84.302_8, 42.151_4),
        (Policy::BetterChoice, 38.499_2, 204.01, 78.998_4, 39.499_2),
        (Policy::Rotor, 25.040_8, 130.0, 52.081_6, 26.040_8),
        (Policy::EvictionLabel, 6.233_2, 32.0, 39.399_2, 7.233_2),
        (Policy::Lsa, 5.177_2, 26.0, 36.759_2, 6.177_2),
        (Policy::CavityBit, 8.063_2, 43.0, 36.921_2, 9.063_2),
        (Policy::CavityRank4, 7.380_8, 43.0, 34.188_4, 8.380_8),
        (Policy::CavityD4, 6.131_6, 32.0, 29.170_8, 7.131_6),
        (Policy::Bfs, 1.767_2, 4.0, 47.477_8, 2.767_2),
    ];
    for (policy, relocations, p99, reads, writes) in expected {
        let row = churn_run(4_096, policy, 0, 0.97, 5_000, 5_000, 10, 20_000);
        assert!(row.reached);
        assert_eq!(row.completed, 5_000);
        assert_eq!(row.false_negatives, 0);
        assert_close(mean(&row.relocations), relocations);
        assert_close(interpolated(&row.relocations, 0.99), p99);
        assert_close(mean(&row.reads), reads);
        assert_close(mean(&row.writes), writes);
    }
}

#[test]
fn build_preserves_failed_attempt_and_path_tail_counters() {
    let failed = build_run(64, Policy::Random, 0, 0.99, 0.01, 1, 1, PathConfig::default(), false);
    assert!(!failed.reached);
    let failure = failed.failure.expect("a failed attempt");
    assert_eq!(failed.inserted, 182);
    assert_eq!(failure.relocations, 1);
    assert_eq!(failure.bucket_reads, 4);
    assert_eq!(failure.bucket_writes, 1);
    assert!(!failure.filter_usable);

    let sketch = PathConfig {
        bytes: 512,
        activation: PathActivation::After(0),
        reset: PathReset::Full,
    };
    let failed_path = build_run(64, Policy::CavityRank4Path, 0, 0.99, 0.01, 1, 1, sketch, false);
    let failure = failed_path.failure.expect("a failed attempt");
    assert!(!failure.filter_usable);
    assert!(failure.path_activated);
    assert_eq!(failure.path_activation_step, 1);
    assert_eq!(failure.path_guarded_steps, 1);
    assert!(failure.path_checks > 0);

    let guarded = build_run(256, Policy::CavityRank4Path, 0, 0.9, 0.1, 1_000, 8, sketch, true);
    assert!(guarded.reached);
    assert!(guarded.failure.is_none());
    assert_eq!(guarded.missing, None);
    assert!(guarded.window.path_activated > 0);
    assert_eq!(mean(&guarded.window.path_activation_steps), 1.0);
    assert_eq!(guarded.window.path_activation_steps.iter().max(), Some(&1));
    assert!(mean(&guarded.window.path_guarded_steps) > 0.0);
    assert!(mean(&guarded.window.path_checks) >= mean(&guarded.window.path_guarded_steps));
    assert_eq!(guarded.filter.transient_insertion_workspace_bytes(), 512);
    let (full, alias) = guarded.filter.rank4_codec_counts();
    assert!(full > 0);
    assert!(alias <= full);
}

#[test]
fn build_counters_regression() {
    let expected = [
        (Policy::Random, 17.884_146, 100.92, 37.768_293, 18.884_146),
        (Policy::BetterChoice, 15.957_317, 113.79, 33.914_634, 16.957_317),
        (Policy::Rotor, 5.378_049, 30.11, 12.756_098, 6.378_049),
        (Policy::Lsa, 1.884_146, 8.37, 16.5, 2.884_146),
        (Policy::CavityScan, 4.487_805, 25.0, 19.951_220, 5.487_805),
        (Policy::CavityBit, 1.859_756, 9.0, 11.469_512, 2.859_756),
        (Policy::CavityRank4, 1.878_049, 9.37, 11.560_976, 2.878_049),
        (Policy::CavityD4, 1.878_049, 9.37, 11.560_976, 2.878_049),
        (Policy::Bfs, 1.292_683, 3.0, 23.969_512, 2.292_683),
    ];
    for (policy, relocations, p99, reads, writes) in expected {
        let row = build_run(4_096, policy, 0, 0.95, 0.01, 5_000, 10, PathConfig::default(), true);
        assert!(row.reached);
        assert_eq!(row.inserted, 15_564);
        assert_eq!(row.window.relocations.len(), 164);
        assert_eq!(row.missing, None);
        assert_close_build(mean(&row.window.relocations), relocations);
        assert_close_build(interpolated(&row.window.relocations, 0.99), p99);
        assert_close_build(mean(&row.window.reads), reads);
        assert_close_build(mean(&row.window.writes), writes);
    }
}

fn assert_close_build(actual: f64, expected: f64) {
    assert!((actual - expected).abs() < 0.000_001, "{actual} != {expected}");
}

#[test]
fn latency_samples_are_ordered_and_exclude_failed_attempts() {
    let row = latency_run(256, Policy::CavityRank4, 0.9, 0.1, 1_000, 8);
    assert!(row.reached);
    assert_eq!(row.inserted, 921);
    assert_eq!(row.prefill_target, 819);
    assert_eq!(row.latencies.len(), 102);
    let mut sorted = row.latencies.clone();
    sorted.sort_unstable();
    let p50 = quantile_ns(&sorted, 0.50);
    let p95 = quantile_ns(&sorted, 0.95);
    let p99 = quantile_ns(&sorted, 0.99);
    let p999 = quantile_ns(&sorted, 0.999);
    assert!(p50 <= p95);
    assert!(p95 <= p99);
    assert!(p99 <= p999);
    assert!(p999 <= *sorted.last().unwrap() as f64);

    let failed = latency_run(64, Policy::Random, 0.99, 0.99, 1, 1);
    assert!(!failed.reached);
    assert!(failed.failed_attempt);
    assert!(failed.failed_attempt_timed);
    assert_eq!(failed.prefill_target, 0);
    assert_eq!(failed.latencies.len(), failed.failed_at);
    assert_eq!(failed.inserted, failed.latencies.len());
    assert!(!failed.filter_usable);
}

struct LatencyOutcome {
    reached: bool,
    inserted: usize,
    prefill_target: usize,
    latencies: Vec<u64>,
    failed_attempt: bool,
    failed_attempt_timed: bool,
    failed_at: usize,
    filter_usable: bool,
}

fn latency_run(
    bucket_count: usize,
    policy: Policy,
    target_load: f64,
    window_width: f64,
    max_kicks: u32,
    bfs_depth: u8,
) -> LatencyOutcome {
    let mut filter = CuckooFilter::new(Config {
        bucket_count,
        policy,
        seed: splitmix64(BUILD_FILTER_SALT),
        max_kicks,
        bfs_depth,
        path: PathConfig::default(),
    })
    .unwrap();
    let target = (filter.capacity() as f64 * target_load).floor() as usize;
    let prefill_target =
        (filter.capacity() as f64 * (target_load - window_width).max(0.0)).floor() as usize;
    let mut run = BuildRun::start(0, None);
    let pause = build_until(&mut filter, &mut run, prefill_target, usize::MAX, None, false);
    let mut failed_attempt = pause == BuildPause::Failed;
    let mut failed_at = if failed_attempt { filter.len() } else { 0 };
    let mut filter_usable = run.failure.map_or(true, |stats| stats.filter_usable);
    let mut failed_attempt_timed = false;
    let mut key_state = run.key_state;
    let mut latencies = Vec::new();
    while !failed_attempt && filter.len() < target {
        key_state = splitmix64(key_state);
        let start = std::time::Instant::now();
        let result = filter.insert(key_state);
        let elapsed = start.elapsed().as_nanos() as u64;
        if !result.inserted {
            failed_attempt = true;
            failed_attempt_timed = true;
            failed_at = filter.len();
            filter_usable = result.filter_usable;
            break;
        }
        latencies.push(elapsed);
    }
    LatencyOutcome {
        reached: !failed_attempt && filter.len() >= target,
        inserted: filter.len(),
        prefill_target,
        latencies,
        failed_attempt,
        failed_attempt_timed,
        failed_at,
        filter_usable,
    }
}

fn quantile_ns(sorted: &[u64], probability: f64) -> f64 {
    let index = probability * (sorted.len() - 1) as f64;
    let lower = index.floor() as usize;
    let upper = index.ceil() as usize;
    let fraction = index - lower as f64;
    sorted[lower] as f64 * (1.0 - fraction) + sorted[upper] as f64 * fraction
}

#[test]
fn build_run_keeps_samples_on_stride_multiples() {
    let mut filter = CuckooFilter::new(Config {
        bucket_count: 64,
        policy: Policy::CavityBit,
        seed: 5,
        max_kicks: 100,
        bfs_depth: 4,
        path: PathConfig::default(),
    })
    .unwrap();
    let mut run = BuildRun::start(9, Some(10));
    assert_eq!(build_until(&mut filter, &mut run, 100, 90, Some(10), true), BuildPause::Reached);
    assert_eq!(filter.len(), 100);
    assert_eq!(run.samples.len(), 10);
    let mut key = splitmix64(9 ^ BUILD_KEY_SALT);
    let mut keys = Vec::new();
    for _ in 0..100 {
        key = splitmix64(key);
        keys.push(key);
    }
    for (i, sample) in run.samples.iter().enumerate() {
        assert_eq!(*sample, keys[i * 10]);
    }
    assert_eq!(run.key_state, keys[99]);
    assert_eq!(run.window.relocations.len(), 10);
    assert_eq!(run.window.reads.len(), 10);
    assert!(run.window.relocated_operations <= 10);
    assert_eq!(first_missing(&filter, &keys), None);
    let absent = vec![keys[3], query_domain_key(0, QUERY_KEY_SALT, 0, true)];
    let missing = first_missing(&filter, &absent);
    assert!(missing.is_none() || missing == Some(absent[1]));
}
