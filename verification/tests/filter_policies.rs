use cavity_bit_filter::bucket::{Bucket, SLOTS};
use cavity_bit_filter::choice::{
    better_choice_destination, lsa_post_eviction_label, lsa_root, post_eviction_rank,
    random_destination, ranked_victim_slot,
};
use cavity_bit_filter::filter::{dense_prepare_due, DENSE_LOAD_DENOMINATOR, DENSE_LOAD_NUMERATOR};
use cavity_bit_filter::hash::{alt_index, fingerprint_delta, splitmix64};
use cavity_bit_filter::path::PathSketch;
use cavity_bit_filter::{Config, ConfigError, CuckooFilter, InsertStats, PathActivation, PathConfig, PathReset, Policy};

fn config(policy: Policy) -> Config {
    Config {
        bucket_count: 1 << 11,
        policy,
        seed: 17,
        max_kicks: 5_000,
        bfs_depth: 10,
        path: PathConfig::default(),
    }
}

fn all_slots(filter: &CuckooFilter) -> Vec<[u16; SLOTS]> {
    (0..filter.capacity() / SLOTS).map(|index| filter.bucket_slots(index)).collect()
}

#[test]
fn rejects_invalid_configuration() {
    let mut invalid = config(Policy::CavityBit);
    invalid.bucket_count = 3;
    assert!(matches!(CuckooFilter::new(invalid), Err(ConfigError::BucketCount)));
    invalid = config(Policy::CavityBit);
    invalid.max_kicks = 0;
    assert!(matches!(CuckooFilter::new(invalid), Err(ConfigError::MaxKicks)));
    invalid = config(Policy::CavityRank4Path);
    invalid.path.bytes = 1_024;
    assert!(matches!(CuckooFilter::new(invalid), Err(ConfigError::PathBytes)));
}

#[test]
fn alternate_bucket_is_an_involution() {
    let mask = (1 << 17) - 1;
    for fingerprint in [1, 2, 17, 257, u16::MAX] {
        for bucket in [0, 1, 12_345, mask] {
            let other = alt_index(mask, bucket, fingerprint);
            assert_ne!(other, bucket);
            assert_eq!(alt_index(mask, other, fingerprint), bucket);
        }
    }
}

#[test]
fn post_eviction_rank_matches_slow_reference() {
    fn slow_reference(cap: u8, predecessor_rank: u8, scores: [u8; SLOTS], victim_slot: usize) -> u8 {
        let mut post_eviction_scores = vec![predecessor_rank];
        post_eviction_scores.extend(
            scores
                .into_iter()
                .enumerate()
                .filter_map(|(slot, score)| if slot != victim_slot { Some(score) } else { None }),
        );
        post_eviction_scores.sort_unstable();
        cap.min(post_eviction_scores[0] + 1)
    }

    for cap in [2, 4, 8] {
        let radix = usize::from(cap) + 1;
        for predecessor_rank in 0..=cap {
            for victim_slot in 0..SLOTS {
                for code in 0..radix.pow(SLOTS as u32) {
                    let mut remaining = code;
                    let scores = std::array::from_fn(|_| {
                        let score = (remaining % radix) as u8;
                        remaining /= radix;
                        score
                    });
                    assert_eq!(
                        post_eviction_rank(cap, predecessor_rank, scores, victim_slot),
                        slow_reference(cap, predecessor_rank, scores, victim_slot),
                        "cap={cap}, predecessor={predecessor_rank}, victim={victim_slot}, scores={scores:?}"
                    );
                }
            }
        }
    }
}

#[test]
fn ranked_victim_is_invariant_to_all_lane_permutations() {
    fn permutations(values: [u16; SLOTS]) -> Vec<[u16; SLOTS]> {
        let mut output = Vec::new();
        for a in 0..SLOTS {
            for b in 0..SLOTS {
                for c in 0..SLOTS {
                    for d in 0..SLOTS {
                        if [a, b, c, d]
                            .into_iter()
                            .all(|index| [a, b, c, d].into_iter().filter(|&x| x == index).count() == 1)
                        {
                            output.push([values[a], values[b], values[c], values[d]]);
                        }
                    }
                }
            }
        }
        output
    }

    let mask = 255;
    let current = 0;
    let carry = 99;
    let scores_by_fingerprint = |fingerprint| match fingerprint {
        1..=3 => 2,
        4 => 3,
        _ => unreachable!(),
    };
    let mut expected = None;
    let distinct_permutations = permutations([1, 2, 3, 4]);
    assert_eq!(distinct_permutations.len(), 24);
    for residents in distinct_permutations {
        let neighbors = residents.map(|fingerprint| alt_index(mask, current, fingerprint));
        let scores = residents.map(scores_by_fingerprint);
        let (slot, _) = ranked_victim_slot(current, 7, carry, residents, neighbors, scores);
        let semantic_edge = (neighbors[slot], residents[slot]);
        assert_eq!(*expected.get_or_insert(semantic_edge), semantic_edge);
    }

    let mut duplicate_expected = None;
    for residents in permutations([1, 1, 2, 3]) {
        let neighbors = residents.map(|fingerprint| alt_index(mask, current, fingerprint));
        let (slot, _) = ranked_victim_slot(current, 7, carry, residents, neighbors, [2; SLOTS]);
        let semantic_edge = (neighbors[slot], residents[slot]);
        assert_eq!(*duplicate_expected.get_or_insert(semantic_edge), semantic_edge);
    }
}

#[test]
fn rank4_alias_propagates_the_realized_rank_to_the_next_backup() {
    let mask = 255;
    let current = 0;
    let incoming = 13;
    let repeated = 11;
    let distinct = 17;
    let repeated_target = alt_index(mask, current, repeated);
    let distinct_target = alt_index(mask, current, distinct);
    let scores = [4, 4, 4, 0];
    let neighbors = [repeated_target, repeated_target, repeated_target, distinct_target];
    let residents = [repeated, repeated, repeated, distinct];
    let (victim_slot, _) = ranked_victim_slot(current, 0, incoming, residents, neighbors, scores);
    assert_eq!(victim_slot, 3);
    let requested = post_eviction_rank(4, 4, scores, victim_slot);
    assert_eq!(requested, 4);
    let mut updated = residents;
    updated[victim_slot] = incoming;
    let encoded = Bucket::encode_rank4(updated, requested);
    let realized = encoded.decode_rank4();
    assert_eq!(realized, 1);

    assert_eq!(post_eviction_rank(4, realized, [4; SLOTS], 0), 2);
    assert_eq!(post_eviction_rank(4, requested, [4; SLOTS], 0), 4);
}

#[test]
fn lsa_post_eviction_label_matches_slow_reference() {
    fn slow_reference(predecessor_score: u64, scores: [u64; SLOTS], victim_slot: usize) -> u64 {
        let mut post_eviction_scores = vec![predecessor_score];
        post_eviction_scores.extend(
            scores
                .into_iter()
                .enumerate()
                .filter_map(|(slot, score)| if slot != victim_slot { Some(score) } else { None }),
        );
        post_eviction_scores.sort_unstable();
        post_eviction_scores[0] + 1
    }

    let radix = 5_usize;
    for predecessor_score in 0..radix as u64 {
        for victim_slot in 0..SLOTS {
            for code in 0..radix.pow(SLOTS as u32) {
                let mut remaining = code;
                let scores = std::array::from_fn(|_| {
                    let score = (remaining % radix) as u64;
                    remaining /= radix;
                    score
                });
                assert_eq!(
                    lsa_post_eviction_label(predecessor_score, scores, victim_slot),
                    slow_reference(predecessor_score, scores, victim_slot)
                );
            }
        }
    }
    assert_eq!(lsa_post_eviction_label(300, [400; SLOTS], 0), 301);
}

#[test]
fn initial_choice_baselines_follow_their_pinned_rules() {
    let first = 3;
    let second = 5;
    assert_eq!(random_destination(first, second, 3, 0, 1 << 32), first);
    assert_eq!(random_destination(first, second, 0, 3, 0), second);
    assert_eq!(better_choice_destination(first, second, 3, 0), second);
    assert_eq!(better_choice_destination(first, second, 2, 2), first);

    for (policy, changed) in [(Policy::Random, 1), (Policy::BetterChoice, 0)] {
        let mut filter = CuckooFilter::new(Config {
            bucket_count: 2,
            policy,
            max_kicks: 1,
            ..config(policy)
        })
        .unwrap();
        filter.set_bucket_slots(0, [1; SLOTS]);
        filter.set_bucket_slots(1, [2; SLOTS]);
        assert_eq!(filter.len(), filter.capacity());
        let before = all_slots(&filter);
        let _ = filter.insert_fingerprint(3, 0, 1, 0);
        let after = all_slots(&filter);
        assert_ne!(after[changed], before[changed]);
        assert_eq!(after[1 - changed], before[1 - changed]);
    }
}

#[test]
fn lsa_initializes_newly_full_buckets_from_actual_alternates() {
    let mut filter = CuckooFilter::new(Config {
        bucket_count: 8,
        policy: Policy::Lsa,
        ..config(Policy::Lsa)
    })
    .unwrap();
    filter.set_bucket_slots(0, [2, 2, 2, 0]);
    filter.set_bucket_slots(1, [1; SLOTS]);
    filter.set_bucket_slots(2, [2; SLOTS]);
    filter.set_lsa_label(1, 9);
    filter.set_lsa_label(2, 5);
    assert_eq!(filter.len(), 3 + 2 * SLOTS);

    let result = filter.insert_fingerprint(1, 0, 1, 0);

    assert!(result.inserted);
    assert_eq!(filter.lsa_label(0), 6);
}

#[test]
fn lsa_full_root_uses_minimum_label_and_ties_first() {
    assert_eq!(lsa_root(3, 5, 7, 9), 3);
    assert_eq!(lsa_root(3, 5, 9, 7), 5);
    assert_eq!(lsa_root(3, 5, 7, 7), 3);

    for (labels, changed) in [([9, 7], 1), ([7, 7], 0)] {
        let mut filter = CuckooFilter::new(Config {
            bucket_count: 2,
            policy: Policy::Lsa,
            max_kicks: 1,
            ..config(Policy::Lsa)
        })
        .unwrap();
        filter.set_bucket_slots(0, [1; SLOTS]);
        filter.set_bucket_slots(1, [2; SLOTS]);
        filter.set_lsa_label(0, labels[0]);
        filter.set_lsa_label(1, labels[1]);
        assert_eq!(filter.len(), filter.capacity());
        let before = all_slots(&filter);

        let _ = filter.insert_fingerprint(3, 0, 1, 0);

        let after = all_slots(&filter);
        assert_ne!(after[changed], before[changed]);
        assert_eq!(after[1 - changed], before[1 - changed]);
    }
}

#[test]
fn explicit_label_memory_is_accounted_in_bytes() {
    let mut lsa_config = config(Policy::Lsa);
    lsa_config.bucket_count = 64;
    assert_eq!(
        CuckooFilter::new(lsa_config).unwrap().persistent_metadata_bytes(),
        64 * std::mem::size_of::<u64>()
    );

    let mut historical_config = config(Policy::EvictionLabel);
    historical_config.bucket_count = 64;
    assert_eq!(CuckooFilter::new(historical_config).unwrap().persistent_metadata_bytes(), 64);
}

#[test]
fn path_activation_rules_match_their_boundaries() {
    let after = PathActivation::After(64);
    assert!(!after.triggers(63, 4, 4));
    assert!(after.triggers(64, 1, 0));

    assert!(!PathActivation::NoDescent.triggers(0, 3, 2));
    assert!(PathActivation::NoDescent.triggers(0, 3, 3));
    assert!(PathActivation::NoDescent.triggers(0, 3, 4));

    assert!(PathActivation::Rank4Plateau.triggers(0, 4, 4));
    assert!(!PathActivation::Rank4Plateau.triggers(0, 3, 4));
    assert!(!PathActivation::Rank4Plateau.triggers(0, 4, 3));
}

#[test]
fn path_configuration_strings_round_trip() {
    for activation in [
        PathActivation::After(0),
        PathActivation::After(64),
        PathActivation::NoDescent,
        PathActivation::Rank4Plateau,
    ] {
        assert_eq!(PathActivation::parse(&activation.text()), Ok(activation));
    }
    for reset in [PathReset::Full, PathReset::Sparse, PathReset::Generational] {
        assert_eq!(PathReset::parse(reset.name()), Ok(reset));
    }
    assert!(PathActivation::parse("after:nope").is_err());
    assert!(PathActivation::parse("plateau").is_err());
    assert!(PathReset::parse("lazy").is_err());
}

#[test]
fn path_novelty_never_overrides_rank_or_balanced_order() {
    let mut sketch = PathSketch::new(PathConfig {
        bytes: 512,
        activation: PathActivation::After(0),
        reset: PathReset::Full,
    });
    sketch.activate();
    let seen = 7;
    sketch.record(seen);
    let unseen = (8..).find(|&bucket| !sketch.contains(bucket)).unwrap();
    let neighbors = [seen, unseen, 101, 102];
    let tie_keys = [(1, seen, 1), (2, unseen, 2), (3, 101, 3), (4, 102, 4)];

    assert_eq!(sketch.prefer_unseen(1, &[1, 2, 2, 2], &neighbors, &tie_keys, 0), (0, 1, 0));
    assert_eq!(sketch.prefer_unseen(2, &[2, 2, 3, 3], &neighbors, &tie_keys, 0), (1, 2, 1));

    sketch.record(unseen);
    assert_eq!(sketch.prefer_unseen(2, &[2, 2, 3, 3], &neighbors, &tie_keys, 1), (1, 2, 0));
}

#[test]
fn path_stats_use_one_based_activation_and_count_actual_probes() {
    let path_config = PathConfig {
        bytes: 512,
        activation: PathActivation::After(0),
        reset: PathReset::Full,
    };
    let mut probe = PathSketch::new(path_config);
    probe.activate();
    probe.record(0);
    let victim = (1..=u16::MAX)
        .find(|&fingerprint| {
            let neighbor = alt_index(7, 0, fingerprint);
            neighbor != 0 && neighbor != 1 && !probe.contains(neighbor)
        })
        .unwrap();

    let mut filter = CuckooFilter::new(Config {
        bucket_count: 8,
        policy: Policy::CavityRank4Path,
        max_kicks: 1,
        path: path_config,
        ..config(Policy::CavityRank4Path)
    })
    .unwrap();
    filter.set_bucket_slots(0, [victim; SLOTS]);
    filter.set_bucket_slots(1, [1; SLOTS]);
    assert_eq!(filter.len(), 2 * SLOTS);

    let stats = filter.insert_fingerprint(3, 0, 1, 1 << 33);

    assert!(stats.inserted);
    assert!(stats.path_activated);
    assert_eq!(stats.path_activation_step, 1);
    assert_eq!(stats.path_guarded_steps, 1);
    assert_eq!(stats.path_checks, 4);
    assert_eq!(stats.path_seen_candidates_rejected, 0);
}

#[test]
fn path_reset_modes_are_logically_equivalent() {
    for reset in [PathReset::Full, PathReset::Sparse, PathReset::Generational] {
        let mut sketch = PathSketch::new(PathConfig {
            bytes: 512,
            activation: PathActivation::After(0),
            reset,
        });
        sketch.activate();
        sketch.record(17);
        assert!(sketch.contains(17));
        sketch.finish_insertion();
        assert_eq!(sketch.contains(17), reset != PathReset::Sparse);
        sketch.activate();
        assert!(!sketch.contains(17));
        sketch.record(19);
        assert!(sketch.contains(19));
    }

    let mut wrapped = PathSketch::new(PathConfig {
        bytes: 512,
        activation: PathActivation::After(0),
        reset: PathReset::Generational,
    });
    wrapped.activate();
    wrapped.record(23);
    wrapped.generation = u32::MAX;
    wrapped.activate();
    assert!(!wrapped.contains(23));
}

#[test]
fn path_storage_matches_configured_sketch_and_reset() {
    assert_eq!(
        PathConfig::default(),
        PathConfig {
            bytes: 2_048,
            activation: PathActivation::After(128),
            reset: PathReset::Full,
        }
    );
    for bytes in [512, 2_048] {
        for (reset, reset_bytes_per_word) in [
            (PathReset::Full, 0),
            (PathReset::Sparse, std::mem::size_of::<u16>()),
            (PathReset::Generational, std::mem::size_of::<u32>()),
        ] {
            let mut path_config = config(Policy::CavityRank4Path);
            path_config.path = PathConfig {
                bytes,
                activation: PathActivation::After(64),
                reset,
            };
            let path = CuckooFilter::new(path_config).unwrap();
            assert_eq!(
                path.transient_insertion_workspace_bytes(),
                bytes + bytes / std::mem::size_of::<u64>() * reset_bytes_per_word
            );
        }
    }

    assert_eq!(
        CuckooFilter::new(config(Policy::CavityRank4))
            .unwrap()
            .transient_insertion_workspace_bytes(),
        0
    );
}

#[test]
fn path_policy_preserves_the_query_contract() {
    let mut path_config = config(Policy::CavityRank4Path);
    path_config.bucket_count = 256;
    path_config.path = PathConfig {
        bytes: 512,
        activation: PathActivation::After(0),
        reset: PathReset::Full,
    };
    let mut path = CuckooFilter::new(path_config).unwrap();
    assert_eq!(path.payload_bytes(), path_config.bucket_count * std::mem::size_of::<u64>());
    let target = path.capacity() * 9 / 10;
    let mut inserted = Vec::with_capacity(target);
    let mut key = splitmix64(31);
    while path.len() < target {
        key = splitmix64(key);
        assert!(path.insert(key).inserted);
        inserted.push(key);
        assert!(inserted.iter().all(|&resident| path.contains(resident)));
    }

    let sketch = path.path_sketch().unwrap();
    let before = (
        sketch.words.clone(),
        sketch.touched.clone(),
        sketch.generations.clone(),
        sketch.generation,
    );
    assert!(before.0.iter().any(|&word| word != 0));
    for _ in 0..10_000 {
        key = splitmix64(key);
        let _ = path.contains(key);
    }
    let sketch = path.path_sketch().unwrap();
    assert_eq!(
        before,
        (
            sketch.words.clone(),
            sketch.touched.clone(),
            sketch.generations.clone(),
            sketch.generation,
        )
    );
}

#[test]
fn rank4_codec_counts_scan_only_full_ranked_buckets() {
    for policy in [Policy::CavityRank4, Policy::CavityRank4Path, Policy::DenseCavityRank4] {
        let mut filter = CuckooFilter::new(Config {
            bucket_count: 8,
            policy,
            ..config(policy)
        })
        .unwrap();
        filter.set_bucket_slots(0, [7, 7, 7, 11]);
        filter.set_bucket_slots(1, [1, 2, 3, 4]);
        filter.set_bucket_slots(2, [5, 5, 5, 0]);
        assert_eq!(filter.rank4_codec_counts(), (2, 1));
    }

    let mut random = CuckooFilter::new(Config {
        bucket_count: 8,
        policy: Policy::Random,
        ..config(Policy::Random)
    })
    .unwrap();
    random.set_bucket_slots(0, [7, 7, 7, 11]);
    assert_eq!(random.rank4_codec_counts(), (0, 0));
}

#[test]
fn bfs_counts_initial_and_path_application_reads() {
    let mut filter = CuckooFilter::new(Config {
        bucket_count: 8,
        policy: Policy::Bfs,
        ..config(Policy::Bfs)
    })
    .unwrap();
    let incoming = 1;
    let victim = 2;
    filter.set_bucket_slots(0, [victim; SLOTS]);
    filter.set_bucket_slots(1, [incoming; SLOTS]);
    assert_eq!(filter.len(), 2 * SLOTS);

    let stats = filter.insert_fingerprint(incoming, 0, 1, 0);

    assert_eq!(
        stats,
        InsertStats {
            inserted: true,
            filter_usable: true,
            relocations: 1,
            bucket_reads: 6,
            bucket_writes: 2,
            ..Default::default()
        }
    );
    let scratch = filter.bfs_scratch().unwrap();
    assert!(!scratch.queue.is_empty());
    assert!(!scratch.edges.is_empty());
    assert_eq!(filter.transient_insertion_workspace_bytes(), scratch.storage_bytes());
}

#[test]
fn bounded_failure_reports_whether_the_filter_is_still_usable() {
    let destructive = [
        Policy::Random,
        Policy::BetterChoice,
        Policy::Rotor,
        Policy::EvictionLabel,
        Policy::Lsa,
        Policy::CavityD4,
        Policy::CavityScan,
        Policy::CavityBit,
        Policy::CavityRank4,
        Policy::CavityRank4Path,
        Policy::DenseCavityRank4,
    ];
    for policy in destructive {
        let mut filter = CuckooFilter::new(Config {
            bucket_count: 2,
            policy,
            max_kicks: 1,
            ..config(policy)
        })
        .unwrap();
        filter.set_bucket_slots(0, [1; SLOTS]);
        filter.set_bucket_slots(1, [2; SLOTS]);
        assert_eq!(filter.len(), filter.capacity());
        filter.set_dense_mode(true);

        let result = filter.insert_fingerprint(3, 0, 1, 0);
        assert!(!result.inserted, "{} unexpectedly inserted", policy.name());
        assert!(!result.filter_usable, "{} hid destructive failure", policy.name());
    }

    let mut bfs = CuckooFilter::new(Config {
        bucket_count: 2,
        policy: Policy::Bfs,
        bfs_depth: 1,
        ..config(Policy::Bfs)
    })
    .unwrap();
    bfs.set_bucket_slots(0, [1; SLOTS]);
    bfs.set_bucket_slots(1, [2; SLOTS]);
    assert_eq!(bfs.len(), bfs.capacity());
    let before = all_slots(&bfs);

    let result = bfs.insert_fingerprint(3, 0, 1, 0);
    assert!(!result.inserted);
    assert!(result.filter_usable);
    assert_eq!(all_slots(&bfs), before);
}

#[test]
fn fingerprint_deltas_are_unique_at_the_fingerprint_width() {
    let mask = u16::MAX as u32;
    let mut seen = vec![false; mask as usize + 1];
    for fingerprint in 1..=u16::MAX {
        let delta = fingerprint_delta(mask, fingerprint);
        assert_ne!(delta, 0);
        assert!(!seen[delta as usize]);
        seen[delta as usize] = true;
    }
}

#[test]
fn all_policies_reach_high_load_without_false_negatives() {
    let policies = [
        Policy::Random,
        Policy::BetterChoice,
        Policy::Rotor,
        Policy::EvictionLabel,
        Policy::Lsa,
        Policy::CavityD4,
        Policy::CavityScan,
        Policy::CavityBit,
        Policy::CavityRank4,
        Policy::CavityRank4Path,
        Policy::DenseCavityRank4,
        Policy::Bfs,
    ];
    for policy in policies {
        let mut filter = CuckooFilter::new(config(policy)).unwrap();
        let target = (filter.capacity() as f64 * 0.95) as usize;
        let mut keys = Vec::with_capacity(target);
        let mut key = splitmix64(0x1234_5678_9abc_def0);
        while filter.len() < target {
            key = splitmix64(key);
            assert!(filter.insert(key).inserted, "{} failed early", policy.name());
            keys.push(key);
        }
        for key in &keys {
            assert!(filter.contains(*key), "false negative for {}", policy.name());
        }
        for key in keys.iter().step_by(23).take(64) {
            assert!(filter.remove(*key), "remove failed for {}", policy.name());
        }
    }
}

#[test]
fn dense_cr4_bootstrap_matches_truncated_residual_distances() {
    let mut dense = CuckooFilter::new(Config {
        bucket_count: 64,
        policy: Policy::DenseCavityRank4,
        ..config(Policy::DenseCavityRank4)
    })
    .unwrap();
    let bucket_count = dense.capacity() / SLOTS;
    let mask = (bucket_count - 1) as u32;
    for bucket in 0..bucket_count {
        let first = (bucket * SLOTS + 1) as u16;
        let mut slots = [first, first + 1, first + 2, first + 3];
        if bucket == 0 {
            slots[3] = 0;
        }
        dense.set_bucket_slots(bucket, slots);
    }
    assert_eq!(dense.len(), dense.capacity() - 1);

    let before: Vec<_> = (0..bucket_count)
        .map(|bucket| Bucket::from_slots(dense.bucket_slots(bucket)).sorted_slots())
        .collect();
    let mut distances = vec![usize::MAX; bucket_count];
    distances[0] = 0;
    for _ in 0..bucket_count {
        let mut changed = false;
        for bucket in 1..bucket_count {
            let best = dense
                .bucket_slots(bucket)
                .into_iter()
                .map(|fingerprint| distances[alt_index(mask, bucket as u32, fingerprint) as usize])
                .min()
                .unwrap();
            if best != usize::MAX && best + 1 < distances[bucket] {
                distances[bucket] = best + 1;
                changed = true;
            }
        }
        if !changed {
            break;
        }
    }

    let expected_writes = 63
        + distances
            .iter()
            .filter(|&&distance| distance == 2 || distance == 3)
            .count() as u64;
    let stats = dense.prepare_dense();
    assert!(stats.prepared);
    assert_eq!(stats.bucket_writes, expected_writes);
    assert_eq!(dense.persistent_metadata_bytes(), 0);
    assert_eq!(dense.transient_insertion_workspace_bytes(), 0);
    for bucket in 1..bucket_count {
        let word = Bucket::from_slots(dense.bucket_slots(bucket));
        assert_eq!(
            word.decode_rank4(),
            distances[bucket].min(4) as u8,
            "wrong rank for bucket {bucket}"
        );
        assert_eq!(word.sorted_slots(), before[bucket]);
    }
    assert_eq!(dense.prepare_dense(), Default::default());
}

#[test]
fn dense_cr4_waits_until_an_insert_would_cross_96_percent() {
    let mut dense = CuckooFilter::new(config(Policy::DenseCavityRank4)).unwrap();
    let mut rotor = CuckooFilter::new(config(Policy::Rotor)).unwrap();
    let mut key = 0;
    while dense.len() < dense.capacity() * 9 / 10 {
        key = splitmix64(key);
        assert_eq!(dense.insert(key), rotor.insert(key));
    }
    assert_eq!(all_slots(&dense), all_slots(&rotor));

    let trigger = dense.capacity() * DENSE_LOAD_NUMERATOR / DENSE_LOAD_DENOMINATOR;
    assert!(!dense.needs_dense_prepare());
    assert!(!dense_prepare_due(dense.policy(), dense.dense_mode(), trigger - 1, dense.capacity()));
    assert!(dense_prepare_due(dense.policy(), dense.dense_mode(), trigger, dense.capacity()));
}
