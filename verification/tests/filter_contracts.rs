use cavity_bit_filter::bucket::{Bucket, SLOTS};
use cavity_bit_filter::hash::{alt_index, splitmix64};
use cavity_bit_filter::{Config, CuckooFilter, PathActivation, PathConfig, PathReset, Policy};

fn small(policy: Policy) -> CuckooFilter {
    CuckooFilter::new(Config {
        bucket_count: 256,
        policy,
        seed: 3,
        max_kicks: 500,
        bfs_depth: 6,
        path: PathConfig::default(),
    })
    .unwrap()
}

#[test]
fn insert_then_remove_restores_the_table() {
    for policy in [Policy::CavityRank4, Policy::Lsa, Policy::Bfs, Policy::Rotor] {
        let mut filter = small(policy);
        assert!(filter.is_empty());
        let mut key = 5;
        for _ in 0..100 {
            key = splitmix64(key);
            assert!(filter.insert(key).inserted);
        }
        assert_eq!(filter.len(), 100);
        let probe = splitmix64(key);
        assert!(filter.insert(probe).inserted);
        assert!(filter.contains(probe));
        assert!(filter.remove(probe));
        assert_eq!(filter.len(), 100);
        assert!(!filter.remove(0xdead_beef) || filter.len() == 99);
    }
}

#[test]
fn removing_an_absent_key_changes_nothing() {
    let mut filter = small(Policy::CavityBit);
    assert!(!filter.contains(42));
    assert!(!filter.remove(42));
    assert!(filter.is_empty());
    assert_eq!(filter.capacity(), 256 * SLOTS);
}

#[test]
fn direct_placement_always_succeeds_with_room() {
    for policy in [Policy::Random, Policy::BetterChoice, Policy::CavityD4, Policy::EvictionLabel] {
        let mut filter = small(policy);
        let stats = filter.insert(77);
        assert!(stats.inserted);
        assert!(stats.filter_usable);
        assert_eq!(stats.relocations, 0);
        assert_eq!(stats.bucket_writes, 1);
        assert!(filter.contains(77));
    }
}

#[test]
fn dense_filter_prepares_once_and_keeps_every_key() {
    let mut dense = CuckooFilter::new(Config {
        bucket_count: 64,
        policy: Policy::DenseCavityRank4,
        seed: 9,
        max_kicks: 2_000,
        bfs_depth: 4,
        path: PathConfig::default(),
    })
    .unwrap();
    assert!(!dense.dense_mode());
    let mut keys = Vec::new();
    let mut key = 11;
    while dense.len() < dense.capacity() * 9 / 10 {
        key = splitmix64(key);
        assert!(dense.insert(key).inserted);
        keys.push(key);
    }
    let stats = dense.prepare_dense();
    assert!(stats.prepared);
    assert!(dense.dense_mode());
    assert!(keys.iter().all(|&key| dense.contains(key)));
    assert_eq!(dense.prepare_dense(), Default::default());
    let mut other = small(Policy::CavityRank4);
    assert!(!other.prepare_dense().prepared);
}

#[test]
fn direct_placement_reads_each_candidate_once() {
    for policy in [Policy::Random, Policy::BetterChoice, Policy::Rotor, Policy::EvictionLabel, Policy::Bfs] {
        let mut filter = small(policy);
        let stats = filter.insert(1234);
        assert!(stats.bucket_reads == 1 || stats.bucket_reads == 2);
        assert!(!stats.path_activated);
        assert_eq!(stats.path_checks, 0);
    }
    let mut ranked = small(Policy::CavityRank4);
    let stats = ranked.insert(1234);
    assert_eq!(stats.bucket_reads, 2);
    assert_eq!(stats.bucket_writes, 1);
}

#[test]
fn failed_kicks_use_every_step() {
    let mut filter = CuckooFilter::new(Config {
        bucket_count: 64,
        policy: Policy::Random,
        seed: 0,
        max_kicks: 3,
        bfs_depth: 1,
        path: PathConfig::default(),
    })
    .unwrap();
    let mut key = 1;
    loop {
        key = splitmix64(key);
        let stats = filter.insert(key);
        if stats.relocations > 0 && stats.inserted {
            assert!(stats.relocations <= 3);
            assert_eq!(stats.bucket_writes, stats.relocations + 1);
            let base = stats.bucket_reads - 2 * stats.relocations;
            assert!(base == 1 || base == 2);
        }
        if !stats.inserted {
            assert_eq!(stats.relocations, 3);
            assert_eq!(stats.bucket_writes, 3);
            assert!(stats.bucket_reads == 1 + 6 || stats.bucket_reads == 2 + 6);
            assert!(!stats.filter_usable);
            break;
        }
    }
}

#[test]
fn breadth_first_failure_writes_nothing() {
    let mut filter = CuckooFilter::new(Config {
        bucket_count: 64,
        policy: Policy::Bfs,
        seed: 0,
        max_kicks: 3,
        bfs_depth: 1,
        path: PathConfig::default(),
    })
    .unwrap();
    let mut key = 1;
    loop {
        key = splitmix64(key);
        let stats = filter.insert(key);
        if stats.relocations > 0 {
            assert!(stats.inserted);
            assert_eq!(stats.bucket_writes, stats.relocations + 1);
        }
        if !stats.inserted {
            assert_eq!(stats.relocations, 0);
            assert_eq!(stats.bucket_writes, 0);
            assert!(stats.filter_usable);
            break;
        }
    }
}

fn has_triple(s: [u16; 4]) -> bool {
    (s[0] == s[1] && s[1] == s[2])
        || (s[0] == s[1] && s[1] == s[3])
        || (s[0] == s[2] && s[2] == s[3])
        || (s[1] == s[2] && s[2] == s[3])
}

#[test]
fn dense_preparation_ranks_are_capped_distances_to_room() {
    let bucket_count = 256;
    let mut dense = CuckooFilter::new(Config {
        bucket_count,
        policy: Policy::DenseCavityRank4,
        seed: 4,
        max_kicks: 2_000,
        bfs_depth: 4,
        path: PathConfig::default(),
    })
    .unwrap();
    let mut key = 21;
    while dense.len() < dense.capacity() * 95 / 100 {
        key = splitmix64(key);
        assert!(dense.insert(key).inserted);
    }
    let mask = (bucket_count - 1) as u32;
    let before: Vec<[u16; 4]> = (0..bucket_count).map(|i| dense.bucket_slots(i)).collect();
    let full = |i: usize| before[i][3] != 0;
    let neighbors = |i: usize| before[i].map(|f| alt_index(mask, i as u32, f) as usize);
    let one: Vec<bool> = (0..bucket_count)
        .map(|i| full(i) && (neighbors(i).iter().any(|&j| !full(j)) || has_triple(before[i])))
        .collect();
    let two: Vec<bool> = (0..bucket_count)
        .map(|i| neighbors(i).iter().any(|&j| full(j) && one[j]))
        .collect();
    let three: Vec<bool> = (0..bucket_count)
        .map(|i| neighbors(i).iter().any(|&j| full(j) && !one[j] && two[j]))
        .collect();
    assert!(dense.prepare_dense().prepared);
    let mut seen = [0usize; 5];
    for i in 0..bucket_count {
        if !full(i) {
            assert_eq!(dense.bucket_slots(i), before[i]);
            continue;
        }
        let rank = Bucket::from_slots(dense.bucket_slots(i)).decode_rank4();
        let expected = if one[i] {
            1
        } else if two[i] {
            2
        } else if three[i] {
            3
        } else {
            4
        };
        assert_eq!(rank, expected, "bucket {i}");
        seen[rank as usize] += 1;
    }
    assert!(seen[1] > 0 && seen[2] > 0);
}

#[test]
fn ranked_relocation_reads_four_alternates_per_step() {
    let mut filter = CuckooFilter::new(Config {
        bucket_count: 64,
        policy: Policy::CavityRank4,
        seed: 0,
        max_kicks: 5,
        bfs_depth: 1,
        path: PathConfig::default(),
    })
    .unwrap();
    let mut key = 3;
    loop {
        key = splitmix64(key);
        let stats = filter.insert(key);
        if stats.inserted && stats.relocations > 0 {
            let extra = stats.bucket_reads - (2 + 4 * stats.relocations);
            assert!(extra <= 3);
        }
        if !stats.inserted {
            assert_eq!(stats.relocations, 5);
            assert_eq!(stats.bucket_reads, 2 + 4 * 5);
            break;
        }
    }
}

#[test]
fn path_guard_covers_every_relocation_after_activation() {
    let mut filter = CuckooFilter::new(Config {
        bucket_count: 64,
        policy: Policy::CavityRank4Path,
        seed: 2,
        max_kicks: 8,
        bfs_depth: 1,
        path: PathConfig {
            bytes: 512,
            activation: PathActivation::After(2),
            reset: PathReset::Sparse,
        },
    })
    .unwrap();
    let mut key = 9;
    let mut activated = 0;
    loop {
        key = splitmix64(key);
        let stats = filter.insert(key);
        if stats.path_activated {
            activated += 1;
            assert_eq!(stats.path_activation_step, 3);
            assert_eq!(stats.path_guarded_steps, stats.relocations - 2);
        } else {
            assert_eq!(stats.path_guarded_steps, 0);
            assert_eq!(stats.path_checks, 0);
            assert!(stats.relocations <= 2);
        }
        if !stats.inserted {
            break;
        }
    }
    assert!(activated > 0);
}

#[test]
fn fresh_tables_are_empty_and_remove_clears_the_first_candidate() {
    let mut filter = small(Policy::CavityRank4);
    for bucket in 0..256 {
        assert_eq!(filter.bucket_slots(bucket), [0; SLOTS]);
    }
    let key = 77;
    let (fingerprint, first, second, _) = cavity_bit_filter::hash::key_parts(255, key);
    assert!(filter.insert(key).inserted);
    assert!(filter.insert(key).inserted);
    let before: Vec<[u16; SLOTS]> = (0..256).map(|b| filter.bucket_slots(b)).collect();
    assert!(filter.remove(key));
    let holder = if before[first as usize].contains(&fingerprint) { first } else { second };
    for bucket in 0..256u32 {
        let after = filter.bucket_slots(bucket as usize);
        if bucket == holder {
            let old = before[bucket as usize];
            let position = old.iter().position(|&lane| lane == fingerprint).unwrap();
            let mut expected: Vec<u16> = old.to_vec();
            expected.remove(position);
            expected.push(0);
            assert_eq!(after.to_vec(), expected);
        } else {
            assert_eq!(after, before[bucket as usize]);
        }
    }
}

#[test]
fn direct_placement_fills_the_chosen_candidate_only() {
    for policy in [Policy::Random, Policy::BetterChoice, Policy::Rotor, Policy::CavityRank4] {
        let mut filter = small(policy);
        let key = 4_242;
        let (fingerprint, first, second, _) = cavity_bit_filter::hash::key_parts(255, key);
        let before: Vec<[u16; SLOTS]> = (0..256).map(|b| filter.bucket_slots(b)).collect();
        assert!(filter.insert(key).inserted);
        let changed: Vec<u32> = (0..256u32)
            .filter(|&b| filter.bucket_slots(b as usize) != before[b as usize])
            .collect();
        assert_eq!(changed.len(), 1);
        assert!(changed[0] == first || changed[0] == second);
        assert_eq!(filter.bucket_slots(changed[0] as usize), [fingerprint, 0, 0, 0]);
    }
}

#[test]
fn fingerprint_deltas_are_unique_for_wider_masks() {
    let mask: u32 = (1 << 18) - 1;
    let mut seen = std::collections::HashSet::new();
    for fingerprint in 1..=u16::MAX {
        let delta = cavity_bit_filter::hash::fingerprint_delta(mask, fingerprint);
        assert_ne!(delta, 0);
        assert!(seen.insert(delta));
    }
}

#[test]
fn a_late_path_rule_never_activates_before_its_step() {
    let mut filter = CuckooFilter::new(Config {
        bucket_count: 64,
        policy: Policy::CavityRank4Path,
        seed: 0,
        max_kicks: 1,
        bfs_depth: 1,
        path: PathConfig {
            bytes: 512,
            activation: PathActivation::After(128),
            reset: PathReset::Full,
        },
    })
    .unwrap();
    let mut key = 0;
    loop {
        key += 1;
        let stats = filter.insert(key);
        assert!(!stats.path_activated);
        if !stats.inserted {
            break;
        }
    }
}

fn bfs_with_room_two_hops_away(depth: u8) -> (CuckooFilter, u64) {
    let mut filter = CuckooFilter::new(Config {
        bucket_count: 64,
        policy: Policy::Bfs,
        seed: 1,
        max_kicks: 10,
        bfs_depth: depth,
        path: PathConfig::default(),
    })
    .unwrap();
    let d1 = cavity_bit_filter::hash::fingerprint_delta(63, 1);
    let d2 = cavity_bit_filter::hash::fingerprint_delta(63, 2);
    let mut key = 0;
    loop {
        key += 1;
        let (_, first, second, _) = cavity_bit_filter::hash::key_parts(63, key);
        let room = first ^ d1 ^ d2;
        let near = [first, second, first ^ d1, first ^ d2, second ^ d1, second ^ d2];
        if !near.contains(&room) {
            for bucket in 0..64u32 {
                let lanes = if bucket == room { [0; SLOTS] } else { [1, 2, 1, 2] };
                filter.set_bucket_slots(bucket as usize, lanes);
            }
            return (filter, key);
        }
    }
}

#[test]
fn breadth_first_search_finds_room_within_its_depth() {
    let (mut deep, key) = bfs_with_room_two_hops_away(2);
    let stats = deep.insert(key);
    assert!(stats.inserted);
    assert_eq!(stats.relocations, 2);
    assert!(deep.contains(key));

    let (mut shallow, key) = bfs_with_room_two_hops_away(1);
    let before: Vec<[u16; SLOTS]> = (0..64).map(|b| shallow.bucket_slots(b)).collect();
    let stats = shallow.insert(key);
    assert!(!stats.inserted);
    assert!(stats.filter_usable);
    assert_eq!(stats.relocations, 0);
    for bucket in 0..64 {
        assert_eq!(shallow.bucket_slots(bucket), before[bucket]);
    }
}

#[test]
fn lsa_label_room_counts_each_insertion_as_max_kicks_plus_one() {
    let mut filter = small(Policy::Lsa);
    assert!(filter.has_label_room(1));
    assert!(filter.has_label_room(1000));
    filter.set_lsa_label(0, u64::MAX - 501);
    assert!(filter.has_label_room(1));
    assert!(!filter.has_label_room(2));
    filter.set_lsa_label(0, u64::MAX - 500);
    assert!(!filter.has_label_room(1));
    assert!(!filter.has_label_room(u64::MAX));
    let rotor = small(Policy::Rotor);
    assert!(rotor.has_label_room(u64::MAX));
}
