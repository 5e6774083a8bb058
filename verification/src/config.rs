//! Policies, configuration and per-operation statistics.

use vstd::prelude::*;

verus! {

/// Insertion and relocation strategy.
#[derive(Clone, Copy, Debug, PartialEq, Eq, Structural)]
pub enum Policy {
    /// Chooses candidate buckets and eviction slots pseudo-randomly.
    Random,
    /// Prefers the less occupied candidate bucket, then uses random evictions.
    BetterChoice,
    /// Evicts the oldest slot by rotating each full bucket.
    Rotor,
    /// Prefers alternate buckets with lower persistent eviction counters.
    EvictionLabel,
    /// Uses persistent LSA residual labels to select an eviction edge.
    Lsa,
    /// Eight-state orientation baseline encoded by all four slot positions.
    CavityD4,
    /// Scans all four alternate buckets but treats every full bucket as rank 2.
    CavityScan,
    /// Pair-CavityBit: a two-level rank encoded by the first slot pair.
    CavityBit,
    /// CavityRank-4: a four-level rank encoded by two slot pairs.
    CavityRank4,
    /// CavityRank-4 with a lazily activated, insertion-local visited-bucket sketch.
    CavityRank4Path,
    /// Uses Rotor until automatic preparation at 96% load, then CavityRank-4.
    DenseCavityRank4,
    /// Finds a bounded augmenting path with reusable breadth-first-search state.
    Bfs,
}

/// Policies that store ranks in full buckets.
pub open spec fn is_ranked(policy: Policy) -> bool {
    match policy {
        Policy::CavityD4 | Policy::CavityScan | Policy::CavityBit | Policy::CavityRank4
        | Policy::CavityRank4Path | Policy::DenseCavityRank4 => true,
        _ => false,
    }
}

/// Policies whose ranks use the four-level two-pair codec.
pub open spec fn is_rank4(policy: Policy) -> bool {
    match policy {
        Policy::CavityRank4 | Policy::CavityRank4Path | Policy::DenseCavityRank4 => true,
        _ => false,
    }
}

/// Condition that activates the insertion-local path sketch.
#[derive(Clone, Copy, Debug, PartialEq, Eq, Structural)]
pub enum PathActivation {
    /// Activate before relocation `N + 1`.
    After(u32),
    /// Activate when no target has a strictly smaller rank than the current
    /// bucket.
    NoDescent,
    /// Activate when the current bucket and all four candidate targets have rank 4.
    Rank4Plateau,
}

/// Strategy for clearing the insertion-local path sketch.
#[derive(Clone, Copy, Debug, PartialEq, Eq, Structural)]
pub enum PathReset {
    /// Clear the full sketch when an insertion activates it.
    Full,
    /// Clear only words touched by the insertion when that insertion ends.
    Sparse,
    /// Advance a global generation and lazily clear each word when first written.
    Generational,
}

/// Configuration for [`Policy::CavityRank4Path`].
#[derive(Clone, Copy, Debug, PartialEq, Eq, Structural)]
pub struct PathConfig {
    /// Bitset bytes; CR4-Path supports 512 or 2,048, excluding reset
    /// bookkeeping.
    pub bytes: usize,
    /// Condition that starts recording and checking the sketch.
    pub activation: PathActivation,
    /// Method used to clear state between activated insertions.
    pub reset: PathReset,
}

impl Default for PathConfig {
    fn default() -> (r: PathConfig)
        ensures
            r == (PathConfig { bytes: 2048, activation: PathActivation::After(128), reset: PathReset::Full }),
    {
        PathConfig { bytes: 2_048, activation: PathActivation::After(128), reset: PathReset::Full }
    }
}

/// Construction parameters for a filter.
#[derive(Clone, Copy, Debug)]
pub struct Config {
    /// Power-of-two bucket count in `2..=2^32`.
    pub bucket_count: usize,
    /// Insertion and relocation strategy.
    pub policy: Policy,
    /// Seed for policy-specific pseudo-random choices.
    pub seed: u64,
    /// Maximum relocations for bounded kick-based policies; must be nonzero.
    pub max_kicks: u32,
    /// Maximum path depth for [`Policy::Bfs`]; must be nonzero.
    pub bfs_depth: u8,
    /// Settings used only by [`Policy::CavityRank4Path`].
    pub path: PathConfig,
}

impl Default for Config {
    fn default() -> (r: Config)
        ensures
            r.bucket_count == 1usize << 17usize,
            r.policy == Policy::CavityBit,
            r.seed == 0,
            r.max_kicks == 5000,
            r.bfs_depth == 10,
            r.path == (PathConfig { bytes: 2048, activation: PathActivation::After(128), reset: PathReset::Full }),
    {
        Config {
            bucket_count: 1 << 17,
            policy: Policy::CavityBit,
            seed: 0,
            max_kicks: 5_000,
            bfs_depth: 10,
            path: PathConfig::default(),
        }
    }
}

/// Invalid filter configuration.
#[derive(Clone, Copy, Debug, PartialEq, Eq, Structural)]
pub enum ConfigError {
    /// `bucket_count` is smaller than two or is not a power of two.
    BucketCount,
    /// `bucket_count - 1` does not fit in the internal `u32` mask.
    BucketCountTooLarge,
    /// `max_kicks` is zero.
    MaxKicks,
    /// `bfs_depth` is zero.
    BfsDepth,
    /// CR4-Path was configured with an unsupported bitset size.
    PathBytes,
}

/// Outcome and logical bucket-access counts for one insertion attempt.
#[derive(Clone, Copy, Debug, PartialEq, Eq, Structural)]
#[must_use]
pub struct InsertStats {
    /// Whether the key was inserted.
    pub inserted: bool,
    /// Whether the filter remains safe to use after this attempt.
    ///
    /// Kick-based policies avoid an `O(max_kicks)` undo log. Their bounded
    /// failures therefore set this to `false`; discard or rebuild the filter.
    pub filter_usable: bool,
    /// Number of fingerprints moved between buckets.
    pub relocations: u32,
    /// Logical bucket reads charged by the insertion model.
    pub bucket_reads: u32,
    /// Logical bucket writes charged by the insertion model.
    pub bucket_writes: u32,
    /// Whether the CR4-Path sketch activated.
    pub path_activated: bool,
    /// One-based relocation step at activation; zero when the guard stayed
    /// inactive.
    pub path_activation_step: u32,
    /// Relocation steps protected by the active path sketch.
    pub path_guarded_steps: u32,
    /// Equal-rank candidate buckets checked against the sketch.
    pub path_checks: u32,
    /// Equal-rank candidates rejected because the sketch reported them seen.
    pub path_seen_candidates_rejected: u32,
}

/// Statistics of an attempt that has not done anything yet.
pub open spec fn fresh_stats() -> InsertStats {
    InsertStats {
        inserted: false,
        filter_usable: true,
        relocations: 0,
        bucket_reads: 0,
        bucket_writes: 0,
        path_activated: false,
        path_activation_step: 0,
        path_guarded_steps: 0,
        path_checks: 0,
        path_seen_candidates_rejected: 0,
    }
}

/// Two statistics records that differ at most in their bucket reads.
pub open spec fn same_except_reads(a: InsertStats, b: InsertStats) -> bool {
    &&& a.inserted == b.inserted
    &&& a.filter_usable == b.filter_usable
    &&& a.relocations == b.relocations
    &&& a.bucket_writes == b.bucket_writes
    &&& a.path_activated == b.path_activated
    &&& a.path_activation_step == b.path_activation_step
    &&& a.path_guarded_steps == b.path_guarded_steps
    &&& a.path_checks == b.path_checks
    &&& a.path_seen_candidates_rejected == b.path_seen_candidates_rejected
}

/// Statistics of an insertion that placed its fingerprint in a candidate
/// bucket with room: one bucket written, nothing relocated and no path
/// sketch activity.
pub open spec fn direct_placement(stats: InsertStats) -> bool {
    &&& stats.inserted
    &&& stats.filter_usable
    &&& stats.relocations == 0
    &&& stats.bucket_writes == 1
    &&& !stats.path_activated
    &&& stats.path_activation_step == 0
    &&& stats.path_guarded_steps == 0
    &&& stats.path_checks == 0
    &&& stats.path_seen_candidates_rejected == 0
}

/// Statistics of an insertion that relocated fingerprints for at most
/// `max_kicks` steps: one bucket written per relocation plus the final
/// placement on success; a failure used every step.
pub open spec fn kicked_stats(stats: InsertStats, max_kicks: u32) -> bool {
    if stats.inserted {
        &&& 1 <= stats.relocations <= max_kicks
        &&& stats.relocations < u32::MAX ==> stats.bucket_writes == stats.relocations + 1
    } else {
        &&& stats.relocations == max_kicks
        &&& stats.bucket_writes == max_kicks
    }
}

/// Statistics of a breadth-first insertion: a found path of at most 256
/// relocations writes each of its buckets and the bucket with room; a
/// failed search writes and relocates nothing.
pub open spec fn searched_stats(stats: InsertStats) -> bool {
    if stats.inserted {
        &&& 1 <= stats.relocations <= 256
        &&& stats.bucket_writes == stats.relocations + 1
    } else {
        &&& stats.relocations == 0
        &&& stats.bucket_writes == 0
    }
}

/// Statistics that record no path sketch activity.
pub open spec fn no_path_activity(stats: InsertStats) -> bool {
    &&& !stats.path_activated
    &&& stats.path_activation_step == 0
    &&& stats.path_guarded_steps == 0
    &&& stats.path_checks == 0
    &&& stats.path_seen_candidates_rejected == 0
}

/// Path sketch statistics: none without activation; an activation, which
/// only the path policy makes, guards every relocation from the activating
/// one to the last.
pub open spec fn path_stats(stats: InsertStats, path_policy: bool) -> bool {
    &&& !stats.path_activated ==> no_path_activity(stats)
    &&& stats.path_activated ==> {
        &&& path_policy
        &&& 1 <= stats.path_activation_step <= stats.relocations
        &&& stats.path_guarded_steps == stats.relocations - stats.path_activation_step + 1
    }
}

impl Default for InsertStats {
    fn default() -> (r: InsertStats)
        ensures
            r == fresh_stats(),
    {
        InsertStats {
            inserted: false,
            filter_usable: true,
            relocations: 0,
            bucket_reads: 0,
            bucket_writes: 0,
            path_activated: false,
            path_activation_step: 0,
            path_guarded_steps: 0,
            path_checks: 0,
            path_seen_candidates_rejected: 0,
        }
    }
}

/// Work performed by a dense preparation.
#[derive(Clone, Copy, Debug, PartialEq, Eq, Structural)]
#[must_use]
pub struct DensePreparationStats {
    /// Whether this call performed the one-time preparation.
    pub prepared: bool,
    /// Logical bucket reads during preparation.
    pub bucket_reads: u64,
    /// Logical bucket writes during preparation.
    pub bucket_writes: u64,
}

impl Default for DensePreparationStats {
    fn default() -> (r: DensePreparationStats)
        ensures
            r == (DensePreparationStats { prepared: false, bucket_reads: 0, bucket_writes: 0 }),
    {
        DensePreparationStats { prepared: false, bucket_reads: 0, bucket_writes: 0 }
    }
}

} // verus!
