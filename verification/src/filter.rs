//! The packed Cuckoo Filter: construction, lookup, removal and the
//! insertion policies.

use vstd::prelude::*;

verus! {

use vstd::multiset::Multiset;
use vstd::layout::size_of;
use crate::bfs::{BfsScratch, NO_PARENT};
use crate::bucket::{
    Bucket, SLOTS, all_nonzero, holds, is_prefix_form, occupancy_of, slot_multiset, first_position,
    sort4, lemma_compact_multiset, lemma_update_multiset, lemma_sort4, cavity_rank, rank4_of,
    d4_state, cavity_arrangement, rank4_arrangement, d4_arrangement,
};
use crate::choice::{
    better_choice_destination, direct_destination, direct_destination_spec, lsa_post_eviction_label,
    lsa_root, random_destination, random_destination_spec, post_eviction_rank, ranked_victim_slot,
};
use crate::config::is_rank4;
use crate::config::{Config, ConfigError, DensePreparationStats, InsertStats, PathActivation, PathReset, Policy, fresh_stats, is_ranked, same_except_reads, direct_placement, kicked_stats, searched_stats, no_path_activity, path_stats};
use crate::hash::{
    alt_index, alt_index_spec, home_bucket, is_low_mask, key_item, key_parts, lemma_alt_index,
    splitmix64, splitmix64_spec, key_fingerprint, key_first, key_second,
};
use crate::model::{
    all_items, bucket_items, lane_item, lemma_bucket_items_exchange, lemma_bucket_items_remove,
    lemma_bucket_items_update, lemma_item_in_candidates, lemma_table_items_empty,
    lemma_table_items_len, lemma_table_items_update, lemma_bucket_items_len,
    lemma_bucket_items_permutation, lemma_cancel, lemma_exchange, lemma_grow,
};
use crate::path::PathSketch;
use crate::capacity::allocated;
use crate::bucket::{has_triple, lemma_permuted_lanes};

/// Salt mixed into the seed of the policy random-number generator.
pub const RNG_SALT: u64 = 0x243f_6a88_85a3_08d3;
/// Dense preparation starts once `len >= capacity * 24 / 25`.
pub const DENSE_LOAD_NUMERATOR: usize = 24;
/// Denominator of the dense preparation load threshold.
pub const DENSE_LOAD_DENOMINATOR: usize = 25;

/// Deterministic SplitMix64 stream for random evictions.
#[derive(Debug)]
pub struct FastRng(pub u64);

impl FastRng {
    /// Advances the state and returns it.
    pub fn next(&mut self) -> (r: u64)
        ensures
            final(self).0 == splitmix64_spec(old(self).0),
            r == final(self).0,
    {
        self.0 = splitmix64(self.0);
        self.0
    }
}

/// A power of two in the bit-trick sense: nonzero, with one bit set.
pub open spec fn is_power_of_two(n: usize) -> bool {
    n != 0 && n & ((n - 1) as usize) == 0
}

/// The first validation failure of a configuration, if any.
pub open spec fn config_error(config: Config) -> Option<ConfigError> {
    if config.bucket_count < 2 || !is_power_of_two(config.bucket_count) {
        Some(ConfigError::BucketCount)
    } else if config.bucket_count - 1 > u32::MAX {
        Some(ConfigError::BucketCountTooLarge)
    } else if config.max_kicks == 0 {
        Some(ConfigError::MaxKicks)
    } else if config.bfs_depth == 0 {
        Some(ConfigError::BfsDepth)
    } else if config.policy == Policy::CavityRank4Path && !(config.path.bytes == 512
        || config.path.bytes == 2048) {
        Some(ConfigError::PathBytes)
    } else {
        None
    }
}

/// A table of `mask + 1` buckets whose occupied lanes form prefixes.
pub open spec fn table_wf(mask: u32, t: Seq<Bucket>) -> bool {
    &&& is_low_mask(mask)
    &&& mask >= 1
    &&& t.len() == mask as int + 1
    &&& forall|i: int| 0 <= i < t.len() ==> #[trigger] is_prefix_form(t[i]@)
}

/// What an insertion attempt did to the stored items: on success it added
/// `item`; on a failure that leaves the filter usable nothing changed; on a
/// destructive failure exactly one of the items, old or new, was lost.
pub open spec fn insertion_outcome(
    before: Multiset<(u16, u32)>,
    after: Multiset<(u16, u32)>,
    item: (u16, u32),
    stats: InsertStats,
) -> bool {
    if stats.inserted {
        after == before.insert(item)
    } else if stats.filter_usable {
        after == before
    } else {
        exists|lost: (u16, u32)|
            before.insert(item).count(lost) > 0 && after == before.insert(item).remove(lost)
    }
}

/// Single-threaded packed Cuckoo Filter over `u64` keys.
#[derive(Debug)]
pub struct CuckooFilter {
    buckets: Vec<Bucket>,
    eviction_labels: Vec<u8>,
    lsa_labels: Vec<u64>,
    policy: Policy,
    mask: u32,
    rng: FastRng,
    max_kicks: u32,
    size: usize,
    dense_mode: bool,
    bfs: Option<BfsScratch>,
    path: Option<PathSketch>,
}

impl CuckooFilter {
    /// The bucket-index mask, `bucket_count - 1`.
    pub closed spec fn table_mask(&self) -> u32 {
        self.mask
    }

    /// Number of buckets.
    pub closed spec fn bucket_count_spec(&self) -> nat {
        self.buckets@.len()
    }

    /// Lanes of bucket `i`.
    pub closed spec fn lanes_at(&self, i: int) -> Seq<u16> {
        self.buckets@[i]@
    }

    /// The insertion policy.
    pub closed spec fn policy_spec(&self) -> Policy {
        self.policy
    }

    /// The relocation bound.
    pub closed spec fn max_kicks_spec(&self) -> u32 {
        self.max_kicks
    }

    /// Whether ranked insertion is active (always, except for a dense
    /// filter before its preparation).
    pub closed spec fn ranked_ready(&self) -> bool {
        self.dense_mode
    }

    /// LSA label of bucket `i`.
    pub closed spec fn lsa_label_spec(&self, i: int) -> u64 {
        self.lsa_labels@[i]
    }

    /// Lanes of bucket `d` after a ranked policy places `fingerprint` in
    /// its first free lane: when that fills the bucket, its four
    /// fingerprints are reordered to encode the bucket's initial rank, given
    /// the rank `predecessor` of the other candidate.
    pub closed spec fn ranked_fill(&self, d: u32, fingerprint: u16, predecessor: int) -> Seq<u16> {
        let lanes = self.buckets@[d as int]@;
        let placed = placed_lanes(lanes, fingerprint);
        if placed[3] != 0 {
            encoded_lanes(
                self.policy,
                placed,
                initial_rank(
                    self.policy,
                    self.mask,
                    self.buckets@,
                    d,
                    placed,
                    occupancy_of(lanes) as int,
                    predecessor,
                ) as u8,
            )
        } else {
            placed
        }
    }

    /// Alternate buckets a ranked policy reads when it places `fingerprint`
    /// in bucket `d` with predecessor rank `predecessor`: none when the
    /// bucket keeps room, else those read to find its initial rank.
    pub closed spec fn ranked_fill_reads(&self, d: u32, fingerprint: u16, predecessor: int) -> nat {
        let lanes = self.buckets@[d as int]@;
        let placed = placed_lanes(lanes, fingerprint);
        if placed[3] != 0 {
            initial_rank_reads(self.policy, self.mask, self.buckets@, d, placed, occupancy_of(lanes) as int, predecessor)
        } else {
            0
        }
    }

    /// Eviction-label scores of the alternate buckets of `residents` in
    /// `bucket`: a full bucket's label, zero for one with room.
    pub closed spec fn eviction_scores(&self, bucket: u32, residents: Seq<u16>) -> Seq<int> {
        Seq::new(
            4,
            |i: int| {
                let n = alt_index_spec(self.mask, bucket, residents[i]) as int;
                if self.buckets@[n]@[3] != 0 {
                    self.eviction_labels@[n] as int
                } else {
                    0
                }
            },
        )
    }

    /// Under LSA, every label is at most `b` (no bound for the other
    /// policies, which keep no LSA labels).
    pub closed spec fn labels_at_most(&self, b: int) -> bool {
        self.policy == Policy::Lsa ==> forall|i: int|
            0 <= i < self.lsa_labels@.len() ==> #[trigger] self.lsa_labels@[i] <= b
    }

    /// The LSA labels can grow through `inserts` more insertions without
    /// passing `u64::MAX`: an insertion raises no label past the largest
    /// one by more than `max_kicks + 1`.
    pub open spec fn label_room(&self, inserts: int) -> bool {
        self.labels_at_most(u64::MAX - inserts * (self.max_kicks_spec() + 1))
    }

    /// One eviction of a kick policy from the full bucket `bucket` of this
    /// filter gives `post`, evicts `victim` and moves the LSA chain label from
    /// `pred` to `next_pred`:
    /// - EvictionLabel sorts the lanes, evicts the lane whose alternate bucket
    ///   has the least label (scored round from a hashed start, first strict
    ///   minimum), stores the rest with `carry` sorted, and raises the
    ///   bucket's label by one (saturating);
    /// - LSA does the same with LSA scores and sets the bucket's label, and
    ///   the chain label, to the post-eviction label;
    /// - Random and BetterChoice advance the generator and evict the lane it
    ///   picks (`next % 4`), `carry` taking its place;
    /// - the others (Rotor, and the dense filter before preparation) evict
    ///   the oldest lane, the rest moving down and `carry` joining last.
    /// Every other bucket, and everything but the named labels and the
    /// generator, stays.
    pub closed spec fn kick_evict(
        &self,
        post: &CuckooFilter,
        bucket: u32,
        carry: u16,
        step: u32,
        pred: u64,
        next_pred: u64,
        victim: u16,
    ) -> bool {
        let word = self.buckets@[bucket as int]@;
        let lanes = post.buckets@[bucket as int]@;
        &&& post.buckets@ == self.buckets@.update(bucket as int, post.buckets@[bucket as int])
        &&& post.mask == self.mask
        &&& post.policy == self.policy
        &&& post.max_kicks == self.max_kicks
        &&& post.bfs == self.bfs
        &&& post.path == self.path
        &&& post.dense_mode == self.dense_mode
        &&& post.size == self.size
        &&& match self.policy {
            Policy::EvictionLabel => {
                let rs = sort4(word);
                let v = rotation_choice(self.eviction_scores(bucket, rs), choice_start(bucket, carry, step), 0, 255, 4).0;
                let label = self.eviction_labels@[bucket as int];
                &&& victim == rs[v]
                &&& lanes == sort4(rs.remove(v).push(carry))
                &&& post.eviction_labels@ == self.eviction_labels@.update(
                    bucket as int,
                    if label < 255 {
                        (label + 1) as u8
                    } else {
                        255u8
                    },
                )
                &&& post.lsa_labels == self.lsa_labels
                &&& post.rng == self.rng
                &&& next_pred == pred
            },
            Policy::Lsa => {
                let rs = sort4(word);
                let scores = self.lsa_scores(bucket, rs);
                let start = choice_start(bucket, carry, step);
                let v = rotation_choice(scores, start, start, u64::MAX as int, 4).0;
                let label = crate::choice::lsa_post_eviction_label_spec(
                    pred,
                    Seq::new(4, |i: int| scores[i] as u64),
                    v,
                );
                &&& victim == rs[v]
                &&& lanes == sort4(rs.remove(v).push(carry))
                &&& post.lsa_labels@ == self.lsa_labels@.update(bucket as int, label)
                &&& next_pred == label
                &&& post.eviction_labels == self.eviction_labels
                &&& post.rng == self.rng
            },
            Policy::Random | Policy::BetterChoice => {
                let slot = (splitmix64_spec(self.rng.0) % 4) as int;
                &&& post.rng.0 == splitmix64_spec(self.rng.0)
                &&& victim == word[slot]
                &&& lanes == word.update(slot, carry)
                &&& post.eviction_labels == self.eviction_labels
                &&& post.lsa_labels == self.lsa_labels
                &&& next_pred == pred
            },
            _ => {
                &&& post.rng == self.rng
                &&& victim == word[0]
                &&& lanes == seq![word[1], word[2], word[3], carry]
                &&& post.eviction_labels == self.eviction_labels
                &&& post.lsa_labels == self.lsa_labels
                &&& next_pred == pred
            },
        }
    }

    /// A chain of `n` kick evictions from this filter: `states[k]` is the
    /// filter before eviction `k`, which evicts from the full bucket `bs[k]`
    /// while carrying `carries[k]`; the evicted fingerprint is the next carry
    /// and its alternate bucket the next bucket. Every bucket evicted from
    /// after the first was full.
    pub closed spec fn kick_path(
        &self,
        states: Seq<CuckooFilter>,
        bs: Seq<u32>,
        carries: Seq<u16>,
        preds: Seq<u64>,
        n: nat,
    ) -> bool {
        &&& states.len() == n + 1
        &&& bs.len() == n + 1
        &&& carries.len() == n + 1
        &&& preds.len() == n + 1
        &&& states[0] == *self
        &&& forall|k: int|
            0 <= k < n ==> #[trigger] states[k].kick_evict(
                &states[k + 1],
                bs[k],
                carries[k],
                k as u32,
                preds[k],
                preds[k + 1],
                carries[k + 1],
            ) && bs[k + 1] == alt_index_spec(self.mask, bs[k], carries[k + 1])
        &&& forall|k: int| 0 < k < n ==> #[trigger] states[k].buckets@[bs[k] as int]@[3] != 0
    }

    /// `post` is this filter with `carry` placed in the first free lane of
    /// bucket `b`; under LSA a bucket that thereby fills gets its fill label.
    pub closed spec fn placed_from(&self, post: &CuckooFilter, b: u32, carry: u16) -> bool {
        let placed = placed_lanes(self.buckets@[b as int]@, carry);
        &&& post.buckets@ == self.buckets@.update(b as int, post.buckets@[b as int])
        &&& post.buckets@[b as int]@ == placed
        &&& post.lsa_labels@ == if self.policy == Policy::Lsa && placed[3] != 0 {
            self.lsa_labels@.update(b as int, self.fill_label(b, placed))
        } else {
            self.lsa_labels@
        }
        &&& post.eviction_labels == self.eviction_labels
        &&& post.rng == self.rng
        &&& post.mask == self.mask
        &&& post.policy == self.policy
        &&& post.max_kicks == self.max_kicks
        &&& post.bfs == self.bfs
        &&& post.path == self.path
        &&& post.dense_mode == self.dense_mode
        &&& post.size == self.size + 1
    }

    /// What a kick policy does with `fingerprint` when both candidates are
    /// full: starting at `kick_start` with the chain label of the other
    /// candidate (LSA), it evicts along a kick path until the next bucket
    /// has room, where the last carry is placed, or until `max_kicks`
    /// evictions, leaving the filter as the last eviction left it.
    pub closed spec fn kick_run(
        &self,
        post: &CuckooFilter,
        fingerprint: u16,
        first: u32,
        second: u32,
        key_hash: u64,
        stats: InsertStats,
    ) -> bool {
        let b0 = kick_start(self.policy, first, second, key_hash, self.lsa_labels@);
        let n = stats.relocations as nat;
        exists|states: Seq<CuckooFilter>, bs: Seq<u32>, carries: Seq<u16>, preds: Seq<u64>|
            #[trigger] self.kick_path(states, bs, carries, preds, n) && {
                &&& bs[0] == b0
                &&& carries[0] == fingerprint
                &&& preds[0] == if self.policy == Policy::Lsa {
                    self.lsa_labels@[(if b0 == first {
                        second
                    } else {
                        first
                    }) as int]
                } else {
                    0
                }
                &&& if stats.inserted {
                    &&& n <= self.max_kicks
                    &&& states[n as int].buckets@[bs[n as int] as int]@[3] == 0
                    &&& states[n as int].placed_from(post, bs[n as int], carries[n as int])
                    &&& {
                        let base: int = if first == second {
                            1
                        } else {
                            2
                        };
                        base + kick_step_reads(self.policy, self.max_kicks as int) + 4 <= u32::MAX
                            ==> stats.bucket_reads == base + kick_step_reads(self.policy, n as int) + if self.policy
                            == Policy::Lsa && placed_lanes(
                            states[n as int].buckets@[bs[n as int] as int]@,
                            carries[n as int],
                        )[3] != 0 {
                            4int
                        } else {
                            0int
                        }
                    }
                } else {
                    &&& n == self.max_kicks
                    &&& states[n as int].buckets@[bs[n as int] as int]@[3] != 0
                    &&& *post == states[n as int]
                }
            }
    }

    /// One relocation of a ranked policy from the full bucket `bucket` of
    /// this filter gives `post`: the victim is the lane of least
    /// `(target rank, tie key)` or, once the path sketch guards the
    /// relocation, the lane the sketch prefers (the one of least tie key
    /// among the least-ranked lanes whose alternate bucket it has not seen);
    /// `carry` takes its place, the bucket is re-encoded with its
    /// post-eviction rank, and `realized` is the rank it then holds. Every
    /// other bucket and the labels stay.
    pub closed spec fn ranked_evict(
        &self,
        post: &CuckooFilter,
        bucket: u32,
        carry: u16,
        step: u32,
        pred: u8,
        guarded: bool,
        victim: u16,
        realized: u8,
    ) -> bool {
        let word = self.buckets@[bucket as int]@;
        let scores = step_scores(self.policy, self.buckets@, self.mask, bucket, word);
        let keys = step_keys(bucket, step, carry, self.mask, word);
        &&& post.buckets@ == self.buckets@.update(bucket as int, post.buckets@[bucket as int])
        &&& post.mask == self.mask
        &&& post.policy == self.policy
        &&& post.max_kicks == self.max_kicks
        &&& post.bfs == self.bfs
        &&& post.dense_mode == self.dense_mode
        &&& post.size == self.size
        &&& post.eviction_labels == self.eviction_labels
        &&& post.lsa_labels == self.lsa_labels
        &&& post.rng == self.rng
        &&& exists|v: int|
            #![trigger word[v]]
            word[v] == victim && (if guarded {
                guarded_victim(post.path->0, scores, keys, step_neighbors(self.mask, bucket, word), v)
            } else {
                least_scored(scores, keys, v)
            }) && post.buckets@[bucket as int]@ == encoded_lanes(
                self.policy,
                word.update(v, carry),
                requested_rank(self.policy, pred, scores, v),
            )
        &&& realized == decoded_rank(self.policy, post.buckets@[bucket as int]@)
    }

    /// A chain of `n` ranked relocations from this filter: `states[k]` is
    /// the filter before relocation `k` from the full bucket `bs[k]`
    /// carrying `carries[k]`, with predecessor rank `preds[k]`; `guards[k + 1]`
    /// tells whether the sketch guarded relocation `k` (once it guards, it
    /// keeps guarding); the evicted fingerprint is the next carry and its
    /// alternate bucket the next bucket.
    pub closed spec fn ranked_chain(
        &self,
        states: Seq<CuckooFilter>,
        bs: Seq<u32>,
        carries: Seq<u16>,
        preds: Seq<u8>,
        guards: Seq<bool>,
        n: nat,
    ) -> bool {
        &&& states.len() == n + 1
        &&& bs.len() == n + 1
        &&& carries.len() == n + 1
        &&& preds.len() == n + 1
        &&& guards.len() == n + 1
        &&& states[0] == *self
        &&& !guards[0]
        &&& forall|k: int|
            0 <= k < n ==> #[trigger] states[k].ranked_evict(
                &states[k + 1],
                bs[k],
                carries[k],
                k as u32,
                preds[k],
                guards[k + 1],
                carries[k + 1],
                preds[k + 1],
            ) && bs[k + 1] == alt_index_spec(self.mask, bs[k], carries[k + 1]) && (guards[k] ==> guards[k + 1])
                && states[k].buckets@[bs[k] as int]@[3] != 0
    }

    /// What a ranked policy does with `fingerprint` when both candidates are
    /// full: starting at `ranked_start` (the lower-ranked candidate), with
    /// the other candidate's rank as predecessor, it relocates along a
    /// ranked chain until the next bucket has room, where the last carry is
    /// placed and the bucket re-encoded as `ranked_fill` says, or until
    /// `max_kicks` relocations, leaving the buckets as the last relocation
    /// left them.
    pub closed spec fn ranked_run(
        &self,
        post: &CuckooFilter,
        fingerprint: u16,
        first: u32,
        second: u32,
        key_hash: u64,
        stats: InsertStats,
    ) -> bool {
        exists|states: Seq<CuckooFilter>, bs: Seq<u32>, carries: Seq<u16>, preds: Seq<u8>, guards: Seq<bool>|
            #[trigger] self.ranked_trace(post, fingerprint, first, second, key_hash, stats, states, bs, carries, preds, guards)
    }

    /// `ranked_run` along the given chain.
    pub closed spec fn ranked_trace(
        &self,
        post: &CuckooFilter,
        fingerprint: u16,
        first: u32,
        second: u32,
        key_hash: u64,
        stats: InsertStats,
        states: Seq<CuckooFilter>,
        bs: Seq<u32>,
        carries: Seq<u16>,
        preds: Seq<u8>,
        guards: Seq<bool>,
    ) -> bool {
        let first_rank = decoded_rank(self.policy, self.buckets@[first as int]@);
        let second_rank = decoded_rank(self.policy, self.buckets@[second as int]@);
        let b0 = ranked_start(first, second, first_rank, second_rank, key_hash);
        let n = stats.relocations as nat;
        &&& self.ranked_chain(states, bs, carries, preds, guards, n)
        &&& bs[0] == b0
        &&& carries[0] == fingerprint
        &&& preds[0] == if b0 == first {
            second_rank
        } else {
            first_rank
        }
        &&& guards[n as int] == stats.path_activated
        &&& 4 * self.max_kicks <= u32::MAX ==> stats.path_checks == chain_checks(
            self.policy,
            self.mask,
            states,
            bs,
            guards,
            n,
        )
        &&& 4 * self.max_kicks <= u32::MAX ==> stats.path_seen_candidates_rejected == chain_rejected(
            self.policy,
            self.mask,
            states,
            bs,
            guards,
            n,
        )
        &&& if stats.inserted {
            &&& 6 + 4 * self.max_kicks <= u32::MAX ==> stats.bucket_reads == 2 + 4 * n + states[n as int].ranked_fill_reads(
                bs[n as int],
                carries[n as int],
                preds[n as int] as int,
            )
            &&& states[n as int].buckets@[bs[n as int] as int]@[3] == 0
            &&& post.buckets@ == states[n as int].buckets@.update(bs[n as int] as int, post.buckets@[bs[n as int] as int])
            &&& post.buckets@[bs[n as int] as int]@ == states[n as int].ranked_fill(
                bs[n as int],
                carries[n as int],
                preds[n as int] as int,
            )
        } else {
            &&& n == self.max_kicks
            &&& states[n as int].buckets@[bs[n as int] as int]@[3] != 0
            &&& post.buckets@ == states[n as int].buckets@
        }
    }

    /// LSA scores of the alternate buckets of `residents` in `bucket`.
    pub closed spec fn lsa_scores(&self, bucket: u32, residents: Seq<u16>) -> Seq<int> {
        Seq::new(
            4,
            |i: int| lsa_score_at(self.lsa_labels@, self.buckets@, alt_index_spec(self.mask, bucket, residents[i]) as int) as int,
        )
    }

    /// The LSA label that bucket `bucket` gets when it fills with the lanes
    /// `residents`.
    pub closed spec fn fill_label(&self, bucket: u32, residents: Seq<u16>) -> u64 {
        lsa_fill_label(self.lsa_labels@, self.buckets@, self.mask, bucket, residents)
    }

    /// The breadth-first-search workspace, if the filter keeps one.
    pub closed spec fn bfs_spec(&self) -> Option<BfsScratch> {
        self.bfs
    }

    /// The relocation bound of breadth-first search (zero without a
    /// search workspace).
    pub closed spec fn bfs_depth_spec(&self) -> u8 {
        match self.bfs {
            Some(scratch) => scratch.max_depth,
            None => 0,
        }
    }

    /// The path sketch, if the filter keeps one.
    pub closed spec fn path_spec(&self) -> Option<PathSketch> {
        self.path
    }

    /// Number of one-byte eviction labels.
    pub closed spec fn eviction_label_count(&self) -> nat {
        self.eviction_labels@.len()
    }

    /// Number of eight-byte LSA labels.
    pub closed spec fn lsa_label_count(&self) -> nat {
        self.lsa_labels@.len()
    }

    /// Number of stored fingerprints.
    pub closed spec fn len_spec(&self) -> nat {
        self.size as nat
    }

    /// The multiset of stored items: each fingerprint with the smaller of
    /// its two candidate buckets.
    pub closed spec fn items(&self) -> Multiset<(u16, u32)> {
        all_items(self.mask, self.buckets@)
    }

    /// Internal consistency of a filter.
    pub closed spec fn wf(&self) -> bool {
        &&& table_wf(self.mask, self.buckets@)
        &&& self.buckets@.len() * 8 <= usize::MAX
        &&& self.size == self.items().len()
        &&& (self.policy == Policy::EvictionLabel ==> self.eviction_labels@.len()
            == self.buckets@.len())
        &&& (self.policy == Policy::Lsa ==> self.lsa_labels@.len() == self.buckets@.len())
        &&& (self.policy == Policy::Bfs <==> self.bfs is Some)
        &&& (self.bfs matches Some(scratch) ==> scratch.sized(self.buckets@.len()))
        &&& (self.policy == Policy::CavityRank4Path <==> self.path is Some)
        &&& (self.path matches Some(sketch) ==> sketch.wf() && sketch.idle())
        &&& self.max_kicks >= 1
    }

    /// The configuration-derived fields of two states agree.
    pub open spec fn same_setup(&self, other: &CuckooFilter) -> bool {
        &&& self.table_mask() == other.table_mask()
        &&& self.policy_spec() == other.policy_spec()
        &&& self.max_kicks_spec() == other.max_kicks_spec()
        &&& self.bucket_count_spec() == other.bucket_count_spec()
    }

    /// Creates an empty filter after validating `config`.
    pub fn new(config: Config) -> (r: Result<CuckooFilter, ConfigError>)
        requires
            config_error(config) is None ==> config.bucket_count <= usize::MAX / 8,
        ensures
            match r {
                Ok(filter) => {
                    &&& config_error(config) is None
                    &&& filter.wf()
                    &&& filter.items() == Multiset::<(u16, u32)>::empty()
                    &&& filter.len_spec() == 0
                    &&& filter.bucket_count_spec() == config.bucket_count
                    &&& filter.table_mask() == config.bucket_count - 1
                    &&& filter.policy_spec() == config.policy
                    &&& filter.max_kicks_spec() == config.max_kicks
                    &&& filter.ranked_ready() == (config.policy != Policy::DenseCavityRank4)
                    &&& forall|i: int|
                        0 <= i < config.bucket_count ==> #[trigger] filter.lanes_at(i) == seq![0u16, 0u16, 0u16, 0u16]
                    &&& config.policy == Policy::Bfs ==> filter.bfs_depth_spec() == config.bfs_depth
                    &&& config.policy == Policy::CavityRank4Path ==> filter.path_spec() is Some
                        && filter.path_spec()->0.activation == config.path.activation
                    &&& config.policy == Policy::Lsa ==> filter.lsa_label_count() == config.bucket_count
                        && forall|i: int| 0 <= i < config.bucket_count ==> #[trigger] filter.lsa_label_spec(i) == 0
                },
                Err(error) => config_error(config) == Some(error),
            },
    {
        let bucket_count = config.bucket_count;
        if bucket_count < 2 || bucket_count & (bucket_count - 1) != 0 {
            return Err(ConfigError::BucketCount);
        }
        if bucket_count - 1 > u32::MAX as usize {
            return Err(ConfigError::BucketCountTooLarge);
        }
        if config.max_kicks == 0 {
            return Err(ConfigError::MaxKicks);
        }
        if config.bfs_depth == 0 {
            return Err(ConfigError::BfsDepth);
        }
        if config.policy == Policy::CavityRank4Path && !(config.path.bytes == 512
            || config.path.bytes == 2_048) {
            return Err(ConfigError::PathBytes);
        }
        let mask = (bucket_count - 1) as u32;
        proof {
            assert(((mask as u64) & ((mask as u64 + 1) as u64)) == 0) by (bit_vector)
                requires
                    bucket_count & ((bucket_count - 1) as usize) == 0,
                    bucket_count >= 2,
                    bucket_count - 1 <= 0xffff_ffff,
                    mask == (bucket_count - 1) as u32,
            ;
        }
        let eviction_labels = if config.policy == Policy::EvictionLabel {
            vec![0u8; bucket_count]
        } else {
            Vec::new()
        };
        let lsa_labels = if config.policy == Policy::Lsa {
            vec![0u64; bucket_count]
        } else {
            Vec::new()
        };
        let bfs = if config.policy == Policy::Bfs {
            Some(BfsScratch::new(bucket_count, config.bfs_depth))
        } else {
            None
        };
        let path = if config.policy == Policy::CavityRank4Path {
            Some(PathSketch::new(config.path))
        } else {
            None
        };
        let buckets = empty_buckets(bucket_count);
        proof {
            lemma_table_items_empty(mask, buckets@, buckets@.len());
        }
        Ok(CuckooFilter {
            buckets,
            eviction_labels,
            lsa_labels,
            policy: config.policy,
            mask,
            rng: FastRng(config.seed ^ RNG_SALT),
            max_kicks: config.max_kicks,
            size: 0,
            dense_mode: config.policy != Policy::DenseCavityRank4,
            bfs,
            path,
        })
    }

    /// Returns the number of successful insertions minus successful removals.
    pub fn len(&self) -> (r: usize)
        ensures
            r == self.len_spec(),
    {
        self.size
    }

    /// Returns whether the filter contains no stored fingerprints.
    pub fn is_empty(&self) -> (r: bool)
        ensures
            r == (self.len_spec() == 0),
    {
        self.size == 0
    }

    /// Returns the physical slot count.
    ///
    /// Successful insertion near this limit is not guaranteed.
    pub fn capacity(&self) -> (r: usize)
        requires
            self.wf(),
        ensures
            r == 4 * self.bucket_count_spec(),
    {
        self.buckets.len() * SLOTS
    }

    /// Returns whether ranked insertion is active: always for the ranked
    /// policies, and for a dense rank-4 filter once it is prepared.
    pub fn dense_mode(&self) -> (r: bool)
        ensures
            r == self.ranked_ready(),
    {
        self.dense_mode
    }

    /// Returns the insertion policy.
    pub fn policy(&self) -> (r: Policy)
        ensures
            r == self.policy_spec(),
    {
        self.policy
    }

    /// Returns the lanes of bucket `index`.
    pub fn bucket_slots(&self, index: usize) -> (r: [u16; SLOTS])
        requires
            index < self.bucket_count_spec(),
        ensures
            r@ == self.lanes_at(index as int),
    {
        self.buckets[index].slots()
    }

    /// Returns the LSA label of bucket `index` (LSA filters only).
    pub fn lsa_label(&self, index: usize) -> (r: u64)
        requires
            self.wf(),
            self.policy_spec() == Policy::Lsa,
            index < self.bucket_count_spec(),
        ensures
            r == self.lsa_label_spec(index as int),
    {
        self.lsa_labels[index]
    }

    /// Returns whether either candidate bucket contains `key`'s fingerprint.
    ///
    /// A `true` result may be a false positive: it reports whether the
    /// key's item is stored, and distinct keys can share an item.
    pub fn contains(&self, key: u64) -> (r: bool)
        requires
            self.wf(),
        ensures
            r == (self.items().count(key_item(self.table_mask(), key)) > 0),
    {
        let (fingerprint, first, second, _) = key_parts(self.mask, key);
        proof {
            lemma_item_in_candidates(self.mask, self.buckets@, first, fingerprint);
            lemma_alt_index(self.mask, first, fingerprint);
        }
        self.bucket(first).contains(fingerprint) || self.bucket(second).contains(fingerprint)
    }

    /// Removes one matching fingerprint, if present.
    ///
    /// Call this only for a key known to have been inserted: removing a false
    /// positive can delete a fingerprint shared with another key.
    pub fn remove(&mut self, key: u64) -> (r: bool)
        requires
            old(self).wf(),
        ensures
            final(self).wf(),
            final(self).same_setup(old(self)),
            r == (old(self).items().count(key_item(old(self).table_mask(), key)) > 0),
            final(self).items() == old(self).items().remove(key_item(old(self).table_mask(), key)),
            final(self).len_spec() == old(self).len_spec() - (if r {
                1int
            } else {
                0int
            }),
            forall|i: int|
                0 <= i < old(self).bucket_count_spec() ==> #[trigger] final(self).lanes_at(i) == removal_lanes(
                    old(self),
                    key,
                    i,
                ),
            forall|b: int| #[trigger] old(self).labels_at_most(b) ==> final(self).labels_at_most(b),
    {
        let (fingerprint, first, second, _) = key_parts(self.mask, key);
        let ghost before = *self;
        let ghost item = key_item(self.mask, key);
        proof {
            lemma_item_in_candidates(self.mask, self.buckets@, first, fingerprint);
            lemma_alt_index(self.mask, first, fingerprint);
        }
        if self.remove_from(first, fingerprint) {
            self.size -= 1;
            proof {
                assert(self.items() =~= before.items().remove(item));
            }
            true
        } else if second != first && self.remove_from(second, fingerprint) {
            self.size -= 1;
            proof {
                assert(self.items() =~= before.items().remove(item));
            }
            true
        } else {
            proof {
                assert(self.items() =~= before.items().remove(item));
            }
            false
        }
    }

    /// Removes the first lane equal to `fingerprint` from one bucket.
    fn remove_from(&mut self, bucket: u32, fingerprint: u16) -> (r: bool)
        requires
            table_wf(old(self).mask, old(self).buckets@),
            bucket <= old(self).mask,
            fingerprint != 0,
        ensures
            table_wf(final(self).mask, final(self).buckets@),
            r == holds(old(self).buckets@[bucket as int]@, fingerprint),
            r ==> final(self).items().insert((fingerprint, home_bucket(old(self).mask, bucket, fingerprint)))
                == old(self).items(),
            !r ==> final(self).buckets@ == old(self).buckets@,
            r ==> final(self).buckets@ == old(self).buckets@.update(bucket as int, final(self).buckets@[bucket as int]),
            r ==> final(self).buckets@[bucket as int]@ == removed_lanes(old(self).buckets@[bucket as int]@, fingerprint),
            final(self).size == old(self).size,
            final(self).mask == old(self).mask,
            final(self).policy == old(self).policy,
            final(self).max_kicks == old(self).max_kicks,
            final(self).eviction_labels == old(self).eviction_labels,
            final(self).lsa_labels == old(self).lsa_labels,
            final(self).bfs == old(self).bfs,
            final(self).path == old(self).path,
            final(self).dense_mode == old(self).dense_mode,
    {
        let index = bucket as usize;
        let mut word = self.buckets[index];
        let ghost s = word@;
        let removed = word.remove_first(fingerprint);
        if removed {
            let ghost t = self.buckets@;
            self.buckets.set(index, word);
            proof {
                let p = first_position(s, fingerprint);
                lemma_bucket_items_remove(self.mask, bucket, s, p);
                lemma_table_items_update(self.mask, t, t.len(), index as int, word);
                assert(t.update(index as int, word) == self.buckets@);
                assert(s[p] == fingerprint);
                lemma_cancel(
                    self.items(),
                    all_items(self.mask, t),
                    bucket_items(self.mask, bucket, s),
                    bucket_items(self.mask, bucket, word@),
                    lane_item(self.mask, bucket, fingerprint),
                );
                assert forall|i: int| 0 <= i < self.buckets@.len() implies #[trigger] is_prefix_form(
                    self.buckets@[i]@,
                ) by {
                    if i != index {
                        assert(self.buckets@[i] == t[i]);
                    } else {
                        assert(is_prefix_form(t[i]@));
                    }
                }
            }
        }
        removed
    }

    /// Bucket `index`.
    fn bucket(&self, index: u32) -> (r: Bucket)
        requires
            index < self.buckets@.len(),
        ensures
            r == self.buckets@[index as int],
    {
        self.buckets[index as usize]
    }
}

/// Policies that relocate by bounded kicks without reading ranks.
pub open spec fn is_kick_policy(policy: Policy) -> bool {
    match policy {
        Policy::Random | Policy::BetterChoice | Policy::Rotor | Policy::EvictionLabel | Policy::Lsa
        | Policy::DenseCavityRank4 => true,
        _ => false,
    }
}

/// The item a nonzero fingerprint stands for in `bucket`.
pub open spec fn item_at(mask: u32, bucket: u32, fingerprint: u16) -> (u16, u32) {
    (fingerprint, home_bucket(mask, bucket, fingerprint))
}

impl CuckooFilter {
    /// Writes `fingerprint` into the first free lane of a bucket with room.
    fn fill_slot(&mut self, destination: u32, fingerprint: u16) -> (word: Bucket)
        requires
            table_wf(old(self).mask, old(self).buckets@),
            destination <= old(self).mask,
            old(self).buckets@[destination as int]@[3] == 0,
            fingerprint != 0,
        ensures
            table_wf(final(self).mask, final(self).buckets@),
            final(self).items() == old(self).items().insert(item_at(old(self).mask, destination, fingerprint)),
            final(self).buckets@ == old(self).buckets@.update(destination as int, word),
            word@ == old(self).buckets@[destination as int]@.update(
                occupancy_of(old(self).buckets@[destination as int]@) as int,
                fingerprint,
            ),
            final(self).size == old(self).size,
            final(self).mask == old(self).mask,
            final(self).policy == old(self).policy,
            final(self).max_kicks == old(self).max_kicks,
            final(self).eviction_labels == old(self).eviction_labels,
            final(self).lsa_labels == old(self).lsa_labels,
            final(self).bfs == old(self).bfs,
            final(self).path == old(self).path,
            final(self).dense_mode == old(self).dense_mode,
            final(self).rng == old(self).rng,
    {
        let index = destination as usize;
        let mut word = self.buckets[index];
        let ghost s = word@;
        let ghost t = self.buckets@;
        let appended = word.append(fingerprint);
        assert(appended);
        self.buckets.set(index, word);
        proof {
            let k = occupancy_of(s) as int;
            assert(s[k] == 0);
            lemma_bucket_items_update(self.mask, destination, s, k, fingerprint);
            lemma_table_items_update(self.mask, t, t.len(), index as int, word);
            assert(t.update(index as int, word) == self.buckets@);
            assert(lane_item(self.mask, destination, 0u16) =~= Multiset::empty());
            assert(bucket_items(self.mask, destination, word@) =~= bucket_items(
                self.mask,
                destination,
                s,
            ).add(lane_item(self.mask, destination, fingerprint)));
            lemma_grow(
                self.items(),
                all_items(self.mask, t),
                bucket_items(self.mask, destination, s),
                bucket_items(self.mask, destination, word@),
                lane_item(self.mask, destination, fingerprint),
            );
            assert(self.items() =~= all_items(self.mask, t).insert(
                item_at(self.mask, destination, fingerprint),
            ));
            assert forall|i: int| 0 <= i < self.buckets@.len() implies #[trigger] is_prefix_form(
                self.buckets@[i]@,
            ) by {
                if i != index {
                    assert(self.buckets@[i] == t[i]);
                } else {
                    assert(is_prefix_form(t[index as int]@));
                    assert(self.buckets@[i]@ == s.update(k, fingerprint));
                }
            }
        }
        word
    }

    /// Stores `replacement` in a full bucket from which `victim` was evicted
    /// for `carry`.
    fn store_evicted(&mut self, bucket: u32, replacement: Bucket, victim: u16, carry: u16)
        requires
            table_wf(old(self).mask, old(self).buckets@),
            bucket <= old(self).mask,
            all_nonzero(replacement@),
            victim != 0,
            carry != 0,
            slot_multiset(replacement@).insert(victim) == slot_multiset(
                old(self).buckets@[bucket as int]@,
            ).insert(carry),
        ensures
            table_wf(final(self).mask, final(self).buckets@),
            final(self).items().insert(item_at(old(self).mask, bucket, victim)) == old(self).items().insert(
                item_at(old(self).mask, bucket, carry),
            ),
            final(self).buckets@ == old(self).buckets@.update(bucket as int, replacement),
            final(self).size == old(self).size,
            final(self).mask == old(self).mask,
            final(self).policy == old(self).policy,
            final(self).max_kicks == old(self).max_kicks,
            final(self).eviction_labels == old(self).eviction_labels,
            final(self).lsa_labels == old(self).lsa_labels,
            final(self).bfs == old(self).bfs,
            final(self).path == old(self).path,
            final(self).dense_mode == old(self).dense_mode,
            final(self).rng == old(self).rng,
    {
        let index = bucket as usize;
        let ghost s = self.buckets@[index as int]@;
        let ghost t = self.buckets@;
        self.buckets.set(index, replacement);
        proof {
            lemma_bucket_items_exchange(self.mask, bucket, s, replacement@, victim, carry);
            lemma_table_items_update(self.mask, t, t.len(), index as int, replacement);
            assert(t.update(index as int, replacement) == self.buckets@);
            lemma_exchange(
                self.items(),
                all_items(self.mask, t),
                bucket_items(self.mask, bucket, s),
                bucket_items(self.mask, bucket, replacement@),
                lane_item(self.mask, bucket, victim),
                lane_item(self.mask, bucket, carry),
            );
            assert(self.items().insert(item_at(self.mask, bucket, victim)) =~= self.items().add(
                lane_item(self.mask, bucket, victim),
            ));
            assert(all_items(self.mask, t).insert(item_at(self.mask, bucket, carry)) =~= all_items(
                self.mask,
                t,
            ).add(lane_item(self.mask, bucket, carry)));
            assert forall|i: int| 0 <= i < self.buckets@.len() implies #[trigger] is_prefix_form(
                self.buckets@[i]@,
            ) by {
                if i != index {
                    assert(self.buckets@[i] == t[i]);
                }
            }
        }
    }
}

/// Rotor eviction: the oldest lane leaves and `carry` joins at the end.
pub fn rotate_in(word: Bucket, carry: u16) -> (r: (Bucket, u16))
    requires
        all_nonzero(word@),
        carry != 0,
    ensures
        r.1 == word@[0],
        r.0@ == seq![word@[1], word@[2], word@[3], carry],
        all_nonzero(r.0@),
        slot_multiset(r.0@).insert(r.1) == slot_multiset(word@).insert(carry),
{
    let residents = word.slots();
    let victim = residents[0];
    let rotated = [residents[1], residents[2], residents[3], carry];
    let replacement = Bucket::from_slots(rotated);
    proof {
        lemma_compact_multiset(word@, 0, carry);
        assert(word@.remove(0).push(carry) =~= replacement@);
    }
    (replacement, victim)
}

/// Random eviction: lane `slot` leaves and `carry` takes its place.
pub fn evict_at(word: Bucket, slot: usize, carry: u16) -> (r: (Bucket, u16))
    requires
        all_nonzero(word@),
        slot < SLOTS,
        carry != 0,
    ensures
        r.1 == word@[slot as int],
        r.0@ == word@.update(slot as int, carry),
        all_nonzero(r.0@),
        slot_multiset(r.0@).insert(r.1) == slot_multiset(word@).insert(carry),
{
    let victim = word.slot(slot);
    let mut replacement = word;
    replacement.replace(slot, carry);
    proof {
        lemma_update_multiset(word@, slot as int, carry);
    }
    (replacement, victim)
}

/// Label-guided eviction on sorted residents: lane `slot` leaves, `carry`
/// joins, and the lanes are sorted again.
pub fn compact_sorted(residents: [u16; SLOTS], slot: usize, carry: u16) -> (r: [u16; SLOTS])
    requires
        slot < SLOTS,
    ensures
        r@ == sort4(residents@.remove(slot as int).push(carry)),
        slot_multiset(r@).insert(residents@[slot as int]) == slot_multiset(residents@).insert(carry),
{
    let mut updated = [0u16; SLOTS];
    let mut destination: usize = 0;
    let mut index: usize = 0;
    while index < SLOTS
        invariant
            slot < SLOTS,
            index <= SLOTS,
            destination == (if index <= slot { index } else { (index - 1) as usize }),
            forall|j: int| 0 <= j < destination ==> #[trigger] updated@[j] == residents@.remove(slot as int)[j],
            updated@.len() == 4,
        decreases SLOTS - index,
    {
        if index != slot {
            updated[destination] = residents[index];
            destination += 1;
        }
        index += 1;
    }
    updated[3] = carry;
    assert(updated@ =~= residents@.remove(slot as int).push(carry));
    let sorted = crate::bucket::sort_slots(updated);
    proof {
        lemma_sort4(updated@);
        lemma_compact_multiset(residents@, slot as int, carry);
    }
    sorted
}

impl CuckooFilter {
    /// LSA score of a bucket: its label when full, zero otherwise.
    fn lsa_score(&self, bucket: u32, word: Bucket) -> (r: u64)
        requires
            bucket < self.lsa_labels@.len(),
        ensures
            r == (if word@[3] != 0 {
                self.lsa_labels@[bucket as int]
            } else {
                0
            }),
    {
        if word.is_full() {
            self.lsa_labels[bucket as usize]
        } else {
            0
        }
    }

    /// Label of a newly full LSA bucket: one more than the smallest score of
    /// its residents' alternate buckets, which must be below `u64::MAX`.
    fn initialize_lsa_full_bucket(&self, bucket: u32, residents: [u16; SLOTS], stats: &mut InsertStats) -> (r:
        u64)
        requires
            table_wf(self.mask, self.buckets@),
            self.lsa_labels@.len() == self.buckets@.len(),
            bucket <= self.mask,
            least_lsa_score(self.lsa_labels@, self.buckets@, self.mask, bucket, residents@, 4) < u64::MAX,
        ensures
            same_except_reads(*final(stats), *old(stats)),
            old(stats).bucket_reads <= u32::MAX - 4 ==> final(stats).bucket_reads == old(stats).bucket_reads + 4,
            r >= 1,
            r == lsa_fill_label(self.lsa_labels@, self.buckets@, self.mask, bucket, residents@),
    {
        let mut best = u64::MAX;
        let mut index: usize = 0;
        while index < SLOTS
            invariant
                table_wf(self.mask, self.buckets@),
                self.lsa_labels@.len() == self.buckets@.len(),
                bucket <= self.mask,
                index <= SLOTS,
                best == least_lsa_score(self.lsa_labels@, self.buckets@, self.mask, bucket, residents@, index as nat),
                same_except_reads(*stats, *old(stats)),
                old(stats).bucket_reads <= u32::MAX - 4 ==> stats.bucket_reads == old(stats).bucket_reads + index,
            decreases SLOTS - index,
        {
            let neighbor = alt_index(self.mask, bucket, residents[index]);
            proof {
                lemma_alt_index(self.mask, bucket, residents@[index as int]);
            }
            let neighbor_word = self.bucket(neighbor);
            stats.bucket_reads = stats.bucket_reads.wrapping_add(1);
            let score = self.lsa_score(neighbor, neighbor_word);
            if score < best {
                best = score;
            }
            index += 1;
        }
        best + 1
    }

    /// Eviction-label victim: scans lanes from a hashed start and returns
    /// the first lane whose alternate bucket has the smallest label (zero
    /// for a bucket with room).
    fn eviction_label_choice(
        &self,
        bucket: u32,
        residents: &[u16; SLOTS],
        carry: u16,
        step: u32,
        stats: &mut InsertStats,
    ) -> (r: usize)
        requires
            table_wf(self.mask, self.buckets@),
            self.eviction_labels@.len() == self.buckets@.len(),
            bucket <= self.mask,
        ensures
            r < SLOTS,
            r as int == rotation_choice(
                self.eviction_scores(bucket, residents@),
                choice_start(bucket, carry, step),
                0,
                u8::MAX as int,
                4,
            ).0,
            same_except_reads(*final(stats), *old(stats)),
            old(stats).bucket_reads <= u32::MAX - 4 ==> final(stats).bucket_reads == old(stats).bucket_reads + 4,
    {
        let start = (splitmix64(((bucket as u64) << 32) ^ ((carry as u64) << 8) ^ (step as u64))
            % 4) as usize;
        let ghost scores = self.eviction_scores(bucket, residents@);
        let mut best_slot: usize = 0;
        let mut best_score: u8 = u8::MAX;
        let mut offset: usize = 0;
        while offset < SLOTS
            invariant
                start as int == choice_start(bucket, carry, step),
                scores == self.eviction_scores(bucket, residents@),
                (best_slot as int, best_score as int) == rotation_choice(scores, start as int, 0, u8::MAX as int, offset as nat),
                table_wf(self.mask, self.buckets@),
                self.eviction_labels@.len() == self.buckets@.len(),
                bucket <= self.mask,
                start < 4,
                offset <= SLOTS,
                best_slot < SLOTS,
                same_except_reads(*stats, *old(stats)),
                old(stats).bucket_reads <= u32::MAX - 4 ==> stats.bucket_reads == old(stats).bucket_reads + offset,
            decreases SLOTS - offset,
        {
            let slot = (start + offset) % 4;
            let neighbor = alt_index(self.mask, bucket, residents[slot]);
            proof {
                lemma_alt_index(self.mask, bucket, residents@[slot as int]);
            }
            stats.bucket_reads = stats.bucket_reads.wrapping_add(1);
            let neighbor_word = self.bucket(neighbor);
            let score = if neighbor_word.is_full() {
                self.eviction_labels[neighbor as usize]
            } else {
                0
            };
            if score < best_score {
                best_score = score;
                best_slot = slot;
            }
            offset += 1;
        }
        best_slot
    }

    /// LSA victim: scores each lane's alternate bucket from a hashed start
    /// and returns the first lane with the smallest score, with all scores.
    fn lsa_choice(
        &self,
        bucket: u32,
        residents: &[u16; SLOTS],
        carry: u16,
        step: u32,
        stats: &mut InsertStats,
    ) -> (r: (usize, [u64; SLOTS]))
        requires
            table_wf(self.mask, self.buckets@),
            self.lsa_labels@.len() == self.buckets@.len(),
            bucket <= self.mask,
        ensures
            r.0 < SLOTS,
            r.0 as int == rotation_choice(
                self.lsa_scores(bucket, residents@),
                choice_start(bucket, carry, step),
                choice_start(bucket, carry, step),
                u64::MAX as int,
                4,
            ).0,
            forall|i: int| 0 <= i < 4 ==> #[trigger] r.1@[i] as int == self.lsa_scores(bucket, residents@)[i],
            same_except_reads(*final(stats), *old(stats)),
            old(stats).bucket_reads <= u32::MAX - 4 ==> final(stats).bucket_reads == old(stats).bucket_reads + 4,
    {
        let start = (splitmix64(((bucket as u64) << 32) ^ ((carry as u64) << 8) ^ (step as u64))
            % 4) as usize;
        let ghost lsa = self.lsa_scores(bucket, residents@);
        let mut scores = [0u64; SLOTS];
        let mut best_slot = start;
        let mut best_score = u64::MAX;
        let mut offset: usize = 0;
        while offset < SLOTS
            invariant
                start as int == choice_start(bucket, carry, step),
                lsa == self.lsa_scores(bucket, residents@),
                (best_slot as int, best_score as int) == rotation_choice(lsa, start as int, start as int, u64::MAX as int, offset as nat),
                forall|o: int| 0 <= o < offset ==> #[trigger] scores@[(start + o) % 4] as int == lsa[(start + o) % 4],
                table_wf(self.mask, self.buckets@),
                self.lsa_labels@.len() == self.buckets@.len(),
                bucket <= self.mask,
                start < 4,
                offset <= SLOTS,
                best_slot < SLOTS,
                same_except_reads(*stats, *old(stats)),
                old(stats).bucket_reads <= u32::MAX - 4 ==> stats.bucket_reads == old(stats).bucket_reads + offset,
            decreases SLOTS - offset,
        {
            let slot = (start + offset) % 4;
            let neighbor = alt_index(self.mask, bucket, residents[slot]);
            proof {
                lemma_alt_index(self.mask, bucket, residents@[slot as int]);
            }
            stats.bucket_reads = stats.bucket_reads.wrapping_add(1);
            let score = self.lsa_score(neighbor, self.bucket(neighbor));
            scores[slot] = score;
            if score < best_score {
                best_score = score;
                best_slot = slot;
            }
            offset += 1;
        }
        proof {
            assert forall|i: int| 0 <= i < 4 implies #[trigger] scores@[i] as int == lsa[i] by {
                let o = if i >= start {
                    i - start
                } else {
                    i + 4 - start
                };
                assert((start + o) % 4 == i);
            }
        }
        (best_slot, scores)
    }

    /// Random or rotor eviction from the full bucket `bucket`.
    fn evict_simple(
        &mut self,
        bucket: u32,
        word: Bucket,
        carry: u16,
    ) -> (victim: u16)
        requires
            table_wf(old(self).mask, old(self).buckets@),
            is_kick_policy(old(self).policy),
            old(self).policy != Policy::EvictionLabel,
            old(self).policy != Policy::Lsa,
            bucket <= old(self).mask,
            carry != 0,
            word == old(self).buckets@[bucket as int],
            word@[3] != 0,
        ensures
            table_wf(final(self).mask, final(self).buckets@),
            victim != 0,
            final(self).items().insert(item_at(old(self).mask, bucket, victim)) == old(self).items().insert(
                item_at(old(self).mask, bucket, carry),
            ),
            final(self).buckets@[bucket as int]@[3] != 0,
            final(self).mask == old(self).mask,
            final(self).policy == old(self).policy,
            final(self).max_kicks == old(self).max_kicks,
            final(self).buckets@.len() == old(self).buckets@.len(),
            final(self).eviction_labels@.len() == old(self).eviction_labels@.len(),
            final(self).lsa_labels@.len() == old(self).lsa_labels@.len(),
            final(self).bfs == old(self).bfs,
            final(self).path == old(self).path,
            final(self).dense_mode == old(self).dense_mode,
            final(self).size == old(self).size,
            final(self).buckets@ == old(self).buckets@.update(bucket as int, final(self).buckets@[bucket as int]),
            old(self).policy == Policy::Random || old(self).policy == Policy::BetterChoice ==> {
                let slot = (splitmix64_spec(old(self).rng.0) % 4) as int;
                &&& final(self).rng.0 == splitmix64_spec(old(self).rng.0)
                &&& victim == word@[slot]
                &&& final(self).buckets@[bucket as int]@ == word@.update(slot, carry)
            },
            !(old(self).policy == Policy::Random || old(self).policy == Policy::BetterChoice) ==> {
                &&& final(self).rng == old(self).rng
                &&& victim == word@[0]
                &&& final(self).buckets@[bucket as int]@ == seq![word@[1], word@[2], word@[3], carry]
            },
            final(self).eviction_labels == old(self).eviction_labels,
            final(self).lsa_labels == old(self).lsa_labels,
    {
        proof {
            assert(is_prefix_form(self.buckets@[bucket as int]@));
        }
        if self.policy == Policy::Random || self.policy == Policy::BetterChoice {
            let draw = self.rng.next();
            let slot = (draw % 4) as usize;
            let (replacement, victim) = evict_at(word, slot, carry);
            self.store_evicted(bucket, replacement, victim, carry);
            victim
        } else {
            let (replacement, victim) = rotate_in(word, carry);
            self.store_evicted(bucket, replacement, victim, carry);
            victim
        }
    }

    /// Eviction-label eviction from the full bucket `bucket`.
    fn evict_by_label(
        &mut self,
        bucket: u32,
        word: Bucket,
        carry: u16,
        step: u32,
        stats: &mut InsertStats,
    ) -> (victim: u16)
        requires
            table_wf(old(self).mask, old(self).buckets@),
            old(self).policy == Policy::EvictionLabel,
            old(self).policy == Policy::EvictionLabel ==> old(self).eviction_labels@.len() == old(self).buckets@.len(),
            old(self).policy == Policy::Lsa ==> old(self).lsa_labels@.len() == old(self).buckets@.len(),
            bucket <= old(self).mask,
            carry != 0,
            word == old(self).buckets@[bucket as int],
            word@[3] != 0,
        ensures
            table_wf(final(self).mask, final(self).buckets@),
            victim != 0,
            final(self).items().insert(item_at(old(self).mask, bucket, victim)) == old(self).items().insert(
                item_at(old(self).mask, bucket, carry),
            ),
            final(self).buckets@[bucket as int]@[3] != 0,
            final(self).mask == old(self).mask,
            final(self).policy == old(self).policy,
            final(self).max_kicks == old(self).max_kicks,
            final(self).buckets@.len() == old(self).buckets@.len(),
            final(self).eviction_labels@.len() == old(self).eviction_labels@.len(),
            final(self).lsa_labels@.len() == old(self).lsa_labels@.len(),
            final(self).bfs == old(self).bfs,
            final(self).path == old(self).path,
            final(self).dense_mode == old(self).dense_mode,
            final(self).size == old(self).size,
            same_except_reads(*final(stats), *old(stats)),
            old(stats).bucket_reads <= u32::MAX - 4 ==> final(stats).bucket_reads == old(stats).bucket_reads + 4,
            final(self).buckets@ == old(self).buckets@.update(bucket as int, final(self).buckets@[bucket as int]),
            old(self).kick_evict(final(self), bucket, carry, step, 0, 0, victim),
    {
        proof {
            assert(is_prefix_form(self.buckets@[bucket as int]@));
        }
                let residents = word.sorted_slots();
                let best_slot = self.eviction_label_choice(
                    bucket,
                    &residents,
                    carry,
                    step,
                    stats,
                );
                let victim = residents[best_slot];
                let updated = compact_sorted(residents, best_slot, carry);
                let replacement = Bucket::from_slots(updated);
                proof {
                    lemma_sort4(residents@.remove(best_slot as int).push(carry));
                    lemma_compact_multiset(residents@, best_slot as int, carry);
                }
                self.store_evicted(bucket, replacement, victim, carry);
                let label = self.eviction_labels[bucket as usize];
                self.eviction_labels.set(bucket as usize, label.saturating_add(1));
                victim
                }

    /// LSA eviction from the full bucket `bucket`; updates the bucket's label and the chain's predecessor label.
    fn evict_by_lsa(
        &mut self,
        bucket: u32,
        word: Bucket,
        carry: u16,
        step: u32,
        lsa_predecessor: &mut u64,
        stats: &mut InsertStats,
    ) -> (victim: u16)
        requires
            table_wf(old(self).mask, old(self).buckets@),
            old(self).policy == Policy::Lsa,
            *old(lsa_predecessor) < u64::MAX,
            old(self).policy == Policy::EvictionLabel ==> old(self).eviction_labels@.len() == old(self).buckets@.len(),
            old(self).policy == Policy::Lsa ==> old(self).lsa_labels@.len() == old(self).buckets@.len(),
            bucket <= old(self).mask,
            carry != 0,
            word == old(self).buckets@[bucket as int],
            word@[3] != 0,
        ensures
            table_wf(final(self).mask, final(self).buckets@),
            victim != 0,
            final(self).items().insert(item_at(old(self).mask, bucket, victim)) == old(self).items().insert(
                item_at(old(self).mask, bucket, carry),
            ),
            final(self).buckets@[bucket as int]@[3] != 0,
            final(self).mask == old(self).mask,
            final(self).policy == old(self).policy,
            final(self).max_kicks == old(self).max_kicks,
            final(self).buckets@.len() == old(self).buckets@.len(),
            final(self).eviction_labels@.len() == old(self).eviction_labels@.len(),
            final(self).lsa_labels@.len() == old(self).lsa_labels@.len(),
            final(self).bfs == old(self).bfs,
            final(self).path == old(self).path,
            final(self).dense_mode == old(self).dense_mode,
            final(self).size == old(self).size,
            same_except_reads(*final(stats), *old(stats)),
            old(stats).bucket_reads <= u32::MAX - 4 ==> final(stats).bucket_reads == old(stats).bucket_reads + 4,
            final(self).buckets@ == old(self).buckets@.update(bucket as int, final(self).buckets@[bucket as int]),
            old(self).kick_evict(final(self), bucket, carry, step, *old(lsa_predecessor), *final(lsa_predecessor), victim),
    {
        proof {
            assert(is_prefix_form(self.buckets@[bucket as int]@));
        }
                let residents = word.sorted_slots();
                let (best_slot, scores) = self.lsa_choice(
                    bucket,
                    &residents,
                    carry,
                    step,
                    stats,
                );
                let victim = residents[best_slot];
                let updated = compact_sorted(residents, best_slot, carry);
                let label = lsa_post_eviction_label(*lsa_predecessor, scores, best_slot);
                let replacement = Bucket::from_slots(updated);
                proof {
                    lemma_sort4(residents@.remove(best_slot as int).push(carry));
                    lemma_compact_multiset(residents@, best_slot as int, carry);
                }
                self.store_evicted(bucket, replacement, victim, carry);
                self.lsa_labels.set(bucket as usize, label);
                *lsa_predecessor = label;
                victim
                }

    /// One eviction of the kick policies: replaces a resident of the full
    /// bucket `bucket` by `carry` and returns the evicted fingerprint.
    fn evict(
        &mut self,
        bucket: u32,
        word: Bucket,
        carry: u16,
        step: u32,
        lsa_predecessor: &mut u64,
        stats: &mut InsertStats,
    ) -> (victim: u16)
        requires
            table_wf(old(self).mask, old(self).buckets@),
            is_kick_policy(old(self).policy),
            old(self).policy == Policy::Lsa ==> *old(lsa_predecessor) < u64::MAX,
            old(self).policy == Policy::EvictionLabel ==> old(self).eviction_labels@.len() == old(self).buckets@.len(),
            old(self).policy == Policy::Lsa ==> old(self).lsa_labels@.len() == old(self).buckets@.len(),
            bucket <= old(self).mask,
            carry != 0,
            word == old(self).buckets@[bucket as int],
            word@[3] != 0,
        ensures
            table_wf(final(self).mask, final(self).buckets@),
            victim != 0,
            final(self).items().insert(item_at(old(self).mask, bucket, victim)) == old(self).items().insert(
                item_at(old(self).mask, bucket, carry),
            ),
            final(self).buckets@[bucket as int]@[3] != 0,
            final(self).mask == old(self).mask,
            final(self).policy == old(self).policy,
            final(self).max_kicks == old(self).max_kicks,
            final(self).buckets@.len() == old(self).buckets@.len(),
            final(self).eviction_labels@.len() == old(self).eviction_labels@.len(),
            final(self).lsa_labels@.len() == old(self).lsa_labels@.len(),
            final(self).bfs == old(self).bfs,
            final(self).path == old(self).path,
            final(self).dense_mode == old(self).dense_mode,
            final(self).size == old(self).size,
            same_except_reads(*final(stats), *old(stats)),
            old(stats).bucket_reads <= u32::MAX - 4 ==> final(stats).bucket_reads == old(stats).bucket_reads
                + eviction_reads(old(self).policy),
            final(self).buckets@ == old(self).buckets@.update(bucket as int, final(self).buckets@[bucket as int]),
            old(self).kick_evict(final(self), bucket, carry, step, *old(lsa_predecessor), *final(lsa_predecessor), victim),
    {
        proof {
            assert(is_prefix_form(self.buckets@[bucket as int]@));
        }
        match self.policy {
            Policy::EvictionLabel => self.evict_by_label(bucket, word, carry, step, stats),
            Policy::Lsa => self.evict_by_lsa(bucket, word, carry, step, lsa_predecessor, stats),
            _ => self.evict_simple(bucket, word, carry),
        }
    }

    /// Bounded relocation for the kick policies: evicts a resident of a full
    /// bucket, carries it to its alternate bucket, and repeats until a
    /// bucket has room or `max_kicks` relocations were made.
    #[verifier::rlimit(60)]
    #[verifier::spinoff_prover]
    fn relocate(
        &mut self,
        fingerprint: u16,
        first: u32,
        second: u32,
        key_hash: u64,
        initial: InsertStats,
    ) -> (r: InsertStats)
        requires
            old(self).wf(),
            is_kick_policy(old(self).policy),
            fingerprint != 0,
            first <= old(self).mask,
            second <= old(self).mask,
            old(self).buckets@[first as int]@[3] != 0,
            old(self).buckets@[second as int]@[3] != 0,
            !initial.inserted,
            initial.filter_usable,
            initial.relocations == 0,
            initial.bucket_writes == 0,
            initial.bucket_reads <= 2,
            initial.bucket_reads == if first == second {
                1u32
            } else {
                2u32
            },
            no_path_activity(initial),
            old(self).labels_at_most(u64::MAX - old(self).max_kicks - 1),
        ensures
            final(self).wf(),
            final(self).same_setup(old(self)),
            final(self).dense_mode == old(self).dense_mode,
            exists|root: u32|
                (root == first || root == second) && #[trigger] insertion_outcome(
                    old(self).items(),
                    final(self).items(),
                    item_at(old(self).mask, root, fingerprint),
                    r,
                ),
            r.inserted ==> final(self).size == old(self).size + 1,
            !r.inserted ==> final(self).size == old(self).size && !r.filter_usable,
            r.inserted ==> r.filter_usable,
            r.relocations <= old(self).max_kicks,
            kicked_stats(r, old(self).max_kicks),
            kicked_reads(old(self).policy, initial.bucket_reads as int, r, old(self).max_kicks),
            no_path_activity(r),
            forall|i: int|
                0 <= i < old(self).buckets@.len() && old(self).buckets@[i]@[3] != 0
                    ==> #[trigger] final(self).buckets@[i]@[3] != 0,
            old(self).kick_run(final(self), fingerprint, first, second, key_hash, r),
            forall|b: int|
                #[trigger] old(self).labels_at_most(b) ==> final(self).labels_at_most(b + old(self).max_kicks + 1),
    {
        let mut bucket = match self.policy {
            Policy::BetterChoice => first,
            Policy::Lsa => lsa_root(
                first,
                second,
                self.lsa_labels[first as usize],
                self.lsa_labels[second as usize],
            ),
            _ => if (key_hash >> 33) & 1 == 1 {
                first
            } else {
                second
            },
        };
        let mut lsa_predecessor: u64 = if self.policy == Policy::Lsa {
            let predecessor = if bucket == first {
                second
            } else {
                first
            };
            self.lsa_labels[predecessor as usize]
        } else {
            0
        };
        let mut carry = fingerprint;
        let ghost root = bucket;
        let ghost start = *self;
        assert(start == *old(self));
        let ghost mut states: Seq<CuckooFilter> = seq![*self];
        let ghost mut bs: Seq<u32> = seq![bucket];
        let ghost mut carries: Seq<u16> = seq![carry];
        let ghost mut preds: Seq<u64> = seq![lsa_predecessor];
        let ghost base = initial.bucket_reads as int;
        let mut stats = initial;
        let mut step: u32 = 0;
        proof {
            assert(start.items().insert(item_at(self.mask, root, fingerprint)) == self.items().insert(
                item_at(self.mask, bucket, carry),
            ));
        }
        while step < self.max_kicks
            invariant
                table_wf(self.mask, self.buckets@),
                self.buckets@.len() * 8 <= usize::MAX,
                self.mask == start.mask,
                self.policy == start.policy,
                self.max_kicks == start.max_kicks,
                self.buckets@.len() == start.buckets@.len(),
                self.eviction_labels@.len() == start.eviction_labels@.len(),
                self.lsa_labels@.len() == start.lsa_labels@.len(),
                self.bfs == start.bfs,
                self.path == start.path,
                self.dense_mode == start.dense_mode,
                self.size == start.size,
                start.wf(),
                start == *old(self),
                is_kick_policy(self.policy),
                bucket <= self.mask,
                carry != 0,
                self.buckets@[bucket as int]@[3] != 0,
                forall|i: int|
                    0 <= i < start.buckets@.len() && start.buckets@[i]@[3] != 0 ==> #[trigger] self.buckets@[i]@[3]
                        != 0,
                root == kick_start(start.policy, first, second, key_hash, start.lsa_labels@),
                start.kick_path(states, bs, carries, preds, step as nat),
                *self == states[step as int],
                bucket == bs[step as int],
                carry == carries[step as int],
                lsa_predecessor == preds[step as int],
                bs[0] == root,
                carries[0] == fingerprint,
                preds[0] == if start.policy == Policy::Lsa {
                    start.lsa_labels@[(if root == first {
                        second
                    } else {
                        first
                    }) as int]
                } else {
                    0
                },
                root == first || root == second,
                start.labels_at_most(u64::MAX - start.max_kicks - 1),
                forall|b: int|
                    #[trigger] start.labels_at_most(b) ==> self.labels_at_most(b + step) && (start.policy
                        == Policy::Lsa ==> lsa_predecessor <= b + step),
                self.items().insert(item_at(self.mask, bucket, carry)) == start.items().insert(
                    item_at(self.mask, root, fingerprint),
                ),
                !stats.inserted,
                stats.filter_usable,
                stats.relocations == step,
                stats.bucket_writes == step,
                step <= self.max_kicks,
                base <= 2,
                base == initial.bucket_reads,
                base == if first == second {
                    1int
                } else {
                    2int
                },
                no_path_activity(stats),
                base + kick_step_reads(self.policy, self.max_kicks as int) + 4 <= u32::MAX ==> stats.bucket_reads
                    == base + kick_step_reads(self.policy, step as int),
            decreases self.max_kicks - step,
        {
            stats.bucket_reads = stats.bucket_reads.wrapping_add(1);
            let word = self.bucket(bucket);
            proof {
                assert(is_prefix_form(self.buckets@[bucket as int]@));
            }
            let ghost pred_before = lsa_predecessor;
            let ghost evicted_from = *self;
            proof {
                assert(start.labels_at_most(u64::MAX - start.max_kicks - 1));
            }
            let victim = self.evict(bucket, word, carry, step, &mut lsa_predecessor, &mut stats);
            proof {
                assert forall|b: int| #[trigger] start.labels_at_most(b) implies self.labels_at_most(b + step + 1)
                    && (start.policy == Policy::Lsa ==> lsa_predecessor <= b + step + 1) by {
                    assert(evicted_from.labels_at_most(b + step));
                    if start.policy == Policy::Lsa {
                        assert(pred_before <= b + step);
                        assert forall|k: int| 0 <= k < self.lsa_labels@.len() implies #[trigger] self.lsa_labels@[k]
                            <= b + step + 1 by {
                            if k != bucket {
                                assert(self.lsa_labels@[k] == evicted_from.lsa_labels@[k]);
                            }
                        }
                    }
                }
            }
            stats.bucket_writes = stats.bucket_writes.wrapping_add(1);
            stats.relocations = stats.relocations + 1;
            proof {
                lemma_alt_index(self.mask, bucket, victim);
                assert(self.items().insert(item_at(self.mask, bucket, victim)) == start.items().insert(
                    item_at(self.mask, root, fingerprint),
                ));
            }
            carry = victim;
            let next = alt_index(self.mask, bucket, carry);
            proof {
                lemma_kick_path_push(start, states, bs, carries, preds, step as nat, *self, victim, lsa_predecessor);
                states = states.push(*self);
                bs = bs.push(next);
                carries = carries.push(victim);
                preds = preds.push(lsa_predecessor);
            }
            bucket = next;
            stats.bucket_reads = stats.bucket_reads.wrapping_add(1);
            let word = self.bucket(bucket);
            step = step + 1;
            if !word.is_full() {
                let ghost filled_from = *self;
                proof {
                    lemma_table_items_len(self.mask, self.buckets@, self.buckets@.len(), bucket as int);
                    lemma_bucket_items_len(self.mask, bucket, word@);
                    assert(is_prefix_form(word@));
                }
                assert(self.items().len() + 1 <= 4 * self.buckets@.len());
                assert(self.items().insert(item_at(self.mask, bucket, carry)).len() == self.items().len() + 1);
                assert(start.items().insert(item_at(self.mask, root, fingerprint)).len() == start.items().len() + 1);
                let filled = self.fill_slot(bucket, carry);
                let ghost reads_before = stats.bucket_reads;
                proof {
                    lemma_kick_reads_bound(self.policy, step as int, self.max_kicks as int);
                }
                proof {
                    if self.policy == Policy::Lsa {
                        assert(start.labels_at_most(u64::MAX - start.max_kicks - 1));
                        assert(self.labels_at_most(u64::MAX - start.max_kicks - 1 + step));
                        lemma_least_lsa_bound(
                            self.lsa_labels@,
                            self.buckets@,
                            self.mask,
                            bucket,
                            filled@,
                            4,
                            u64::MAX - start.max_kicks - 1 + step,
                        );
                    }
                }
                if self.policy == Policy::Lsa && filled.is_full() {
                    let label = self.initialize_lsa_full_bucket(bucket, filled.slots(), &mut stats);
                    proof {
                        lemma_least_lsa_frame(
                            filled_from.lsa_labels@,
                            filled_from.buckets@,
                            filled_from.mask,
                            bucket,
                            filled@,
                            filled,
                            4,
                        );
                        assert(self.buckets@ == filled_from.buckets@.update(bucket as int, filled));
                    }
                    self.lsa_labels.set(bucket as usize, label);
                }
                stats.bucket_writes = stats.bucket_writes.wrapping_add(1);
                stats.inserted = true;
                self.size = self.size + 1;
                proof {
                    assert(filled@ == placed_lanes(filled_from.buckets@[bucket as int]@, carry));
                    assert(filled_from.placed_from(self, bucket, carry));
                    assert(start.kick_path(states, bs, carries, preds, step as nat));
                    assert(insertion_outcome(
                        start.items(),
                        self.items(),
                        item_at(self.mask, root, fingerprint),
                        stats,
                    ));
                    lemma_kicked_reads(old(self).policy, base, reads_before as int, stats, old(self).max_kicks);
                    assert(base + kick_step_reads(start.policy, start.max_kicks as int) + 4 <= u32::MAX
                        ==> stats.bucket_reads == base + kick_step_reads(start.policy, step as int) + if start.policy
                        == Policy::Lsa && filled@[3] != 0 {
                        4int
                    } else {
                        0int
                    });
                }
                return stats;
            }
        }
        stats.filter_usable = false;
        proof {
            let lost = item_at(self.mask, bucket, carry);
            let grown = start.items().insert(item_at(self.mask, root, fingerprint));
            assert(grown.count(lost) > 0);
            assert(self.items() =~= grown.remove(lost));
            assert(insertion_outcome(
                start.items(),
                self.items(),
                item_at(self.mask, root, fingerprint),
                stats,
            ));
        }
        stats
    }
}

/// Rank that a ranked filter reads from the bucket `n`: its decoded rank
/// when full, zero when it has room.
pub open spec fn neighbor_rank(policy: Policy, buckets: Seq<Bucket>, n: int) -> int {
    if buckets[n]@[3] != 0 {
        decoded_rank(policy, buckets[n]@) as int
    } else {
        0
    }
}

/// The smallest of `predecessor` and the neighbor ranks of the residents
/// `0 .. k` of `bucket` other than the incoming one.
pub open spec fn least_rank(
    policy: Policy,
    mask: u32,
    buckets: Seq<Bucket>,
    bucket: u32,
    residents: Seq<u16>,
    incoming: int,
    predecessor: int,
    k: nat,
) -> int
    decreases k,
{
    if k == 0 {
        predecessor
    } else {
        let before = least_rank(policy, mask, buckets, bucket, residents, incoming, predecessor, (k - 1) as nat);
        let score = neighbor_rank(policy, buckets, alt_index_spec(mask, bucket, residents[k - 1]) as int);
        if k - 1 == incoming || before <= score {
            before
        } else {
            score
        }
    }
}

/// Once the smallest rank reaches zero it stays zero.
proof fn lemma_least_rank_zero(
    policy: Policy,
    mask: u32,
    buckets: Seq<Bucket>,
    bucket: u32,
    residents: Seq<u16>,
    incoming: int,
    predecessor: int,
    j: nat,
    k: nat,
)
    requires
        j <= k,
        least_rank(policy, mask, buckets, bucket, residents, incoming, predecessor, j) == 0,
        forall|n: int| #[trigger] neighbor_rank(policy, buckets, n) >= 0,
    ensures
        least_rank(policy, mask, buckets, bucket, residents, incoming, predecessor, k) == 0,
    decreases k - j,
{
    if j < k {
        lemma_least_rank_zero(policy, mask, buckets, bucket, residents, incoming, predecessor, j, (k - 1) as nat);
    }
}

/// Alternate buckets a ranked filter reads, among the residents `0 .. k`
/// of a bucket that just filled, to find its initial rank: each resident
/// but the incoming one, until one leads to a bucket with room.
pub open spec fn rank_probe_count(
    policy: Policy,
    mask: u32,
    buckets: Seq<Bucket>,
    bucket: u32,
    residents: Seq<u16>,
    incoming: int,
    predecessor: int,
    k: nat,
) -> nat
    decreases k,
{
    if k == 0 {
        0
    } else {
        rank_probe_count(policy, mask, buckets, bucket, residents, incoming, predecessor, (k - 1) as nat) + if k - 1
            != incoming && least_rank(policy, mask, buckets, bucket, residents, incoming, predecessor, (k - 1) as nat)
            != 0 {
            1nat
        } else {
            0nat
        }
    }
}

/// Alternate buckets read to find the initial rank of a bucket that just
/// filled: none for the cavity scan or when the predecessor's rank is zero,
/// else those `rank_probe_count` counts over all four residents.
pub open spec fn initial_rank_reads(
    policy: Policy,
    mask: u32,
    buckets: Seq<Bucket>,
    bucket: u32,
    residents: Seq<u16>,
    incoming: int,
    predecessor: int,
) -> nat {
    if policy == Policy::CavityScan || predecessor == 0 {
        0
    } else {
        rank_probe_count(policy, mask, buckets, bucket, residents, incoming, predecessor, 4)
    }
}

/// Once the least rank reaches zero no further resident is read.
proof fn lemma_rank_probes_stop(
    policy: Policy,
    mask: u32,
    buckets: Seq<Bucket>,
    bucket: u32,
    residents: Seq<u16>,
    incoming: int,
    predecessor: int,
    j: nat,
    k: nat,
)
    requires
        j <= k,
        least_rank(policy, mask, buckets, bucket, residents, incoming, predecessor, j) == 0,
        forall|n: int| #[trigger] neighbor_rank(policy, buckets, n) >= 0,
    ensures
        rank_probe_count(policy, mask, buckets, bucket, residents, incoming, predecessor, k) == rank_probe_count(
            policy,
            mask,
            buckets,
            bucket,
            residents,
            incoming,
            predecessor,
            j,
        ),
    decreases k - j,
{
    if j < k {
        lemma_rank_probes_stop(policy, mask, buckets, bucket, residents, incoming, predecessor, j, (k - 1) as nat);
        lemma_least_rank_zero(policy, mask, buckets, bucket, residents, incoming, predecessor, j, (k - 1) as nat);
    }
}

/// Rank of a newly full bucket of a ranked filter: two for the cavity scan,
/// else one more than the smallest of the predecessor's rank and the
/// neighbor ranks of the other residents, capped at the policy's cap.
pub open spec fn initial_rank(
    policy: Policy,
    mask: u32,
    buckets: Seq<Bucket>,
    bucket: u32,
    residents: Seq<u16>,
    incoming: int,
    predecessor: int,
) -> int {
    if policy == Policy::CavityScan {
        2
    } else {
        let least = least_rank(policy, mask, buckets, bucket, residents, incoming, predecessor, 4);
        if (rank_cap_spec(policy) as int) < 1 + least {
            rank_cap_spec(policy) as int
        } else {
            1 + least
        }
    }
}

/// Largest rank a ranked policy stores.
pub open spec fn rank_cap_spec(policy: Policy) -> u8 {
    match policy {
        Policy::CavityScan | Policy::CavityBit => 2,
        Policy::CavityRank4 | Policy::CavityRank4Path | Policy::DenseCavityRank4 => 4,
        Policy::CavityD4 => 8,
        _ => 0,
    }
}

/// Rank that a ranked policy reads from a full bucket.
pub open spec fn decoded_rank(policy: Policy, s: Seq<u16>) -> u8 {
    match policy {
        Policy::CavityScan => 2,
        Policy::CavityBit => cavity_rank(s),
        Policy::CavityRank4 | Policy::CavityRank4Path | Policy::DenseCavityRank4 => rank4_of(s),
        Policy::CavityD4 => d4_state(s),
        _ => 0,
    }
}

/// Lane order in which a ranked policy stores `rank` for four fingerprints.
pub open spec fn encoded_lanes(policy: Policy, s: Seq<u16>, rank: u8) -> Seq<u16> {
    match policy {
        Policy::CavityScan => cavity_arrangement(s, 2),
        Policy::CavityBit => cavity_arrangement(s, rank),
        Policy::CavityRank4 | Policy::CavityRank4Path | Policy::DenseCavityRank4 => rank4_arrangement(
            s,
            rank,
        ),
        Policy::CavityD4 => d4_arrangement(s, rank),
        _ => s,
    }
}

/// All lanes of a lane multiset without empty lanes are occupied.
pub proof fn lemma_nonzero_multiset(s: Seq<u16>, t: Seq<u16>)
    requires
        all_nonzero(s),
        slot_multiset(t) == slot_multiset(s),
    ensures
        all_nonzero(t),
{
    assert(slot_multiset(s).count(0u16) == 0);
    assert(slot_multiset(t).count(0u16) == 0);
}

/// LSA score of bucket `i`: its label when full, zero when it has room.
pub open spec fn lsa_score_at(labels: Seq<u64>, buckets: Seq<Bucket>, i: int) -> u64 {
    if buckets[i]@[3] != 0 {
        labels[i]
    } else {
        0
    }
}

/// The smallest LSA score among the alternate buckets of the residents
/// `0 .. k` of `bucket` (`u64::MAX` when there are none).
pub open spec fn least_lsa_score(
    labels: Seq<u64>,
    buckets: Seq<Bucket>,
    mask: u32,
    bucket: u32,
    residents: Seq<u16>,
    k: nat,
) -> u64
    decreases k,
{
    if k == 0 {
        u64::MAX
    } else {
        let before = least_lsa_score(labels, buckets, mask, bucket, residents, (k - 1) as nat);
        let score = lsa_score_at(labels, buckets, alt_index_spec(mask, bucket, residents[k - 1]) as int);
        if score < before {
            score
        } else {
            before
        }
    }
}

/// Label of a bucket that just filled under LSA: one more than the least
/// score of its residents' alternate buckets.
pub open spec fn lsa_fill_label(labels: Seq<u64>, buckets: Seq<Bucket>, mask: u32, bucket: u32, residents: Seq<u16>) -> u64 {
    (least_lsa_score(labels, buckets, mask, bucket, residents, 4) + 1) as u64
}

/// Some resident of the full bucket `bucket` has an alternate bucket with
/// room.
pub open spec fn room_one_relocation_away(mask: u32, buckets: Seq<Bucket>, bucket: u32) -> bool {
    exists|k: int|
        0 <= k < 4 && #[trigger] buckets[alt_index_spec(mask, bucket, buckets[bucket as int]@[k]) as int]@[3] == 0
}

/// When a resident's alternate bucket has room, the ranked victim (least
/// target rank, guarded or not) is one whose alternate bucket has room: a
/// full bucket's rank is at least one, a bucket with room reads as zero.
#[verifier::spinoff_prover]
proof fn lemma_room_victim(
    policy: Policy,
    buckets: Seq<Bucket>,
    mask: u32,
    bucket: u32,
    keys: Seq<(u64, u32, u16)>,
    sketch: PathSketch,
    guarded: bool,
    v: int,
)
    requires
        is_ranked(policy),
        room_one_relocation_away(mask, buckets, bucket),
        if guarded {
            guarded_victim(
                sketch,
                step_scores(policy, buckets, mask, bucket, buckets[bucket as int]@),
                keys,
                step_neighbors(mask, bucket, buckets[bucket as int]@),
                v,
            )
        } else {
            least_scored(step_scores(policy, buckets, mask, bucket, buckets[bucket as int]@), keys, v)
        },
    ensures
        0 <= v < 4,
        buckets[alt_index_spec(mask, bucket, buckets[bucket as int]@[v]) as int]@[3] == 0,
{
    let word = buckets[bucket as int]@;
    let scores = step_scores(policy, buckets, mask, bucket, word);
    let k = choose|k: int|
        0 <= k < 4 && #[trigger] buckets[alt_index_spec(mask, bucket, word[k]) as int]@[3] == 0;
    assert(scores[k] == 0);
    assert forall|i: int| 0 <= i < 4 && #[trigger] scores[i] == 0 implies buckets[alt_index_spec(
        mask,
        bucket,
        word[i],
    ) as int]@[3] == 0 by {
        let n = alt_index_spec(mask, bucket, word[i]) as int;
        if buckets[n]@[3] != 0 {
            assert(decoded_rank(policy, buckets[n]@) >= 1);
        }
    }
    assert(min_rank(scores) == 0);
    if !guarded {
        assert(!crate::choice::scored_less(scores[k], keys[k], scores[v], keys[v]));
    } else {
        let candidate = |i: int| scores[i] == min_rank(scores) && !sketch.contains_spec(
            step_neighbors(mask, bucket, word)[i],
        );
        if !(exists|i: int| 0 <= i < 4 && #[trigger] candidate(i)) {
            assert(!crate::choice::scored_less(scores[k], keys[k], scores[v], keys[v]));
        }
    }
}

/// A ranked relocation from a bucket with a resident one relocation from
/// room carries the victim to a bucket with room.
#[verifier::spinoff_prover]
proof fn lemma_first_step_room(
    start: CuckooFilter,
    post: CuckooFilter,
    root: u32,
    carry: u16,
    pred: u8,
    guarded: bool,
    victim: u16,
    realized: u8,
    step: u32,
)
    requires
        is_ranked(start.policy),
        is_low_mask(start.mask),
        start.mask >= 1,
        root <= start.mask,
        start.buckets@.len() == start.mask + 1,
        room_one_relocation_away(start.mask, start.buckets@, root),
        start.ranked_evict(&post, root, carry, step, pred, guarded, victim, realized),
    ensures
        post.buckets@[alt_index_spec(start.mask, root, victim) as int]@[3] == 0,
{
    let word = start.buckets@[root as int]@;
    let scores = step_scores(start.policy, start.buckets@, start.mask, root, word);
    let keys = step_keys(root, step, carry, start.mask, word);
    let v = choose|v: int|
        #![trigger word[v]]
        word[v] == victim && (if guarded {
            guarded_victim(post.path->0, scores, keys, step_neighbors(start.mask, root, word), v)
        } else {
            least_scored(scores, keys, v)
        }) && post.buckets@[root as int]@ == encoded_lanes(
            start.policy,
            word.update(v, carry),
            requested_rank(start.policy, pred, scores, v),
        );
    lemma_room_victim(start.policy, start.buckets@, start.mask, root, keys, post.path->0, guarded, v);
    lemma_alt_index(start.mask, root, victim);
}

/// When both candidates are full and a resident of the bucket a ranked
/// policy starts from has an alternate bucket with room, ranked relocation
/// succeeds after exactly one relocation.
#[verifier::spinoff_prover]
pub proof fn lemma_ranked_one_relocation(
    filter: CuckooFilter,
    post: CuckooFilter,
    fingerprint: u16,
    first: u32,
    second: u32,
    key_hash: u64,
    stats: InsertStats,
)
    requires
        filter.wf(),
        is_ranked(filter.policy_spec()),
        first <= filter.table_mask(),
        second <= filter.table_mask(),
        !filter.has_room(first as int),
        !filter.has_room(second as int),
        filter.ranked_run(&post, fingerprint, first, second, key_hash, stats),
        room_one_relocation_away(
            filter.table_mask(),
            filter.table_spec(),
            ranked_start(
                first,
                second,
                decoded_rank(filter.policy_spec(), filter.lanes_at(first as int)),
                decoded_rank(filter.policy_spec(), filter.lanes_at(second as int)),
                key_hash,
            ),
        ),
    ensures
        stats.inserted,
        stats.relocations == 1,
{
    let n = stats.relocations as nat;
    let (states, bs, carries, preds, guards) = choose|
        states: Seq<CuckooFilter>,
        bs: Seq<u32>,
        carries: Seq<u16>,
        preds: Seq<u8>,
        guards: Seq<bool>,
    |
        #[trigger] filter.ranked_trace(&post, fingerprint, first, second, key_hash, stats, states, bs, carries, preds, guards);
    if n > 0 {
        lemma_ranked_chain_at(filter, states, bs, carries, preds, guards, n, 0);
        lemma_first_step_room(
            filter,
            states[1],
            bs[0],
            carries[0],
            preds[0],
            guards[1],
            carries[1],
            preds[1],
            0int as u32,
        );
        if n > 1 {
            lemma_ranked_chain_at(filter, states, bs, carries, preds, guards, n, 1);
        }
    }
}

/// Relocation `k` of a ranked chain.
proof fn lemma_ranked_chain_at(
    start: CuckooFilter,
    states: Seq<CuckooFilter>,
    bs: Seq<u32>,
    carries: Seq<u16>,
    preds: Seq<u8>,
    guards: Seq<bool>,
    n: nat,
    k: int,
)
    requires
        start.ranked_chain(states, bs, carries, preds, guards, n),
        0 <= k < n,
    ensures
        states[k].ranked_evict(&states[k + 1], bs[k], carries[k], k as u32, preds[k], guards[k + 1], carries[k + 1], preds[k + 1]),
        bs[k + 1] == alt_index_spec(start.mask, bs[k], carries[k + 1]),
        states[k].buckets@[bs[k] as int]@[3] != 0,
{
}

/// Label room for more insertions covers fewer.
pub proof fn lemma_label_room_fewer(filter: &CuckooFilter, more: int, fewer: int)
    requires
        0 <= fewer <= more,
        filter.label_room(more),
    ensures
        filter.label_room(fewer),
{
    let m = filter.max_kicks_spec() + 1;
    assert(fewer * m <= more * m) by (nonlinear_arith)
        requires
            0 <= fewer <= more,
            m >= 1,
    ;
}

/// An insertion that raises no label past a bound by more than
/// `max_kicks + 1` uses up room for one insertion.
pub proof fn lemma_label_room_used(before: &CuckooFilter, after: &CuckooFilter, k: int)
    requires
        k >= 0,
        before.label_room(k + 1),
        after.max_kicks_spec() == before.max_kicks_spec(),
        forall|b: int| #[trigger] before.labels_at_most(b) ==> after.labels_at_most(b + before.max_kicks_spec() + 1),
    ensures
        after.label_room(k),
{
    let m = before.max_kicks_spec() + 1;
    assert((k + 1) * m == k * m + m) by (nonlinear_arith);
    assert(before.labels_at_most(u64::MAX - (k + 1) * m));
}

/// Every bucket of `filter` is full and none holds three equal
/// fingerprints.
pub open spec fn saturated(filter: &CuckooFilter) -> bool {
    forall|i: int|
        0 <= i < filter.bucket_count_spec() ==> !#[trigger] filter.has_room(i) && !has_triple(filter.lanes_at(i))
}

/// In a saturated table no alternate bucket has room, so bucket `i` is of
/// none of the ranks one to three and the first pass probes all its lanes.
proof fn lemma_saturated_bucket(filter: &CuckooFilter, i: int)
    requires
        filter.wf(),
        saturated(filter),
        0 <= i < filter.bucket_count_spec(),
    ensures
        filter.room_probes(i) == 4,
        filter.prep_plain(i),
        filter.prep_beyond_two(i),
        filter.prep_beyond_three(i),
{
    lemma_saturated_not_near(filter, i);
    assert forall|k: int| 0 <= k < 4 implies !#[trigger] filter.fp_near_rank_one(i, filter.lanes_at(i)[k]) by {
        lemma_saturated_alt(filter, i, k);
        lemma_saturated_not_near(filter, alt_index_spec(filter.table_mask(), i as u32, filter.lanes_at(i)[k]) as int);
    }
    assert forall|k: int| 0 <= k < 4 implies !#[trigger] filter.fp_near_rank_two(i, filter.lanes_at(i)[k]) by {
        lemma_saturated_alt(filter, i, k);
        let j = alt_index_spec(filter.table_mask(), i as u32, filter.lanes_at(i)[k]) as int;
        assert forall|m: int| 0 <= m < 4 implies !#[trigger] filter.fp_near_rank_one(j, filter.lanes_at(j)[m]) by {
            lemma_saturated_alt(filter, j, m);
            lemma_saturated_not_near(filter, alt_index_spec(filter.table_mask(), j as u32, filter.lanes_at(j)[m]) as int);
        }
    }
}

/// The alternate bucket of a lane lies in the table and is full.
proof fn lemma_saturated_alt(filter: &CuckooFilter, i: int, k: int)
    requires
        filter.wf(),
        saturated(filter),
        0 <= i < filter.bucket_count_spec(),
        0 <= k < 4,
    ensures
        0 <= alt_index_spec(filter.table_mask(), i as u32, filter.lanes_at(i)[k]) < filter.bucket_count_spec(),
        !filter.lane_room(i, k),
{
    lemma_alt_index(filter.mask, i as u32, filter.lanes_at(i)[k]);
    let j = alt_index_spec(filter.table_mask(), i as u32, filter.lanes_at(i)[k]) as int;
    assert(!filter.has_room(j));
}

/// No lane of a bucket in a saturated table leads to room.
proof fn lemma_saturated_not_near(filter: &CuckooFilter, i: int)
    requires
        filter.wf(),
        saturated(filter),
        0 <= i < filter.bucket_count_spec(),
    ensures
        !filter.near_room(i),
        !filter.lane_room(i, 0),
        !filter.lane_room(i, 1),
        !filter.lane_room(i, 2),
        !filter.lane_room(i, 3),
{
    lemma_saturated_alt(filter, i, 0);
    lemma_saturated_alt(filter, i, 1);
    lemma_saturated_alt(filter, i, 2);
    lemma_saturated_alt(filter, i, 3);
}

/// Counts over the first `k` buckets of a saturated table.
proof fn lemma_saturated_counts(filter: &CuckooFilter, k: int)
    requires
        filter.wf(),
        saturated(filter),
        0 <= k <= filter.bucket_count_spec(),
    ensures
        filter.first_pass_probes(k) == 4 * k,
        filter.plain_count(k) == k,
        filter.beyond_two_count(k) == k,
        filter.beyond_three_count(k) == k,
        filter.full_bucket_count(k) == k,
        filter.rank_two_count(k) == 0,
        filter.rank_three_count(k) == 0,
    decreases k,
{
    if k > 0 {
        lemma_saturated_counts(filter, k - 1);
        lemma_saturated_bucket(filter, k - 1);
    }
}

/// When every bucket is full and none holds three equal fingerprints, no
/// bucket is within reach of room: a dense preparation that reads as
/// `prepare_dense` states probes all four alternate buckets of every bucket
/// in each of its three passes, fifteen reads per bucket.
pub proof fn law_saturated_preparation_reads(filter: &CuckooFilter, reads: int)
    requires
        filter.wf(),
        saturated(filter),
        ({
            let n = filter.bucket_count_spec() as int;
            let late = reads - (3 * n + filter.first_pass_probes(n) + 4 * filter.plain_count(n));
            &&& late % 4 == 0
            &&& 4 * filter.beyond_three_count(n) <= late <= 4 * filter.beyond_two_count(n)
        }),
    ensures
        reads == 15 * filter.bucket_count_spec(),
{
    lemma_saturated_counts(filter, filter.bucket_count_spec() as int);
}

/// When every bucket is full and none holds three equal fingerprints,
/// every bucket stays at rank four after its first-pass write: a dense
/// preparation that writes as `prepare_dense` states writes each bucket
/// exactly once.
pub proof fn law_saturated_preparation_writes(filter: &CuckooFilter, writes: int)
    requires
        filter.wf(),
        saturated(filter),
        writes == filter.full_bucket_count(filter.bucket_count_spec() as int) + filter.rank_two_count(
            filter.bucket_count_spec() as int,
        ) + filter.rank_three_count(filter.bucket_count_spec() as int),
    ensures
        writes == filter.bucket_count_spec(),
{
    lemma_saturated_counts(filter, filter.bucket_count_spec() as int);
}

/// Eviction `k` of a kick path.
proof fn lemma_kick_path_at(
    start: CuckooFilter,
    states: Seq<CuckooFilter>,
    bs: Seq<u32>,
    carries: Seq<u16>,
    preds: Seq<u64>,
    n: nat,
    k: int,
)
    requires
        start.kick_path(states, bs, carries, preds, n),
        0 <= k < n,
    ensures
        states[k].kick_evict(&states[k + 1], bs[k], carries[k], k as u32, preds[k], preds[k + 1], carries[k + 1]),
        bs[k + 1] == alt_index_spec(start.mask, bs[k], carries[k + 1]),
        0 < k ==> states[k].buckets@[bs[k] as int]@[3] != 0,
{
}

/// Two kick paths of the oldest-lane rule from equal tables carry the same
/// fingerprints along the same buckets and leave equal tables.
#[verifier::spinoff_prover]
proof fn lemma_oldest_lane_paths_agree(
    a: CuckooFilter,
    sa: Seq<CuckooFilter>,
    ba: Seq<u32>,
    ca: Seq<u16>,
    pa: Seq<u64>,
    na: nat,
    b: CuckooFilter,
    sb: Seq<CuckooFilter>,
    bb: Seq<u32>,
    cb: Seq<u16>,
    pb: Seq<u64>,
    nb: nat,
    k: nat,
)
    requires
        a.kick_path(sa, ba, ca, pa, na),
        b.kick_path(sb, bb, cb, pb, nb),
        a.policy == Policy::DenseCavityRank4 || a.policy == Policy::Rotor,
        b.policy == Policy::DenseCavityRank4 || b.policy == Policy::Rotor,
        a.buckets@ == b.buckets@,
        a.mask == b.mask,
        ba[0] == bb[0],
        ca[0] == cb[0],
        k <= na,
        k <= nb,
    ensures
        sa[k as int].buckets@ == sb[k as int].buckets@,
        ba[k as int] == bb[k as int],
        ca[k as int] == cb[k as int],
    decreases k,
{
    if k > 0 {
        let j = (k - 1) as int;
        lemma_oldest_lane_paths_agree(a, sa, ba, ca, pa, na, b, sb, bb, cb, pb, nb, (k - 1) as nat);
        lemma_kick_path_at(a, sa, ba, ca, pa, na, j);
        lemma_kick_path_at(b, sb, bb, cb, pb, nb, j);
        assert(sa[j].policy == a.policy) by {
            lemma_kick_path_policy(a, sa, ba, ca, pa, na, j);
        }
        assert(sb[j].policy == b.policy) by {
            lemma_kick_path_policy(b, sb, bb, cb, pb, nb, j);
        }
        let x = sa[k as int].buckets@[ba[j] as int];
        let y = sb[k as int].buckets@[bb[j] as int];
        assert(x@ == y@);
        crate::bucket::lemma_pack_lanes(x.0);
        crate::bucket::lemma_pack_lanes(y.0);
        assert(sa[k as int].buckets@ =~= sb[k as int].buckets@);
    }
}

/// Every filter along a kick path keeps the policy.
proof fn lemma_kick_path_policy(
    start: CuckooFilter,
    states: Seq<CuckooFilter>,
    bs: Seq<u32>,
    carries: Seq<u16>,
    preds: Seq<u64>,
    n: nat,
    k: int,
)
    requires
        start.kick_path(states, bs, carries, preds, n),
        0 <= k <= n,
    ensures
        states[k].policy == start.policy,
        states[k].mask == start.mask,
        states[k].max_kicks == start.max_kicks,
    decreases k,
{
    if k > 0 {
        lemma_kick_path_policy(start, states, bs, carries, preds, n, k - 1);
        lemma_kick_path_at(start, states, bs, carries, preds, n, k - 1);
    }
}

/// Before its ranks are prepared, a dense rank-4 filter relocates exactly
/// as a Rotor filter with the same table does: when both candidates are
/// full, the two kick runs make the same number of relocations, succeed or
/// fail alike and leave the same table.
#[verifier::spinoff_prover]
pub proof fn law_unprepared_dense_relocates_like_rotor(
    dense: CuckooFilter,
    dense_after: CuckooFilter,
    rotor: CuckooFilter,
    rotor_after: CuckooFilter,
    fingerprint: u16,
    first: u32,
    second: u32,
    key_hash: u64,
    dense_stats: InsertStats,
    rotor_stats: InsertStats,
)
    requires
        dense.wf(),
        rotor.wf(),
        dense.policy_spec() == Policy::DenseCavityRank4,
        !dense.ranked_ready(),
        rotor.policy_spec() == Policy::Rotor,
        dense.table_spec() == rotor.table_spec(),
        dense.max_kicks_spec() == rotor.max_kicks_spec(),
        first <= dense.table_mask(),
        second <= dense.table_mask(),
        !dense.has_room(first as int),
        !dense.has_room(second as int),
        dense.kick_run(&dense_after, fingerprint, first, second, key_hash, dense_stats),
        rotor.kick_run(&rotor_after, fingerprint, first, second, key_hash, rotor_stats),
    ensures
        dense_stats.inserted == rotor_stats.inserted,
        dense_stats.relocations == rotor_stats.relocations,
        dense_after.table_spec() == rotor_after.table_spec(),
{
    let nd = dense_stats.relocations as nat;
    let nr = rotor_stats.relocations as nat;
    assert(dense.mask == rotor.mask);
    let (sd, bd, cd, pd) = choose|sd: Seq<CuckooFilter>, bd: Seq<u32>, cd: Seq<u16>, pd: Seq<u64>|
        #[trigger] dense.kick_path(sd, bd, cd, pd, nd) && {
            &&& bd[0] == kick_start(dense.policy, first, second, key_hash, dense.lsa_labels@)
            &&& cd[0] == fingerprint
            &&& if dense_stats.inserted {
                &&& nd <= dense.max_kicks
                &&& sd[nd as int].buckets@[bd[nd as int] as int]@[3] == 0
                &&& sd[nd as int].placed_from(&dense_after, bd[nd as int], cd[nd as int])
            } else {
                &&& nd == dense.max_kicks
                &&& sd[nd as int].buckets@[bd[nd as int] as int]@[3] != 0
                &&& dense_after == sd[nd as int]
            }
        };
    let (sr, br, cr, pr) = choose|sr: Seq<CuckooFilter>, br: Seq<u32>, cr: Seq<u16>, pr: Seq<u64>|
        #[trigger] rotor.kick_path(sr, br, cr, pr, nr) && {
            &&& br[0] == kick_start(rotor.policy, first, second, key_hash, rotor.lsa_labels@)
            &&& cr[0] == fingerprint
            &&& if rotor_stats.inserted {
                &&& nr <= rotor.max_kicks
                &&& sr[nr as int].buckets@[br[nr as int] as int]@[3] == 0
                &&& sr[nr as int].placed_from(&rotor_after, br[nr as int], cr[nr as int])
            } else {
                &&& nr == rotor.max_kicks
                &&& sr[nr as int].buckets@[br[nr as int] as int]@[3] != 0
                &&& rotor_after == sr[nr as int]
            }
        };
    let m = if nd <= nr { nd } else { nr };
    lemma_oldest_lane_paths_agree(dense, sd, bd, cd, pd, nd, rotor, sr, br, cr, pr, nr, m);
    if nd < nr {
        if m > 0 {
            lemma_kick_path_at(rotor, sr, br, cr, pr, nr, m as int);
        }
    } else if nr < nd {
        if m > 0 {
            lemma_kick_path_at(dense, sd, bd, cd, pd, nd, m as int);
        }
    }
    if nd == nr {
        if dense_stats.inserted {
            let x = dense_after.buckets@[bd[nd as int] as int];
            let y = rotor_after.buckets@[br[nr as int] as int];
            assert(x@ == y@);
            crate::bucket::lemma_pack_lanes(x.0);
            crate::bucket::lemma_pack_lanes(y.0);
            assert(dense_after.buckets@ =~= rotor_after.buckets@);
        }
    }
}

/// Growing a ranked chain keeps the checks counted over its first `k`
/// relocations.
proof fn lemma_chain_checks_push(
    policy: Policy,
    mask: u32,
    states: Seq<CuckooFilter>,
    bs: Seq<u32>,
    guards: Seq<bool>,
    state: CuckooFilter,
    b: u32,
    g: bool,
    k: nat,
)
    requires
        k < states.len(),
        k < bs.len(),
        k < guards.len(),
    ensures
        chain_checks(policy, mask, states.push(state), bs.push(b), guards.push(g), k) == chain_checks(
            policy,
            mask,
            states,
            bs,
            guards,
            k,
        ),
    decreases k,
{
    if k > 0 {
        lemma_chain_checks_push(policy, mask, states, bs, guards, state, b, g, (k - 1) as nat);
        assert(states.push(state)[k - 1] == states[k - 1]);
        assert(bs.push(b)[k - 1] == bs[k - 1]);
        assert(guards.push(g)[k as int] == guards[k as int]);
    }
}

/// Growing a ranked chain keeps the rejections counted over its first `k`
/// relocations.
proof fn lemma_chain_rejected_push(
    policy: Policy,
    mask: u32,
    states: Seq<CuckooFilter>,
    bs: Seq<u32>,
    guards: Seq<bool>,
    state: CuckooFilter,
    b: u32,
    g: bool,
    k: nat,
)
    requires
        k < states.len(),
        k < bs.len(),
        k < guards.len(),
    ensures
        chain_rejected(policy, mask, states.push(state), bs.push(b), guards.push(g), k) == chain_rejected(
            policy,
            mask,
            states,
            bs,
            guards,
            k,
        ),
    decreases k,
{
    if k > 0 {
        lemma_chain_rejected_push(policy, mask, states, bs, guards, state, b, g, (k - 1) as nat);
        assert(states.push(state)[k - 1] == states[k - 1]);
        assert(states.push(state)[k as int] == states[k as int]);
        assert(bs.push(b)[k - 1] == bs[k - 1]);
        assert(guards.push(g)[k as int] == guards[k as int]);
    }
}

/// A kick path grows by one eviction from its last, full bucket.
#[verifier::spinoff_prover]
#[verifier::rlimit(40)]
proof fn lemma_kick_path_push(
    start: CuckooFilter,
    states: Seq<CuckooFilter>,
    bs: Seq<u32>,
    carries: Seq<u16>,
    preds: Seq<u64>,
    n: nat,
    next_state: CuckooFilter,
    victim: u16,
    pred: u64,
)
    requires
        start.kick_path(states, bs, carries, preds, n),
        n < u32::MAX,
        states[n as int].kick_evict(&next_state, bs[n as int], carries[n as int], n as u32, preds[n as int], pred, victim),
        states[n as int].buckets@[bs[n as int] as int]@[3] != 0,
    ensures
        start.kick_path(
            states.push(next_state),
            bs.push(alt_index_spec(start.mask, bs[n as int], victim)),
            carries.push(victim),
            preds.push(pred),
            n + 1,
        ),
{
    let s2 = states.push(next_state);
    let b2 = bs.push(alt_index_spec(start.mask, bs[n as int], victim));
    let c2 = carries.push(victim);
    let p2 = preds.push(pred);
    assert(s2.len() == n + 2 && b2.len() == n + 2 && c2.len() == n + 2 && p2.len() == n + 2);
    assert(s2[0] == start);
    assert forall|k: int| 0 <= k < n + 1 implies #[trigger] s2[k].kick_evict(
        &s2[k + 1],
        b2[k],
        c2[k],
        k as u32,
        p2[k],
        p2[k + 1],
        c2[k + 1],
    ) && b2[k + 1] == alt_index_spec(start.mask, b2[k], c2[k + 1]) by {
        if k < n {
            lemma_kick_path_at(start, states, bs, carries, preds, n, k);
            assert(s2[k] == states[k]);
            assert(s2[k + 1] == states[k + 1]);
            assert(b2[k] == bs[k] && b2[k + 1] == bs[k + 1]);
            assert(c2[k] == carries[k] && c2[k + 1] == carries[k + 1]);
            assert(p2[k] == preds[k] && p2[k + 1] == preds[k + 1]);
        } else {
            assert(k == n);
            assert(s2[k] == states[k] && s2[k + 1] == next_state);
            assert(b2[k] == bs[k] && c2[k] == carries[k] && p2[k] == preds[k]);
            assert(c2[k + 1] == victim && p2[k + 1] == pred);
        }
    }
    assert forall|k: int| 0 < k < n + 1 implies #[trigger] s2[k].buckets@[b2[k] as int]@[3] != 0 by {
        assert(s2[k] == states[k]);
        assert(b2[k] == bs[k]);
        if k < n {
            lemma_kick_path_at(start, states, bs, carries, preds, n, k);
        }
    }
}

/// A ranked chain grows by one relocation from its last, full bucket.
#[verifier::spinoff_prover]
#[verifier::rlimit(40)]
proof fn lemma_ranked_chain_push(
    start: CuckooFilter,
    states: Seq<CuckooFilter>,
    bs: Seq<u32>,
    carries: Seq<u16>,
    preds: Seq<u8>,
    guards: Seq<bool>,
    n: nat,
    next_state: CuckooFilter,
    victim: u16,
    realized: u8,
    guard: bool,
)
    requires
        start.ranked_chain(states, bs, carries, preds, guards, n),
        n < u32::MAX,
        states[n as int].ranked_evict(&next_state, bs[n as int], carries[n as int], n as u32, preds[n as int], guard, victim, realized),
        states[n as int].buckets@[bs[n as int] as int]@[3] != 0,
        guards[n as int] ==> guard,
    ensures
        start.ranked_chain(
            states.push(next_state),
            bs.push(alt_index_spec(start.mask, bs[n as int], victim)),
            carries.push(victim),
            preds.push(realized),
            guards.push(guard),
            n + 1,
        ),
{
    let s2 = states.push(next_state);
    let b2 = bs.push(alt_index_spec(start.mask, bs[n as int], victim));
    let c2 = carries.push(victim);
    let p2 = preds.push(realized);
    let g2 = guards.push(guard);
    assert(s2[0] == start && !g2[0]);
    assert forall|k: int| 0 <= k < n + 1 implies #[trigger] s2[k].ranked_evict(
        &s2[k + 1],
        b2[k],
        c2[k],
        k as u32,
        p2[k],
        g2[k + 1],
        c2[k + 1],
        p2[k + 1],
    ) && b2[k + 1] == alt_index_spec(start.mask, b2[k], c2[k + 1]) && (g2[k] ==> g2[k + 1])
        && s2[k].buckets@[b2[k] as int]@[3] != 0 by {
        if k < n {
            lemma_ranked_chain_at(start, states, bs, carries, preds, guards, n, k);
            assert(s2[k] == states[k] && s2[k + 1] == states[k + 1]);
            assert(b2[k] == bs[k] && b2[k + 1] == bs[k + 1]);
            assert(c2[k] == carries[k] && c2[k + 1] == carries[k + 1]);
            assert(p2[k] == preds[k] && p2[k + 1] == preds[k + 1]);
            assert(g2[k] == guards[k] && g2[k + 1] == guards[k + 1]);
        } else {
            assert(k == n);
            assert(s2[k] == states[k] && s2[k + 1] == next_state);
            assert(b2[k] == bs[k] && c2[k] == carries[k] && p2[k] == preds[k] && g2[k] == guards[k]);
            assert(c2[k + 1] == victim && p2[k + 1] == realized && g2[k + 1] == guard);
        }
    }
}

/// The least LSA score read from at least one resident is at most any bound
/// on the labels.
proof fn lemma_least_lsa_bound(
    labels: Seq<u64>,
    buckets: Seq<Bucket>,
    mask: u32,
    bucket: u32,
    residents: Seq<u16>,
    k: nat,
    b: int,
)
    requires
        is_low_mask(mask),
        mask >= 1,
        bucket <= mask,
        labels.len() == mask + 1,
        1 <= k <= residents.len(),
        b >= 0,
        forall|i: int| 0 <= i < labels.len() ==> #[trigger] labels[i] <= b,
    ensures
        least_lsa_score(labels, buckets, mask, bucket, residents, k) <= b,
    decreases k,
{
    lemma_alt_index(mask, bucket, residents[k - 1]);
    if k > 1 {
        lemma_least_lsa_bound(labels, buckets, mask, bucket, residents, (k - 1) as nat, b);
    }
}

/// Scores read at the alternate buckets of `bucket`'s residents do not
/// depend on the lanes of `bucket` itself.
proof fn lemma_least_lsa_frame(
    labels: Seq<u64>,
    buckets: Seq<Bucket>,
    mask: u32,
    bucket: u32,
    residents: Seq<u16>,
    word: Bucket,
    k: nat,
)
    requires
        is_low_mask(mask),
        mask >= 1,
        bucket <= mask,
        buckets.len() == mask + 1,
        k <= residents.len(),
    ensures
        least_lsa_score(labels, buckets.update(bucket as int, word), mask, bucket, residents, k)
            == least_lsa_score(labels, buckets, mask, bucket, residents, k),
    decreases k,
{
    if k > 0 {
        lemma_least_lsa_frame(labels, buckets, mask, bucket, residents, word, (k - 1) as nat);
        lemma_alt_index(mask, bucket, residents[k - 1]);
    }
}

/// Lanes after `fingerprint` joins the first free lane.
pub open spec fn placed_lanes(s: Seq<u16>, fingerprint: u16) -> Seq<u16> {
    s.update(occupancy_of(s) as int, fingerprint)
}

/// The candidate with room that a policy without ranks fills: Random by a
/// hash bit when both have room, BetterChoice the less occupied one (the
/// first on a tie), the others the less occupied one with a hash bit on a
/// tie.
pub open spec fn plain_destination(
    policy: Policy,
    first: u32,
    second: u32,
    first_lanes: Seq<u16>,
    second_lanes: Seq<u16>,
    key_hash: u64,
) -> u32 {
    let a = occupancy_of(first_lanes) as usize;
    let b = occupancy_of(second_lanes) as usize;
    match policy {
        Policy::Random => random_destination_spec(first, second, a, b, key_hash),
        Policy::BetterChoice => if a <= b {
            first
        } else {
            second
        },
        _ => direct_destination_spec(first, second, a, b, key_hash),
    }
}

/// `after` is `before` with `fingerprint` placed in the first free lane of
/// bucket `d`; under LSA, a bucket that thereby fills gets its fill label and
/// every other label stays.
pub open spec fn direct_effect(before: &CuckooFilter, after: &CuckooFilter, fingerprint: u16, d: u32) -> bool {
    let placed = placed_lanes(before.lanes_at(d as int), fingerprint);
    &&& after.lanes_at(d as int) == placed
    &&& forall|i: int|
        0 <= i < before.bucket_count_spec() && i != d ==> #[trigger] after.lanes_at(i) == before.lanes_at(i)
    &&& before.policy_spec() == Policy::Lsa ==> {
        &&& forall|i: int|
            0 <= i < before.bucket_count_spec() && i != d ==> #[trigger] after.lsa_label_spec(i)
                == before.lsa_label_spec(i)
        &&& after.lsa_label_spec(d as int) == if placed[3] != 0 {
            before.fill_label(d, placed)
        } else {
            before.lsa_label_spec(d as int)
        }
    }
}

/// `after` is `before` with `fingerprint` placed by a ranked policy: into
/// the less occupied candidate (a hash bit on a tie), re-encoded with its
/// initial rank when it fills, the other candidate's rank (zero when it has
/// room) serving as the predecessor's; every other bucket keeps its lanes.
pub open spec fn ranked_direct_effect(
    before: &CuckooFilter,
    after: &CuckooFilter,
    fingerprint: u16,
    first: u32,
    second: u32,
    key_hash: u64,
) -> bool {
    let d = direct_destination_spec(
        first,
        second,
        occupancy_of(before.lanes_at(first as int)) as usize,
        occupancy_of(before.lanes_at(second as int)) as usize,
        key_hash,
    );
    let o = if d == first {
        second
    } else {
        first
    };
    let predecessor = if before.lanes_at(o as int)[3] != 0 {
        decoded_rank(before.policy_spec(), before.lanes_at(o as int)) as int
    } else {
        0
    };
    &&& after.lanes_at(d as int) == before.ranked_fill(d, fingerprint, predecessor)
    &&& forall|i: int|
        0 <= i < before.bucket_count_spec() && i != d ==> #[trigger] after.lanes_at(i) == before.lanes_at(i)
}

/// Bucket reads of an insertion a ranked policy places directly: both
/// candidates, then the alternate buckets read to rank the destination if
/// it fills.
pub open spec fn ranked_direct_reads(before: &CuckooFilter, fingerprint: u16, first: u32, second: u32, key_hash: u64) -> int {
    let d = direct_destination_spec(
        first,
        second,
        occupancy_of(before.lanes_at(first as int)) as usize,
        occupancy_of(before.lanes_at(second as int)) as usize,
        key_hash,
    );
    let o = if d == first {
        second
    } else {
        first
    };
    let predecessor = if before.lanes_at(o as int)[3] != 0 {
        decoded_rank(before.policy_spec(), before.lanes_at(o as int)) as int
    } else {
        0
    };
    2 + before.ranked_fill_reads(d, fingerprint, predecessor) as int
}

/// Target ranks a ranked relocation reads from the alternate buckets of the
/// four residents `lanes` of `bucket`.
pub open spec fn step_scores(policy: Policy, buckets: Seq<Bucket>, mask: u32, bucket: u32, lanes: Seq<u16>) -> Seq<u8> {
    Seq::new(4, |i: int| neighbor_rank(policy, buckets, alt_index_spec(mask, bucket, lanes[i]) as int) as u8)
}

/// Candidates a guarded relocation from `bucket` checks: the lanes whose
/// target rank is the least one.
pub open spec fn step_checks(policy: Policy, buckets: Seq<Bucket>, mask: u32, bucket: u32) -> nat {
    let scores = step_scores(policy, buckets, mask, bucket, buckets[bucket as int]@);
    crate::path::count_equal(scores, min_rank(scores), 4)
}

/// Candidates a guarded relocation from `bucket` rejects because `sketch`
/// has seen their alternate bucket: the least-ranked lanes leading to a
/// seen bucket, when some least-ranked lane leads to an unseen one; none
/// when every least-ranked lane leads to a seen bucket.
pub open spec fn step_rejected(sketch: PathSketch, policy: Policy, buckets: Seq<Bucket>, mask: u32, bucket: u32) -> nat {
    let word = buckets[bucket as int]@;
    let scores = step_scores(policy, buckets, mask, bucket, word);
    sketch.rejected_count(scores, min_rank(scores), step_neighbors(mask, bucket, word))
}

/// Candidates rejected by the guarded relocations among the first `k` of a
/// ranked chain, each judged by the sketch as that relocation left it.
pub open spec fn chain_rejected(policy: Policy, mask: u32, states: Seq<CuckooFilter>, bs: Seq<u32>, guards: Seq<bool>, k: nat) -> nat
    decreases k,
{
    if k == 0 {
        0
    } else {
        chain_rejected(policy, mask, states, bs, guards, (k - 1) as nat) + if guards[k as int] {
            step_rejected(states[k as int].path_spec()->0, policy, states[k - 1].table_spec(), mask, bs[k - 1])
        } else {
            0nat
        }
    }
}

/// Candidates checked by the guarded relocations among the first `k` of a
/// ranked chain.
pub open spec fn chain_checks(policy: Policy, mask: u32, states: Seq<CuckooFilter>, bs: Seq<u32>, guards: Seq<bool>, k: nat) -> nat
    decreases k,
{
    if k == 0 {
        0
    } else {
        chain_checks(policy, mask, states, bs, guards, (k - 1) as nat) + if guards[k as int] {
            step_checks(policy, states[k - 1].table_spec(), mask, bs[k - 1])
        } else {
            0nat
        }
    }
}

/// Bucket a kick policy starts relocating from when both candidates are
/// full: BetterChoice the first, LSA the one with the smaller label (the
/// first on a tie), the others by hash bit 33.
pub open spec fn kick_start(policy: Policy, first: u32, second: u32, key_hash: u64, labels: Seq<u64>) -> u32 {
    match policy {
        Policy::BetterChoice => first,
        Policy::Lsa => if labels[first as int] <= labels[second as int] {
            first
        } else {
            second
        },
        _ => if (key_hash >> 33) & 1 == 1 {
            first
        } else {
            second
        },
    }
}

/// Bucket a ranked policy starts relocating from when both candidates are
/// full: the lower-ranked one, hash bit 33 breaking a tie.
pub open spec fn ranked_start(first: u32, second: u32, first_rank: u8, second_rank: u8, key_hash: u64) -> u32 {
    if first_rank < second_rank || (first_rank == second_rank && (key_hash >> 33) & 1 == 1) {
        first
    } else {
        second
    }
}

/// Tie keys of a ranked relocation from the four residents `lanes` of
/// `bucket` at relocation `step` while carrying `carry`.
pub open spec fn step_keys(bucket: u32, step: u32, carry: u16, mask: u32, lanes: Seq<u16>) -> Seq<(u64, u32, u16)> {
    Seq::new(
        4,
        |i: int| crate::choice::ranked_edge_key_spec(bucket, step, carry, alt_index_spec(mask, bucket, lanes[i]), lanes[i]),
    )
}

/// Lane `v` has the least `(score, tie key)`, the first such lane on a tie.
pub open spec fn least_scored(scores: Seq<u8>, keys: Seq<(u64, u32, u16)>, v: int) -> bool {
    &&& 0 <= v < 4
    &&& forall|i: int| 0 <= i < 4 ==> !crate::choice::scored_less(#[trigger] scores[i], keys[i], scores[v], keys[v])
    &&& forall|i: int| 0 <= i < v ==> crate::choice::scored_less(scores[v], keys[v], #[trigger] scores[i], keys[i])
}

/// Lane `v` is the one a guarded relocation evicts: among the lanes of least
/// score whose alternate bucket the sketch has not seen, the one with the
/// least tie key (the first on a tie); when every such lane was seen, the
/// lane of least `(score, tie key)`.
pub open spec fn guarded_victim(
    sketch: PathSketch,
    scores: Seq<u8>,
    keys: Seq<(u64, u32, u16)>,
    neighbors: Seq<u32>,
    v: int,
) -> bool {
    let best = min_rank(scores);
    let candidate = |i: int| scores[i] == best && !sketch.contains_spec(neighbors[i]);
    if exists|i: int| 0 <= i < 4 && #[trigger] candidate(i) {
        &&& 0 <= v < 4
        &&& candidate(v)
        &&& forall|i: int| 0 <= i < 4 && #[trigger] candidate(i) ==> !crate::choice::key_less(keys[i], keys[v])
        &&& forall|i: int| 0 <= i < v && #[trigger] candidate(i) ==> crate::choice::key_less(keys[v], keys[i])
    } else {
        least_scored(scores, keys, v)
    }
}

/// Alternate buckets of the four residents `lanes` of `bucket`.
pub open spec fn step_neighbors(mask: u32, bucket: u32, lanes: Seq<u16>) -> Seq<u32> {
    Seq::new(4, |i: int| alt_index_spec(mask, bucket, lanes[i]))
}

/// Lane a label-guided eviction starts scoring from.
pub open spec fn choice_start(bucket: u32, carry: u16, step: u32) -> int {
    (splitmix64_spec(((bucket as u64) << 32u64) ^ ((carry as u64) << 8u64) ^ (step as u64)) % 4) as int
}

/// After scoring `k` lanes round from `start`, the lane kept and its score:
/// a lane replaces the kept one only with a strictly smaller score.
pub open spec fn rotation_choice(scores: Seq<int>, start: int, init_slot: int, init_best: int, k: nat) -> (int, int)
    decreases k,
{
    if k == 0 {
        (init_slot, init_best)
    } else {
        let before = rotation_choice(scores, start, init_slot, init_best, (k - 1) as nat);
        let slot = (start + k - 1) % 4;
        if scores[slot] < before.1 {
            (slot, scores[slot])
        } else {
            before
        }
    }
}

/// Smallest of four target ranks.
pub open spec fn min_rank(s: Seq<u8>) -> u8 {
    let a = if s[0] <= s[1] {
        s[0]
    } else {
        s[1]
    };
    let b = if s[2] <= s[3] {
        s[2]
    } else {
        s[3]
    };
    if a <= b {
        a
    } else {
        b
    }
}

/// Whether a path sketch with activation rule `rule` activates at
/// relocation `step` (counted from zero), given the current bucket's rank
/// and the smallest target rank.
pub open spec fn activation_fires(rule: PathActivation, step: u32, current_rank: u8, min_target_rank: u8) -> bool {
    match rule {
        PathActivation::After(threshold) => step >= threshold,
        PathActivation::NoDescent => min_target_rank >= current_rank,
        PathActivation::Rank4Plateau => current_rank == 4 && min_target_rank == 4,
    }
}

/// Rank a ranked relocation writes into the bucket it evicted lane `v`
/// from: two for the cavity scan, else the post-eviction rank.
pub open spec fn requested_rank(policy: Policy, predecessor_rank: u8, scores: Seq<u8>, v: int) -> u8 {
    if policy == Policy::CavityScan {
        2
    } else {
        crate::choice::post_eviction_rank_spec(rank_cap_spec(policy), predecessor_rank, scores, v)
    }
}

/// Lanes after removing the first copy of `fingerprint`: the later lanes
/// move down and the last lane empties.
pub open spec fn removed_lanes(s: Seq<u16>, fingerprint: u16) -> Seq<u16> {
    s.remove(first_position(s, fingerprint)).push(0u16)
}

/// Lanes of bucket `i` after `key` is removed from `filter`: the first
/// candidate loses the fingerprint if it holds it, else the second one does;
/// every other bucket keeps its lanes.
pub open spec fn removal_lanes(filter: &CuckooFilter, key: u64, i: int) -> Seq<u16> {
    let mask = filter.table_mask();
    let fingerprint = key_fingerprint(key);
    let first = key_first(mask, key) as int;
    let second = key_second(mask, key) as int;
    if i == first && holds(filter.lanes_at(first), fingerprint) {
        removed_lanes(filter.lanes_at(i), fingerprint)
    } else if i == second && !holds(filter.lanes_at(first), fingerprint) && holds(
        filter.lanes_at(second),
        fingerprint,
    ) {
        removed_lanes(filter.lanes_at(i), fingerprint)
    } else {
        filter.lanes_at(i)
    }
}

impl CuckooFilter {
    /// Largest rank of the policy.
    fn rank_cap(&self) -> (r: u8)
        requires
            is_ranked(self.policy),
        ensures
            r == rank_cap_spec(self.policy),
            2 <= r <= 8,
    {
        match self.policy {
            Policy::CavityScan | Policy::CavityBit => 2,
            Policy::CavityRank4 | Policy::CavityRank4Path | Policy::DenseCavityRank4 => 4,
            _ => 8,
        }
    }

    /// Rank stored in a full bucket.
    fn decode_rank(&self, word: Bucket) -> (r: u8)
        requires
            is_ranked(self.policy),
        ensures
            r == decoded_rank(self.policy, word@),
            1 <= r <= 8,
    {
        match self.policy {
            Policy::CavityScan => 2,
            Policy::CavityBit => word.decode_cavity(),
            Policy::CavityRank4 | Policy::CavityRank4Path | Policy::DenseCavityRank4 => word.decode_rank4(),
            _ => word.decode_d4(),
        }
    }

    /// Stores `rank` in the order of four fingerprints.
    fn encode_rank(&self, residents: [u16; SLOTS], rank: u8) -> (r: Bucket)
        requires
            is_ranked(self.policy),
            all_nonzero(residents@),
        ensures
            r@ == encoded_lanes(self.policy, residents@, rank),
            slot_multiset(r@) == slot_multiset(residents@),
            all_nonzero(r@),
    {
        let r = match self.policy {
            Policy::CavityScan => Bucket::encode_cavity(residents, 2),
            Policy::CavityBit => Bucket::encode_cavity(residents, rank),
            Policy::CavityRank4 | Policy::CavityRank4Path | Policy::DenseCavityRank4 => Bucket::encode_rank4(residents, rank),
            _ => Bucket::encode_d4(residents, rank),
        };
        proof {
            lemma_nonzero_multiset(residents@, r@);
        }
        r
    }

    /// Rank of a newly full bucket: one more than the smallest of the
    /// predecessor's rank and the ranks of the other residents' alternate
    /// buckets (zero for a bucket with room), capped at the policy's cap.
    fn initialize_ranked_full_bucket(
        &self,
        bucket: u32,
        residents: [u16; SLOTS],
        incoming_slot: usize,
        predecessor_rank: u8,
        stats: &mut InsertStats,
    ) -> (r: u8)
        requires
            table_wf(self.mask, self.buckets@),
            is_ranked(self.policy),
            bucket <= self.mask,
            predecessor_rank <= 8,
            incoming_slot < SLOTS,
        ensures
            1 <= r <= 8,
            r == initial_rank(
                self.policy,
                self.mask,
                self.buckets@,
                bucket,
                residents@,
                incoming_slot as int,
                predecessor_rank as int,
            ),
            same_except_reads(*final(stats), *old(stats)),
            old(stats).bucket_reads <= u32::MAX - 4 ==> old(stats).bucket_reads <= final(stats).bucket_reads
                <= old(stats).bucket_reads + 3,
            old(stats).bucket_reads <= u32::MAX - 4 ==> final(stats).bucket_reads == old(stats).bucket_reads
                + initial_rank_reads(
                self.policy,
                self.mask,
                self.buckets@,
                bucket,
                residents@,
                incoming_slot as int,
                predecessor_rank as int,
            ),
    {
        if self.policy == Policy::CavityScan {
            return 2;
        }
        let mut best = predecessor_rank;
        if best == 0 {
            proof {
                lemma_least_rank_zero(
                    self.policy,
                    self.mask,
                    self.buckets@,
                    bucket,
                    residents@,
                    incoming_slot as int,
                    predecessor_rank as int,
                    0,
                    4,
                );
            }
            return 1;
        }
        let mut slot: usize = 0;
        while slot < SLOTS
            invariant_except_break
                best != 0,
                old(stats).bucket_reads <= u32::MAX - 4 ==> stats.bucket_reads == old(stats).bucket_reads
                    + rank_probe_count(
                    self.policy,
                    self.mask,
                    self.buckets@,
                    bucket,
                    residents@,
                    incoming_slot as int,
                    predecessor_rank as int,
                    slot as nat,
                ),
                old(stats).bucket_reads <= u32::MAX - 4 ==> old(stats).bucket_reads <= stats.bucket_reads
                    <= old(stats).bucket_reads + slot - (if slot > incoming_slot {
                    1int
                } else {
                    0int
                }),
                best as int == least_rank(
                    self.policy,
                    self.mask,
                    self.buckets@,
                    bucket,
                    residents@,
                    incoming_slot as int,
                    predecessor_rank as int,
                    slot as nat,
                ),
            invariant
                table_wf(self.mask, self.buckets@),
                is_ranked(self.policy),
                bucket <= self.mask,
                slot <= SLOTS,
                best <= 8,
                incoming_slot < SLOTS,
                same_except_reads(*stats, *old(stats)),
            ensures
                old(stats).bucket_reads <= u32::MAX - 4 ==> old(stats).bucket_reads <= stats.bucket_reads
                    <= old(stats).bucket_reads + 3,
                old(stats).bucket_reads <= u32::MAX - 4 ==> stats.bucket_reads == old(stats).bucket_reads
                    + rank_probe_count(
                    self.policy,
                    self.mask,
                    self.buckets@,
                    bucket,
                    residents@,
                    incoming_slot as int,
                    predecessor_rank as int,
                    4,
                ),
                best as int == least_rank(
                    self.policy,
                    self.mask,
                    self.buckets@,
                    bucket,
                    residents@,
                    incoming_slot as int,
                    predecessor_rank as int,
                    4,
                ),
            decreases SLOTS - slot,
        {
            if slot != incoming_slot {
                let neighbor = alt_index(self.mask, bucket, residents[slot]);
                proof {
                    lemma_alt_index(self.mask, bucket, residents@[slot as int]);
                }
                let neighbor_word = self.bucket(neighbor);
                stats.bucket_reads = stats.bucket_reads.wrapping_add(1);
                let score = if neighbor_word.is_full() {
                    self.decode_rank(neighbor_word)
                } else {
                    0
                };
                if score < best {
                    best = score;
                }
                if best == 0 {
                    proof {
                        lemma_least_rank_zero(
                            self.policy,
                            self.mask,
                            self.buckets@,
                            bucket,
                            residents@,
                            incoming_slot as int,
                            predecessor_rank as int,
                            (slot + 1) as nat,
                            4,
                        );
                        lemma_rank_probes_stop(
                            self.policy,
                            self.mask,
                            self.buckets@,
                            bucket,
                            residents@,
                            incoming_slot as int,
                            predecessor_rank as int,
                            (slot + 1) as nat,
                            4,
                        );
                    }
                    break;
                }
            }
            slot += 1;
        }
        let cap = self.rank_cap();
        if cap < 1 + best {
            cap
        } else {
            1 + best
        }
    }

    /// Stores `word` in a bucket with room whose lanes, after `fingerprint`
    /// joined its first free lane, are a permutation of `word`'s.
    fn store_grown(&mut self, destination: u32, word: Bucket, fingerprint: u16)
        requires
            table_wf(old(self).mask, old(self).buckets@),
            destination <= old(self).mask,
            old(self).buckets@[destination as int]@[3] == 0,
            fingerprint != 0,
            slot_multiset(word@) == slot_multiset(
                old(self).buckets@[destination as int]@.update(
                    occupancy_of(old(self).buckets@[destination as int]@) as int,
                    fingerprint,
                ),
            ),
            is_prefix_form(word@),
        ensures
            table_wf(final(self).mask, final(self).buckets@),
            final(self).items() == old(self).items().insert(item_at(old(self).mask, destination, fingerprint)),
            final(self).buckets@ == old(self).buckets@.update(destination as int, word),
            final(self).size == old(self).size,
            final(self).mask == old(self).mask,
            final(self).policy == old(self).policy,
            final(self).max_kicks == old(self).max_kicks,
            final(self).eviction_labels == old(self).eviction_labels,
            final(self).lsa_labels == old(self).lsa_labels,
            final(self).bfs == old(self).bfs,
            final(self).path == old(self).path,
            final(self).dense_mode == old(self).dense_mode,
            final(self).rng == old(self).rng,
    {
        let index = destination as usize;
        let ghost s = self.buckets@[index as int]@;
        let ghost t = self.buckets@;
        self.buckets.set(index, word);
        proof {
            let k = occupancy_of(s) as int;
            assert(s[k] == 0);
            let grown = s.update(k, fingerprint);
            lemma_bucket_items_update(self.mask, destination, s, k, fingerprint);
            lemma_bucket_items_permutation(self.mask, destination, word@, grown);
            lemma_table_items_update(self.mask, t, t.len(), index as int, word);
            assert(t.update(index as int, word) == self.buckets@);
            assert(lane_item(self.mask, destination, 0u16) =~= Multiset::empty());
            assert(bucket_items(self.mask, destination, word@) =~= bucket_items(
                self.mask,
                destination,
                s,
            ).add(lane_item(self.mask, destination, fingerprint)));
            lemma_grow(
                self.items(),
                all_items(self.mask, t),
                bucket_items(self.mask, destination, s),
                bucket_items(self.mask, destination, word@),
                lane_item(self.mask, destination, fingerprint),
            );
            assert(self.items() =~= all_items(self.mask, t).insert(
                item_at(self.mask, destination, fingerprint),
            ));
            assert forall|i: int| 0 <= i < self.buckets@.len() implies #[trigger] is_prefix_form(
                self.buckets@[i]@,
            ) by {
                if i != index {
                    assert(self.buckets@[i] == t[i]);
                }
            }
        }
    }

    /// Places `fingerprint` into the non-full bucket `destination` for a
    /// ranked policy; a bucket that becomes full gets its initial rank.
    fn place_ranked(
        &mut self,
        destination: u32,
        word: Bucket,
        predecessor_rank: u8,
        fingerprint: u16,
        stats: &mut InsertStats,
    )
        requires
            table_wf(old(self).mask, old(self).buckets@),
            is_ranked(old(self).policy),
            predecessor_rank <= 8,
            destination <= old(self).mask,
            word == old(self).buckets@[destination as int],
            word@[3] == 0,
            fingerprint != 0,
        ensures
            table_wf(final(self).mask, final(self).buckets@),
            final(self).items() == old(self).items().insert(item_at(old(self).mask, destination, fingerprint)),
            final(self).buckets@.len() == old(self).buckets@.len(),
            final(self).size == old(self).size,
            final(self).mask == old(self).mask,
            final(self).policy == old(self).policy,
            final(self).max_kicks == old(self).max_kicks,
            final(self).eviction_labels == old(self).eviction_labels,
            final(self).lsa_labels == old(self).lsa_labels,
            final(self).bfs == old(self).bfs,
            final(self).path == old(self).path,
            final(self).dense_mode == old(self).dense_mode,
            final(self).rng == old(self).rng,
            same_except_reads(*final(stats), *old(stats)),
            old(stats).bucket_reads <= u32::MAX - 4 ==> old(stats).bucket_reads <= final(stats).bucket_reads
                <= old(stats).bucket_reads + 3,
            final(self).buckets@ == old(self).buckets@.update(destination as int, final(self).buckets@[destination as int]),
            final(self).buckets@[destination as int]@ == old(self).ranked_fill(destination, fingerprint, predecessor_rank as int),
            old(stats).bucket_reads <= u32::MAX - 4 ==> final(stats).bucket_reads == old(stats).bucket_reads
                + old(self).ranked_fill_reads(destination, fingerprint, predecessor_rank as int),
    {
        let mut word = word;
        let ghost s = word@;
        proof {
            assert(is_prefix_form(s));
        }
        let incoming_slot = word.branchless_occupancy();
        word.replace(incoming_slot, fingerprint);
        let ghost grown = word@;
        if word.is_full() {
            let residents = word.slots();
            let rank = self.initialize_ranked_full_bucket(
                destination,
                residents,
                incoming_slot,
                predecessor_rank,
                stats,
            );
            word = self.encode_rank(residents, rank);
        }
        self.store_grown(destination, word, fingerprint);
    }
}

impl CuckooFilter {
    /// One relocation of a ranked policy: scores the four alternate buckets
    /// of the full bucket `bucket`, picks the victim (guarded by the path
    /// sketch when active), stores `carry` in its place with the requested
    /// rank, and returns the victim, its alternate bucket and that bucket's
    /// word, the realized rank, and whether the path sketch is active.
    #[verifier::rlimit(100)]
    #[verifier::spinoff_prover]
    fn ranked_step(
        &mut self,
        bucket: u32,
        current_word: Bucket,
        carry: u16,
        step: u32,
        predecessor_rank: u8,
        path_active: bool,
        stats: &mut InsertStats,
    ) -> (r: (u16, u32, Bucket, u8, bool))
        requires
            table_wf(old(self).mask, old(self).buckets@),
            is_ranked(old(self).policy),
            old(self).policy == Policy::CavityRank4Path <==> old(self).path is Some,
            old(self).path matches Some(sketch) ==> sketch.wf() && (!path_active ==> sketch.idle()),
            bucket <= old(self).mask,
            carry != 0,
            current_word == old(self).buckets@[bucket as int],
            current_word@[3] != 0,
            predecessor_rank <= 8,
            step < u32::MAX,
            path_active == old(stats).path_activated,
            path_active ==> old(self).path is Some,
        ensures
            table_wf(final(self).mask, final(self).buckets@),
            r.0 != 0,
            r.1 == alt_index_spec(old(self).mask, bucket, r.0),
            r.1 <= old(self).mask,
            r.2 == final(self).buckets@[r.1 as int],
            r.3 <= 8,
            final(self).items().insert(item_at(old(self).mask, bucket, r.0)) == old(self).items().insert(
                item_at(old(self).mask, bucket, carry),
            ),
            final(self).mask == old(self).mask,
            final(self).policy == old(self).policy,
            final(self).max_kicks == old(self).max_kicks,
            final(self).buckets@.len() == old(self).buckets@.len(),
            final(self).eviction_labels == old(self).eviction_labels,
            final(self).lsa_labels == old(self).lsa_labels,
            final(self).bfs == old(self).bfs,
            final(self).dense_mode == old(self).dense_mode,
            final(self).size == old(self).size,
            final(self).path is Some <==> old(self).path is Some,
            final(self).path matches Some(sketch) ==> sketch.wf() && (!r.4 ==> sketch.idle()),
            path_active ==> r.4,
            r.4 ==> final(stats).path_activated,
            r.4 ==> final(self).path is Some,
            final(stats).inserted == old(stats).inserted,
            final(stats).filter_usable == old(stats).filter_usable,
            final(stats).relocations == old(stats).relocations,
            final(stats).bucket_writes == vstd::wrapping::u32_specs::wrapping_add(old(stats).bucket_writes, 1),
            old(stats).bucket_reads <= u32::MAX - 4 ==> final(stats).bucket_reads == old(stats).bucket_reads + 4,
            r.4 == final(stats).path_activated,
            old(self).policy != Policy::CavityRank4Path ==> final(stats).path_activated == old(stats).path_activated,
            !final(stats).path_activated ==> final(stats).path_activation_step == old(stats).path_activation_step
                && final(stats).path_guarded_steps == old(stats).path_guarded_steps && final(stats).path_checks
                == old(stats).path_checks && final(stats).path_seen_candidates_rejected
                == old(stats).path_seen_candidates_rejected,
            old(stats).path_activated ==> final(stats).path_activation_step == old(stats).path_activation_step,
            !old(stats).path_activated && final(stats).path_activated ==> final(stats).path_activation_step == step + 1,
            final(stats).path_activated ==> final(stats).path_guarded_steps == vstd::wrapping::u32_specs::wrapping_add(
                old(stats).path_guarded_steps,
                1,
            ),
            final(self).rng == old(self).rng,
            old(self).ranked_evict(final(self), bucket, carry, step, predecessor_rank, r.4, r.0, r.3),
            final(self).buckets@ == old(self).buckets@.update(bucket as int, final(self).buckets@[bucket as int]),
            exists|v: int|
                0 <= v < 4 && #[trigger] current_word@[v] == r.0 && final(self).buckets@[bucket as int]@
                    == encoded_lanes(
                    old(self).policy,
                    current_word@.update(v, carry),
                    requested_rank(
                        old(self).policy,
                        predecessor_rank,
                        step_scores(old(self).policy, old(self).buckets@, old(self).mask, bucket, current_word@),
                        v,
                    ),
                ),
            r.3 == decoded_rank(old(self).policy, final(self).buckets@[bucket as int]@),
            old(self).path is Some ==> final(self).path is Some && final(self).path->0.activation == old(
                self,
            ).path->0.activation,
            old(self).path is Some && !path_active ==> final(stats).path_activated == activation_fires(
                old(self).path->0.activation,
                step,
                decoded_rank(old(self).policy, current_word@),
                min_rank(step_scores(old(self).policy, old(self).buckets@, old(self).mask, bucket, current_word@)),
            ),
            final(stats).path_activated && old(stats).path_checks <= u32::MAX - 4 ==> final(stats).path_checks
                == old(stats).path_checks + step_checks(old(self).policy, old(self).buckets@, old(self).mask, bucket),
            final(stats).path_activated && old(stats).path_seen_candidates_rejected <= u32::MAX - 4
                ==> final(stats).path_seen_candidates_rejected == old(stats).path_seen_candidates_rejected
                + step_rejected(
                final(self).path->0,
                old(self).policy,
                old(self).buckets@,
                old(self).mask,
                bucket,
            ),
            final(stats).path_activated && old(stats).path_checks <= u32::MAX - 4
                && old(stats).path_seen_candidates_rejected <= u32::MAX - 4 ==> {
                &&& old(stats).path_checks <= final(stats).path_checks <= old(stats).path_checks + 4
                &&& old(stats).path_seen_candidates_rejected <= final(stats).path_seen_candidates_rejected
                &&& final(stats).path_seen_candidates_rejected - old(stats).path_seen_candidates_rejected + 1
                    <= final(stats).path_checks - old(stats).path_checks
            },
            final(self).buckets@[bucket as int]@[3] != 0,
            exists|v: int|
                #![trigger current_word@[v]]
                current_word@[v] == r.0 && if final(stats).path_activated {
                    guarded_victim(
                        final(self).path->0,
                        step_scores(old(self).policy, old(self).buckets@, old(self).mask, bucket, current_word@),
                        step_keys(bucket, step, carry, old(self).mask, current_word@),
                        step_neighbors(old(self).mask, bucket, current_word@),
                        v,
                    )
                } else {
                    least_scored(
                        step_scores(old(self).policy, old(self).buckets@, old(self).mask, bucket, current_word@),
                        step_keys(bucket, step, carry, old(self).mask, current_word@),
                        v,
                    )
                } && final(self).buckets@[bucket as int]@ == encoded_lanes(
                    old(self).policy,
                    current_word@.update(v, carry),
                    requested_rank(
                        old(self).policy,
                        predecessor_rank,
                        step_scores(old(self).policy, old(self).buckets@, old(self).mask, bucket, current_word@),
                        v,
                    ),
                ),
    {
        proof {
            assert(is_prefix_form(self.buckets@[bucket as int]@));
        }
        let mut residents = current_word.slots();
        let mut neighbors = [0u32; SLOTS];
        let mut neighbor_words = [Bucket(0); SLOTS];
        let mut scores = [0u8; SLOTS];
        let mut slot: usize = 0;
        while slot < SLOTS
            invariant
                table_wf(self.mask, self.buckets@),
                is_ranked(self.policy),
                bucket <= self.mask,
                slot <= SLOTS,
                residents@ == current_word@,
                forall|i: int| 0 <= i < slot ==> #[trigger] neighbors@[i] == alt_index_spec(self.mask, bucket, residents@[i]),
                forall|i: int| 0 <= i < slot ==> #[trigger] neighbors@[i] <= self.mask,
                forall|i: int| 0 <= i < slot ==> #[trigger] neighbor_words@[i] == self.buckets@[neighbors@[i] as int],
                forall|i: int| 0 <= i < slot ==> #[trigger] scores@[i] <= 8,
                forall|i: int| 0 <= i < slot ==> #[trigger] scores@[i] as int == neighbor_rank(self.policy, self.buckets@, neighbors@[i] as int),
                self.buckets@ == old(self).buckets@,
                self.policy == old(self).policy,
                self.mask == old(self).mask,
                same_except_reads(*stats, *old(stats)),
                old(stats).bucket_reads <= u32::MAX - 4 ==> stats.bucket_reads == old(stats).bucket_reads + slot,
            decreases SLOTS - slot,
        {
            let fingerprint = residents[slot];
            let neighbor = alt_index(self.mask, bucket, fingerprint);
            proof {
                lemma_alt_index(self.mask, bucket, fingerprint);
            }
            let neighbor_word = self.bucket(neighbor);
            stats.bucket_reads = stats.bucket_reads.wrapping_add(1);
            let score = if neighbor_word.is_full() {
                self.decode_rank(neighbor_word)
            } else {
                0
            };
            neighbors[slot] = neighbor;
            neighbor_words[slot] = neighbor_word;
            scores[slot] = score;
            slot += 1;
        }
        let (chosen, tie_keys) = ranked_victim_slot(bucket, step, carry, residents, neighbors, scores);
        let mut best_slot = chosen;
        let best_score = scores[best_slot];
        proof {
            assert(tie_keys@ =~= step_keys(bucket, step, carry, self.mask, current_word@));
            assert(neighbors@ =~= step_neighbors(self.mask, bucket, current_word@));
            assert(least_scored(scores@, tie_keys@, chosen as int));
            assert(scores@ =~= step_scores(self.policy, self.buckets@, self.mask, bucket, current_word@));
            assert(!crate::choice::scored_less(scores@[0], tie_keys@[0], best_score, tie_keys@[chosen as int]));
            assert(!crate::choice::scored_less(scores@[1], tie_keys@[1], best_score, tie_keys@[chosen as int]));
            assert(!crate::choice::scored_less(scores@[2], tie_keys@[2], best_score, tie_keys@[chosen as int]));
            assert(!crate::choice::scored_less(scores@[3], tie_keys@[3], best_score, tie_keys@[chosen as int]));
            assert(best_score == min_rank(scores@));
        }
        let mut active = path_active;
        if self.policy == Policy::CavityRank4Path {
            let current_rank = self.decode_rank(current_word);
            let mut sketch = self.path.take().unwrap();
            if !active && sketch.activation.triggers(step, current_rank, best_score) {
                sketch.activate();
                active = true;
                stats.path_activated = true;
                stats.path_activation_step = step + 1;
            }
            if active {
                sketch.record(bucket);
                let (preferred, checks, rejected) = sketch.prefer_unseen(
                    best_score,
                    &scores,
                    &neighbors,
                    &tie_keys,
                    best_slot,
                );
                proof {
                    assert(rejected == step_rejected(sketch, self.policy, self.buckets@, self.mask, bucket)) by {
                        assert(scores@ =~= step_scores(self.policy, self.buckets@, self.mask, bucket, current_word@));
                        assert(neighbors@ =~= step_neighbors(self.mask, bucket, current_word@));
                    }
                }
                best_slot = preferred;
                stats.path_guarded_steps = stats.path_guarded_steps.wrapping_add(1);
                stats.path_checks = stats.path_checks.wrapping_add(checks);
                stats.path_seen_candidates_rejected = stats.path_seen_candidates_rejected.wrapping_add(
                    rejected,
                );
            }
            self.path = Some(sketch);
        }
        proof {
            if active {
                assert(guarded_victim(self.path->0, scores@, tie_keys@, neighbors@, best_slot as int));
            } else {
                assert(least_scored(scores@, tie_keys@, best_slot as int));
            }
        }
        let ghost victim_slot = best_slot as int;
        let victim = residents[best_slot];
        let ghost before = residents@;
        proof {
            assert(scores@ =~= step_scores(self.policy, self.buckets@, self.mask, bucket, current_word@));
        }
        residents[best_slot] = carry;
        let requested = if self.policy == Policy::CavityScan {
            2
        } else {
            post_eviction_rank(self.rank_cap(), predecessor_rank, scores, best_slot)
        };
        let updated = self.encode_rank(residents, requested);
        let realized = self.decode_rank(updated);
        proof {
            lemma_update_multiset(before, best_slot as int, carry);
        }
        self.store_evicted(bucket, updated, victim, carry);
        stats.bucket_writes = stats.bucket_writes.wrapping_add(1);
        proof {
            lemma_alt_index(self.mask, bucket, victim);
            assert(neighbors@[best_slot as int] != bucket);
        }
        (victim, neighbors[best_slot], neighbor_words[best_slot], realized, active)
    }

    /// Ranked insertion: places directly when a candidate has room;
    /// otherwise starts at the lower-ranked candidate and relocates toward
    /// buckets with smaller ranks, re-encoding each touched bucket's rank,
    /// for at most `max_kicks` relocations.
    fn insert_ranked(&mut self, fingerprint: u16, first: u32, second: u32, key_hash: u64) -> (stats:
        InsertStats)
        requires
            old(self).wf(),
            is_ranked(old(self).policy),
            fingerprint != 0,
            first <= old(self).mask,
            second <= old(self).mask,
        ensures
            final(self).wf(),
            final(self).same_setup(old(self)),
            final(self).dense_mode == old(self).dense_mode,
            exists|root: u32|
                (root == first || root == second) && #[trigger] insertion_outcome(
                    old(self).items(),
                    final(self).items(),
                    item_at(old(self).mask, root, fingerprint),
                    stats,
                ),
            stats.inserted ==> final(self).size == old(self).size + 1,
            !stats.inserted ==> final(self).size == old(self).size && !stats.filter_usable,
            stats.inserted ==> stats.filter_usable,
            old(self).buckets@[first as int]@[3] == 0 || old(self).buckets@[second as int]@[3] == 0
                ==> stats.inserted,
            old(self).buckets@[first as int]@[3] == 0 || old(self).buckets@[second as int]@[3] == 0
                ==> direct_placement(stats) && 2 <= stats.bucket_reads <= 5,
            !(old(self).buckets@[first as int]@[3] == 0 || old(self).buckets@[second as int]@[3] == 0)
                ==> kicked_stats(stats, old(self).max_kicks) && ranked_kick_reads(stats, old(self).max_kicks),
            path_stats(stats, old(self).policy == Policy::CavityRank4Path),
            stats.relocations <= old(self).max_kicks,
            old(self).buckets@[first as int]@[3] == 0 || old(self).buckets@[second as int]@[3] == 0
                ==> ranked_direct_effect(old(self), final(self), fingerprint, first, second, key_hash),
            old(self).buckets@[first as int]@[3] == 0 || old(self).buckets@[second as int]@[3] == 0
                ==> stats.bucket_reads == ranked_direct_reads(old(self), fingerprint, first, second, key_hash),
            old(self).path is Some && old(self).path->0.activation is After ==> {
                let threshold = old(self).path->0.activation->0;
                &&& stats.path_activated ==> stats.path_activation_step == threshold + 1
                &&& stats.path_activated <==> stats.relocations > threshold
            },
            4 * old(self).max_kicks <= u32::MAX ==> stats.path_guarded_steps + stats.path_seen_candidates_rejected <= stats.path_checks
                <= 4 * stats.path_guarded_steps,
            !stats.inserted ==> forall|i: int|
                0 <= i < old(self).buckets@.len() && old(self).buckets@[i]@[3] != 0
                    ==> #[trigger] final(self).buckets@[i]@[3] != 0,
            !(old(self).buckets@[first as int]@[3] == 0 || old(self).buckets@[second as int]@[3] == 0)
                ==> old(self).ranked_run(final(self), fingerprint, first, second, key_hash, stats),
    {
        let first_word = self.bucket(first);
        let second_word = self.bucket(second);
        let first_occupancy = first_word.branchless_occupancy();
        let second_occupancy = second_word.branchless_occupancy();
        let mut stats = InsertStats::default();
        stats.bucket_reads = 2;
        proof {
            assert(is_prefix_form(first_word@));
            assert(is_prefix_form(second_word@));
        }
        if first_occupancy < SLOTS || second_occupancy < SLOTS {
            let destination = direct_destination(
                first,
                second,
                first_occupancy,
                second_occupancy,
                key_hash,
            );
            let other = if destination == first {
                second
            } else {
                first
            };
            let word = if destination == first {
                first_word
            } else {
                second_word
            };
            let other_word = if other == first {
                first_word
            } else {
                second_word
            };
            let predecessor_rank = if other_word.is_full() {
                self.decode_rank(other_word)
            } else {
                0
            };
            proof {
                lemma_table_items_len(self.mask, self.buckets@, self.buckets@.len(), destination as int);
                lemma_bucket_items_len(self.mask, destination, word@);
            }
            let ghost start = *self;
            self.place_ranked(destination, word, predecessor_rank, fingerprint, &mut stats);
            stats.bucket_writes = 1;
            stats.inserted = true;
            self.size = self.size + 1;
            proof {
                assert(insertion_outcome(
                    start.items(),
                    self.items(),
                    item_at(self.mask, destination, fingerprint),
                    stats,
                ));
            }
            return stats;
        }
        self.relocate_ranked(fingerprint, first, second, first_word, second_word, key_hash, stats)
    }

    /// Ranked relocation from two full candidate buckets: starts at the
    /// lower-ranked candidate and moves toward buckets with smaller ranks,
    /// re-encoding each touched bucket's rank, for at most `max_kicks`
    /// relocations.
    #[verifier::rlimit(60)]
    #[verifier::spinoff_prover]
    fn relocate_ranked(
        &mut self,
        fingerprint: u16,
        first: u32,
        second: u32,
        first_word: Bucket,
        second_word: Bucket,
        key_hash: u64,
        initial: InsertStats,
    ) -> (r: InsertStats)
        requires
            old(self).wf(),
            is_ranked(old(self).policy),
            fingerprint != 0,
            first <= old(self).mask,
            second <= old(self).mask,
            first_word == old(self).buckets@[first as int],
            second_word == old(self).buckets@[second as int],
            first_word@[3] != 0,
            second_word@[3] != 0,
            !initial.inserted,
            initial.filter_usable,
            initial.relocations == 0,
            initial.bucket_writes == 0,
            initial.bucket_reads == 2,
            no_path_activity(initial),
        ensures
            final(self).wf(),
            final(self).same_setup(old(self)),
            final(self).dense_mode == old(self).dense_mode,
            exists|root: u32|
                (root == first || root == second) && #[trigger] insertion_outcome(
                    old(self).items(),
                    final(self).items(),
                    item_at(old(self).mask, root, fingerprint),
                    r,
                ),
            r.inserted ==> final(self).size == old(self).size + 1,
            !r.inserted ==> final(self).size == old(self).size && !r.filter_usable,
            r.inserted ==> r.filter_usable,
            r.relocations <= old(self).max_kicks,
            kicked_stats(r, old(self).max_kicks),
            ranked_kick_reads(r, old(self).max_kicks),
            path_stats(r, old(self).policy == Policy::CavityRank4Path),
            old(self).path is Some && old(self).path->0.activation is After ==> {
                let threshold = old(self).path->0.activation->0;
                &&& r.path_activated ==> r.path_activation_step == threshold + 1
                &&& r.path_activated <==> r.relocations > threshold
            },
            4 * old(self).max_kicks <= u32::MAX ==> r.path_guarded_steps + r.path_seen_candidates_rejected <= r.path_checks <= 4
                * r.path_guarded_steps,
            forall|i: int|
                0 <= i < old(self).buckets@.len() && old(self).buckets@[i]@[3] != 0
                    ==> #[trigger] final(self).buckets@[i]@[3] != 0,
            old(self).ranked_run(final(self), fingerprint, first, second, key_hash, r),
    {
        let mut stats = initial;
        let first_rank = self.decode_rank(first_word);
        let second_rank = self.decode_rank(second_word);
        let (mut bucket, mut current_word, mut predecessor_rank) = if first_rank < second_rank || (
        first_rank == second_rank && (key_hash >> 33) & 1 == 1) {
            (first, first_word, second_rank)
        } else {
            (second, second_word, first_rank)
        };
        let mut carry = fingerprint;
        let mut path_active = false;
        let ghost root = bucket;
        let ghost start = *self;
        assert(start == *old(self));
        let ghost mut states: Seq<CuckooFilter> = seq![*self];
        let ghost mut bs: Seq<u32> = seq![bucket];
        let ghost mut carries: Seq<u16> = seq![carry];
        let ghost mut preds: Seq<u8> = seq![predecessor_rank];
        let ghost mut guards: Seq<bool> = seq![false];
        let mut step: u32 = 0;
        while step < self.max_kicks
            invariant
                table_wf(self.mask, self.buckets@),
                self.buckets@.len() * 8 <= usize::MAX,
                self.mask == start.mask,
                self.policy == start.policy,
                self.max_kicks == start.max_kicks,
                self.buckets@.len() == start.buckets@.len(),
                self.eviction_labels == start.eviction_labels,
                self.lsa_labels == start.lsa_labels,
                self.bfs == start.bfs,
                self.dense_mode == start.dense_mode,
                self.size == start.size,
                start.wf(),
                start == *old(self),
                is_ranked(self.policy),
                self.policy == Policy::CavityRank4Path <==> self.path is Some,
                self.path matches Some(sketch) ==> sketch.wf() && (!path_active ==> sketch.idle()),
                path_active ==> stats.path_activated,
                path_active ==> self.path is Some,
                bucket <= self.mask,
                carry != 0,
                current_word == self.buckets@[bucket as int],
                current_word@[3] != 0,
                predecessor_rank <= 8,
                forall|i: int|
                    0 <= i < start.buckets@.len() && start.buckets@[i]@[3] != 0 ==> #[trigger] self.buckets@[i]@[3]
                        != 0,
                root == ranked_start(
                    first,
                    second,
                    decoded_rank(start.policy, start.buckets@[first as int]@),
                    decoded_rank(start.policy, start.buckets@[second as int]@),
                    key_hash,
                ),
                root == first || root == second,
                start.ranked_chain(states, bs, carries, preds, guards, step as nat),
                *self == states[step as int],
                bucket == bs[step as int],
                carry == carries[step as int],
                predecessor_rank == preds[step as int],
                path_active == guards[step as int],
                4 * start.max_kicks <= u32::MAX ==> stats.path_checks == chain_checks(
                    start.policy,
                    start.mask,
                    states,
                    bs,
                    guards,
                    step as nat,
                ),
                4 * start.max_kicks <= u32::MAX ==> stats.path_seen_candidates_rejected == chain_rejected(
                    start.policy,
                    start.mask,
                    states,
                    bs,
                    guards,
                    step as nat,
                ),
                bs[0] == root,
                carries[0] == fingerprint,
                preds[0] == if root == first {
                    decoded_rank(start.policy, start.buckets@[second as int]@)
                } else {
                    decoded_rank(start.policy, start.buckets@[first as int]@)
                },
                self.items().insert(item_at(self.mask, bucket, carry)) == start.items().insert(
                    item_at(self.mask, root, fingerprint),
                ),
                !stats.inserted,
                stats.filter_usable,
                stats.relocations == step,
                stats.bucket_writes == step,
                step <= self.max_kicks,
                6 + 4 * self.max_kicks <= u32::MAX ==> stats.bucket_reads == 2 + 4 * step,
                path_active == stats.path_activated,
                !stats.path_activated ==> no_path_activity(stats),
                stats.path_activated ==> self.policy == Policy::CavityRank4Path && 1 <= stats.path_activation_step
                    <= step && stats.path_guarded_steps == step - stats.path_activation_step + 1,
                self.path is Some ==> self.path->0.activation == start.path->0.activation,
                4 * self.max_kicks <= u32::MAX ==> stats.path_guarded_steps + stats.path_seen_candidates_rejected <= stats.path_checks
                    <= 4 * stats.path_guarded_steps,
                start.path is Some && start.path->0.activation is After ==> {
                    let threshold = start.path->0.activation->0;
                    &&& !stats.path_activated ==> step <= threshold
                    &&& step > threshold ==> stats.path_activated
                    &&& stats.path_activated ==> stats.path_activation_step == threshold + 1
                },
            decreases self.max_kicks - step,
        {
            let (victim, next, next_word, realized, active) = self.ranked_step(
                bucket,
                current_word,
                carry,
                step,
                predecessor_rank,
                path_active,
                &mut stats,
            );
            path_active = active;
            stats.relocations = stats.relocations + 1;
            proof {
                lemma_alt_index(self.mask, bucket, victim);
                lemma_ranked_chain_push(
                    start,
                    states,
                    bs,
                    carries,
                    preds,
                    guards,
                    step as nat,
                    *self,
                    victim,
                    realized,
                    active,
                );
                lemma_chain_checks_push(start.policy, start.mask, states, bs, guards, *self, next, active, step as nat);
                lemma_chain_rejected_push(start.policy, start.mask, states, bs, guards, *self, next, active, step as nat);
                states = states.push(*self);
                bs = bs.push(next);
                carries = carries.push(victim);
                preds = preds.push(realized);
                guards = guards.push(active);
            }
            carry = victim;
            bucket = next;
            current_word = next_word;
            predecessor_rank = realized;
            step = step + 1;
            if !current_word.is_full() {
                proof {
                    lemma_table_items_len(self.mask, self.buckets@, self.buckets@.len(), bucket as int);
                    lemma_bucket_items_len(self.mask, bucket, current_word@);
                    assert(is_prefix_form(current_word@));
                    assert(self.items().len() + 1 <= 4 * self.buckets@.len());
                    assert(self.items().insert(item_at(self.mask, bucket, carry)).len() == self.items().len() + 1);
                    assert(start.items().insert(item_at(self.mask, root, fingerprint)).len() == start.items().len() + 1);
                }
                self.place_ranked(bucket, current_word, predecessor_rank, carry, &mut stats);
                stats.bucket_writes = stats.bucket_writes.wrapping_add(1);
                stats.inserted = true;
                self.size = self.size + 1;
                if path_active {
                    let mut sketch = self.path.take().unwrap();
                    sketch.finish_insertion();
                    self.path = Some(sketch);
                }
                proof {
                    assert(insertion_outcome(
                        start.items(),
                        self.items(),
                        item_at(self.mask, root, fingerprint),
                        stats,
                    ));
                    assert(start.ranked_trace(self, fingerprint, first, second, key_hash, stats, states, bs, carries, preds, guards));
                }
                return stats;
            }
        }
        if path_active {
            let mut sketch = self.path.take().unwrap();
            sketch.finish_insertion();
            self.path = Some(sketch);
        }
        stats.filter_usable = false;
        proof {
            let lost = item_at(self.mask, bucket, carry);
            let grown = start.items().insert(item_at(self.mask, root, fingerprint));
            assert(grown.count(lost) > 0);
            assert(self.items() =~= grown.remove(lost));
            assert(insertion_outcome(
                start.items(),
                self.items(),
                item_at(self.mask, root, fingerprint),
                stats,
            ));
            assert(start.ranked_trace(self, fingerprint, first, second, key_hash, stats, states, bs, carries, preds, guards));
        }
        stats
    }
}

/// Number of buckets among the first `k` marked in generation `g`.
pub open spec fn seen_count(seen: Seq<u32>, g: u32, k: int) -> nat
    decreases k,
{
    if k <= 0 {
        0
    } else {
        seen_count(seen, g, k - 1) + if seen[k - 1] == g {
            1nat
        } else {
            0nat
        }
    }
}

/// Marking an unmarked bucket raises the count by one.
pub proof fn lemma_seen_count_mark(seen: Seq<u32>, g: u32, v: int, k: int)
    requires
        0 <= v < seen.len(),
        seen[v] != g,
        0 <= k <= seen.len(),
    ensures
        seen_count(seen.update(v, g), g, k) == seen_count(seen, g, k) + if v < k {
            1nat
        } else {
            0nat
        },
    decreases k,
{
    if k > 0 {
        lemma_seen_count_mark(seen, g, v, k - 1);
    }
}

/// At most `k` of the first `k` buckets are marked.
pub proof fn lemma_seen_count_bound(seen: Seq<u32>, g: u32, k: int)
    requires
        0 <= k,
    ensures
        seen_count(seen, g, k) <= k,
    decreases k,
{
    if k > 0 {
        lemma_seen_count_bound(seen, g, k - 1);
    }
}

/// No bucket is marked in a generation ahead of all marks.
pub proof fn lemma_seen_count_fresh(seen: Seq<u32>, g: u32, k: int)
    requires
        0 <= k <= seen.len(),
        forall|v: int| 0 <= v < seen.len() ==> seen[v] < g,
    ensures
        seen_count(seen, g, k) == 0,
    decreases k,
{
    if k > 0 {
        lemma_seen_count_fresh(seen, g, k - 1);
    }
}

/// A marked bucket of the search tree: it is full, within the depth bound,
/// and either a root (one of the two candidates) or reached from a marked
/// parent through the alternate bucket of the parent's lane `parent_slot`.
pub open spec fn bfs_node(
    scratch: BfsScratch,
    t: Seq<Bucket>,
    mask: u32,
    first: u32,
    second: u32,
    g: u32,
    v: int,
) -> bool {
    let p = scratch.parent_bucket@[v];
    &&& t[v]@[3] != 0
    &&& scratch.depth@[v] <= scratch.max_depth
    &&& ((p == NO_PARENT && scratch.depth@[v] == 0 && (v == first || v == second)) || (p <= mask
        && scratch.seen@[p as int] == g && scratch.depth@[v] == scratch.depth@[p as int] + 1
        && scratch.parent_slot@[v] < 4 && v == alt_index_spec(
        mask,
        p,
        t[p as int]@[scratch.parent_slot@[v] as int],
    )))
}

/// Every bucket marked in generation `g` is a node of the search tree.
pub open spec fn bfs_tree(
    scratch: BfsScratch,
    t: Seq<Bucket>,
    mask: u32,
    first: u32,
    second: u32,
    g: u32,
) -> bool {
    forall|v: int|
        0 <= v < t.len() && #[trigger] scratch.seen@[v] == g ==> bfs_node(
            scratch,
            t,
            mask,
            first,
            second,
            g,
            v,
        )
}

/// A relocation path: each edge leaves a full bucket through one lane, the
/// next edge starts at that lane's alternate bucket, the last one reaches
/// `terminal`, which has room, and no bucket repeats.
pub open spec fn bfs_chain(e: Seq<(u32, u8)>, t: Seq<Bucket>, mask: u32, terminal: u32) -> bool {
    &&& 1 <= e.len() <= 256
    &&& forall|i: int|
        0 <= i < e.len() ==> (#[trigger] e[i]).0 <= mask && e[i].1 < 4 && t[e[i].0 as int]@[3] != 0
    &&& forall|i: int|
        0 <= i < e.len() - 1 ==> (#[trigger] e[i + 1]).0 == alt_index_spec(
            mask,
            e[i].0,
            t[e[i].0 as int]@[e[i].1 as int],
        )
    &&& terminal == alt_index_spec(
        mask,
        e[e.len() - 1].0,
        t[e[e.len() - 1].0 as int]@[e[e.len() - 1].1 as int],
    )
    &&& terminal <= mask
    &&& t[terminal as int]@[3] == 0
    &&& forall|i: int, j: int| 0 <= i < j < e.len() ==> (#[trigger] e[i]).0 != (#[trigger] e[j]).0
}

/// The child of bucket `b` through its lane `slot` is full, marked in
/// generation `g`, and at most one level deeper than `b`.
pub open spec fn child_ok(s: BfsScratch, t: Seq<Bucket>, mask: u32, g: u32, b: int, slot: int) -> bool {
    let child = alt_index_spec(mask, b as u32, t[b]@[slot]) as int;
    &&& t[child]@[3] != 0
    &&& s.seen@[child] == g
    &&& s.depth@[child] <= s.depth@[b] + 1
}

/// Every lane of bucket `b` leads to a child that is full, marked, and at
/// most one level deeper.
pub open spec fn expanded(s: BfsScratch, t: Seq<Bucket>, mask: u32, g: u32, b: int) -> bool {
    forall|slot: int| 0 <= slot < 4 ==> #[trigger] child_ok(s, t, mask, g, b, slot)
}

/// Bucket `v` is in the search queue.
pub open spec fn queued(s: BfsScratch, v: int) -> bool {
    exists|q: int| 0 <= q < s.queue@.len() && #[trigger] s.queue@[q] == v
}

/// Bucket `v` is reached from a candidate through `d` relocation hops, each
/// leaving a full bucket through one of its lanes.
pub open spec fn hop_reach(t: Seq<Bucket>, mask: u32, first: u32, second: u32, v: int, d: nat) -> bool
    decreases d,
{
    if d == 0 {
        v == first || v == second
    } else {
        exists|u: int, slot: int|
            #[trigger] hop_edge(t, mask, u, slot, v) && hop_reach(t, mask, first, second, u, (d - 1) as nat)
    }
}

/// Bucket `v` is the alternate bucket of lane `slot` of the full bucket `u`.
pub open spec fn hop_edge(t: Seq<Bucket>, mask: u32, u: int, slot: int, v: int) -> bool {
    0 <= u < t.len() && 0 <= slot < 4 && t[u]@[3] != 0 && v == alt_index_spec(mask, u as u32, t[u]@[slot])
}

/// When every queued bucket below the depth bound is expanded, every bucket
/// reached through `d` hops within the bound is marked at depth `d` or less.
proof fn lemma_bfs_complete(
    s: BfsScratch,
    t: Seq<Bucket>,
    mask: u32,
    first: u32,
    second: u32,
    g: u32,
    head: int,
    v: int,
    d: nat,
)
    requires
        table_wf(mask, t),
        s.sized(t.len()),
        first <= mask,
        second <= mask,
        s.seen@[first as int] == g,
        s.seen@[second as int] == g,
        s.depth@[first as int] == 0,
        s.depth@[second as int] == 0,
        head == s.queue@.len(),
        forall|q: int| 0 <= q < s.queue@.len() ==> (#[trigger] s.queue@[q]) <= mask,
        forall|w: int| 0 <= w < t.len() && #[trigger] s.seen@[w] == g ==> queued(s, w),
        forall|q: int|
            0 <= q < head ==> s.depth@[#[trigger] s.queue@[q] as int] < s.max_depth ==> expanded(
                s,
                t,
                mask,
                g,
                s.queue@[q] as int,
            ),
        hop_reach(t, mask, first, second, v, d),
        d <= s.max_depth,
    ensures
        0 <= v < t.len(),
        s.seen@[v] == g,
        s.depth@[v] <= d,
    decreases d,
{
    if d > 0 {
        let (u, slot) = choose|u: int, slot: int|
            #[trigger] hop_edge(t, mask, u, slot, v) && hop_reach(t, mask, first, second, u, (d - 1) as nat);
        lemma_bfs_complete(s, t, mask, first, second, g, head, u, (d - 1) as nat);
        assert(queued(s, u));
        let q = choose|q: int| 0 <= q < s.queue@.len() && #[trigger] s.queue@[q] == u;
        assert(expanded(s, t, mask, g, s.queue@[q] as int));
        assert(child_ok(s, t, mask, g, u, slot));
        lemma_alt_index(mask, u as u32, t[u]@[slot]);
    }
}

/// Marking a fresh bucket keeps a checked lane checked.
proof fn lemma_child_mark(
    before: BfsScratch,
    after: BfsScratch,
    t: Seq<Bucket>,
    mask: u32,
    g: u32,
    b: int,
    slot: int,
    w: int,
    dw: u8,
)
    requires
        table_wf(mask, t),
        before.sized(t.len()),
        0 <= b < t.len(),
        0 <= slot < 4,
        0 <= w < before.seen@.len(),
        before.seen@[w] != g,
        before.seen@[b] == g,
        after.seen@ == before.seen@.update(w, g),
        after.depth@ == before.depth@.update(w, dw),
        child_ok(before, t, mask, g, b, slot),
    ensures
        child_ok(after, t, mask, g, b, slot),
{
    lemma_alt_index(mask, b as u32, t[b]@[slot]);
}

/// Marking a fresh bucket keeps every expanded bucket expanded.
proof fn lemma_expanded_mark(before: BfsScratch, after: BfsScratch, t: Seq<Bucket>, mask: u32, g: u32, b: int, w: int, dw: u8)
    requires
        table_wf(mask, t),
        before.sized(t.len()),
        0 <= b < t.len(),
        0 <= w < before.seen@.len(),
        before.seen@[w] != g,
        before.seen@[b] == g,
        after.seen@ == before.seen@.update(w, g),
        after.depth@ == before.depth@.update(w, dw),
        expanded(before, t, mask, g, b),
    ensures
        expanded(after, t, mask, g, b),
{
    assert forall|slot: int| 0 <= slot < 4 implies #[trigger] child_ok(after, t, mask, g, b, slot) by {
        assert(child_ok(before, t, mask, g, b, slot));
        lemma_alt_index(mask, b as u32, t[b]@[slot]);
    }
}

/// Lane `start + offset` of four, counted round from `start`.
pub open spec fn rotated_slot(start: int, offset: int) -> int {
    (start + offset) % 4
}

/// Every lane of bucket `b` leads to an alternate bucket that is full.
pub open spec fn lanes_lead_to_full(t: Seq<Bucket>, mask: u32, b: u32) -> bool {
    forall|s: int| 0 <= s < 4 ==> t[alt_index_spec(mask, b, #[trigger] t[b as int]@[s]) as int]@[3] != 0
}

/// Breadth-first search from the two full candidates for a bucket with
/// room, within `max_depth` relocations. Returns the bucket with room, its
/// parent in the tree and the parent's lane.
#[verifier::rlimit(100)]
#[verifier::spinoff_prover]
fn bfs_search(
    buckets: &Vec<Bucket>,
    mask: u32,
    scratch: &mut BfsScratch,
    first: u32,
    second: u32,
    key_hash: u64,
    stats: &mut InsertStats,
) -> (r: Option<(u32, u32, u8)>)
    requires
        table_wf(mask, buckets@),
        old(scratch).sized(buckets@.len()),
        first <= mask,
        second <= mask,
        buckets@[first as int]@[3] != 0,
        buckets@[second as int]@[3] != 0,
    ensures
        final(scratch).sized(buckets@.len()),
        final(scratch).max_depth == old(scratch).max_depth,
        final(scratch).generation >= 1,
        bfs_tree(*final(scratch), buckets@, mask, first, second, final(scratch).generation),
        r matches Some(found) ==> {
            &&& found.1 <= mask
            &&& found.2 < 4
            &&& final(scratch).depth@[found.1 as int] < final(scratch).max_depth
            &&& final(scratch).seen@[found.1 as int] == final(scratch).generation
            &&& found.0 == alt_index_spec(mask, found.1, buckets@[found.1 as int]@[found.2 as int])
            &&& found.0 <= mask
            &&& buckets@[found.0 as int]@[3] == 0
        },
        final(scratch).edges@.len() == 0,
        same_except_reads(*final(stats), *old(stats)),
        r is None ==> lanes_lead_to_full(buckets@, mask, first) && lanes_lead_to_full(buckets@, mask, second),
        r is None ==> forall|w: int, d: nat|
            0 <= w < buckets@.len() && d < old(scratch).max_depth && #[trigger] hop_reach(buckets@, mask, first, second, w, d)
                ==> lanes_lead_to_full(buckets@, mask, w as u32),
{
    let ghost n = buckets@.len() as int;
    let ghost t = buckets@;
    scratch.generation = scratch.generation.wrapping_add(1);
    if scratch.generation == 0 {
        let count = scratch.seen.len();
        let mut i: usize = 0;
        while i < count
            invariant
                count == scratch.seen@.len(),
                i <= count,
                forall|v: int| 0 <= v < i ==> #[trigger] scratch.seen@[v] == 0,
                scratch.seen@.len() == old(scratch).seen@.len(),
                scratch.parent_bucket == old(scratch).parent_bucket,
                scratch.parent_slot == old(scratch).parent_slot,
                scratch.depth == old(scratch).depth,
                scratch.max_depth == old(scratch).max_depth,
                scratch.edges == old(scratch).edges,
            decreases count - i,
        {
            scratch.seen.set(i, 0);
            i += 1;
        }
        scratch.generation = 1;
    }
    let generation = scratch.generation;
    proof {
        assert forall|v: int| 0 <= v < n implies #[trigger] scratch.seen@[v] < generation by {}
        lemma_seen_count_fresh(scratch.seen@, generation, n);
    }
    scratch.queue.clear();
    scratch.edges.clear();
    let (start_a, start_b) = if (key_hash >> 33) & 1 == 1 {
        (second, first)
    } else {
        (first, second)
    };
    // Mark both roots (one when the candidates coincide).
    if scratch.seen[start_a as usize] != generation {
        proof {
            lemma_seen_count_mark(scratch.seen@, generation, start_a as int, n);
        }
        scratch.seen.set(start_a as usize, generation);
        scratch.parent_bucket.set(start_a as usize, NO_PARENT);
        scratch.depth.set(start_a as usize, 0);
        scratch.queue.push(start_a);
    }
    if scratch.seen[start_b as usize] != generation {
        proof {
            lemma_seen_count_mark(scratch.seen@, generation, start_b as int, n);
        }
        scratch.seen.set(start_b as usize, generation);
        scratch.parent_bucket.set(start_b as usize, NO_PARENT);
        scratch.depth.set(start_b as usize, 0);
        scratch.queue.push(start_b);
    }
    proof {
        assert forall|v: int| 0 <= v < n implies #[trigger] scratch.seen@[v] <= scratch.generation by {}
        assert forall|v: int| 0 <= v < n && #[trigger] scratch.seen@[v] == generation implies bfs_node(*scratch, t, mask, first, second, generation, v) by {
            assert(v == start_a || v == start_b);
        }
        assert forall|q: int| 0 <= q < scratch.queue@.len() implies (#[trigger] scratch.queue@[q]) <= mask && scratch.seen@[scratch.queue@[q] as int] == generation by {}
        assert forall|w: int| 0 <= w < n && #[trigger] scratch.seen@[w] == generation implies queued(*scratch, w) by {
            assert(w == start_a || w == start_b);
            if w == start_a {
                assert(scratch.queue@[0] == w);
            } else {
                assert(scratch.queue@[1] == w);
            }
        }
    }
    let mut terminal: Option<(u32, u32, u8)> = None;
    let mut head: usize = 0;
    while head < scratch.queue.len() && terminal.is_none()
        invariant
            table_wf(mask, t),
            t == buckets@,
            n == t.len(),
            scratch.sized(t.len()),
            scratch.generation == generation,
            generation >= 1,
            scratch.max_depth == old(scratch).max_depth,
            bfs_tree(*scratch, t, mask, first, second, generation),
            forall|q: int| 0 <= q < scratch.queue@.len() ==> (#[trigger] scratch.queue@[q]) <= mask && scratch.seen@[scratch.queue@[q] as int] == generation,
            scratch.queue@.len() == seen_count(scratch.seen@, generation, n),
            head <= scratch.queue@.len(),
            terminal matches Some(found) ==> {
                &&& found.1 <= mask
                &&& found.2 < 4
                &&& scratch.depth@[found.1 as int] < scratch.max_depth
                &&& scratch.seen@[found.1 as int] == generation
                &&& found.0 == alt_index_spec(mask, found.1, t[found.1 as int]@[found.2 as int])
                &&& found.0 <= mask
                &&& t[found.0 as int]@[3] == 0
            },
            same_except_reads(*stats, *old(stats)),
            scratch.edges@.len() == 0,
            (start_a == first && start_b == second) || (start_a == second && start_b == first),
            scratch.queue@.len() >= 1,
            scratch.queue@[0] == start_a,
            start_a != start_b ==> scratch.queue@.len() >= 2 && scratch.queue@[1] == start_b,
            scratch.depth@[first as int] == 0,
            scratch.depth@[second as int] == 0,
            forall|w: int| 0 <= w < n && #[trigger] scratch.seen@[w] == generation ==> queued(*scratch, w),
            forall|q1: int, q2: int|
                0 <= q1 <= q2 < scratch.queue@.len() ==> scratch.depth@[#[trigger] scratch.queue@[q1] as int]
                    <= scratch.depth@[#[trigger] scratch.queue@[q2] as int],
            forall|q: int|
                0 <= q < scratch.queue@.len() ==> scratch.depth@[#[trigger] scratch.queue@[q] as int]
                    <= scratch.depth@[scratch.queue@[if head == 0 {
                    0
                } else {
                    head - 1
                }] as int] + 1,
            terminal is None ==> forall|q: int|
                0 <= q < head ==> scratch.depth@[#[trigger] scratch.queue@[q] as int] < scratch.max_depth
                    ==> expanded(*scratch, t, mask, generation, scratch.queue@[q] as int),
        decreases n - head,
    {
        proof {
            lemma_seen_count_bound(scratch.seen@, generation, n);
        }
        let bucket = scratch.queue[head];
        head += 1;
        stats.bucket_reads = stats.bucket_reads.wrapping_add(1);
        let word = buckets[bucket as usize];
        let depth = scratch.depth[bucket as usize];
        proof {
            assert(scratch.seen@[bucket as int] == generation);
            assert(bfs_node(*scratch, t, mask, first, second, generation, bucket as int));
            assert(is_prefix_form(t[bucket as int]@));
        }
        if depth < scratch.max_depth {
            let start_slot = (splitmix64(key_hash ^ ((bucket as u64) << 1) ^ (depth as u64)) % 4) as usize;
            let mut offset: usize = 0;
            while offset < SLOTS && terminal.is_none()
                invariant
                    table_wf(mask, t),
                    t == buckets@,
                    n == t.len(),
                    scratch.sized(t.len()),
                    scratch.generation == generation,
                    generation >= 1,
                    scratch.max_depth == old(scratch).max_depth,
                    bfs_tree(*scratch, t, mask, first, second, generation),
                    forall|q: int| 0 <= q < scratch.queue@.len() ==> (#[trigger] scratch.queue@[q]) <= mask && scratch.seen@[scratch.queue@[q] as int] == generation,
                    scratch.queue@.len() == seen_count(scratch.seen@, generation, n),
                    head <= scratch.queue@.len(),
                    bucket <= mask,
                    scratch.seen@[bucket as int] == generation,
                    scratch.depth@[bucket as int] == depth,
                    depth < scratch.max_depth,
                    word == t[bucket as int],
                    all_nonzero(word@),
                    start_slot < 4,
                    offset <= SLOTS,
                    terminal matches Some(found) ==> {
                        &&& found.1 <= mask
                        &&& found.2 < 4
                        &&& scratch.depth@[found.1 as int] < scratch.max_depth
                        &&& scratch.seen@[found.1 as int] == generation
                        &&& found.0 == alt_index_spec(mask, found.1, t[found.1 as int]@[found.2 as int])
                        &&& found.0 <= mask
                        &&& t[found.0 as int]@[3] == 0
                    },
                    same_except_reads(*stats, *old(stats)),
                    scratch.edges@.len() == 0,
                    (start_a == first && start_b == second) || (start_a == second && start_b == first),
                    scratch.queue@.len() >= 1,
                    scratch.queue@[0] == start_a,
                    start_a != start_b ==> scratch.queue@.len() >= 2 && scratch.queue@[1] == start_b,
                    scratch.depth@[first as int] == 0,
                    scratch.depth@[second as int] == 0,
                    head >= 1,
                    scratch.queue@[head - 1] == bucket,
                    forall|w: int| 0 <= w < n && #[trigger] scratch.seen@[w] == generation ==> queued(*scratch, w),
                    forall|q1: int, q2: int|
                        0 <= q1 <= q2 < scratch.queue@.len() ==> scratch.depth@[#[trigger] scratch.queue@[q1] as int]
                            <= scratch.depth@[#[trigger] scratch.queue@[q2] as int],
                    forall|q: int|
                        0 <= q < scratch.queue@.len() ==> scratch.depth@[#[trigger] scratch.queue@[q] as int]
                            <= depth + 1,
                    terminal is None ==> forall|q: int|
                        0 <= q < head - 1 ==> scratch.depth@[#[trigger] scratch.queue@[q] as int]
                            < scratch.max_depth ==> expanded(*scratch, t, mask, generation, scratch.queue@[q] as int),
                    terminal is None ==> forall|o: int|
                        0 <= o < offset ==> child_ok(*scratch, t, mask, generation, bucket as int, #[trigger] rotated_slot(start_slot as int, o)),
                decreases SLOTS - offset,
            {
                let slot = (start_slot + offset) % 4;
                let fingerprint = word.slot(slot);
                let neighbor = alt_index(mask, bucket, fingerprint);
                proof {
                    lemma_alt_index(mask, bucket, fingerprint);
                }
                stats.bucket_reads = stats.bucket_reads.wrapping_add(1);
                if !buckets[neighbor as usize].is_full() {
                    terminal = Some((neighbor, bucket, slot as u8));
                } else if scratch.seen[neighbor as usize] != generation {
                    let ghost before = *scratch;
                    proof {
                        lemma_seen_count_mark(scratch.seen@, generation, neighbor as int, n);
                    }
                    scratch.seen.set(neighbor as usize, generation);
                    scratch.parent_bucket.set(neighbor as usize, bucket);
                    scratch.parent_slot.set(neighbor as usize, slot as u8);
                    scratch.depth.set(neighbor as usize, depth + 1);
                    scratch.queue.push(neighbor);
                    proof {
                        assert forall|v: int| 0 <= v < n implies #[trigger] scratch.seen@[v] <= scratch.generation by {
                            if v != neighbor as int {
                                assert(scratch.seen@[v] == before.seen@[v]);
                            }
                        }
                        assert forall|v: int| 0 <= v < n && #[trigger] scratch.seen@[v] == generation implies bfs_node(*scratch, t, mask, first, second, generation, v) by {
                            if v != neighbor as int {
                                assert(before.seen@[v] == generation);
                                assert(bfs_node(before, t, mask, first, second, generation, v));
                                let p = before.parent_bucket@[v];
                                if p != NO_PARENT || !(before.depth@[v] == 0 && (v == first || v == second)) {
                                    assert(p <= mask && before.seen@[p as int] == generation);
                                    assert(p as int != neighbor as int);
                                }
                            }
                        }
                        assert forall|q: int| 0 <= q < scratch.queue@.len() implies (#[trigger] scratch.queue@[q]) <= mask && scratch.seen@[scratch.queue@[q] as int] == generation by {
                            if q < before.queue@.len() {
                                assert(scratch.queue@[q] == before.queue@[q]);
                            }
                        }
                        assert forall|q: int| 0 <= q < before.queue@.len() implies scratch.queue@[q]
                            == before.queue@[q] && scratch.depth@[before.queue@[q] as int]
                            == before.depth@[before.queue@[q] as int] by {
                            assert(before.seen@[before.queue@[q] as int] == generation);
                        }
                        assert(scratch.depth@[first as int] == before.depth@[first as int]);
                        assert(scratch.depth@[second as int] == before.depth@[second as int]);
                        let last = scratch.queue@.len() - 1;
                        assert(scratch.queue@[last] == neighbor);
                        assert forall|w: int| 0 <= w < n && #[trigger] scratch.seen@[w] == generation implies queued(*scratch, w) by {
                            if w == neighbor as int {
                                assert(scratch.queue@[last] == w);
                            } else {
                                assert(before.seen@[w] == generation);
                                assert(queued(before, w));
                                let q = choose|q: int| 0 <= q < before.queue@.len() && #[trigger] before.queue@[q] == w;
                                assert(scratch.queue@[q] == w);
                            }
                        }
                        assert(depth == before.depth@[before.queue@[head - 1] as int]);
                        assert forall|q1: int, q2: int|
                            0 <= q1 <= q2 < scratch.queue@.len() implies scratch.depth@[#[trigger] scratch.queue@[q1] as int]
                                <= scratch.depth@[#[trigger] scratch.queue@[q2] as int] by {
                            if q2 < before.queue@.len() {
                                assert(before.depth@[before.queue@[q1] as int] <= before.depth@[before.queue@[q2] as int]);
                            } else if q1 < before.queue@.len() {
                                assert(before.depth@[before.queue@[q1] as int] <= depth + 1);
                            }
                        }
                        assert forall|q: int| 0 <= q < scratch.queue@.len() implies scratch.depth@[#[trigger] scratch.queue@[q] as int]
                            <= depth + 1 by {
                            if q < before.queue@.len() {
                                assert(before.depth@[before.queue@[q] as int] <= depth + 1);
                            }
                        }
                        if terminal is None {
                            assert forall|q: int| 0 <= q < head - 1 && scratch.depth@[#[trigger] scratch.queue@[q] as int]
                                < scratch.max_depth implies expanded(*scratch, t, mask, generation, scratch.queue@[q] as int) by {
                                assert(scratch.queue@[q] == before.queue@[q]);
                                lemma_expanded_mark(before, *scratch, t, mask, generation, before.queue@[q] as int, neighbor as int, (depth + 1) as u8);
                            }
                            assert forall|o: int| 0 <= o < offset + 1 implies child_ok(*scratch, t, mask, generation, bucket as int, #[trigger] rotated_slot(start_slot as int, o)) by {
                                if o < offset {
                                    lemma_child_mark(before, *scratch, t, mask, generation, bucket as int, rotated_slot(start_slot as int, o), neighbor as int, (depth + 1) as u8);
                                } else {
                                    assert(rotated_slot(start_slot as int, o) == slot);
                                }
                            }
                        }
                    }
                } else {
                    proof {
                        assert(queued(*scratch, neighbor as int));
                        let q = choose|q: int| 0 <= q < scratch.queue@.len() && #[trigger] scratch.queue@[q] == neighbor as int;
                        assert(scratch.depth@[scratch.queue@[q] as int] <= depth + 1);
                        assert(child_ok(*scratch, t, mask, generation, bucket as int, slot as int));
                        assert(rotated_slot(start_slot as int, offset as int) == slot);
                    }
                }
                offset += 1;
            }
            proof {
                if terminal is None {
                    assert forall|sl: int| 0 <= sl < 4 implies #[trigger] child_ok(
                        *scratch,
                        t,
                        mask,
                        generation,
                        bucket as int,
                        sl,
                    ) by {
                        let o = if sl >= start_slot {
                            sl - start_slot
                        } else {
                            sl + 4 - start_slot
                        };
                        assert(rotated_slot(start_slot as int, o) == sl);
                    }
                    assert(expanded(*scratch, t, mask, generation, bucket as int));
                }
            }
        }
    }
    proof {
        if terminal is None {
            assert(scratch.depth@[scratch.queue@[0] as int] == 0);
            assert(expanded(*scratch, t, mask, generation, scratch.queue@[0] as int));
            if start_a != start_b {
                assert(scratch.depth@[scratch.queue@[1] as int] == 0);
                assert(expanded(*scratch, t, mask, generation, scratch.queue@[1] as int));
            }
            assert forall|w: int, d: nat|
                0 <= w < n && d < scratch.max_depth && #[trigger] hop_reach(t, mask, first, second, w, d)
                implies lanes_lead_to_full(t, mask, w as u32) by {
                lemma_bfs_complete(*scratch, t, mask, first, second, generation, head as int, w, d);
                let q = choose|q: int| 0 <= q < scratch.queue@.len() && #[trigger] scratch.queue@[q] == w;
                assert(expanded(*scratch, t, mask, generation, scratch.queue@[q] as int));
                assert forall|sl: int| 0 <= sl < 4 implies t[alt_index_spec(mask, w as u32, #[trigger] t[w]@[sl]) as int]@[3] != 0 by {
                    assert(child_ok(*scratch, t, mask, generation, w, sl));
                }
            }
            assert forall|sl: int| 0 <= sl < 4 implies t[alt_index_spec(mask, first, #[trigger] t[first as int]@[sl]) as int]@[3] != 0 by {
                assert(child_ok(*scratch, t, mask, generation, first as int, sl));
            }
            assert forall|sl: int| 0 <= sl < 4 implies t[alt_index_spec(mask, second, #[trigger] t[second as int]@[sl]) as int]@[3] != 0 by {
                assert(child_ok(*scratch, t, mask, generation, second as int, sl));
            }
        }
    }
    terminal
}

/// Reverses a sequence of relocation edges in place.
fn reverse_edges(edges: &mut Vec<(u32, u8)>)
    ensures
        final(edges)@ == old(edges)@.reverse(),
{
    let len = edges.len();
    let mut i: usize = 0;
    while i < len / 2
        invariant
            len == edges@.len(),
            len == old(edges)@.len(),
            i <= len / 2,
            forall|k: int|
                0 <= k < len ==> #[trigger] edges@[k] == if k < i || k >= len - i {
                    old(edges)@[len - 1 - k]
                } else {
                    old(edges)@[k]
                },
        decreases len / 2 - i,
    {
        let j = len - 1 - i;
        let a = edges[i];
        let b = edges[j];
        edges.set(i, b);
        edges.set(j, a);
        i += 1;
    }
    assert(edges@ =~= old(edges)@.reverse());
}

/// Follows the parent links from the bucket next to the one with room back
/// to a root of the search and leaves the relocation path, root first, in
/// `scratch.edges`.
#[verifier::rlimit(40)]
fn bfs_path(
    buckets: &Vec<Bucket>,
    mask: u32,
    scratch: &mut BfsScratch,
    first: u32,
    second: u32,
    found: (u32, u32, u8),
)
    requires
        table_wf(mask, buckets@),
        old(scratch).sized(buckets@.len()),
        old(scratch).edges@.len() == 0,
        bfs_tree(*old(scratch), buckets@, mask, first, second, old(scratch).generation),
        found.1 <= mask,
        found.2 < 4,
        old(scratch).seen@[found.1 as int] == old(scratch).generation,
        found.0 == alt_index_spec(mask, found.1, buckets@[found.1 as int]@[found.2 as int]),
        found.0 <= mask,
        buckets@[found.0 as int]@[3] == 0,
    ensures
        final(scratch).seen == old(scratch).seen,
        final(scratch).parent_bucket == old(scratch).parent_bucket,
        final(scratch).parent_slot == old(scratch).parent_slot,
        final(scratch).depth == old(scratch).depth,
        final(scratch).queue == old(scratch).queue,
        final(scratch).generation == old(scratch).generation,
        final(scratch).max_depth == old(scratch).max_depth,
        bfs_chain(final(scratch).edges@, buckets@, mask, found.0),
        final(scratch).edges@.len() <= old(scratch).depth@[found.1 as int] + 1,
        final(scratch).edges@[0].0 == first || final(scratch).edges@[0].0 == second,
{
    let ghost s0 = *scratch;
    let ghost t = buckets@;
    let ghost g = s0.generation;
    let ghost top = s0.depth@[found.1 as int];
    proof {
        assert(bfs_node(s0, t, mask, first, second, g, found.1 as int));
    }
    scratch.edges.push((found.1, found.2));
    let mut current = found.1;
    while scratch.depth[current as usize] != 0
        invariant
            table_wf(mask, t),
            t == buckets@,
            s0.sized(t.len()),
            bfs_tree(s0, t, mask, first, second, g),
            g == s0.generation,
            top == s0.depth@[found.1 as int],
            scratch.seen == s0.seen,
            scratch.parent_bucket == s0.parent_bucket,
            scratch.parent_slot == s0.parent_slot,
            scratch.depth == s0.depth,
            scratch.queue == s0.queue,
            scratch.generation == s0.generation,
            scratch.max_depth == s0.max_depth,
            current <= mask,
            s0.seen@[current as int] == g,
            scratch.edges@.len() >= 1,
            scratch.edges@[scratch.edges@.len() - 1].0 == current,
            scratch.edges@[0] == (found.1, found.2),
            forall|k: int|
                0 <= k < scratch.edges@.len() ==> (#[trigger] scratch.edges@[k]).0 <= mask
                    && scratch.edges@[k].1 < 4 && t[scratch.edges@[k].0 as int]@[3] != 0
                    && s0.seen@[scratch.edges@[k].0 as int] == g && s0.depth@[scratch.edges@[k].0 as int]
                    + k == top,
            forall|k: int|
                0 <= k < scratch.edges@.len() - 1 ==> (#[trigger] scratch.edges@[k]).0
                    == alt_index_spec(
                    mask,
                    scratch.edges@[k + 1].0,
                    t[scratch.edges@[k + 1].0 as int]@[scratch.edges@[k + 1].1 as int],
                ),
        decreases s0.depth@[current as int],
    {
        let parent = scratch.parent_bucket[current as usize];
        let slot = scratch.parent_slot[current as usize];
        let ghost before = scratch.edges@;
        proof {
            assert(bfs_node(s0, t, mask, first, second, g, current as int));
            assert(bfs_node(s0, t, mask, first, second, g, parent as int));
            assert(before[before.len() - 1].0 == current);
        }
        scratch.edges.push((parent, slot));
        proof {
            let r = scratch.edges@;
            assert forall|k: int| 0 <= k < r.len() - 1 implies (#[trigger] r[k]).0 == alt_index_spec(
                mask,
                r[k + 1].0,
                t[r[k + 1].0 as int]@[r[k + 1].1 as int],
            ) by {
                if k < before.len() - 1 {
                    assert(r[k] == before[k] && r[k + 1] == before[k + 1]);
                } else {
                    assert(r[k] == before[k]);
                    assert(r[k + 1] == (parent, slot));
                }
            }
            assert forall|k: int| 0 <= k < r.len() implies (#[trigger] r[k]).0 <= mask && r[k].1 < 4
                && t[r[k].0 as int]@[3] != 0 && s0.seen@[r[k].0 as int] == g && s0.depth@[r[k].0 as int]
                + k == top by {
                if k < before.len() {
                    assert(r[k] == before[k]);
                }
            }
        }
        current = parent;
    }
    let ghost rev = scratch.edges@;
    proof {
        assert(bfs_node(s0, t, mask, first, second, g, current as int));
        let last = rev.len() - 1;
        assert(s0.depth@[rev[last].0 as int] + last == top);
        assert(top <= s0.max_depth);
        assert forall|i: int, j: int| 0 <= i < j < rev.len() implies (#[trigger] rev[i]).0
            != (#[trigger] rev[j]).0 by {
            assert(s0.depth@[rev[i].0 as int] + i == top);
            assert(s0.depth@[rev[j].0 as int] + j == top);
        }
    }
    reverse_edges(&mut scratch.edges);
    proof {
        let e = scratch.edges@;
        let len = rev.len();
        assert(e.len() == len);
        assert forall|i: int| 0 <= i < e.len() implies #[trigger] e[i] == rev[len - 1 - i] by {}
        assert forall|i: int|
            0 <= i < e.len() implies (#[trigger] e[i]).0 <= mask && e[i].1 < 4 && t[e[i].0 as int]@[3]
            != 0 by {
            assert(e[i] == rev[len - 1 - i]);
        }
        assert forall|i: int| 0 <= i < e.len() - 1 implies (#[trigger] e[i + 1]).0 == alt_index_spec(
            mask,
            e[i].0,
            t[e[i].0 as int]@[e[i].1 as int],
        ) by {
            assert(e[i] == rev[len - 1 - i]);
            assert(e[i + 1] == rev[len - 2 - i]);
            assert(rev[len - 2 - i].0 == alt_index_spec(
                mask,
                rev[len - 2 - i + 1].0,
                t[rev[len - 2 - i + 1].0 as int]@[rev[len - 2 - i + 1].1 as int],
            ));
        }
        assert(e[e.len() - 1] == rev[0]);
        assert forall|i: int, j: int| 0 <= i < j < e.len() implies (#[trigger] e[i]).0
            != (#[trigger] e[j]).0 by {
            assert(e[i] == rev[len - 1 - i]);
            assert(e[j] == rev[len - 1 - j]);
            assert(rev[len - 1 - j].0 != rev[len - 1 - i].0);
        }
        assert(e[0] == rev[len - 1]);
        assert(current == first || current == second);
    }
}

impl CuckooFilter {
    /// Moves fingerprints along a relocation path: `incoming` takes the
    /// first edge's lane, each evicted fingerprint takes the next edge's
    /// lane, and the last one fills the bucket with room.
    fn apply_path(
        &mut self,
        edges: &Vec<(u32, u8)>,
        terminal: u32,
        incoming: u16,
        stats: &mut InsertStats,
    )
        requires
            table_wf(old(self).mask, old(self).buckets@),
            bfs_chain(edges@, old(self).buckets@, old(self).mask, terminal),
            incoming != 0,
            old(stats).relocations == 0,
            old(stats).bucket_writes == 0,
            no_path_activity(*old(stats)),
        ensures
            table_wf(final(self).mask, final(self).buckets@),
            final(self).items() == old(self).items().insert(
                item_at(old(self).mask, edges@[0].0, incoming),
            ),
            final(self).buckets@.len() == old(self).buckets@.len(),
            final(self).size == old(self).size,
            final(self).mask == old(self).mask,
            final(self).policy == old(self).policy,
            final(self).max_kicks == old(self).max_kicks,
            final(self).eviction_labels == old(self).eviction_labels,
            final(self).lsa_labels == old(self).lsa_labels,
            final(self).bfs == old(self).bfs,
            final(self).path == old(self).path,
            final(self).dense_mode == old(self).dense_mode,
            final(stats).inserted == old(stats).inserted,
            final(stats).filter_usable == old(stats).filter_usable,
            final(stats).relocations == edges@.len(),
            final(stats).bucket_writes == edges@.len() + 1,
            no_path_activity(*final(stats)),
    {
        let ghost t0 = self.buckets@;
        let ghost start = *self;
        let ghost e = edges@;
        let ghost mut from: u32 = e[0].0;
        let mut carry = incoming;
        let mut i: usize = 0;
        while i < edges.len()
            invariant
                table_wf(self.mask, self.buckets@),
                self.mask == start.mask,
                self.size == start.size,
                self.policy == start.policy,
                self.max_kicks == start.max_kicks,
                self.eviction_labels == start.eviction_labels,
                self.lsa_labels == start.lsa_labels,
                self.bfs == start.bfs,
                self.path == start.path,
                self.dense_mode == start.dense_mode,
                t0 == start.buckets@,
                e == edges@,
                bfs_chain(e, t0, self.mask, terminal),
                carry != 0,
                i <= e.len(),
                self.buckets@.len() == t0.len(),
                forall|k: int| i <= k < e.len() ==> self.buckets@[(#[trigger] e[k]).0 as int] == t0[e[k].0 as int],
                self.buckets@[terminal as int] == t0[terminal as int],
                from <= self.mask,
                i == 0 ==> from == e[0].0,
                i > 0 ==> from == e[i - 1].0 && carry == t0[e[i - 1].0 as int]@[e[i - 1].1 as int],
                self.items().insert(item_at(self.mask, from, carry)) == start.items().insert(
                    item_at(self.mask, e[0].0, incoming),
                ),
                stats.inserted == old(stats).inserted,
                stats.filter_usable == old(stats).filter_usable,
                stats.relocations == i,
                stats.bucket_writes == i,
                e.len() <= 256,
                no_path_activity(*stats),
            decreases e.len() - i,
        {
            let (bucket, slot) = edges[i];
            stats.bucket_reads = stats.bucket_reads.wrapping_add(1);
            let mut word = self.buckets[bucket as usize];
            proof {
                assert(e[i as int] == (bucket, slot));
                assert(is_prefix_form(word@));
                if i > 0 {
                    assert(e[(i - 1) as int + 1].0 == alt_index_spec(
                        self.mask,
                        e[i - 1].0,
                        t0[e[i - 1].0 as int]@[e[i - 1].1 as int],
                    ));
                    lemma_alt_index(self.mask, from, carry);
                }
                assert(item_at(self.mask, bucket, carry) == item_at(self.mask, from, carry));
                lemma_update_multiset(word@, slot as int, carry);
            }
            let victim = word.slot(slot as usize);
            word.replace(slot as usize, carry);
            let ghost before = *self;
            self.store_evicted(bucket, word, victim, carry);
            stats.bucket_writes = stats.bucket_writes.wrapping_add(1);
            stats.relocations = stats.relocations + 1;
            proof {
                assert forall|k: int| i + 1 <= k < e.len() implies self.buckets@[(#[trigger] e[k]).0 as int]
                    == t0[e[k].0 as int] by {
                    assert(e[k].0 != e[i as int].0);
                }
                assert(t0[terminal as int]@[3] == 0);
                assert(terminal != bucket);
                from = bucket;
            }
            carry = victim;
            i += 1;
        }
        stats.bucket_reads = stats.bucket_reads.wrapping_add(1);
        proof {
            let last = e.len() - 1;
            assert(from == e[last].0);
            lemma_alt_index(self.mask, from, carry);
            assert(item_at(self.mask, terminal, carry) == item_at(self.mask, from, carry));
        }
        self.fill_slot(terminal, carry);
        stats.bucket_writes = stats.bucket_writes.wrapping_add(1);
    }

    /// Bounded augmenting-path insertion: a breadth-first search from the
    /// two full candidates finds the nearest bucket with room within
    /// `max_depth` relocations and shifts the fingerprints along that path.
    /// A failed search changes no bucket.
    fn insert_bfs(&mut self, incoming: u16, first: u32, second: u32, key_hash: u64) -> (stats:
        InsertStats)
        requires
            old(self).wf(),
            old(self).policy == Policy::Bfs,
            incoming != 0,
            first <= old(self).mask,
            second <= old(self).mask,
            old(self).buckets@[first as int]@[3] != 0,
            old(self).buckets@[second as int]@[3] != 0,
        ensures
            final(self).wf(),
            final(self).same_setup(old(self)),
            final(self).dense_mode == old(self).dense_mode,
            stats.filter_usable,
            exists|root: u32|
                (root == first || root == second)
                    && #[trigger] insertion_outcome(
                    old(self).items(),
                    final(self).items(),
                    item_at(old(self).mask, root, incoming),
                    stats,
                ),
            stats.inserted ==> final(self).size == old(self).size + 1,
            !stats.inserted ==> final(self).size == old(self).size && final(self).buckets@ == old(
                self,
            ).buckets@,
            stats.relocations <= 256,
            stats.relocations <= old(self).bfs_depth_spec(),
            old(self).room_one_kick_away(first as int) || old(self).room_one_kick_away(second as int)
                ==> stats.inserted,
            old(self).room_within_search(first, second) ==> stats.inserted,
            searched_stats(stats),
            no_path_activity(stats),
    {
        let mut stats = InsertStats::default();
        let ghost start = *self;
        let taken = self.bfs.take();
        match taken {
            None => {
                proof {
                    assert(insertion_outcome(start.items(), self.items(), item_at(self.mask, first, incoming), stats));
                }
                stats
            },
            Some(scratch) => {
                let mut scratch = scratch;
                let found = bfs_search(
                    &self.buckets,
                    self.mask,
                    &mut scratch,
                    first,
                    second,
                    key_hash,
                    &mut stats,
                );
                match found {
                    None => {
                        self.bfs = Some(scratch);
                        proof {
                            assert(insertion_outcome(start.items(), self.items(), item_at(self.mask, first, incoming), stats));
                        }
                        stats
                    },
                    Some(found) => {
                        bfs_path(&self.buckets, self.mask, &mut scratch, first, second, found);
                        let ghost root = scratch.edges@[0].0;
                        self.apply_path(&scratch.edges, found.0, incoming, &mut stats);
                        proof {
                            lemma_table_items_len(self.mask, self.buckets@, self.buckets@.len(), 0);
                            assert(self.items().len() == start.items().len() + 1);
                        }
                        stats.inserted = true;
                        self.size = self.size + 1;
                        self.bfs = Some(scratch);
                        proof {
                            assert(insertion_outcome(start.items(), self.items(), item_at(self.mask, root, incoming), stats));
                        }
                        stats
                    },
                }
            },
        }
    }
}

/// The dense rank-4 filter prepares its ranks once its load reaches
/// `capacity * 24 / 25`.
pub open spec fn dense_prepare_due_spec(policy: Policy, dense_mode: bool, size: int, capacity: int) -> bool {
    policy == Policy::DenseCavityRank4 && !dense_mode && size >= capacity * 24 / 25
}

/// Whether a dense rank-4 filter in the given state must prepare its ranks
/// before its next insertion.
pub fn dense_prepare_due(policy: Policy, dense_mode: bool, size: usize, capacity: usize) -> (r: bool)
    ensures
        r == dense_prepare_due_spec(policy, dense_mode, size as int, capacity as int),
{
    let wide = capacity as u128;
    let numerator = DENSE_LOAD_NUMERATOR as u128;
    let denominator = DENSE_LOAD_DENOMINATOR as u128;
    assert(wide <= 0xffff_ffff_ffff_ffffu128 && numerator == 24 && denominator == 25);
    let threshold = wide * numerator / denominator;
    policy == Policy::DenseCavityRank4 && !dense_mode && (size as u128) >= threshold
}

/// Alternate buckets a kick policy reads to choose its victim.
pub open spec fn eviction_reads(policy: Policy) -> int {
    if policy == Policy::EvictionLabel || policy == Policy::Lsa {
        4
    } else {
        0
    }
}

/// Bucket reads of `steps` kick relocations: each reads the full bucket, the
/// alternate buckets its policy scores and the next bucket.
pub open spec fn kick_step_reads(policy: Policy, steps: int) -> int {
    if policy == Policy::EvictionLabel || policy == Policy::Lsa {
        6 * steps
    } else {
        2 * steps
    }
}

/// Bucket reads of a ranked relocation: the two candidates, then the four
/// alternate buckets of every full bucket it relocates from; a successful
/// one also reads up to three alternate buckets when its final bucket
/// fills. Stated when the count cannot wrap.
pub open spec fn ranked_kick_reads(stats: InsertStats, max_kicks: u32) -> bool {
    6 + 4 * max_kicks <= u32::MAX ==> if stats.inserted {
        2 + 4 * stats.relocations <= stats.bucket_reads <= 5 + 4 * stats.relocations
    } else {
        stats.bucket_reads == 2 + 4 * max_kicks
    }
}

/// Fewer relocations read fewer buckets.
proof fn lemma_kick_reads_bound(policy: Policy, steps: int, max_kicks: int)
    requires
        0 <= steps <= max_kicks,
    ensures
        kick_step_reads(policy, steps) <= kick_step_reads(policy, max_kicks),
{
}

/// A successful kick relocation, whose reads before its final placement
/// matched its relocations, meets [`kicked_reads`].
proof fn lemma_kicked_reads(policy: Policy, base: int, reads_before: int, stats: InsertStats, max_kicks: u32)
    requires
        stats.inserted,
        stats.relocations <= max_kicks,
        base + kick_step_reads(policy, max_kicks as int) + 4 <= u32::MAX ==> reads_before == base + kick_step_reads(
            policy,
            stats.relocations as int,
        ),
        base + kick_step_reads(policy, max_kicks as int) + 4 <= u32::MAX ==> (stats.bucket_reads == reads_before || (
        policy == Policy::Lsa && stats.bucket_reads == reads_before + 4)),
    ensures
        kicked_reads(policy, base, stats, max_kicks),
{
}

/// Bucket reads of a kick relocation that started from `base` reads: each
/// relocation reads the full bucket, the alternate buckets its policy scores
/// and the next bucket; LSA reads four more when its final bucket fills.
/// Stated when the count cannot wrap.
pub open spec fn kicked_reads(policy: Policy, base: int, stats: InsertStats, max_kicks: u32) -> bool {
    let steps: int = if stats.inserted {
        stats.relocations as int
    } else {
        max_kicks as int
    };
    base + kick_step_reads(policy, max_kicks as int) + 4 <= u32::MAX ==> (stats.bucket_reads == base
        + kick_step_reads(policy, steps) || (policy == Policy::Lsa && stats.inserted && stats.bucket_reads == base
        + kick_step_reads(policy, steps) + 4))
}

/// Bucket reads of an insertion that a policy without ranks places
/// directly: each distinct candidate once, and under LSA the four alternate
/// buckets of the destination when the fingerprint fills it.
pub open spec fn plain_direct_reads(
    before: &CuckooFilter,
    fingerprint: u16,
    first: u32,
    second: u32,
    key_hash: u64,
) -> int {
    let d = plain_destination(
        before.policy_spec(),
        first,
        second,
        before.lanes_at(first as int),
        before.lanes_at(second as int),
        key_hash,
    );
    let base: int = if first == second {
        1
    } else {
        2
    };
    if before.policy_spec() == Policy::Lsa && placed_lanes(before.lanes_at(d as int), fingerprint)[3] != 0 {
        base + 4
    } else {
        base
    }
}

/// Bucket reads of an insertion placed directly in a candidate bucket: the
/// ranked path reads both candidates and up to three alternate buckets
/// when its destination fills; the others read each distinct candidate
/// once, and LSA four alternate buckets more when its destination fills.
pub open spec fn direct_reads(policy: Policy, ranked_path: bool, same_bucket: bool, reads: u32) -> bool {
    if ranked_path {
        2 <= reads <= 5
    } else {
        let base: int = if same_bucket {
            1
        } else {
            2
        };
        reads == base || (policy == Policy::Lsa && reads == base + 4)
    }
}

/// Whether insertions take the ranked path: a ranked policy, and for the
/// dense one only once its ranks are prepared.
pub open spec fn ranked_path(policy: Policy, ready: bool) -> bool {
    is_ranked(policy) && (policy != Policy::DenseCavityRank4 || ready)
}

impl CuckooFilter {
    /// Whether bucket `i` has a free lane.
    pub closed spec fn has_room(&self, i: int) -> bool {
        self.buckets@[i]@[3] == 0
    }

    /// The alternate bucket of the fingerprint in lane `k` of bucket `i`
    /// has a free lane.
    pub open spec fn lane_room(&self, i: int, k: int) -> bool {
        self.has_room(alt_index_spec(self.table_mask(), i as u32, self.lanes_at(i)[k]) as int)
    }

    /// Alternate buckets a dense preparation's first pass probes for the full
    /// bucket `i`: its lanes in order up to and including the first whose
    /// alternate bucket has room, all four when none has.
    pub open spec fn room_probes(&self, i: int) -> nat {
        if self.lane_room(i, 0) {
            1
        } else if self.lane_room(i, 1) {
            2
        } else if self.lane_room(i, 2) {
            3
        } else {
            4
        }
    }

    /// Full bucket `i` is not of rank one: no fingerprint a relocation away
    /// from room and no three equal fingerprints.
    pub open spec fn prep_plain(&self, i: int) -> bool {
        !self.has_room(i) && !(self.near_room(i) || has_triple(self.lanes_at(i)))
    }

    /// Full bucket `i` is of neither rank one nor rank two.
    pub open spec fn prep_beyond_two(&self, i: int) -> bool {
        self.prep_plain(i) && !self.two_from_room(i)
    }

    /// Full bucket `i` is of none of the ranks one, two and three.
    pub open spec fn prep_beyond_three(&self, i: int) -> bool {
        self.prep_beyond_two(i) && !self.three_from_room(i)
    }

    /// Alternate buckets the first preparation pass probes among the first
    /// `k` buckets.
    pub open spec fn first_pass_probes(&self, k: int) -> nat
        decreases k,
    {
        if k <= 0 {
            0
        } else {
            self.first_pass_probes(k - 1) + if !self.has_room(k - 1) {
                self.room_probes(k - 1)
            } else {
                0
            }
        }
    }

    /// Buckets among the first `k` that are full and not of rank one.
    pub open spec fn plain_count(&self, k: int) -> nat
        decreases k,
    {
        if k <= 0 {
            0
        } else {
            self.plain_count(k - 1) + if self.prep_plain(k - 1) {
                1nat
            } else {
                0nat
            }
        }
    }

    /// Buckets among the first `k` that are full and of neither rank one
    /// nor rank two.
    pub open spec fn beyond_two_count(&self, k: int) -> nat
        decreases k,
    {
        if k <= 0 {
            0
        } else {
            self.beyond_two_count(k - 1) + if self.prep_beyond_two(k - 1) {
                1nat
            } else {
                0nat
            }
        }
    }

    /// Buckets among the first `k` that are full and of none of the ranks
    /// one to three.
    pub open spec fn beyond_three_count(&self, k: int) -> nat
        decreases k,
    {
        if k <= 0 {
            0
        } else {
            self.beyond_three_count(k - 1) + if self.prep_beyond_three(k - 1) {
                1nat
            } else {
                0nat
            }
        }
    }

    /// Buckets among the first `k` that are full.
    pub open spec fn full_bucket_count(&self, k: int) -> nat
        decreases k,
    {
        if k <= 0 {
            0
        } else {
            self.full_bucket_count(k - 1) + if !self.has_room(k - 1) {
                1nat
            } else {
                0nat
            }
        }
    }

    /// Buckets among the first `k` that are full and of rank two: not of
    /// rank one, with a fingerprint leading to a bucket of rank one.
    pub open spec fn rank_two_count(&self, k: int) -> nat
        decreases k,
    {
        if k <= 0 {
            0
        } else {
            self.rank_two_count(k - 1) + if self.prep_plain(k - 1) && self.two_from_room(k - 1) {
                1nat
            } else {
                0nat
            }
        }
    }

    /// Buckets among the first `k` that are full and of rank three: of
    /// neither rank one nor rank two, with a fingerprint leading to a bucket
    /// of rank two.
    pub open spec fn rank_three_count(&self, k: int) -> nat
        decreases k,
    {
        if k <= 0 {
            0
        } else {
            self.rank_three_count(k - 1) + if self.prep_beyond_two(k - 1) && self.three_from_room(k - 1) {
                1nat
            } else {
                0nat
            }
        }
    }

    /// Writes of the second preparation pass over the first `k` buckets of
    /// `start`, this filter holding the ranks that pass left.
    pub open spec fn second_pass_writes(&self, start: &CuckooFilter, k: int) -> nat
        decreases k,
    {
        if k <= 0 {
            0
        } else {
            self.second_pass_writes(start, k - 1) + if start.prep_plain(k - 1) && (start.two_from_room(k - 1)
                || rank4_of(self.lanes_at(k - 1)) == 3) {
                1nat
            } else {
                0nat
            }
        }
    }

    /// Writes of the third preparation pass over the first `k` buckets of
    /// `start`, this filter holding the ranks the second pass left.
    pub open spec fn third_pass_writes(&self, start: &CuckooFilter, k: int) -> nat
        decreases k,
    {
        if k <= 0 {
            0
        } else {
            self.third_pass_writes(start, k - 1) + if start.prep_beyond_two(k - 1) && start.three_from_room(k - 1)
                && rank4_of(self.lanes_at(k - 1)) == 4 {
                1nat
            } else {
                0nat
            }
        }
    }

    /// The buckets of the table.
    pub closed spec fn table_spec(&self) -> Seq<Bucket> {
        self.buckets@
    }

    /// Breadth-first search owes success: some bucket reached from `first` or
    /// `second` through fewer relocation hops than the search depth, each
    /// hop leaving a full bucket through one of its lanes, has a lane whose
    /// alternate bucket has room.
    pub open spec fn room_within_search(&self, first: u32, second: u32) -> bool {
        exists|w: int, d: nat|
            0 <= w < self.bucket_count_spec() && d < self.bfs_depth_spec() && #[trigger] hop_reach(
                self.table_spec(),
                self.table_mask(),
                first,
                second,
                w,
                d,
            ) && !lanes_lead_to_full(self.table_spec(), self.table_mask(), w as u32)
    }

    /// Some lane of bucket `i` leads to an alternate bucket with a free
    /// lane: one relocation from `i` makes room.
    pub open spec fn room_one_kick_away(&self, i: int) -> bool {
        exists|k: int| 0 <= k < 4 && #[trigger] self.lane_room(i, k)
    }

    /// Some fingerprint of bucket `i` could move to a bucket with room in
    /// one relocation.
    pub open spec fn near_room(&self, i: int) -> bool {
        exists|k: int| 0 <= k < 4 && #[trigger] self.lane_room(i, k)
    }

    /// Fingerprint `f` of bucket `i` has a full alternate bucket that is
    /// itself a relocation away from room, or holds three equal
    /// fingerprints.
    pub open spec fn fp_near_rank_one(&self, i: int, f: u16) -> bool {
        let j = alt_index_spec(self.table_mask(), i as u32, f) as int;
        !self.has_room(j) && (self.near_room(j) || has_triple(self.lanes_at(j)))
    }

    /// Some fingerprint of bucket `i` leads to a bucket of rank one.
    pub open spec fn two_from_room(&self, i: int) -> bool {
        exists|k: int| 0 <= k < 4 && #[trigger] self.fp_near_rank_one(i, self.lanes_at(i)[k])
    }

    /// A prepared dense filter's full bucket `i` that is not of rank one has
    /// rank two exactly when one of its fingerprints leads to a bucket of
    /// rank one.
    pub open spec fn rank_two_matches(&self, start: &CuckooFilter, i: int) -> bool {
        !(start.near_room(i) || has_triple(start.lanes_at(i))) ==> (rank4_of(self.lanes_at(i)) == 2
            <==> start.two_from_room(i))
    }

    /// Fingerprint `f` of bucket `i` has a full alternate bucket of rank
    /// two: not of rank one, and leading to a bucket of rank one.
    pub open spec fn fp_near_rank_two(&self, i: int, f: u16) -> bool {
        let j = alt_index_spec(self.table_mask(), i as u32, f) as int;
        !self.has_room(j) && !(self.near_room(j) || has_triple(self.lanes_at(j))) && self.two_from_room(j)
    }

    /// Some fingerprint of bucket `i` leads to a bucket of rank two.
    pub open spec fn three_from_room(&self, i: int) -> bool {
        exists|k: int| 0 <= k < 4 && #[trigger] self.fp_near_rank_two(i, self.lanes_at(i)[k])
    }

    /// A prepared dense filter's full bucket `i` of neither rank one nor
    /// rank two has rank three exactly when one of its fingerprints leads to
    /// a bucket of rank two, and rank four otherwise.
    pub open spec fn rank_three_matches(&self, start: &CuckooFilter, i: int) -> bool {
        !(start.near_room(i) || has_triple(start.lanes_at(i))) && !start.two_from_room(i) ==> (rank4_of(
            self.lanes_at(i),
        ) == 3 <==> start.three_from_room(i))
    }

    /// The rank of a prepared dense filter's full bucket `i` is its
    /// relocation distance to room in `start`, capped at four, with
    /// buckets of three equal fingerprints at rank one.
    pub open spec fn ranks_match(&self, start: &CuckooFilter, i: int) -> bool {
        &&& self.rank_one_matches(start, i)
        &&& self.rank_two_matches(start, i)
        &&& self.rank_three_matches(start, i)
    }

    /// A prepared dense filter's full bucket `i` has rank one exactly when
    /// one of its fingerprints is a relocation away from room in `start`,
    /// or three of its fingerprints are equal.
    pub open spec fn rank_one_matches(&self, start: &CuckooFilter, i: int) -> bool {
        rank4_of(self.lanes_at(i)) == 1 <==> (start.near_room(i) || has_triple(start.lanes_at(i)))
    }

    /// Inserts a fingerprint with explicit candidate buckets and returns
    /// operation statistics.
    ///
    /// Ranked policies (the dense one once prepared) take the ranked path;
    /// the others place directly when a candidate has room, and otherwise
    /// search a bounded augmenting path (BFS) or relocate by bounded kicks.
    /// Under LSA the labels must have room for one more insertion.
    pub fn insert_fingerprint(&mut self, fingerprint: u16, first: u32, second: u32, key_hash: u64) -> (stats:
        InsertStats)
        requires
            old(self).wf(),
            fingerprint != 0,
            first <= old(self).table_mask(),
            second <= old(self).table_mask(),
            old(self).label_room(1),
        ensures
            final(self).wf(),
            final(self).same_setup(old(self)),
            final(self).ranked_ready() == old(self).ranked_ready(),
            exists|root: u32|
                (root == first || root == second) && #[trigger] insertion_outcome(
                    old(self).items(),
                    final(self).items(),
                    item_at(old(self).table_mask(), root, fingerprint),
                    stats,
                ),
            stats.inserted ==> final(self).len_spec() == old(self).len_spec() + 1,
            !stats.inserted ==> final(self).len_spec() == old(self).len_spec(),
            old(self).has_room(first as int) || old(self).has_room(second as int) ==> stats.inserted,
            old(self).has_room(first as int) || old(self).has_room(second as int) ==> direct_placement(stats)
                && direct_reads(
                old(self).policy_spec(),
                ranked_path(old(self).policy_spec(), old(self).ranked_ready()),
                first == second,
                stats.bucket_reads,
            ),
            !(old(self).has_room(first as int) || old(self).has_room(second as int))
                && old(self).policy_spec() != Policy::Bfs ==> kicked_stats(stats, old(self).max_kicks_spec()),
            path_stats(stats, old(self).policy_spec() == Policy::CavityRank4Path),
            !(old(self).has_room(first as int) || old(self).has_room(second as int)) && old(self).policy_spec()
                != Policy::Bfs ==> if ranked_path(old(self).policy_spec(), old(self).ranked_ready()) {
                ranked_kick_reads(stats, old(self).max_kicks_spec())
            } else {
                kicked_reads(
                    old(self).policy_spec(),
                    if first == second {
                        1
                    } else {
                        2
                    },
                    stats,
                    old(self).max_kicks_spec(),
                )
            },
            !(old(self).has_room(first as int) || old(self).has_room(second as int))
                && old(self).policy_spec() == Policy::Bfs ==> searched_stats(stats),
            stats.filter_usable == (stats.inserted || old(self).policy_spec() == Policy::Bfs),
            !stats.inserted && old(self).policy_spec() == Policy::Bfs ==> forall|i: int|
                0 <= i < old(self).bucket_count_spec() ==> #[trigger] final(self).lanes_at(i)
                    == old(self).lanes_at(i),
            old(self).policy_spec() == Policy::Bfs ==> stats.relocations <= old(self).bfs_depth_spec(),
            old(self).policy_spec() == Policy::Bfs && (old(self).room_one_kick_away(first as int)
                || old(self).room_one_kick_away(second as int)) ==> stats.inserted,
            !ranked_path(old(self).policy_spec(), old(self).ranked_ready()) && (old(self).has_room(first as int)
                || old(self).has_room(second as int)) ==> stats.bucket_reads == plain_direct_reads(
                old(self),
                fingerprint,
                first,
                second,
                key_hash,
            ),
            !ranked_path(old(self).policy_spec(), old(self).ranked_ready()) && (old(self).has_room(first as int)
                || old(self).has_room(second as int)) ==> direct_effect(
                old(self),
                final(self),
                fingerprint,
                plain_destination(
                    old(self).policy_spec(),
                    first,
                    second,
                    old(self).lanes_at(first as int),
                    old(self).lanes_at(second as int),
                    key_hash,
                ),
            ),
            ranked_path(old(self).policy_spec(), old(self).ranked_ready()) && (old(self).has_room(first as int)
                || old(self).has_room(second as int)) ==> stats.bucket_reads == ranked_direct_reads(
                old(self),
                fingerprint,
                first,
                second,
                key_hash,
            ),
            ranked_path(old(self).policy_spec(), old(self).ranked_ready()) && (old(self).has_room(first as int)
                || old(self).has_room(second as int)) ==> ranked_direct_effect(
                old(self),
                final(self),
                fingerprint,
                first,
                second,
                key_hash,
            ),
            old(self).path_spec() is Some && old(self).path_spec()->0.activation is After ==> {
                let threshold = old(self).path_spec()->0.activation->0;
                &&& stats.path_activated ==> stats.path_activation_step == threshold + 1
                &&& stats.path_activated <==> stats.relocations > threshold
            },
            4 * old(self).max_kicks_spec() <= u32::MAX ==> stats.path_guarded_steps
                + stats.path_seen_candidates_rejected <= stats.path_checks <= 4 * stats.path_guarded_steps,
            old(self).policy_spec() == Policy::Bfs && old(self).room_within_search(first, second) ==> stats.inserted,
            !stats.inserted ==> forall|i: int|
                0 <= i < old(self).bucket_count_spec() && !old(self).has_room(i)
                    ==> !#[trigger] final(self).has_room(i),
            !ranked_path(old(self).policy_spec(), old(self).ranked_ready()) && old(self).policy_spec() != Policy::Bfs
                && !(old(self).has_room(first as int) || old(self).has_room(second as int)) ==> old(self).kick_run(
                final(self),
                fingerprint,
                first,
                second,
                key_hash,
                stats,
            ),
            ranked_path(old(self).policy_spec(), old(self).ranked_ready()) && !(old(self).has_room(first as int)
                || old(self).has_room(second as int)) ==> old(self).ranked_run(
                final(self),
                fingerprint,
                first,
                second,
                key_hash,
                stats,
            ),
            forall|b: int|
                #[trigger] old(self).labels_at_most(b) ==> final(self).labels_at_most(b + old(self).max_kicks_spec() + 1),
    {
        let ranked = match self.policy {
            Policy::CavityD4 | Policy::CavityScan | Policy::CavityBit | Policy::CavityRank4
            | Policy::CavityRank4Path | Policy::DenseCavityRank4 => true,
            _ => false,
        };
        if ranked && (self.policy != Policy::DenseCavityRank4 || self.dense_mode) {
            let stats = self.insert_ranked(fingerprint, first, second, key_hash);
            proof {
                assert(is_prefix_form(old(self).buckets@[first as int]@));
                assert(is_prefix_form(old(self).buckets@[second as int]@));
            }
            return stats;
        }
        let first_word = self.bucket(first);
        let second_word = self.bucket(second);
        let first_occupancy = first_word.occupancy();
        let second_occupancy = second_word.occupancy();
        let mut stats = InsertStats::default();
        stats.bucket_reads = if first != second {
            2
        } else {
            1
        };
        proof {
            assert(is_prefix_form(first_word@));
            assert(is_prefix_form(second_word@));
        }
        if first_occupancy < SLOTS || second_occupancy < SLOTS {
            let destination = match self.policy {
                Policy::Random => random_destination(
                    first,
                    second,
                    first_occupancy,
                    second_occupancy,
                    key_hash,
                ),
                Policy::BetterChoice => better_choice_destination(
                    first,
                    second,
                    first_occupancy,
                    second_occupancy,
                ),
                _ => direct_destination(first, second, first_occupancy, second_occupancy, key_hash),
            };
            let ghost start = *self;
            proof {
                let w = self.buckets@[destination as int];
                assert(occupancy_of(w@) < 4);
                lemma_table_items_len(self.mask, self.buckets@, self.buckets@.len(), destination as int);
                lemma_bucket_items_len(self.mask, destination, w@);
            }
            let word = self.fill_slot(destination, fingerprint);
            proof {
                if self.policy == Policy::Lsa {
                    assert(start.labels_at_most(u64::MAX - start.max_kicks - 1));
                    lemma_least_lsa_bound(
                        self.lsa_labels@,
                        self.buckets@,
                        self.mask,
                        destination,
                        word@,
                        4,
                        u64::MAX - start.max_kicks - 1,
                    );
                }
            }
            let ghost filled = *self;
            if self.policy == Policy::Lsa && word.is_full() {
                let label = self.initialize_lsa_full_bucket(destination, word.slots(), &mut stats);
                proof {
                    lemma_least_lsa_frame(start.lsa_labels@, start.buckets@, start.mask, destination, word@, word, 4);
                    assert(self.buckets@ == start.buckets@.update(destination as int, word));
                }
                self.lsa_labels.set(destination as usize, label);
            }
            proof {
                assert forall|b: int| #[trigger] start.labels_at_most(b) implies self.labels_at_most(b + start.max_kicks + 1) by {
                    if start.policy == Policy::Lsa {
                        assert(filled.lsa_labels == start.lsa_labels);
                        assert(b >= 0) by {
                            assert(start.lsa_labels@[0] <= b);
                        }
                        if word@[3] != 0 {
                            lemma_least_lsa_bound(
                                filled.lsa_labels@,
                                filled.buckets@,
                                filled.mask,
                                destination,
                                word@,
                                4,
                                b,
                            );
                        }
                        assert forall|k: int| 0 <= k < self.lsa_labels@.len() implies #[trigger] self.lsa_labels@[k]
                            <= b + start.max_kicks + 1 by {
                            if k != destination {
                                assert(self.lsa_labels@[k] == start.lsa_labels@[k]);
                            }
                        }
                    }
                }
            }
            stats.bucket_writes = 1;
            stats.inserted = true;
            self.size = self.size + 1;
            proof {
                assert(insertion_outcome(
                    start.items(),
                    self.items(),
                    item_at(self.mask, destination, fingerprint),
                    stats,
                ));
            }
            return stats;
        }
        if self.policy == Policy::Bfs {
            let ghost start = *self;
            let mut bfs_stats = self.insert_bfs(fingerprint, first, second, key_hash);
            let ghost found = bfs_stats;
            bfs_stats.bucket_reads = bfs_stats.bucket_reads.wrapping_add(stats.bucket_reads);
            proof {
                let root = choose|root: u32|
                    (root == first || root == second) && #[trigger] insertion_outcome(
                        start.items(),
                        self.items(),
                        item_at(start.mask, root, fingerprint),
                        found,
                    );
                assert(insertion_outcome(
                    start.items(),
                    self.items(),
                    item_at(start.mask, root, fingerprint),
                    bfs_stats,
                ));
            }
            return bfs_stats;
        }
        self.relocate(fingerprint, first, second, key_hash, stats)
    }

    /// Whether the LSA labels have room to grow through `inserts` more
    /// insertions: every label plus `inserts * (max_kicks + 1)` stays within
    /// `u64::MAX` (always true for the other policies).
    pub fn has_label_room(&self, inserts: u64) -> (r: bool)
        ensures
            r == self.label_room(inserts as int),
    {
        if self.policy != Policy::Lsa {
            return true;
        }
        let per = self.max_kicks as u64 + 1;
        let need = match inserts.checked_mul(per) {
            Some(need) => need,
            None => {
                proof {
                    if self.lsa_labels@.len() > 0 {
                        assert(self.lsa_labels@[0] >= 0);
                    }
                }
                return self.lsa_labels.len() == 0;
            },
        };
        let bound = u64::MAX - need;
        let mut index: usize = 0;
        while index < self.lsa_labels.len()
            invariant
                self.policy == Policy::Lsa,
                bound == u64::MAX - inserts * (self.max_kicks + 1),
                index <= self.lsa_labels@.len(),
                forall|i: int| 0 <= i < index ==> #[trigger] self.lsa_labels@[i] <= bound,
            decreases self.lsa_labels@.len() - index,
        {
            if self.lsa_labels[index] > bound {
                return false;
            }
            index += 1;
        }
        true
    }

    /// Whether this filter must prepare its dense ranks before the next
    /// insertion.
    pub fn needs_dense_prepare(&self) -> (r: bool)
        requires
            self.wf(),
        ensures
            r == dense_prepare_due_spec(
                self.policy_spec(),
                self.ranked_ready(),
                self.len_spec() as int,
                4 * self.bucket_count_spec() as int,
            ),
    {
        dense_prepare_due(self.policy, self.dense_mode, self.size, self.capacity())
    }
}

/// `now` holds the lanes of `before` in some order; a bucket with room is
/// unchanged and a full one stays full.
pub open spec fn reordered(now: Bucket, before: Bucket) -> bool {
    &&& slot_multiset(now@) == slot_multiset(before@)
    &&& before@[3] == 0 ==> now == before
    &&& before@[3] != 0 ==> all_nonzero(now@)
}

impl CuckooFilter {
    /// Rewrites a full bucket with a reordering of its own lanes.
    fn store_permuted(&mut self, bucket: u32, word: Bucket)
        requires
            table_wf(old(self).mask, old(self).buckets@),
            bucket <= old(self).mask,
            old(self).buckets@[bucket as int]@[3] != 0,
            slot_multiset(word@) == slot_multiset(old(self).buckets@[bucket as int]@),
        ensures
            table_wf(final(self).mask, final(self).buckets@),
            final(self).items() == old(self).items(),
            final(self).buckets@ == old(self).buckets@.update(bucket as int, word),
            all_nonzero(word@),
            final(self).size == old(self).size,
            final(self).mask == old(self).mask,
            final(self).policy == old(self).policy,
            final(self).max_kicks == old(self).max_kicks,
            final(self).eviction_labels == old(self).eviction_labels,
            final(self).lsa_labels == old(self).lsa_labels,
            final(self).bfs == old(self).bfs,
            final(self).path == old(self).path,
            final(self).dense_mode == old(self).dense_mode,
            final(self).rng == old(self).rng,
    {
        let index = bucket as usize;
        let ghost s = self.buckets@[index as int]@;
        let ghost t = self.buckets@;
        proof {
            assert(is_prefix_form(s));
            lemma_nonzero_multiset(s, word@);
        }
        self.buckets.set(index, word);
        proof {
            let old_items = all_items(self.mask, t);
            let part = bucket_items(self.mask, bucket, s);
            lemma_bucket_items_permutation(self.mask, bucket, word@, s);
            lemma_table_items_update(self.mask, t, t.len(), index as int, word);
            assert(t.update(index as int, word) == self.buckets@);
            assert forall|v: (u16, u32)| self.items().count(v) == old_items.count(v) by {
                assert(self.items().add(part).count(v) == old_items.add(part).count(v));
            }
            assert(self.items() =~= old_items);
            assert forall|i: int| 0 <= i < self.buckets@.len() implies #[trigger] is_prefix_form(
                self.buckets@[i]@,
            ) by {
                if i != index {
                    assert(self.buckets@[i] == t[i]);
                }
            }
        }
    }

    /// Prepares a dense rank-4 filter for ranked insertion.
    ///
    /// This three-pass full-table scan encodes exact residual distances
    /// 1..=3 and rank 4 otherwise. Three/four-equal fingerprint multisets
    /// keep the codec's rank alias. Already-prepared filters and other
    /// policies are left unchanged.
    /// Frame of a dense preparation: only the buckets change, each one a
    /// reordering of its own lanes.
    spec fn prep_frame(&self, start: CuckooFilter) -> bool {
        &&& table_wf(self.mask, self.buckets@)
        &&& start.wf()
        &&& self.buckets@.len() == start.buckets@.len()
        &&& self.mask == start.mask
        &&& self.size == start.size
        &&& self.policy == start.policy
        &&& self.max_kicks == start.max_kicks
        &&& self.eviction_labels == start.eviction_labels
        &&& self.lsa_labels == start.lsa_labels
        &&& self.bfs == start.bfs
        &&& self.path == start.path
        &&& self.dense_mode == start.dense_mode
        &&& self.rng == start.rng
        &&& self.items() == start.items()
        &&& forall|i: int| 0 <= i < self.buckets@.len() ==> reordered(#[trigger] self.buckets@[i], start.buckets@[i])
    }

    /// Ranks that a dense preparation has settled once pass `pass` has
    /// visited the buckets below `upto`: pass zero gives rank one or four,
    /// pass one settles rank two and passes one and two settle rank three.
    #[verifier::opaque]
    spec fn prep_ranks(&self, start: CuckooFilter, pass: int, upto: int) -> bool {
        let n = start.buckets@.len() as int;
        &&& pass == 0 ==> forall|i: int| upto <= i < n ==> #[trigger] self.buckets@[i] == start.buckets@[i]
        &&& forall|i: int|
            0 <= i < n && (pass >= 1 || i < upto) && start.buckets@[i]@[3] != 0
                ==> #[trigger] self.rank_one_matches(&start, i)
        &&& forall|i: int|
            0 <= i < n && (pass == 0 && i < upto || pass == 1 && i >= upto) && start.buckets@[i]@[3] != 0 && !(
            start.near_room(i) || has_triple(start.lanes_at(i))) ==> rank4_of(#[trigger] self.lanes_at(i)) == 4
        &&& forall|i: int|
            0 <= i < n && (pass >= 2 || pass == 1 && i < upto) && start.buckets@[i]@[3] != 0
                ==> #[trigger] self.rank_two_matches(&start, i)
        &&& forall|i: int|
            0 <= i < n && (pass >= 2 || pass == 1 && i < upto) && start.buckets@[i]@[3] != 0 && !(start.near_room(
                i,
            ) || has_triple(start.lanes_at(i))) && rank4_of(#[trigger] self.lanes_at(i)) == 3
                ==> start.three_from_room(i)
        &&& forall|i: int|
            0 <= i < n && (pass >= 3 || pass == 2 && i < upto) && start.buckets@[i]@[3] != 0
                ==> #[trigger] self.rank_three_matches(&start, i)
    }

    /// The second pass's writes over the first `k` buckets depend only on
    /// those buckets.
    proof fn lemma_second_pass_frame(a: CuckooFilter, b: CuckooFilter, start: CuckooFilter, k: int)
        requires
            forall|i: int| 0 <= i < k ==> #[trigger] a.lanes_at(i) == b.lanes_at(i),
        ensures
            a.second_pass_writes(&start, k) == b.second_pass_writes(&start, k),
        decreases k,
    {
        if k > 0 {
            CuckooFilter::lemma_second_pass_frame(a, b, start, k - 1);
            assert(a.lanes_at(k - 1) == b.lanes_at(k - 1));
        }
    }

    /// Over the ranks the second pass left, a bucket is written in the
    /// second or the third pass exactly when it has rank two or three.
    proof fn lemma_late_writes(mid: CuckooFilter, start: CuckooFilter, k: int)
        requires
            mid.prep_ranks(start, 2, 0),
            mid.buckets@.len() == start.buckets@.len(),
            0 <= k <= start.buckets@.len(),
        ensures
            mid.second_pass_writes(&start, k) + mid.third_pass_writes(&start, k) == start.rank_two_count(k)
                + start.rank_three_count(k),
        decreases k,
    {
        if k > 0 {
            CuckooFilter::lemma_late_writes(mid, start, k - 1);
            reveal(CuckooFilter::prep_ranks);
            let i = k - 1;
            if start.buckets@[i]@[3] != 0 {
                assert(mid.rank_one_matches(&start, i));
                assert(mid.rank_two_matches(&start, i));
            }
        }
    }

    /// A finished pass hands its ranks to the start of the next.
    proof fn lemma_prep_next_pass(&self, start: CuckooFilter, pass: int)
        requires
            self.prep_ranks(start, pass, start.buckets@.len() as int),
            0 <= pass < 3,
        ensures
            self.prep_ranks(start, pass + 1, 0),
    {
        reveal(CuckooFilter::prep_ranks);
    }

    /// After the last pass every full bucket has its settled ranks.
    proof fn lemma_prep_done(ranked: CuckooFilter, after: CuckooFilter, start: CuckooFilter)
        requires
            ranked.prep_ranks(start, 3, 0),
            after.buckets@ == ranked.buckets@,
        ensures
            forall|i: int|
                0 <= i < start.bucket_count_spec() && !start.has_room(i) ==> #[trigger] after.ranks_match(&start, i),
    {
        reveal(CuckooFilter::prep_ranks);
        assert forall|i: int|
            0 <= i < start.bucket_count_spec() && !start.has_room(i) implies #[trigger] after.ranks_match(&start, i) by {
            assert(ranked.rank_one_matches(&start, i));
            assert(ranked.rank_two_matches(&start, i));
            assert(ranked.rank_three_matches(&start, i));
            assert(after.lanes_at(i) == ranked.lanes_at(i));
        }
    }

    /// What pass `pass` settles about bucket `b` when it visits it.
    spec fn prep_settled(&self, start: CuckooFilter, pass: int, b: int) -> bool {
        let full = start.buckets@[b]@[3] != 0;
        let one = start.near_room(b) || has_triple(start.lanes_at(b));
        &&& full ==> self.rank_one_matches(&start, b)
        &&& pass == 0 && full && !one ==> rank4_of(self.lanes_at(b)) == 4
        &&& pass >= 1 && full ==> self.rank_two_matches(&start, b)
        &&& pass >= 1 && full && !one && rank4_of(self.lanes_at(b)) == 3 ==> start.three_from_room(b)
        &&& pass == 2 && full ==> self.rank_three_matches(&start, b)
    }

    /// Settling bucket `b`, and changing no other bucket, extends the ranks
    /// of a pass past `b`.
    proof fn lemma_prep_advance(before: CuckooFilter, after: CuckooFilter, start: CuckooFilter, pass: int, b: int)
        requires
            before.prep_ranks(start, pass, b),
            0 <= pass < 3,
            0 <= b < start.buckets@.len(),
            before.buckets@.len() == start.buckets@.len(),
            after.buckets@.len() == before.buckets@.len(),
            forall|i: int| 0 <= i < before.buckets@.len() && i != b ==> #[trigger] after.buckets@[i] == before.buckets@[i],
            after.prep_settled(start, pass, b),
        ensures
            after.prep_ranks(start, pass, b + 1),
    {
        reveal(CuckooFilter::prep_ranks);
        let n = start.buckets@.len() as int;
        assert forall|i: int| 0 <= i < n && i != b implies #[trigger] after.lanes_at(i) == before.lanes_at(i) by {
            assert(after.buckets@[i] == before.buckets@[i]);
        }
        assert forall|i: int|
            0 <= i < n && (pass >= 1 || i < b + 1) && start.buckets@[i]@[3] != 0
                implies #[trigger] after.rank_one_matches(&start, i) by {
            if i != b {
                assert(before.rank_one_matches(&start, i));
                assert(after.lanes_at(i) == before.lanes_at(i));
            }
        }
        assert forall|i: int|
            0 <= i < n && (pass == 0 && i < b + 1 || pass == 1 && i >= b + 1) && start.buckets@[i]@[3] != 0 && !(
            start.near_room(i) || has_triple(start.lanes_at(i))) implies rank4_of(#[trigger] after.lanes_at(i)) == 4 by {
            if i != b {
                assert(after.lanes_at(i) == before.lanes_at(i));
            }
        }
        assert forall|i: int|
            0 <= i < n && (pass >= 2 || pass == 1 && i < b + 1) && start.buckets@[i]@[3] != 0
                implies #[trigger] after.rank_two_matches(&start, i) by {
            if i != b {
                assert(before.rank_two_matches(&start, i));
                assert(after.lanes_at(i) == before.lanes_at(i));
            }
        }
        assert forall|i: int|
            0 <= i < n && (pass >= 2 || pass == 1 && i < b + 1) && start.buckets@[i]@[3] != 0 && !(start.near_room(i)
                || has_triple(start.lanes_at(i))) && rank4_of(#[trigger] after.lanes_at(i)) == 3 implies start.three_from_room(
            i,
        ) by {
            if i != b {
                assert(after.lanes_at(i) == before.lanes_at(i));
            }
        }
        assert forall|i: int|
            0 <= i < n && (pass >= 3 || pass == 2 && i < b + 1) && start.buckets@[i]@[3] != 0
                implies #[trigger] after.rank_three_matches(&start, i) by {
            if i != b {
                assert(before.rank_three_matches(&start, i));
                assert(after.lanes_at(i) == before.lanes_at(i));
            }
        }
        assert forall|i: int| pass == 0 && b + 1 <= i < n implies #[trigger] after.buckets@[i] == start.buckets@[i] by {
            assert(after.buckets@[i] == before.buckets@[i]);
        }
    }

    /// One step of a dense preparation: re-ranks bucket `bucket` in pass
    /// `pass` and returns the bucket reads and writes it made.
    fn prepare_bucket(&mut self, pass: u8, bucket: usize, Ghost(start): Ghost<CuckooFilter>) -> (work: (u64, u64))
        requires
            old(self).prep_frame(start),
            old(self).prep_ranks(start, pass as int, bucket as int),
            pass < 3,
            bucket < old(self).buckets@.len(),
        ensures
            final(self).prep_frame(start),
            final(self).prep_ranks(start, pass as int, bucket as int + 1),
            1 <= work.0 <= 5,
            work.1 <= 1,
            pass == 0 ==> work.0 == 1 + if !start.has_room(bucket as int) {
                start.room_probes(bucket as int)
            } else {
                0
            },
            pass == 1 ==> work.0 == 1 + if start.prep_plain(bucket as int) {
                4int
            } else {
                0int
            },
            pass == 2 ==> work.0 == 1 || work.0 == 5,
            pass == 2 && start.prep_beyond_three(bucket as int) ==> work.0 == 5,
            pass == 2 && work.0 == 5 ==> start.prep_beyond_two(bucket as int),
            forall|i: int|
                0 <= i < old(self).buckets@.len() && i != bucket ==> #[trigger] final(self).buckets@[i] == old(
                    self,
                ).buckets@[i],
            pass == 0 ==> work.1 == if !start.has_room(bucket as int) {
                1int
            } else {
                0int
            },
            pass == 1 ==> work.1 == if start.prep_plain(bucket as int) && (start.two_from_room(bucket as int)
                || rank4_of(final(self).lanes_at(bucket as int)) == 3) {
                1int
            } else {
                0int
            },
            pass == 2 ==> work.1 == if start.prep_beyond_two(bucket as int) && start.three_from_room(bucket as int)
                && rank4_of(old(self).lanes_at(bucket as int)) == 4 {
                1int
            } else {
                0int
            },
    {
        let ghost n = self.buckets@.len();
        let ghost b = bucket as int;
        let ghost entry = *self;
        proof {
            assert(start.wf());
            assert(n * 8 <= usize::MAX);
            assert(n <= self.mask + 1);
            assert(pass >= 1 ==> forall|i: int|
                0 <= i < n && start.buckets@[i]@[3] != 0 ==> #[trigger] self.rank_one_matches(&start, i)) by {
                reveal(CuckooFilter::prep_ranks);
            }
            assert(pass >= 2 ==> forall|i: int|
                0 <= i < n && start.buckets@[i]@[3] != 0 ==> #[trigger] self.rank_two_matches(&start, i)) by {
                reveal(CuckooFilter::prep_ranks);
            }
            assert(pass >= 1 ==> forall|i: int|
                0 <= i < n && start.buckets@[i]@[3] != 0 && !(start.near_room(i) || has_triple(start.lanes_at(i)))
                    && rank4_of(#[trigger] self.lanes_at(i)) == 2 ==> start.two_from_room(i)) by {
                reveal(CuckooFilter::prep_ranks);
                assert forall|i: int|
                    pass >= 1 && 0 <= i < n && start.buckets@[i]@[3] != 0 && !(start.near_room(i) || has_triple(
                        start.lanes_at(i),
                    )) && rank4_of(#[trigger] self.lanes_at(i)) == 2 implies start.two_from_room(i) by {
                    if pass == 1 && i >= b {
                        assert(rank4_of(self.lanes_at(i)) == 4);
                    } else {
                        assert(self.rank_two_matches(&start, i));
                    }
                }
            }
            assert(pass == 0 ==> self.buckets@[b] == start.buckets@[b]) by {
                reveal(CuckooFilter::prep_ranks);
            }
            assert(pass == 1 && start.buckets@[b]@[3] != 0 && !(start.near_room(b) || has_triple(start.lanes_at(b)))
                ==> rank4_of(self.lanes_at(b)) == 4) by {
                reveal(CuckooFilter::prep_ranks);
            }
            assert(pass == 2 && start.buckets@[b]@[3] != 0 && !(start.near_room(b) || has_triple(start.lanes_at(b)))
                && rank4_of(self.lanes_at(b)) == 3 ==> start.three_from_room(b)) by {
                reveal(CuckooFilter::prep_ranks);
            }
        }
        let mut reads: u64 = 1;
        let mut writes: u64 = 0;
        let word = self.buckets[bucket];
        let index = bucket as u32;
        if word.is_full() && !(pass > 0 && word.decode_rank4() < 4) {
            let residents = word.slots();
            proof {
                if pass >= 1 {
                    // A bucket still at rank four has no fingerprint a
                    // relocation away from room.
                    assert(self.rank_one_matches(&start, bucket as int));
                    assert(reordered(self.buckets@[bucket as int], start.buckets@[bucket as int]));
                    lemma_permuted_lanes(residents@, start.lanes_at(bucket as int));
                    assert forall|k: int| 0 <= k < 4 implies !start.has_room(
                        alt_index_spec(self.mask, index, #[trigger] residents@[k]) as int,
                    ) by {
                        let s0 = start.lanes_at(bucket as int);
                        assert(holds(s0, residents@[k]));
                        let j: int = if s0[0] == residents@[k] {
                            0
                        } else if s0[1] == residents@[k] {
                            1
                        } else if s0[2] == residents@[k] {
                            2
                        } else {
                            3
                        };
                        assert(!start.lane_room(bucket as int, j));
                    }
                }
                if pass >= 2 {
                    // Nor one leading to a bucket of rank one.
                    assert(self.rank_two_matches(&start, bucket as int));
                    assert forall|k: int| 0 <= k < 4 implies !start.fp_near_rank_one(
                        bucket as int,
                        #[trigger] residents@[k],
                    ) by {
                        let s0 = start.lanes_at(bucket as int);
                        assert(holds(s0, residents@[k]));
                        let j: int = if s0[0] == residents@[k] {
                            0
                        } else if s0[1] == residents@[k] {
                            1
                        } else if s0[2] == residents@[k] {
                            2
                        } else {
                            3
                        };
                        assert(!start.fp_near_rank_one(bucket as int, s0[j]));
                    }
                }
            }
            let mut best: u8 = 4;
            let mut lane: usize = 0;
            while lane < SLOTS && best != 0
                invariant
                    table_wf(self.mask, self.buckets@),
                    self.buckets@.len() == n,
                    index <= self.mask,
                    index == bucket,
                    bucket < n,
                    start.buckets@.len() == n,
                    self.mask == start.mask,
                    forall|i: int| 0 <= i < n ==> reordered(#[trigger] self.buckets@[i], start.buckets@[i]),
                    residents@ == self.buckets@[bucket as int]@,
                    pass == 0 ==> residents@ == start.buckets@[bucket as int]@,
                    pass == 0 ==> (best == 0 || best == 4),
                    pass == 0 ==> (best == 0 <==> exists|k: int| 0 <= k < lane && #[trigger] start.lane_room(bucket as int, k)),
                    pass >= 1 ==> forall|k: int| 0 <= k < 4 ==> !start.has_room(
                        alt_index_spec(self.mask, index, #[trigger] residents@[k]) as int,
                    ),
                    pass >= 1 ==> best >= 1,
                    pass >= 1 ==> forall|i: int|
                        0 <= i < n && start.buckets@[i]@[3] != 0 ==> #[trigger] self.rank_one_matches(&start, i),
                    pass >= 1 ==> (best == 1 <==> exists|k: int|
                        0 <= k < lane && #[trigger] start.fp_near_rank_one(bucket as int, residents@[k])),
                    pass >= 1 ==> forall|i: int|
                        0 <= i < n && start.buckets@[i]@[3] != 0 && !(start.near_room(i) || has_triple(
                            start.lanes_at(i),
                        )) && rank4_of(#[trigger] self.lanes_at(i)) == 2 ==> start.two_from_room(i),
                    pass >= 2 ==> forall|i: int|
                        0 <= i < n && start.buckets@[i]@[3] != 0 ==> #[trigger] self.rank_two_matches(&start, i),
                    pass >= 2 ==> forall|k: int| 0 <= k < 4 ==> !start.fp_near_rank_one(
                        bucket as int,
                        #[trigger] residents@[k],
                    ),
                    pass >= 2 ==> best >= 2,
                    pass >= 1 ==> (best == 2 ==> exists|k: int|
                        0 <= k < lane && #[trigger] start.fp_near_rank_two(bucket as int, residents@[k])),
                    pass >= 2 ==> ((exists|k: int|
                        0 <= k < lane && #[trigger] start.fp_near_rank_two(bucket as int, residents@[k]))
                        ==> best == 2),
                    lane <= SLOTS,
                    best <= 4,
                    reads == 1 + lane,
                    pass == 0 && best == 0 ==> lane == start.room_probes(bucket as int),
                    n <= 0x1_0000_0000,
                decreases SLOTS - lane,
            {
                let neighbor = alt_index(self.mask, index, residents[lane]);
                proof {
                    lemma_alt_index(self.mask, index, residents@[lane as int]);
                }
                let neighbor_word = self.bucket(neighbor);
                reads = reads + 1;
                proof {
                    assert(reordered(self.buckets@[neighbor as int], start.buckets@[neighbor as int]));
                    if start.buckets@[neighbor as int]@[3] != 0 {
                        assert(all_nonzero(self.buckets@[neighbor as int]@));
                    }
                    assert((neighbor_word@[3] != 0) == !start.has_room(neighbor as int));
                    if pass == 0 {
                        assert(start.lane_room(bucket as int, lane as int) == start.has_room(neighbor as int));
                    } else {
                        assert(self.rank_one_matches(&start, neighbor as int));
                        assert(self.lanes_at(neighbor as int) == neighbor_word@);
                        assert(start.fp_near_rank_one(bucket as int, residents@[lane as int]) == (rank4_of(
                            neighbor_word@,
                        ) == 1));
                        if rank4_of(neighbor_word@) == 2 {
                            assert(start.fp_near_rank_two(bucket as int, residents@[lane as int]));
                        }
                        if pass >= 2 && start.fp_near_rank_two(bucket as int, residents@[lane as int]) {
                            assert(self.rank_two_matches(&start, neighbor as int));
                            assert(rank4_of(neighbor_word@) == 2);
                        }
                    }
                }
                let score: u8 = if !neighbor_word.is_full() {
                    0
                } else if pass == 0 {
                    4
                } else {
                    neighbor_word.decode_rank4()
                };
                if score < best {
                    best = score;
                }
                lane += 1;
                proof {
                    if pass == 0 {
                        if best == 0 {
                            if score == 0 {
                                assert(start.lane_room(bucket as int, lane - 1));
                                assert forall|k: int| 0 <= k < lane - 1 implies !#[trigger] start.lane_room(bucket as int, k) by {
                                }
                                assert(lane == start.room_probes(bucket as int));
                            }
                        }
                    } else {
                        if best == 1 && score == 1 {
                            assert(start.fp_near_rank_one(bucket as int, residents@[lane - 1]));
                        }
                        if best == 2 && score == 2 {
                            assert(start.fp_near_rank_two(bucket as int, residents@[lane - 1]));
                        }
                    }
                }
            }
            proof {
                if pass >= 1 {
                    assert(lane == 4);
                    let s0 = start.lanes_at(bucket as int);
                    assert(best == 1 <==> start.two_from_room(bucket as int)) by {
                        lemma_permuted_lanes(residents@, s0);
                        if best == 1 {
                            let k = choose|k: int| 0 <= k < 4 && #[trigger] start.fp_near_rank_one(bucket as int, residents@[k]);
                            assert(holds(s0, residents@[k]));
                            let j: int = if s0[0] == residents@[k] {
                                0
                            } else if s0[1] == residents@[k] {
                                1
                            } else if s0[2] == residents@[k] {
                                2
                            } else {
                                3
                            };
                            assert(start.fp_near_rank_one(bucket as int, s0[j]));
                        }
                        if start.two_from_room(bucket as int) {
                            let k = choose|k: int| 0 <= k < 4 && #[trigger] start.fp_near_rank_one(bucket as int, s0[k]);
                            assert(holds(residents@, s0[k]));
                            let j: int = if residents@[0] == s0[k] {
                                0
                            } else if residents@[1] == s0[k] {
                                1
                            } else if residents@[2] == s0[k] {
                                2
                            } else {
                                3
                            };
                            assert(start.fp_near_rank_one(bucket as int, residents@[j]));
                        }
                    }
                    assert(best == 2 ==> start.three_from_room(bucket as int)) by {
                        lemma_permuted_lanes(residents@, s0);
                        if best == 2 {
                            let k = choose|k: int| 0 <= k < 4 && #[trigger] start.fp_near_rank_two(bucket as int, residents@[k]);
                            assert(holds(s0, residents@[k]));
                            let j: int = if s0[0] == residents@[k] {
                                0
                            } else if s0[1] == residents@[k] {
                                1
                            } else if s0[2] == residents@[k] {
                                2
                            } else {
                                3
                            };
                            assert(start.fp_near_rank_two(bucket as int, s0[j]));
                        }
                    }
                    assert(pass >= 2 && start.three_from_room(bucket as int) ==> best == 2) by {
                        lemma_permuted_lanes(residents@, s0);
                        if pass >= 2 && start.three_from_room(bucket as int) {
                            let k = choose|k: int| 0 <= k < 4 && #[trigger] start.fp_near_rank_two(bucket as int, s0[k]);
                            assert(holds(residents@, s0[k]));
                            let j: int = if residents@[0] == s0[k] {
                                0
                            } else if residents@[1] == s0[k] {
                                1
                            } else if residents@[2] == s0[k] {
                                2
                            } else {
                                3
                            };
                            assert(start.fp_near_rank_two(bucket as int, residents@[j]));
                        }
                    }
                }
            }
            proof {
                if pass == 0 {
                    assert(best == 0 <==> start.near_room(bucket as int)) by {
                        if best != 0 {
                            assert(lane == 4);
                        }
                    }
                }
            }
            let rank: u8 = if 1 + best < 4 {
                1 + best
            } else {
                4
            };
            if pass == 0 || rank < 4 {
                proof {
                    assert(all_nonzero(self.buckets@[bucket as int]@));
                }
                let encoded = Bucket::encode_rank4(residents, rank);
                let ghost before = self.buckets@;
                let ghost before_self = *self;
                self.store_permuted(index, encoded);
                writes = 1;
                proof {
                    assert forall|i: int| 0 <= i < n implies reordered(
                        #[trigger] self.buckets@[i],
                        start.buckets@[i],
                    ) by {
                        if i != bucket as int {
                            assert(self.buckets@[i] == before[i]);
                        } else {
                            assert(start.buckets@[i]@[3] != 0);
                        }
                    }
                    lemma_permuted_lanes(residents@, start.lanes_at(bucket as int));
                    assert(self.prep_settled(start, pass as int, b));
                }
            }
        }
        proof {
            if writes == 0 {
                assert(*self == entry);
                if start.buckets@[b]@[3] != 0 {
                    if pass == 0 {
                        assert(self.buckets@[b] == start.buckets@[b]);
                    }
                    if pass >= 1 {
                        assert(self.rank_one_matches(&start, b));
                    }
                    if pass == 2 {
                        assert(self.rank_two_matches(&start, b));
                    }
                }
                assert(self.prep_settled(start, pass as int, b));
            }
            CuckooFilter::lemma_prep_advance(entry, *self, start, pass as int, b);
        }
        (reads, writes)
    }

    pub fn prepare_dense(&mut self) -> (stats: DensePreparationStats)
        requires
            old(self).wf(),
        ensures
            final(self).wf(),
            final(self).same_setup(old(self)),
            final(self).items() == old(self).items(),
            final(self).len_spec() == old(self).len_spec(),
            stats.prepared == (old(self).policy_spec() == Policy::DenseCavityRank4
                && !old(self).ranked_ready()),
            !stats.prepared ==> *final(self) == *old(self) && stats == (DensePreparationStats {
                prepared: false,
                bucket_reads: 0,
                bucket_writes: 0,
            }),
            final(self).ranked_ready() == (old(self).ranked_ready() || stats.prepared),
            forall|i: int|
                #![trigger final(self).lanes_at(i)]
                0 <= i < old(self).bucket_count_spec() ==> {
                    &&& slot_multiset(final(self).lanes_at(i)) == slot_multiset(old(self).lanes_at(i))
                    &&& old(self).has_room(i) ==> final(self).lanes_at(i) == old(self).lanes_at(i)
                    &&& !old(self).has_room(i) ==> all_nonzero(final(self).lanes_at(i))
                },
            stats.prepared ==> forall|i: int|
                0 <= i < old(self).bucket_count_spec() && !old(self).has_room(i)
                    ==> #[trigger] final(self).ranks_match(old(self), i),
            stats.prepared ==> 3 * old(self).bucket_count_spec() <= stats.bucket_reads <= 15
                * old(self).bucket_count_spec() && stats.bucket_writes <= 3 * old(self).bucket_count_spec(),
            stats.prepared ==> stats.bucket_writes == old(self).full_bucket_count(
                old(self).bucket_count_spec() as int,
            ) + old(self).rank_two_count(old(self).bucket_count_spec() as int) + old(self).rank_three_count(
                old(self).bucket_count_spec() as int,
            ),
            stats.prepared ==> {
                let n = old(self).bucket_count_spec() as int;
                let late = stats.bucket_reads - (3 * n + old(self).first_pass_probes(n) + 4 * old(self).plain_count(n));
                &&& late % 4 == 0
                &&& 4 * old(self).beyond_three_count(n) <= late <= 4 * old(self).beyond_two_count(n)
            },
    {
        let mut stats = DensePreparationStats::default();
        proof {
            assert forall|i: int| 0 <= i < self.buckets@.len() && self.buckets@[i]@[3] != 0 implies all_nonzero(
                #[trigger] self.buckets@[i]@,
            ) by {
                assert(is_prefix_form(self.buckets@[i]@));
            }
        }
        if self.policy != Policy::DenseCavityRank4 || self.dense_mode {
            return stats;
        }
        let ghost start = *self;
        let n = self.buckets.len();
        proof {
            assert forall|i: int| 0 <= i < n implies reordered(
                #[trigger] self.buckets@[i],
                start.buckets@[i],
            ) by {
                if self.buckets@[i]@[3] != 0 {
                    assert(all_nonzero(self.buckets@[i]@));
                }
            }
        }
        let mut pass: u8 = 0;
        let ghost mut done: int = 0;
        let ghost p0 = start.first_pass_probes(n as int);
        let ghost plain = start.plain_count(n as int);
        let ghost mut k2: nat = 0;
        let ghost full = start.full_bucket_count(n as int);
        let ghost mut mid = start;
        proof {
            assert(self.prep_frame(start));
            assert(self.prep_ranks(start, 0, 0)) by {
                reveal(CuckooFilter::prep_ranks);
            }
        }
        while pass < 3
            invariant
                self.prep_frame(start),
                self.buckets@.len() == n,
                pass <= 3,
                pass < 3 ==> self.prep_ranks(start, pass as int, 0),
                pass == 3 ==> self.prep_ranks(start, 3, 0),
                done == pass * n,
                done <= stats.bucket_reads <= 5 * done,
                stats.bucket_writes <= done,
                !stats.prepared,
                n * 8 <= usize::MAX,
                p0 == start.first_pass_probes(n as int),
                plain == start.plain_count(n as int),
                pass == 0 ==> stats.bucket_reads == 0,
                pass == 1 ==> stats.bucket_reads == n + p0,
                pass == 2 ==> stats.bucket_reads == 2 * n + p0 + 4 * plain,
                pass == 3 ==> stats.bucket_reads == 3 * n + p0 + 4 * plain + 4 * k2,
                pass == 3 ==> start.beyond_three_count(n as int) <= k2 <= start.beyond_two_count(n as int),
                pass <= 2 ==> k2 == 0,
                full == start.full_bucket_count(n as int),
                pass == 0 ==> stats.bucket_writes == 0,
                pass == 1 ==> stats.bucket_writes == full,
                pass == 2 ==> *self == mid,
                pass >= 2 ==> mid.prep_ranks(start, 2, 0) && mid.buckets@.len() == n,
                pass == 2 ==> stats.bucket_writes == full + mid.second_pass_writes(&start, n as int),
                pass == 3 ==> stats.bucket_writes == full + mid.second_pass_writes(&start, n as int)
                    + mid.third_pass_writes(&start, n as int),
            decreases 3 - pass,
        {
            let mut bucket: usize = 0;
            while bucket < n
                invariant
                    self.prep_frame(start),
                    self.buckets@.len() == n,
                    pass < 3,
                    bucket <= n,
                    self.prep_ranks(start, pass as int, bucket as int),
                    done == pass * n + bucket,
                    done <= stats.bucket_reads <= 5 * done,
                    stats.bucket_writes <= done,
                    !stats.prepared,
                    n * 8 <= usize::MAX,
                    p0 == start.first_pass_probes(n as int),
                    plain == start.plain_count(n as int),
                    pass == 0 ==> stats.bucket_reads == bucket + start.first_pass_probes(bucket as int),
                    pass == 1 ==> stats.bucket_reads == n + p0 + bucket + 4 * start.plain_count(bucket as int),
                    pass == 2 ==> stats.bucket_reads == 2 * n + p0 + 4 * plain + bucket + 4 * k2,
                    pass == 2 ==> start.beyond_three_count(bucket as int) <= k2 <= start.beyond_two_count(
                        bucket as int,
                    ),
                    pass <= 1 ==> k2 == 0,
                    full == start.full_bucket_count(n as int),
                    pass == 0 ==> stats.bucket_writes == start.full_bucket_count(bucket as int),
                    pass == 1 ==> stats.bucket_writes == full + self.second_pass_writes(&start, bucket as int),
                    pass == 2 ==> mid.prep_ranks(start, 2, 0) && mid.buckets@.len() == n,
                    pass == 2 ==> stats.bucket_writes == full + mid.second_pass_writes(&start, n as int)
                        + mid.third_pass_writes(&start, bucket as int),
                    pass == 2 ==> forall|i: int| bucket <= i < n ==> #[trigger] self.buckets@[i] == mid.buckets@[i],
                decreases n - bucket,
            {
                proof {
                    assert(done + 1 <= 3 * n) by (nonlinear_arith)
                        requires
                            done == pass * n + bucket,
                            pass < 3,
                            bucket < n,
                    ;
                }
                let ghost before_bucket = *self;
                let work = self.prepare_bucket(pass, bucket, Ghost(start));
                proof {
                    if pass == 1 {
                        assert forall|i: int| 0 <= i < bucket implies #[trigger] self.lanes_at(i)
                            == before_bucket.lanes_at(i) by {
                            assert(self.buckets@[i] == before_bucket.buckets@[i]);
                        }
                        CuckooFilter::lemma_second_pass_frame(*self, before_bucket, start, bucket as int);
                    }
                    if pass == 2 {
                        assert(before_bucket.buckets@[bucket as int] == mid.buckets@[bucket as int]);
                    }
                }
                stats.bucket_reads = stats.bucket_reads + work.0;
                stats.bucket_writes = stats.bucket_writes + work.1;
                bucket += 1;
                proof {
                    done = done + 1;
                    if pass == 2 && work.0 == 5 {
                        k2 = k2 + 1;
                    }
                }
            }
            proof {
                assert(done == (pass + 1) * n) by (nonlinear_arith)
                    requires
                        done == pass * n + n,
                ;
                self.lemma_prep_next_pass(start, pass as int);
                if pass == 1 {
                    mid = *self;
                }
            }
            pass += 1;
        }
        let ghost ranked = *self;
        self.dense_mode = true;
        stats.prepared = true;
        proof {
            CuckooFilter::lemma_late_writes(mid, start, n as int);
            assert(start == *old(self));
            CuckooFilter::lemma_prep_done(ranked, *self, start);
            assert forall|i: int| 0 <= i < n implies reordered(#[trigger] self.buckets@[i], start.buckets@[i]) by {
                assert(self.buckets@[i] == ranked.buckets@[i]);
            }
            assert(self.items() == start.items());
        }
        stats
    }

    /// Attempts to insert `key` and returns operation statistics.
    ///
    /// A dense rank-4 filter first prepares its ranks once its load reaches
    /// 96%. Always inspect `filter_usable` after a failed insertion. Under
    /// LSA the labels must have room for one more insertion
    /// ([`has_label_room`](Self::has_label_room)): no label may pass
    /// `u64::MAX`.
    pub fn insert(&mut self, key: u64) -> (stats: InsertStats)
        requires
            old(self).wf(),
            old(self).label_room(1),
        ensures
            final(self).wf(),
            final(self).same_setup(old(self)),
            final(self).ranked_ready() == (old(self).ranked_ready() || dense_prepare_due_spec(
                old(self).policy_spec(),
                old(self).ranked_ready(),
                old(self).len_spec() as int,
                4 * old(self).bucket_count_spec() as int,
            )),
            insertion_outcome(
                old(self).items(),
                final(self).items(),
                key_item(old(self).table_mask(), key),
                stats,
            ),
            stats.inserted ==> final(self).len_spec() == old(self).len_spec() + 1,
            !stats.inserted ==> final(self).len_spec() == old(self).len_spec(),
            old(self).has_room(key_first(old(self).table_mask(), key) as int) || old(self).has_room(
                key_second(old(self).table_mask(), key) as int,
            ) ==> stats.inserted,
            old(self).has_room(key_first(old(self).table_mask(), key) as int) || old(self).has_room(
                key_second(old(self).table_mask(), key) as int,
            ) ==> direct_placement(stats) && direct_reads(
                old(self).policy_spec(),
                ranked_path(old(self).policy_spec(), final(self).ranked_ready()),
                key_first(old(self).table_mask(), key) == key_second(old(self).table_mask(), key),
                stats.bucket_reads,
            ),
            !(old(self).has_room(key_first(old(self).table_mask(), key) as int) || old(self).has_room(
                key_second(old(self).table_mask(), key) as int,
            )) && old(self).policy_spec() != Policy::Bfs ==> kicked_stats(stats, old(self).max_kicks_spec()),
            path_stats(stats, old(self).policy_spec() == Policy::CavityRank4Path),
            !(old(self).has_room(key_first(old(self).table_mask(), key) as int) || old(self).has_room(
                key_second(old(self).table_mask(), key) as int,
            )) && old(self).policy_spec() != Policy::Bfs ==> if ranked_path(
                old(self).policy_spec(),
                final(self).ranked_ready(),
            ) {
                ranked_kick_reads(stats, old(self).max_kicks_spec())
            } else {
                kicked_reads(
                    old(self).policy_spec(),
                    if key_first(old(self).table_mask(), key) == key_second(old(self).table_mask(), key) {
                        1
                    } else {
                        2
                    },
                    stats,
                    old(self).max_kicks_spec(),
                )
            },
            !(old(self).has_room(key_first(old(self).table_mask(), key) as int) || old(self).has_room(
                key_second(old(self).table_mask(), key) as int,
            )) && old(self).policy_spec() == Policy::Bfs ==> searched_stats(stats),
            stats.filter_usable == (stats.inserted || old(self).policy_spec() == Policy::Bfs),
            !stats.inserted && old(self).policy_spec() == Policy::Bfs ==> forall|i: int|
                0 <= i < old(self).bucket_count_spec() ==> #[trigger] final(self).lanes_at(i)
                    == old(self).lanes_at(i),
            old(self).policy_spec() == Policy::Bfs ==> stats.relocations <= old(self).bfs_depth_spec(),
            old(self).policy_spec() == Policy::Bfs && (old(self).room_one_kick_away(
                key_first(old(self).table_mask(), key) as int,
            ) || old(self).room_one_kick_away(key_second(old(self).table_mask(), key) as int))
                ==> stats.inserted,
            !dense_prepare_due_spec(
                old(self).policy_spec(),
                old(self).ranked_ready(),
                old(self).len_spec() as int,
                4 * old(self).bucket_count_spec() as int,
            ) && ranked_path(old(self).policy_spec(), old(self).ranked_ready()) && (old(self).has_room(
                key_first(old(self).table_mask(), key) as int,
            ) || old(self).has_room(key_second(old(self).table_mask(), key) as int)) ==> stats.bucket_reads
                == ranked_direct_reads(
                old(self),
                key_fingerprint(key),
                key_first(old(self).table_mask(), key),
                key_second(old(self).table_mask(), key),
                crate::hash::key_hash(key),
            ),
            !dense_prepare_due_spec(
                old(self).policy_spec(),
                old(self).ranked_ready(),
                old(self).len_spec() as int,
                4 * old(self).bucket_count_spec() as int,
            ) && !ranked_path(old(self).policy_spec(), old(self).ranked_ready()) && (old(self).has_room(
                key_first(old(self).table_mask(), key) as int,
            ) || old(self).has_room(key_second(old(self).table_mask(), key) as int)) ==> stats.bucket_reads
                == plain_direct_reads(
                old(self),
                key_fingerprint(key),
                key_first(old(self).table_mask(), key),
                key_second(old(self).table_mask(), key),
                crate::hash::key_hash(key),
            ),
            !dense_prepare_due_spec(
                old(self).policy_spec(),
                old(self).ranked_ready(),
                old(self).len_spec() as int,
                4 * old(self).bucket_count_spec() as int,
            ) && (old(self).has_room(key_first(old(self).table_mask(), key) as int) || old(self).has_room(
                key_second(old(self).table_mask(), key) as int,
            )) ==> if ranked_path(old(self).policy_spec(), old(self).ranked_ready()) {
                ranked_direct_effect(
                    old(self),
                    final(self),
                    key_fingerprint(key),
                    key_first(old(self).table_mask(), key),
                    key_second(old(self).table_mask(), key),
                    crate::hash::key_hash(key),
                )
            } else {
                direct_effect(
                    old(self),
                    final(self),
                    key_fingerprint(key),
                    plain_destination(
                        old(self).policy_spec(),
                        key_first(old(self).table_mask(), key),
                        key_second(old(self).table_mask(), key),
                        old(self).lanes_at(key_first(old(self).table_mask(), key) as int),
                        old(self).lanes_at(key_second(old(self).table_mask(), key) as int),
                        crate::hash::key_hash(key),
                    ),
                )
            },
            old(self).path_spec() is Some && old(self).path_spec()->0.activation is After ==> {
                let threshold = old(self).path_spec()->0.activation->0;
                &&& stats.path_activated ==> stats.path_activation_step == threshold + 1
                &&& stats.path_activated <==> stats.relocations > threshold
            },
            4 * old(self).max_kicks_spec() <= u32::MAX ==> stats.path_guarded_steps
                + stats.path_seen_candidates_rejected <= stats.path_checks <= 4 * stats.path_guarded_steps,
            old(self).policy_spec() == Policy::Bfs && old(self).room_within_search(
                key_first(old(self).table_mask(), key),
                key_second(old(self).table_mask(), key),
            ) ==> stats.inserted,
            !stats.inserted ==> forall|i: int|
                0 <= i < old(self).bucket_count_spec() && !old(self).has_room(i)
                    ==> !#[trigger] final(self).has_room(i),
            !dense_prepare_due_spec(
                old(self).policy_spec(),
                old(self).ranked_ready(),
                old(self).len_spec() as int,
                4 * old(self).bucket_count_spec() as int,
            ) && !ranked_path(old(self).policy_spec(), old(self).ranked_ready()) && old(self).policy_spec()
                != Policy::Bfs && !(old(self).has_room(key_first(old(self).table_mask(), key) as int)
                || old(self).has_room(key_second(old(self).table_mask(), key) as int)) ==> old(self).kick_run(
                final(self),
                key_fingerprint(key),
                key_first(old(self).table_mask(), key),
                key_second(old(self).table_mask(), key),
                crate::hash::key_hash(key),
                stats,
            ),
            !dense_prepare_due_spec(
                old(self).policy_spec(),
                old(self).ranked_ready(),
                old(self).len_spec() as int,
                4 * old(self).bucket_count_spec() as int,
            ) && ranked_path(old(self).policy_spec(), old(self).ranked_ready()) && !(old(self).has_room(
                key_first(old(self).table_mask(), key) as int,
            ) || old(self).has_room(key_second(old(self).table_mask(), key) as int)) ==> old(self).ranked_run(
                final(self),
                key_fingerprint(key),
                key_first(old(self).table_mask(), key),
                key_second(old(self).table_mask(), key),
                crate::hash::key_hash(key),
                stats,
            ),
            forall|b: int|
                #[trigger] old(self).labels_at_most(b) ==> final(self).labels_at_most(b + old(self).max_kicks_spec() + 1),
    {
        let ghost start = *self;
        if self.needs_dense_prepare() {
            let _ = self.prepare_dense();
        }
        let (fingerprint, first, second, hash) = key_parts(self.mask, key);
        proof {
            lemma_alt_index(self.mask, first, fingerprint);
            assert(item_at(self.mask, first, fingerprint) == key_item(self.mask, key));
            assert(item_at(self.mask, second, fingerprint) == key_item(self.mask, key));
            if start.has_room(first as int) {
                assert(self.lanes_at(first as int) == start.lanes_at(first as int));
            }
            if start.has_room(second as int) {
                assert(self.lanes_at(second as int) == start.lanes_at(second as int));
            }
            assert(!start.has_room(first as int) ==> !self.has_room(first as int)) by {
                if !start.has_room(first as int) && self.lanes_at(first as int) != start.lanes_at(first as int) {
                    assert(all_nonzero(self.lanes_at(first as int)));
                }
            }
            assert(!start.has_room(second as int) ==> !self.has_room(second as int)) by {
                if !start.has_room(second as int) && self.lanes_at(second as int) != start.lanes_at(second as int) {
                    assert(all_nonzero(self.lanes_at(second as int)));
                }
            }
        }
        proof {
            assert forall|i: int| 0 <= i < start.bucket_count_spec() && !start.has_room(i) implies !#[trigger] self.has_room(i) by {
                if self.lanes_at(i) != start.lanes_at(i) {
                    assert(all_nonzero(self.lanes_at(i)));
                }
            }
        }
        let ghost prepared = *self;
        proof {
            if start.policy == Policy::Lsa {
                assert(*self == start);
            }
        }
        let stats = self.insert_fingerprint(fingerprint, first, second, hash);
        proof {
            if !stats.inserted {
                assert forall|i: int| 0 <= i < start.bucket_count_spec() && !start.has_room(i) implies !#[trigger] self.has_room(i) by {
                    assert(!prepared.has_room(i));
                }
            }
            let root = choose|root: u32|
                (root == first || root == second) && #[trigger] insertion_outcome(
                    start.items(),
                    self.items(),
                    item_at(start.mask, root, fingerprint),
                    stats,
                );
            assert(item_at(start.mask, root, fingerprint) == key_item(start.mask, key));
        }
        stats
    }
}

/// Number of full buckets among the first `k`.
pub open spec fn full_count(t: Seq<Seq<u16>>, k: int) -> nat
    decreases k,
{
    if k <= 0 {
        0
    } else {
        full_count(t, k - 1) + if t[k - 1][3] != 0 {
            1nat
        } else {
            0nat
        }
    }
}

/// Number of full buckets among the first `k` that hold three or four
/// equal fingerprints.
pub open spec fn alias_count(t: Seq<Seq<u16>>, k: int) -> nat
    decreases k,
{
    if k <= 0 {
        0
    } else {
        alias_count(t, k - 1) + if t[k - 1][3] != 0 && has_triple(t[k - 1]) {
            1nat
        } else {
            0nat
        }
    }
}

/// Both counts are at most the number of buckets scanned.
proof fn lemma_counts_bounded(t: Seq<Seq<u16>>, k: int)
    requires
        0 <= k,
    ensures
        full_count(t, k) <= k,
        alias_count(t, k) <= k,
    decreases k,
{
    if k > 0 {
        lemma_counts_bounded(t, k - 1);
    }
}

impl CuckooFilter {
    /// The lanes of every bucket.
    pub closed spec fn table_lanes(&self) -> Seq<Seq<u16>> {
        Seq::new(self.buckets@.len(), |i: int| self.buckets@[i]@)
    }

    /// A bucket has room exactly when its last lane is empty.
    pub proof fn lemma_has_room(&self, i: int)
        ensures
            self.has_room(i) <==> self.lanes_at(i)[3] == 0,
    {
    }

    /// Both candidate buckets of a key lie in the table.
    pub proof fn lemma_key_candidates(&self, key: u64)
        requires
            self.wf(),
        ensures
            key_first(self.table_mask(), key) < self.bucket_count_spec(),
            key_second(self.table_mask(), key) < self.bucket_count_spec(),
    {
        let first = key_first(self.mask, key);
        let h = crate::hash::key_hash(key) as u32;
        let mask = self.mask;
        assert(first == h & mask);
        assert(first <= mask) by (bit_vector)
            requires
                first == h & mask,
        ;
        lemma_alt_index(self.mask, first, key_fingerprint(key));
    }

    /// The length counts the stored items, which fit in the slots.
    pub proof fn lemma_len_bound(&self)
        requires
            self.wf(),
        ensures
            self.len_spec() == self.items().len(),
            self.len_spec() <= 4 * self.bucket_count_spec(),
    {
        lemma_table_items_len(self.mask, self.buckets@, self.buckets@.len(), 0);
    }

    /// Returns `(full_buckets, alias_buckets)` for the rank-4 policies.
    ///
    /// Alias buckets contain three or four equal fingerprints and cannot
    /// encode all four ranks. Other policies return `(0, 0)`. This is a
    /// full-table scan and is never called from the insertion path.
    pub fn rank4_codec_counts(&self) -> (r: (usize, usize))
        requires
            self.wf(),
        ensures
            r == (if is_rank4(self.policy_spec()) {
                (
                    full_count(self.table_lanes(), self.bucket_count_spec() as int) as usize,
                    alias_count(self.table_lanes(), self.bucket_count_spec() as int) as usize,
                )
            } else {
                (0usize, 0usize)
            }),            !(self.policy_spec() == Policy::CavityRank4 || self.policy_spec() == Policy::CavityRank4Path
                || self.policy_spec() == Policy::DenseCavityRank4) ==> r == (0usize, 0usize),
            self.policy_spec() == Policy::CavityRank4 || self.policy_spec() == Policy::CavityRank4Path
                || self.policy_spec() == Policy::DenseCavityRank4 ==> r == (
                full_count(self.table_lanes(), self.bucket_count_spec() as int) as usize,
                alias_count(self.table_lanes(), self.bucket_count_spec() as int) as usize,
            ),
    {
        let counted = match self.policy {
            Policy::CavityRank4 | Policy::CavityRank4Path | Policy::DenseCavityRank4 => true,
            _ => false,
        };
        if !counted {
            return (0, 0);
        }
        let ghost lanes = self.table_lanes();
        let mut full_buckets: usize = 0;
        let mut alias_buckets: usize = 0;
        let mut index: usize = 0;
        while index < self.buckets.len()
            invariant
                index <= self.buckets@.len(),
                lanes == self.table_lanes(),
                lanes.len() == self.buckets@.len(),
                full_buckets == full_count(lanes, index as int),
                alias_buckets == alias_count(lanes, index as int),
            decreases self.buckets@.len() - index,
        {
            proof {
                lemma_counts_bounded(lanes, index as int);
                assert(lanes[index as int] == self.buckets@[index as int]@);
            }
            let word = self.buckets[index];
            if word.is_full() {
                full_buckets += 1;
                let slots = word.slots();
                let a = slots[0];
                let b = slots[1];
                let c = slots[2];
                let d = slots[3];
                if (a == b && (a == c || a == d)) || (a == c && a == d) || (b == c && b == d) {
                    alias_buckets += 1;
                }
            }
            index += 1;
        }
        (full_buckets, alias_buckets)
    }

    /// Returns the allocated reusable BFS and path-sketch workspace bytes,
    /// from the vectors' capacities; `Vec` headers are excluded.
    pub fn transient_insertion_workspace_bytes(&self) -> (r: usize)
        requires
            self.wf(),
        ensures
            self.policy_spec() != Policy::Bfs && self.policy_spec() != Policy::CavityRank4Path
                ==> r == 0,
            exists|bfs_bytes: usize, path_bytes: usize|
                #![trigger vstd::wrapping::usize_specs::wrapping_add(bfs_bytes, path_bytes)]
                {
                    &&& match self.bfs_spec() {
                        Some(scratch) => scratch.storage_allows(bfs_bytes),
                        None => bfs_bytes == 0,
                    }
                    &&& match self.path_spec() {
                        Some(sketch) => sketch.storage_allows(path_bytes),
                        None => path_bytes == 0,
                    }
                    &&& r == vstd::wrapping::usize_specs::wrapping_add(bfs_bytes, path_bytes)
                },
    {
        let bfs_bytes = match &self.bfs {
            Some(scratch) => scratch.storage_bytes(),
            None => 0,
        };
        let path_bytes = match &self.path {
            Some(sketch) => sketch.storage_bytes(),
            None => 0,
        };
        let r = bfs_bytes.wrapping_add(path_bytes);
        assert(r == vstd::wrapping::usize_specs::wrapping_add(bfs_bytes, path_bytes));
        r
    }

    /// Returns the allocated bucket-payload bytes, from the bucket vector's
    /// capacity; the `Vec` header is excluded.
    pub fn payload_bytes(&self) -> (r: usize)
        ensures
            exists|capacity: usize|
                #![trigger capacity * size_of::<Bucket>()]
                capacity >= self.bucket_count_spec() && r == capacity * size_of::<Bucket>(),
            r <= isize::MAX,
    {
        allocated(&self.buckets) * core::mem::size_of::<Bucket>()
    }

    /// Returns the allocated persistent-label bytes, from the label vectors'
    /// capacities; bucket payloads and `Vec` headers are excluded.
    pub fn persistent_metadata_bytes(&self) -> (r: usize)
        ensures
            exists|eviction: usize, lsa: usize|
                #![trigger eviction + lsa * 8]
                {
                    &&& eviction >= self.eviction_label_count()
                    &&& lsa >= self.lsa_label_count()
                    &&& eviction <= isize::MAX
                    &&& lsa * 8 <= isize::MAX
                    &&& r == eviction + lsa * 8
                },
    {
        proof {
            broadcast use vstd::layout::layout_of_primitives;
        }
        allocated(&self.eviction_labels) * core::mem::size_of::<u8>() + allocated(&self.lsa_labels)
            * core::mem::size_of::<u64>()
    }

    /// The breadth-first-search workspace of a BFS filter.
    pub fn bfs_scratch(&self) -> (r: Option<&BfsScratch>)
        requires
            self.wf(),
        ensures
            r is Some == (self.policy_spec() == Policy::Bfs),
    {
        match &self.bfs {
            Some(scratch) => Some(scratch),
            None => None,
        }
    }

    /// The visited-bucket sketch of a path-guarded filter.
    pub fn path_sketch(&self) -> (r: Option<&PathSketch>)
        requires
            self.wf(),
        ensures
            r is Some == (self.policy_spec() == Policy::CavityRank4Path),
    {
        match &self.path {
            Some(sketch) => Some(sketch),
            None => None,
        }
    }

    /// Overwrites bucket `index` with `slots` and recounts the stored
    /// fingerprints; for setting up a table state directly.
    pub fn set_bucket_slots(&mut self, index: usize, slots: [u16; SLOTS])
        requires
            old(self).wf(),
            index < old(self).bucket_count_spec(),
            is_prefix_form(slots@),
        ensures
            final(self).wf(),
            final(self).same_setup(old(self)),
            final(self).ranked_ready() == old(self).ranked_ready(),
            final(self).table_lanes() == old(self).table_lanes().update(index as int, slots@),
            final(self).lanes_at(index as int) == slots@,
            forall|i: int|
                0 <= i < old(self).bucket_count_spec() && i != index ==> #[trigger] final(self).lanes_at(i)
                    == old(self).lanes_at(i),
            final(self).bucket_count_spec() == old(self).bucket_count_spec(),
            final(self).items().add(
                bucket_items(old(self).table_mask(), index as u32, old(self).lanes_at(index as int)),
            ) == old(self).items().add(bucket_items(old(self).table_mask(), index as u32, slots@)),
    {
        let ghost start = *self;
        let ghost t = self.buckets@;
        let previous = self.buckets[index].occupancy();
        let word = Bucket::from_slots(slots);
        let current = word.occupancy();
        self.buckets.set(index, word);
        proof {
            let mask = self.mask;
            let s = t[index as int]@;
            let before_part = bucket_items(mask, index as u32, s);
            let after_part = bucket_items(mask, index as u32, slots@);
            assert(is_prefix_form(s));
            lemma_table_items_update(mask, t, t.len(), index as int, word);
            assert(t.update(index as int, word) == self.buckets@);
            lemma_bucket_items_len(mask, index as u32, s);
            lemma_bucket_items_len(mask, index as u32, slots@);
            assert(before_part.len() == previous);
            assert(after_part.len() == current);
            let old_items = all_items(mask, t);
            // The new table plus the old bucket equals the old table plus the new bucket.
            assert(self.items().add(before_part) == old_items.add(after_part));
            vstd::multiset::axiom_len_add(self.items(), before_part);
            vstd::multiset::axiom_len_add(old_items, after_part);
            assert(self.items().len() + previous == old_items.len() + current);
            lemma_table_items_len(mask, self.buckets@, self.buckets@.len(), 0);
            assert(self.table_lanes() =~= start.table_lanes().update(index as int, slots@));
            assert forall|i: int| 0 <= i < self.buckets@.len() implies #[trigger] is_prefix_form(
                self.buckets@[i]@,
            ) by {
                if i != index {
                    assert(self.buckets@[i] == t[i]);
                }
            }
        }
        self.size = self.size + current - previous;
    }

    /// Sets the LSA label of bucket `index` (LSA filters only).
    pub fn set_lsa_label(&mut self, index: usize, label: u64)
        requires
            old(self).wf(),
            old(self).policy_spec() == Policy::Lsa,
            index < old(self).bucket_count_spec(),
        ensures
            final(self).wf(),
            final(self).same_setup(old(self)),
            final(self).ranked_ready() == old(self).ranked_ready(),
            final(self).items() == old(self).items(),
            final(self).table_lanes() == old(self).table_lanes(),
            final(self).lsa_label_spec(index as int) == label,
            forall|i: int|
                #![trigger final(self).lsa_label_spec(i)]
                0 <= i < old(self).bucket_count_spec() && i != index
                    ==> final(self).lsa_label_spec(i) == old(self).lsa_label_spec(i),
    {
        self.lsa_labels.set(index, label);
    }

    /// Switches a dense rank-4 filter between its unprepared and ranked
    /// modes without re-encoding any bucket.
    pub fn set_dense_mode(&mut self, dense_mode: bool)
        requires
            old(self).wf(),
        ensures
            final(self).wf(),
            final(self).same_setup(old(self)),
            final(self).ranked_ready() == dense_mode,
            final(self).items() == old(self).items(),
            final(self).table_lanes() == old(self).table_lanes(),
    {
        self.dense_mode = dense_mode;
    }
}

/// A vector of `n` empty buckets.
fn empty_buckets(n: usize) -> (r: Vec<Bucket>)
    ensures
        r@.len() == n,
        forall|i: int| 0 <= i < n ==> #[trigger] r@[i]@ == seq![0u16, 0u16, 0u16, 0u16],
{
    let mut buckets: Vec<Bucket> = Vec::with_capacity(n);
    let mut i: usize = 0;
    while i < n
        invariant
            i <= n,
            buckets@.len() == i,
            forall|j: int| 0 <= j < i ==> #[trigger] buckets@[j]@ == seq![0u16, 0u16, 0u16, 0u16],
        decreases n - i,
    {
        buckets.push(Bucket::default());
        i += 1;
    }
    buckets
}

} // verus!
