//! Pure decision rules shared by the insertion policies: initial bucket
//! choice, victim choice and post-eviction ranks and labels.

use vstd::prelude::*;

verus! {

use crate::bucket::SLOTS;
use crate::config::PathActivation;
use crate::hash::{splitmix64, splitmix64_spec};

/// Bit of the key hash that breaks ties between the two candidate buckets
/// on direct placement.
pub open spec fn placement_bit(key_hash: u64) -> bool {
    (key_hash >> 32u64) & 1 == 1
}

/// Random placement: a hash bit picks between two buckets with room.
pub open spec fn random_destination_spec(
    first: u32,
    second: u32,
    first_occupancy: usize,
    second_occupancy: usize,
    key_hash: u64,
) -> u32 {
    if first_occupancy < 4 && second_occupancy < 4 {
        if placement_bit(key_hash) {
            first
        } else {
            second
        }
    } else if first_occupancy < 4 {
        first
    } else {
        second
    }
}

/// Chooses a destination among the buckets with room, by a hash bit.
pub fn random_destination(
    first: u32,
    second: u32,
    first_occupancy: usize,
    second_occupancy: usize,
    key_hash: u64,
) -> (r: u32)
    ensures
        r == random_destination_spec(first, second, first_occupancy, second_occupancy, key_hash),
{
    if first_occupancy < SLOTS && second_occupancy < SLOTS {
        if (key_hash >> 32) & 1 == 1 {
            first
        } else {
            second
        }
    } else if first_occupancy < SLOTS {
        first
    } else {
        second
    }
}

/// Chooses the less occupied bucket, the first one on ties.
pub fn better_choice_destination(
    first: u32,
    second: u32,
    first_occupancy: usize,
    second_occupancy: usize,
) -> (r: u32)
    ensures
        r == (if first_occupancy <= second_occupancy {
            first
        } else {
            second
        }),
{
    if first_occupancy <= second_occupancy {
        first
    } else {
        second
    }
}

/// Chooses the root with the smaller LSA label, the first one on ties.
pub fn lsa_root(first: u32, second: u32, first_label: u64, second_label: u64) -> (r: u32)
    ensures
        r == (if first_label <= second_label {
            first
        } else {
            second
        }),
{
    if first_label <= second_label {
        first
    } else {
        second
    }
}

/// Direct placement: the less occupied bucket with room, a hash bit on ties.
pub open spec fn direct_destination_spec(
    first: u32,
    second: u32,
    first_occupancy: usize,
    second_occupancy: usize,
    key_hash: u64,
) -> u32 {
    if first_occupancy < 4 && second_occupancy < 4 {
        if first_occupancy < second_occupancy {
            first
        } else if second_occupancy < first_occupancy {
            second
        } else if placement_bit(key_hash) {
            first
        } else {
            second
        }
    } else if first_occupancy < 4 {
        first
    } else {
        second
    }
}

/// Places into the less occupied bucket with room, breaking ties by a hash bit.
pub fn direct_destination(
    first: u32,
    second: u32,
    first_occupancy: usize,
    second_occupancy: usize,
    key_hash: u64,
) -> (r: u32)
    ensures
        r == direct_destination_spec(first, second, first_occupancy, second_occupancy, key_hash),
{
    if first_occupancy < SLOTS && second_occupancy < SLOTS {
        if first_occupancy < second_occupancy {
            first
        } else if second_occupancy < first_occupancy {
            second
        } else if (key_hash >> 32) & 1 == 1 {
            first
        } else {
            second
        }
    } else if first_occupancy < SLOTS {
        first
    } else {
        second
    }
}

/// The smaller of two integers.
pub open spec fn min_int(a: int, b: int) -> int {
    if a <= b {
        a
    } else {
        b
    }
}

/// The smallest of `predecessor` and the scores of all lanes but `victim`.
pub open spec fn residual_minimum(predecessor: int, scores: Seq<int>, victim: int) -> int {
    let s0 = if victim == 0 {
        predecessor
    } else {
        scores[0]
    };
    let s1 = if victim == 1 {
        predecessor
    } else {
        scores[1]
    };
    let s2 = if victim == 2 {
        predecessor
    } else {
        scores[2]
    };
    let s3 = if victim == 3 {
        predecessor
    } else {
        scores[3]
    };
    min_int(predecessor, min_int(min_int(s0, s1), min_int(s2, s3)))
}

/// Widens a score array for specification.
pub open spec fn label_scores(scores: Seq<u64>) -> Seq<int> {
    Seq::new(4, |i: int| scores[i] as int)
}

/// Widens a rank array for specification.
pub open spec fn rank_scores(scores: Seq<u8>) -> Seq<int> {
    Seq::new(4, |i: int| scores[i] as int)
}

/// LSA label of a bucket after an eviction: one more than the smallest
/// residual label.
pub open spec fn lsa_post_eviction_label_spec(
    predecessor_score: u64,
    scores: Seq<u64>,
    victim_slot: int,
) -> u64 {
    (residual_minimum(predecessor_score as int, label_scores(scores), victim_slot) + 1) as u64
}

/// Label of a bucket after evicting `victim_slot`: one more than the
/// smallest of the predecessor's label and the other lanes' scores. That
/// smallest label must be below `u64::MAX`: a label never overflows.
pub fn lsa_post_eviction_label(predecessor_score: u64, scores: [u64; SLOTS], victim_slot: usize) -> (r:
    u64)
    requires
        victim_slot < SLOTS,
        residual_minimum(predecessor_score as int, label_scores(scores@), victim_slot as int) < u64::MAX,
    ensures
        r == lsa_post_eviction_label_spec(predecessor_score, scores@, victim_slot as int),
{
    let mut best = predecessor_score;
    let mut slot: usize = 0;
    while slot < SLOTS
        invariant
            slot <= SLOTS,
            victim_slot < SLOTS,
            best == residual_minimum(
                predecessor_score as int,
                Seq::new(4, |i: int| if i < slot { scores@[i] as int } else { predecessor_score as int }),
                victim_slot as int,
            ),
        decreases SLOTS - slot,
    {
        if slot != victim_slot && scores[slot] < best {
            best = scores[slot];
        }
        slot += 1;
    }
    assert(Seq::new(4, |i: int| if i < 4 { scores@[i] as int } else { predecessor_score as int })
        =~= label_scores(scores@));
    best + 1
}

/// Requested rank after an eviction: one more than the smallest residual
/// rank, capped at `cap`.
pub open spec fn post_eviction_rank_spec(
    cap: u8,
    predecessor_rank: u8,
    scores: Seq<u8>,
    victim_slot: int,
) -> u8 {
    let best = residual_minimum(predecessor_rank as int, rank_scores(scores), victim_slot);
    min_int(cap as int, best + 1) as u8
}

/// Rank of a bucket after evicting `victim_slot`: the smallest of the
/// incoming edge's predecessor rank and the remaining lanes' target ranks,
/// plus one, capped at `cap`.
pub fn post_eviction_rank(cap: u8, predecessor_rank: u8, scores: [u8; SLOTS], victim_slot: usize) -> (r:
    u8)
    requires
        victim_slot < SLOTS,
        residual_minimum(predecessor_rank as int, rank_scores(scores@), victim_slot as int) < u8::MAX,
    ensures
        r == post_eviction_rank_spec(cap, predecessor_rank, scores@, victim_slot as int),
{
    let mut best = predecessor_rank;
    let mut slot: usize = 0;
    while slot < SLOTS
        invariant
            slot <= SLOTS,
            victim_slot < SLOTS,
            best == residual_minimum(
                predecessor_rank as int,
                Seq::new(4, |i: int| if i < slot { scores@[i] as int } else { predecessor_rank as int }),
                victim_slot as int,
            ),
        decreases SLOTS - slot,
    {
        if slot != victim_slot && scores[slot] < best {
            best = scores[slot];
        }
        slot += 1;
    }
    assert(Seq::new(4, |i: int| if i < 4 { scores@[i] as int } else { predecessor_rank as int })
        =~= rank_scores(scores@));
    let raised = best + 1;
    if cap < raised {
        cap
    } else {
        raised
    }
}

/// Tie-break key of the relocation edge `(neighbor, fingerprint)` seen from
/// `current_bucket` at relocation `step` while carrying `carry`.
pub open spec fn ranked_edge_key_spec(
    current_bucket: u32,
    step: u32,
    carry: u16,
    neighbor: u32,
    fingerprint: u16,
) -> (u64, u32, u16) {
    let edge = ((neighbor as u64) << 16u64) | (fingerprint as u64);
    let context = (((current_bucket as u64) << 32u64) | (step as u64)) ^ ((carry as u64)
        << 48u64);
    (splitmix64_spec(edge ^ splitmix64_spec(context)), neighbor, fingerprint)
}

/// Hashed tie-break key of one relocation edge.
pub fn ranked_edge_key(current_bucket: u32, step: u32, carry: u16, neighbor: u32, fingerprint: u16) -> (r:
    (u64, u32, u16))
    ensures
        r == ranked_edge_key_spec(current_bucket, step, carry, neighbor, fingerprint),
{
    let edge = ((neighbor as u64) << 16) | (fingerprint as u64);
    let context = (((current_bucket as u64) << 32) | (step as u64)) ^ ((carry as u64) << 48);
    (splitmix64(edge ^ splitmix64(context)), neighbor, fingerprint)
}

/// Lexicographic order of tie-break keys.
pub open spec fn key_less(a: (u64, u32, u16), b: (u64, u32, u16)) -> bool {
    a.0 < b.0 || (a.0 == b.0 && (a.1 < b.1 || (a.1 == b.1 && a.2 < b.2)))
}

/// Lexicographic order of `(score, key)` pairs.
pub open spec fn scored_less(sa: u8, a: (u64, u32, u16), sb: u8, b: (u64, u32, u16)) -> bool {
    sa < sb || (sa == sb && key_less(a, b))
}

fn key_less_exec(a: (u64, u32, u16), b: (u64, u32, u16)) -> (r: bool)
    ensures
        r == key_less(a, b),
{
    a.0 < b.0 || (a.0 == b.0 && (a.1 < b.1 || (a.1 == b.1 && a.2 < b.2)))
}

/// Picks the lane with the smallest `(score, tie key)`, the first such lane
/// on exact ties, and returns it with the tie keys of all four lanes.
pub fn ranked_victim_slot(
    current_bucket: u32,
    step: u32,
    carry: u16,
    residents: [u16; SLOTS],
    neighbors: [u32; SLOTS],
    scores: [u8; SLOTS],
) -> (r: (usize, [(u64, u32, u16); SLOTS]))
    ensures
        r.0 < SLOTS,
        forall|i: int|
            0 <= i < 4 ==> #[trigger] r.1@[i] == ranked_edge_key_spec(
                current_bucket,
                step,
                carry,
                neighbors@[i],
                residents@[i],
            ),
        forall|i: int|
            0 <= i < 4 ==> !scored_less(scores@[i], #[trigger] r.1@[i], scores@[r.0 as int], r.1@[r.0 as int]),
        forall|i: int|
            0 <= i < r.0 ==> scored_less(scores@[r.0 as int], r.1@[r.0 as int], scores@[i], #[trigger] r.1@[i]),
{
    let tie_keys = [
        ranked_edge_key(current_bucket, step, carry, neighbors[0], residents[0]),
        ranked_edge_key(current_bucket, step, carry, neighbors[1], residents[1]),
        ranked_edge_key(current_bucket, step, carry, neighbors[2], residents[2]),
        ranked_edge_key(current_bucket, step, carry, neighbors[3], residents[3]),
    ];
    let mut best: usize = 0;
    let mut slot: usize = 1;
    while slot < SLOTS
        invariant
            1 <= slot <= SLOTS,
            best < slot,
            forall|i: int| 0 <= i < slot ==> !scored_less(scores@[i], #[trigger] tie_keys@[i], scores@[best as int], tie_keys@[best as int]),
            forall|i: int| 0 <= i < best ==> scored_less(scores@[best as int], tie_keys@[best as int], scores@[i], #[trigger] tie_keys@[i]),
        decreases SLOTS - slot,
    {
        if scores[slot] < scores[best] || (scores[slot] == scores[best] && key_less_exec(
            tie_keys[slot],
            tie_keys[best],
        )) {
            best = slot;
        }
        slot += 1;
    }
    (best, tie_keys)
}

impl PathActivation {
    /// Whether the sketch should activate at relocation `step`, given the
    /// current bucket's rank and the smallest target rank.
    pub fn triggers(self, step: u32, current_rank: u8, min_target_rank: u8) -> (r: bool)
        ensures
            r == match self {
                PathActivation::After(threshold) => step >= threshold,
                PathActivation::NoDescent => min_target_rank >= current_rank,
                PathActivation::Rank4Plateau => current_rank == 4 && min_target_rank == 4,
            },
    {
        match self {
            PathActivation::After(threshold) => step >= threshold,
            PathActivation::NoDescent => min_target_rank >= current_rank,
            PathActivation::Rank4Plateau => current_rank == 4 && min_target_rank == 4,
        }
    }
}

} // verus!
