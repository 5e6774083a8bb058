//! Properties of the filter that relate several operations.

use vstd::prelude::*;

verus! {

use vstd::multiset::Multiset;
use crate::bucket::{holds, slot_multiset};
use crate::choice::scored_less;
use crate::filter::{CuckooFilter, insertion_outcome, is_kick_policy, rank_cap_spec};
use crate::config::{InsertStats, Policy, is_rank4, is_ranked};
use crate::path::PathSketch;

/// No false negatives: once an insertion succeeds, the item that stands for
/// the key is stored, so `contains` reports the key.
pub proof fn lemma_inserted_item_is_stored(
    before: Multiset<(u16, u32)>,
    after: Multiset<(u16, u32)>,
    item: (u16, u32),
    stats: InsertStats,
)
    requires
        insertion_outcome(before, after, item, stats),
        stats.inserted,
    ensures
        after.count(item) > 0,
{
}

/// An insertion that leaves the filter usable loses nothing: every item
/// stored before is still stored, so every key found before is still found.
pub proof fn lemma_usable_insertion_keeps_items(
    before: Multiset<(u16, u32)>,
    after: Multiset<(u16, u32)>,
    item: (u16, u32),
    stats: InsertStats,
    other: (u16, u32),
)
    requires
        insertion_outcome(before, after, item, stats),
        stats.filter_usable,
    ensures
        before.count(other) <= after.count(other),
{
}

/// Removing a key right after inserting it restores the stored items.
pub proof fn lemma_remove_undoes_insert(
    before: Multiset<(u16, u32)>,
    inserted: Multiset<(u16, u32)>,
    removed: Multiset<(u16, u32)>,
    item: (u16, u32),
    stats: InsertStats,
)
    requires
        insertion_outcome(before, inserted, item, stats),
        stats.inserted,
        removed == inserted.remove(item),
    ensures
        removed == before,
{
    assert(removed =~= before);
}

/// Reordering a bucket's fingerprints, as every rank encoding does, never
/// changes which fingerprints a lookup finds in it.
pub proof fn lemma_reordering_keeps_queries(s: Seq<u16>, t: Seq<u16>, fingerprint: u16)
    requires
        s.len() == 4,
        t.len() == 4,
        slot_multiset(s) == slot_multiset(t),
    ensures
        holds(s, fingerprint) == holds(t, fingerprint),
{
    assert(holds(s, fingerprint) == (slot_multiset(s).count(fingerprint) > 0));
    assert(holds(t, fingerprint) == (slot_multiset(t).count(fingerprint) > 0));
}

/// A filter never stores more fingerprints than it has slots.
pub proof fn lemma_len_within_capacity(filter: &CuckooFilter)
    requires
        filter.wf(),
    ensures
        filter.len_spec() <= 4 * filter.bucket_count_spec(),
{
    filter.lemma_len_bound();
}

/// Two path sketches of the same size that hold the same recorded bits
/// answer every query alike, whatever their reset modes.
pub proof fn lemma_sketch_queries_agree(a: &PathSketch, b: &PathSketch, bucket: u32)
    requires
        a.view_bits() == b.view_bits(),
        a.bit_count() == b.bit_count(),
    ensures
        a.contains_spec(bucket) == b.contains_spec(bucket),
{
    let (first, second) = crate::path::bit_positions_spec(bucket, a.bit_count());
    assert(a.live(first) == a.view_bits().contains(first));
    assert(b.live(first) == b.view_bits().contains(first));
    assert(a.live(second) == a.view_bits().contains(second));
    assert(b.live(second) == b.view_bits().contains(second));
}

/// The victim order is total on relocation edges: two lanes that neither
/// precedes have the same score and the same edge, so the chosen edge does
/// not depend on the order of the lanes.
pub proof fn lemma_victim_order_total(sa: u8, a: (u64, u32, u16), sb: u8, b: (u64, u32, u16))
    requires
        !scored_less(sa, a, sb, b),
        !scored_less(sb, b, sa, a),
    ensures
        sa == sb,
        a == b,
{
}

/// Exactly the three rank-4 policies use the rank-4 codec: CavityRank4,
/// CavityRank4Path and the dense one; every other policy is not counted.
pub proof fn law_rank4_policies(policy: Policy)
    ensures
        is_rank4(policy) <==> (policy == Policy::CavityRank4 || policy == Policy::CavityRank4Path
            || policy == Policy::DenseCavityRank4),
{
}

/// The ranked policies are exactly the four cavity encodings, the path
/// variant and the dense one; the other six keep no ranks.
pub proof fn law_ranked_policies(policy: Policy)
    ensures
        is_ranked(policy) <==> (policy == Policy::CavityD4 || policy == Policy::CavityScan || policy
            == Policy::CavityBit || policy == Policy::CavityRank4 || policy == Policy::CavityRank4Path || policy
            == Policy::DenseCavityRank4),
{
}

/// Bounded kicks relocate for Random, BetterChoice, Rotor, EvictionLabel,
/// LSA and the dense filter before preparation; never for the other
/// ranked policies or breadth-first search.
pub proof fn law_kick_policies(policy: Policy)
    ensures
        is_kick_policy(policy) <==> (policy == Policy::Random || policy == Policy::BetterChoice || policy
            == Policy::Rotor || policy == Policy::EvictionLabel || policy == Policy::Lsa || policy
            == Policy::DenseCavityRank4),
{
}

/// Rank caps: two for the pair encodings, four for the rank-4 ones and
/// eight for the orientation baseline.
pub proof fn law_rank_caps()
    ensures
        rank_cap_spec(Policy::CavityScan) == 2,
        rank_cap_spec(Policy::CavityBit) == 2,
        rank_cap_spec(Policy::CavityRank4) == 4,
        rank_cap_spec(Policy::CavityRank4Path) == 4,
        rank_cap_spec(Policy::DenseCavityRank4) == 4,
        rank_cap_spec(Policy::CavityD4) == 8,
{
}

} // verus!
