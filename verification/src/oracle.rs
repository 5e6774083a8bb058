//! Exact capacity-four orientation of paired bucket endpoints: the largest
//! prefix of an item sequence that fits when every item occupies one of
//! four slots in one of its two buckets.

use vstd::prelude::*;

verus! {

use std::collections::VecDeque;
use vstd::set::Set;
use crate::filter::{is_power_of_two, seen_count, lemma_seen_count_mark, lemma_seen_count_bound, lemma_seen_count_fresh};
use crate::hash::{fingerprint_delta, fingerprint_delta_spec, splitmix64, splitmix64_spec, is_low_mask, lemma_alt_index};
use crate::names::{decimal_chars, decimal_text};
use vstd::string::StringExecFns;

/// Slots per bucket.
pub const CAPACITY: usize = 4;
/// Marker of an empty slot and of a missing parent.
pub const EMPTY: usize = usize::MAX;
/// Salt mixed into the seed of the item stream.
pub const BUILD_KEY_SALT: u64 = 0x1234_5678_9abc_def0;
/// Salt mixed into each item state before it is hashed.
pub const ITEM_HASH_SALT: u64 = 0xa076_1d64_78bd_642f;
/// Salt of the independently hashed second endpoint.
pub const INDEPENDENT_SECOND_SALT: u64 = 0xe703_7ed1_a0b4_28db;

/// Endpoint-pair construction used by oracle experiments.
#[derive(Clone, Copy, Debug, PartialEq, Eq, Structural)]
pub enum GraphModel {
    /// Hashes the second endpoint independently and forces it to differ from
    /// the first.
    Independent,
    /// Derives the second endpoint by XORing the first with the fingerprint
    /// delta.
    Xor16,
}

/// One graph edge with two candidate buckets and its packed-filter fingerprint.
#[derive(Clone, Copy, Debug, PartialEq, Eq, Structural)]
pub struct Item {
    /// First candidate bucket.
    pub first: u32,
    /// Second candidate bucket.
    pub second: u32,
    /// Nonzero 16-bit fingerprint.
    pub fingerprint: u16,
}

/// Invalid oracle dimensions or endpoints.
#[derive(Clone, Copy, Debug, PartialEq, Eq, Structural)]
pub enum OracleError {
    /// The bucket count is invalid for the requested operation.
    BucketCount,
    /// An item endpoint lies outside the configured table.
    EndpointOutOfRange {
        /// Invalid endpoint.
        endpoint: u32,
        /// Configured number of buckets.
        bucket_count: usize,
    },
}

/// Message of an oracle error.
pub open spec fn oracle_error_message(error: OracleError) -> Seq<char> {
    match error {
        OracleError::BucketCount => "bucket count must be nonzero and addressable by a 32-bit bucket index"@,
        OracleError::EndpointOutOfRange { endpoint, bucket_count } => "bucket endpoint "@ + decimal_chars(
            endpoint as nat,
        ) + " is outside a "@ + decimal_chars(bucket_count as nat) + "-bucket table"@,
    }
}

impl OracleError {
    /// The error's message.
    pub fn message(self) -> (r: String)
        ensures
            r@ == oracle_error_message(self),
    {
        match self {
            OracleError::BucketCount => String::from_str(
                "bucket count must be nonzero and addressable by a 32-bit bucket index",
            ),
            OracleError::EndpointOutOfRange { endpoint, bucket_count } => {
                let endpoint_text = decimal_text(endpoint as u64);
                let count_text = decimal_text(bucket_count as u64);
                String::from_str("bucket endpoint ").concat(endpoint_text.as_str()).concat(
                    " is outside a ",
                ).concat(count_text.as_str()).concat("-bucket table")
            },
        }
    }
}

/// Whether `b` is one of the item's two buckets.
pub open spec fn is_endpoint(item: Item, b: int) -> bool {
    item.first as int == b || item.second as int == b
}

/// Both endpoints of the item lie in a table of `n` buckets.
pub open spec fn item_in_range(item: Item, n: int) -> bool {
    item.first < n && item.second < n
}

/// An assignment of one distinct `(bucket, slot)` pair to each item, with
/// the bucket one of the item's endpoints and the slot one of four.
pub open spec fn is_orientation(items: Seq<Item>, slots: Seq<(int, int)>) -> bool {
    &&& slots.len() == items.len()
    &&& forall|i: int|
        0 <= i < items.len() ==> is_endpoint(items[i], (#[trigger] slots[i]).0) && 0 <= slots[i].1 < 4
    &&& forall|i: int, j: int| 0 <= i < j < items.len() ==> #[trigger] slots[i] != #[trigger] slots[j]
}

/// The items fit: every item can take its own slot in one of its buckets.
pub open spec fn feasible(items: Seq<Item>) -> bool {
    exists|slots: Seq<(int, int)>| is_orientation(items, slots)
}

/// The bucket-count rule of the oracle: nonzero and addressable by a
/// 32-bit bucket index.
pub open spec fn valid_bucket_count(bucket_count: usize) -> bool {
    bucket_count != 0 && bucket_count - 1 <= u32::MAX
}

/// The error for an item with an endpoint outside the table, first
/// endpoint first.
pub open spec fn item_error(bucket_count: usize, item: Item) -> Option<OracleError> {
    if item.first as int >= bucket_count {
        Some(OracleError::EndpointOutOfRange { endpoint: item.first, bucket_count })
    } else if item.second as int >= bucket_count {
        Some(OracleError::EndpointOutOfRange { endpoint: item.second, bucket_count })
    } else {
        None
    }
}

/// State of the item stream before item `k` is drawn.
pub open spec fn stream_state(seed: u64, k: nat) -> u64
    decreases k,
{
    if k == 0 {
        splitmix64_spec(seed ^ BUILD_KEY_SALT)
    } else {
        splitmix64_spec(stream_state(seed, (k - 1) as nat))
    }
}

/// The item drawn from stream state `state` (after advancing it).
pub open spec fn drawn_item(mask: u32, state: u64, graph: GraphModel) -> Item {
    let hash = splitmix64_spec(state ^ ITEM_HASH_SALT);
    let raw = (hash >> 48u64) as u16;
    let fingerprint: u16 = if raw < 1 {
        1
    } else {
        raw
    };
    let first = (hash as u32) & mask;
    let second = match graph {
        GraphModel::Independent => {
            let candidate = (splitmix64_spec(state ^ INDEPENDENT_SECOND_SALT) as u32) & mask;
            if candidate == first {
                (vstd::wrapping::u32_specs::wrapping_add(first, 1u32)) & mask
            } else {
                candidate
            }
        },
        GraphModel::Xor16 => first ^ fingerprint_delta_spec(mask, fingerprint),
    };
    Item { first, second, fingerprint }
}

/// Item `k` of the stream for `seed`.
pub open spec fn generated_item(mask: u32, seed: u64, graph: GraphModel, k: nat) -> Item {
    drawn_item(mask, stream_state(seed, k + 1), graph)
}

/// Every drawn item has a nonzero fingerprint and both endpoints in the
/// table; the independent model never draws a loop.
pub proof fn lemma_drawn_item(mask: u32, state: u64, graph: GraphModel)
    requires
        is_low_mask(mask),
        mask >= 1,
    ensures
        drawn_item(mask, state, graph).fingerprint != 0,
        item_in_range(drawn_item(mask, state, graph), mask as int + 1),
        graph == GraphModel::Independent ==> drawn_item(mask, state, graph).first != drawn_item(
            mask,
            state,
            graph,
        ).second,
{
    let item = drawn_item(mask, state, graph);
    let hash = splitmix64_spec(state ^ ITEM_HASH_SALT);
    let first = (hash as u32) & mask;
    assert(first <= mask) by (bit_vector)
        requires
            first == (hash as u32) & mask,
    ;
    match graph {
        GraphModel::Independent => {
            let second_hash = splitmix64_spec(state ^ INDEPENDENT_SECOND_SALT);
            let candidate = (second_hash as u32) & mask;
            assert(candidate <= mask) by (bit_vector)
                requires
                    candidate == (second_hash as u32) & mask,
            ;
            let bumped = (vstd::wrapping::u32_specs::wrapping_add(first, 1u32)) & mask;
            assert(bumped == ((first as u64 + 1) % 0x1_0000_0000int) as u32 & mask);
            assert(bumped <= mask && bumped != first) by (bit_vector)
                requires
                    bumped == ((first as u64 + 1) % 0x1_0000_0000int) as u32 & mask,
                    first <= mask,
                    mask >= 1,
                    ((mask as u64) & ((mask as u64 + 1) as u64)) == 0,
            ;
        },
        GraphModel::Xor16 => {
            lemma_alt_index(mask, first, item.fingerprint);
        },
    }
}

/// Generates deterministic nonzero fingerprints and endpoint pairs.
///
/// `bucket_count` must be a power of two in `2..=2^32`.
pub fn generate_items(bucket_count: usize, count: usize, seed: u64, graph: GraphModel) -> (r: Result<
    Vec<Item>,
    OracleError,
>)
    ensures
        match r {
            Ok(items) => {
                &&& bucket_count >= 2 && is_power_of_two(bucket_count) && bucket_count - 1 <= u32::MAX
                &&& items@.len() == count
                &&& forall|k: int|
                    0 <= k < count ==> #[trigger] items@[k] == generated_item(
                        (bucket_count - 1) as u32,
                        seed,
                        graph,
                        k as nat,
                    )
                &&& forall|k: int|
                    0 <= k < count ==> item_in_range(#[trigger] items@[k], bucket_count as int)
                        && items@[k].fingerprint != 0 && (graph == GraphModel::Independent
                        ==> items@[k].first != items@[k].second)
            },
            Err(error) => {
                &&& error == OracleError::BucketCount
                &&& !(bucket_count >= 2 && is_power_of_two(bucket_count) && bucket_count - 1
                    <= u32::MAX)
            },
        },
{
    if bucket_count < 2 || bucket_count & (bucket_count - 1) != 0 || bucket_count - 1 > u32::MAX as usize {
        return Err(OracleError::BucketCount);
    }
    let mask = (bucket_count - 1) as u32;
    let mut state = splitmix64(seed ^ BUILD_KEY_SALT);
    let mut items: Vec<Item> = Vec::with_capacity(count);
    let mut k: usize = 0;
    while k < count
        invariant
            k <= count,
            items@.len() == k,
            state == stream_state(seed, k as nat),
            mask == (bucket_count - 1) as u32,
            forall|j: int|
                0 <= j < k ==> #[trigger] items@[j] == generated_item(mask, seed, graph, j as nat),
        decreases count - k,
    {
        state = splitmix64(state);
        let hash = splitmix64(state ^ ITEM_HASH_SALT);
        let raw = (hash >> 48) as u16;
        let fingerprint: u16 = if raw < 1 {
            1
        } else {
            raw
        };
        let first = (hash as u32) & mask;
        let second = match graph {
            GraphModel::Independent => {
                let candidate = (splitmix64(state ^ INDEPENDENT_SECOND_SALT) as u32) & mask;
                if candidate == first {
                    first.wrapping_add(1) & mask
                } else {
                    candidate
                }
            },
            GraphModel::Xor16 => first ^ fingerprint_delta(mask, fingerprint),
        };
        items.push(Item { first, second, fingerprint });
        k += 1;
    }
    proof {
        assert(((mask as u64) & ((mask as u64 + 1) as u64)) == 0) by (bit_vector)
            requires
                bucket_count & ((bucket_count - 1) as usize) == 0,
                bucket_count >= 2,
                bucket_count - 1 <= 0xffff_ffff,
                mask == (bucket_count - 1) as u32,
        ;
        assert forall|k: int| 0 <= k < count implies item_in_range(#[trigger] items@[k], bucket_count as int)
            && items@[k].fingerprint != 0 && (graph == GraphModel::Independent ==> items@[k].first
            != items@[k].second) by {
            lemma_drawn_item(mask, stream_state(seed, (k + 1) as nat), graph);
        }
    }
    Ok(items)
}

/// Position of the first empty slot of a bucket with one.
pub open spec fn first_empty(s: Seq<usize>) -> int {
    if s[0] == EMPTY {
        0
    } else if s[1] == EMPTY {
        1
    } else if s[2] == EMPTY {
        2
    } else {
        3
    }
}

/// Whether a bucket has an empty slot.
pub open spec fn has_empty(s: Seq<usize>) -> bool {
    s[0] == EMPTY || s[1] == EMPTY || s[2] == EMPTY || s[3] == EMPTY
}

/// Position of the first slot holding `item`.
pub open spec fn first_index(s: Seq<usize>, item: usize) -> int {
    if s[0] == item {
        0
    } else if s[1] == item {
        1
    } else if s[2] == item {
        2
    } else {
        3
    }
}

/// Whether a bucket holds `item`.
pub open spec fn holds_item(s: Seq<usize>, item: usize) -> bool {
    s[0] == item || s[1] == item || s[2] == item || s[3] == item
}

/// Writes `item` into the first empty slot, if there is one.
fn append(bucket: &mut [usize; CAPACITY], item: usize) -> (r: bool)
    ensures
        r == has_empty(old(bucket)@),
        r ==> final(bucket)@ == old(bucket)@.update(first_empty(old(bucket)@), item),
        !r ==> final(bucket)@ == old(bucket)@,
{
    let mut slot: usize = 0;
    while slot < CAPACITY
        invariant
            slot <= CAPACITY,
            bucket@ == old(bucket)@,
            forall|k: int| 0 <= k < slot ==> bucket@[k] != EMPTY,
        decreases CAPACITY - slot,
    {
        if bucket[slot] == EMPTY {
            bucket[slot] = item;
            return true;
        }
        slot += 1;
    }
    false
}

/// Removes the first slot holding `item`, shifting the later slots down
/// and emptying the last one.
fn remove(bucket: &mut [usize; CAPACITY], item: usize)
    requires
        holds_item(old(bucket)@, item),
    ensures
        final(bucket)@ == old(bucket)@.remove(first_index(old(bucket)@, item)).push(EMPTY),
{
    let ghost s = bucket@;
    let mut position: usize = 0;
    while bucket[position] != item
        invariant
            position < CAPACITY,
            bucket@ == s,
            holds_item(s, item),
            forall|k: int| 0 <= k < position ==> s[k] != item,
        decreases CAPACITY - position,
    {
        position += 1;
    }
    let mut k = position;
    while k + 1 < CAPACITY
        invariant
            position <= k < CAPACITY,
            position == first_index(s, item),
            bucket@.len() == 4,
            forall|j: int| 0 <= j < position ==> bucket@[j] == s[j],
            forall|j: int| position <= j < k ==> bucket@[j] == s[j + 1],
            forall|j: int| k <= j < 4 ==> bucket@[j] == s[j],
        decreases CAPACITY - k,
    {
        bucket[k] = bucket[k + 1];
        k += 1;
    }
    bucket[CAPACITY - 1] = EMPTY;
    assert(bucket@ =~= s.remove(position as int).push(EMPTY));
}

/// Whether every slot of a bucket is occupied.
fn is_full(bucket: &[usize; CAPACITY]) -> (r: bool)
    ensures
        r == (bucket@[3] != EMPTY),
{
    bucket[CAPACITY - 1] != EMPTY
}

/// The endpoint of `item` other than `bucket`.
fn other(item: Item, bucket: usize) -> (r: usize)
    ensures
        r == (if item.first as int == bucket {
            item.second as usize
        } else {
            item.first as usize
        }),
{
    if item.first as usize == bucket {
        item.second as usize
    } else {
        item.first as usize
    }
}

/// Checks the bucket-count rule.
fn validate_bucket_count(bucket_count: usize) -> (r: Result<(), OracleError>)
    ensures
        r is Ok == valid_bucket_count(bucket_count),
        r is Err ==> r == Err::<(), OracleError>(OracleError::BucketCount),
{
    if bucket_count == 0 || bucket_count - 1 > u32::MAX as usize {
        Err(OracleError::BucketCount)
    } else {
        Ok(())
    }
}

/// Checks that both endpoints lie in the table.
fn validate_item(bucket_count: usize, item: Item) -> (r: Result<(), OracleError>)
    ensures
        match item_error(bucket_count, item) {
            Some(error) => r == Err::<(), OracleError>(error),
            None => r is Ok,
        },
{
    if item.first as usize >= bucket_count {
        return Err(OracleError::EndpointOutOfRange { endpoint: item.first, bucket_count });
    }
    if item.second as usize >= bucket_count {
        return Err(OracleError::EndpointOutOfRange { endpoint: item.second, bucket_count });
    }
    Ok(())
}

/// A bucket's slots: occupied slots first, each holding an item index of
/// `items` that has this bucket as an endpoint.
pub open spec fn bucket_ok(s: Seq<usize>, b: int, items: Seq<Item>) -> bool {
    &&& s.len() == 4
    &&& (s[0] == EMPTY ==> s[1] == EMPTY)
    &&& (s[1] == EMPTY ==> s[2] == EMPTY)
    &&& (s[2] == EMPTY ==> s[3] == EMPTY)
    &&& forall|k: int|
        0 <= k < 4 && #[trigger] s[k] != EMPTY ==> s[k] < items.len() && is_endpoint(items[s[k] as int], b)
}

/// Item `i` sits in some slot of the table.
pub open spec fn placed(t: Seq<[usize; CAPACITY]>, i: int) -> bool {
    exists|b: int, k: int| 0 <= b < t.len() && 0 <= k < 4 && #[trigger] t[b]@[k] == i
}

/// No item sits in two slots.
pub open spec fn unique_slots(t: Seq<[usize; CAPACITY]>) -> bool {
    forall|b1: int, k1: int, b2: int, k2: int|
        0 <= b1 < t.len() && 0 <= k1 < 4 && 0 <= b2 < t.len() && 0 <= k2 < 4 && #[trigger] t[b1]@[k1]
            == #[trigger] t[b2]@[k2] && t[b1]@[k1] != EMPTY ==> b1 == b2 && k1 == k2
}

/// Maintains an exact capacity-four assignment by augmenting the current
/// orientation for each inserted endpoint pair.
#[derive(Debug)]
pub struct ExactOracle {
    buckets: Vec<[usize; CAPACITY]>,
    items: Vec<Item>,
    seen: Vec<u32>,
    parent_bucket: Vec<usize>,
    parent_item: Vec<usize>,
    queue: VecDeque<usize>,
    generation: u32,
}

impl ExactOracle {
    /// The accepted items, in insertion order.
    pub closed spec fn accepted(&self) -> Seq<Item> {
        self.items@
    }

    /// Number of buckets.
    pub closed spec fn bucket_count_spec(&self) -> nat {
        self.buckets@.len()
    }

    /// Internal consistency: every accepted item sits in exactly one slot
    /// of one of its buckets.
    pub closed spec fn wf(&self) -> bool {
        let n = self.buckets@.len();
        &&& valid_bucket_count(n as usize)
        &&& n <= usize::MAX
        &&& self.items@.len() < usize::MAX
        &&& self.seen@.len() == n
        &&& self.parent_bucket@.len() == n
        &&& self.parent_item@.len() == n
        &&& forall|v: int| 0 <= v < n ==> #[trigger] self.seen@[v] <= self.generation
        &&& forall|i: int| 0 <= i < self.items@.len() ==> item_in_range(#[trigger] self.items@[i], n as int)
        &&& forall|b: int| 0 <= b < n ==> bucket_ok(#[trigger] self.buckets@[b]@, b, self.items@)
        &&& forall|i: int| 0 <= i < self.items@.len() ==> #[trigger] placed(self.buckets@, i)
        &&& unique_slots(self.buckets@)
    }

    /// Creates an empty oracle for `bucket_count` capacity-four buckets.
    pub fn new(bucket_count: usize) -> (r: Result<ExactOracle, OracleError>)
        ensures
            match r {
                Ok(oracle) => {
                    &&& valid_bucket_count(bucket_count)
                    &&& oracle.wf()
                    &&& oracle.accepted() == Seq::<Item>::empty()
                    &&& oracle.bucket_count_spec() == bucket_count
                },
                Err(error) => !valid_bucket_count(bucket_count) && error == OracleError::BucketCount,
            },
    {
        match validate_bucket_count(bucket_count) {
            Err(error) => Err(error),
            Ok(()) => {
                let oracle = ExactOracle {
                    buckets: vec![[EMPTY; CAPACITY]; bucket_count],
                    items: Vec::new(),
                    seen: vec![0u32; bucket_count],
                    parent_bucket: vec![EMPTY; bucket_count],
                    parent_item: vec![EMPTY; bucket_count],
                    queue: VecDeque::new(),
                    generation: 0,
                };
                proof {
                    assert forall|b: int| 0 <= b < bucket_count implies bucket_ok(
                        #[trigger] oracle.buckets@[b]@,
                        b,
                        oracle.items@,
                    ) by {
                        assert(oracle.buckets@[b] == [EMPTY; CAPACITY]);
                    }
                    assert forall|b1: int, k1: int, b2: int, k2: int|
                        0 <= b1 < bucket_count && 0 <= k1 < 4 && 0 <= b2 < bucket_count && 0 <= k2 < 4
                            && #[trigger] oracle.buckets@[b1]@[k1] == #[trigger] oracle.buckets@[b2]@[k2]
                            && oracle.buckets@[b1]@[k1] != EMPTY implies b1 == b2 && k1 == k2 by {
                        assert(oracle.buckets@[b1] == [EMPTY; CAPACITY]);
                    }
                }
                Ok(oracle)
            },
        }
    }

    /// Returns the number of feasible items currently assigned.
    pub fn len(&self) -> (r: usize)
        ensures
            r == self.accepted().len(),
    {
        self.items.len()
    }

    /// Returns whether no items have been assigned.
    pub fn is_empty(&self) -> (r: bool)
        ensures
            r == (self.accepted().len() == 0),
    {
        self.items.len() == 0
    }

    /// Starts a new search generation; no bucket is marked in it yet.
    fn next_generation(&mut self)
        requires
            forall|v: int| 0 <= v < old(self).seen@.len() ==> #[trigger] old(self).seen@[v] <= old(self).generation,
        ensures
            final(self).buckets == old(self).buckets,
            final(self).items == old(self).items,
            final(self).parent_bucket == old(self).parent_bucket,
            final(self).parent_item == old(self).parent_item,
            final(self).queue == old(self).queue,
            final(self).seen@.len() == old(self).seen@.len(),
            final(self).generation >= 1,
            forall|v: int| 0 <= v < final(self).seen@.len() ==> #[trigger] final(self).seen@[v] < final(self).generation,
    {
        self.generation = self.generation.wrapping_add(1);
        if self.generation == 0 {
            let count = self.seen.len();
            let mut i: usize = 0;
            while i < count
                invariant
                    count == self.seen@.len(),
                    i <= count,
                    forall|v: int| 0 <= v < i ==> #[trigger] self.seen@[v] == 0,
                    self.buckets == old(self).buckets,
                    self.items == old(self).items,
                    self.parent_bucket == old(self).parent_bucket,
                    self.parent_item == old(self).parent_item,
                    self.queue == old(self).queue,
                    self.seen@.len() == old(self).seen@.len(),
                decreases count - i,
            {
                self.seen.set(i, 0);
                i += 1;
            }
            self.generation = 1;
        }
    }
}

/// The endpoint of `item` other than `b`.
pub open spec fn other_spec(item: Item, b: int) -> int {
    if item.first as int == b {
        item.second as int
    } else {
        item.first as int
    }
}

/// A bucket marked in generation `g` of an augmenting-path search: either
/// one of the two roots, or reached from a marked parent through the other
/// endpoint of an item in the parent's slots, one level deeper.
pub open spec fn search_node(
    seen: Seq<u32>,
    parent_bucket: Seq<usize>,
    parent_item: Seq<usize>,
    depth: Seq<int>,
    t: Seq<[usize; CAPACITY]>,
    items: Seq<Item>,
    first: int,
    second: int,
    g: u32,
    v: int,
) -> bool {
    let p = parent_bucket[v];
    let r = parent_item[v];
    &&& depth[v] >= 0
    &&& ((p == EMPTY && depth[v] == 0 && (v == first || v == second)) || (p < t.len() && seen[p as int]
        == g && depth[v] == depth[p as int] + 1 && r != EMPTY && r < items.len() && holds_item(
        t[p as int]@,
        r,
    ) && v == other_spec(items[r as int], p as int)))
}

/// Moving item `r` from bucket `src` to the first empty slot of bucket
/// `dst` keeps every other item where it was (up to a shift within `src`),
/// puts `r` in `dst`, and keeps slots unique.
proof fn lemma_move(
    t: Seq<[usize; CAPACITY]>,
    src: int,
    dst: int,
    r: usize,
    new_src: [usize; CAPACITY],
    new_dst: [usize; CAPACITY],
    absent: usize,
)
    requires
        absent != r,
        forall|b: int, k: int| 0 <= b < t.len() && 0 <= k < 4 ==> #[trigger] t[b]@[k] != absent,
        unique_slots(t),
        0 <= src < t.len(),
        0 <= dst < t.len(),
        src != dst,
        r != EMPTY,
        holds_item(t[src]@, r),
        has_empty(t[dst]@),
        t[dst]@.len() == 4,
        t[src]@.len() == 4,
        new_dst@ == t[dst]@.update(first_empty(t[dst]@), r),
        new_src@ == t[src]@.remove(first_index(t[src]@, r)).push(EMPTY),
    ensures
        unique_slots(t.update(dst, new_dst).update(src, new_src)),
        forall|i: int| i != EMPTY && #[trigger] placed(t, i) ==> placed(t.update(dst, new_dst).update(src, new_src), i),
        forall|b: int, k: int|
            0 <= b < t.len() && 0 <= k < 4 ==> #[trigger] t.update(dst, new_dst).update(src, new_src)[b]@[k]
                != absent,
{
    let u = t.update(dst, new_dst).update(src, new_src);
    let p = first_index(t[src]@, r);
    let e = first_empty(t[dst]@);
    // Where a slot of the new table came from.
    assert forall|b: int, k: int| 0 <= b < t.len() && 0 <= k < 4 && b != src && b != dst implies #[trigger] u[b]@[k] == t[b]@[k] by {}
    assert forall|k: int| 0 <= k < 4 && k != e implies #[trigger] u[dst]@[k] == t[dst]@[k] by {}
    assert(u[dst]@[e] == r);
    assert forall|k: int| 0 <= k < 3 implies #[trigger] u[src]@[k] == (if k < p { t[src]@[k] } else { t[src]@[k + 1] }) by {}
    assert(u[src]@[3] == EMPTY);
    assert(t[src]@[p] == r);
    assert(t[dst]@[e] == EMPTY);
    assert forall|i: int| i != EMPTY && #[trigger] placed(t, i) implies placed(u, i) by {
        let (b, k) = choose|b: int, k: int| 0 <= b < t.len() && 0 <= k < 4 && #[trigger] t[b]@[k] == i;
        if i == r as int {
            assert(u[dst]@[e] == i);
        } else if b == src {
            if k < p {
                assert(u[src]@[k] == i);
            } else {
                assert(k != p);
                assert(u[src]@[k - 1] == i);
            }
        } else if b == dst {
            assert(k != e);
            assert(u[dst]@[k] == i);
        } else {
            assert(u[b]@[k] == i);
        }
    }
    {
        let x = absent;
        assert forall|b: int, k: int| 0 <= b < t.len() && 0 <= k < 4 implies #[trigger] u[b]@[k] != x by {
            if b == src {
                if k < 3 {
                    if k < p {
                        assert(u[src]@[k] == t[src]@[k]);
                    } else {
                        assert(u[src]@[k] == t[src]@[k + 1]);
                    }
                }
            } else if b == dst {
                if k != e {
                    assert(u[dst]@[k] == t[dst]@[k]);
                }
            } else {
                assert(u[b]@[k] == t[b]@[k]);
            }
        }
    }
    // Uniqueness: map every occupied new slot to an old slot, injectively.
    assert forall|b1: int, k1: int, b2: int, k2: int|
        0 <= b1 < u.len() && 0 <= k1 < 4 && 0 <= b2 < u.len() && 0 <= k2 < 4 && #[trigger] u[b1]@[k1]
            == #[trigger] u[b2]@[k2] && u[b1]@[k1] != EMPTY implies b1 == b2 && k1 == k2 by {
        let x = u[b1]@[k1];
        // old position of a new slot
        let o1: (int, int) = if b1 == src {
            (src, if k1 < p { k1 } else { k1 + 1 })
        } else if b1 == dst && k1 == e {
            (src, p)
        } else {
            (b1, k1)
        };
        let o2: (int, int) = if b2 == src {
            (src, if k2 < p { k2 } else { k2 + 1 })
        } else if b2 == dst && k2 == e {
            (src, p)
        } else {
            (b2, k2)
        };
        if b1 == src {
            assert(k1 < 3);
        }
        if b2 == src {
            assert(k2 < 3);
        }
        assert(t[o1.0]@[o1.1] == x);
        assert(t[o2.0]@[o2.1] == x);
        assert(o1 == o2);
    }
}

/// Moving `r` out of `src` and into the first empty slot of `dst` keeps
/// both buckets consistent when `dst` is the other endpoint of `r`.
proof fn lemma_moved_buckets_ok(
    src_before: Seq<usize>,
    src_after: Seq<usize>,
    dst_before: Seq<usize>,
    dst_after: Seq<usize>,
    src: int,
    dst: int,
    r: usize,
    items: Seq<Item>,
)
    requires
        bucket_ok(src_before, src, items),
        bucket_ok(dst_before, dst, items),
        holds_item(src_before, r),
        r != EMPTY,
        r < items.len(),
        is_endpoint(items[r as int], dst),
        dst_before[3] == EMPTY,
        dst_after == dst_before.update(first_empty(dst_before), r),
        src_after == src_before.remove(first_index(src_before, r)).push(EMPTY),
    ensures
        bucket_ok(src_after, src, items),
        bucket_ok(dst_after, dst, items),
{
    let p = first_index(src_before, r);
    assert(src_before[p] == r);
    assert forall|k: int| 0 <= k < 3 implies #[trigger] src_after[k] == (if k < p { src_before[k] } else { src_before[k + 1] }) by {}
    assert(src_after[3] == EMPTY);
    assert forall|k: int| 0 <= k < 4 && #[trigger] src_after[k] != EMPTY implies src_after[k] < items.len() && is_endpoint(items[src_after[k] as int], src) by {
        if k < p {
            assert(src_before[k] != EMPTY);
        } else {
            assert(src_before[k + 1] != EMPTY);
        }
    }
    let e = first_empty(dst_before);
    assert forall|k: int| 0 <= k < 4 && #[trigger] dst_after[k] != EMPTY implies dst_after[k] < items.len() && is_endpoint(items[dst_after[k] as int], dst) by {
        if k != e {
            assert(dst_before[k] != EMPTY);
        }
    }
}

/// Every item in the slots of bucket `v` has its other endpoint marked.
pub open spec fn closed_bucket(seen: Seq<u32>, t: Seq<[usize; CAPACITY]>, items: Seq<Item>, g: u32, v: int) -> bool {
    forall|k: int| 0 <= k < 4 ==> seen[#[trigger] other_spec(items[t[v]@[k] as int], v)] == g
}

/// A marked set of full buckets that is closed under moving an item to its
/// other endpoint, and that holds both endpoints of one more item, proves
/// that the items do not fit: the marked buckets' slots are all taken by
/// items that cannot leave the set, and the extra item needs one more.
proof fn lemma_no_room(
    t: Seq<[usize; CAPACITY]>,
    items: Seq<Item>,
    seen: Seq<u32>,
    g: u32,
    extra: int,
)
    requires
        seen.len() == t.len(),
        items.len() == extra + 1,
        extra < usize::MAX,
        forall|c: int| 0 <= c < t.len() ==> bucket_ok(#[trigger] t[c]@, c, items),
        forall|i: int| 0 <= i < items.len() ==> item_in_range(#[trigger] items[i], t.len() as int),
        unique_slots(t),
        forall|b: int, k: int| 0 <= b < t.len() && 0 <= k < 4 ==> #[trigger] t[b]@[k] != extra,
        items[extra].first < t.len(),
        items[extra].second < t.len(),
        seen[items[extra].first as int] == g,
        seen[items[extra].second as int] == g,
        forall|v: int| 0 <= v < t.len() && #[trigger] seen[v] == g ==> t[v]@[3] != EMPTY && closed_bucket(seen, t, items, g, v),
    ensures
        !feasible(items),
{
    let n = t.len() as int;
    let marked = Set::new(|v: int| 0 <= v < n && seen[v] == g);
    let slot_set = Set::new(|s: int| 0 <= s < 4 * n && seen[s / 4] == g);
    let lane_of = |s: int| t[s / 4]@[s % 4] as int;
    let held = slot_set.map(lane_of);
    let all = held.insert(extra);
    vstd::set_lib::lemma_int_range(0, 4 * n);
    assert(slot_set.subset_of(vstd::set_lib::set_int_range(0, 4 * n)));
    vstd::set_lib::lemma_len_subset(slot_set, vstd::set_lib::set_int_range(0, 4 * n));
    // Slots of marked buckets hold distinct items.
    assert forall|s1: int, s2: int| slot_set.contains(s1) && slot_set.contains(s2) && #[trigger] lane_of(s1) == #[trigger] lane_of(s2) implies s1 == s2 by {
        let (b1, k1) = (s1 / 4, s1 % 4);
        let (b2, k2) = (s2 / 4, s2 % 4);
        assert(0 <= b1 < n && 0 <= b2 < n);
        assert(t[b1]@[3] != EMPTY);
        assert(bucket_ok(t[b1]@, b1, items));
        assert(t[b1]@[k1] != EMPTY);
        assert(s1 == b1 * 4 + k1);
        assert(s2 == b2 * 4 + k2);
    }
    assert(vstd::relations::injective_on(lane_of, slot_set));
    vstd::set_lib::lemma_map_size(slot_set, held, lane_of);
    // The extra item is not held by any slot.
    assert(!held.contains(extra)) by {
        if held.contains(extra) {
            let s = choose|s: int| slot_set.contains(s) && lane_of(s) == extra;
            assert(0 <= s / 4 < n);
            assert(t[s / 4]@[s % 4] == extra);
        }
    }
    assert(all.len() == held.len() + 1);
    if feasible(items) {
        let slots = choose|slots: Seq<(int, int)>| is_orientation(items, slots);
        let place = |i: int| slots[i].0 * 4 + slots[i].1;
        // Every item of `all` has both endpoints marked, so its slot is a
        // slot of a marked bucket.
        assert forall|i: int| all.contains(i) implies slot_set.contains(#[trigger] place(i)) by {
            if i == extra {
                assert(is_endpoint(items[i], slots[i].0));
            } else {
                let s = choose|s: int| slot_set.contains(s) && lane_of(s) == i;
                let v = s / 4;
                let k = s % 4;
                assert(0 <= v < n);
                assert(t[v]@[3] != EMPTY);
                assert(bucket_ok(t[v]@, v, items));
                assert(t[v]@[k] != EMPTY);
                assert(t[v]@[k] as int == i);
                assert(0 <= i < items.len());
                assert(is_endpoint(items[i], v));
                assert(closed_bucket(seen, t, items, g, v));
                assert(seen[other_spec(items[t[v]@[k] as int], v)] == g);
                assert(is_endpoint(items[i], slots[i].0));
            }
            let b = slots[i].0;
            assert(item_in_range(items[i], n));
            assert(0 <= b < n);
            assert((b * 4 + slots[i].1) / 4 == b);
        }
        assert forall|i: int, j: int| all.contains(i) && all.contains(j) && #[trigger] place(i) == #[trigger] place(j) implies i == j by {
            assert(0 <= i < items.len());
            assert(0 <= j < items.len());
            if i != j {
                if i < j {
                    assert(slots[i] != slots[j]);
                } else {
                    assert(slots[j] != slots[i]);
                }
                assert(place(i) == slots[i].0 * 4 + slots[i].1);
            }
        }
        let image = all.map(place);
        assert(vstd::relations::injective_on(place, all));
        assert(held.finite());
        vstd::set_lib::lemma_map_size(all, image, place);
        assert(image.subset_of(slot_set));
        vstd::set_lib::lemma_len_subset(image, slot_set);
        assert(false);
    }
}

/// Every bucket marked in generation `g` is a node of the search tree.
#[verifier::opaque]
pub open spec fn search_tree(
    seen: Seq<u32>,
    parent_bucket: Seq<usize>,
    parent_item: Seq<usize>,
    depth: Seq<int>,
    t: Seq<[usize; CAPACITY]>,
    items: Seq<Item>,
    first: int,
    second: int,
    g: u32,
) -> bool {
    forall|v: int| 0 <= v < t.len() && #[trigger] seen[v] == g ==> search_node(seen, parent_bucket, parent_item, depth, t, items, first, second, g, v)
}

/// Every queued bucket is marked and full.
#[verifier::opaque]
pub open spec fn queue_ok(queue: Seq<usize>, seen: Seq<u32>, t: Seq<[usize; CAPACITY]>, g: u32) -> bool {
    forall|q: int| 0 <= q < queue.len() ==> (#[trigger] queue[q]) < t.len() && seen[queue[q] as int] == g && t[queue[q] as int]@[3] != EMPTY
}

/// Every marked bucket is full and is the bucket being scanned, waits in
/// the queue, or has all its items' other endpoints marked.
#[verifier::opaque]
pub open spec fn frontier_ok(seen: Seq<u32>, queue: Seq<usize>, t: Seq<[usize; CAPACITY]>, items: Seq<Item>, g: u32, current: int) -> bool {
    forall|v: int| 0 <= v < t.len() && #[trigger] seen[v] == g ==> t[v]@[3] != EMPTY && (v == current || queue.contains(v as usize) || closed_bucket(seen, t, items, g, v))
}

/// The first `lane` items of bucket `b` have their other endpoints marked.
#[verifier::opaque]
pub open spec fn lanes_done(seen: Seq<u32>, t: Seq<[usize; CAPACITY]>, items: Seq<Item>, g: u32, b: int, lane: int) -> bool {
    forall|k: int| 0 <= k < lane ==> seen[#[trigger] other_spec(items[t[b]@[k] as int], b)] == g
}

/// Taking the front of the queue for scanning keeps the frontier.
proof fn lemma_after_pop(before: Seq<usize>, after: Seq<usize>, seen: Seq<u32>, t: Seq<[usize; CAPACITY]>, items: Seq<Item>, g: u32)
    requires
        before.len() > 0,
        t.len() <= usize::MAX,
        after == before.subrange(1, before.len() as int),
        queue_ok(before, seen, t, g),
        frontier_ok(seen, before, t, items, g, -1),
    ensures
        queue_ok(after, seen, t, g),
        frontier_ok(seen, after, t, items, g, before[0] as int),
        before[0] < t.len(),
        seen[before[0] as int] == g,
        t[before[0] as int]@[3] != EMPTY,
{
    reveal(queue_ok);
    reveal(frontier_ok);
    assert(before[0] == before[0]);
    assert forall|q: int| 0 <= q < after.len() implies (#[trigger] after[q]) < t.len() && seen[after[q] as int] == g && t[after[q] as int]@[3] != EMPTY by {
        assert(after[q] == before[q + 1]);
    }
    assert forall|v: int| 0 <= v < t.len() && #[trigger] seen[v] == g implies t[v]@[3] != EMPTY && (v == before[0] as int || after.contains(v as usize) || closed_bucket(seen, t, items, g, v)) by {
        if v != before[0] as int && before.contains(v as usize) {
            let q = choose|q: int| 0 <= q < before.len() && before[q] == v as usize;
            assert(q != 0);
            assert(after[q - 1] == v as usize);
        }
    }
}

/// Once all four items of the scanned bucket have their other endpoints
/// marked, the bucket is closed.
proof fn lemma_bucket_done(seen: Seq<u32>, queue: Seq<usize>, t: Seq<[usize; CAPACITY]>, items: Seq<Item>, g: u32, b: int)
    requires
        frontier_ok(seen, queue, t, items, g, b),
        lanes_done(seen, t, items, g, b, 4),
    ensures
        frontier_ok(seen, queue, t, items, g, -1),
{
    reveal(frontier_ok);
    reveal(lanes_done);
    assert forall|v: int| 0 <= v < t.len() && #[trigger] seen[v] == g implies t[v]@[3] != EMPTY && (v == -1 || queue.contains(v as usize) || closed_bucket(seen, t, items, g, v)) by {
        if v == b {
            assert forall|k: int| 0 <= k < 4 implies seen[#[trigger] other_spec(items[t[v]@[k] as int], v)] == g by {}
        }
    }
}

/// Marking a new bucket as a child of a marked bucket that holds the item
/// leading to it keeps every marked bucket a node of the search tree.
proof fn lemma_mark_tree(
    seen: Seq<u32>,
    pb: Seq<usize>,
    pi: Seq<usize>,
    depth: Seq<int>,
    t: Seq<[usize; CAPACITY]>,
    items: Seq<Item>,
    first: int,
    second: int,
    g: u32,
    bucket: int,
    lane: int,
    resident: usize,
    neighbor: int,
)
    requires
        seen.len() == t.len(),
        pb.len() == t.len(),
        pi.len() == t.len(),
        depth.len() == t.len(),
        t.len() <= usize::MAX,
        0 <= bucket < t.len(),
        0 <= neighbor < t.len(),
        0 <= lane < 4,
        seen[bucket] == g,
        seen[neighbor] != g,
        t[bucket]@[lane] == resident,
        resident != EMPTY,
        resident < items.len(),
        neighbor == other_spec(items[resident as int], bucket),
        search_tree(seen, pb, pi, depth, t, items, first, second, g),
    ensures
        search_tree(
            seen.update(neighbor, g),
            pb.update(neighbor, bucket as usize),
            pi.update(neighbor, resident),
            depth.update(neighbor, depth[bucket] + 1),
            t,
            items,
            first,
            second,
            g,
        ),
{
    reveal(search_tree);
    let seen2 = seen.update(neighbor, g);
    let pb2 = pb.update(neighbor, bucket as usize);
    let pi2 = pi.update(neighbor, resident);
    let depth2 = depth.update(neighbor, depth[bucket] + 1);
    assert(search_node(seen, pb, pi, depth, t, items, first, second, g, bucket));
    assert(holds_item(t[bucket]@, resident));
    assert forall|v: int| 0 <= v < t.len() && #[trigger] seen2[v] == g implies search_node(seen2, pb2, pi2, depth2, t, items, first, second, g, v) by {
        if v != neighbor {
            assert(seen[v] == g);
            assert(search_node(seen, pb, pi, depth, t, items, first, second, g, v));
            let p = pb[v];
            if p != EMPTY {
                assert(p as int != neighbor);
            }
        }
    }
}

/// Marking a bucket keeps the queue consistent, whether or not the bucket
/// joins it.
proof fn lemma_mark_queue(queue: Seq<usize>, queue2: Seq<usize>, seen: Seq<u32>, t: Seq<[usize; CAPACITY]>, g: u32, neighbor: int, room: bool)
    requires
        seen.len() == t.len(),
        0 <= neighbor < t.len(),
        t.len() <= usize::MAX,
        room == (t[neighbor]@[3] == EMPTY),
        queue2 == (if room { queue } else { queue.push(neighbor as usize) }),
        queue_ok(queue, seen, t, g),
    ensures
        queue_ok(queue2, seen.update(neighbor, g), t, g),
{
    reveal(queue_ok);
    let seen2 = seen.update(neighbor, g);
    assert forall|q: int| 0 <= q < queue2.len() implies (#[trigger] queue2[q]) < t.len() && seen2[queue2[q] as int] == g && t[queue2[q] as int]@[3] != EMPTY by {
        if q < queue.len() {
            assert(queue2[q] == queue[q]);
        }
    }
}

/// Queueing a newly marked full bucket keeps the frontier, and the scanned
/// bucket's lane `lane` now has its other endpoint marked.
proof fn lemma_mark_frontier(
    seen: Seq<u32>,
    queue: Seq<usize>,
    t: Seq<[usize; CAPACITY]>,
    items: Seq<Item>,
    g: u32,
    bucket: int,
    lane: int,
    resident: usize,
    neighbor: int,
)
    requires
        seen.len() == t.len(),
        t.len() <= usize::MAX,
        0 <= bucket < t.len(),
        0 <= neighbor < t.len(),
        0 <= lane < 4,
        t[bucket]@[3] != EMPTY,
        t[neighbor]@[3] != EMPTY,
        t[bucket]@[lane] == resident,
        forall|c: int| 0 <= c < t.len() ==> bucket_ok(#[trigger] t[c]@, c, items),
        forall|i: int| 0 <= i < items.len() ==> item_in_range(#[trigger] items[i], t.len() as int),
        neighbor == other_spec(items[resident as int], bucket),
        frontier_ok(seen, queue, t, items, g, bucket),
        lanes_done(seen, t, items, g, bucket, lane),
    ensures
        frontier_ok(seen.update(neighbor, g), queue.push(neighbor as usize), t, items, g, bucket),
        lanes_done(seen.update(neighbor, g), t, items, g, bucket, lane + 1),
{
    reveal(frontier_ok);
    reveal(lanes_done);
    let seen2 = seen.update(neighbor, g);
    let queue2 = queue.push(neighbor as usize);
    assert(queue2[queue2.len() - 1] == neighbor as usize);
    assert forall|v: int| 0 <= v < t.len() && #[trigger] seen2[v] == g implies t[v]@[3] != EMPTY && (v == bucket || queue2.contains(v as usize) || closed_bucket(seen2, t, items, g, v)) by {
        if v != neighbor {
            assert(seen[v] == g);
            if v != bucket && queue.contains(v as usize) {
                let q = choose|q: int| 0 <= q < queue.len() && queue[q] == v as usize;
                assert(queue2[q] == v as usize);
            } else if v != bucket {
                assert(closed_bucket(seen, t, items, g, v));
                assert forall|k: int| 0 <= k < 4 implies seen2[#[trigger] other_spec(items[t[v]@[k] as int], v)] == g by {
                    let o = other_spec(items[t[v]@[k] as int], v);
                    assert(seen[o] == g);
                    assert(bucket_ok(t[v]@, v, items));
                    assert(t[v]@[k] != EMPTY);
                    assert(item_in_range(items[t[v]@[k] as int], t.len() as int));
                }
            }
        } else {
            assert(queue2.contains(neighbor as usize));
        }
    }
    assert forall|k: int| 0 <= k < lane + 1 implies seen2[#[trigger] other_spec(items[t[bucket]@[k] as int], bucket)] == g by {
        assert(bucket_ok(t[bucket]@, bucket, items));
        assert(t[bucket]@[k] != EMPTY);
        assert(item_in_range(items[t[bucket]@[k] as int], t.len() as int));
        if k < lane {
            let o = other_spec(items[t[bucket]@[k] as int], bucket);
            assert(seen[o] == g);
        }
    }
}

impl ExactOracle {
    /// Inserts an endpoint pair when the accepted items plus this one still
    /// fit, augmenting the current orientation along a breadth-first
    /// search path. Returns `false` without changing the orientation when
    /// no augmenting path exists.
    #[verifier::rlimit(60)]
    pub fn insert(&mut self, item: Item) -> (r: Result<bool, OracleError>)
        requires
            old(self).wf(),
            old(self).accepted().len() + 1 < usize::MAX,
        ensures
            final(self).wf(),
            final(self).bucket_count_spec() == old(self).bucket_count_spec(),
            match item_error(old(self).bucket_count_spec() as usize, item) {
                Some(error) => r == Err::<bool, OracleError>(error) && final(self).accepted() == old(
                    self,
                ).accepted(),
                None => match r {
                    Ok(true) => final(self).accepted() == old(self).accepted().push(item),
                    Ok(false) => final(self).accepted() == old(self).accepted() && !feasible(
                        old(self).accepted().push(item),
                    ),
                    Err(_) => false,
                },
            },
    {
        match validate_item(self.buckets.len(), item) {
            Err(error) => {
                return Err(error);
            },
            Ok(()) => {},
        }
        let ghost start = *self;
        let ghost n = self.buckets@.len() as int;
        let item_index = self.items.len();
        self.items.push(item);
        let first = item.first as usize;
        let second = item.second as usize;
        proof {
            assert forall|b: int| 0 <= b < n implies bucket_ok(#[trigger] self.buckets@[b]@, b, self.items@) by {
                assert(bucket_ok(start.buckets@[b]@, b, start.items@));
                assert forall|k: int| 0 <= k < 4 && #[trigger] self.buckets@[b]@[k] != EMPTY implies
                    self.buckets@[b]@[k] < self.items@.len() && is_endpoint(self.items@[self.buckets@[b]@[k] as int], b) by {
                    assert(self.items@[self.buckets@[b]@[k] as int] == start.items@[self.buckets@[b]@[k] as int]);
                }
            }
            assert forall|b: int, k: int| 0 <= b < n && 0 <= k < 4 implies #[trigger] self.buckets@[b]@[k] != item_index by {
                assert(bucket_ok(start.buckets@[b]@, b, start.items@));
            }
            assert forall|i: int| 0 <= i < start.items@.len() implies #[trigger] placed(self.buckets@, i) by {
                assert(placed(start.buckets@, i));
            }
        }
        let mut first_bucket = self.buckets[first];
        if append(&mut first_bucket, item_index) {
            let ghost t = self.buckets@;
            self.buckets.set(first, first_bucket);
            proof {
                self.lemma_after_append(t, start, first as int, item_index);
            }
            return Ok(true);
        }
        if second != first {
            let mut second_bucket = self.buckets[second];
            if append(&mut second_bucket, item_index) {
                let ghost t = self.buckets@;
                self.buckets.set(second, second_bucket);
                proof {
                    self.lemma_after_append(t, start, second as int, item_index);
                }
                return Ok(true);
            }
        }
        // Both candidates are full: search for a bucket with room reachable by
        // moving items to their other endpoints.
        let ghost items1 = self.items@;
        let ghost t = self.buckets@;
        proof {
            assert(t[first as int]@[3] != EMPTY);
            assert(t[second as int]@[3] != EMPTY);
        }
        self.next_generation();
        let generation = self.generation;
        self.queue.clear();
        proof {
            lemma_seen_count_fresh(self.seen@, generation, n);
        }
        let ghost mut depth: Seq<int> = Seq::new(n as nat, |v: int| 0int);
        if self.seen[first] != generation {
            proof {
                lemma_seen_count_mark(self.seen@, generation, first as int, n);
            }
            self.seen.set(first, generation);
            self.parent_bucket.set(first, EMPTY);
            self.parent_item.set(first, EMPTY);
            self.queue.push_back(first);
        }
        if self.seen[second] != generation {
            proof {
                lemma_seen_count_mark(self.seen@, generation, second as int, n);
            }
            self.seen.set(second, generation);
            self.parent_bucket.set(second, EMPTY);
            self.parent_item.set(second, EMPTY);
            self.queue.push_back(second);
        }
        proof {
            assert forall|v: int| 0 <= v < n && #[trigger] self.seen@[v] == generation implies search_node(
                self.seen@, self.parent_bucket@, self.parent_item@, depth, t, items1, first as int, second as int, generation, v,
            ) by {
                assert(v == first || v == second);
            }
            assert forall|v: int| 0 <= v < n implies #[trigger] self.seen@[v] <= generation by {}
            assert(self.queue@[0] == first);
            assert(self.queue@.contains(first));
            if second != first {
                assert(self.queue@[1] == second);
            }
            assert(self.queue@.contains(second));
            assert forall|v: int| 0 <= v < n && #[trigger] self.seen@[v] == generation implies t[v]@[3] != EMPTY && (self.queue@.contains(v as usize) || closed_bucket(self.seen@, t, items1, generation, v)) by {
                assert(v == first || v == second);
            }
        }
        proof {
            reveal(search_tree);
            reveal(queue_ok);
            reveal(frontier_ok);
        }
        let mut terminal: usize = EMPTY;
        while terminal == EMPTY && self.queue.len() > 0
            invariant
                self.buckets@ == t,
                self.items@ == items1,
                t.len() == n,
                n == start.buckets@.len(),
                n <= usize::MAX,
                start.wf(),
                items1.len() == item_index + 1,
                item_index == start.items@.len(),
                first < n,
                second < n,
                forall|c: int| 0 <= c < n ==> bucket_ok(#[trigger] t[c]@, c, items1),
                forall|i: int| 0 <= i < items1.len() ==> item_in_range(#[trigger] items1[i], n),
                self.seen@.len() == n,
                self.parent_bucket@.len() == n,
                self.parent_item@.len() == n,
                depth.len() == n,
                self.generation == generation,
                generation >= 1,
                forall|v: int| 0 <= v < n ==> #[trigger] self.seen@[v] <= generation,
                search_tree(self.seen@, self.parent_bucket@, self.parent_item@, depth, t, items1, first as int, second as int, generation),
                queue_ok(self.queue@, self.seen@, t, generation),
                self.queue@.len() <= seen_count(self.seen@, generation, n),
                terminal != EMPTY ==> terminal < n && self.seen@[terminal as int] == generation && t[terminal as int]@[3] == EMPTY && self.parent_bucket@[terminal as int] != EMPTY,
                terminal == EMPTY ==> frontier_ok(self.seen@, self.queue@, t, items1, generation, -1),
                self.seen@[first as int] == generation,
                self.seen@[second as int] == generation,
            decreases (n - seen_count(self.seen@, generation, n)) + self.queue@.len(),
        {
            proof {
                lemma_seen_count_bound(self.seen@, generation, n);
            }
            let ghost queue_before = self.queue@;
            if let Some(bucket) = self.queue.pop_front() {
                proof {
                    lemma_after_pop(queue_before, self.queue@, self.seen@, t, items1, generation);
                    reveal(lanes_done);
                }
                let residents = self.buckets[bucket];
                let ghost m0 = (n - seen_count(self.seen@, generation, n)) + self.queue@.len();
                let mut lane: usize = 0;
                while lane < CAPACITY && terminal == EMPTY
                    invariant
                        self.buckets@ == t,
                        self.items@ == items1,
                        t.len() == n,
                        items1.len() == item_index + 1,
                        first < n,
                        second < n,
                        forall|c: int| 0 <= c < n ==> bucket_ok(#[trigger] t[c]@, c, items1),
                        forall|i: int| 0 <= i < items1.len() ==> item_in_range(#[trigger] items1[i], n),
                        self.seen@.len() == n,
                        self.parent_bucket@.len() == n,
                        self.parent_item@.len() == n,
                        depth.len() == n,
                        self.generation == generation,
                        generation >= 1,
                        forall|v: int| 0 <= v < n ==> #[trigger] self.seen@[v] <= generation,
                        search_tree(self.seen@, self.parent_bucket@, self.parent_item@, depth, t, items1, first as int, second as int, generation),
                        queue_ok(self.queue@, self.seen@, t, generation),
                        self.queue@.len() <= seen_count(self.seen@, generation, n),
                        terminal != EMPTY ==> terminal < n && self.seen@[terminal as int] == generation && t[terminal as int]@[3] == EMPTY && self.parent_bucket@[terminal as int] != EMPTY,
                        bucket < n,
                        n <= usize::MAX,
                        self.seen@[bucket as int] == generation,
                        residents == t[bucket as int],
                        t[bucket as int]@[3] != EMPTY,
                        lane <= CAPACITY,
                        (n - seen_count(self.seen@, generation, n)) + self.queue@.len() <= m0,
                        terminal == EMPTY ==> frontier_ok(self.seen@, self.queue@, t, items1, generation, bucket as int),
                        terminal == EMPTY ==> lanes_done(self.seen@, t, items1, generation, bucket as int, lane as int),
                        self.seen@[first as int] == generation,
                        self.seen@[second as int] == generation,
                    decreases CAPACITY - lane,
                {
                    let resident = residents[lane];
                    proof {
                        assert(bucket_ok(t[bucket as int]@, bucket as int, items1));
                        assert(resident != EMPTY);
                        assert(resident < items1.len());
                        assert(item_in_range(items1[resident as int], n));
                    }
                    let neighbor = other(self.items[resident], bucket);
                    if self.seen[neighbor] != generation {
                        let ghost before_seen = self.seen@;
                        let ghost before_pb = self.parent_bucket@;
                        let ghost before_pi = self.parent_item@;
                        let ghost before_depth = depth;
                        let ghost before_queue = self.queue@;
                        proof {
                            lemma_seen_count_mark(self.seen@, generation, neighbor as int, n);
                            depth = depth.update(neighbor as int, depth[bucket as int] + 1);
                        }
                        self.seen.set(neighbor, generation);
                        self.parent_bucket.set(neighbor, bucket);
                        self.parent_item.set(neighbor, resident);
                        let room = !is_full(&self.buckets[neighbor]);
                        if room {
                            terminal = neighbor;
                        } else {
                            self.queue.push_back(neighbor);
                        }
                        proof {
                            assert(t[bucket as int]@[lane as int] == resident);
                            lemma_mark_tree(
                                before_seen, before_pb, before_pi, before_depth, t, items1,
                                first as int, second as int, generation, bucket as int, lane as int,
                                resident, neighbor as int,
                            );
                            lemma_mark_queue(before_queue, self.queue@, before_seen, t, generation, neighbor as int, room);
                            if !room {
                                lemma_mark_frontier(
                                    before_seen, before_queue, t, items1, generation, bucket as int,
                                    lane as int, resident, neighbor as int,
                                );
                            }
                            assert forall|v: int| 0 <= v < n implies #[trigger] self.seen@[v] <= generation by {}
                        }
                    } else {
                        proof {
                            reveal(lanes_done);
                            assert(t[bucket as int]@[lane as int] == resident);
                            if terminal == EMPTY {
                                assert forall|k: int| 0 <= k < lane + 1 implies self.seen@[#[trigger] other_spec(items1[t[bucket as int]@[k] as int], bucket as int)] == generation by {}
                            }
                        }
                    }
                    lane += 1;
                }
                proof {
                    if terminal == EMPTY {
                        lemma_bucket_done(self.seen@, self.queue@, t, items1, generation, bucket as int);
                    }
                }
            }
            proof {
                lemma_seen_count_bound(self.seen@, generation, n);
            }
        }
        if terminal == EMPTY {
            proof {
                reveal(frontier_ok);
                assert forall|v: int| 0 <= v < n && #[trigger] self.seen@[v] == generation implies t[v]@[3] != EMPTY && closed_bucket(self.seen@, t, items1, generation, v) by {
                    assert(!self.queue@.contains(v as usize));
                }
                assert forall|b: int, k: int| 0 <= b < n && 0 <= k < 4 implies #[trigger] t[b]@[k] != item_index by {
                    assert(bucket_ok(start.buckets@[b]@, b, start.items@));
                }
                assert(items1[item_index as int] == item);
                lemma_no_room(t, items1, self.seen@, generation, item_index as int);
                assert(items1 == start.items@.push(item));
            }
            let _ = self.items.pop();
            proof {
                assert(self.items@ =~= start.items@);
                assert forall|b: int| 0 <= b < n implies bucket_ok(#[trigger] self.buckets@[b]@, b, self.items@) by {
                    assert(self.buckets@[b] == start.buckets@[b]);
                }
                assert forall|i: int| 0 <= i < self.items@.len() implies #[trigger] placed(self.buckets@, i) by {
                    assert(placed(start.buckets@, i));
                }
            }
            return Ok(false);
        }
        // Shift the items along the path from the root to the bucket with room.
        proof {
            reveal(search_tree);
        }
        let ghost search_seen = self.seen@;
        let ghost search_pb = self.parent_bucket@;
        let ghost search_pi = self.parent_item@;
        let mut destination = terminal;
        proof {
            assert forall|c: int| 0 <= c < n implies bucket_ok(#[trigger] self.buckets@[c]@, c, items1) by {}
        }
        while self.parent_bucket[destination] != EMPTY
            invariant
                self.items@ == items1,
                items1.len() == item_index + 1,
                item_index == start.items@.len(),
                n == start.buckets@.len(),
                start.wf(),
                t.len() == n,
                self.buckets@.len() == n,
                first < n,
                second < n,
                self.seen@ == search_seen,
                self.parent_bucket@ == search_pb,
                self.parent_item@ == search_pi,
                search_seen.len() == n,
                search_pb.len() == n,
                search_pi.len() == n,
                depth.len() == n,
                self.generation == generation,
                forall|v: int| 0 <= v < n ==> #[trigger] self.seen@[v] <= generation,
                forall|v: int| 0 <= v < n && #[trigger] search_seen[v] == generation ==> search_node(
                    search_seen, search_pb, search_pi, depth, t, items1, first as int, second as int, generation, v,
                ),
                forall|i: int| 0 <= i < items1.len() ==> item_in_range(#[trigger] items1[i], n),
                destination < n,
                search_seen[destination as int] == generation,
                forall|v: int| 0 <= v < n && search_seen[v] == generation && depth[v] < depth[destination as int] ==> #[trigger] self.buckets@[v] == t[v],
                forall|c: int| 0 <= c < n ==> bucket_ok(#[trigger] self.buckets@[c]@, c, items1),
                forall|i: int| 0 <= i < item_index ==> #[trigger] placed(self.buckets@, i),
                unique_slots(self.buckets@),
                forall|b: int, k: int| 0 <= b < n && 0 <= k < 4 ==> #[trigger] self.buckets@[b]@[k] != item_index,
                self.buckets@[destination as int]@[3] == EMPTY,
            decreases depth[destination as int],
        {
            let source = self.parent_bucket[destination];
            let resident = self.parent_item[destination];
            let ghost u = self.buckets@;
            proof {
                assert(search_node(search_seen, search_pb, search_pi, depth, t, items1, first as int, second as int, generation, destination as int));
                assert(search_seen[source as int] == generation);
                assert(search_node(search_seen, search_pb, search_pi, depth, t, items1, first as int, second as int, generation, source as int));
                assert(u[source as int] == t[source as int]);
                assert(resident != item_index) by {
                    let p = first_index(t[source as int]@, resident);
                    assert(t[source as int]@[p] == resident);
                }
                assert(bucket_ok(t[source as int]@, source as int, items1));
                assert(is_endpoint(items1[resident as int], source as int)) by {
                    let p = first_index(t[source as int]@, resident);
                    assert(t[source as int]@[p] == resident);
                }
                assert(destination != source);
                assert(bucket_ok(u[destination as int]@, destination as int, items1));
            }
            let mut destination_slots = self.buckets[destination];
            let appended = append(&mut destination_slots, resident);
            proof {
                assert(appended);
            }
            let mut source_slots = self.buckets[source];
            remove(&mut source_slots, resident);
            proof {
                lemma_move(u, source as int, destination as int, resident, source_slots, destination_slots, item_index);
                lemma_moved_buckets_ok(u[source as int]@, source_slots@, u[destination as int]@, destination_slots@, source as int, destination as int, resident, items1);
            }
            self.buckets.set(destination, destination_slots);
            self.buckets.set(source, source_slots);
            proof {
                let w = self.buckets@;
                assert(w == u.update(destination as int, destination_slots).update(source as int, source_slots));
                assert forall|c: int| 0 <= c < n implies bucket_ok(#[trigger] w[c]@, c, items1) by {
                    if c != source as int && c != destination as int {
                        assert(w[c] == u[c]);
                    }
                }
                assert forall|i: int| 0 <= i < item_index implies #[trigger] placed(w, i) by {
                    assert(placed(u, i));
                }
                assert forall|v: int| 0 <= v < n && search_seen[v] == generation && depth[v] < depth[source as int] implies #[trigger] w[v] == t[v] by {
                    assert(w[v] == u[v]);
                }
            }
            destination = source;
        }
        proof {
            assert(search_node(search_seen, search_pb, search_pi, depth, t, items1, first as int, second as int, generation, destination as int));
            assert(destination == first || destination == second);
        }
        let ghost before_final = self.buckets@;
        let mut root_slots = self.buckets[destination];
        let appended = append(&mut root_slots, item_index);
        proof {
            assert(appended);
        }
        self.buckets.set(destination, root_slots);
        proof {
            assert forall|i: int| 0 <= i < start.items@.len() implies #[trigger] placed(before_final, i) by {}
            self.lemma_after_append(before_final, start, destination as int, item_index);
        }
        Ok(true)
    }

    /// After appending the new item to a bucket that is one of its
    /// endpoints, the oracle is consistent again.
    proof fn lemma_after_append(&self, t: Seq<[usize; CAPACITY]>, start: ExactOracle, b: int, item_index: usize)
        requires
            start.wf(),
            0 <= b < t.len(),
            t.len() == start.buckets@.len(),
            item_index == start.items@.len(),
            self.items@ == start.items@.push(self.items@[item_index as int]),
            item_in_range(self.items@[item_index as int], t.len() as int),
            is_endpoint(self.items@[item_index as int], b),
            has_empty(t[b]@),
            self.buckets@ == t.update(b, self.buckets@[b]),
            self.buckets@[b]@ == t[b]@.update(first_empty(t[b]@), item_index),
            forall|c: int| 0 <= c < t.len() ==> bucket_ok(#[trigger] t[c]@, c, self.items@),
            forall|c: int, k: int| 0 <= c < t.len() && 0 <= k < 4 ==> #[trigger] t[c]@[k] != item_index,
            forall|i: int| 0 <= i < start.items@.len() ==> #[trigger] placed(t, i),
            unique_slots(t),
            self.seen@.len() == t.len(),
            self.parent_bucket@.len() == t.len(),
            self.parent_item@.len() == t.len(),
            forall|v: int| 0 <= v < t.len() ==> #[trigger] self.seen@[v] <= self.generation,
            self.items@.len() < usize::MAX,
        ensures
            self.wf(),
    {
        let n = t.len() as int;
        let e = first_empty(t[b]@);
        let u = self.buckets@;
        assert(t[b]@[e] == EMPTY);
        assert forall|c: int| 0 <= c < n implies bucket_ok(#[trigger] u[c]@, c, self.items@) by {
            if c != b {
                assert(u[c] == t[c]);
            }
        }
        assert forall|i: int| 0 <= i < self.items@.len() implies #[trigger] placed(u, i) by {
            if i == item_index {
                assert(u[b]@[e] == i);
            } else {
                assert(placed(t, i));
                let (c, k) = choose|c: int, k: int| 0 <= c < t.len() && 0 <= k < 4 && #[trigger] t[c]@[k] == i;
                if c == b {
                    assert(k != e);
                    assert(u[c]@[k] == i);
                } else {
                    assert(u[c]@[k] == i);
                }
            }
        }
        assert forall|b1: int, k1: int, b2: int, k2: int|
            0 <= b1 < u.len() && 0 <= k1 < 4 && 0 <= b2 < u.len() && 0 <= k2 < 4 && #[trigger] u[b1]@[k1]
                == #[trigger] u[b2]@[k2] && u[b1]@[k1] != EMPTY implies b1 == b2 && k1 == k2 by {
            let x = u[b1]@[k1];
            if x == item_index {
                if !(b1 == b && k1 == e) {
                    if b1 == b {
                        assert(u[b1]@[k1] == t[b1]@[k1]);
                    } else {
                        assert(u[b1]@[k1] == t[b1]@[k1]);
                    }
                }
                if !(b2 == b && k2 == e) {
                    if b2 == b {
                        assert(u[b2]@[k2] == t[b2]@[k2]);
                    } else {
                        assert(u[b2]@[k2] == t[b2]@[k2]);
                    }
                }
            } else {
                if b1 == b {
                    assert(k1 != e);
                }
                if b2 == b {
                    assert(k2 != e);
                }
                assert(u[b1]@[k1] == t[b1]@[k1]);
                assert(u[b2]@[k2] == t[b2]@[k2]);
            }
        }
        assert forall|i: int| 0 <= i < self.items@.len() implies item_in_range(#[trigger] self.items@[i], n) by {
            if i < start.items@.len() {
                assert(self.items@[i] == start.items@[i]);
            }
        }
    }
}

impl ExactOracle {
    /// The items an oracle holds always fit: reading off the slot of each
    /// accepted item gives an orientation.
    pub proof fn lemma_accepted_feasible(&self)
        requires
            self.wf(),
        ensures
            feasible(self.accepted()),
    {
        let t = self.buckets@;
        let items = self.items@;
        let n = t.len() as int;
        let slots = Seq::new(
            items.len(),
            |i: int| choose|p: (int, int)| 0 <= p.0 < n && 0 <= p.1 < 4 && #[trigger] t[p.0]@[p.1] == i,
        );
        assert forall|i: int| 0 <= i < items.len() implies is_endpoint(items[i], (#[trigger] slots[i]).0)
            && 0 <= slots[i].1 < 4 by {
            assert(placed(t, i));
            let (b, k) = choose|b: int, k: int| 0 <= b < t.len() && 0 <= k < 4 && #[trigger] t[b]@[k] == i;
            assert(t[b]@[k] == i);
            let p = slots[i];
            assert(0 <= p.0 < n && 0 <= p.1 < 4 && t[p.0]@[p.1] == i);
            assert(bucket_ok(t[p.0]@, p.0, items));
            assert(t[p.0]@[p.1] != EMPTY);
        }
        assert forall|i: int, j: int| 0 <= i < j < items.len() implies #[trigger] slots[i] != #[trigger] slots[j] by {
            assert(placed(t, i));
            assert(placed(t, j));
            let (b, k) = choose|b: int, k: int| 0 <= b < t.len() && 0 <= k < 4 && #[trigger] t[b]@[k] == i;
            let (c, l) = choose|b: int, k: int| 0 <= b < t.len() && 0 <= k < 4 && #[trigger] t[b]@[k] == j;
            assert(t[b]@[k] == i);
            assert(t[c]@[l] == j);
            assert(t[slots[i].0]@[slots[i].1] == i);
            assert(t[slots[j].0]@[slots[j].1] == j);
        }
        assert(is_orientation(items, slots));
    }
}

/// Feasibility is inherited by prefixes: a sequence whose prefix does not
/// fit does not fit either.
pub proof fn lemma_prefix_infeasible(items: Seq<Item>, j: int, k: int)
    requires
        0 <= j <= k <= items.len(),
        !feasible(items.subrange(0, j)),
    ensures
        !feasible(items.subrange(0, k)),
{
    if feasible(items.subrange(0, k)) {
        let slots = choose|slots: Seq<(int, int)>| is_orientation(items.subrange(0, k), slots);
        let shorter = slots.subrange(0, j);
        assert forall|i: int| 0 <= i < j implies is_endpoint(items.subrange(0, j)[i], (#[trigger] shorter[i]).0) && 0 <= shorter[i].1 < 4 by {
            assert(items.subrange(0, j)[i] == items.subrange(0, k)[i]);
            assert(shorter[i] == slots[i]);
        }
        assert forall|a: int, b: int| 0 <= a < b < j implies #[trigger] shorter[a] != #[trigger] shorter[b] by {
            assert(shorter[a] == slots[a]);
            assert(shorter[b] == slots[b]);
        }
        assert(is_orientation(items.subrange(0, j), shorter));
    }
}

/// Every item of the sequence lies in a table of `n` buckets.
pub open spec fn all_in_range(items: Seq<Item>, n: int) -> bool {
    forall|i: int| 0 <= i < items.len() ==> item_in_range(#[trigger] items[i], n)
}

/// What a threshold computation returns: the length of the largest
/// feasible prefix, or the error of the first item outside the table when
/// the items before it still fit; an invalid bucket count is refused first.
pub open spec fn threshold_outcome(bucket_count: usize, items: Seq<Item>, r: Result<usize, OracleError>) -> bool {
    &&& !valid_bucket_count(bucket_count) ==> r == Err::<usize, OracleError>(OracleError::BucketCount)
    &&& valid_bucket_count(bucket_count) ==> match r {
        Ok(k) => {
            &&& k <= items.len()
            &&& all_in_range(items.subrange(0, k as int), bucket_count as int)
            &&& feasible(items.subrange(0, k as int))
            &&& k < items.len() ==> item_in_range(items[k as int], bucket_count as int)
            &&& k < items.len() ==> !feasible(items.subrange(0, k + 1))
        },
        Err(error) => exists|j: int|
            0 <= j < items.len() && item_error(bucket_count, #[trigger] items[j]) == Some(error)
                && all_in_range(items.subrange(0, j), bucket_count as int) && feasible(items.subrange(0, j)),
    }
}

/// Returns the length of the largest feasible prefix under capacity four,
/// by offering the items in order to an incremental oracle.
pub fn exact_threshold(bucket_count: usize, items: &[Item]) -> (r: Result<usize, OracleError>)
    requires
        items@.len() < usize::MAX,
    ensures
        threshold_outcome(bucket_count, items@, r),
{
    let mut oracle = match ExactOracle::new(bucket_count) {
        Ok(oracle) => oracle,
        Err(error) => {
            return Err(error);
        },
    };
    let mut index: usize = 0;
    while index < items.len()
        invariant
            index <= items@.len(),
            items@.len() < usize::MAX,
            valid_bucket_count(bucket_count),
            oracle.wf(),
            oracle.bucket_count_spec() == bucket_count,
            oracle.accepted() == items@.subrange(0, index as int),
            all_in_range(items@.subrange(0, index as int), bucket_count as int),
        decreases items@.len() - index,
    {
        let item = items[index];
        match oracle.insert(item) {
            Err(error) => {
                proof {
                    oracle.lemma_accepted_feasible();
                    assert(items@[index as int] == item);
                }
                return Err(error);
            },
            Ok(accepted) => {
                if !accepted {
                    proof {
                        oracle.lemma_accepted_feasible();
                        assert(items@.subrange(0, index as int + 1) =~= items@.subrange(0, index as int).push(item));
                    }
                    return Ok(index);
                }
            },
        }
        proof {
            assert(items@.subrange(0, index as int + 1) =~= items@.subrange(0, index as int).push(item));
            assert forall|i: int| 0 <= i < index + 1 implies item_in_range(#[trigger] items@.subrange(0, index as int + 1)[i], bucket_count as int) by {
                if i < index {
                    assert(items@.subrange(0, index as int + 1)[i] == items@.subrange(0, index as int)[i]);
                }
            }
        }
        index += 1;
    }
    proof {
        oracle.lemma_accepted_feasible();
        assert(items@.subrange(0, items@.len() as int) =~= items@);
    }
    Ok(items.len())
}

/// Slot `s` of a slot-expanded table belongs to bucket `s / 4`; every owned
/// slot holds an earlier item index of `items` that has that bucket as an
/// endpoint.
pub open spec fn owners_ok(owners: Seq<usize>, items: Seq<Item>, limit: int) -> bool {
    forall|s: int|
        0 <= s < owners.len() && #[trigger] owners[s] != EMPTY ==> owners[s] < limit && limit <= items.len()
            && is_endpoint(items[owners[s] as int], s / 4)
}

/// Item `i` owns some slot.
pub open spec fn owns_slot(owners: Seq<usize>, i: int) -> bool {
    exists|s: int| 0 <= s < owners.len() && #[trigger] owners[s] == i
}

/// Number of slots not yet visited in generation `g`.
pub open spec fn unvisited(seen: Seq<u32>, g: u32) -> int {
    seen.len() - seen_count(seen, g, seen.len() as int)
}

/// Structurally independent small-instance cross-check using physical
/// slots.
///
/// Expands each bucket into four slot vertices and returns the largest
/// prefix accepted by bipartite augmenting matching.
pub fn slot_matching_threshold(bucket_count: usize, items: &[Item]) -> (r: Result<usize, OracleError>)
    requires
        valid_bucket_count(bucket_count) ==> bucket_count * 4 <= usize::MAX,
        items@.len() < usize::MAX,
    ensures
        threshold_outcome(bucket_count, items@, r),
{
    match validate_bucket_count(bucket_count) {
        Err(error) => {
            return Err(error);
        },
        Ok(()) => {},
    }
    let slot_count = bucket_count * CAPACITY;
    let mut owners: Vec<usize> = vec![EMPTY; slot_count];
    let mut seen: Vec<u32> = vec![0u32; slot_count];
    let mut generation: u32 = 0;
    let mut index: usize = 0;
    proof {
        assert forall|s: int| 0 <= s < slot_count implies #[trigger] seen@[s] <= generation by {}
    }
    while index < items.len()
        invariant
            index <= items@.len(),
            items@.len() < usize::MAX,
            valid_bucket_count(bucket_count),
            slot_count == bucket_count * 4,
            owners@.len() == slot_count,
            seen@.len() == slot_count,
            forall|s: int| 0 <= s < slot_count ==> #[trigger] seen@[s] <= generation,
            owners_ok(owners@, items@, index as int),
            owners_unique(owners@),
            forall|i: int| 0 <= i < index ==> #[trigger] owns_slot(owners@, i),
            all_in_range(items@.subrange(0, index as int), bucket_count as int),
        decreases items@.len() - index,
    {
        let item = items[index];
        match validate_item(bucket_count, item) {
            Err(error) => {
                proof {
                    lemma_owners_feasible(owners@, items@, index as int);
                }
                return Err(error);
            },
            Ok(()) => {},
        }
        generation = generation.wrapping_add(1);
        if generation == 0 {
            let mut i: usize = 0;
            while i < slot_count
                invariant
                    slot_count == seen@.len(),
                    i <= slot_count,
                    forall|v: int| 0 <= v < i ==> #[trigger] seen@[v] == 0,
                decreases slot_count - i,
            {
                seen.set(i, 0);
                i += 1;
            }
            generation = 1;
        }
        proof {
            assert forall|s: int| 0 <= s < slot_count implies #[trigger] seen@[s] < generation by {}
            assert(owners_ok(owners@, items@, index as int + 1));
            assert(slot_count as int / 4 == bucket_count) by (nonlinear_arith)
                requires
                    slot_count == bucket_count * 4,
            ;
            assert forall|i: int| 0 <= i < index + 1 implies item_in_range(#[trigger] items@[i], slot_count as int / 4) by {
                if i < index {
                    assert(items@.subrange(0, index as int)[i] == items@[i]);
                }
            }
        }
        let ghost owners_before = owners@;
        let ghost seen_before = seen@;
        proof {
            assert forall|s: int| 0 <= s < slot_count && #[trigger] owners@[s] == index implies seen@[s] == generation by {
                assert(owners@[s] != EMPTY);
            }
        }
        if !augment_slot(index, items, &mut owners, &mut seen, generation, Ghost(index as int + 1)) {
            proof {
                lemma_owners_feasible(owners@, items@, index as int);
                assert forall|s: int| 0 <= s < seen@.len() && #[trigger] seen@[s] == generation implies closed_slot(seen@, owners@, items@, generation, s) by {
                    assert(seen_before[s] < generation);
                }
                lemma_no_slot_room(owners@, items@, seen@, generation, index as int);
            }
            return Ok(index);
        }
        proof {
            assert forall|s: int, t: int|
                0 <= s < owners@.len() && 0 <= t < owners@.len() && s != t && #[trigger] owners@[s] != EMPTY
                    implies owners@[s] != #[trigger] owners@[t] by {
                if owners@[s] == owners@[t] {
                    assert(owners@[s] == index);
                    assert(owners_before[s] != index) by {
                        if owners_before[s] == index {
                            assert(owners_before[s] != EMPTY);
                        }
                    }
                    assert(owners_before[t] != index) by {
                        if owners_before[t] == index {
                            assert(owners_before[t] != EMPTY);
                        }
                    }
                }
            }
            assert forall|s: int| 0 <= s < slot_count implies #[trigger] seen@[s] <= generation by {}
            assert forall|i: int| 0 <= i < index + 1 implies #[trigger] owns_slot(owners@, i) by {
                if i < index {
                    assert(owns_slot(owners_before, i));
                }
            }
            assert(items@.subrange(0, index as int + 1) =~= items@.subrange(0, index as int).push(item));
            assert forall|i: int| 0 <= i < index + 1 implies item_in_range(#[trigger] items@.subrange(0, index as int + 1)[i], bucket_count as int) by {
                if i < index {
                    assert(items@.subrange(0, index as int + 1)[i] == items@.subrange(0, index as int)[i]);
                }
            }
        }
        index += 1;
    }
    proof {
        lemma_owners_feasible(owners@, items@, items@.len() as int);
        assert(items@.subrange(0, items@.len() as int) =~= items@);
    }
    Ok(items.len())
}

/// Slot `k` of bucket `b` in the slot-expanded table.
pub open spec fn slot_of(b: int, k: int) -> int {
    b * 4 + k
}

/// All four slots of bucket `b` are visited in generation `g`.
pub open spec fn bucket_visited(seen: Seq<u32>, g: u32, b: int) -> bool {
    forall|k: int| 0 <= k < 4 ==> seen[#[trigger] slot_of(b, k)] == g
}

/// Slot `s` is owned, and every slot its owner could move to is visited.
pub open spec fn closed_slot(seen: Seq<u32>, owners: Seq<usize>, items: Seq<Item>, g: u32, s: int) -> bool {
    &&& owners[s] != EMPTY
    &&& bucket_visited(seen, g, items[owners[s] as int].first as int)
    &&& bucket_visited(seen, g, items[owners[s] as int].second as int)
}

/// Every item owns at most one slot.
pub open spec fn owners_unique(owners: Seq<usize>) -> bool {
    forall|s: int, t: int|
        0 <= s < owners.len() && 0 <= t < owners.len() && s != t && #[trigger] owners[s] != EMPTY
            ==> owners[s] != #[trigger] owners[t]
}

/// Every item but `x` owns at most one slot.
pub open spec fn owners_unique_except(owners: Seq<usize>, x: int) -> bool {
    forall|s: int, t: int|
        0 <= s < owners.len() && 0 <= t < owners.len() && s != t && #[trigger] owners[s] != EMPTY
            && owners[s] == #[trigger] owners[t] ==> owners[s] == x
}

/// A set of visited slots that are all owned by distinct earlier items,
/// closed under moving an owner to any slot of its buckets, and that holds
/// every slot of one more item, proves that the items up to that one do not
/// fit.
proof fn lemma_no_slot_room(owners: Seq<usize>, items: Seq<Item>, seen: Seq<u32>, g: u32, extra: int)
    requires
        0 <= extra < items.len(),
        extra < usize::MAX,
        owners.len() % 4 == 0,
        seen.len() == owners.len(),
        owners_ok(owners, items, extra),
        owners_unique(owners),
        forall|i: int| 0 <= i <= extra ==> item_in_range(#[trigger] items[i], owners.len() as int / 4),
        bucket_visited(seen, g, items[extra].first as int),
        bucket_visited(seen, g, items[extra].second as int),
        forall|s: int| 0 <= s < seen.len() && #[trigger] seen[s] == g ==> closed_slot(seen, owners, items, g, s),
    ensures
        !feasible(items.subrange(0, extra + 1)),
{
    let prefix = items.subrange(0, extra + 1);
    let n4 = owners.len() as int;
    let slot_set = Set::new(|s: int| 0 <= s < n4 && seen[s] == g);
    let owner_of = |s: int| owners[s] as int;
    let held = slot_set.map(owner_of);
    let all = held.insert(extra);
    vstd::set_lib::lemma_int_range(0, n4);
    assert(slot_set.subset_of(vstd::set_lib::set_int_range(0, n4)));
    vstd::set_lib::lemma_len_subset(slot_set, vstd::set_lib::set_int_range(0, n4));
    assert forall|s1: int, s2: int| slot_set.contains(s1) && slot_set.contains(s2) && #[trigger] owner_of(s1) == #[trigger] owner_of(s2) implies s1 == s2 by {
        assert(closed_slot(seen, owners, items, g, s1));
        if s1 != s2 {
            assert(owners[s1] != owners[s2]);
        }
    }
    assert(vstd::relations::injective_on(owner_of, slot_set));
    vstd::set_lib::lemma_map_size(slot_set, held, owner_of);
    assert(!held.contains(extra)) by {
        if held.contains(extra) {
            let s = choose|s: int| slot_set.contains(s) && owner_of(s) == extra;
            assert(closed_slot(seen, owners, items, g, s));
            assert(owners[s] != EMPTY);
        }
    }
    assert(all.len() == held.len() + 1);
    if feasible(prefix) {
        let slots = choose|slots: Seq<(int, int)>| is_orientation(prefix, slots);
        let place = |i: int| slots[i].0 * 4 + slots[i].1;
        assert forall|i: int| all.contains(i) implies slot_set.contains(#[trigger] place(i)) && 0 <= i <= extra by {
            let b = slots[i].0;
            let k = slots[i].1;
            if i == extra {
                assert(prefix[i] == items[extra]);
                assert(is_endpoint(items[extra], b));
                assert(seen[slot_of(b, k)] == g);
            } else {
                let s = choose|s: int| slot_set.contains(s) && owner_of(s) == i;
                assert(closed_slot(seen, owners, items, g, s));
                assert(owners[s] != EMPTY);
                assert(owners[s] < extra);
                assert(prefix[i] == items[i]);
                assert(is_endpoint(prefix[i], b));
                assert(seen[slot_of(b, k)] == g);
            }
            assert(item_in_range(items[i], n4 / 4));
            assert(0 <= b < n4 / 4);
            assert(0 <= place(i) < n4) by (nonlinear_arith)
                requires
                    0 <= b < n4 / 4,
                    0 <= k < 4,
                    place(i) == b * 4 + k,
                    n4 >= 0,
            ;
        }
        assert forall|i: int, j: int| all.contains(i) && all.contains(j) && #[trigger] place(i) == #[trigger] place(j) implies i == j by {
            if i != j {
                assert(0 <= slots[i].1 < 4 && 0 <= slots[j].1 < 4);
                if i < j {
                    assert(slots[i] != slots[j]);
                } else {
                    assert(slots[j] != slots[i]);
                }
            }
        }
        let image = all.map(place);
        assert(vstd::relations::injective_on(place, all));
        vstd::set_lib::lemma_map_size(all, image, place);
        assert(image.subset_of(slot_set));
        vstd::set_lib::lemma_len_subset(image, slot_set);
        assert(false);
    }
}

/// The threshold of an item sequence is determined by the items alone:
/// any two results that meet [`threshold_outcome`], such as those of
/// [`exact_threshold`] and [`slot_matching_threshold`], are equal.
pub proof fn lemma_thresholds_agree(
    bucket_count: usize,
    items: Seq<Item>,
    r1: Result<usize, OracleError>,
    r2: Result<usize, OracleError>,
)
    requires
        threshold_outcome(bucket_count, items, r1),
        threshold_outcome(bucket_count, items, r2),
    ensures
        r1 == r2,
{
    if valid_bucket_count(bucket_count) {
        match (r1, r2) {
            (Ok(k1), Ok(k2)) => {
                if k1 < k2 {
                    lemma_prefix_infeasible(items, k1 as int + 1, k2 as int);
                } else if k2 < k1 {
                    lemma_prefix_infeasible(items, k2 as int + 1, k1 as int);
                }
            },
            (Ok(k), Err(e)) => {
                lemma_error_after_threshold(bucket_count, items, k, e);
            },
            (Err(e), Ok(k)) => {
                lemma_error_after_threshold(bucket_count, items, k, e);
            },
            (Err(e1), Err(e2)) => {
                let j1 = choose|j: int|
                    0 <= j < items.len() && item_error(bucket_count, #[trigger] items[j]) == Some(e1)
                        && all_in_range(items.subrange(0, j), bucket_count as int) && feasible(items.subrange(0, j));
                let j2 = choose|j: int|
                    0 <= j < items.len() && item_error(bucket_count, #[trigger] items[j]) == Some(e2)
                        && all_in_range(items.subrange(0, j), bucket_count as int) && feasible(items.subrange(0, j));
                if j1 < j2 {
                    assert(items.subrange(0, j2)[j1] == items[j1]);
                } else if j2 < j1 {
                    assert(items.subrange(0, j1)[j2] == items[j2]);
                }
            },
        }
    }
}

/// Once a threshold result describes a sequence, no item error does.
proof fn lemma_error_after_threshold(bucket_count: usize, items: Seq<Item>, k: usize, e: OracleError)
    requires
        valid_bucket_count(bucket_count),
        threshold_outcome(bucket_count, items, Ok(k)),
    ensures
        !threshold_outcome(bucket_count, items, Err(e)),
{
    if threshold_outcome(bucket_count, items, Err(e)) {
        let j = choose|j: int|
            0 <= j < items.len() && item_error(bucket_count, #[trigger] items[j]) == Some(e) && all_in_range(
                items.subrange(0, j),
                bucket_count as int,
            ) && feasible(items.subrange(0, j));
        if j < k {
            assert(items.subrange(0, k as int)[j] == items[j]);
        } else if j > k {
            lemma_prefix_infeasible(items, k as int + 1, j);
        }
    }
}

/// Slot owners give an orientation of the items that own a slot.
proof fn lemma_owners_feasible(owners: Seq<usize>, items: Seq<Item>, k: int)
    requires
        0 <= k <= items.len(),
        owners_ok(owners, items, k),
        forall|i: int| 0 <= i < k ==> #[trigger] owns_slot(owners, i),
        k < usize::MAX,
    ensures
        feasible(items.subrange(0, k)),
{
    let prefix = items.subrange(0, k);
    let chosen = Seq::new(k as nat, |i: int| choose|s: int| 0 <= s < owners.len() && #[trigger] owners[s] == i);
    let slots = Seq::new(k as nat, |i: int| (chosen[i] / 4, chosen[i] % 4));
    assert forall|i: int| 0 <= i < k implies is_endpoint(prefix[i], (#[trigger] slots[i]).0) && 0 <= slots[i].1 < 4 by {
        assert(owns_slot(owners, i));
        let s = chosen[i];
        assert(0 <= s < owners.len() && owners[s] == i);
        assert(owners[s] != EMPTY);
        assert(prefix[i] == items[i]);
    }
    assert forall|i: int, j: int| 0 <= i < j < k implies #[trigger] slots[i] != #[trigger] slots[j] by {
        assert(owns_slot(owners, i));
        assert(owns_slot(owners, j));
        let s = chosen[i];
        let u = chosen[j];
        assert(owners[s] == i);
        assert(owners[u] == j);
        if slots[i] == slots[j] {
            assert(s == (s / 4) * 4 + s % 4);
            assert(u == (u / 4) * 4 + u % 4);
        }
    }
    assert(is_orientation(prefix, slots));
}

/// Writing item `x` over slot `slot`, whose owner `p` (if any) has just
/// moved to at most one new slot, leaves every item but `x` with at most one
/// slot, gives `x` one new slot, and hands every other changed slot to an
/// item that owned a slot unvisited before.
proof fn lemma_write_unique(
    o: Seq<usize>,
    f1: Seq<usize>,
    old_seen: Seq<u32>,
    mid_seen: Seq<u32>,
    g: u32,
    slot: int,
    x: int,
    p: usize,
)
    requires
        f1.len() == o.len(),
        old_seen.len() == o.len(),
        mid_seen.len() == o.len(),
        0 <= slot < o.len(),
        o[slot] == p,
        old_seen[slot] != g,
        0 <= x < EMPTY,
        owners_unique(o),
        forall|s: int| 0 <= s < o.len() && #[trigger] o[s] == x ==> old_seen[s] == g,
        forall|s: int| 0 <= s < o.len() && #[trigger] old_seen[s] == g ==> mid_seen[s] == g,
        p == EMPTY ==> f1 == o,
        p != EMPTY ==> owners_unique_except(f1, p as int),
        p != EMPTY ==> forall|s: int, t: int|
            0 <= s < o.len() && 0 <= t < o.len() && #[trigger] f1[s] == p && #[trigger] f1[t] == p && o[s]
                != p && o[t] != p ==> s == t,
        p != EMPTY ==> forall|s: int|
            0 <= s < o.len() && #[trigger] f1[s] != o[s] ==> f1[s] == p || exists|t: int|
                0 <= t < o.len() && o[t] == f1[s] && #[trigger] mid_seen[t] != g,
    ensures
        owners_unique_except(f1.update(slot, x as usize), x),
        forall|s: int, t: int|
            0 <= s < o.len() && 0 <= t < o.len() && #[trigger] f1.update(slot, x as usize)[s] == x
                && #[trigger] f1.update(slot, x as usize)[t] == x && o[s] != x && o[t] != x ==> s == t,
        forall|s: int|
            0 <= s < o.len() && #[trigger] f1.update(slot, x as usize)[s] != o[s] ==> f1.update(slot, x as usize)[s]
                == x || exists|t: int| 0 <= t < o.len() && o[t] == f1.update(slot, x as usize)[s] && #[trigger] old_seen[t] != g,
{
    let f = f1.update(slot, x as usize);
    assert(p != x) by {
        if p as int == x {
            assert(o[slot] == x);
        }
    }
    // No item but `x` has two slots.
    assert forall|u: int, v: int|
        0 <= u < f.len() && 0 <= v < f.len() && u != v && #[trigger] f[u] != EMPTY && f[u] == #[trigger] f[v] implies f[u] == x by {
        if f[u] != x {
            assert(u != slot && v != slot);
            assert(f1[u] == f[u] && f1[v] == f[v]);
            if p == EMPTY {
                assert(o[u] != o[v]);
            } else {
                assert(f1[u] == p);
                if o[u] == p {
                    assert(o[slot] == p);
                    assert(u == slot);
                }
                if o[v] == p {
                    assert(o[slot] == p);
                    assert(v == slot);
                }
                assert(u == v);
            }
        }
    }
    // `x` gains only `slot`.
    assert forall|s: int| 0 <= s < o.len() && f[s] == x && o[s] != x implies s == slot by {
        if s != slot {
            assert(f1[s] == x);
            assert(p != EMPTY);
            assert(f1[s] != o[s]);
            if f1[s] != p {
                let t = choose|t: int| 0 <= t < o.len() && o[t] == f1[s] && #[trigger] mid_seen[t] != g;
                assert(o[t] == x);
                assert(old_seen[t] == g);
            }
        }
    }
    assert forall|s: int|
        0 <= s < o.len() && #[trigger] f[s] != o[s] implies f[s] == x || exists|t: int|
            0 <= t < o.len() && o[t] == f[s] && #[trigger] old_seen[t] != g by {
        if s != slot {
            assert(f1[s] == f[s]);
            assert(p != EMPTY);
            if f1[s] == p {
                assert(o[slot] == f[s] && old_seen[slot] != g);
            } else {
                let t = choose|t: int| 0 <= t < o.len() && o[t] == f1[s] && #[trigger] mid_seen[t] != g;
                assert(old_seen[t] != g);
            }
        }
    }
}

/// Visiting more slots keeps the first `upto` slots of bucket `b` visited.
proof fn lemma_lanes_mono(seen1: Seq<u32>, seen2: Seq<u32>, g: u32, b: int, upto: int)
    requires
        seen1.len() == seen2.len(),
        seen1.len() % 4 == 0,
        0 <= b < seen1.len() / 4,
        upto <= 4,
        forall|k: int| 0 <= k < upto ==> seen1[#[trigger] slot_of(b, k)] == g,
        forall|v: int| 0 <= v < seen1.len() && #[trigger] seen1[v] == g ==> seen2[v] == g,
    ensures
        forall|k: int| 0 <= k < upto ==> seen2[#[trigger] slot_of(b, k)] == g,
{
    lemma_bucket_slots(b, seen1.len() as int);
    assert forall|k: int| 0 <= k < upto implies seen2[#[trigger] slot_of(b, k)] == g by {
        assert(seen1[slot_of(b, k)] == g);
    }
}

/// The slots of bucket `b` lie in a table of `n4` slots.
proof fn lemma_bucket_slots(b: int, n4: int)
    requires
        0 <= b < n4 / 4,
        n4 % 4 == 0,
        n4 >= 0,
    ensures
        b * 4 + 4 <= n4,
{
    assert(b * 4 + 4 <= n4) by (nonlinear_arith)
        requires
            0 <= b < n4 / 4,
            n4 % 4 == 0,
            n4 >= 0,
    ;
}

/// Visiting more slots keeps a closed slot closed.
proof fn lemma_closed_mono(seen1: Seq<u32>, seen2: Seq<u32>, owners: Seq<usize>, items: Seq<Item>, g: u32, s: int)
    requires
        seen1.len() == seen2.len(),
        seen1.len() % 4 == 0,
        closed_slot(seen1, owners, items, g, s),
        0 <= owners[s] < items.len(),
        item_in_range(items[owners[s] as int], seen1.len() as int / 4),
        forall|v: int| 0 <= v < seen1.len() && #[trigger] seen1[v] == g ==> seen2[v] == g,
    ensures
        closed_slot(seen2, owners, items, g, s),
{
    let it = items[owners[s] as int];
    lemma_lanes_mono(seen1, seen2, g, it.first as int, 4);
    lemma_lanes_mono(seen1, seen2, g, it.second as int, 4);
}

/// Depth-first augmenting search from `item_index` over the slots of its
/// endpoints: takes a free slot, or one whose owner can move to another
/// unvisited slot.
///
/// A failed search leaves every slot of the item visited and every slot it
/// visited owned by an item whose slots are all visited, which is what
/// proves that no augmenting path exists.
fn augment_slot(
    item_index: usize,
    items: &[Item],
    owners: &mut Vec<usize>,
    seen: &mut Vec<u32>,
    generation: u32,
    Ghost(limit): Ghost<int>,
) -> (r: bool)
    requires
        item_index < limit <= items@.len(),
        items@.len() < usize::MAX,
        item_in_range(items@[item_index as int], old(owners)@.len() as int / 4),
        old(owners)@.len() % 4 == 0,
        old(seen)@.len() == old(owners)@.len(),
        forall|s: int| 0 <= s < old(seen)@.len() ==> #[trigger] old(seen)@[s] <= generation,
        owners_ok(old(owners)@, items@, limit),
        forall|i: int| 0 <= i < limit ==> item_in_range(#[trigger] items@[i], old(owners)@.len() as int / 4),
        owners_unique(old(owners)@),
        forall|s: int| 0 <= s < old(owners)@.len() && #[trigger] old(owners)@[s] == item_index ==> old(seen)@[s]
            == generation,
    ensures
        final(owners)@.len() == old(owners)@.len(),
        final(seen)@.len() == old(seen)@.len(),
        forall|s: int| 0 <= s < final(seen)@.len() ==> #[trigger] final(seen)@[s] <= generation,
        forall|s: int| 0 <= s < old(seen)@.len() && old(seen)@[s] == generation ==> #[trigger] final(seen)@[s] == generation,
        unvisited(final(seen)@, generation) <= unvisited(old(seen)@, generation),
        owners_ok(final(owners)@, items@, limit),
        forall|s: int| 0 <= s < old(seen)@.len() && old(seen)@[s] == generation ==> #[trigger] final(owners)@[s] == old(owners)@[s],
        !r ==> final(owners)@ == old(owners)@,
        !r ==> bucket_visited(final(seen)@, generation, items@[item_index as int].first as int),
        !r ==> bucket_visited(final(seen)@, generation, items@[item_index as int].second as int),
        !r ==> forall|s: int|
            0 <= s < old(seen)@.len() && old(seen)@[s] != generation && #[trigger] final(seen)@[s] == generation
                ==> closed_slot(final(seen)@, final(owners)@, items@, generation, s),
        r ==> exists|s: int| 0 <= s < final(owners)@.len() && #[trigger] final(owners)@[s] == item_index && old(seen)@[s] != generation,
        r ==> forall|j: int| 0 <= j < items@.len() && j != item_index && #[trigger] owns_slot(old(owners)@, j) ==> owns_slot(final(owners)@, j),
        r ==> owners_unique_except(final(owners)@, item_index as int),
        r ==> forall|s: int, t: int|
            0 <= s < old(owners)@.len() && 0 <= t < old(owners)@.len() && #[trigger] final(owners)@[s] == item_index
                && #[trigger] final(owners)@[t] == item_index && old(owners)@[s] != item_index && old(owners)@[t]
                != item_index ==> s == t,
        r ==> forall|s: int|
            0 <= s < old(owners)@.len() && #[trigger] final(owners)@[s] != old(owners)@[s] ==> final(owners)@[s]
                == item_index || exists|t: int|
                0 <= t < old(owners)@.len() && old(owners)@[t] == final(owners)@[s] && #[trigger] old(seen)@[t]
                    != generation,
    decreases unvisited(old(seen)@, generation),
{
    let item = items[item_index];
    let slot_count = owners.len();
    let ghost n4 = slot_count as int;
    proof {
        lemma_seen_count_bound(seen@, generation, n4);
    }
    let mut position: usize = 0;
    while position < 2
        invariant
            position <= 2,
            item == items@[item_index as int],
            item_in_range(item, n4 / 4),
            n4 == old(owners)@.len(),
            n4 % 4 == 0,
            owners@ == old(owners)@,
            seen@.len() == n4,
            forall|s: int| 0 <= s < n4 ==> #[trigger] seen@[s] <= generation,
            forall|s: int| 0 <= s < n4 && #[trigger] old(seen)@[s] == generation ==> seen@[s] == generation,
            old(seen)@.len() == n4,
            unvisited(seen@, generation) <= unvisited(old(seen)@, generation),
            unvisited(old(seen)@, generation) >= 0,
            n4 <= usize::MAX,
            item_index < limit <= items@.len(),
            items@.len() < usize::MAX,
            owners_ok(old(owners)@, items@, limit),
            forall|i: int| 0 <= i < limit ==> item_in_range(#[trigger] items@[i], n4 / 4),
            owners_unique(old(owners)@),
            forall|s: int| 0 <= s < n4 && #[trigger] old(owners)@[s] == item_index ==> old(seen)@[s] == generation,
            position >= 1 ==> bucket_visited(seen@, generation, item.first as int),
            position >= 2 ==> bucket_visited(seen@, generation, item.second as int),
            forall|s: int|
                0 <= s < n4 && old(seen)@[s] != generation && #[trigger] seen@[s] == generation ==> closed_slot(
                    seen@,
                    owners@,
                    items@,
                    generation,
                    s,
                ),
        decreases 2 - position,
    {
        let bucket = if position == 0 {
            item.first as usize
        } else {
            item.second as usize
        };
        proof {
            lemma_bucket_slots(bucket as int, n4);
        }
        if !(position == 1 && item.second == item.first) {
            let mut lane: usize = 0;
            while lane < CAPACITY
                invariant
                    lane <= CAPACITY,
                    position < 2,
                    bucket < n4 / 4,
                    bucket * 4 + 4 <= n4,
                    bucket == (if position == 0 {
                        item.first
                    } else {
                        item.second
                    }),
                    is_endpoint(item, bucket as int),
                    item == items@[item_index as int],
                    item_in_range(item, n4 / 4),
                    n4 == old(owners)@.len(),
                    n4 % 4 == 0,
                    owners@ == old(owners)@,
                    seen@.len() == n4,
                    forall|s: int| 0 <= s < n4 ==> #[trigger] seen@[s] <= generation,
                    forall|s: int| 0 <= s < n4 && #[trigger] old(seen)@[s] == generation ==> seen@[s] == generation,
                    old(seen)@.len() == n4,
                    unvisited(seen@, generation) <= unvisited(old(seen)@, generation),
                    unvisited(old(seen)@, generation) >= 0,
                    n4 <= usize::MAX,
                    item_index < limit <= items@.len(),
                    items@.len() < usize::MAX,
                    owners_ok(old(owners)@, items@, limit),
                    forall|i: int| 0 <= i < limit ==> item_in_range(#[trigger] items@[i], n4 / 4),
                    owners_unique(old(owners)@),
                    forall|s: int| 0 <= s < n4 && #[trigger] old(owners)@[s] == item_index ==> old(seen)@[s] == generation,
                    position >= 1 ==> bucket_visited(seen@, generation, item.first as int),
                    forall|k: int| 0 <= k < lane ==> seen@[#[trigger] slot_of(bucket as int, k)] == generation,
                    forall|s: int|
                        0 <= s < n4 && old(seen)@[s] != generation && #[trigger] seen@[s] == generation
                            ==> closed_slot(seen@, owners@, items@, generation, s),
                decreases CAPACITY - lane,
            {
                let slot = bucket * CAPACITY + lane;
                assert(slot as int == slot_of(bucket as int, lane as int));
                if seen[slot] != generation {
                    let ghost seen_pre = seen@;
                    proof {
                        lemma_seen_count_mark(seen@, generation, slot as int, n4);
                    }
                    seen.set(slot, generation);
                    proof {
                        lemma_seen_count_bound(seen@, generation, n4);
                        assert(unvisited(seen@, generation) < unvisited(old(seen)@, generation));
                    }
                    let previous = owners[slot];
                    let ghost between = owners@;
                    let ghost seen_between = seen@;
                    proof {
                        if previous != EMPTY {
                            assert(owners_ok(owners@, items@, limit));
                            assert(owners@[slot as int] != EMPTY);
                            assert forall|s: int| 0 <= s < n4 && #[trigger] owners@[s] == previous implies seen@[s] == generation by {
                                if s != slot as int {
                                    assert(old(owners)@[s] != old(owners)@[slot as int]);
                                }
                            }
                        }
                        assert forall|s: int| 0 <= s < seen@.len() implies #[trigger] seen@[s] <= generation by {}
                        assert(old(seen)@[slot as int] != generation);
                    }
                    let moved = if previous == EMPTY {
                        true
                    } else {
                        augment_slot(previous, items, owners, seen, generation, Ghost(limit))
                    };
                    if moved {
                        let ghost before_write = owners@;
                        owners.set(slot, item_index);
                        proof {
                            assert((bucket * 4 + lane) / 4 == bucket) by (nonlinear_arith)
                                requires
                                    lane < 4,
                            ;
                            assert(old(seen)@[slot as int] != generation);
                            assert(owners@[slot as int] == item_index);
                            assert forall|t: int| 0 <= t < owners@.len() && #[trigger] owners@[t] != EMPTY implies owners@[t] < limit && limit <= items@.len() && is_endpoint(items@[owners@[t] as int], t / 4) by {
                                if t != slot as int {
                                    assert(owners@[t] == before_write[t]);
                                }
                            }
                            assert forall|s: int| 0 <= s < old(seen)@.len() && old(seen)@[s] == generation implies #[trigger] owners@[s] == old(owners)@[s] by {
                                assert(seen_pre[s] == generation);
                                assert(s != slot as int);
                                assert(seen_between[s] == generation);
                            }
                            assert forall|j: int| 0 <= j < items@.len() && j != item_index && #[trigger] owns_slot(old(owners)@, j) implies owns_slot(owners@, j) by {
                                if previous == EMPTY {
                                    let s = choose|s: int| 0 <= s < old(owners)@.len() && #[trigger] old(owners)@[s] == j;
                                    assert(s != slot as int);
                                    assert(owners@[s] == j);
                                } else if j == previous as int {
                                    let s = choose|s: int| 0 <= s < before_write.len() && #[trigger] before_write[s] == previous && seen_between[s] != generation;
                                    assert(s != slot as int);
                                    assert(owners@[s] == j);
                                } else {
                                    assert(owns_slot(between, j));
                                    assert(owns_slot(before_write, j));
                                    let s = choose|s: int| 0 <= s < before_write.len() && #[trigger] before_write[s] == j;
                                    assert(before_write[slot as int] == between[slot as int]);
                                    assert(s != slot as int);
                                    assert(owners@[s] == j);
                                }
                            }
                            assert forall|s: int| 0 <= s < n4 && #[trigger] old(seen)@[s] == generation implies seen_between[s] == generation by {
                                assert(seen_pre[s] == generation);
                            }
                            lemma_write_unique(
                                old(owners)@,
                                before_write,
                                old(seen)@,
                                seen_between,
                                generation,
                                slot as int,
                                item_index as int,
                                previous,
                            );
                            assert(owners@ == before_write.update(slot as int, item_index));
                        }
                        return true;
                    }
                    proof {
                        // The owner could not move: every slot it could take
                        // is visited, so this slot is closed too.
                        assert forall|v: int| 0 <= v < n4 && #[trigger] seen_pre[v] == generation implies seen@[v] == generation by {
                            assert(seen_between[v] == generation);
                        }
                        if position >= 1 {
                            lemma_lanes_mono(seen_pre, seen@, generation, item.first as int, 4);
                        }
                        lemma_lanes_mono(seen_pre, seen@, generation, bucket as int, lane as int);
                        assert forall|s: int|
                            0 <= s < n4 && old(seen)@[s] != generation && #[trigger] seen@[s] == generation
                                implies closed_slot(seen@, owners@, items@, generation, s) by {
                            if seen_between[s] != generation {
                            } else if s == slot as int {
                                assert(owners@[s] == previous);
                            } else {
                                assert(seen_pre[s] == generation);
                                assert(closed_slot(seen_pre, owners@, items@, generation, s));
                                assert(owners_ok(owners@, items@, limit));
                                lemma_closed_mono(seen_pre, seen@, owners@, items@, generation, s);
                            }
                        }
                    }
                }
                lane += 1;
            }
            proof {
                if position == 1 {
                    assert(bucket_visited(seen@, generation, item.second as int));
                }
            }
        }
        position += 1;
    }
    false
}

/// The documented oracle error messages, character by character.
pub proof fn law_oracle_error_messages(endpoint: u32, bucket_count: usize)
    ensures
        oracle_error_message(OracleError::BucketCount) =~= seq!['b', 'u', 'c', 'k', 'e', 't', ' ', 'c', 'o', 'u', 'n', 't', ' ', 'm', 'u', 's', 't', ' ', 'b', 'e', ' ', 'n', 'o', 'n', 'z', 'e', 'r', 'o', ' ', 'a', 'n', 'd', ' ', 'a', 'd', 'd', 'r', 'e', 's', 's', 'a', 'b', 'l', 'e', ' ', 'b', 'y', ' ', 'a', ' ', '3', '2', '-', 'b', 'i', 't', ' ', 'b', 'u', 'c', 'k', 'e', 't', ' ', 'i', 'n', 'd', 'e', 'x'],
        oracle_error_message(OracleError::EndpointOutOfRange { endpoint, bucket_count }) =~= seq!['b', 'u', 'c', 'k', 'e', 't', ' ', 'e', 'n', 'd', 'p', 'o', 'i', 'n', 't', ' '] + decimal_chars(endpoint as nat) + seq![' ', 'i', 's', ' ', 'o', 'u', 't', 's', 'i', 'd', 'e', ' ', 'a', ' '] + decimal_chars(bucket_count as nat) + seq!['-', 'b', 'u', 'c', 'k', 'e', 't', ' ', 't', 'a', 'b', 'l', 'e'],
{
    reveal_strlit("bucket count must be nonzero and addressable by a 32-bit bucket index");
    reveal_strlit("bucket endpoint ");
    reveal_strlit(" is outside a ");
    reveal_strlit("-bucket table");
}

} // verus!
