//! The integer core of the benchmark runs: key streams and query domains,
//! verification sampling, builds paused for dense preparation, prefix
//! correctness checks, churn cycles, query builds, seed ranges and the
//! latency sample stream.

use vstd::prelude::*;

verus! {

use vstd::multiset::Multiset;
use vstd::string::StringExecFns;
use crate::config::{InsertStats, Policy, kicked_stats, searched_stats};
use crate::filter::{
    CuckooFilter, dense_prepare_due_spec, kick_step_reads, lemma_label_room_fewer, lemma_label_room_used, ranked_path,
};
use crate::hash::{key_first, key_item, key_second, splitmix64, splitmix64_spec};

/// Salt of the seed of a build's filter.
pub const BUILD_FILTER_SALT: u64 = 0xdead_beef_cafe_babe;
/// Salt of the keys a build inserts.
pub const BUILD_KEY_SALT: u64 = 0x1234_5678_9abc_def0;
/// Salt of the seed of a churn run's filter.
pub const CHURN_FILTER_SALT: u64 = 0x81f1_f5aa_1234;
/// Salt of the keys a churn run inserts.
pub const CHURN_KEY_SALT: u64 = 0xe703_7ed1_a0b4_28db;
/// Salt of the stream that picks the key a churn cycle replaces.
pub const CHURN_PICK_SALT: u64 = 0x9e37_79b9_7f4a_7c15;
/// Salt of the absent keys a query run looks up.
pub const QUERY_KEY_SALT: u64 = 0x6a09_e667_f3bc_c909;
/// Keys of the query domains keep their low bit for the present/absent tag.
pub const DOMAIN_MASK: u64 = 0x7fff_ffff_ffff_ffff;
/// First bytes of a latency sample stream.
pub const LATENCY_SIDECAR_MAGIC: [u8; 8] = [67, 66, 76, 65, 84, 48, 48, 49];

/// Distance between sampled keys: `ceil(item_count / max_samples)`, when
/// both are nonzero.
pub open spec fn stride_spec(item_count: int, max_samples: int) -> Option<int> {
    if item_count > 0 && max_samples > 0 {
        Some((item_count + max_samples - 1) / max_samples)
    } else {
        None
    }
}

/// The sampling stride for verifying at most `max_samples` of
/// `item_count` keys.
pub fn verification_stride(item_count: usize, max_samples: usize) -> (r: Option<usize>)
    ensures
        r is Some == (item_count > 0 && max_samples > 0),
        r matches Some(stride) ==> stride_spec(item_count as int, max_samples as int) == Some(
            stride as int,
        ) && stride >= 1,
{
    if item_count > 0 && max_samples > 0 {
        let quotient = item_count / max_samples;
        let remainder = item_count % max_samples;
        let ghost c = item_count as int;
        let ghost m = max_samples as int;
        proof {
            assert(c == quotient * m + remainder && 0 <= remainder < m) by (nonlinear_arith)
                requires
                    c > 0,
                    m > 0,
                    quotient == c / m,
                    remainder == c % m,
            ;
            if remainder != 0 {
                assert(quotient < c) by (nonlinear_arith)
                    requires
                        c == quotient * m + remainder,
                        remainder > 0,
                        m >= 2,
                        quotient >= 0,
                ;
            }
        }
        let stride = if remainder == 0 {
            quotient
        } else {
            quotient + 1
        };
        proof {
            if remainder == 0 {
                assert(quotient > 0) by (nonlinear_arith)
                    requires
                        c == quotient * m + remainder,
                        remainder == 0,
                        c > 0,
                        quotient >= 0,
                ;
            }
            assert(stride as int == (c + m - 1) / m) by (nonlinear_arith)
                requires
                    c == quotient * m + remainder,
                    0 <= remainder < m,
                    quotient >= 0,
                    stride as int == (if remainder == 0 {
                        quotient as int
                    } else {
                        quotient + 1
                    }),
            ;
        }
        Some(stride)
    } else {
        None
    }
}

/// Whether the filter reports the key.
pub open spec fn reports(filter: &CuckooFilter, key: u64) -> bool {
    filter.items().count(key_item(filter.table_mask(), key)) > 0
}

/// Keys at positions `p, p + stride, ...` below the end that the filter
/// does not report.
pub open spec fn missed_from(filter: &CuckooFilter, keys: Seq<u64>, stride: int, p: int) -> nat {
    count_marked(Seq::new(keys.len(), |i: int| !reports(filter, keys[i])), stride, p)
}

/// Number of marked positions among `p, p + stride, ...` below the end.
#[verifier::opaque]
pub open spec fn count_marked(marks: Seq<bool>, stride: int, p: int) -> nat
    decreases (if p < marks.len() {
        marks.len() - p
    } else {
        0
    }),
{
    if p >= marks.len() || p < 0 || stride <= 0 {
        0
    } else {
        (if marks[p] {
            1nat
        } else {
            0nat
        }) + count_marked(marks, stride, p + stride)
    }
}

/// One step of a strided count.
proof fn lemma_count_step(marks: Seq<bool>, stride: int, p: int)
    requires
        0 <= p < marks.len(),
        stride > 0,
    ensures
        count_marked(marks, stride, p) == (if marks[p] {
            1nat
        } else {
            0nat
        }) + count_marked(marks, stride, p + stride),
        p + stride >= marks.len() ==> count_marked(marks, stride, p + stride) == 0,
{
    reveal(count_marked);
}

/// A strided count over unmarked positions is zero.
proof fn lemma_count_none(marks: Seq<bool>, stride: int, p: int)
    requires
        forall|i: int| 0 <= i < marks.len() ==> !#[trigger] marks[i],
    ensures
        count_marked(marks, stride, p) == 0,
    decreases (if p < marks.len() {
        marks.len() - p
    } else {
        0
    }),
{
    reveal(count_marked);
    if 0 <= p < marks.len() && stride > 0 {
        lemma_count_none(marks, stride, p + stride);
    }
}

/// A filter that stores exactly the items of some keys reports every one
/// of them, so a sample of them misses none.
pub proof fn lemma_stored_keys_none_missed(filter: &CuckooFilter, keys: Seq<u64>, stride: int)
    requires
        filter.items() == key_items(filter.table_mask(), keys),
    ensures
        forall|i: int| 0 <= i < keys.len() ==> reports(filter, #[trigger] keys[i]),
        missed_from(filter, keys, stride, 0) == 0,
{
    assert forall|i: int| 0 <= i < keys.len() implies reports(filter, #[trigger] keys[i]) by {
        lemma_key_items_contains(filter.table_mask(), keys, i);
    }
    let marks = Seq::new(keys.len(), |i: int| !reports(filter, keys[i]));
    assert forall|i: int| 0 <= i < marks.len() implies !#[trigger] marks[i] by {
        assert(reports(filter, keys[i]));
    }
    lemma_count_none(marks, stride, 0);
}

/// Counts the sampled keys that the filter does not report: every
/// `stride`-th key from the first, for at most about `max_samples` keys.
pub fn sampled_false_negatives(filter: &CuckooFilter, keys: &[u64], max_samples: usize) -> (r: usize)
    requires
        filter.wf(),
    ensures
        match stride_spec(keys@.len() as int, max_samples as int) {
            Some(stride) => r == missed_from(filter, keys@, stride, 0),
            None => r == 0,
        },
{
    let stride = match verification_stride(keys.len(), max_samples) {
        Some(stride) => stride,
        None => {
            return 0;
        },
    };
    let ghost marks = Seq::new(keys@.len(), |i: int| !reports(filter, keys@[i]));
    assert(missed_from(filter, keys@, stride as int, 0) == count_marked(marks, stride as int, 0));
    let mut missed: usize = 0;
    let mut position: usize = 0;
    while position < keys.len()
        invariant
            stride >= 1,
            filter.wf(),
            marks.len() == keys@.len(),
            forall|i: int| 0 <= i < keys@.len() ==> #[trigger] marks[i] == !reports(filter, keys@[i]),
            missed + count_marked(marks, stride as int, position as int) == count_marked(
                marks,
                stride as int,
                0,
            ),
            missed <= position,
        decreases keys@.len() - position,
    {
        let found = filter.contains(keys[position]);
        proof {
            assert(marks[position as int] == !found);
            lemma_count_step(marks, stride as int, position as int);
        }
        if !found {
            missed += 1;
        }
        position = match position.checked_add(stride) {
            Some(next) => if next < keys.len() {
                next
            } else {
                keys.len()
            },
            None => keys.len(),
        };
        proof {
            if position == keys@.len() {
                reveal(count_marked);
            }
        }
    }
    proof {
        reveal(count_marked);
    }
    missed
}

/// A key of a query domain: a hashed start plus the index, within 63 bits,
/// shifted up with the low bit marking absent keys.
pub open spec fn query_domain_key_spec(seed: u64, salt: u64, index: usize, absent: bool) -> u64 {
    let start = splitmix64_spec(seed ^ salt) & DOMAIN_MASK;
    let value = vstd::wrapping::u64_specs::wrapping_add(start, index as u64) & DOMAIN_MASK;
    (value << 1u64) | (if absent {
        1u64
    } else {
        0u64
    })
}

/// Key `index` of the present (`absent == false`) or absent query domain.
pub fn query_domain_key(seed: u64, salt: u64, index: usize, absent: bool) -> (r: u64)
    ensures
        r == query_domain_key_spec(seed, salt, index, absent),
        r & 1 == (if absent {
            1u64
        } else {
            0u64
        }),
{
    let start = splitmix64(seed ^ salt) & DOMAIN_MASK;
    let value = start.wrapping_add(index as u64) & DOMAIN_MASK;
    let tag: u64 = if absent {
        1
    } else {
        0
    };
    let r = (value << 1) | tag;
    proof {
        assert(((value << 1u64) | tag) & 1 == tag) by (bit_vector)
            requires
                tag <= 1,
        ;
    }
    r
}

/// Seeds `start..end` of a run of `count` seeds from `start`, refusing an
/// empty run and one whose end overflows.
pub fn seed_range(start: u64, count: u64) -> (r: Result<(u64, u64), String>)
    ensures
        count == 0 ==> r is Err && r->Err_0@ == "--seeds must be greater than zero"@,
        count != 0 && start + count > u64::MAX ==> r is Err && r->Err_0@
            == "--seed-start plus --seeds overflows u64"@,
        count != 0 && start + count <= u64::MAX ==> r == Ok::<(u64, u64), String>(
            (start, (start + count) as u64),
        ),
{
    if count == 0 {
        return Err(String::from_str("--seeds must be greater than zero"));
    }
    match start.checked_add(count) {
        Some(end) => Ok((start, end)),
        None => Err(String::from_str("--seed-start plus --seeds overflows u64")),
    }
}

/// The eight little-endian bytes of `value`.
pub open spec fn le_bytes(value: u64) -> Seq<u8> {
    Seq::new(8, |k: int| ((value >> (8 * k) as u64) & 0xff) as u8)
}

/// The little-endian bytes of a sequence of values, in order.
pub open spec fn le_stream(values: Seq<u64>) -> Seq<u8>
    decreases values.len(),
{
    if values.len() == 0 {
        Seq::empty()
    } else {
        le_stream(values.drop_last()) + le_bytes(values.last())
    }
}

/// A latency sample stream: the magic, the sample count and the samples,
/// each as a little-endian `u64`.
pub open spec fn latency_stream_spec(samples: Seq<u64>) -> Seq<u8> {
    LATENCY_SIDECAR_MAGIC@ + le_bytes(samples.len() as u64) + le_stream(samples)
}

/// Appends the little-endian bytes of `value`.
fn push_le(bytes: &mut Vec<u8>, value: u64)
    ensures
        final(bytes)@ == old(bytes)@ + le_bytes(value),
{
    let mut k: u64 = 0;
    while k < 8
        invariant
            k <= 8,
            bytes@.len() == old(bytes)@.len() + k,
            forall|j: int| 0 <= j < old(bytes)@.len() ==> bytes@[j] == old(bytes)@[j],
            forall|j: int| 0 <= j < k ==> bytes@[old(bytes)@.len() + j] == le_bytes(value)[j],
        decreases 8 - k,
    {
        bytes.push(((value >> (8 * k)) & 0xff) as u8);
        k += 1;
    }
    assert(bytes@ =~= old(bytes)@ + le_bytes(value));
}

/// Encodes latency samples as a counted stream of little-endian `u64`s.
pub fn latency_stream(samples: &[u64]) -> (r: Vec<u8>)
    ensures
        r@ == latency_stream_spec(samples@),
{
    let mut bytes: Vec<u8> = Vec::new();
    let mut k: usize = 0;
    while k < 8
        invariant
            k <= 8,
            bytes@ == LATENCY_SIDECAR_MAGIC@.subrange(0, k as int),
        decreases 8 - k,
    {
        bytes.push(LATENCY_SIDECAR_MAGIC[k]);
        assert(bytes@ =~= LATENCY_SIDECAR_MAGIC@.subrange(0, k as int + 1));
        k += 1;
    }
    assert(LATENCY_SIDECAR_MAGIC@.subrange(0, 8) =~= LATENCY_SIDECAR_MAGIC@);
    push_le(&mut bytes, samples.len() as u64);
    let mut index: usize = 0;
    while index < samples.len()
        invariant
            index <= samples@.len(),
            bytes@ == LATENCY_SIDECAR_MAGIC@ + le_bytes(samples@.len() as u64) + le_stream(
                samples@.subrange(0, index as int),
            ),
        decreases samples@.len() - index,
    {
        let ghost before = bytes@;
        push_le(&mut bytes, samples[index]);
        proof {
            let prefix = samples@.subrange(0, index as int + 1);
            assert(prefix.drop_last() =~= samples@.subrange(0, index as int));
            assert(prefix.last() == samples@[index as int]);
            assert(bytes@ =~= LATENCY_SIDECAR_MAGIC@ + le_bytes(samples@.len() as u64) + le_stream(prefix));
        }
        index += 1;
    }
    assert(samples@.subrange(0, samples@.len() as int) =~= samples@);
    bytes
}


/// A SplitMix64 stream: `start`, then each state mixed from the one before.
#[verifier::opaque]
pub open spec fn key_stream(start: u64, k: nat) -> u64
    decreases k,
{
    if k == 0 {
        start
    } else {
        splitmix64_spec(key_stream(start, (k - 1) as nat))
    }
}

/// One step of a SplitMix64 stream.
proof fn lemma_key_stream_step(start: u64, k: nat)
    ensures
        key_stream(start, 0) == start,
        key_stream(start, k + 1) == splitmix64_spec(key_stream(start, k)),
{
    reveal(key_stream);
}

/// State of a build's key stream before key `k` is drawn.
pub open spec fn build_state(seed: u64, k: nat) -> u64 {
    key_stream(splitmix64_spec(seed ^ BUILD_KEY_SALT), k)
}

/// Key `k` of a build for `seed`.
pub open spec fn build_key(seed: u64, k: nat) -> u64 {
    build_state(seed, k + 1)
}

/// The items of the first `n` keys of a build.
#[verifier::opaque]
pub open spec fn build_items(mask: u32, seed: u64, n: nat) -> Multiset<(u16, u32)>
    decreases n,
{
    if n == 0 {
        Multiset::empty()
    } else {
        build_items(mask, seed, (n - 1) as nat).insert(key_item(mask, build_key(seed, (n - 1) as nat)))
    }
}

/// One step of a build's key stream and of its items.
proof fn lemma_build_step(mask: u32, seed: u64, k: nat)
    ensures
        build_state(seed, 0) == splitmix64_spec(seed ^ BUILD_KEY_SALT),
        build_state(seed, k + 1) == splitmix64_spec(build_state(seed, k)),
        build_items(mask, seed, 0) == Multiset::<(u16, u32)>::empty(),
        build_items(mask, seed, k + 1) == build_items(mask, seed, k).insert(key_item(mask, build_key(seed, k))),
{
    lemma_key_stream_step(splitmix64_spec(seed ^ BUILD_KEY_SALT), k);
    reveal(build_items);
}

/// One step of a build's key stream.
proof fn lemma_build_state_step(seed: u64, k: nat)
    ensures
        build_state(seed, k + 1) == splitmix64_spec(build_state(seed, k)),
{
    lemma_key_stream_step(splitmix64_spec(seed ^ BUILD_KEY_SALT), k);
}

/// Every one of the first `n` keys has its item among the first `n` items.
proof fn lemma_build_items_hold(mask: u32, seed: u64, n: nat, j: nat)
    requires
        j < n,
    ensures
        build_items(mask, seed, n).count(key_item(mask, build_key(seed, j))) > 0,
    decreases n,
{
    lemma_build_step(mask, seed, (n - 1) as nat);
    if j < n - 1 {
        lemma_build_items_hold(mask, seed, (n - 1) as nat, j);
    }
}

/// Lookups made by checking every prefix of `n` keys: `1 + 2 + ... + n`.
pub open spec fn prefix_checks(n: nat) -> nat
    decreases n,
{
    if n == 0 {
        0
    } else {
        prefix_checks((n - 1) as nat) + n
    }
}

/// The lookups after `n` successful insertions number `n (n + 1) / 2`.
pub proof fn lemma_prefix_checks_closed_form(n: nat)
    ensures
        prefix_checks(n) == n * (n + 1) / 2,
    decreases n,
{
    if n > 0 {
        let m = (n - 1) as nat;
        lemma_prefix_checks_closed_form(m);
        assert(prefix_checks(n) == prefix_checks(m) + n);
        assert(n * (n + 1) / 2 == m * (m + 1) / 2 + n) by (nonlinear_arith)
            requires
                m + 1 == n,
        ;
        assert(prefix_checks(n) == n * (n + 1) / 2);
    } else {
        assert(n * (n + 1) / 2 == 0) by (nonlinear_arith)
            requires
                n == 0,
        ;
    }
}

/// More keys need more prefix lookups.
proof fn lemma_prefix_checks_mono(a: nat, b: nat)
    requires
        a <= b,
    ensures
        prefix_checks(a) <= prefix_checks(b),
    decreases b,
{
    if a < b {
        lemma_prefix_checks_mono(a, (b - 1) as nat);
    }
}

/// The filter stores exactly the items of the first `n` keys of a build.
pub open spec fn holds_build(filter: &CuckooFilter, mask: u32, seed: u64, n: nat) -> bool {
    filter.items() == build_items(mask, seed, n)
}

/// Counters of an insertion run that checks every successful prefix.
#[derive(Clone, Copy, Debug)]
pub struct PrefixCheck {
    /// Keys inserted.
    pub inserted: usize,
    /// Insertions after which every inserted key was found.
    pub successful_insertions_checked: usize,
    /// Lookups made.
    pub membership_checks: u64,
    /// One when a lookup missed an inserted key, else zero.
    pub false_negatives: usize,
    /// Keys inserted when the miss was found.
    pub false_negative_detected_at: usize,
    /// The first key that was missed.
    pub first_false_negative_key: u64,
    /// Whether an insertion failed.
    pub failed_attempt: bool,
    /// Keys inserted before the failed insertion.
    pub failed_at: usize,
    /// Relocations of the failed insertion.
    pub failed_relocations: u32,
    /// Bucket reads of the failed insertion.
    pub failed_reads: u32,
    /// Bucket writes of the failed insertion.
    pub failed_writes: u32,
    /// Whether the filter stayed usable.
    pub filter_usable: bool,
}

/// Bucket reads of an insertion that failed after `max_kicks` relocations
/// from two full candidates: a ranked one reads both candidates and the
/// four alternate buckets of every bucket it relocates from; the others
/// read each distinct candidate once, then per relocation the full bucket,
/// the alternate buckets their policy scores and the next bucket. Stated
/// when the count cannot wrap.
pub open spec fn failed_kick_reads(policy: Policy, ranked: bool, same_bucket: bool, max_kicks: u32, reads: u32) -> bool {
    if ranked {
        6 + 4 * max_kicks <= u32::MAX ==> reads == 2 + 4 * max_kicks
    } else {
        let base: int = if same_bucket {
            1
        } else {
            2
        };
        base + kick_step_reads(policy, max_kicks as int) + 4 <= u32::MAX ==> reads == base + kick_step_reads(
            policy,
            max_kicks as int,
        )
    }
}

/// A failed insertion reads more buckets than it relocates: its
/// candidates, and per relocation at least the bucket it evicts from and
/// the next bucket, so its reads exceed twice its `max_kicks` relocations.
pub proof fn law_failed_reads_exceed_relocations(
    policy: Policy,
    ranked: bool,
    same_bucket: bool,
    max_kicks: u32,
    reads: u32,
)
    requires
        failed_kick_reads(policy, ranked, same_bucket, max_kicks, reads),
        6 + 6 * max_kicks <= u32::MAX,
    ensures
        reads > 2 * max_kicks,
{
}

/// Relocations, reads and writes of one successful insertion: one write
/// per relocation plus the final placement, and without breadth-first
/// search at least one read of a candidate and two per relocation (stated
/// when the count cannot wrap).
pub open spec fn counters_consistent(relocations: u32, reads: u32, writes: u32, policy: Policy, max_kicks: u32) -> bool {
    &&& relocations < u32::MAX ==> writes == relocations + 1
    &&& policy != Policy::Bfs && 8 * max_kicks + 8 <= u32::MAX ==> reads >= 1 + 2 * relocations
}

/// Counters of a successful insertion, whatever path it took: one bucket
/// written per relocation plus the final placement; without breadth-first
/// search, at least one read of a candidate and two per relocation (the
/// bucket evicted from and the next one, stated when the count cannot
/// wrap); and no more guarded steps than relocations, each checking between
/// one candidate more than it rejects and four.
pub open spec fn recorded_success(stats: InsertStats, policy: Policy, max_kicks: u32) -> bool {
    &&& counters_consistent(stats.relocations, stats.bucket_reads, stats.bucket_writes, policy, max_kicks)
    &&& stats.path_guarded_steps <= stats.relocations
    &&& 4 * max_kicks <= u32::MAX ==> stats.path_guarded_steps + stats.path_seen_candidates_rejected
        <= stats.path_checks <= 4 * stats.path_guarded_steps
}

/// Inserts one key, and tells what a prefix check needs of the outcome.
fn insert_key(filter: &mut CuckooFilter, key: u64) -> (stats: InsertStats)
    requires
        old(filter).wf(),
        old(filter).label_room(1),
    ensures
        forall|b: int|
            #[trigger] old(filter).labels_at_most(b) ==> final(filter).labels_at_most(b + old(filter).max_kicks_spec() + 1),
        final(filter).wf(),
        final(filter).same_setup(old(filter)),
        stats.inserted ==> final(filter).len_spec() == old(filter).len_spec() + 1,
        !stats.inserted ==> final(filter).len_spec() == old(filter).len_spec(),
        stats.filter_usable == (stats.inserted || old(filter).policy_spec() == Policy::Bfs),
        stats.inserted
            ==> final(filter).items() == old(filter).items().insert(key_item(old(filter).table_mask(), key)),
        !stats.inserted
            && stats.filter_usable ==> final(filter).items() == old(filter).items(),
        !stats.inserted && old(filter).policy_spec() != Policy::Bfs ==> stats.relocations
            == old(filter).max_kicks_spec() && stats.bucket_writes == old(filter).max_kicks_spec(),
        !stats.inserted && old(filter).policy_spec() == Policy::Bfs ==> stats.relocations == 0
            && stats.bucket_writes == 0,
        !stats.inserted ==> !final(filter).has_room(key_first(old(filter).table_mask(), key) as int)
            && !final(filter).has_room(key_second(old(filter).table_mask(), key) as int),
        stats.inserted ==> recorded_success(stats, old(filter).policy_spec(), old(filter).max_kicks_spec()),
        !stats.inserted && old(filter).policy_spec() != Policy::Bfs ==> failed_kick_reads(
            old(filter).policy_spec(),
            ranked_path(old(filter).policy_spec(), final(filter).ranked_ready()),
            key_first(old(filter).table_mask(), key) == key_second(old(filter).table_mask(), key),
            old(filter).max_kicks_spec(),
            stats.bucket_reads,
        ),
{
    proof {
        filter.lemma_key_candidates(key);
    }
    let stats = filter.insert(key);
    proof {
        if !stats.inserted {
            if old(filter).policy_spec() != Policy::Bfs {
                assert(kicked_stats(stats, old(filter).max_kicks_spec()));
            } else {
                assert(searched_stats(stats));
            }
        }
    }
    stats
}

/// Inserts the keys of a build for `seed` into an empty filter until
/// `target` keys are stored or an insertion fails, and after each
/// successful insertion looks up every key inserted so far.
///
/// No lookup misses: every successful prefix is checked in full.
pub fn check_prefixes(filter: &mut CuckooFilter, seed: u64, target: usize) -> (r: PrefixCheck)
    requires
        old(filter).wf(),
        old(filter).len_spec() == 0,
        prefix_checks(target as nat) <= u64::MAX,
        old(filter).label_room(target as int),
    ensures
        final(filter).wf(),
        final(filter).len_spec() == r.inserted,
        r.inserted <= target,
        r.failed_attempt ==> r.failed_at == r.inserted,
        r.failed_attempt ==> !final(filter).has_room(
            key_first(old(filter).table_mask(), build_key(seed, r.inserted as nat)) as int,
        ) && !final(filter).has_room(key_second(old(filter).table_mask(), build_key(seed, r.inserted as nat)) as int),
        !r.failed_attempt ==> r.failed_at == 0 && r.failed_relocations == 0 && r.failed_reads == 0
            && r.failed_writes == 0,
        r.filter_usable == (!r.failed_attempt || old(filter).policy_spec() == Policy::Bfs),
        r.failed_attempt && old(filter).policy_spec() != Policy::Bfs ==> r.failed_relocations
            == old(filter).max_kicks_spec() && r.failed_writes == old(filter).max_kicks_spec(),
        r.failed_attempt && old(filter).policy_spec() == Policy::Bfs ==> r.failed_relocations == 0
            && r.failed_writes == 0,
        r.failed_attempt && old(filter).policy_spec() != Policy::Bfs ==> failed_kick_reads(
            old(filter).policy_spec(),
            ranked_path(old(filter).policy_spec(), final(filter).ranked_ready()),
            key_first(old(filter).table_mask(), build_key(seed, r.inserted as nat)) == key_second(
                old(filter).table_mask(),
                build_key(seed, r.inserted as nat),
            ),
            old(filter).max_kicks_spec(),
            r.failed_reads,
        ),
        r.false_negatives == 0,
        r.false_negative_detected_at == 0,
        r.first_false_negative_key == 0,
        r.failed_attempt == (r.inserted < target),
        r.successful_insertions_checked == r.inserted,
        r.membership_checks == prefix_checks(r.inserted as nat),
        r.membership_checks == r.inserted * (r.inserted + 1) / 2,
        !r.failed_attempt ==> final(filter).items() == build_items(
            old(filter).table_mask(),
            seed,
            r.inserted as nat,
        ),
{
    let ghost mask = filter.table_mask();
    let ghost policy = filter.policy_spec();
    let ghost max_kicks = filter.max_kicks_spec();
    proof {
        lemma_build_step(mask, seed, 0);
        assert(filter.items() =~= build_items(mask, seed, 0)) by {
            filter.lemma_len_bound();
            vstd::multiset::lemma_multiset_empty_len(filter.items());
        }
    }
    let mut keys: Vec<u64> = Vec::new();
    let mut key_state = splitmix64(seed ^ BUILD_KEY_SALT);
    let mut result = PrefixCheck {
        inserted: 0,
        successful_insertions_checked: 0,
        membership_checks: 0,
        false_negatives: 0,
        false_negative_detected_at: 0,
        first_false_negative_key: 0,
        failed_attempt: false,
        failed_at: 0,
        failed_relocations: 0,
        failed_reads: 0,
        failed_writes: 0,
        filter_usable: true,
    };
    while keys.len() < target
        invariant
            filter.wf(),
            filter.table_mask() == mask,
            filter.policy_spec() == policy,
            filter.max_kicks_spec() == max_kicks,
            old(filter).table_mask() == mask,
            old(filter).policy_spec() == policy,
            old(filter).max_kicks_spec() == max_kicks,
            prefix_checks(target as nat) <= u64::MAX,
            keys@.len() <= target,
            filter.len_spec() == keys@.len(),
            key_state == build_state(seed, keys@.len() as nat),
            forall|i: int| 0 <= i < keys@.len() ==> #[trigger] keys@[i] == build_key(seed, i as nat),
            holds_build(filter, mask, seed, keys@.len() as nat),
            result.successful_insertions_checked == keys@.len(),
            result.membership_checks == prefix_checks(keys@.len() as nat),
            result.successful_insertions_checked <= keys@.len(),
            result.membership_checks <= prefix_checks(keys@.len() as nat),
            result.false_negatives == 0,
            result.false_negative_detected_at == 0,
            result.first_false_negative_key == 0,
            !result.failed_attempt,
            result.failed_at == 0,
            result.failed_relocations == 0,
            result.failed_reads == 0,
            result.failed_writes == 0,
            result.filter_usable,
            filter.label_room(target - keys@.len()),
        decreases target - keys@.len(),
    {
        proof {
            lemma_build_step(mask, seed, keys@.len() as nat);
        }
        key_state = splitmix64(key_state);
        let ghost before = filter.items();
        let ghost before_filter = *filter;
        proof {
            lemma_label_room_fewer(filter, target - keys@.len(), 1);
        }
        let stats = insert_key(filter, key_state);
        if !stats.inserted {
            result.failed_attempt = true;
            result.failed_at = keys.len();
            result.failed_relocations = stats.relocations;
            result.failed_reads = stats.bucket_reads;
            result.failed_writes = stats.bucket_writes;
            result.filter_usable = stats.filter_usable;
            result.inserted = keys.len();
            proof {
                lemma_prefix_checks_closed_form(result.inserted as nat);
            }
            return result;
        }
        keys.push(key_state);
        proof {
            lemma_label_room_used(&before_filter, filter, target - keys@.len());
            let n = keys@.len() as nat;
            assert(key_state == build_key(seed, (n - 1) as nat));
            assert(holds_build(filter, mask, seed, n));
            lemma_prefix_checks_mono(n, target as nat);
            assert(prefix_checks(n) == prefix_checks((n - 1) as nat) + n);
        }
        let ghost checks_before = result.membership_checks;
        let mut checks = result.membership_checks;
        let mut missing: Option<u64> = None;
        let mut index: usize = 0;
        while index < keys.len() && missing.is_none()
            invariant
                filter.wf(),
                filter.table_mask() == mask,
                holds_build(filter, mask, seed, keys@.len() as nat),
                forall|i: int| 0 <= i < keys@.len() ==> #[trigger] keys@[i] == build_key(seed, i as nat),
                index <= keys@.len(),
                checks_before + keys@.len() <= u64::MAX,
                checks == checks_before + index,
                missing is None,
            decreases keys@.len() - index,
        {
            checks = checks + 1;
            let key = keys[index];
            if !filter.contains(key) {
                proof {
                    lemma_build_items_hold(mask, seed, keys@.len() as nat, index as nat);
                }
                missing = Some(key);
            }
            index += 1;
        }
        result.membership_checks = checks;
        if let Some(key) = missing {
            result.false_negatives = 1;
            result.false_negative_detected_at = keys.len();
            result.first_false_negative_key = key;
            result.inserted = keys.len();
            proof {
                lemma_prefix_checks_closed_form(result.inserted as nat);
            }
            return result;
        }
        result.successful_insertions_checked = result.successful_insertions_checked + 1;
    }
    result.inserted = keys.len();
    proof {
        lemma_prefix_checks_closed_form(result.inserted as nat);
    }
    result
}


/// The items of a sequence of keys.
pub open spec fn key_items(mask: u32, keys: Seq<u64>) -> Multiset<(u16, u32)> {
    keys.map_values(|k: u64| key_item(mask, k)).to_multiset()
}

/// Appending a key adds its item.
proof fn lemma_key_items_push(mask: u32, keys: Seq<u64>, k: u64)
    ensures
        key_items(mask, keys.push(k)) == key_items(mask, keys).insert(key_item(mask, k)),
{
    let f = |x: u64| key_item(mask, x);
    assert(keys.push(k).map_values(f) =~= keys.map_values(f).push(key_item(mask, k)));
    vstd::seq_lib::to_multiset_build(keys.map_values(f), key_item(mask, k));
}

/// The item of every key is among the items of its sequence.
proof fn lemma_key_items_contains(mask: u32, keys: Seq<u64>, i: int)
    requires
        0 <= i < keys.len(),
    ensures
        key_items(mask, keys).count(key_item(mask, keys[i])) > 0,
{
    let mapped = keys.map_values(|x: u64| key_item(mask, x));
    assert(mapped[i] == key_item(mask, keys[i]));
    assert(mapped.contains(key_item(mask, keys[i])));
    vstd::seq_lib::to_multiset_contains(mapped, key_item(mask, keys[i]));
}

/// Replacing a key exchanges its item for the new key's.
proof fn lemma_key_items_update(mask: u32, keys: Seq<u64>, i: int, k: u64)
    requires
        0 <= i < keys.len(),
    ensures
        key_items(mask, keys.update(i, k)) == key_items(mask, keys).insert(key_item(mask, k)).remove(
            key_item(mask, keys[i]),
        ),
{
    let f = |x: u64| key_item(mask, x);
    assert(keys.update(i, k).map_values(f) =~= keys.map_values(f).update(i, key_item(mask, k)));
    vstd::seq_lib::to_multiset_update(keys.map_values(f), i, key_item(mask, k));
}

/// Moving the last key over key `i` and dropping the last drops key `i`'s
/// item.
proof fn lemma_key_items_swap_remove(mask: u32, keys: Seq<u64>, i: int)
    requires
        0 <= i < keys.len(),
    ensures
        key_items(mask, keys.update(i, keys.last()).drop_last()) == key_items(mask, keys).remove(
            key_item(mask, keys[i]),
        ),
{
    let f = |x: u64| key_item(mask, x);
    let moved = keys.update(i, keys.last());
    lemma_key_items_update(mask, keys, i, keys.last());
    assert(moved.drop_last() =~= moved.remove(moved.len() - 1));
    assert(moved.remove(moved.len() - 1).map_values(f) =~= moved.map_values(f).remove(moved.len() - 1));
    vstd::seq_lib::to_multiset_remove(moved.map_values(f), moved.len() - 1);
    assert(moved.map_values(f)[moved.len() - 1] == key_item(mask, keys.last()));
    let m = key_items(mask, keys);
    lemma_key_items_contains(mask, keys, i);
    assert(m.insert(key_item(mask, keys.last())).remove(key_item(mask, keys[i])).remove(
        key_item(mask, keys.last()),
    ) =~= m.remove(key_item(mask, keys[i])));
}

/// Key `k` of a churn run for `seed`.
pub open spec fn churn_key(seed: u64, k: nat) -> u64 {
    key_stream(splitmix64_spec(seed ^ CHURN_KEY_SALT), k + 1)
}

/// Keys that a churn run holds, and where its key stream stands.
pub struct ChurnState {
    /// Keys inserted and not yet replaced.
    pub active: Vec<u64>,
    /// State of the key stream.
    pub key_state: u64,
    /// Keys drawn from the stream so far.
    pub drawn: Ghost<nat>,
    /// Whether every insertion so far succeeded.
    pub reached: bool,
    /// Whether the filter is still usable.
    pub filter_usable: bool,
}

/// Inserts the keys of a churn run for `seed` into an empty filter until
/// `target` keys are stored or an insertion fails.
pub fn churn_prefill(filter: &mut CuckooFilter, seed: u64, target: usize) -> (r: ChurnState)
    requires
        old(filter).wf(),
        old(filter).len_spec() == 0,
        old(filter).label_room(target as int),
    ensures
        final(filter).wf(),
        final(filter).same_setup(old(filter)),
        r.active@.len() <= target,
        r.reached == (r.active@.len() == target),
        !r.reached ==> !final(filter).has_room(
            key_first(old(filter).table_mask(), churn_key(seed, r.active@.len() as nat)) as int,
        ) && !final(filter).has_room(
            key_second(old(filter).table_mask(), churn_key(seed, r.active@.len() as nat)) as int,
        ),
        r.drawn@ == r.active@.len() + (if r.reached {
            0int
        } else {
            1int
        }),
        r.key_state == key_stream(splitmix64_spec(seed ^ CHURN_KEY_SALT), r.drawn@),
        forall|i: int| 0 <= i < r.active@.len() ==> #[trigger] r.active@[i] == churn_key(seed, i as nat),
        r.filter_usable == (r.reached || old(filter).policy_spec() == Policy::Bfs),
        r.filter_usable
            ==> final(filter).items() == key_items(old(filter).table_mask(), r.active@),
{
    let ghost mask = filter.table_mask();
    let ghost start = splitmix64_spec(seed ^ CHURN_KEY_SALT);
    let ghost entry = *filter;
    proof {
        lemma_key_stream_step(start, 0);
        filter.lemma_len_bound();
        vstd::multiset::lemma_multiset_empty_len(filter.items());
        let none = Seq::<u64>::empty().map_values(|k: u64| key_item(mask, k));
        vstd::seq_lib::to_multiset_len(none);
        vstd::multiset::lemma_multiset_empty_len(none.to_multiset());
        assert(filter.items() =~= key_items(mask, Seq::<u64>::empty()));
    }
    let mut state = ChurnState {
        active: Vec::new(),
        key_state: splitmix64(seed ^ CHURN_KEY_SALT),
        drawn: Ghost(0),
        reached: true,
        filter_usable: true,
    };
    while state.active.len() < target
        invariant
            filter.wf(),
            filter.same_setup(&entry),
            entry == *old(filter),
            mask == entry.table_mask(),
            start == splitmix64_spec(seed ^ CHURN_KEY_SALT),
            state.active@.len() <= target,
            state.drawn@ == state.active@.len(),
            state.key_state == key_stream(start, state.drawn@),
            forall|i: int| 0 <= i < state.active@.len() ==> #[trigger] state.active@[i] == churn_key(seed, i as nat),
            state.reached,
            state.filter_usable,
            filter.items() == key_items(mask, state.active@),
            filter.label_room(target - state.active@.len()),
        decreases target - state.active@.len(),
    {
        proof {
            lemma_key_stream_step(start, state.drawn@);
        }
        state.key_state = splitmix64(state.key_state);
        state.drawn = Ghost(state.drawn@ + 1);
        let ghost before_filter = *filter;
        proof {
            lemma_label_room_fewer(filter, target - state.active@.len(), 1);
        }
        let stats = insert_key(filter, state.key_state);
        if !stats.inserted {
            state.reached = false;
            state.filter_usable = stats.filter_usable;
            return state;
        }
        let ghost before = state.active@;
        state.active.push(state.key_state);
        proof {
            lemma_label_room_used(&before_filter, filter, target - state.active@.len());
            lemma_key_items_push(mask, before, state.key_state);
        }
    }
    state
}

/// Counters of churn cycles.
#[derive(Clone, Copy, Debug)]
pub struct ChurnCycles {
    /// Cycles completed.
    pub completed: usize,
    /// One when the key picked for replacement was not found, else zero.
    pub false_negatives: usize,
}


/// Runs up to `operations` churn cycles on the keys of `state`: each picks
/// an active key with the pick stream for `seed`, removes it, inserts the
/// next key of the stream in its place, and records the insertion's
/// relocations, bucket reads and bucket writes. Stops at the first removal
/// that misses or insertion that fails; a failed insertion drops the picked
/// key from the active keys.
///
/// No removal misses, and while the filter stays usable it stores exactly
/// the active keys.
pub fn churn_cycles(
    filter: &mut CuckooFilter,
    state: &mut ChurnState,
    seed: u64,
    operations: usize,
    relocations: &mut Vec<u32>,
    reads: &mut Vec<u32>,
    writes: &mut Vec<u32>,
) -> (r: ChurnCycles)
    requires
        old(filter).wf(),
        old(state).reached ==> old(state).active@.len() > 0 && old(state).filter_usable,
        old(filter).label_room(operations as int),
        old(state).key_state == key_stream(splitmix64_spec(seed ^ CHURN_KEY_SALT), old(state).drawn@),
        old(state).filter_usable ==> old(filter).items() == key_items(
            old(filter).table_mask(),
            old(state).active@,
        ),
    ensures
        final(filter).wf(),
        final(filter).same_setup(old(filter)),
        r.completed <= operations,
        final(relocations)@.len() == old(relocations)@.len() + r.completed,
        final(reads)@.len() == old(reads)@.len() + r.completed,
        final(writes)@.len() == old(writes)@.len() + r.completed,
        forall|k: int|
            old(relocations)@.len() <= k < final(relocations)@.len() ==> counters_consistent(
                #[trigger] final(relocations)@[k],
                final(reads)@[k - old(relocations)@.len() + old(reads)@.len()],
                final(writes)@[k - old(relocations)@.len() + old(writes)@.len()],
                old(filter).policy_spec(),
                old(filter).max_kicks_spec(),
            ),
        !old(state).reached ==> r.completed == 0 && r.false_negatives == 0 && *final(state) == *old(state),
        final(state).key_state == key_stream(splitmix64_spec(seed ^ CHURN_KEY_SALT), final(state).drawn@),
        old(state).reached && final(state).reached ==> r.completed == operations,
        r.false_negatives == 0,
        old(state).reached ==> (final(state).reached <==> r.completed == operations),
        old(state).reached && !final(state).reached ==> final(state).filter_usable == (old(
            filter,
        ).policy_spec() == Policy::Bfs) && final(state).active@.len() == old(state).active@.len() - 1,
        final(state).reached ==> final(state).active@.len() == old(state).active@.len(),
        final(state).filter_usable ==> final(filter).items() == key_items(
            old(filter).table_mask(),
            final(state).active@,
        ),
{
    let ghost mask = filter.table_mask();
    let ghost start = splitmix64_spec(seed ^ CHURN_KEY_SALT);
    let ghost entry = *filter;
    let ghost entry_state = *state;
    let ghost len = state.active@.len();
    let ghost relocations0 = relocations@.len();
    let ghost reads0 = reads@.len();
    let ghost writes0 = writes@.len();
    let mut chooser = splitmix64(seed ^ CHURN_PICK_SALT);
    let mut completed: usize = 0;
    let mut false_negatives: usize = 0;
    while state.reached && completed < operations
        invariant
            filter.wf(),
            filter.same_setup(&entry),
            entry == *old(filter),
            entry_state == *old(state),
            mask == entry.table_mask(),
            start == splitmix64_spec(seed ^ CHURN_KEY_SALT),
            completed <= operations,
            relocations@.len() == relocations0 + completed,
            reads@.len() == reads0 + completed,
            writes@.len() == writes0 + completed,
            relocations0 == old(relocations)@.len(),
            reads0 == old(reads)@.len(),
            writes0 == old(writes)@.len(),
            forall|k: int|
                relocations0 <= k < relocations@.len() ==> counters_consistent(
                    #[trigger] relocations@[k],
                    reads@[k - relocations0 + reads0],
                    writes@[k - relocations0 + writes0],
                    entry.policy_spec(),
                    entry.max_kicks_spec(),
                ),
            state.key_state == key_stream(start, state.drawn@),
            !entry_state.reached ==> completed == 0 && *state == entry_state && *filter == entry,
            state.reached == entry_state.reached,
            state.reached ==> state.active@.len() == len && len > 0 && state.filter_usable,
            len == entry_state.active@.len(),
            false_negatives == 0,
            false_negatives == 0,
            state.reached ==> filter.items() == key_items(mask, state.active@),
            filter.label_room(operations - completed),
        decreases operations - completed,
    {
        chooser = splitmix64(chooser);
        let index = (chooser as usize) % state.active.len();
        let picked = state.active[index];
        let ghost active = state.active@;
        proof {
            lemma_key_items_contains(mask, active, index as int);
        }
        if !filter.remove(picked) {
            state.reached = false;
            state.filter_usable = false;
            return ChurnCycles { completed, false_negatives: 1 };
        }
        let ghost removed = filter.items();
        proof {
            lemma_key_stream_step(start, state.drawn@);
        }
        state.key_state = splitmix64(state.key_state);
        state.drawn = Ghost(state.drawn@ + 1);
        let ghost before_filter = *filter;
        proof {
            assert(filter.label_room(operations - completed));
            lemma_label_room_fewer(filter, operations - completed, 1);
        }
        let stats = insert_key(filter, state.key_state);
        if !stats.inserted {
            state.active.swap_remove(index);
            proof {
                lemma_key_items_swap_remove(mask, active, index as int);
            }
            state.reached = false;
            state.filter_usable = stats.filter_usable;
            return ChurnCycles { completed, false_negatives };
        }
        state.active.set(index, state.key_state);
        proof {
            lemma_key_items_update(mask, active, index as int, state.key_state);
            let before = key_items(mask, active);
            assert(before.remove(key_item(mask, picked)).insert(key_item(mask, state.key_state))
                =~= before.insert(key_item(mask, state.key_state)).remove(key_item(mask, picked)));
        }
        relocations.push(stats.relocations);
        reads.push(stats.bucket_reads);
        writes.push(stats.bucket_writes);
        proof {
            lemma_label_room_used(&before_filter, filter, operations - completed - 1);
        }
        completed = completed + 1;
    }
    ChurnCycles { completed, false_negatives }
}


/// Whether the `stored`-th stored key is kept as a sample with stride
/// `step`: the first, then one per stride.
fn sample_position(stored: usize, step: usize) -> (r: bool)
    requires
        step >= 1,
    ensures
        r == (stored % step == 1usize % step),
{
    stored % step == 1usize % step
}

/// Key `k` of the present query domain for `seed`.
pub open spec fn present_key(seed: u64, k: nat) -> u64 {
    query_domain_key_spec(seed, BUILD_KEY_SALT, k as usize, false)
}

/// Outcome of building a filter from the present query domain.
#[derive(Clone, Copy, Debug)]
pub struct QueryBuild {
    /// Whether `target` keys were stored.
    pub reached: bool,
    /// Whether the filter is usable and no sampled key was missed.
    pub filter_usable: bool,
    /// Sampled keys the filter did not report.
    pub false_negatives: usize,
}

/// Inserts keys `0, 1, ...` of the present query domain for `seed` into an
/// empty filter until `target` are stored or an insertion fails, keeping
/// every `stride`-th stored key (the first, then one per stride) as a
/// sample of at most about `verify_samples`, and counts the sampled keys
/// the filter does not report.
///
/// No sampled key is missed unless a failed insertion left the filter
/// unusable.
pub fn query_build(filter: &mut CuckooFilter, seed: u64, target: usize, verify_samples: usize) -> (r: QueryBuild)
    requires
        old(filter).wf(),
        old(filter).len_spec() == 0,
        old(filter).label_room(target as int),
    ensures
        final(filter).wf(),
        final(filter).same_setup(old(filter)),
        final(filter).len_spec() <= target,
        r.reached == (final(filter).len_spec() == target),
        !r.reached ==> !final(filter).has_room(
            key_first(old(filter).table_mask(), present_key(seed, final(filter).len_spec())) as int,
        ) && !final(filter).has_room(
            key_second(old(filter).table_mask(), present_key(seed, final(filter).len_spec())) as int,
        ),
        r.false_negatives <= final(filter).len_spec(),
        r.filter_usable == ((r.reached || old(filter).policy_spec() == Policy::Bfs) && r.false_negatives == 0),
        (r.reached || old(filter).policy_spec() == Policy::Bfs) ==> r.false_negatives == 0,
        r.filter_usable
            ==> final(filter).items() == key_items(
            old(filter).table_mask(),
            Seq::new(final(filter).len_spec(), |k: int| present_key(seed, k as nat)),
        ),
{
    let ghost mask = filter.table_mask();
    let ghost entry = *filter;
    let stride = verification_stride(target, verify_samples);
    let mut samples: Vec<u64> = Vec::new();
    let mut keys: Ghost<Seq<u64>> = Ghost(Seq::empty());
    let mut picks: Ghost<Seq<int>> = Ghost(Seq::empty());
    proof {
        filter.lemma_len_bound();
        vstd::multiset::lemma_multiset_empty_len(filter.items());
        let none = Seq::<u64>::empty().map_values(|k: u64| key_item(mask, k));
        vstd::seq_lib::to_multiset_len(none);
        vstd::multiset::lemma_multiset_empty_len(none.to_multiset());
        assert(filter.items() =~= key_items(mask, keys@));
    }
    let mut reached = true;
    let mut usable = true;
    while filter.len() < target
        invariant_except_break
            reached,
            usable,
            filter.label_room(target - filter.len_spec()),
        invariant
            filter.wf(),
            filter.same_setup(&entry),
            entry == *old(filter),
            mask == entry.table_mask(),
            filter.len_spec() <= target,
            keys@.len() == filter.len_spec(),
            forall|k: int| 0 <= k < keys@.len() ==> #[trigger] keys@[k] == present_key(seed, k as nat),
            stride matches Some(step) ==> step >= 1,
            picks@.len() == samples@.len(),
            forall|j: int| 0 <= j < samples@.len() ==> 0 <= #[trigger] picks@[j] < keys@.len() && samples@[j] == keys@[picks@[j]],
            samples@.len() <= filter.len_spec(),
            usable ==> filter.items() == key_items(mask, keys@),
        ensures
            reached == (filter.len_spec() == target),
            !reached ==> !filter.has_room(key_first(mask, present_key(seed, filter.len_spec())) as int)
                && !filter.has_room(key_second(mask, present_key(seed, filter.len_spec())) as int),
            usable == (reached || entry.policy_spec() == Policy::Bfs),
        decreases target - filter.len_spec(),
    {
        let index = filter.len();
        let key = query_domain_key(seed, BUILD_KEY_SALT, index, false);
        let ghost before_filter = *filter;
        proof {
            lemma_label_room_fewer(filter, target - filter.len_spec(), 1);
        }
        let stats = insert_key(filter, key);
        if !stats.inserted {
            reached = false;
            usable = stats.filter_usable;
            break;
        }
        proof {
            lemma_label_room_used(&before_filter, filter, target - filter.len_spec());
            lemma_key_items_push(mask, keys@, key);
            keys@ = keys@.push(key);
        }
        match stride {
            Some(step) => {
                if sample_position(filter.len(), step) {
                    samples.push(key);
                    proof {
                        picks@ = picks@.push(keys@.len() - 1);
                    }
                }
            },
            None => {},
        }
    }
    let mut false_negatives: usize = 0;
    let mut j: usize = 0;
    while j < samples.len()
        invariant
            filter.wf(),
            filter.same_setup(&entry),
            mask == entry.table_mask(),
            entry == *old(filter),
            j <= samples@.len(),
            samples@.len() <= filter.len_spec(),
            filter.len_spec() <= target,
            reached == (filter.len_spec() == target),
            usable == (reached || entry.policy_spec() == Policy::Bfs),
            forall|k: int| 0 <= k < keys@.len() ==> #[trigger] keys@[k] == present_key(seed, k as nat),
            false_negatives <= j,
            usable ==> false_negatives == 0,
            picks@.len() == samples@.len(),
            forall|i: int| 0 <= i < samples@.len() ==> 0 <= #[trigger] picks@[i] < keys@.len() && samples@[i] == keys@[picks@[i]],
            usable ==> filter.items() == key_items(mask, keys@),
            keys@.len() == filter.len_spec(),
        decreases samples@.len() - j,
    {
        let found = filter.contains(samples[j]);
        if !found {
            proof {
                if usable {
                    lemma_key_items_contains(mask, keys@, picks@[j as int]);
                }
            }
            false_negatives = false_negatives + 1;
        }
        j += 1;
    }
    proof {
        if usable && false_negatives == 0 {
            assert(keys@ =~= Seq::new(filter.len_spec(), |k: int| present_key(seed, k as nat)));
        }
    }
    QueryBuild { reached, filter_usable: usable && false_negatives == 0, false_negatives }
}

/// Key `k` of the absent query domain for `seed`.
pub open spec fn absent_key(seed: u64, k: nat) -> u64 {
    query_domain_key_spec(seed, QUERY_KEY_SALT, k as usize, true)
}

/// How many of the first `n` absent keys for `seed` a filter holding
/// `items` over `mask` reports.
pub open spec fn reported_absent(items: Multiset<(u16, u32)>, mask: u32, seed: u64, n: nat) -> nat
    decreases n,
{
    if n == 0 {
        0
    } else {
        let k = (n - 1) as nat;
        reported_absent(items, mask, seed, k) + if items.count(key_item(mask, absent_key(seed, k))) > 0 {
            1nat
        } else {
            0nat
        }
    }
}

/// Counts the false positives of `filter` on the first `queries` keys of the
/// absent query domain for `seed`.
pub fn count_false_positives(filter: &CuckooFilter, seed: u64, queries: usize) -> (r: usize)
    requires
        filter.wf(),
    ensures
        r == reported_absent(filter.items(), filter.table_mask(), seed, queries as nat),
        r <= queries,
{
    let mut count: usize = 0;
    let mut index: usize = 0;
    while index < queries
        invariant
            filter.wf(),
            index <= queries,
            count == reported_absent(filter.items(), filter.table_mask(), seed, index as nat),
            count <= index,
        decreases queries - index,
    {
        let key = query_domain_key(seed, QUERY_KEY_SALT, index, true);
        if filter.contains(key) {
            count = count + 1;
        }
        index = index + 1;
    }
    count
}

/// Present and absent query keys never coincide: present keys have their
/// low bit clear and absent keys have it set, whatever the seeds and indices.
pub proof fn lemma_query_domains_disjoint(present_seed: u64, absent_seed: u64, k: nat, j: nat)
    ensures
        present_key(present_seed, k) != absent_key(absent_seed, j),
{
    let a = vstd::wrapping::u64_specs::wrapping_add(
        splitmix64_spec(present_seed ^ BUILD_KEY_SALT) & DOMAIN_MASK,
        (k as usize) as u64,
    ) & DOMAIN_MASK;
    let b = vstd::wrapping::u64_specs::wrapping_add(
        splitmix64_spec(absent_seed ^ QUERY_KEY_SALT) & DOMAIN_MASK,
        (j as usize) as u64,
    ) & DOMAIN_MASK;
    assert(((a << 1u64) | 0u64) & 1 == 0) by (bit_vector);
    assert(((b << 1u64) | 1u64) & 1 == 1) by (bit_vector);
}

/// `ceil(n / s)`: how many of the keys `0 .. n` lie on multiples of `s`.
pub open spec fn samples_below(n: int, s: int) -> int {
    (n + s - 1) / s
}

/// Key `k` is sampled with stride `s` exactly when `k` is a multiple of `s`,
/// and then it is the next sample.
proof fn lemma_sample_step(k: int, s: int)
    requires
        0 <= k,
        1 <= s,
    ensures
        ((k + 1) % s == 1int % s) == (k % s == 0),
        k % s == 0 ==> samples_below(k + 1, s) == samples_below(k, s) + 1 && samples_below(k, s) * s == k,
        k % s != 0 ==> samples_below(k + 1, s) == samples_below(k, s),
        samples_below(k, s) >= 0,
{
    let q = k / s;
    let r = k % s;
    vstd::arithmetic::div_mod::lemma_fundamental_div_mod(k, s);
    vstd::arithmetic::div_mod::lemma_mod_pos_bound(k, s);
    assert(k == q * s + r) by (nonlinear_arith)
        requires
            k == s * q + r,
    ;
    assert(q >= 0) by (nonlinear_arith)
        requires
            k == q * s + r,
            0 <= r < s,
            0 <= k,
            1 <= s,
    ;
    if s == 1 {
        vstd::arithmetic::div_mod::lemma_fundamental_div_mod_converse(1, s, 1, 0);
        vstd::arithmetic::div_mod::lemma_fundamental_div_mod_converse(k + 1, s, k + 1, 0);
    } else {
        vstd::arithmetic::div_mod::lemma_fundamental_div_mod_converse(1, s, 0, 1);
    }
    if r + 1 < s {
        vstd::arithmetic::div_mod::lemma_fundamental_div_mod_converse(k + 1, s, q, r + 1);
    } else {
        assert(k + 1 == (q + 1) * s + 0) by (nonlinear_arith)
            requires
                k == q * s + r,
                r + 1 == s,
        ;
        vstd::arithmetic::div_mod::lemma_fundamental_div_mod_converse(k + 1, s, q + 1, 0);
    }
    if r == 0 {
        vstd::arithmetic::div_mod::lemma_fundamental_div_mod_converse(k + s - 1, s, q, s - 1);
        assert(k + 1 + s - 1 == (q + 1) * s + 0) by (nonlinear_arith)
            requires
                k == q * s,
        ;
        vstd::arithmetic::div_mod::lemma_fundamental_div_mod_converse(k + 1 + s - 1, s, q + 1, 0);
    } else {
        assert(k + s - 1 == (q + 1) * s + (r - 1)) by (nonlinear_arith)
            requires
                k == q * s + r,
        ;
        vstd::arithmetic::div_mod::lemma_fundamental_div_mod_converse(k + s - 1, s, q + 1, r - 1);
        assert(k + 1 + s - 1 == (q + 1) * s + r) by (nonlinear_arith)
            requires
                k == q * s + r,
        ;
        vstd::arithmetic::div_mod::lemma_fundamental_div_mod_converse(k + 1 + s - 1, s, q + 1, r);
    }
}

/// `samples` are the keys `0, s, 2s, ...` below `n` of the build for
/// `seed` with stride `s`, or none without a stride.
#[verifier::opaque]
pub open spec fn sampled(samples: Seq<u64>, seed: u64, n: nat, stride: Option<usize>) -> bool {
    match stride {
        Some(s) => {
            &&& samples.len() == samples_below(n as int, s as int)
            &&& forall|i: int| 0 <= i < samples.len() ==> #[trigger] samples[i] == build_key(seed, (i * s) as nat)
        },
        None => samples.len() == 0,
    }
}

/// No key is sampled before the first is stored.
proof fn lemma_sampled_start(seed: u64, stride: Option<usize>)
    requires
        stride matches Some(s) ==> s >= 1,
    ensures
        sampled(Seq::empty(), seed, 0, stride),
{
    reveal(sampled);
    if let Some(s) = stride {
        vstd::arithmetic::div_mod::lemma_fundamental_div_mod_converse(s - 1, s as int, 0, s - 1);
    }
}

/// Storing key `n` keeps it as the next sample exactly when the stride
/// divides `n`.
proof fn lemma_sampled_step(samples: Seq<u64>, seed: u64, n: nat, s: usize)
    requires
        s >= 1,
        sampled(samples, seed, n, Some(s)),
    ensures
        (((n + 1) as int) % (s as int) == 1int % (s as int)) ==> sampled(samples.push(build_key(seed, n)), seed, n + 1, Some(s)),
        !(((n + 1) as int) % (s as int) == 1int % (s as int)) ==> sampled(samples, seed, n + 1, Some(s)),
{
    reveal(sampled);
    lemma_sample_step(n as int, s as int);
    if ((n + 1) as int) % (s as int) == 1int % (s as int) {
        let next = samples.push(build_key(seed, n));
        assert forall|i: int| 0 <= i < next.len() implies #[trigger] next[i] == build_key(seed, (i * s) as nat) by {
            if i < samples.len() {
                assert(next[i] == samples[i]);
            }
        }
    }
}

/// Without a stride, nothing is sampled.
proof fn lemma_sampled_none(samples: Seq<u64>, seed: u64, n: nat)
    requires
        sampled(samples, seed, n, None),
    ensures
        sampled(samples, seed, n + 1, None),
{
    reveal(sampled);
}

/// Per-insertion counters of the measured window of a build.
pub struct WindowCounters {
    /// Relocations of each recorded insertion.
    pub relocations: Vec<u32>,
    /// Bucket reads of each recorded insertion.
    pub reads: Vec<u32>,
    /// Bucket writes of each recorded insertion.
    pub writes: Vec<u32>,
    /// Activation step of each recorded insertion whose path sketch activated.
    pub path_activation_steps: Vec<u32>,
    /// Guarded steps of each recorded insertion.
    pub path_guarded_steps: Vec<u32>,
    /// Sketch checks of each recorded insertion.
    pub path_checks: Vec<u32>,
    /// Rejected candidates of each recorded insertion.
    pub path_seen_candidates_rejected: Vec<u32>,
    /// Recorded insertions whose path sketch activated.
    pub path_activated: usize,
    /// Recorded insertions that moved at least one fingerprint.
    pub relocated_operations: usize,
}

impl WindowCounters {
    /// Counters with nothing recorded.
    pub fn new() -> (r: WindowCounters)
        ensures
            r.recorded() == 0,
            r.path_activation_steps@.len() == 0,
            r.path_activated == 0,
            r.relocated_operations == 0,
            r.aligned(),
    {
        WindowCounters {
            relocations: Vec::new(),
            reads: Vec::new(),
            writes: Vec::new(),
            path_activation_steps: Vec::new(),
            path_guarded_steps: Vec::new(),
            path_checks: Vec::new(),
            path_seen_candidates_rejected: Vec::new(),
            path_activated: 0,
            relocated_operations: 0,
        }
    }

    /// Insertions recorded so far.
    pub open spec fn recorded(&self) -> nat {
        self.relocations@.len()
    }

    /// Entry `j` holds the counters of a successful insertion: its
    /// relocations, reads and writes agree, it guarded no more steps than it
    /// relocated, and each guarded step checked between one candidate more
    /// than it rejected and four.
    pub open spec fn entry_ok(&self, j: int, policy: Policy, max_kicks: u32) -> bool {
        &&& counters_consistent(self.relocations@[j], self.reads@[j], self.writes@[j], policy, max_kicks)
        &&& self.path_guarded_steps@[j] <= self.relocations@[j]
        &&& 4 * max_kicks <= u32::MAX ==> self.path_guarded_steps@[j] + self.path_seen_candidates_rejected@[j]
            <= self.path_checks@[j] <= 4 * self.path_guarded_steps@[j]
    }

    /// Every per-insertion vector has one entry per recorded insertion, and
    /// the two counts stay within them.
    pub open spec fn aligned(&self) -> bool {
        &&& self.reads@.len() == self.recorded()
        &&& self.writes@.len() == self.recorded()
        &&& self.path_guarded_steps@.len() == self.recorded()
        &&& self.path_checks@.len() == self.recorded()
        &&& self.path_seen_candidates_rejected@.len() == self.recorded()
        &&& self.path_activation_steps@.len() == self.path_activated
        &&& self.path_activated <= self.recorded()
        &&& self.relocated_operations <= self.recorded()
    }

    /// Records the counters of one successful insertion.
    fn record(&mut self, stats: InsertStats)
        requires
            old(self).aligned(),
            old(self).recorded() < usize::MAX,
        ensures
            final(self).aligned(),
            final(self).recorded() == old(self).recorded() + 1,
            final(self).relocations@ == old(self).relocations@.push(stats.relocations),
            final(self).reads@ == old(self).reads@.push(stats.bucket_reads),
            final(self).writes@ == old(self).writes@.push(stats.bucket_writes),
            final(self).path_guarded_steps@ == old(self).path_guarded_steps@.push(stats.path_guarded_steps),
            final(self).path_checks@ == old(self).path_checks@.push(stats.path_checks),
            final(self).path_seen_candidates_rejected@ == old(self).path_seen_candidates_rejected@.push(
                stats.path_seen_candidates_rejected,
            ),
            final(self).path_activation_steps@ == if stats.path_activated {
                old(self).path_activation_steps@.push(stats.path_activation_step)
            } else {
                old(self).path_activation_steps@
            },
            final(self).relocated_operations == old(self).relocated_operations + if stats.relocations
                != 0 {
                1int
            } else {
                0int
            },
    {
        self.relocations.push(stats.relocations);
        self.reads.push(stats.bucket_reads);
        self.writes.push(stats.bucket_writes);
        if stats.path_activated {
            self.path_activated = self.path_activated + 1;
            self.path_activation_steps.push(stats.path_activation_step);
        }
        self.path_guarded_steps.push(stats.path_guarded_steps);
        self.path_checks.push(stats.path_checks);
        self.path_seen_candidates_rejected.push(stats.path_seen_candidates_rejected);
        if stats.relocations != 0 {
            self.relocated_operations = self.relocated_operations + 1;
        }
    }
}

/// Where a build that inserts its key stream stands.
pub struct BuildRun {
    /// Seed of the key stream.
    pub seed: Ghost<u64>,
    /// State of the key stream.
    pub key_state: u64,
    /// Keys kept for the final membership check.
    pub samples: Vec<u64>,
    /// Statistics of the failed insertion, once one failed.
    pub failure: Option<InsertStats>,
    /// Counters of the measured window.
    pub window: WindowCounters,
}

/// Why `build_until` stopped.
#[derive(Clone, Copy, Debug, PartialEq, Eq, Structural)]
pub enum BuildPause {
    /// The filter holds the requested number of keys.
    Reached,
    /// The dense filter must prepare its ranks before the next insertion.
    PrepareDue,
    /// An insertion failed; its statistics are in `failure`.
    Failed,
}

impl BuildRun {
    /// A run of the key stream for `seed` that has drawn nothing.
    pub fn start(seed: u64, stride: Option<usize>) -> (r: BuildRun)
        requires
            stride matches Some(s) ==> s >= 1,
        ensures
            sampled(r.samples@, seed, 0, stride),
            r.seed@ == seed,
            r.key_state == build_state(seed, 0),
            r.samples@.len() == 0,
            r.failure is None,
            r.window.recorded() == 0,
            r.window.path_activated == 0,
            r.window.relocated_operations == 0,
            r.window.aligned(),
    {
        proof {
            lemma_build_step(0, seed, 0);
            lemma_sampled_start(seed, stride);
        }
        BuildRun {
            seed: Ghost(seed),
            key_state: splitmix64(seed ^ BUILD_KEY_SALT),
            samples: Vec::new(),
            failure: None,
            window: WindowCounters::new(),
        }
    }

    /// The run's state matches `filter`: the stream has drawn one key per
    /// stored key (plus the failed one), the samples are the stored keys at
    /// the multiples of `stride`, while the filter is usable it holds
    /// exactly the drawn keys that were stored, and a failed key found both
    /// its candidate buckets full.
    pub open spec fn tracks(&self, filter: &CuckooFilter, stride: Option<usize>) -> bool {
        let n = filter.len_spec();
        &&& self.key_state == build_state(self.seed@, n + if self.failure is Some {
            1nat
        } else {
            0nat
        })
        &&& stride matches Some(s) ==> s >= 1
        &&& sampled(self.samples@, self.seed@, n, stride)
        &&& self.failure matches Some(stats) ==> !stats.inserted && stats.filter_usable == (
        filter.policy_spec() == Policy::Bfs)
        &&& (self.failure is None || filter.policy_spec() == Policy::Bfs)
            ==> filter.items() == build_items(filter.table_mask(), self.seed@, n)
        &&& self.window.aligned()
        &&& self.window.recorded() <= n
        &&& self.failure is Some ==> !filter.has_room(key_first(filter.table_mask(), build_key(self.seed@, n)) as int)
            && !filter.has_room(key_second(filter.table_mask(), build_key(self.seed@, n)) as int)
    }
}

/// Draws the run's next key and inserts it: on success the key may become a
/// sample and, past `window_begin` keys, its counters are recorded; on
/// failure the statistics are kept in `failure`.
fn build_one(filter: &mut CuckooFilter, run: &mut BuildRun, window_begin: usize, stride: Option<usize>) -> (inserted: bool)
    requires
        old(filter).wf(),
        old(run).tracks(old(filter), stride),
        old(run).failure is None,
        old(filter).len_spec() < usize::MAX,
        old(filter).label_room(1),
    ensures
        forall|b: int|
            #[trigger] old(filter).labels_at_most(b) ==> final(filter).labels_at_most(b + old(filter).max_kicks_spec() + 1),
        final(filter).wf(),
        final(filter).same_setup(old(filter)),
        final(run).seed == old(run).seed,
        final(run).tracks(final(filter), stride),
        inserted == final(run).failure is None,
        inserted ==> final(filter).len_spec() == old(filter).len_spec() + 1,
        !inserted ==> final(filter).len_spec() == old(filter).len_spec(),
        final(run).window.recorded() == old(run).window.recorded() + if inserted && old(filter).len_spec()
            + 1 > window_begin {
            1int
        } else {
            0int
        },
        final(run).window.relocations@.subrange(0, old(run).window.recorded() as int)
            == old(run).window.relocations@,
        forall|j: int|
            0 <= j < old(run).window.recorded() ==> (#[trigger] final(run).window.entry_ok(
                j,
                old(filter).policy_spec(),
                old(filter).max_kicks_spec(),
            ) == old(run).window.entry_ok(j, old(filter).policy_spec(), old(filter).max_kicks_spec())),
        forall|j: int|
            old(run).window.recorded() <= j < final(run).window.recorded() ==> #[trigger] final(run).window.entry_ok(
                j,
                old(filter).policy_spec(),
                old(filter).max_kicks_spec(),
            ),
{
    let ghost seed = run.seed@;
    let ghost mask = filter.table_mask();
    proof {
        lemma_build_state_step(seed, filter.len_spec());
        filter.lemma_len_bound();
    }
    run.key_state = splitmix64(run.key_state);
    let stored = filter.len();
    let stats = insert_key(filter, run.key_state);
    if !stats.inserted {
        run.failure = Some(stats);
        return false;
    }
    proof {
        assert(filter.items() == build_items(mask, seed, filter.len_spec())) by {
            lemma_build_step(mask, seed, stored as nat);
        }
    }
    match stride {
        Some(step) => {
            proof {
                lemma_sampled_step(run.samples@, seed, stored as nat, step);
            }
            if sample_position(filter.len(), step) {
                run.samples.push(run.key_state);
            }
        },
        None => {
            proof {
                lemma_sampled_none(run.samples@, seed, stored as nat);
            }
        },
    }
    if filter.len() > window_begin {
        let ghost recorded = run.window.relocations@;
        proof {
            filter.lemma_len_bound();
        }
        run.window.record(stats);
        proof {
            assert(run.window.relocations@.subrange(0, recorded.len() as int) =~= recorded);
        }
    }
    true
}

/// Inserts keys of the run's stream until `filter` holds `until` keys, an
/// insertion fails, or (when `pause_for_prepare`) the dense filter must
/// prepare its ranks first. A successful insertion that leaves more than
/// `window_begin` keys is recorded in the window counters, and with a
/// `stride`, the stored keys at its multiples are kept as samples.
#[verifier::rlimit(60)]
pub fn build_until(
    filter: &mut CuckooFilter,
    run: &mut BuildRun,
    until: usize,
    window_begin: usize,
    stride: Option<usize>,
    pause_for_prepare: bool,
) -> (r: BuildPause)
    requires
        old(filter).wf(),
        old(run).tracks(old(filter), stride),
        old(run).failure is None,
        old(filter).len_spec() <= until,
        old(filter).label_room(until - old(filter).len_spec()),
    ensures
        final(filter).wf(),
        final(filter).same_setup(old(filter)),
        final(run).seed == old(run).seed,
        final(run).tracks(final(filter), stride),
        old(filter).len_spec() <= final(filter).len_spec() <= until,
        r == BuildPause::Reached <==> final(filter).len_spec() == until && final(run).failure is None,
        r == BuildPause::PrepareDue ==> pause_for_prepare && final(run).failure is None && dense_prepare_due_spec(
            final(filter).policy_spec(),
            final(filter).ranked_ready(),
            final(filter).len_spec() as int,
            4 * final(filter).bucket_count_spec() as int,
        ),
        r == BuildPause::Failed <==> final(run).failure is Some,
        final(run).window.recorded() == old(run).window.recorded() + window_span(
            old(filter).len_spec() as int,
            final(filter).len_spec() as int,
            window_begin as int,
        ),
        final(run).window.relocations@.subrange(0, old(run).window.recorded() as int)
            == old(run).window.relocations@,
        forall|j: int|
            old(run).window.recorded() <= j < final(run).window.recorded() ==> #[trigger] final(run).window.entry_ok(
                j,
                old(filter).policy_spec(),
                old(filter).max_kicks_spec(),
            ),
{
    let ghost seed = run.seed@;
    let ghost entry = *filter;
    let ghost run_entry = *run;
    proof {
        filter.lemma_len_bound();
    }
    while filter.len() < until
        invariant
            run.failure is None,
            filter.wf(),
            filter.same_setup(&entry),
            entry == *old(filter),
            run_entry == *old(run),
            run.seed@ == seed,
            run.seed == old(run).seed,
            run.tracks(filter, stride),
            entry.len_spec() <= filter.len_spec() <= until,
            run.window.recorded() == run_entry.window.recorded() + window_span(
                entry.len_spec() as int,
                filter.len_spec() as int,
                window_begin as int,
            ),
            run.window.relocations@.subrange(0, run_entry.window.recorded() as int)
                == run_entry.window.relocations@,
            filter.label_room(until - filter.len_spec()),
            forall|j: int|
                run_entry.window.recorded() <= j < run.window.recorded() ==> #[trigger] run.window.entry_ok(
                    j,
                    entry.policy_spec(),
                    entry.max_kicks_spec(),
                ),
        decreases until - filter.len_spec(),
    {
        if pause_for_prepare && filter.needs_dense_prepare() {
            return BuildPause::PrepareDue;
        }
        let ghost before_filter = *filter;
        proof {
            lemma_label_room_fewer(filter, until - filter.len_spec(), 1);
        }
        if !build_one(filter, run, window_begin, stride) {
            return BuildPause::Failed;
        }
        proof {
            lemma_label_room_used(&before_filter, filter, until - filter.len_spec());
        }
    }
    BuildPause::Reached
}

/// Successful insertions from `start` keys to `end` keys that leave more
/// than `begin` keys.
pub open spec fn window_span(start: int, end: int, begin: int) -> int {
    if end <= begin {
        0
    } else if start >= begin {
        end - start
    } else {
        end - begin
    }
}

/// The first key of `keys` that `filter` does not report, if any.
pub fn first_missing(filter: &CuckooFilter, keys: &Vec<u64>) -> (r: Option<u64>)
    requires
        filter.wf(),
    ensures
        r is None <==> forall|i: int| 0 <= i < keys@.len() ==> reports(filter, #[trigger] keys@[i]),
        r matches Some(key) ==> exists|i: int|
            0 <= i < keys@.len() && keys@[i] == key && !reports(filter, key) && forall|j: int|
                0 <= j < i ==> reports(filter, #[trigger] keys@[j]),
{
    let mut index: usize = 0;
    while index < keys.len()
        invariant
            filter.wf(),
            index <= keys@.len(),
            forall|j: int| 0 <= j < index ==> reports(filter, #[trigger] keys@[j]),
        decreases keys@.len() - index,
    {
        let key = keys[index];
        if !filter.contains(key) {
            return Some(key);
        }
        index = index + 1;
    }
    None
}

/// A run whose insertions all succeeded keeps only samples that its filter
/// reports.
pub proof fn lemma_build_samples_found(filter: &CuckooFilter, run: &BuildRun, stride: Option<usize>)
    requires
        filter.wf(),
        run.tracks(filter, stride),
        run.failure is None,
    ensures
        forall|i: int| 0 <= i < run.samples@.len() ==> reports(filter, #[trigger] run.samples@[i]),
{
    reveal(sampled);
    match stride {
        Some(s) => {
            assert forall|i: int| 0 <= i < run.samples@.len() implies reports(filter, #[trigger] run.samples@[i]) by {
                let n = filter.len_spec() as int;
                assert(i * s < n) by (nonlinear_arith)
                    requires
                        0 <= i,
                        i < (n + s - 1) / (s as int),
                        s >= 1,
                        n >= 0,
                ;
                lemma_build_items_hold(filter.table_mask(), run.seed@, n as nat, (i * s) as nat);
            }
        },
        None => {},
    }
}

} // verus!
