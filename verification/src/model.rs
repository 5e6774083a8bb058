//! The abstract contents of a filter: the multiset of stored items, each a
//! fingerprint tagged with the smaller of its two candidate buckets.

use vstd::prelude::*;

verus! {

use vstd::multiset::Multiset;
use crate::bucket::{Bucket, slot_multiset, holds};
use crate::hash::{home_bucket, alt_index_spec, is_low_mask, lemma_alt_index, lemma_same_home};

/// The item a nonzero lane value stands for in bucket `bucket`; an empty
/// lane stands for nothing.
pub open spec fn lane_item(mask: u32, bucket: u32, fingerprint: u16) -> Multiset<(u16, u32)> {
    if fingerprint == 0 {
        Multiset::empty()
    } else {
        Multiset::singleton((fingerprint, home_bucket(mask, bucket, fingerprint)))
    }
}

/// The items stored in one bucket.
#[verifier::opaque]
pub open spec fn bucket_items(mask: u32, bucket: u32, s: Seq<u16>) -> Multiset<(u16, u32)> {
    lane_item(mask, bucket, s[0]).add(lane_item(mask, bucket, s[1])).add(
        lane_item(mask, bucket, s[2]),
    ).add(lane_item(mask, bucket, s[3]))
}

/// The items stored in the first `n` buckets of a table.
pub open spec fn table_items(mask: u32, t: Seq<Bucket>, n: nat) -> Multiset<(u16, u32)>
    decreases n,
{
    if n == 0 {
        Multiset::empty()
    } else {
        table_items(mask, t, (n - 1) as nat).add(
            bucket_items(mask, (n - 1) as u32, t[n - 1]@),
        )
    }
}

/// The items of a whole table.
pub open spec fn all_items(mask: u32, t: Seq<Bucket>) -> Multiset<(u16, u32)> {
    table_items(mask, t, t.len())
}

/// How often an item occurs in one lane's contribution.
pub proof fn lemma_lane_item_count(mask: u32, bucket: u32, f: u16, x: (u16, u32))
    ensures
        lane_item(mask, bucket, f).count(x) == (if f != 0 && x.0 == f && x.1 == home_bucket(
            mask,
            bucket,
            f,
        ) {
            1nat
        } else {
            0nat
        }),
{
}

/// Exchanging the order in which two multisets are added.
pub proof fn lemma_add_swap<V>(a: Multiset<V>, b: Multiset<V>, c: Multiset<V>)
    ensures
        a.add(b).add(c) == a.add(c).add(b),
{
    assert(a.add(b).add(c) =~= a.add(c).add(b));
}

/// Adding the same multiset to both sides of an equation.
pub proof fn lemma_add_both<V>(
    a: Multiset<V>,
    b: Multiset<V>,
    c: Multiset<V>,
    d: Multiset<V>,
    e: Multiset<V>,
)
    requires
        a.add(c) == b.add(d),
    ensures
        a.add(e).add(c) == b.add(e).add(d),
{
    assert forall|x: V| #[trigger] a.add(e).add(c).count(x) == b.add(e).add(d).count(x) by {
        assert(a.add(c).count(x) == b.add(d).count(x));
        assert(a.add(c).count(x) == a.count(x) + c.count(x));
        assert(b.add(d).count(x) == b.count(x) + d.count(x));
        assert(a.add(e).count(x) == a.count(x) + e.count(x));
        assert(b.add(e).count(x) == b.count(x) + e.count(x));
        assert(a.add(e).add(c).count(x) == a.add(e).count(x) + c.count(x));
        assert(b.add(e).add(d).count(x) == b.add(e).count(x) + d.count(x));
    }
    assert(a.add(e).add(c) =~= b.add(e).add(d));
}

/// How often an item occurs in a bucket, read from the bucket's lanes.
pub proof fn lemma_bucket_items_count(mask: u32, bucket: u32, s: Seq<u16>, x: (u16, u32))
    ensures
        bucket_items(mask, bucket, s).count(x) == (if x.0 != 0 && x.1 == home_bucket(
            mask,
            bucket,
            x.0,
        ) {
            slot_multiset(s).count(x.0)
        } else {
            0
        }),
{
    reveal(bucket_items);
    lemma_lane_item_count(mask, bucket, s[0], x);
    lemma_lane_item_count(mask, bucket, s[1], x);
    lemma_lane_item_count(mask, bucket, s[2], x);
    lemma_lane_item_count(mask, bucket, s[3], x);
}

/// Buckets with the same lane multiset hold the same items.
pub proof fn lemma_bucket_items_permutation(mask: u32, bucket: u32, s1: Seq<u16>, s2: Seq<u16>)
    requires
        slot_multiset(s1) == slot_multiset(s2),
    ensures
        bucket_items(mask, bucket, s1) == bucket_items(mask, bucket, s2),
{
    assert forall|x: (u16, u32)|
        bucket_items(mask, bucket, s1).count(x) == bucket_items(mask, bucket, s2).count(x) by {
        lemma_bucket_items_count(mask, bucket, s1, x);
        lemma_bucket_items_count(mask, bucket, s2, x);
    }
    assert(bucket_items(mask, bucket, s1) =~= bucket_items(mask, bucket, s2));
}

/// Exchanging one nonzero lane value for another in a bucket, as a
/// relocation does, exchanges their items.
pub proof fn lemma_bucket_items_exchange(
    mask: u32,
    bucket: u32,
    before: Seq<u16>,
    after: Seq<u16>,
    outgoing: u16,
    incoming: u16,
)
    requires
        slot_multiset(after).insert(outgoing) == slot_multiset(before).insert(incoming),
        outgoing != 0,
        incoming != 0,
    ensures
        bucket_items(mask, bucket, after).add(lane_item(mask, bucket, outgoing)) == bucket_items(
            mask,
            bucket,
            before,
        ).add(lane_item(mask, bucket, incoming)),
{
    let l = bucket_items(mask, bucket, after).add(lane_item(mask, bucket, outgoing));
    let r = bucket_items(mask, bucket, before).add(lane_item(mask, bucket, incoming));
    assert forall|x: (u16, u32)| #[trigger] l.count(x) == r.count(x) by {
        lemma_bucket_items_count(mask, bucket, after, x);
        lemma_bucket_items_count(mask, bucket, before, x);
        lemma_lane_item_count(mask, bucket, outgoing, x);
        lemma_lane_item_count(mask, bucket, incoming, x);
        assert(slot_multiset(after).insert(outgoing).count(x.0) == slot_multiset(before).insert(
            incoming,
        ).count(x.0));
        assert(slot_multiset(after).insert(outgoing).count(x.0) == slot_multiset(after).count(x.0)
            + if x.0 == outgoing {
            1nat
        } else {
            0nat
        });
        assert(slot_multiset(before).insert(incoming).count(x.0) == slot_multiset(before).count(
            x.0,
        ) + if x.0 == incoming {
            1nat
        } else {
            0nat
        });
        assert(l.count(x) == bucket_items(mask, bucket, after).count(x) + lane_item(
            mask,
            bucket,
            outgoing,
        ).count(x));
        assert(r.count(x) == bucket_items(mask, bucket, before).count(x) + lane_item(
            mask,
            bucket,
            incoming,
        ).count(x));
    }
    assert(l =~= r);
}

/// Overwriting lane `k` replaces that lane's item.
pub proof fn lemma_bucket_items_update(mask: u32, bucket: u32, s: Seq<u16>, k: int, v: u16)
    requires
        s.len() == 4,
        0 <= k < 4,
    ensures
        bucket_items(mask, bucket, s.update(k, v)).add(lane_item(mask, bucket, s[k]))
            == bucket_items(mask, bucket, s).add(lane_item(mask, bucket, v)),
{
    reveal(bucket_items);
    let t = s.update(k, v);
    assert(bucket_items(mask, bucket, t).add(lane_item(mask, bucket, s[k])) =~= bucket_items(
        mask,
        bucket,
        s,
    ).add(lane_item(mask, bucket, v)));
}

/// Only the first `n` buckets contribute to `table_items(.., n)`.
pub proof fn lemma_table_items_prefix(mask: u32, t1: Seq<Bucket>, t2: Seq<Bucket>, n: nat)
    requires
        n <= t1.len(),
        n <= t2.len(),
        forall|j: int| 0 <= j < n ==> t1[j] == t2[j],
    ensures
        table_items(mask, t1, n) == table_items(mask, t2, n),
    decreases n,
{
    if n > 0 {
        lemma_table_items_prefix(mask, t1, t2, (n - 1) as nat);
    }
}

/// Replacing one bucket of a table replaces that bucket's items.
pub proof fn lemma_table_items_update(mask: u32, t: Seq<Bucket>, n: nat, i: int, w: Bucket)
    requires
        n <= t.len(),
        0 <= i < n,
        n <= u32::MAX + 1,
    ensures
        table_items(mask, t.update(i, w), n).add(bucket_items(mask, i as u32, t[i]@))
            == table_items(mask, t, n).add(bucket_items(mask, i as u32, w@)),
    decreases n,
{
    let u = t.update(i, w);
    let before = bucket_items(mask, i as u32, t[i]@);
    let after = bucket_items(mask, i as u32, w@);
    if i == n - 1 {
        lemma_table_items_prefix(mask, u, t, (n - 1) as nat);
        assert(table_items(mask, u, n) == table_items(mask, u, (n - 1) as nat).add(after));
        assert(table_items(mask, t, n) == table_items(mask, t, (n - 1) as nat).add(before));
        lemma_add_swap(table_items(mask, t, (n - 1) as nat), after, before);
    } else {
        lemma_table_items_update(mask, t, (n - 1) as nat, i, w);
        assert(u[n - 1] == t[n - 1]);
        let last = bucket_items(mask, (n - 1) as u32, t[n - 1]@);
        assert(table_items(mask, u, n) == table_items(mask, u, (n - 1) as nat).add(last));
        assert(table_items(mask, t, n) == table_items(mask, t, (n - 1) as nat).add(last));
        lemma_add_both(
            table_items(mask, u, (n - 1) as nat),
            table_items(mask, t, (n - 1) as nat),
            before,
            after,
            last,
        );
    }
}

/// An item occurs in a table exactly when it occurs in one of its buckets.
pub proof fn lemma_table_items_contains(mask: u32, t: Seq<Bucket>, n: nat, x: (u16, u32))
    requires
        n <= t.len(),
        n <= u32::MAX + 1,
    ensures
        table_items(mask, t, n).count(x) > 0 <==> exists|i: int|
            0 <= i < n && #[trigger] bucket_items(mask, i as u32, t[i]@).count(x) > 0,
    decreases n,
{
    if n > 0 {
        lemma_table_items_contains(mask, t, (n - 1) as nat, x);
        if bucket_items(mask, (n - 1) as u32, t[n - 1]@).count(x) > 0 {
            assert(table_items(mask, t, n).count(x) > 0);
        }
    }
}

/// A table holds the item of `fingerprint` with home bucket
/// `home_bucket(first)` exactly when one of the two candidate buckets holds
/// the fingerprint.
pub proof fn lemma_item_in_candidates(mask: u32, t: Seq<Bucket>, first: u32, fingerprint: u16)
    requires
        is_low_mask(mask),
        mask >= 1,
        t.len() == mask + 1,
        first <= mask,
        fingerprint != 0,
    ensures
        all_items(mask, t).count((fingerprint, home_bucket(mask, first, fingerprint))) > 0 <==> (
        holds(t[first as int]@, fingerprint) || holds(
            t[alt_index_spec(mask, first, fingerprint) as int]@,
            fingerprint,
        )),
{
    let x = (fingerprint, home_bucket(mask, first, fingerprint));
    let second = alt_index_spec(mask, first, fingerprint);
    lemma_alt_index(mask, first, fingerprint);
    lemma_table_items_contains(mask, t, t.len(), x);
    lemma_bucket_items_count(mask, first, t[first as int]@, x);
    lemma_bucket_items_count(mask, second, t[second as int]@, x);
    assert(second as int as u32 == second);
    if all_items(mask, t).count(x) > 0 {
        let i = choose|i: int| 0 <= i < t.len() && #[trigger] bucket_items(mask, i as u32, t[i]@).count(x) > 0;
        lemma_bucket_items_count(mask, i as u32, t[i]@, x);
        lemma_same_home(mask, i as u32, first, fingerprint);
    }
    if holds(t[first as int]@, fingerprint) {
        assert(bucket_items(mask, first as int as u32, t[first as int]@).count(x) > 0);
    }
    if holds(t[second as int]@, fingerprint) {
        assert(bucket_items(mask, second as int as u32, t[second as int]@).count(x) > 0);
    }
}

/// Taking out lane `p` and appending an empty lane removes that lane's item.
pub proof fn lemma_bucket_items_remove(mask: u32, bucket: u32, s: Seq<u16>, p: int)
    requires
        s.len() == 4,
        0 <= p < 4,
    ensures
        bucket_items(mask, bucket, s.remove(p).push(0u16)).add(lane_item(mask, bucket, s[p]))
            == bucket_items(mask, bucket, s),
{
    reveal(bucket_items);
    let t = s.remove(p).push(0u16);
    if p == 0 {
        assert(t =~= seq![s[1], s[2], s[3], 0u16]);
    } else if p == 1 {
        assert(t =~= seq![s[0], s[2], s[3], 0u16]);
    } else if p == 2 {
        assert(t =~= seq![s[0], s[1], s[3], 0u16]);
    } else {
        assert(t =~= seq![s[0], s[1], s[2], 0u16]);
    }
    assert(bucket_items(mask, bucket, t).add(lane_item(mask, bucket, s[p])) =~= bucket_items(
        mask,
        bucket,
        s,
    ));
}

/// A bucket holds one item per nonzero lane.
pub proof fn lemma_bucket_items_len(mask: u32, bucket: u32, s: Seq<u16>)
    ensures
        bucket_items(mask, bucket, s).len() == (if s[0] != 0 { 1nat } else { 0nat }) + (if s[1]
            != 0 { 1nat } else { 0nat }) + (if s[2] != 0 { 1nat } else { 0nat }) + (if s[3] != 0 {
            1nat
        } else {
            0nat
        }),
{
    reveal(bucket_items);
}

/// A bucket with four empty lanes holds nothing.
pub proof fn lemma_bucket_items_empty(mask: u32, bucket: u32, s: Seq<u16>)
    requires
        s[0] == 0 && s[1] == 0 && s[2] == 0 && s[3] == 0,
    ensures
        bucket_items(mask, bucket, s) == Multiset::<(u16, u32)>::empty(),
{
    reveal(bucket_items);
    assert(bucket_items(mask, bucket, s) =~= Multiset::<(u16, u32)>::empty());
}

/// A table of empty buckets holds nothing.
pub proof fn lemma_table_items_empty(mask: u32, t: Seq<Bucket>, n: nat)
    requires
        n <= t.len(),
        forall|i: int| 0 <= i < n ==> #[trigger] t[i]@[0] == 0 && t[i]@[1] == 0 && t[i]@[2] == 0
            && t[i]@[3] == 0,
    ensures
        table_items(mask, t, n) == Multiset::<(u16, u32)>::empty(),
    decreases n,
{
    if n > 0 {
        lemma_table_items_empty(mask, t, (n - 1) as nat);
        lemma_bucket_items_empty(mask, (n - 1) as u32, t[n - 1]@);
        assert(table_items(mask, t, n) =~= Multiset::<(u16, u32)>::empty());
    }
}

/// Each bucket holds at most four items, so a table of `n` buckets holds at
/// most `4 * n`, and fewer when one of its buckets is not full.
pub proof fn lemma_table_items_len(mask: u32, t: Seq<Bucket>, n: nat, i: int)
    requires
        n <= t.len(),
        0 <= i < n,
    ensures
        table_items(mask, t, n).len() + 4 <= 4 * n + bucket_items(mask, i as u32, t[i]@).len(),
        table_items(mask, t, n).len() <= 4 * n,
    decreases n,
{
    lemma_bucket_items_len(mask, i as u32, t[i]@);
    lemma_bucket_items_len(mask, (n - 1) as u32, t[n - 1]@);
    assert(table_items(mask, t, n) == table_items(mask, t, (n - 1) as nat).add(
        bucket_items(mask, (n - 1) as u32, t[n - 1]@),
    ));
    assert(table_items(mask, t, n).len() == table_items(mask, t, (n - 1) as nat).len()
        + bucket_items(mask, (n - 1) as u32, t[n - 1]@).len());
    if n == 1 {
        assert(table_items(mask, t, 0).len() == 0);
        assert(i == 0);
    }
    if n > 1 {
        if i < n - 1 {
            lemma_table_items_len(mask, t, (n - 1) as nat, i);
        } else {
            lemma_table_items_len(mask, t, (n - 1) as nat, 0);
        }
    }
}

/// Count of a sum of multisets.
pub proof fn lemma_add_count<V>(a: Multiset<V>, b: Multiset<V>, x: V)
    ensures
        a.add(b).count(x) == a.count(x) + b.count(x),
{
}

/// Cancels a common part: if `after + old_part == before + new_part` and
/// `new_part + extra == old_part`, then `after + extra == before`.
pub proof fn lemma_cancel<V>(
    after: Multiset<V>,
    before: Multiset<V>,
    old_part: Multiset<V>,
    new_part: Multiset<V>,
    extra: Multiset<V>,
)
    requires
        after.add(old_part) == before.add(new_part),
        new_part.add(extra) == old_part,
    ensures
        after.add(extra) == before,
{
    assert forall|x: V| #[trigger] after.add(extra).count(x) == before.count(x) by {
        assert(after.add(old_part).count(x) == before.add(new_part).count(x));
        assert(new_part.add(extra).count(x) == old_part.count(x));
        lemma_add_count(after, old_part, x);
        lemma_add_count(before, new_part, x);
        lemma_add_count(new_part, extra, x);
        lemma_add_count(after, extra, x);
    }
    assert(after.add(extra) =~= before);
}

/// Exchanges an item: if `after + old_part == before + new_part` and
/// `new_part + out == old_part + in`, then `after + out == before + in`.
pub proof fn lemma_exchange<V>(
    after: Multiset<V>,
    before: Multiset<V>,
    old_part: Multiset<V>,
    new_part: Multiset<V>,
    out: Multiset<V>,
    into: Multiset<V>,
)
    requires
        after.add(old_part) == before.add(new_part),
        new_part.add(out) == old_part.add(into),
    ensures
        after.add(out) == before.add(into),
{
    assert forall|x: V| #[trigger] after.add(out).count(x) == before.add(into).count(x) by {
        assert(after.add(old_part).count(x) == before.add(new_part).count(x));
        assert(new_part.add(out).count(x) == old_part.add(into).count(x));
        lemma_add_count(after, old_part, x);
        lemma_add_count(before, new_part, x);
        lemma_add_count(new_part, out, x);
        lemma_add_count(old_part, into, x);
        lemma_add_count(after, out, x);
        lemma_add_count(before, into, x);
    }
    assert(after.add(out) =~= before.add(into));
}

/// Grows by the difference of a part: if `after + old_part == before +
/// new_part` and `new_part == old_part + extra`, then `after == before + extra`.
pub proof fn lemma_grow<V>(
    after: Multiset<V>,
    before: Multiset<V>,
    old_part: Multiset<V>,
    new_part: Multiset<V>,
    extra: Multiset<V>,
)
    requires
        after.add(old_part) == before.add(new_part),
        new_part == old_part.add(extra),
    ensures
        after == before.add(extra),
{
    assert forall|x: V| #[trigger] after.count(x) == before.add(extra).count(x) by {
        assert(after.add(old_part).count(x) == before.add(new_part).count(x));
        lemma_add_count(after, old_part, x);
        lemma_add_count(before, new_part, x);
        lemma_add_count(old_part, extra, x);
        lemma_add_count(before, extra, x);
    }
    assert(after =~= before.add(extra));
}

} // verus!
