//! Key hashing, fingerprints and the XOR alternate-bucket map.

use vstd::prelude::*;

verus! {

use vstd::wrapping::u64_specs;
use vstd::wrapping::u32_specs;

/// Added to every input of `splitmix64`.
pub const GOLDEN_RATIO: u64 = 0x9e37_79b9_7f4a_7c15;
/// Salt applied to user keys before hashing.
pub const KEY_HASH_SALT: u64 = 0xa076_1d64_78bd_642f;
/// Odd multiplier that spreads a fingerprint over the bucket index bits.
pub const DELTA_MULTIPLIER: u32 = 0x9e37_79b1;

/// The SplitMix64 finalizer, written with wrapping arithmetic.
#[verifier::opaque]
pub open spec fn splitmix64_spec(value: u64) -> u64 {
    let a = u64_specs::wrapping_add(value, GOLDEN_RATIO);
    let b = u64_specs::wrapping_mul(a ^ (a >> 30u64), 0xbf58_476d_1ce4_e5b9u64);
    let c = u64_specs::wrapping_mul(b ^ (b >> 27u64), 0x94d0_49bb_1331_11ebu64);
    c ^ (c >> 31u64)
}

/// SplitMix64 mixing function.
pub fn splitmix64(value: u64) -> (r: u64)
    ensures
        r == splitmix64_spec(value),
{
    reveal(splitmix64_spec);
    let a = value.wrapping_add(GOLDEN_RATIO);
    let b = (a ^ (a >> 30)).wrapping_mul(0xbf58_476d_1ce4_e5b9);
    let c = (b ^ (b >> 27)).wrapping_mul(0x94d0_49bb_1331_11eb);
    c ^ (c >> 31)
}

/// A mask of the form `2^k - 1`: all its set bits are the low ones.
pub open spec fn is_low_mask(mask: u32) -> bool {
    ((mask as u64) & ((mask as u64 + 1) as u64)) == 0
}

/// The nonzero bucket offset that a fingerprint contributes to its
/// alternate bucket.
pub open spec fn fingerprint_delta_spec(mask: u32, fingerprint: u16) -> u32 {
    let spread = u32_specs::wrapping_mul(fingerprint as u32, DELTA_MULTIPLIER) & mask;
    let folded = spread ^ (spread >> 8u32);
    if folded == 0 {
        1
    } else {
        folded
    }
}

/// The alternate bucket of a fingerprint stored in `bucket`.
pub open spec fn alt_index_spec(mask: u32, bucket: u32, fingerprint: u16) -> u32 {
    bucket ^ fingerprint_delta_spec(mask, fingerprint)
}

/// The smaller of the two candidate buckets of a fingerprint stored in
/// `bucket`; both candidates share it.
pub open spec fn home_bucket(mask: u32, bucket: u32, fingerprint: u16) -> u32 {
    let other = alt_index_spec(mask, bucket, fingerprint);
    if bucket <= other {
        bucket
    } else {
        other
    }
}

/// Bucket offset derived from a fingerprint.
pub fn fingerprint_delta(mask: u32, fingerprint: u16) -> (r: u32)
    ensures
        r == fingerprint_delta_spec(mask, fingerprint),
        r != 0,
{
    let spread = (fingerprint as u32).wrapping_mul(DELTA_MULTIPLIER) & mask;
    let folded = spread ^ (spread >> 8);
    if folded == 0 {
        1
    } else {
        folded
    }
}

/// The other candidate bucket of `fingerprint` when it sits in `bucket`.
pub fn alt_index(mask: u32, bucket: u32, fingerprint: u16) -> (r: u32)
    ensures
        r == alt_index_spec(mask, bucket, fingerprint),
{
    bucket ^ fingerprint_delta(mask, fingerprint)
}

/// The delta of a nonzero low mask never leaves the mask.
pub proof fn lemma_delta_within_mask(mask: u32, fingerprint: u16)
    requires
        is_low_mask(mask),
        mask >= 1,
    ensures
        1 <= fingerprint_delta_spec(mask, fingerprint) <= mask,
{
    let spread = u32_specs::wrapping_mul(fingerprint as u32, DELTA_MULTIPLIER) & mask;
    assert(spread <= mask) by (bit_vector)
        requires
            spread == u32_specs::wrapping_mul(fingerprint as u32, DELTA_MULTIPLIER) & mask;
    assert((spread ^ (spread >> 8u32)) <= mask) by (bit_vector)
        requires
            spread <= mask,
            ((mask as u64) & ((mask as u64 + 1) as u64)) == 0;
}

/// Moving a fingerprint to its alternate bucket stays within the table, and
/// moving it back returns it to where it started.
pub proof fn lemma_alt_index(mask: u32, bucket: u32, fingerprint: u16)
    requires
        is_low_mask(mask),
        mask >= 1,
        bucket <= mask,
    ensures
        alt_index_spec(mask, bucket, fingerprint) <= mask,
        alt_index_spec(mask, bucket, fingerprint) != bucket,
        alt_index_spec(mask, alt_index_spec(mask, bucket, fingerprint), fingerprint) == bucket,
        home_bucket(mask, alt_index_spec(mask, bucket, fingerprint), fingerprint) == home_bucket(
            mask,
            bucket,
            fingerprint,
        ),
        home_bucket(mask, bucket, fingerprint) <= mask,
{
    lemma_delta_within_mask(mask, fingerprint);
    let d = fingerprint_delta_spec(mask, fingerprint);
    assert((bucket ^ d) <= mask && (bucket ^ d) != bucket && ((bucket ^ d) ^ d) == bucket)
        by (bit_vector)
        requires
            bucket <= mask,
            1 <= d <= mask,
            ((mask as u64) & ((mask as u64 + 1) as u64)) == 0;
}

/// Two slots that share a home bucket for the same fingerprint are the two
/// candidate buckets of that fingerprint.
pub proof fn lemma_same_home(mask: u32, x: u32, f: u32, fingerprint: u16)
    requires
        home_bucket(mask, x, fingerprint) == home_bucket(mask, f, fingerprint),
    ensures
        x == f || x == alt_index_spec(mask, f, fingerprint),
{
    let d = fingerprint_delta_spec(mask, fingerprint);
    assert(((x ^ d) ^ d) == x && ((f ^ d) ^ d) == f) by (bit_vector);
}

/// At the fingerprint width (a 16-bit mask) distinct nonzero fingerprints
/// have distinct nonzero bucket deltas.
pub proof fn lemma_delta_unique_at_fingerprint_width(a: u16, b: u16)
    requires
        a != 0,
        b != 0,
        a != b,
    ensures
        fingerprint_delta_spec(0xffff, a) != fingerprint_delta_spec(0xffff, b),
        fingerprint_delta_spec(0xffff, a) != 0,
{
    let xa = u32_specs::wrapping_mul(a as u32, DELTA_MULTIPLIER);
    let xb = u32_specs::wrapping_mul(b as u32, DELTA_MULTIPLIER);
    assert(xa as int == ((a as u64) * 0x9e37_79b1u64) % 0x1_0000_0000int);
    assert(xb as int == ((b as u64) * 0x9e37_79b1u64) % 0x1_0000_0000int);
    let sa = xa & 0xffff;
    let sb = xb & 0xffff;
    assert(sa != sb) by (bit_vector)
        requires
            xa == ((a as u64) * 0x9e37_79b1u64) % 0x1_0000_0000int,
            xb == ((b as u64) * 0x9e37_79b1u64) % 0x1_0000_0000int,
            sa == xa & 0xffff,
            sb == xb & 0xffff,
            a != b,
    ;
    assert(sa != 0 && sb != 0 && sa <= 0xffff && sb <= 0xffff) by (bit_vector)
        requires
            xa == ((a as u64) * 0x9e37_79b1u64) % 0x1_0000_0000int,
            xb == ((b as u64) * 0x9e37_79b1u64) % 0x1_0000_0000int,
            sa == xa & 0xffff,
            sb == xb & 0xffff,
            a != 0,
            b != 0,
    ;
    assert((sa ^ (sa >> 8u32)) != (sb ^ (sb >> 8u32)) && (sa ^ (sa >> 8u32)) != 0 && (sb ^ (sb
        >> 8u32)) != 0) by (bit_vector)
        requires
            sa != sb,
            sa != 0,
            sb != 0,
            sa <= 0xffff,
            sb <= 0xffff,
    ;
}

/// For every table of at least `2^16` buckets, distinct nonzero fingerprints
/// have distinct nonzero bucket deltas: the mask keeps the low 16 bits of
/// the product, and the fold is invertible.
pub proof fn lemma_delta_unique_for_wide_masks(mask: u32, a: u16, b: u16)
    requires
        is_low_mask(mask),
        mask >= 0xffff,
        a != 0,
        b != 0,
        a != b,
    ensures
        fingerprint_delta_spec(mask, a) != fingerprint_delta_spec(mask, b),
        fingerprint_delta_spec(mask, a) != 0,
{
    let xa = u32_specs::wrapping_mul(a as u32, DELTA_MULTIPLIER);
    let xb = u32_specs::wrapping_mul(b as u32, DELTA_MULTIPLIER);
    assert(xa as int == ((a as u64) * 0x9e37_79b1u64) % 0x1_0000_0000int);
    assert(xb as int == ((b as u64) * 0x9e37_79b1u64) % 0x1_0000_0000int);
    assert((xa & 0xffff) != (xb & 0xffff) && (xa & 0xffff) != 0 && (xb & 0xffff) != 0) by (bit_vector)
        requires
            xa == ((a as u64) * 0x9e37_79b1u64) % 0x1_0000_0000int,
            xb == ((b as u64) * 0x9e37_79b1u64) % 0x1_0000_0000int,
            a != b,
            a != 0,
            b != 0,
    ;
    let sa = xa & mask;
    let sb = xb & mask;
    assert(sa != sb && sa != 0 && sb != 0) by (bit_vector)
        requires
            sa == xa & mask,
            sb == xb & mask,
            ((mask as u64) & ((mask as u64 + 1) as u64)) == 0,
            mask >= 0xffff,
            (xa & 0xffff) != (xb & 0xffff),
            (xa & 0xffff) != 0,
            (xb & 0xffff) != 0,
    ;
    assert((sa ^ (sa >> 8u32)) != (sb ^ (sb >> 8u32)) && (sa ^ (sa >> 8u32)) != 0 && (sb ^ (sb >> 8u32))
        != 0) by (bit_vector)
        requires
            sa != sb,
            sa != 0,
            sb != 0,
    ;
}

/// Hash of a user key.
pub open spec fn key_hash(key: u64) -> u64 {
    splitmix64_spec(key ^ KEY_HASH_SALT)
}

/// Fingerprint of a user key: the top 16 hash bits, with zero mapped to one.
pub open spec fn key_fingerprint(key: u64) -> u16 {
    let raw = (key_hash(key) >> 48u64) as u16;
    if raw == 0 {
        1
    } else {
        raw
    }
}

/// First candidate bucket of a user key.
pub open spec fn key_first(mask: u32, key: u64) -> u32 {
    (key_hash(key) as u32) & mask
}

/// Second candidate bucket of a user key.
pub open spec fn key_second(mask: u32, key: u64) -> u32 {
    alt_index_spec(mask, key_first(mask, key), key_fingerprint(key))
}

/// The stored item that represents a user key.
pub open spec fn key_item(mask: u32, key: u64) -> (u16, u32) {
    (key_fingerprint(key), home_bucket(mask, key_first(mask, key), key_fingerprint(key)))
}

/// Splits a key into its fingerprint, its two candidate buckets and its hash.
pub fn key_parts(mask: u32, key: u64) -> (r: (u16, u32, u32, u64))
    ensures
        r.0 == key_fingerprint(key),
        r.1 == key_first(mask, key),
        r.2 == key_second(mask, key),
        r.3 == key_hash(key),
        r.0 != 0,
        r.1 <= mask,
{
    let hash = splitmix64(key ^ KEY_HASH_SALT);
    let mut fingerprint = (hash >> 48) as u16;
    if fingerprint == 0 {
        fingerprint = 1;
    }
    let first = (hash as u32) & mask;
    assert(first <= mask) by (bit_vector)
        requires
            first == (hash as u32) & mask;
    let second = alt_index(mask, first, fingerprint);
    (fingerprint, first, second, hash)
}

} // verus!
