//! One packed `u64` word holding four 16-bit fingerprint slots, and the
//! slot-orientation codecs that store relocation ranks in it.

use vstd::prelude::*;

verus! {

use vstd::multiset::Multiset;
use vstd::std_specs::bits::u64_leading_zeros;
use vstd::std_specs::bits::axiom_u64_leading_zeros;

/// Number of fingerprint slots per bucket.
pub const SLOTS: usize = 4;

/// The four 16-bit lanes of a packed word, lowest lane first.
pub open spec fn lanes(word: u64) -> Seq<u16> {
    seq![word as u16, (word >> 16u64) as u16, (word >> 32u64) as u16, (word >> 48u64) as u16]
}

/// Packs four lanes, lowest lane first.
pub open spec fn pack(s: Seq<u16>) -> u64 {
    (s[0] as u64) | ((s[1] as u64) << 16u64) | ((s[2] as u64) << 32u64) | ((s[3] as u64)
        << 48u64)
}

/// Whether any of the four lanes equals `fingerprint`.
pub open spec fn holds(s: Seq<u16>, fingerprint: u16) -> bool {
    s[0] == fingerprint || s[1] == fingerprint || s[2] == fingerprint || s[3] == fingerprint
}

/// The multiset of the four lane values.
pub open spec fn slot_multiset(s: Seq<u16>) -> Multiset<u16> {
    Multiset::empty().insert(s[0]).insert(s[1]).insert(s[2]).insert(s[3])
}

/// Position just past the highest nonzero lane.
pub open spec fn occupancy_of(s: Seq<u16>) -> nat {
    if s[3] != 0 {
        4
    } else if s[2] != 0 {
        3
    } else if s[1] != 0 {
        2
    } else if s[0] != 0 {
        1
    } else {
        0
    }
}

/// Occupied slots form a low-order prefix: a zero lane is followed only by
/// zero lanes.
pub open spec fn is_prefix_form(s: Seq<u16>) -> bool {
    &&& s.len() == 4
    &&& (s[0] == 0 ==> s[1] == 0)
    &&& (s[1] == 0 ==> s[2] == 0)
    &&& (s[2] == 0 ==> s[3] == 0)
}

/// All four lanes hold fingerprints.
pub open spec fn all_nonzero(s: Seq<u16>) -> bool {
    s[0] != 0 && s[1] != 0 && s[2] != 0 && s[3] != 0
}

/// Index of the first lane equal to `fingerprint`, or 4 when there is none.
pub open spec fn first_position(s: Seq<u16>, fingerprint: u16) -> int {
    if s[0] == fingerprint {
        0
    } else if s[1] == fingerprint {
        1
    } else if s[2] == fingerprint {
        2
    } else if s[3] == fingerprint {
        3
    } else {
        4
    }
}

/// Ascending order of four lanes.
pub open spec fn is_sorted4(s: Seq<u16>) -> bool {
    s[0] <= s[1] && s[1] <= s[2] && s[2] <= s[3]
}

/// Exchanges two positions of a sequence.
pub open spec fn swapped(s: Seq<u16>, i: int, j: int) -> Seq<u16> {
    s.update(i, s[j]).update(j, s[i])
}

/// Compare-and-exchange of two positions into ascending order.
pub open spec fn ordered_pair(s: Seq<u16>, i: int, j: int) -> Seq<u16> {
    if s[j] < s[i] {
        swapped(s, i, j)
    } else {
        s
    }
}

/// A five-comparator sorting network on four lanes.
pub open spec fn sort4(s: Seq<u16>) -> Seq<u16> {
    ordered_pair(
        ordered_pair(ordered_pair(ordered_pair(ordered_pair(s, 0, 1), 2, 3), 0, 2), 1, 3),
        1,
        2,
    )
}

/// `value` clamped to `low..=high`.
pub open spec fn clamp_spec(value: u8, low: u8, high: u8) -> u8 {
    if value < low {
        low
    } else if value > high {
        high
    } else {
        value
    }
}

/// Whether some value occupies three or more of the four lanes.
pub open spec fn has_triple(s: Seq<u16>) -> bool {
    ||| (s[0] == s[1] && s[1] == s[2])
    ||| (s[0] == s[1] && s[1] == s[3])
    ||| (s[0] == s[2] && s[2] == s[3])
    ||| (s[1] == s[2] && s[2] == s[3])
}

/// Whether two lanes hold the same value.
pub open spec fn has_duplicate(s: Seq<u16>) -> bool {
    s[0] == s[1] || s[0] == s[2] || s[0] == s[3] || s[1] == s[2] || s[1] == s[3] || s[2] == s[3]
}

/// Whether all four lanes hold the same value.
pub open spec fn all_equal(s: Seq<u16>) -> bool {
    s[0] == s[1] && s[0] == s[2] && s[0] == s[3]
}

/// Two-level rank of a word: 1 when its first pair ascends, 2 otherwise.
pub open spec fn cavity_rank(s: Seq<u16>) -> u8 {
    if s[1] < s[0] {
        2
    } else {
        1
    }
}

/// Four-level rank of a word from the orientations of its two slot pairs.
pub open spec fn rank4_of(s: Seq<u16>) -> u8 {
    (1 + (if s[1] < s[0] {
        1int
    } else {
        0int
    }) + 2 * (if s[3] < s[2] {
        1int
    } else {
        0int
    })) as u8
}

/// Index of the first minimal lane.
pub open spec fn min_index(s: Seq<u16>) -> int {
    if s[0] <= s[1] && s[0] <= s[2] && s[0] <= s[3] {
        0
    } else if s[1] <= s[2] && s[1] <= s[3] {
        1
    } else if s[2] <= s[3] {
        2
    } else {
        3
    }
}

/// Eight-state orientation of a word with four distinct lanes, 4 otherwise.
pub open spec fn d4_state(s: Seq<u16>) -> u8 {
    if has_duplicate(s) {
        4
    } else {
        let m = min_index(s);
        let clockwise = (m + 1) % 4;
        let counterclockwise = (m + 3) % 4;
        (1 + m + 4 * (if s[clockwise] > s[counterclockwise] {
            1int
        } else {
            0int
        })) as u8
    }
}

/// Lane order chosen by the pair-cavity encoder.
pub open spec fn cavity_arrangement(s: Seq<u16>, state: u8) -> Seq<u16> {
    let descending = clamp_spec(state, 1, 2) == 2;
    if s[0] == s[1] && s[2] == s[0] && s[3] == s[0] {
        s
    } else {
        let t = if s[0] == s[1] {
            if s[2] != s[0] {
                swapped(s, 1, 2)
            } else {
                swapped(s, 1, 3)
            }
        } else {
            s
        };
        if (t[1] < t[0]) != descending {
            swapped(t, 0, 1)
        } else {
            t
        }
    }
}

/// Lane order after the four-level encoder pairs up equal fingerprints.
pub open spec fn rank4_pairing(s: Seq<u16>) -> Seq<u16> {
    if s[0] == s[1] || s[2] == s[3] {
        let t = sort4(s);
        if t[0] != t[2] && t[1] != t[3] {
            seq![t[0], t[2], t[1], t[3]]
        } else {
            t
        }
    } else {
        s
    }
}

/// Lane order chosen by the four-level encoder.
pub open spec fn rank4_arrangement(s: Seq<u16>, rank: u8) -> Seq<u16> {
    let t = rank4_pairing(s);
    if t[0] == t[1] || t[2] == t[3] {
        t
    } else {
        let state = clamp_spec(rank, 1, 4) - 1;
        let low = state % 2 == 1;
        let high = state >= 2;
        let u = if (t[1] < t[0]) != low {
            swapped(t, 0, 1)
        } else {
            t
        };
        if (u[3] < u[2]) != high {
            swapped(u, 2, 3)
        } else {
            u
        }
    }
}

/// Lane order chosen by the eight-state encoder.
pub open spec fn d4_arrangement(s: Seq<u16>, potential: u8) -> Seq<u16> {
    if has_duplicate(s) {
        sort4(s)
    } else {
        let m = min_index(s);
        let state = clamp_spec(potential, 1, 8) - 1;
        let desired_position = state % 4;
        let desired_orientation = state / 4;
        let clockwise = (m + 1) % 4;
        let counterclockwise = (m + 3) % 4;
        let orientation = if s[clockwise] > s[counterclockwise] {
            1int
        } else {
            0int
        };
        let t = if orientation != desired_orientation {
            swapped(s, clockwise, counterclockwise)
        } else {
            s
        };
        let shift = (desired_position + 4 - m) % 4;
        Seq::new(4, |j: int| t[(j - shift + 4) % 4])
    }
}

/// One packed `u64` containing up to four nonzero 16-bit fingerprints.
/// Occupied slots form a low-order prefix; zero marks the unused suffix.
#[derive(Clone, Copy, Debug, PartialEq, Eq, Structural)]
pub struct Bucket(pub u64);

impl View for Bucket {
    type V = Seq<u16>;

    open spec fn view(&self) -> Seq<u16> {
        lanes(self.0)
    }
}

impl Default for Bucket {
    fn default() -> (r: Bucket)
        ensures
            r@ == seq![0u16, 0u16, 0u16, 0u16],
    {
        proof {
            assert((0u64 as u16) == 0 && ((0u64 >> 16u64) as u16) == 0 && ((0u64 >> 32u64) as u16)
                == 0 && ((0u64 >> 48u64) as u16) == 0) by (bit_vector);
        }
        Bucket(0)
    }
}

/// Every word packs its own lanes.
pub proof fn lemma_pack_lanes(word: u64)
    ensures
        pack(lanes(word)) == word,
        lanes(word).len() == 4,
{
    assert(((word as u16) as u64) | ((((word >> 16u64) as u16) as u64) << 16u64) | ((((word
        >> 32u64) as u16) as u64) << 32u64) | ((((word >> 48u64) as u16) as u64) << 48u64)
        == word) by (bit_vector);
}

/// Packing four lanes keeps each of them.
pub proof fn lemma_lanes_pack(a: u16, b: u16, c: u16, d: u16)
    ensures
        lanes(pack(seq![a, b, c, d])) == seq![a, b, c, d],
{
    let w = (a as u64) | ((b as u64) << 16u64) | ((c as u64) << 32u64) | ((d as u64) << 48u64);
    assert(w as u16 == a && (w >> 16u64) as u16 == b && (w >> 32u64) as u16 == c && (w
        >> 48u64) as u16 == d) by (bit_vector)
        requires
            w == (a as u64) | ((b as u64) << 16u64) | ((c as u64) << 32u64) | ((d as u64)
                << 48u64),
    ;
    assert(pack(seq![a, b, c, d]) == w);
    assert(lanes(w) =~= seq![a, b, c, d]);
}

/// Leading zero bits and vanishing right shifts agree.
proof fn lemma_leading_zeros_shift(w: u64, t: u64)
    requires
        t <= 64,
    ensures
        (w >> t == 0) <==> u64_leading_zeros(w) >= 64 - t,
    decreases w,
{
    axiom_u64_leading_zeros(w);
    if w == 0 {
        assert(0u64 >> t == 0) by (bit_vector);
    } else {
        axiom_u64_leading_zeros(w / 2);
        reveal(u64_leading_zeros);
        assert(u64_leading_zeros(w) == u64_leading_zeros(w / 2) - 1);
        if t == 0 {
            assert(w >> 0u64 == w) by (bit_vector);
        } else {
            let s = (t - 1) as u64;
            assert((w >> t == 0) == ((w / 2) >> s == 0)) by (bit_vector)
                requires
                    s + 1 == t,
                    t <= 64,
            ;
            lemma_leading_zeros_shift(w / 2, s);
        }
    }
}

impl Bucket {
    /// Returns the fingerprint in lane `index`.
    pub fn slot(self, index: usize) -> (r: u16)
        requires
            index < SLOTS,
        ensures
            r == self@[index as int],
    {
        let w = self.0;
        let r = ((w >> ((16 * index) as u64)) & 0xffff) as u16;
        proof {
            assert(((w >> 0u64) & 0xffff) as u16 == w as u16 && ((w >> 16u64) & 0xffff) as u16 == (w
                >> 16u64) as u16 && ((w >> 32u64) & 0xffff) as u16 == (w >> 32u64) as u16 && ((w
                >> 48u64) & 0xffff) as u16 == (w >> 48u64) as u16) by (bit_vector);
        }
        r
    }

    /// Returns the position just past the highest occupied lane.
    pub fn occupancy(self) -> (r: usize)
        ensures
            r == occupancy_of(self@),
    {
        if self.slot(3) != 0 {
            4
        } else if self.slot(2) != 0 {
            3
        } else if self.slot(1) != 0 {
            2
        } else if self.slot(0) != 0 {
            1
        } else {
            0
        }
    }

    /// The same count as [`Bucket::occupancy`], computed from the count of
    /// leading zero bits.
    pub fn branchless_occupancy(self) -> (r: usize)
        ensures
            r == occupancy_of(self@),
    {
        let w = self.0;
        let zeros = w.leading_zeros();
        proof {
            axiom_u64_leading_zeros(w);
            lemma_leading_zeros_shift(w, 16);
            lemma_leading_zeros_shift(w, 32);
            lemma_leading_zeros_shift(w, 48);
            lemma_leading_zeros_shift(w, 64);
            assert(((w >> 48u64) as u16 != 0) == (w >> 48u64 != 0) && (((w >> 48u64) == 0) ==> (((w
                >> 32u64) as u16 != 0) == (w >> 32u64 != 0))) && (((w >> 32u64) == 0) ==> (((w
                >> 16u64) as u16 != 0) == (w >> 16u64 != 0))) && (((w >> 16u64) == 0) ==> ((w as u16
                != 0) == (w >> 0u64 != 0))) && w >> 64u64 == 0 && w >> 0u64 == w) by (bit_vector);
        }
        SLOTS - (zeros as usize) / 16
    }

    /// Whether all four lanes are occupied.
    pub fn is_full(self) -> (r: bool)
        ensures
            r == (self@[3] != 0),
    {
        let w = self.0;
        proof {
            assert((w >> 48u64 != 0) == ((w >> 48u64) as u16 != 0)) by (bit_vector);
        }
        w >> 48 != 0
    }

    /// Whether any lane equals `fingerprint`.
    pub fn contains(self, fingerprint: u16) -> (r: bool)
        ensures
            r == holds(self@, fingerprint),
    {
        self.slot(0) == fingerprint || self.slot(1) == fingerprint || self.slot(2) == fingerprint
            || self.slot(3) == fingerprint
    }

    /// Writes `fingerprint` into the first free lane, or reports a full
    /// bucket without changing it.
    pub fn append(&mut self, fingerprint: u16) -> (r: bool)
        requires
            fingerprint != 0,
        ensures
            r == (occupancy_of(old(self)@) < 4),
            r ==> final(self)@ == old(self)@.update(occupancy_of(old(self)@) as int, fingerprint),
            !r ==> *final(self) == *old(self),
    {
        let occupancy = self.occupancy();
        if occupancy == SLOTS {
            return false;
        }
        let w = self.0;
        let f = fingerprint as u64;
        let updated = w | (f << ((16 * occupancy) as u64));
        proof {
            if occupancy == 0 {
                assert(w as u16 == 0 && (w >> 16u64) as u16 == 0 && (w >> 32u64) as u16 == 0 && (w
                    >> 48u64) as u16 == 0 ==> ((w | (f << 0u64)) as u16 == f as u16 && ((w | (f
                    << 0u64)) >> 16u64) as u16 == 0 && ((w | (f << 0u64)) >> 32u64) as u16 == 0
                    && ((w | (f << 0u64)) >> 48u64) as u16 == 0)) by (bit_vector)
                    requires
                        f < 0x10000,
                ;
            } else if occupancy == 1 {
                assert((w >> 16u64) as u16 == 0 && (w >> 32u64) as u16 == 0 && (w >> 48u64) as u16
                    == 0 ==> ((w | (f << 16u64)) as u16 == w as u16 && ((w | (f << 16u64))
                    >> 16u64) as u16 == f as u16 && ((w | (f << 16u64)) >> 32u64) as u16 == 0 && ((w
                    | (f << 16u64)) >> 48u64) as u16 == 0)) by (bit_vector)
                    requires
                        f < 0x10000,
                ;
            } else if occupancy == 2 {
                assert((w >> 32u64) as u16 == 0 && (w >> 48u64) as u16 == 0 ==> ((w | (f
                    << 32u64)) as u16 == w as u16 && ((w | (f << 32u64)) >> 16u64) as u16 == (w
                    >> 16u64) as u16 && ((w | (f << 32u64)) >> 32u64) as u16 == f as u16 && ((w | (f
                    << 32u64)) >> 48u64) as u16 == 0)) by (bit_vector)
                    requires
                        f < 0x10000,
                ;
            } else {
                assert((w >> 48u64) as u16 == 0 ==> ((w | (f << 48u64)) as u16 == w as u16 && ((w
                    | (f << 48u64)) >> 16u64) as u16 == (w >> 16u64) as u16 && ((w | (f << 48u64))
                    >> 32u64) as u16 == (w >> 32u64) as u16 && ((w | (f << 48u64)) >> 48u64) as u16
                    == f as u16)) by (bit_vector)
                    requires
                        f < 0x10000,
                ;
            }
            assert(lanes(updated) =~= lanes(w).update(occupancy as int, fingerprint));
        }
        self.0 = updated;
        true
    }

    /// Overwrites lane `slot` with `fingerprint`.
    pub fn replace(&mut self, slot: usize, fingerprint: u16)
        requires
            slot < SLOTS,
        ensures
            final(self)@ == old(self)@.update(slot as int, fingerprint),
    {
        let w = self.0;
        let f = fingerprint as u64;
        let shift = (16 * slot) as u64;
        let mask = 0xffffu64 << shift;
        let updated = (w & !mask) | (f << shift);
        proof {
            if slot == 0 {
                assert(((w & !(0xffffu64 << 0u64)) | (f << 0u64)) as u16 == f as u16 && (((w
                    & !(0xffffu64 << 0u64)) | (f << 0u64)) >> 16u64) as u16 == (w >> 16u64) as u16
                    && (((w & !(0xffffu64 << 0u64)) | (f << 0u64)) >> 32u64) as u16 == (w >> 32u64)
                    as u16 && (((w & !(0xffffu64 << 0u64)) | (f << 0u64)) >> 48u64) as u16 == (w
                    >> 48u64) as u16) by (bit_vector)
                    requires
                        f < 0x10000,
                ;
            } else if slot == 1 {
                assert(((w & !(0xffffu64 << 16u64)) | (f << 16u64)) as u16 == w as u16 && (((w
                    & !(0xffffu64 << 16u64)) | (f << 16u64)) >> 16u64) as u16 == f as u16 && (((w
                    & !(0xffffu64 << 16u64)) | (f << 16u64)) >> 32u64) as u16 == (w >> 32u64) as u16
                    && (((w & !(0xffffu64 << 16u64)) | (f << 16u64)) >> 48u64) as u16 == (w
                    >> 48u64) as u16) by (bit_vector)
                    requires
                        f < 0x10000,
                ;
            } else if slot == 2 {
                assert(((w & !(0xffffu64 << 32u64)) | (f << 32u64)) as u16 == w as u16 && (((w
                    & !(0xffffu64 << 32u64)) | (f << 32u64)) >> 16u64) as u16 == (w >> 16u64) as u16
                    && (((w & !(0xffffu64 << 32u64)) | (f << 32u64)) >> 32u64) as u16 == f as u16
                    && (((w & !(0xffffu64 << 32u64)) | (f << 32u64)) >> 48u64) as u16 == (w
                    >> 48u64) as u16) by (bit_vector)
                    requires
                        f < 0x10000,
                ;
            } else {
                assert(((w & !(0xffffu64 << 48u64)) | (f << 48u64)) as u16 == w as u16 && (((w
                    & !(0xffffu64 << 48u64)) | (f << 48u64)) >> 16u64) as u16 == (w >> 16u64) as u16
                    && (((w & !(0xffffu64 << 48u64)) | (f << 48u64)) >> 32u64) as u16 == (w
                    >> 32u64) as u16 && (((w & !(0xffffu64 << 48u64)) | (f << 48u64)) >> 48u64)
                    as u16 == f as u16) by (bit_vector)
                    requires
                        f < 0x10000,
                ;
            }
            assert(lanes(updated) =~= lanes(w).update(slot as int, fingerprint));
        }
        self.0 = updated;
    }

    /// Removes the first lane equal to `fingerprint` and shifts the later
    /// lanes down, keeping occupied lanes a prefix.
    pub fn remove_first(&mut self, fingerprint: u16) -> (r: bool)
        requires
            fingerprint != 0,
        ensures
            r == holds(old(self)@, fingerprint),
            r ==> final(self)@ == old(self)@.remove(first_position(old(self)@, fingerprint)).push(
                0u16,
            ),
            !r ==> *final(self) == *old(self),
    {
        let position: usize = if self.slot(0) == fingerprint {
            0
        } else if self.slot(1) == fingerprint {
            1
        } else if self.slot(2) == fingerprint {
            2
        } else if self.slot(3) == fingerprint {
            3
        } else {
            return false;
        };
        let w = self.0;
        let shift = (16 * position) as u64;
        let low_mask = (1u64 << shift).wrapping_sub(1);
        let updated = (w & low_mask) | ((w >> 16) & !low_mask);
        proof {
            if position == 0 {
                assert((1u64 << 0u64) == (0u64 + 1) as u64) by (bit_vector);
                assert(shift == 0u64);
                assert(low_mask == 0u64);
                assert(updated == (w & 0u64) | ((w >> 16u64) & !0u64));
                assert(((w & 0u64) | ((w >> 16u64) & !0u64)) as u16 == (w >> 16u64) as u16 && (((w
                    & 0u64) | ((w >> 16u64) & !0u64)) >> 16u64) as u16 == (w >> 32u64) as u16
                    && (((w & 0u64) | ((w >> 16u64) & !0u64)) >> 32u64) as u16 == (w >> 48u64)
                    as u16 && (((w & 0u64) | ((w >> 16u64) & !0u64)) >> 48u64) as u16 == 0)
                    by (bit_vector);
            } else if position == 1 {
                assert((1u64 << 16u64) == (0xffffu64 + 1) as u64) by (bit_vector);
                assert(shift == 16u64);
                assert(low_mask == 0xffffu64);
                assert(updated == (w & 0xffffu64) | ((w >> 16u64) & !0xffffu64));
                assert(((w & 0xffffu64) | ((w >> 16u64) & !0xffffu64)) as u16 == w as u16 && (((w
                    & 0xffffu64) | ((w >> 16u64) & !0xffffu64)) >> 16u64) as u16 == (w >> 32u64)
                    as u16 && (((w & 0xffffu64) | ((w >> 16u64) & !0xffffu64)) >> 32u64) as u16 == (
                w >> 48u64) as u16 && (((w & 0xffffu64) | ((w >> 16u64) & !0xffffu64)) >> 48u64)
                    as u16 == 0) by (bit_vector);
            } else if position == 2 {
                assert((1u64 << 32u64) == (0xffff_ffffu64 + 1) as u64) by (bit_vector);
                assert(shift == 32u64);
                assert(low_mask == 0xffff_ffffu64);
                assert(updated == (w & 0xffff_ffffu64) | ((w >> 16u64) & !0xffff_ffffu64));
                assert(((w & 0xffff_ffffu64) | ((w >> 16u64) & !0xffff_ffffu64)) as u16 == w as u16
                    && (((w & 0xffff_ffffu64) | ((w >> 16u64) & !0xffff_ffffu64)) >> 16u64) as u16
                    == (w >> 16u64) as u16 && (((w & 0xffff_ffffu64) | ((w >> 16u64)
                    & !0xffff_ffffu64)) >> 32u64) as u16 == (w >> 48u64) as u16 && (((w
                    & 0xffff_ffffu64) | ((w >> 16u64) & !0xffff_ffffu64)) >> 48u64) as u16 == 0)
                    by (bit_vector);
            } else {
                assert((1u64 << 48u64) == (0xffff_ffff_ffffu64 + 1) as u64) by (bit_vector);
                assert(shift == 48u64);
                assert(low_mask == 0xffff_ffff_ffffu64);
                assert(updated == (w & 0xffff_ffff_ffffu64) | ((w >> 16u64) & !0xffff_ffff_ffffu64));
                assert(((w & 0xffff_ffff_ffffu64) | ((w >> 16u64) & !0xffff_ffff_ffffu64)) as u16
                    == w as u16 && (((w & 0xffff_ffff_ffffu64) | ((w >> 16u64)
                    & !0xffff_ffff_ffffu64)) >> 16u64) as u16 == (w >> 16u64) as u16 && (((w
                    & 0xffff_ffff_ffffu64) | ((w >> 16u64) & !0xffff_ffff_ffffu64)) >> 32u64) as u16
                    == (w >> 32u64) as u16 && (((w & 0xffff_ffff_ffffu64) | ((w >> 16u64)
                    & !0xffff_ffff_ffffu64)) >> 48u64) as u16 == 0) by (bit_vector);
            }
            let l = lanes(w);
            let expected = l.remove(position as int).push(0u16);
            if position == 0 {
                assert(expected =~= seq![l[1], l[2], l[3], 0u16]);
            } else if position == 1 {
                assert(expected =~= seq![l[0], l[2], l[3], 0u16]);
            } else if position == 2 {
                assert(expected =~= seq![l[0], l[1], l[3], 0u16]);
            } else {
                assert(expected =~= seq![l[0], l[1], l[2], 0u16]);
            }
            assert(lanes(updated) =~= expected);
        }
        self.0 = updated;
        true
    }

    /// Returns the four lanes, lowest first.
    pub fn slots(self) -> (r: [u16; SLOTS])
        ensures
            r@ == self@,
    {
        let r = [self.slot(0), self.slot(1), self.slot(2), self.slot(3)];
        assert(r@ =~= self@);
        r
    }

    /// Packs four lanes, lowest first.
    pub fn from_slots(slots: [u16; SLOTS]) -> (r: Bucket)
        ensures
            r@ == slots@,
    {
        let w = (slots[0] as u64) | ((slots[1] as u64) << 16) | ((slots[2] as u64) << 32) | ((
        slots[3] as u64) << 48);
        proof {
            lemma_lanes_pack(slots@[0], slots@[1], slots@[2], slots@[3]);
            assert(slots@ =~= seq![slots@[0], slots@[1], slots@[2], slots@[3]]);
        }
        Bucket(w)
    }

    /// Returns the four lanes in ascending order.
    pub fn sorted_slots(self) -> (r: [u16; SLOTS])
        ensures
            r@ == sort4(self@),
            is_sorted4(r@),
            slot_multiset(r@) == slot_multiset(self@),
    {
        let r = sort_slots(self.slots());
        proof {
            lemma_sort4(self@);
        }
        r
    }

    /// Decodes 1 = NEAR, 2 = FAR with one 16-bit comparison.
    pub fn decode_cavity(self) -> (r: u8)
        ensures
            r == cavity_rank(self@),
    {
        if self.slot(1) < self.slot(0) {
            2
        } else {
            1
        }
    }

    /// Orders four nonzero fingerprints so that the first pair stores the
    /// two-level rank `state`.
    pub fn encode_cavity(slots: [u16; SLOTS], state: u8) -> (r: Bucket)
        requires
            all_nonzero(slots@),
        ensures
            r@ == cavity_arrangement(slots@, state),
            slot_multiset(r@) == slot_multiset(slots@),
            !all_equal(slots@) ==> cavity_rank(r@) == clamp_spec(state, 1, 2),
    {
        let mut slots = slots;
        let ghost input = slots@;
        let descending = state >= 2;
        if slots[0] == slots[1] {
            let distinct: usize = if slots[2] != slots[0] {
                2
            } else if slots[3] != slots[0] {
                3
            } else {
                proof {
                    lemma_cavity_codec(input, state);
                }
                return Self::from_slots(slots);
            };
            let t = slots[1];
            slots[1] = slots[distinct];
            slots[distinct] = t;
        }
        if (slots[1] < slots[0]) != descending {
            let t = slots[0];
            slots[0] = slots[1];
            slots[1] = t;
        }
        proof {
            lemma_cavity_codec(input, state);
            assert(slots@ =~= cavity_arrangement(input, state));
        }
        Self::from_slots(slots)
    }

    /// Decodes a truncated rank in 1..=4 from two pair orientations.
    pub fn decode_rank4(self) -> (r: u8)
        ensures
            r == rank4_of(self@),
            1 <= r <= 4,
    {
        let low: u8 = if self.slot(1) < self.slot(0) {
            1
        } else {
            0
        };
        let high: u8 = if self.slot(3) < self.slot(2) {
            1
        } else {
            0
        };
        1 + low + 2 * high
    }

    /// Orders four nonzero fingerprints so that both slot pairs store the
    /// four-level rank `rank`. A multiset with three or four equal
    /// fingerprints cannot form two orientable pairs and keeps rank 1.
    pub fn encode_rank4(slots: [u16; SLOTS], rank: u8) -> (r: Bucket)
        requires
            all_nonzero(slots@),
        ensures
            r@ == rank4_arrangement(slots@, rank),
            slot_multiset(r@) == slot_multiset(slots@),
            !has_triple(slots@) ==> rank4_of(r@) == clamp_spec(rank, 1, 4),
            has_triple(slots@) ==> rank4_of(r@) == 1,
    {
        let ghost input = slots@;
        let mut slots = slots;
        if slots[0] == slots[1] || slots[2] == slots[3] {
            slots = sort_slots(slots);
            if slots[0] != slots[2] && slots[1] != slots[3] {
                slots = [slots[0], slots[2], slots[1], slots[3]];
            }
        }
        proof {
            lemma_rank4_codec(input, rank);
            assert(slots@ =~= rank4_pairing(input));
        }
        if slots[0] == slots[1] || slots[2] == slots[3] {
            return Self::from_slots(slots);
        }
        let state: u8 = if rank < 1 {
            0
        } else if rank > 4 {
            3
        } else {
            rank - 1
        };
        if (slots[1] < slots[0]) != (state % 2 == 1) {
            let t = slots[0];
            slots[0] = slots[1];
            slots[1] = t;
        }
        if (slots[3] < slots[2]) != (state >= 2) {
            let t = slots[2];
            slots[2] = slots[3];
            slots[3] = t;
        }
        proof {
            assert(slots@ =~= rank4_arrangement(input, rank));
        }
        Self::from_slots(slots)
    }

    /// Decodes the eight-state orientation of four distinct fingerprints,
    /// or 4 when two fingerprints are equal.
    pub fn decode_d4(self) -> (r: u8)
        ensures
            r == d4_state(self@),
    {
        let slots = self.slots();
        if has_duplicate_exec(&slots) {
            return 4;
        }
        let minimum = min_index_exec(&slots);
        let clockwise = (minimum + 1) % 4;
        let counterclockwise = (minimum + 3) % 4;
        let orientation: u8 = if slots[clockwise] > slots[counterclockwise] {
            1
        } else {
            0
        };
        1 + minimum as u8 + 4 * orientation
    }

    /// Places four fingerprints so that the minimum's position and the
    /// orientation of its two neighbours store `potential` in 1..=8. A
    /// multiset with a repeated fingerprint is stored sorted.
    pub fn encode_d4(slots: [u16; SLOTS], potential: u8) -> (r: Bucket)
        ensures
            r@ == d4_arrangement(slots@, potential),
            slot_multiset(r@) == slot_multiset(slots@),
            !has_duplicate(slots@) ==> d4_state(r@) == clamp_spec(potential, 1, 8),
    {
        let ghost input = slots@;
        proof {
            lemma_d4_codec(input, potential);
        }
        if has_duplicate_exec(&slots) {
            return Self::from_slots(sort_slots(slots));
        }
        let mut slots = slots;
        let minimum = min_index_exec(&slots);
        let state: u8 = if potential < 1 {
            0
        } else if potential > 8 {
            7
        } else {
            potential - 1
        };
        let desired_position = (state % 4) as usize;
        let desired_orientation = state / 4;
        let clockwise = (minimum + 1) % 4;
        let counterclockwise = (minimum + 3) % 4;
        let orientation: u8 = if slots[clockwise] > slots[counterclockwise] {
            1
        } else {
            0
        };
        if orientation != desired_orientation {
            let t = slots[clockwise];
            slots[clockwise] = slots[counterclockwise];
            slots[counterclockwise] = t;
        }
        let ghost turned = slots@;
        let shift = (desired_position + SLOTS - minimum) % SLOTS;
        let mut encoded = [0u16; SLOTS];
        let mut index: usize = 0;
        while index < SLOTS
            invariant
                index <= SLOTS,
                shift < SLOTS,
                slots@ == turned,
                turned.len() == 4,
                encoded@.len() == 4,
                forall|j: int|
                    0 <= j < 4 && (j - shift + 4) % 4 < index ==> #[trigger] encoded@[j] == turned[(
                    j - shift + 4) % 4],
            decreases SLOTS - index,
        {
            encoded[(index + shift) % 4] = slots[index];
            index += 1;
        }
        proof {
            assert(encoded@ =~= d4_arrangement(input, potential));
        }
        Self::from_slots(encoded)
    }
}

/// Whether two of four lanes are equal.
fn has_duplicate_exec(s: &[u16; SLOTS]) -> (r: bool)
    ensures
        r == has_duplicate(s@),
{
    let mut left: usize = 0;
    while left < SLOTS
        invariant
            left <= SLOTS,
            forall|i: int, j: int| 0 <= i < left && i < j < 4 ==> s@[i] != s@[j],
        decreases SLOTS - left,
    {
        let mut right = left + 1;
        while right < SLOTS
            invariant
                left < SLOTS,
                left + 1 <= right <= SLOTS,
                forall|i: int, j: int| 0 <= i < left && i < j < 4 ==> s@[i] != s@[j],
                forall|j: int| left < j < right ==> s@[left as int] != s@[j],
            decreases SLOTS - right,
        {
            if s[left] == s[right] {
                return true;
            }
            right += 1;
        }
        left += 1;
    }
    false
}

/// Index of the first minimal lane.
fn min_index_exec(s: &[u16; SLOTS]) -> (r: usize)
    ensures
        r == min_index(s@),
        r < 4,
{
    let mut best: usize = 0;
    let mut index: usize = 1;
    while index < SLOTS
        invariant
            1 <= index <= SLOTS,
            best < index,
            forall|j: int| 0 <= j < index ==> s@[best as int] <= s@[j],
            forall|j: int| 0 <= j < best ==> s@[best as int] < s@[j],
        decreases SLOTS - index,
    {
        if s[index] < s[best] {
            best = index;
        }
        index += 1;
    }
    best
}

/// Sorts four lanes with a five-comparator network.
pub fn sort_slots(s: [u16; SLOTS]) -> (r: [u16; SLOTS])
    ensures
        r@ == sort4(s@),
{
    let mut s = s;
    compare_exchange(&mut s, 0, 1);
    compare_exchange(&mut s, 2, 3);
    compare_exchange(&mut s, 0, 2);
    compare_exchange(&mut s, 1, 3);
    compare_exchange(&mut s, 1, 2);
    s
}

fn compare_exchange(s: &mut [u16; SLOTS], i: usize, j: usize)
    requires
        i < j < SLOTS,
    ensures
        final(s)@ == ordered_pair(old(s)@, i as int, j as int),
{
    if s[j] < s[i] {
        let t = s[i];
        s[i] = s[j];
        s[j] = t;
        assert(s@ =~= ordered_pair(old(s)@, i as int, j as int));
    }
}

/// Exchanging two lanes keeps the lane multiset.
pub proof fn lemma_swap_multiset(s: Seq<u16>, i: int, j: int)
    requires
        s.len() == 4,
        0 <= i < 4,
        0 <= j < 4,
    ensures
        slot_multiset(swapped(s, i, j)) == slot_multiset(s),
        swapped(s, i, j).len() == 4,
{
    let t = swapped(s, i, j);
    assert(slot_multiset(t) =~= slot_multiset(s));
}

/// The sorting network sorts and permutes.
pub proof fn lemma_sort4(s: Seq<u16>)
    requires
        s.len() == 4,
    ensures
        is_sorted4(sort4(s)),
        slot_multiset(sort4(s)) == slot_multiset(s),
        sort4(s).len() == 4,
{
    let a = ordered_pair(s, 0, 1);
    let b = ordered_pair(a, 2, 3);
    let c = ordered_pair(b, 0, 2);
    let d = ordered_pair(c, 1, 3);
    lemma_swap_multiset(s, 0, 1);
    lemma_swap_multiset(a, 2, 3);
    lemma_swap_multiset(b, 0, 2);
    lemma_swap_multiset(c, 1, 3);
    lemma_swap_multiset(d, 1, 2);
}

/// The pair-cavity encoder permutes its input and, unless all four
/// fingerprints are equal, stores the requested state.
pub proof fn lemma_cavity_codec(s: Seq<u16>, state: u8)
    requires
        s.len() == 4,
    ensures
        slot_multiset(cavity_arrangement(s, state)) == slot_multiset(s),
        cavity_arrangement(s, state).len() == 4,
        !all_equal(s) ==> cavity_rank(cavity_arrangement(s, state)) == clamp_spec(state, 1, 2),
{
    if !(s[0] == s[1] && s[2] == s[0] && s[3] == s[0]) {
        let t = if s[0] == s[1] {
            if s[2] != s[0] {
                swapped(s, 1, 2)
            } else {
                swapped(s, 1, 3)
            }
        } else {
            s
        };
        lemma_swap_multiset(s, 1, 2);
        lemma_swap_multiset(s, 1, 3);
        lemma_swap_multiset(t, 0, 1);
    }
}

/// The four-level encoder permutes its input; it stores the requested rank
/// exactly when no fingerprint fills three lanes, and rank 1 otherwise.
pub proof fn lemma_rank4_codec(s: Seq<u16>, rank: u8)
    requires
        s.len() == 4,
    ensures
        slot_multiset(rank4_pairing(s)) == slot_multiset(s),
        slot_multiset(rank4_arrangement(s, rank)) == slot_multiset(s),
        rank4_arrangement(s, rank).len() == 4,
        !has_triple(s) ==> rank4_of(rank4_arrangement(s, rank)) == clamp_spec(rank, 1, 4),
        has_triple(s) ==> rank4_of(rank4_arrangement(s, rank)) == 1,
{
    lemma_sort4(s);
    let t = rank4_pairing(s);
    if s[0] == s[1] || s[2] == s[3] {
        let u = sort4(s);
        lemma_swap_multiset(u, 1, 2);
        assert(swapped(u, 1, 2) =~= seq![u[0], u[2], u[1], u[3]]);
        assert(slot_multiset(t) == slot_multiset(s));
        assert(slot_multiset(u) == slot_multiset(s));
        // A value filling three lanes of a sorted word fills a pair at both ends.
        if has_triple(s) {
            assert(slot_multiset(s).count(s[0]) >= 3 || slot_multiset(s).count(s[1]) >= 3);
            assert(u[0] == u[2] || u[1] == u[3]);
        } else {
            assert(slot_multiset(u).count(u[0]) < 3 && slot_multiset(u).count(u[1]) < 3);
        }
    }
    assert(t.len() == 4);
    let state = clamp_spec(rank, 1, 4) - 1;
    let u = if (t[1] < t[0]) != (state % 2 == 1) {
        swapped(t, 0, 1)
    } else {
        t
    };
    lemma_swap_multiset(t, 0, 1);
    lemma_swap_multiset(u, 2, 3);
}

/// Rotating four distinct lanes by `shift` positions moves each lane and
/// the minimum by `shift` and keeps the multiset.
proof fn lemma_rotation(t: Seq<u16>, shift: int)
    requires
        t.len() == 4,
        0 <= shift < 4,
        !has_duplicate(t),
    ensures
        ({
            let r = Seq::new(4, |j: int| t[(j - shift + 4) % 4]);
            &&& slot_multiset(r) == slot_multiset(t)
            &&& !has_duplicate(r)
            &&& min_index(r) == (min_index(t) + shift) % 4
            &&& forall|k: int| 0 <= k < 4 ==> #[trigger] r[(k + shift) % 4] == t[k]
        }),
{
    let r = Seq::new(4, |j: int| t[(j - shift + 4) % 4]);
    if shift == 0 {
        assert(r =~= t);
    } else if shift == 1 {
        assert(r =~= seq![t[3], t[0], t[1], t[2]]);
    } else if shift == 2 {
        assert(r =~= seq![t[2], t[3], t[0], t[1]]);
    } else {
        assert(r =~= seq![t[1], t[2], t[3], t[0]]);
    }
    assert(slot_multiset(r) =~= slot_multiset(t));
}

/// The eight-state encoder permutes its input and, for four distinct
/// fingerprints, stores the requested state.
#[verifier::spinoff_prover]
pub proof fn lemma_d4_codec(s: Seq<u16>, potential: u8)
    requires
        s.len() == 4,
    ensures
        slot_multiset(d4_arrangement(s, potential)) == slot_multiset(s),
        d4_arrangement(s, potential).len() == 4,
        !has_duplicate(s) ==> d4_state(d4_arrangement(s, potential)) == clamp_spec(
            potential,
            1,
            8,
        ),
{
    lemma_sort4(s);
    if !has_duplicate(s) {
        let m = min_index(s);
        let state = clamp_spec(potential, 1, 8) - 1;
        let desired_position = state % 4;
        let desired_orientation = state / 4;
        let clockwise = (m + 1) % 4;
        let counterclockwise = (m + 3) % 4;
        let orientation = if s[clockwise] > s[counterclockwise] {
            1int
        } else {
            0int
        };
        let t = if orientation != desired_orientation {
            swapped(s, clockwise, counterclockwise)
        } else {
            s
        };
        lemma_swap_multiset(s, clockwise, counterclockwise);
        assert(!has_duplicate(t));
        assert(min_index(t) == m);
        assert((t[clockwise] > t[counterclockwise]) == (desired_orientation == 1));
        let shift = (desired_position + 4 - m) % 4;
        let r = d4_arrangement(s, potential);
        assert(r == Seq::new(4, |j: int| t[(j - shift + 4) % 4]));
        lemma_rotation(t, shift);
        assert((m + shift) % 4 == desired_position);
        assert((clockwise + shift) % 4 == (desired_position + 1) % 4);
        assert((counterclockwise + shift) % 4 == (desired_position + 3) % 4);
        assert(r[(clockwise + shift) % 4] == t[clockwise]);
        assert(r[(counterclockwise + shift) % 4] == t[counterclockwise]);
        assert(d4_state(r) == 1 + desired_position + 4 * desired_orientation);
    }
}

/// Dropping lane `k` and appending `v` exchanges `s[k]` for `v` in the lane
/// multiset.
pub proof fn lemma_compact_multiset(s: Seq<u16>, k: int, v: u16)
    requires
        s.len() == 4,
        0 <= k < 4,
    ensures
        slot_multiset(s.remove(k).push(v)).insert(s[k]) == slot_multiset(s).insert(v),
        s.remove(k).push(v).len() == 4,
{
    let t = s.remove(k).push(v);
    if k == 0 {
        assert(t =~= seq![s[1], s[2], s[3], v]);
    } else if k == 1 {
        assert(t =~= seq![s[0], s[2], s[3], v]);
    } else if k == 2 {
        assert(t =~= seq![s[0], s[1], s[3], v]);
    } else {
        assert(t =~= seq![s[0], s[1], s[2], v]);
    }
    assert(slot_multiset(t).insert(s[k]) =~= slot_multiset(s).insert(v));
}

/// Overwriting lane `k` with `v` exchanges `s[k]` for `v` in the lane
/// multiset.
pub proof fn lemma_update_multiset(s: Seq<u16>, k: int, v: u16)
    requires
        s.len() == 4,
        0 <= k < 4,
    ensures
        slot_multiset(s.update(k, v)).insert(s[k]) == slot_multiset(s).insert(v),
{
    assert(slot_multiset(s.update(k, v)).insert(s[k]) =~= slot_multiset(s).insert(v));
}

/// The lane multiset counts each value once per lane that holds it.
proof fn lemma_slot_count(s: Seq<u16>, v: u16)
    ensures
        slot_multiset(s).count(v) == (if s[0] == v {
            1nat
        } else {
            0nat
        }) + (if s[1] == v {
            1nat
        } else {
            0nat
        }) + (if s[2] == v {
            1nat
        } else {
            0nat
        }) + (if s[3] == v {
            1nat
        } else {
            0nat
        }),
{
}

/// Lanes with one multiset hold the same values and agree on whether
/// three of them are equal.
pub proof fn lemma_permuted_lanes(a: Seq<u16>, b: Seq<u16>)
    requires
        slot_multiset(a) == slot_multiset(b),
    ensures
        has_triple(a) == has_triple(b),
        forall|k: int| 0 <= k < 4 ==> holds(b, #[trigger] a[k]),
        forall|k: int| 0 <= k < 4 ==> holds(a, #[trigger] b[k]),
{
    lemma_slot_count(a, a[0]);
    lemma_slot_count(b, a[0]);
    lemma_slot_count(a, a[1]);
    lemma_slot_count(b, a[1]);
    lemma_slot_count(a, a[2]);
    lemma_slot_count(b, a[2]);
    lemma_slot_count(a, a[3]);
    lemma_slot_count(b, a[3]);
    lemma_slot_count(a, b[0]);
    lemma_slot_count(b, b[0]);
    lemma_slot_count(a, b[1]);
    lemma_slot_count(b, b[1]);
    lemma_slot_count(a, b[2]);
    lemma_slot_count(b, b[2]);
    lemma_slot_count(a, b[3]);
    lemma_slot_count(b, b[3]);
}

} // verus!
