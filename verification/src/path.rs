//! Insertion-local visited-bucket sketch for CR4-Path.

use vstd::prelude::*;

verus! {

use vstd::set::Set;
use crate::bucket::SLOTS;
use crate::capacity::allocated;
use crate::choice::key_less;
use crate::config::{PathActivation, PathConfig, PathReset};
use crate::hash::{splitmix64, splitmix64_spec};

/// Salt mixed into bucket indices before they pick sketch bits.
pub const PATH_HASH_SALT: u64 = 0xd6e8_feb8_6659_fd93;

/// The two sketch bits of `bucket` in a sketch of `bit_count` bits.
pub open spec fn bit_positions_spec(bucket: u32, bit_count: int) -> (int, int) {
    let hash = splitmix64_spec((bucket as u64) ^ PATH_HASH_SALT);
    let first = (hash % (bit_count as u64)) as int;
    let raw_second = ((hash >> 32u64) % (bit_count as u64)) as int;
    let second = if first == raw_second {
        (raw_second + 1) % bit_count
    } else {
        raw_second
    };
    (first, second)
}

/// An empty word has no set bit.
proof fn lemma_zero_word_bit(x: u64)
    ensures
        (0u64 >> x) & 1 == 0,
{
    assert(forall|y: u64| #[trigger] ((0u64 >> y) & 1) == 0) by (bit_vector);
}

/// Whether bit `b` of word `w` is set.
pub open spec fn word_bit(w: u64, b: int) -> bool {
    (w >> (b as u64)) & 1 == 1
}

/// Number of lanes among the first `n` whose score equals `best`.
pub open spec fn count_equal(scores: Seq<u8>, best: u8, n: int) -> nat
    decreases n,
{
    if n <= 0 {
        0
    } else {
        count_equal(scores, best, n - 1) + if scores[n - 1] == best {
            1nat
        } else {
            0nat
        }
    }
}

/// A score equal to `best` among the first `n` is counted.
proof fn lemma_count_equal_positive(scores: Seq<u8>, best: u8, n: int, i: int)
    requires
        0 <= i < n,
        scores[i] == best,
    ensures
        count_equal(scores, best, n) >= 1,
    decreases n,
{
    if i < n - 1 {
        lemma_count_equal_positive(scores, best, n - 1, i);
    }
}

/// A small Bloom-style bitset of buckets visited by the current insertion.
#[derive(Debug)]
pub struct PathSketch {
    /// Bitset words.
    pub words: Vec<u64>,
    /// Condition that starts recording and checking the sketch.
    pub activation: PathActivation,
    /// Method used to clear state between activated insertions.
    pub reset: PathReset,
    /// Words written since activation, for sparse reset.
    pub touched: Vec<u16>,
    /// Generation in which each word was last written, for generational reset.
    pub generations: Vec<u32>,
    /// Current generation, for generational reset.
    pub generation: u32,
}

impl PathSketch {
    /// Number of sketch bits.
    pub open spec fn bit_count(&self) -> int {
        (self.words@.len() * 64) as int
    }

    /// Whether bit `b` belongs to the current insertion's record.
    pub open spec fn live(&self, b: int) -> bool {
        let w = b / 64;
        &&& 0 <= b < self.bit_count()
        &&& (self.reset == PathReset::Generational ==> self.generations@[w] == self.generation)
        &&& word_bit(self.words@[w], b % 64)
    }

    /// The set of recorded bits.
    pub open spec fn view_bits(&self) -> Set<int> {
        Set::new(|b: int| self.live(b))
    }

    /// Whether both bits of `bucket` are recorded.
    pub open spec fn contains_spec(&self, bucket: u32) -> bool {
        let (first, second) = bit_positions_spec(bucket, self.bit_count());
        self.live(first) && self.live(second)
    }

    /// Internal consistency: word arrays sized for the reset strategy,
    /// generations never ahead of the current one, and every nonzero word
    /// listed for sparse reset, each at most once.
    pub open spec fn wf(&self) -> bool {
        &&& (self.words@.len() == 64 || self.words@.len() == 256)
        &&& (self.reset == PathReset::Generational ==> {
            &&& self.generations@.len() == self.words@.len()
            &&& forall|w: int| 0 <= w < self.words@.len() ==> #[trigger] self.generations@[w] <= self.generation
        })
        &&& (self.reset == PathReset::Sparse ==> {
            &&& forall|w: int| 0 <= w < self.words@.len() ==> (self.words@[w] != 0 <==> #[trigger] self.touched@.contains(w as u16))
            &&& forall|i: int| 0 <= i < self.touched@.len() ==> (#[trigger] self.touched@[i] as int) < self.words@.len()
            &&& forall|i: int, j: int| 0 <= i < j < self.touched@.len() ==> self.touched@[i] != self.touched@[j]
        })
    }

    /// No insertion is in progress: a sparse sketch has no pending words.
    pub open spec fn idle(&self) -> bool {
        self.reset == PathReset::Sparse ==> self.touched@.len() == 0
    }

    /// Creates an empty sketch of `config.bytes` bytes.
    pub fn new(config: PathConfig) -> (r: PathSketch)
        requires
            config.bytes == 512 || config.bytes == 2048,
        ensures
            r.words@.len() == config.bytes / 8,
            r.activation == config.activation,
            r.reset == config.reset,
            r.wf(),
            r.idle(),
            r.view_bits() == Set::<int>::empty(),
    {
        let word_count = config.bytes / 8;
        let r = PathSketch {
            words: vec![0u64; word_count],
            activation: config.activation,
            reset: config.reset,
            touched: if config.reset == PathReset::Sparse {
                Vec::with_capacity(word_count)
            } else {
                Vec::new()
            },
            generations: if config.reset == PathReset::Generational {
                vec![0u32; word_count]
            } else {
                Vec::new()
            },
            generation: 0,
        };
        proof {
            assert forall|b: int| !r.live(b) by {
                if 0 <= b < r.bit_count() {
                    let x = (b % 64) as u64;
                    lemma_zero_word_bit(x);
                }
            }
            assert(r.view_bits() =~= Set::<int>::empty());
        }
        r
    }

    /// Bytes of the sketch's vectors when their capacities are `c`: eight
    /// per word, two per touched index, four per generation; the sum wraps.
    pub open spec fn bytes_for(c: (usize, usize, usize)) -> usize {
        vstd::wrapping::usize_specs::wrapping_add(
            vstd::wrapping::usize_specs::wrapping_add((c.0 * 8) as usize, (c.1 * 2) as usize),
            (c.2 * 4) as usize,
        )
    }

    /// `bytes` is what the sketch takes for some capacities of its vectors,
    /// each at least the vector's length and each within `isize::MAX` bytes.
    pub open spec fn storage_allows(&self, bytes: usize) -> bool {
        exists|c: (usize, usize, usize)|
            #![trigger Self::bytes_for(c)]
            {
                &&& c.0 >= self.words@.len()
                &&& c.1 >= self.touched@.len()
                &&& c.2 >= self.generations@.len()
                &&& c.0 * 8 <= isize::MAX
                &&& c.1 * 2 <= isize::MAX
                &&& c.2 * 4 <= isize::MAX
                &&& bytes == Self::bytes_for(c)
            }
    }

    /// Allocated bytes of the sketch and its reset bookkeeping, from the
    /// vectors' capacities; `Vec` headers are excluded.
    pub fn storage_bytes(&self) -> (r: usize)
        ensures
            self.storage_allows(r),
    {
        let words = allocated(&self.words);
        let touched = allocated(&self.touched);
        let generations = allocated(&self.generations);
        proof {
            broadcast use vstd::layout::layout_of_primitives;
        }
        let r = (words * 8).wrapping_add(touched * 2).wrapping_add(generations * 4);
        assert(r == Self::bytes_for((words, touched, generations)));
        r
    }

    /// Starts recording for a new insertion: the record becomes empty.
    pub fn activate(&mut self)
        requires
            old(self).wf(),
            old(self).idle(),
        ensures
            final(self).wf(),
            final(self).view_bits() == Set::<int>::empty(),
            final(self).words@.len() == old(self).words@.len(),
            final(self).reset == old(self).reset,
            final(self).activation == old(self).activation,
    {
        match self.reset {
            PathReset::Full => {
                let n = self.words.len();
                let mut i: usize = 0;
                while i < n
                    invariant
                        n == self.words@.len(),
                        i <= n,
                        forall|w: int| 0 <= w < i ==> #[trigger] self.words@[w] == 0,
                        self.reset == PathReset::Full,
                        self.reset == old(self).reset,
                        self.activation == old(self).activation,
                        self.words@.len() == old(self).words@.len(),
                        self.generations == old(self).generations,
                        self.touched == old(self).touched,
                        self.generation == old(self).generation,
                    decreases n - i,
                {
                    self.words.set(i, 0);
                    i += 1;
                }
                proof {
                    assert forall|b: int| !self.live(b) by {
                        if 0 <= b < self.bit_count() {
                            let x = (b % 64) as u64;
                            lemma_zero_word_bit(x);
                        }
                    }
                }
            },
            PathReset::Sparse => {
                proof {
                    assert forall|b: int| !self.live(b) by {
                        if 0 <= b < self.bit_count() {
                            let w = b / 64;
                            if self.words@[w] != 0 {
                                assert(self.touched@.contains(w as u16));
                            }
                            let x = (b % 64) as u64;
                            lemma_zero_word_bit(x);
                        }
                    }
                }
            },
            PathReset::Generational => {
                self.generation = self.generation.wrapping_add(1);
                if self.generation == 0 {
                    let n = self.generations.len();
                    let mut i: usize = 0;
                    while i < n
                        invariant
                            n == self.generations@.len(),
                            i <= n,
                            forall|w: int| 0 <= w < i ==> #[trigger] self.generations@[w] == 0,
                            self.reset == PathReset::Generational,
                            self.reset == old(self).reset,
                            self.activation == old(self).activation,
                            self.words == old(self).words,
                            self.touched == old(self).touched,
                            self.generations@.len() == old(self).generations@.len(),
                        decreases n - i,
                    {
                        self.generations.set(i, 0);
                        i += 1;
                    }
                    self.generation = 1;
                }
            },
        }
        proof {
            assert(self.view_bits() =~= Set::<int>::empty());
        }
    }

    /// Adds both bits of `bucket` to the record.
    pub fn record(&mut self, bucket: u32)
        requires
            old(self).wf(),
        ensures
            final(self).wf(),
            final(self).view_bits() == old(self).view_bits().insert(
                bit_positions_spec(bucket, old(self).bit_count()).0,
            ).insert(bit_positions_spec(bucket, old(self).bit_count()).1),
            final(self).words@.len() == old(self).words@.len(),
            final(self).reset == old(self).reset,
            final(self).activation == old(self).activation,
    {
        let positions = self.bit_positions(bucket);
        self.set(positions[0]);
        self.set(positions[1]);
    }

    /// Whether both bits of `bucket` are recorded.
    pub fn contains(&self, bucket: u32) -> (r: bool)
        requires
            self.wf(),
        ensures
            r == self.contains_spec(bucket),
    {
        let positions = self.bit_positions(bucket);
        self.is_set(positions[0]) && self.is_set(positions[1])
    }

    /// How many of the first `n` candidates tie at `best` and lead to a
    /// bucket the sketch has seen.
    pub open spec fn seen_equal(&self, scores: Seq<u8>, best: u8, neighbors: Seq<u32>, n: int) -> nat
        decreases n,
    {
        if n <= 0 {
            0
        } else {
            self.seen_equal(scores, best, neighbors, n - 1) + if scores[n - 1] == best && self.contains_spec(
                neighbors[n - 1],
            ) {
                1nat
            } else {
                0nat
            }
        }
    }

    /// How many of the first `n` candidates tie at `best` and lead to a
    /// bucket the sketch has not seen.
    pub open spec fn unseen_equal(&self, scores: Seq<u8>, best: u8, neighbors: Seq<u32>, n: int) -> nat
        decreases n,
    {
        if n <= 0 {
            0
        } else {
            self.unseen_equal(scores, best, neighbors, n - 1) + if scores[n - 1] == best && !self.contains_spec(
                neighbors[n - 1],
            ) {
                1nat
            } else {
                0nat
            }
        }
    }

    /// Lanes scoring `best` whose target the sketch has seen, when some lane
    /// scoring `best` leads to an unseen target; zero otherwise.
    pub open spec fn rejected_count(&self, scores: Seq<u8>, best: u8, neighbors: Seq<u32>) -> nat {
        if exists|i: int| 0 <= i < 4 && #[trigger] scores[i] == best && !self.contains_spec(neighbors[i]) {
            self.seen_equal(scores, best, neighbors, 4)
        } else {
            0
        }
    }

    /// Among the lanes whose score equals `best_score`, returns the unseen
    /// target with the smallest tie key (the first on equal keys), the
    /// number of such lanes, and how many of them were seen; when all of
    /// them were seen, returns `fallback` and zero rejections.
    pub fn prefer_unseen(
        &self,
        best_score: u8,
        scores: &[u8; SLOTS],
        neighbors: &[u32; SLOTS],
        tie_keys: &[(u64, u32, u16); SLOTS],
        fallback: usize,
    ) -> (r: (usize, u32, u32))
        requires
            self.wf(),
        ensures
            r.1 == count_equal(scores@, best_score, 4),
            r.2 == self.rejected_count(scores@, best_score, neighbors@),
            r.2 <= r.1 <= 4,
            (exists|i: int| 0 <= i < 4 && scores@[i] == best_score) ==> r.2 + 1 <= r.1,
            ({
                let candidate = |i: int| scores@[i] == best_score && !self.contains_spec(neighbors@[i]);
                if exists|i: int| 0 <= i < 4 && #[trigger] candidate(i) {
                    &&& r.0 < 4
                    &&& candidate(r.0 as int)
                    &&& forall|i: int| 0 <= i < 4 && #[trigger] candidate(i) ==> !key_less(tie_keys@[i], tie_keys@[r.0 as int])
                    &&& forall|i: int| 0 <= i < r.0 && #[trigger] candidate(i) ==> key_less(tie_keys@[r.0 as int], tie_keys@[i])
                    &&& r.2 == self.seen_equal(scores@, best_score, neighbors@, 4)
                    &&& r.2 + 1 <= r.1
                } else {
                    r.0 == fallback && r.2 == 0
                }
            }),
    {
        let mut checks: u32 = 0;
        let mut seen: u32 = 0;
        let mut preferred: Option<usize> = None;
        let mut slot: usize = 0;
        let ghost candidate = |i: int| scores@[i] == best_score && !self.contains_spec(neighbors@[i]);
        while slot < SLOTS
            invariant
                slot <= SLOTS,
                self.wf(),
                candidate == (|i: int| scores@[i] == best_score && !self.contains_spec(neighbors@[i])),
                checks == count_equal(scores@, best_score, slot as int),
                seen == self.seen_equal(scores@, best_score, neighbors@, slot as int),
                seen <= checks,
                checks <= slot,
                match preferred {
                    Some(p) => {
                        &&& p < slot
                        &&& candidate(p as int)
                        &&& forall|i: int| 0 <= i < slot && #[trigger] candidate(i) ==> !key_less(tie_keys@[i], tie_keys@[p as int])
                        &&& forall|i: int| 0 <= i < p && #[trigger] candidate(i) ==> key_less(tie_keys@[p as int], tie_keys@[i])
                        &&& seen + 1 <= checks
                    },
                    None => forall|i: int| 0 <= i < slot ==> !#[trigger] candidate(i),
                },
            decreases SLOTS - slot,
        {
            if scores[slot] == best_score {
                checks += 1;
                if self.contains(neighbors[slot]) {
                    seen += 1;
                } else {
                    let better = match preferred {
                        None => true,
                        Some(best) => key_less_keys(tie_keys[slot], tie_keys[best]),
                    };
                    if better {
                        preferred = Some(slot);
                    }
                }
            }
            slot += 1;
        }
        proof {
            if exists|i: int| 0 <= i < 4 && scores@[i] == best_score {
                let i = choose|i: int| 0 <= i < 4 && scores@[i] == best_score;
                lemma_count_equal_positive(scores@, best_score, 4, i);
            }
        }
        match preferred {
            Some(p) => {
                proof {
                    assert(candidate(p as int));
                    assert(scores@[p as int] == best_score && !self.contains_spec(neighbors@[p as int]));
                }
                (p, checks, seen)
            },
            None => {
                proof {
                    assert forall|i: int| 0 <= i < 4 implies !(scores@[i] == best_score && !self.contains_spec(
                        neighbors@[i],
                    )) by {
                        assert(!candidate(i));
                    }
                }
                (fallback, checks, 0)
            },
        }
    }

    /// Ends an insertion: a sparse sketch clears the words it touched.
    pub fn finish_insertion(&mut self)
        requires
            old(self).wf(),
        ensures
            final(self).wf(),
            final(self).idle(),
            old(self).reset == PathReset::Sparse ==> final(self).view_bits() == Set::<int>::empty(),
            old(self).reset != PathReset::Sparse ==> *final(self) == *old(self),
            final(self).words@.len() == old(self).words@.len(),
            final(self).reset == old(self).reset,
            final(self).activation == old(self).activation,
    {
        if self.reset == PathReset::Sparse {
            let ghost start = *self;
            while self.touched.len() > 0
                invariant
                    self.reset == PathReset::Sparse,
                    self.activation == start.activation,
                    self.words@.len() == start.words@.len(),
                    start.wf(),
                    self.wf(),
                decreases self.touched@.len(),
            {
                let ghost pre = self.touched@;
                let ghost words_pre = self.words@;
                let word = self.touched.pop().unwrap();
                let ghost popped = self.touched@;
                proof {
                    assert(pre == popped.push(word));
                    assert((word as int) < self.words@.len()) by {
                        assert(pre[popped.len() as int] == word);
                    }
                }
                self.words.set(word as usize, 0);
                proof {
                    assert forall|w: int| 0 <= w < self.words@.len() implies (self.words@[w] != 0 <==> #[trigger] self.touched@.contains(w as u16)) by {
                        if w == word as int {
                            assert(!popped.contains(w as u16)) by {
                                if popped.contains(w as u16) {
                                    let i = choose|i: int| 0 <= i < popped.len() && popped[i] == w as u16;
                                    assert(pre[i] == pre[popped.len() as int]);
                                }
                            }
                        } else {
                            assert(self.words@[w] == words_pre[w]);
                            assert(words_pre[w] != 0 <==> pre.contains(w as u16));
                            assert(pre.contains(w as u16) ==> popped.contains(w as u16)) by {
                                if pre.contains(w as u16) {
                                    let i = choose|i: int| 0 <= i < pre.len() && pre[i] == w as u16;
                                    assert(i < popped.len());
                                    assert(popped[i] == w as u16);
                                }
                            }
                            assert(popped.contains(w as u16) ==> pre.contains(w as u16)) by {
                                if popped.contains(w as u16) {
                                    let i = choose|i: int| 0 <= i < popped.len() && popped[i] == w as u16;
                                    assert(pre[i] == w as u16);
                                }
                            }
                        }
                    }
                    assert forall|i: int| 0 <= i < self.touched@.len() implies (#[trigger] self.touched@[i] as int) < self.words@.len() by {
                        assert(pre[i] == popped[i]);
                    }
                    assert forall|i: int, j: int| 0 <= i < j < self.touched@.len() implies self.touched@[i] != self.touched@[j] by {
                        assert(pre[i] == popped[i] && pre[j] == popped[j]);
                    }
                }
            }
            proof {
                assert forall|b: int| !self.live(b) by {
                    if 0 <= b < self.bit_count() {
                        let w = b / 64;
                        if self.words@[w] != 0 {
                            assert(self.touched@.contains(w as u16));
                        }
                        let x = (b % 64) as u64;
                        lemma_zero_word_bit(x);
                    }
                }
                assert(self.view_bits() =~= Set::<int>::empty());
            }
        }
    }

    /// The two sketch bits of `bucket`.
    pub fn bit_positions(&self, bucket: u32) -> (r: [usize; 2])
        requires
            self.wf(),
        ensures
            r@[0] == bit_positions_spec(bucket, self.bit_count()).0,
            r@[1] == bit_positions_spec(bucket, self.bit_count()).1,
            r@[0] < self.bit_count(),
            r@[1] < self.bit_count(),
    {
        let hash = splitmix64((bucket as u64) ^ PATH_HASH_SALT);
        let bit_count = (self.words.len() * 64) as u64;
        let first = (hash % bit_count) as usize;
        let mut second = ((hash >> 32) % bit_count) as usize;
        if first == second {
            second = (second + 1) % (bit_count as usize);
        }
        [first, second]
    }

    /// Sets bit `bit`, clearing a stale generational word or listing a newly
    /// written sparse word first.
    pub fn set(&mut self, bit: usize)
        requires
            old(self).wf(),
            bit < old(self).bit_count(),
        ensures
            final(self).wf(),
            final(self).view_bits() == old(self).view_bits().insert(bit as int),
            final(self).words@.len() == old(self).words@.len(),
            final(self).reset == old(self).reset,
            final(self).activation == old(self).activation,
    {
        let word = bit / 64;
        let offset = (bit % 64) as u64;
        if self.reset == PathReset::Generational && self.generations[word] != self.generation {
            self.generations.set(word, self.generation);
            self.words.set(word, 0);
        } else if self.reset == PathReset::Sparse && self.words[word] == 0 {
            proof {
                assert(!self.touched@.contains(word as u16));
            }
            self.touched.push(word as u16);
            proof {
                assert(self.touched@[self.touched@.len() - 1] == word as u16);
                assert(self.touched@.contains(word as u16));
            }
        }
        let ghost mid = *self;
        let old_word = self.words[word];
        let new_word = old_word | (1u64 << offset);
        self.words.set(word, new_word);
        proof {
            assert(new_word != 0) by (bit_vector)
                requires
                    new_word == old_word | (1u64 << offset),
                    offset < 64,
            ;
            if self.reset == PathReset::Generational {
                assert forall|w: int| 0 <= w < self.words@.len() implies #[trigger] self.generations@[w] <= self.generation by {
                    assert(self.generations@[w] == mid.generations@[w]);
                }
            }
            if self.reset == PathReset::Sparse {
                assert(mid.touched@.contains(word as u16));
                let ot = old(self).touched@;
                let mt = mid.touched@;
                assert(mt == ot || (old(self).words@[word as int] == 0 && mt == ot.push(word as u16)));
                assert forall|w: int| 0 <= w < self.words@.len() implies (self.words@[w] != 0 <==> #[trigger] self.touched@.contains(w as u16)) by {
                    if w != word as int {
                        assert(self.words@[w] == old(self).words@[w]);
                        assert(old(self).words@[w] != 0 <==> ot.contains(w as u16));
                        assert(mt.contains(w as u16) ==> ot.contains(w as u16)) by {
                            if mt.contains(w as u16) {
                                let i = choose|i: int| 0 <= i < mt.len() && mt[i] == w as u16;
                                if i < ot.len() {
                                    assert(ot[i] == w as u16);
                                } else {
                                    assert(mt[i] == word as u16);
                                    assert((w as u16) == (word as u16));
                                }
                            }
                        }
                        assert(ot.contains(w as u16) ==> mt.contains(w as u16)) by {
                            if ot.contains(w as u16) {
                                let i = choose|i: int| 0 <= i < ot.len() && ot[i] == w as u16;
                                assert(mt[i] == w as u16);
                            }
                        }
                    }
                }
                assert forall|i: int| 0 <= i < mt.len() implies (#[trigger] mt[i] as int) < self.words@.len() by {
                    if i < ot.len() {
                        assert(mt[i] == ot[i]);
                    }
                }
                assert forall|i: int, j: int| 0 <= i < j < mt.len() implies mt[i] != mt[j] by {
                    if j < ot.len() {
                        assert(mt[i] == ot[i] && mt[j] == ot[j]);
                    } else {
                        assert(mt[i] == ot[i]);
                    }
                }
            }
            assert forall|b: int| self.live(b) == old(self).view_bits().insert(bit as int).contains(b) by {
                if 0 <= b < self.bit_count() && b / 64 == word as int {
                    let x = (b % 64) as u64;
                    assert(((old_word | (1u64 << offset)) >> x) & 1 == if x == offset { 1u64 } else { (old_word >> x) & 1 }) by (bit_vector)
                        requires
                            x < 64,
                            offset < 64,
                    ;
                    lemma_zero_word_bit(x);
                }
            }
            assert(self.view_bits() =~= old(self).view_bits().insert(bit as int));
        }
    }

    /// Whether bit `bit` is recorded.
    pub fn is_set(&self, bit: usize) -> (r: bool)
        requires
            self.wf(),
            bit < self.bit_count(),
        ensures
            r == self.live(bit as int),
    {
        let word = bit / 64;
        let offset = (bit % 64) as u64;
        proof {
            let w = self.words@[word as int];
            assert((w & (1u64 << offset) != 0) == ((w >> offset) & 1 == 1)) by (bit_vector)
                requires
                    offset < 64,
            ;
        }
        (self.reset != PathReset::Generational || self.generations[word] == self.generation)
            && self.words[word] & (1u64 << offset) != 0
    }
}

fn key_less_keys(a: (u64, u32, u16), b: (u64, u32, u16)) -> (r: bool)
    ensures
        r == key_less(a, b),
{
    a.0 < b.0 || (a.0 == b.0 && (a.1 < b.1 || (a.1 == b.1 && a.2 < b.2)))
}

/// Each candidate tying at `best` is either seen or unseen by the sketch.
proof fn lemma_seen_unseen_split(sketch: &PathSketch, scores: Seq<u8>, best: u8, neighbors: Seq<u32>, n: int)
    ensures
        sketch.seen_equal(scores, best, neighbors, n) + sketch.unseen_equal(scores, best, neighbors, n)
            == count_equal(scores, best, n),
    decreases n,
{
    if n > 0 {
        lemma_seen_unseen_split(sketch, scores, best, neighbors, n - 1);
    }
}

/// An unseen candidate tying at `best` among the first `n` is counted.
proof fn lemma_unseen_equal_positive(sketch: &PathSketch, scores: Seq<u8>, best: u8, neighbors: Seq<u32>, n: int, i: int)
    requires
        0 <= i < n,
        scores[i] == best,
        !sketch.contains_spec(neighbors[i]),
    ensures
        sketch.unseen_equal(scores, best, neighbors, n) >= 1,
    decreases n,
{
    if i < n - 1 {
        lemma_unseen_equal_positive(sketch, scores, best, neighbors, n - 1, i);
    }
}

/// A guarded choice checks every lane tying at the least score: when one
/// of them leads to an unseen bucket, the candidates rejected as seen and
/// those left unseen add up to the candidates checked, and at least one is
/// left; when all were seen, none is counted as rejected.
pub proof fn law_rejections_and_unseen_make_up_checks(
    sketch: &PathSketch,
    scores: Seq<u8>,
    best: u8,
    neighbors: Seq<u32>,
)
    ensures
        (exists|i: int| 0 <= i < 4 && #[trigger] scores[i] == best && !sketch.contains_spec(neighbors[i])) ==> {
            &&& sketch.rejected_count(scores, best, neighbors) + sketch.unseen_equal(scores, best, neighbors, 4)
                == count_equal(scores, best, 4)
            &&& sketch.rejected_count(scores, best, neighbors) < count_equal(scores, best, 4)
        },
        !(exists|i: int| 0 <= i < 4 && #[trigger] scores[i] == best && !sketch.contains_spec(neighbors[i]))
            ==> sketch.rejected_count(scores, best, neighbors) == 0,
{
    lemma_seen_unseen_split(sketch, scores, best, neighbors, 4);
    if exists|i: int| 0 <= i < 4 && #[trigger] scores[i] == best && !sketch.contains_spec(neighbors[i]) {
        let i = choose|i: int| 0 <= i < 4 && #[trigger] scores[i] == best && !sketch.contains_spec(neighbors[i]);
        lemma_unseen_equal_positive(sketch, scores, best, neighbors, 4, i);
    }
}

} // verus!
