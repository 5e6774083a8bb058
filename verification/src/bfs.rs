//! Reusable breadth-first-search workspace for bounded augmenting paths.

use vstd::prelude::*;

verus! {

use crate::capacity::allocated;
use vstd::layout::size_of;
use vstd::wrapping::usize_specs;

/// Parent marker of a search root.
pub const NO_PARENT: u32 = u32::MAX;

/// Per-bucket search marks, parent links and the search queue, reused
/// across insertions by advancing a generation counter.
#[derive(Debug)]
pub struct BfsScratch {
    pub seen: Vec<u32>,
    pub parent_bucket: Vec<u32>,
    pub parent_slot: Vec<u8>,
    pub depth: Vec<u8>,
    pub queue: Vec<u32>,
    pub edges: Vec<(u32, u8)>,
    pub generation: u32,
    pub max_depth: u8,
}

impl BfsScratch {
    /// The per-bucket arrays cover `bucket_count` buckets, and no search
    /// mark is ahead of the current generation.
    pub open spec fn sized(&self, bucket_count: nat) -> bool {
        &&& self.seen@.len() == bucket_count
        &&& self.parent_bucket@.len() == bucket_count
        &&& self.parent_slot@.len() == bucket_count
        &&& self.depth@.len() == bucket_count
        &&& self.max_depth >= 1
        &&& forall|v: int| 0 <= v < bucket_count ==> #[trigger] self.seen@[v] <= self.generation
    }

    /// Creates an empty workspace for `bucket_count` buckets and paths of at
    /// most `max_depth` relocations.
    pub fn new(bucket_count: usize, max_depth: u8) -> (r: BfsScratch)
        requires
            max_depth >= 1,
        ensures
            r.sized(bucket_count as nat),
            r.max_depth == max_depth,
            r.generation == 0,
    {
        let edge_capacity = max_depth as usize + 1;
        let r = BfsScratch {
            seen: vec![0u32; bucket_count],
            parent_bucket: vec![NO_PARENT; bucket_count],
            parent_slot: vec![0u8; bucket_count],
            depth: vec![0u8; bucket_count],
            queue: Vec::with_capacity(512),
            edges: Vec::with_capacity(edge_capacity),
            generation: 0,
            max_depth,
        };
        assert forall|v: int| 0 <= v < bucket_count implies #[trigger] r.seen@[v] <= r.generation by {
            assert(r.seen@[v] == 0);
        }
        r
    }

    /// Bytes of the workspace's vectors when their capacities are `c`:
    /// four per `u32` mark, parent and queue entry, one per `u8` slot and
    /// depth, and the size of an edge per edge; the sum wraps.
    pub open spec fn bytes_for(c: (usize, usize, usize, usize, usize, usize)) -> usize {
        let seen = (c.0 * 4) as usize;
        let parents = (c.1 * 4) as usize;
        let queue = (c.4 * 4) as usize;
        let edges = (c.5 * size_of::<(u32, u8)>()) as usize;
        usize_specs::wrapping_add(
            usize_specs::wrapping_add(
                usize_specs::wrapping_add(usize_specs::wrapping_add(usize_specs::wrapping_add(seen, parents), c.2), c.3),
                queue,
            ),
            edges,
        )
    }

    /// `bytes` is what the workspace takes for some capacities of its
    /// vectors, each at least the vector's length and each within
    /// `isize::MAX` bytes.
    pub open spec fn storage_allows(&self, bytes: usize) -> bool {
        exists|c: (usize, usize, usize, usize, usize, usize)|
            #![trigger Self::bytes_for(c)]
            {
                &&& c.0 >= self.seen@.len()
                &&& c.1 >= self.parent_bucket@.len()
                &&& c.2 >= self.parent_slot@.len()
                &&& c.3 >= self.depth@.len()
                &&& c.4 >= self.queue@.len()
                &&& c.5 >= self.edges@.len()
                &&& c.0 * 4 <= isize::MAX
                &&& c.1 * 4 <= isize::MAX
                &&& c.2 <= isize::MAX
                &&& c.3 <= isize::MAX
                &&& c.4 * 4 <= isize::MAX
                &&& c.5 * size_of::<(u32, u8)>() <= isize::MAX
                &&& bytes == Self::bytes_for(c)
            }
    }

    /// Allocated bytes of the workspace's vectors, from their capacities;
    /// `Vec` headers are excluded.
    pub fn storage_bytes(&self) -> (r: usize)
        ensures
            self.storage_allows(r),
    {
        let edge_size = core::mem::size_of::<(u32, u8)>();
        let seen = allocated(&self.seen);
        let parents = allocated(&self.parent_bucket);
        let slots = allocated(&self.parent_slot);
        let depths = allocated(&self.depth);
        let queue = allocated(&self.queue);
        let edges = allocated(&self.edges);
        proof {
            broadcast use vstd::layout::layout_of_primitives;
        }
        let r = (seen * 4).wrapping_add(parents * 4).wrapping_add(slots).wrapping_add(depths).wrapping_add(
            queue * 4,
        ).wrapping_add(edges * edge_size);
        assert(r == Self::bytes_for((seen, parents, slots, depths, queue, edges)));
        r
    }
}

} // verus!
