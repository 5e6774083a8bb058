//! Allocated capacities, for memory accounting.

use vstd::prelude::*;

verus! {

use vstd::layout::size_of;

/// `Vec::capacity`: the number of elements the vector can hold without
/// reallocating. The standard library documents that it is at least the
/// length, and that a vector never allocates more than `isize::MAX` bytes
/// (growing past that panics with a capacity overflow), so the capacity's
/// bytes stay within `isize::MAX` (zero-sized elements take none). The exact
/// value is the allocator's and is left unstated.
#[verifier::external_body]
pub(crate) fn allocated<T>(v: &Vec<T>) -> (r: usize)
    ensures
        r >= v@.len(),
        r * size_of::<T>() <= isize::MAX,
{
    v.capacity()
}

} // verus!
