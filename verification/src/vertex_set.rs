//! The set of vertices already attached to the tree, kept in a
//! `bit_set::BitSet`.

use vstd::prelude::*;

verus! {

/// A set of vertex indices, held in a `bit_set::BitSet`.
#[verifier::external_body]
pub struct VertexSet {
    bits: bit_set::BitSet,
}

/// The indices that a vertex set holds.
pub uninterp spec fn members(s: VertexSet) -> Set<usize>;

/// `BitSet::with_capacity`: a set with room for `nbits` values and none in it.
#[verifier::external_body]
pub(crate) fn with_capacity(nbits: usize) -> (s: VertexSet)
    ensures
        members(s) == Set::<usize>::empty(),
{
    VertexSet { bits: bit_set::BitSet::with_capacity(nbits) }
}

/// `BitSet::contains`: whether `value` is in the set.
#[verifier::external_body]
pub(crate) fn contains(s: &VertexSet, value: usize) -> (b: bool)
    ensures
        b == members(*s).contains(value),
{
    s.bits.contains(value)
}

/// `BitSet::insert`: adds `value` to the set and leaves the other values as
/// they were; the result tells whether `value` was absent before. The
/// largest `usize` is left out, since the set grows to `value + 1` bits.
#[verifier::external_body]
pub(crate) fn insert(s: &mut VertexSet, value: usize) -> (fresh: bool)
    requires
        value < usize::MAX,
    ensures
        members(*final(s)) == members(*old(s)).insert(value),
        fresh == !members(*old(s)).contains(value),
{
    s.bits.insert(value)
}

} // verus!
