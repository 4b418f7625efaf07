//! The set of node ids that the planner keeps, held in a `bit_set::BitSet`.

use vstd::prelude::*;

verus! {

/// A set of node ids. The numbers live in a `bit_set::BitSet`, which the
/// verifier does not look into: what it holds goes by the name `members`.
#[verifier::external_body]
pub struct NodeSet {
    bits: bit_set::BitSet<u32>,
}

/// The numbers that a `NodeSet` holds.
pub uninterp spec fn members(s: NodeSet) -> Set<usize>;

/// `BitSet::with_capacity`: a set with room for `nbits` numbers and no
/// number in it.
#[verifier::external_body]
pub(crate) fn bitset_with_capacity(nbits: usize) -> (s: NodeSet)
    ensures
        members(s) == Set::<usize>::empty(),
{
    NodeSet { bits: bit_set::BitSet::with_capacity(nbits) }
}

/// `BitSet::contains`: whether `value` is in the set.
#[verifier::external_body]
pub(crate) fn bitset_contains(s: &NodeSet, value: usize) -> (r: bool)
    ensures
        r == members(*s).contains(value),
{
    s.bits.contains(value)
}

/// `BitSet::insert`: adds `value` to the set, growing it where needed, and
/// tells whether it was absent before. The largest `usize` is left out: the
/// set would have to grow past what a length can count.
#[verifier::external_body]
pub(crate) fn bitset_insert(s: &mut NodeSet, value: usize) -> (r: bool)
    requires
        value < usize::MAX,
    ensures
        members(*final(s)) == members(*old(s)).insert(value),
        r == !members(*old(s)).contains(value),
{
    s.bits.insert(value)
}

} // verus!
