//! Bit sets and bit vectors of the crates `bit-set` and `bit-vec`, with
//! what this library takes for granted of them.

use bit_set::BitSet;
use bit_vec::BitVec;
use vstd::prelude::*;

verus! {

/// Largest number that a bit set of this library is ever asked to hold:
/// the largest value of a cell of the largest order.
pub const MAX_MEMBER: usize = 16;

#[verifier::external_type_specification]
#[verifier::external_body]
#[verifier::reject_recursive_types(B)]
pub struct ExBitSet<B>(bit_set::BitSet<B>);

#[verifier::external_type_specification]
#[verifier::external_body]
#[verifier::reject_recursive_types(B)]
pub struct ExBitVec<B>(bit_vec::BitVec<B>);

/// The numbers whose bit is set in a `BitSet`.
pub uninterp spec fn members(s: BitSet) -> Set<usize>;

/// The bits of a `BitVec`, in index order.
pub uninterp spec fn bits(v: BitVec) -> Seq<bool>;

/// `BitSet::with_capacity`: a set with room for `nbits` numbers and
/// without a member.
#[verifier::external_body]
pub(crate) fn empty_set(nbits: usize) -> (s: BitSet)
    requires
        nbits <= MAX_MEMBER + 1,
    ensures
        members(s) == Set::<usize>::empty(),
{
    BitSet::with_capacity(nbits)
}

/// `BitVec::from_elem`: `nbits` bits, each of them equal to `bit`.
#[verifier::external_body]
pub(crate) fn filled(nbits: usize, bit: bool) -> (v: BitVec)
    requires
        nbits <= MAX_MEMBER + 1,
    ensures
        bits(v) == Seq::new(nbits as nat, |i: int| bit),
{
    BitVec::from_elem(nbits, bit)
}

/// `BitSet::from_bit_vec`: the set of the positions at which the bit
/// vector holds a set bit.
#[verifier::external_body]
pub(crate) fn positions(v: BitVec) -> (s: BitSet)
    ensures
        members(s) == Set::new(|m: usize| m < bits(v).len() && bits(v)[m as int]),
{
    BitSet::from_bit_vec(v)
}

/// `BitSet::insert`: the set gains `value`; the answer tells whether it
/// was absent before.
#[verifier::external_body]
pub(crate) fn insert(s: &mut BitSet, value: usize) -> (fresh: bool)
    requires
        value <= MAX_MEMBER,
    ensures
        members(*final(s)) == members(*old(s)).insert(value),
        fresh == !members(*old(s)).contains(value),
{
    s.insert(value)
}

/// `BitSet::remove`: the set loses `value`; the answer tells whether it
/// was present before.
#[verifier::external_body]
pub(crate) fn remove(s: &mut BitSet, value: usize) -> (present: bool)
    ensures
        members(*final(s)) == members(*old(s)).remove(value),
        present == members(*old(s)).contains(value),
{
    s.remove(value)
}

/// `BitSet::union_with`: the set gains every member of `other`.
#[verifier::external_body]
pub(crate) fn union_with(s: &mut BitSet, other: &BitSet)
    ensures
        members(*final(s)) == members(*old(s)).union(members(*other)),
{
    s.union_with(other)
}

/// `BitSet::symmetric_difference_with`: the set keeps its members that
/// `other` lacks and gains the members of `other` that it lacked.
#[verifier::external_body]
pub(crate) fn symmetric_difference_with(s: &mut BitSet, other: &BitSet)
    ensures
        members(*final(s)) == members(*old(s)).difference(members(*other)).union(
            members(*other).difference(members(*old(s))),
        ),
{
    s.symmetric_difference_with(other)
}

/// `BitSet::len`: the number of members.
#[verifier::external_body]
pub(crate) fn count(s: &BitSet) -> (n: usize)
    ensures
        n == members(*s).len(),
{
    s.len()
}

/// `BitSet::iter`, collected: the members, each once, the smallest
/// first. The iterator takes the storage blocks from the first on and in
/// each block the lowest set bit first.
#[verifier::external_body]
pub(crate) fn ascending(s: &BitSet) -> (v: Vec<usize>)
    ensures
        forall|i: int, j: int| 0 <= i < j < v@.len() ==> v@[i] < v@[j],
        forall|m: usize| v@.contains(m) <==> members(*s).contains(m),
{
    s.iter().collect()
}

/// `BitSet::clone`: a set with the same members.
#[verifier::external_body]
pub(crate) fn copy(s: &BitSet) -> (r: BitSet)
    ensures
        members(r) == members(*s),
{
    s.clone()
}

} // verus!
