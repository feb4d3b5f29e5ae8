use crate::solver::algorithm::parallel_frontier::{has_true, lists_ones};
use bitvec::order::Lsb0;
use bitvec::vec::BitVec;
use vstd::prelude::*;

verus! {

/// A dense bitset: a `bitvec::vec::BitVec` over `usize` words, least significant bit first.
///
/// Nothing is known of it but through [`dense_bits`].
#[verifier::external_body]
pub struct DenseBitset {
    bits: BitVec<usize, Lsb0>,
}

/// The bits that a dense bitset holds, by position.
pub uninterp spec fn dense_bits(set: DenseBitset) -> Seq<bool>;

impl View for DenseBitset {
    type V = Seq<bool>;

    open spec fn view(&self) -> Seq<bool> {
        dense_bits(*self)
    }
}

/// `BitVec::repeat(false, len)`: a bitset of `len` cleared bits.
///
/// The crate refuses a length above an eighth of the address space.
#[verifier::external_body]
fn dense_zeros(len: usize) -> (set: DenseBitset)
    requires
        len <= usize::MAX / 8,
    ensures
        dense_bits(set) == Seq::new(len as nat, |i: int| false),
{
    DenseBitset { bits: BitVec::repeat(false, len) }
}

/// `BitSlice::set(index, true)`: sets one bit and leaves the others. The index must be below the length.
#[verifier::external_body]
fn dense_set(set: &mut DenseBitset, index: usize)
    requires
        index < dense_bits(*old(set)).len(),
    ensures
        dense_bits(*final(set)) == dense_bits(*old(set)).update(index as int, true),
{
    set.bits.set(index, true);
}

/// `BitVec::len`: the number of bits.
#[verifier::external_body]
fn dense_len(set: &DenseBitset) -> (len: usize)
    ensures
        len == dense_bits(*set).len(),
{
    set.bits.len()
}

/// `BitSlice::any`: whether at least one bit is set.
#[verifier::external_body]
fn dense_any(set: &DenseBitset) -> (found: bool)
    ensures
        found == has_true(dense_bits(*set)),
{
    set.bits.any()
}

/// `BitSlice::iter_ones`, collected: the positions of the set bits, in ascending order.
#[verifier::external_body]
fn dense_ones(set: &DenseBitset) -> (indices: Vec<usize>)
    ensures
        lists_ones(indices@, dense_bits(*set)),
{
    set.bits.iter_ones().collect()
}

impl DenseBitset {
    /// A bitset of `len` cleared bits.
    pub fn zeros(len: usize) -> (set: Self)
        requires
            len <= usize::MAX / 8,
        ensures
            set@ == Seq::new(len as nat, |i: int| false),
    {
        dense_zeros(len)
    }

    /// Sets the bit at `index`.
    pub fn insert(&mut self, index: usize)
        requires
            index < old(self)@.len(),
        ensures
            final(self)@ == old(self)@.update(index as int, true),
    {
        dense_set(self, index)
    }

    /// The number of bits.
    pub fn len(&self) -> (len: usize)
        ensures
            len == self@.len(),
    {
        dense_len(self)
    }

    /// Whether at least one bit is set.
    pub fn any(&self) -> (found: bool)
        ensures
            found == has_true(self@),
    {
        dense_any(self)
    }

    /// The positions of the set bits, in ascending order.
    pub fn iter_ones(&self) -> (indices: Vec<usize>)
        ensures
            lists_ones(indices@, self@),
    {
        dense_ones(self)
    }
}

} // verus!
