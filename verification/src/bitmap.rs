//! A growable sequence of bits, kept in a `bitvec::vec::BitVec`.
//!
//! Verus cannot take the declaration of `BitVec` (its parameters are bound by
//! traits of `bitvec`), so the bit vector sits in a private field of
//! `Bitmap`, which Verus does not look into. What the methods below say of
//! it is taken from `bitvec`, not proved.

use vstd::prelude::*;

verus! {

/// A sequence of bits. Its contents are `bits_of`.
#[verifier::external_body]
pub struct Bitmap {
    bits: bitvec::vec::BitVec,
}

/// The bits that a bitmap holds, first to last.
pub uninterp spec fn bits_of(bitmap: Bitmap) -> Seq<bool>;

/// The most bits that a `BitVec` can hold: `BitSlice::MAX_BITS`.
pub open spec fn max_bits() -> int {
    usize::MAX as int / 8
}

impl Bitmap {
    /// `BitVec::with_capacity`: an empty bit vector. It panics on a capacity
    /// above `BitSlice::MAX_BITS`.
    #[verifier::external_body]
    pub(crate) fn with_capacity(capacity: usize) -> (res: Bitmap)
        requires
            capacity <= max_bits(),
        ensures
            bits_of(res) == Seq::<bool>::empty(),
    {
        Bitmap { bits: bitvec::vec::BitVec::with_capacity(capacity) }
    }

    /// `BitVec::push`: appends one bit. It panics where the new length would
    /// pass `BitSlice::MAX_BITS`.
    #[verifier::external_body]
    pub(crate) fn push(&mut self, value: bool)
        requires
            bits_of(*old(self)).len() < max_bits(),
        ensures
            bits_of(*final(self)) == bits_of(*old(self)).push(value),
    {
        self.bits.push(value);
    }

    /// Indexing a `BitVec`: the bit at `index`. It panics on an index past
    /// the end.
    #[verifier::external_body]
    pub(crate) fn get(&self, index: usize) -> (res: bool)
        requires
            index < bits_of(*self).len(),
        ensures
            res == bits_of(*self)[index as int],
    {
        self.bits[index]
    }

    /// `BitSlice::set`: writes the bit at `index`. It panics on an index past
    /// the end.
    #[verifier::external_body]
    pub(crate) fn set(&mut self, index: usize, value: bool)
        requires
            index < bits_of(*old(self)).len(),
        ensures
            bits_of(*final(self)) == bits_of(*old(self)).update(index as int, value),
    {
        self.bits.set(index, value);
    }

    /// `BitVec::shrink_to_fit`: gives back unused capacity; the bits stay.
    #[verifier::external_body]
    pub(crate) fn shrink_to_fit(&mut self)
        ensures
            bits_of(*final(self)) == bits_of(*old(self)),
    {
        self.bits.shrink_to_fit();
    }
}

} // verus!
