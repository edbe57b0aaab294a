//! Claimed-index bookkeeping on a compact bit vector from the `bitvec`
//! crate.

use bitvec::order::Lsb0;
use bitvec::vec::BitVec;
use vstd::prelude::*;

verus! {

/// A fixed-length vector of bits, backed by bitvec's `BitVec`.
#[verifier::external_body]
pub struct ClaimMask {
    bits: BitVec<usize, Lsb0>,
}

/// The bits held by a claim mask, in index order.
pub uninterp spec fn bits_of(v: ClaimMask) -> Seq<bool>;

impl ClaimMask {
    /// Relies on bitvec's `BitVec::repeat`: a bit vector of `len` copies of
    /// `bit`.
    #[verifier::external_body]
    pub fn repeat(bit: bool, len: usize) -> (r: ClaimMask)
        ensures
            bits_of(r) == Seq::new(len as nat, |i: int| bit),
    {
        ClaimMask { bits: BitVec::repeat(bit, len) }
    }

    /// Relies on bitvec's `BitSlice` indexing, which yields the bit at
    /// `index` and panics when `index` is out of bounds.
    #[verifier::external_body]
    pub fn get(&self, index: usize) -> (r: bool)
        requires
            index < bits_of(*self).len(),
        ensures
            r == bits_of(*self)[index as int],
    {
        self.bits[index]
    }

    /// Relies on bitvec's `BitSlice::set`, which writes the bit at `index`
    /// and panics when `index` is out of bounds.
    #[verifier::external_body]
    pub fn set(&mut self, index: usize, value: bool)
        requires
            index < bits_of(*old(self)).len(),
        ensures
            bits_of(*final(self)) == bits_of(*old(self)).update(index as int, value),
    {
        self.bits.set(index, value)
    }
}

} // verus!
