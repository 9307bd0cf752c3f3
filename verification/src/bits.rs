//! The bit array behind the filter: `bitvec`'s `BitVec`, held in an opaque
//! struct behind a small set of trusted wrappers. (`BitVec`'s own generic
//! bounds are trait bounds Verus cannot declare, so the vector sits in a
//! private field instead of a type specification.)
//!
//! The contents are named by the spec function [`bit_seq`]; every wrapper
//! states what the wrapped call does to that sequence, as `bitvec`'s
//! source shows it.

use bitvec::order::Lsb0;
use bitvec::vec::BitVec;
use vstd::prelude::*;

verus! {

/// A fixed-length array of bits, stored as `bitvec::vec::BitVec<u64, Lsb0>`.
#[verifier::external_body]
pub struct BitArray {
    bits: BitVec<u64, Lsb0>,
}

/// The bits held by a bit array, lowest index first.
pub uninterp spec fn bit_seq(v: BitArray) -> Seq<bool>;

impl BitArray {
    /// Relies on `BitVec::repeat`: a vector of `len` copies of the given
    /// bit, here always clear. The length bound is `bitvec`'s own region
    /// limit (`usize::MAX >> 3` bits).
    #[verifier::external_body]
    pub fn repeat_false(len: usize) -> (r: BitArray)
        requires
            len as nat <= usize::MAX as nat / 8,
        ensures
            bit_seq(r) == Seq::new(len as nat, |i: int| false),
    {
        BitArray { bits: BitVec::repeat(false, len) }
    }

    /// Relies on `BitVec::len`: the number of bits held.
    #[verifier::external_body]
    pub fn len(&self) -> (n: usize)
        ensures
            n as nat == bit_seq(*self).len(),
    {
        self.bits.len()
    }

    /// Relies on `BitSlice::set`, which writes one bit in place and panics
    /// outside `0 .. len`; the index is kept in bounds here.
    #[verifier::external_body]
    pub fn set_true(&mut self, i: usize)
        requires
            (i as nat) < bit_seq(*old(self)).len(),
        ensures
            bit_seq(*final(self)) == bit_seq(*old(self)).update(i as int, true),
    {
        self.bits.set(i, true);
    }

    /// Relies on `BitSlice`'s `Index<usize>`, which reads one bit and
    /// panics outside `0 .. len`; the index is kept in bounds here.
    #[verifier::external_body]
    pub fn get(&self, i: usize) -> (b: bool)
        requires
            (i as nat) < bit_seq(*self).len(),
        ensures
            b == bit_seq(*self)[i as int],
    {
        self.bits[i]
    }
}

} // verus!
