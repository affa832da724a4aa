use vstd::prelude::*;

verus! {

/// A fixed-length set of flags, kept as one bit per slot in a `bitvec::vec::BitVec`.
#[verifier::external_body]
pub struct BitSet {
    bits: bitvec::vec::BitVec,
}

/// The flags held by a bit set, in slot order.
pub uninterp spec fn bits_of(v: BitSet) -> Seq<bool>;

impl BitSet {
    /// Relies on `BitVec::repeat`: `len` bits, all cleared. It panics when `len` exceeds
    /// the largest length a bit-vector can encode, `usize::MAX >> 3`.
    #[verifier::external_body]
    pub fn zeroed(len: usize) -> (r: BitSet)
        requires
            len <= usize::MAX / 8,
        ensures
            bits_of(r) == Seq::new(len as nat, |i: int| false),
    {
        BitSet { bits: bitvec::vec::BitVec::repeat(false, len) }
    }

    /// Relies on `Index<usize>` of `BitSlice`: the bit at `index`, which must be in bounds.
    #[verifier::external_body]
    pub fn get(&self, index: usize) -> (r: bool)
        requires
            index < bits_of(*self).len(),
        ensures
            r == bits_of(*self)[index as int],
    {
        self.bits[index]
    }

    /// Relies on `BitSlice::set`: writes `value` at `index`, which must be in bounds, and
    /// leaves every other bit and the length as they were.
    #[verifier::external_body]
    pub fn set(&mut self, index: usize, value: bool)
        requires
            index < bits_of(*old(self)).len(),
        ensures
            bits_of(*final(self)) == bits_of(*old(self)).update(index as int, value),
    {
        self.bits.set(index, value)
    }
}

} // verus!
