//! The bit vector that stores a step sequence.
//!
//! Nothing in this file is proved. Each function hands one call to the
//! `bitvec` crate and states what that call does to the bits held.

use bitvec::order::Lsb0;
use bitvec::vec::BitVec;
use vstd::prelude::*;

verus! {

/// A `bitvec::vec::BitVec`, kept opaque.
#[verifier::external_body]
#[derive(Debug, PartialEq)]
pub struct Bits {
    inner: BitVec<Lsb0, usize>,
}

/// The bits that a bit vector holds, first to last.
pub uninterp spec fn bits_of(v: Bits) -> Seq<bool>;

/// `BitVec::with_capacity`: a bit vector that holds no bit yet. The crate
/// panics on a capacity above `BitSlice::MAX_BITS`, the greatest address
/// shifted right by three bits.
#[verifier::external_body]
pub(crate) fn bits_with_capacity(capacity: usize) -> (v: Bits)
    requires
        capacity <= usize::MAX / 8,
    ensures
        bits_of(v) == Seq::<bool>::empty(),
{
    Bits { inner: BitVec::with_capacity(capacity) }
}

/// `BitVec::push`: the bits held before, then `bit`. The crate panics
/// where the vector would grow beyond `BitSlice::MAX_BITS`.
#[verifier::external_body]
pub(crate) fn bits_push(v: &mut Bits, bit: bool)
    requires
        bits_of(*old(v)).len() < usize::MAX / 8,
    ensures
        bits_of(*final(v)) == bits_of(*old(v)).push(bit),
{
    v.inner.push(bit)
}

/// `BitSlice::len`, which a `BitVec` has by `Deref`: the number of bits
/// held.
#[verifier::external_body]
pub(crate) fn bits_len(v: &Bits) -> (n: usize)
    ensures
        n == bits_of(*v).len(),
{
    v.inner.len()
}

/// `Index<usize>` of `BitVec`: the bit at `index`. The crate panics on an
/// index that is not below the length.
#[verifier::external_body]
pub(crate) fn bits_get(v: &Bits, index: usize) -> (bit: bool)
    requires
        index < bits_of(*v).len(),
    ensures
        bit == bits_of(*v)[index as int],
{
    v.inner[index]
}

/// `BitOr` of `BitVec`, on clones of both: as many bits as `v` holds, each
/// the disjunction of the bit of `v` and the bit of `other` at its
/// position; where `other` has no bit there, the bit of `v`.
#[verifier::external_body]
pub(crate) fn bits_or(v: &Bits, other: &Bits) -> (joined: Bits)
    ensures
        bits_of(joined) == Seq::new(
            bits_of(*v).len(),
            |i: int| bits_of(*v)[i] || (i < bits_of(*other).len() && bits_of(*other)[i]),
        ),
{
    Bits { inner: v.inner.clone() | other.inner.clone() }
}

} // verus!
