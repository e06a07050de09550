//! Trusted boundary around the `bitvec` crate: the digital I/O banks and the
//! per-detail outcome words store their bits in a `BitVec`, and every access
//! goes through the small wrappers below.

use vstd::prelude::*;

verus! {

/// A bank of bits as the I/O model stores it: a `bitvec` vector with `u8`
/// backing, least significant bit first. The vector itself is hidden from the
/// verifier; [`bank_bits`] names what it holds.
#[verifier::external_body]
pub struct BitBank {
    bits: bitvec::vec::BitVec<u8, bitvec::order::Lsb0>,
}

/// The sequence of bit values a bank holds, in index order.
pub uninterp spec fn bank_bits(v: BitBank) -> Seq<bool>;

/// Relies on `BitVec::repeat`: a fresh vector of `len` copies of `bit`.
#[verifier::external_body]
pub(crate) fn bits_repeat(bit: bool, len: usize) -> (r: BitBank)
    ensures
        bank_bits(r) == Seq::new(len as nat, |i: int| bit),
{
    BitBank { bits: bitvec::vec::BitVec::repeat(bit, len) }
}

/// Relies on `BitSlice::len` (through `BitVec`'s deref): the number of live
/// bits.
#[verifier::external_body]
pub(crate) fn bits_len(v: &BitBank) -> (r: usize)
    ensures
        r == bank_bits(*v).len(),
{
    v.bits.len()
}

/// Relies on `BitSlice::get` with a `usize` index: `Some` of the bit at
/// `index` when it is in bounds, `None` otherwise.
#[verifier::external_body]
pub(crate) fn bits_get(v: &BitBank, index: usize) -> (r: Option<bool>)
    ensures
        index < bank_bits(*v).len() ==> r == Some(bank_bits(*v)[index as int]),
        index >= bank_bits(*v).len() ==> r is None,
{
    match v.bits.get(index) {
        Some(bit) => Some(*bit),
        None => None,
    }
}

/// Relies on `BitSlice::set`: writes one bit in place. The index must be in
/// bounds, since `set` panics otherwise.
#[verifier::external_body]
pub(crate) fn bits_set(v: &mut BitBank, index: usize, value: bool)
    requires
        index < bank_bits(*old(v)).len(),
    ensures
        bank_bits(*final(v)) == bank_bits(*old(v)).update(index as int, value),
{
    v.bits.set(index, value);
}

} // verus!
