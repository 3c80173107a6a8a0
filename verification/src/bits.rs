//! Bit sets of a fixed length, kept in the fixedbitset crate's `FixedBitSet`.

use fixedbitset::FixedBitSet;
use vstd::prelude::*;

verus! {

/// The fixedbitset crate's `FixedBitSet`, opaque to the verifier.
#[verifier::external_type_specification]
#[verifier::external_body]
pub struct ExFixedBitSet(FixedBitSet);

/// The bits of a `FixedBitSet` from the first to the last: `true` where the
/// bit is set.
pub uninterp spec fn bitset_bits(b: FixedBitSet) -> Seq<bool>;

/// `len` bits, none of them set.
pub open spec fn clear_bits(len: nat) -> Seq<bool> {
    Seq::new(len, |i: int| false)
}

/// `FixedBitSet::new`: a set of no bits.
#[verifier::external_body]
pub(crate) fn bitset_new() -> (b: FixedBitSet)
    ensures
        bitset_bits(b) == clear_bits(0),
{
    FixedBitSet::new()
}

/// `FixedBitSet::with_capacity`: a set of `bits` bits, none of them set.
#[verifier::external_body]
pub(crate) fn bitset_with_capacity(bits: usize) -> (b: FixedBitSet)
    ensures
        bitset_bits(b) == clear_bits(bits as nat),
{
    FixedBitSet::with_capacity(bits)
}

/// `FixedBitSet::insert`: sets the bit `bit` and leaves the others. The
/// crate panics where `bit` is no bit of the set.
#[verifier::external_body]
pub(crate) fn bitset_insert(b: &mut FixedBitSet, bit: usize)
    requires
        bit < bitset_bits(*old(b)).len(),
    ensures
        bitset_bits(*final(b)) == bitset_bits(*old(b)).update(bit as int, true),
{
    b.insert(bit)
}

/// `FixedBitSet::clear`: unsets every bit and keeps the length.
#[verifier::external_body]
pub(crate) fn bitset_clear(b: &mut FixedBitSet)
    ensures
        bitset_bits(*final(b)) == clear_bits(bitset_bits(*old(b)).len()),
{
    b.clear()
}

/// `FixedBitSet::contains`: whether `bit` is a bit of the set and is set.
#[verifier::external_body]
pub(crate) fn bitset_contains(b: &FixedBitSet, bit: usize) -> (r: bool)
    ensures
        r == (bit < bitset_bits(*b).len() && bitset_bits(*b)[bit as int]),
{
    b.contains(bit)
}

} // verus!
