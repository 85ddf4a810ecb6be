//! The fixed-size bit sets of the `fixedbitset` crate.
use vstd::prelude::*;
use fixedbitset::FixedBitSet;

verus! {

#[verifier::external_type_specification]
#[verifier::external_body]
pub struct ExFixedBitSet(FixedBitSet);

/// The enabled bits of a bit set.
pub uninterp spec fn bitset_bits(b: FixedBitSet) -> Set<usize>;

/// The number of bits a bit set was made with.
pub uninterp spec fn bitset_len(b: FixedBitSet) -> usize;

/// `FixedBitSet::with_capacity`: `bits` bits, all clear.
#[verifier::external_body]
pub(crate) fn bitset_with_capacity(bits: usize) -> (r: FixedBitSet)
    ensures
        bitset_len(r) == bits,
        bitset_bits(r) == Set::<usize>::empty(),
{
    FixedBitSet::with_capacity(bits)
}

/// `FixedBitSet::clear`: clears every bit.
#[verifier::external_body]
pub(crate) fn bitset_clear(b: &mut FixedBitSet)
    ensures
        bitset_len(*final(b)) == bitset_len(*old(b)),
        bitset_bits(*final(b)) == Set::<usize>::empty(),
{
    b.clear()
}

/// `FixedBitSet::insert`: enables `bit`.
#[verifier::external_body]
pub(crate) fn bitset_insert(b: &mut FixedBitSet, bit: usize)
    requires
        bit < bitset_len(*old(b)),
    ensures
        bitset_len(*final(b)) == bitset_len(*old(b)),
        bitset_bits(*final(b)) == bitset_bits(*old(b)).insert(bit),
{
    b.insert(bit)
}

/// `FixedBitSet::put`: enables `bit` and returns whether it was enabled.
#[verifier::external_body]
pub(crate) fn bitset_put(b: &mut FixedBitSet, bit: usize) -> (r: bool)
    requires
        bit < bitset_len(*old(b)),
    ensures
        r == bitset_bits(*old(b)).contains(bit),
        bitset_len(*final(b)) == bitset_len(*old(b)),
        bitset_bits(*final(b)) == bitset_bits(*old(b)).insert(bit),
{
    b.put(bit)
}

/// `FixedBitSet::set`: enables or disables `bit`.
#[verifier::external_body]
pub(crate) fn bitset_set(b: &mut FixedBitSet, bit: usize, enabled: bool)
    requires
        bit < bitset_len(*old(b)),
    ensures
        bitset_len(*final(b)) == bitset_len(*old(b)),
        bitset_bits(*final(b)) == if enabled {
            bitset_bits(*old(b)).insert(bit)
        } else {
            bitset_bits(*old(b)).remove(bit)
        },
{
    b.set(bit, enabled)
}

/// `FixedBitSet::contains`: whether `bit` is enabled; a bit past the end
/// is never enabled.
#[verifier::external_body]
pub(crate) fn bitset_contains(b: &FixedBitSet, bit: usize) -> (r: bool)
    ensures
        bit < bitset_len(*b) ==> r == bitset_bits(*b).contains(bit),
        bit >= bitset_len(*b) ==> !r,
{
    b.contains(bit)
}

/// `FixedBitSet::clone`: a bit set with the same bits.
#[verifier::external_body]
pub(crate) fn bitset_clone(b: &FixedBitSet) -> (r: FixedBitSet)
    ensures
        bitset_len(r) == bitset_len(*b),
        bitset_bits(r) == bitset_bits(*b),
{
    b.clone()
}

} // verus!
