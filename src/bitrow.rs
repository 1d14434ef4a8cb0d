//! Rows of bits backed by `fixedbitset::FixedBitSet`.
use fixedbitset::FixedBitSet;
use vstd::prelude::*;

verus! {

#[verifier::external_type_specification]
#[verifier::external_body]
pub struct ExFixedBitSet(FixedBitSet);

/// The bits held by a `FixedBitSet`, one entry per position below its length.
pub uninterp spec fn bits_of(b: FixedBitSet) -> Seq<bool>;

/// Pointwise exclusive or of two bit sequences (the length of `a`).
pub open spec fn xor_bits(a: Seq<bool>, b: Seq<bool>) -> Seq<bool> {
    Seq::new(a.len(), |i: int| a[i] != b[i])
}

/// Relies on `FixedBitSet::with_capacity`: `bits` positions, all clear.
#[verifier::external_body]
pub(crate) fn new_row(bits: usize) -> (r: FixedBitSet)
    ensures
        bits_of(r) == Seq::new(bits as nat, |i: int| false),
{
    FixedBitSet::with_capacity(bits)
}

/// Relies on `FixedBitSet::contains`: the bit at a position below the length.
#[verifier::external_body]
pub(crate) fn row_get(b: &FixedBitSet, i: usize) -> (r: bool)
    requires
        i < bits_of(*b).len(),
    ensures
        r == bits_of(*b)[i as int],
{
    b.contains(i)
}

/// Relies on `FixedBitSet::insert`: sets one bit (it panics out of bounds).
#[verifier::external_body]
pub(crate) fn row_insert(b: &mut FixedBitSet, i: usize)
    requires
        i < bits_of(*old(b)).len(),
    ensures
        bits_of(*final(b)) == bits_of(*old(b)).update(i as int, true),
{
    b.insert(i)
}

/// Relies on `FixedBitSet::toggle`: flips one bit (it panics out of bounds).
#[verifier::external_body]
pub(crate) fn row_toggle(b: &mut FixedBitSet, i: usize)
    requires
        i < bits_of(*old(b)).len(),
    ensures
        bits_of(*final(b)) == bits_of(*old(b)).update(i as int, !bits_of(*old(b))[i as int]),
{
    b.toggle(i)
}

/// Relies on `FixedBitSet::clear`: every bit cleared, length kept.
#[verifier::external_body]
pub(crate) fn row_clear(b: &mut FixedBitSet)
    ensures
        bits_of(*final(b)) == Seq::new(bits_of(*old(b)).len(), |i: int| false),
{
    b.clear()
}

/// Relies on `FixedBitSet::symmetric_difference_with`: on rows of one length,
/// each bit of `dst` becomes its exclusive or with the bit of `src`.
#[verifier::external_body]
pub(crate) fn row_xor_with(dst: &mut FixedBitSet, src: &FixedBitSet)
    requires
        bits_of(*old(dst)).len() == bits_of(*src).len(),
    ensures
        bits_of(*final(dst)) == xor_bits(bits_of(*old(dst)), bits_of(*src)),
{
    dst.symmetric_difference_with(src)
}

/// Relies on `FixedBitSet::clone`: the same bits.
#[verifier::external_body]
pub(crate) fn row_clone(b: &FixedBitSet) -> (r: FixedBitSet)
    ensures
        bits_of(r) == bits_of(*b),
{
    b.clone()
}

} // verus!
