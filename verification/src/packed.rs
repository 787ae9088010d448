//! Trusted wrappers around sux's `BitFieldVec`: a fixed-width packed
//! integer array with random access, used for the graph's adjacency lists.

use vstd::prelude::*;

verus! {

/// A bit-packed integer vector (sux's `BitFieldVec`), each element stored
/// in the same fixed number of bits.
#[verifier::external_body]
pub struct PackedVec {
    bits: sux::bits::BitFieldVec,
}

/// The elements a packed vector holds.
pub uninterp spec fn packed_elems(v: PackedVec) -> Seq<usize>;

/// The fixed bit width a packed vector was created with.
pub uninterp spec fn packed_width(v: PackedVec) -> usize;

/// Relies on sux's `BitFieldVec::new`: a vector of `len` zeros, each in
/// `width` bits. Widths above a machine word would panic.
#[verifier::external_body]
pub fn packed_new(width: usize, len: usize) -> (v: PackedVec)
    requires
        width <= 64,
    ensures
        packed_elems(v) == Seq::new(len as nat, |i: int| 0usize),
        packed_width(v) == width,
{
    PackedVec { bits: sux::bits::BitFieldVec::new(width, len) }
}

/// Relies on sux's `SliceByValue::index_value`: reads one element.
#[verifier::external_body]
pub fn packed_get(v: &PackedVec, i: usize) -> (r: usize)
    requires
        i < packed_elems(*v).len(),
    ensures
        r == packed_elems(*v)[i as int],
{
    value_traits::slices::SliceByValue::index_value(&v.bits, i)
}

/// Relies on sux's `SliceByValueMut::set_value`: writes one element. The
/// width precondition rules out its panic on an oversized value.
#[verifier::external_body]
pub fn packed_set(v: &mut PackedVec, i: usize, val: usize)
    requires
        i < packed_elems(*old(v)).len(),
        val < vstd::arithmetic::power2::pow2(packed_width(*old(v)) as nat),
    ensures
        packed_elems(*final(v)) == packed_elems(*old(v)).update(i as int, val),
        packed_width(*final(v)) == packed_width(*old(v)),
{
    value_traits::slices::SliceByValueMut::set_value(&mut v.bits, i, val);
}

/// Relies on sux's `SliceByValue::len`: the element count.
#[verifier::external_body]
pub fn packed_len(v: &PackedVec) -> (n: usize)
    ensures
        n == packed_elems(*v).len(),
{
    value_traits::slices::SliceByValue::len(&v.bits)
}

} // verus!
