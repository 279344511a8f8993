//! Possibility masks: `bit_vec::BitVec` as Verus sees it.
//!
//! The bit vector itself is opaque to Verus. What it holds is named by
//! [`mask_bits`], and every method of the bit vector that the library calls
//! is reached through one of the small functions below, whose contract is
//! taken from the bit vector's own source and is not proved here.

use vstd::prelude::*;
use bit_vec::BitVec;

verus! {

/// `bit_vec::BitVec`, of which Verus sees no field.
#[verifier::external_type_specification]
#[verifier::external_body]
#[verifier::reject_recursive_types(B)]
pub struct ExBitVec<B>(BitVec<B>);

/// The bits that a mask holds, from index 0 upwards.
pub uninterp spec fn mask_bits(mask: BitVec) -> Seq<bool>;

/// How many of the bits are set.
pub open spec fn count_true(bits: Seq<bool>) -> nat
    decreases bits.len(),
{
    if bits.len() == 0 {
        0
    } else {
        count_true(bits.drop_last()) + if bits.last() { 1nat } else { 0nat }
    }
}

/// A mask of the given length in which every bit has the same value.
pub open spec fn uniform_bits(len: nat, bit: bool) -> Seq<bool> {
    Seq::new(len, |i: int| bit)
}

/// A mask of the given length in which exactly the bit at `chosen` is set.
pub open spec fn one_hot(len: nat, chosen: int) -> Seq<bool> {
    Seq::new(len, |i: int| i == chosen)
}

/// `BitVec::from_elem`: a new bit vector of `nbits` bits, each equal to `bit`.
#[verifier::external_body]
pub(crate) fn mask_filled(nbits: usize, bit: bool) -> (mask: BitVec)
    ensures
        mask_bits(mask) == uniform_bits(nbits as nat, bit),
{
    BitVec::from_elem(nbits, bit)
}

/// `BitVec::len`: the number of bits held.
#[verifier::external_body]
pub(crate) fn mask_len(mask: &BitVec) -> (len: usize)
    ensures
        len == mask_bits(*mask).len(),
{
    mask.len()
}

/// `BitVec::get`: the bit at index `i`, or `None` where `i` is past the end.
#[verifier::external_body]
pub(crate) fn mask_get(mask: &BitVec, i: usize) -> (bit: Option<bool>)
    ensures
        i < mask_bits(*mask).len() ==> bit == Some(mask_bits(*mask)[i as int]),
        i >= mask_bits(*mask).len() ==> bit.is_none(),
{
    mask.get(i)
}

/// `BitVec::set`: overwrites the bit at index `i` and leaves the others as
/// they were. The bit vector panics on an index past the end, so such an
/// index is not admitted.
#[verifier::external_body]
pub(crate) fn mask_set(mask: &mut BitVec, i: usize, bit: bool)
    requires
        i < mask_bits(*old(mask)).len(),
    ensures
        mask_bits(*final(mask)) == mask_bits(*old(mask)).update(i as int, bit),
{
    mask.set(i, bit)
}

/// `BitVec::set_all`: sets every bit; the length stays.
#[verifier::external_body]
pub(crate) fn mask_set_all(mask: &mut BitVec)
    ensures
        mask_bits(*final(mask)) == uniform_bits(mask_bits(*old(mask)).len(), true),
{
    mask.set_all()
}

/// `BitVec::negate`: flips every bit; the length stays.
#[verifier::external_body]
pub(crate) fn mask_negate(mask: &mut BitVec)
    ensures
        mask_bits(*final(mask)) == Seq::new(
            mask_bits(*old(mask)).len(),
            |i: int| !mask_bits(*old(mask))[i],
        ),
{
    mask.negate()
}

/// `BitVec::none`: whether no bit is set.
#[verifier::external_body]
pub(crate) fn mask_none(mask: &BitVec) -> (none: bool)
    ensures
        none == (forall|i: int| 0 <= i < mask_bits(*mask).len() ==> !mask_bits(*mask)[i]),
{
    mask.none()
}

/// A prefix of a mask holds no more set bits than the whole.
pub proof fn lemma_count_true_bounds(bits: Seq<bool>)
    ensures
        count_true(bits) <= bits.len(),
        count_true(bits) == 0 <==> (forall|i: int| 0 <= i < bits.len() ==> !bits[i]),
    decreases bits.len(),
{
    if bits.len() > 0 {
        lemma_count_true_bounds(bits.drop_last());
        if count_true(bits) == 0 {
            assert forall|i: int| 0 <= i < bits.len() implies !bits[i] by {
                if i < bits.len() - 1 {
                    assert(bits.drop_last()[i] == bits[i]);
                }
            }
        } else if !bits.last() {
            let i = choose|i: int| 0 <= i < bits.drop_last().len() && bits.drop_last()[i];
            assert(bits[i]);
        }
    }
}

/// A mask with a single set bit counts one.
pub proof fn lemma_count_true_one_hot(len: nat, chosen: int)
    requires
        0 <= chosen < len,
    ensures
        count_true(one_hot(len, chosen)) == 1,
    decreases len,
{
    let bits = one_hot(len, chosen);
    if chosen == len - 1 {
        lemma_count_true_bounds(bits.drop_last());
    } else {
        assert(bits.drop_last() =~= one_hot((len - 1) as nat, chosen));
        lemma_count_true_one_hot((len - 1) as nat, chosen);
    }
}

/// A mask in which every bit is set counts its length.
pub proof fn lemma_count_true_all(len: nat)
    ensures
        count_true(uniform_bits(len, true)) == len,
    decreases len,
{
    if len > 0 {
        assert(uniform_bits(len, true).drop_last() =~= uniform_bits((len - 1) as nat, true));
        lemma_count_true_all((len - 1) as nat);
    }
}

} // verus!
