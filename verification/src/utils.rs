//! Masked iteration and the weighted random choice built on it.

use vstd::prelude::*;
use bit_vec::BitVec;
use rand::distributions::IndependentSample;
use crate::bitmask::{count_true, mask_bits, mask_get, mask_len};
use crate::grid::{grid_invert_rows, grid_transposed, lemma_rotated_in_two_steps, PixelGrid};

verus! {

/// The grid turned a quarter turn clockwise: the first row of the input is
/// the last column of the result.
pub fn rotate_90_clockwise(image_data: &PixelGrid) -> (turned: PixelGrid)
    ensures
        turned@ == image_data@.rotated(),
{
    let mut output = grid_transposed(image_data);
    grid_invert_rows(&mut output);
    proof {
        lemma_rotated_in_two_steps(image_data@);
    }
    output
}

/// The items of a slice at the positions where a mask is set, in order.
///
/// Positions at or past the end of the shorter of the two are never reached.
pub struct Masked<'a, T> {
    items: &'a [T],
    mask: &'a BitVec,
    position: usize,
}

impl<'a, T> Masked<'a, T> {
    #[verifier::type_invariant]
    spec fn in_range(self) -> bool {
        self.position <= self.items@.len() && self.position <= mask_bits(*self.mask).len()
    }

    /// The items that are walked.
    pub closed spec fn items(self) -> Seq<T> {
        self.items@
    }

    /// The mask that selects among them.
    pub closed spec fn bits(self) -> Seq<bool> {
        mask_bits(*self.mask)
    }

    /// How many positions have been passed.
    pub closed spec fn passed(self) -> int {
        self.position as int
    }

    /// The number of positions that can be reached.
    pub open spec fn limit(self) -> int {
        if self.items().len() <= self.bits().len() {
            self.items().len() as int
        } else {
            self.bits().len() as int
        }
    }

    /// How many positions have been passed: after `next` has returned an
    /// item, the item's index is one less.
    pub fn position(&self) -> (position: usize)
        ensures
            position == self.passed(),
            0 <= self.passed() <= self.limit(),
    {
        proof {
            use_type_invariant(self);
        }
        self.position
    }

    /// The next item whose mask bit is set, or `None` when no position that
    /// is left has its bit set. Positions whose bit is clear are passed over.
    pub fn next(&mut self) -> (item: Option<&'a T>)
        ensures
            final(self).items() == old(self).items(),
            final(self).bits() == old(self).bits(),
            old(self).passed() <= final(self).passed() <= old(self).limit(),
            forall|j: int|
                old(self).passed() <= j < final(self).passed() - (if item.is_some() {
                    1int
                } else {
                    0int
                }) ==> !old(self).bits()[j],
            item matches Some(found) ==> {
                &&& old(self).passed() < final(self).passed()
                &&& old(self).bits()[final(self).passed() - 1]
                &&& *found == old(self).items()[final(self).passed() - 1]
            },
            item.is_none() ==> final(self).passed() == old(self).limit(),
    {
        proof {
            use_type_invariant(&*self);
        }
        let items: &'a [T] = self.items;
        let mask: &'a BitVec = self.mask;
        let bits_len: usize = mask_len(mask);
        let limit: usize = if items.len() <= bits_len {
            items.len()
        } else {
            bits_len
        };
        let ghost start = self.position as int;
        while self.position < limit
            invariant
                self.items == items,
                self.mask == mask,
                limit == old(self).limit(),
                start == old(self).passed(),
                start <= self.position <= limit,
                limit <= items@.len(),
                limit <= mask_bits(*mask).len(),
                items@ == old(self).items(),
                mask_bits(*mask) == old(self).bits(),
                forall|j: int| start <= j < self.position ==> !mask_bits(*mask)[j],
            decreases limit - self.position,
        {
            let index: usize = self.position;
            self.position = index + 1;
            match mask_get(mask, index) {
                Some(true) => {
                    return Some(&items[index]);
                },
                _ => {},
            }
        }
        None
    }
}

/// Walks `items` under `mask`.
pub fn masked<'a, T>(items: &'a [T], mask: &'a BitVec) -> (walk: Masked<'a, T>)
    ensures
        walk.items() == items@,
        walk.bits() == mask_bits(*mask),
        walk.passed() == 0,
{
    Masked { items, mask, position: 0 }
}

/// The sum of the weights at the positions below `upto` where the mask is set.
pub open spec fn masked_weight<T>(items: Seq<(T, usize)>, mask: Seq<bool>, upto: int) -> nat
    decreases upto,
{
    if upto <= 0 {
        0
    } else {
        masked_weight(items, mask, upto - 1) + if mask[upto - 1] {
            items[upto - 1].1 as nat
        } else {
            0nat
        }
    }
}

/// The sum of all weights where the mask is set.
pub open spec fn masked_total<T>(items: Seq<(T, usize)>, mask: Seq<bool>) -> nat {
    masked_weight(items, mask, items.len() as int)
}

/// The weights at the positions below `upto` where the mask is set, in order.
pub open spec fn masked_weights<T>(items: Seq<(T, usize)>, mask: Seq<bool>, upto: int) -> Seq<usize>
    decreases upto,
{
    if upto <= 0 {
        Seq::empty()
    } else if mask[upto - 1] {
        masked_weights(items, mask, upto - 1).push(items[upto - 1].1)
    } else {
        masked_weights(items, mask, upto - 1)
    }
}

/// Whether `draw` selects `index`: the mask is set there, and `draw` falls
/// into the run of `items[index].1` numbers that follows the weights of the
/// selectable items before it.
pub open spec fn is_pick<T>(items: Seq<(T, usize)>, mask: Seq<bool>, draw: int, index: int) -> bool {
    &&& 0 <= index < items.len()
    &&& mask[index]
    &&& masked_weight(items, mask, index) <= draw < masked_weight(items, mask, index + 1)
}

/// The masked sum grows with the bound.
pub proof fn lemma_masked_weight_monotonic<T>(
    items: Seq<(T, usize)>,
    mask: Seq<bool>,
    lower: int,
    upper: int,
)
    requires
        lower <= upper,
    ensures
        masked_weight(items, mask, lower) <= masked_weight(items, mask, upper),
    decreases upper - lower,
{
    if lower < upper {
        lemma_masked_weight_monotonic(items, mask, lower, upper - 1);
    }
}

/// Positions whose bit is clear add nothing to the masked sum.
pub proof fn lemma_masked_weight_skips<T>(
    items: Seq<(T, usize)>,
    mask: Seq<bool>,
    lower: int,
    upper: int,
)
    requires
        0 <= lower <= upper,
        forall|j: int| lower <= j < upper ==> !mask[j],
    ensures
        masked_weight(items, mask, lower) == masked_weight(items, mask, upper),
    decreases upper - lower,
{
    if lower < upper {
        lemma_masked_weight_skips(items, mask, lower, upper - 1);
    }
}

/// Positions whose bit is clear add nothing to the masked weights.
pub proof fn lemma_masked_weights_skips<T>(
    items: Seq<(T, usize)>,
    mask: Seq<bool>,
    lower: int,
    upper: int,
)
    requires
        0 <= lower <= upper,
        forall|j: int| lower <= j < upper ==> !mask[j],
    ensures
        masked_weights(items, mask, lower) == masked_weights(items, mask, upper),
    decreases upper - lower,
{
    if lower < upper {
        lemma_masked_weights_skips(items, mask, lower, upper - 1);
    }
}

/// There are as many masked weights as bits set, and the masked sum of
/// `upto` weights is at most `upto` times the largest weight there can be.
pub proof fn lemma_masked_weights_len<T>(items: Seq<(T, usize)>, mask: Seq<bool>, upto: int)
    requires
        0 <= upto <= mask.len(),
    ensures
        masked_weights(items, mask, upto).len() == count_true(mask.take(upto)),
        masked_weight(items, mask, upto) <= upto * 0xFFFF_FFFF_FFFF_FFFF,
    decreases upto,
{
    if upto > 0 {
        lemma_masked_weights_len(items, mask, upto - 1);
        assert(mask.take(upto).drop_last() =~= mask.take(upto - 1));
    }
}

/// A draw selects at most one index.
pub proof fn lemma_pick_unique<T>(
    items: Seq<(T, usize)>,
    mask: Seq<bool>,
    draw: int,
    first: int,
    second: int,
)
    requires
        is_pick(items, mask, draw, first),
        is_pick(items, mask, draw, second),
    ensures
        first == second,
{
    if first < second {
        lemma_masked_weight_monotonic(items, mask, first + 1, second);
    } else if second < first {
        lemma_masked_weight_monotonic(items, mask, second + 1, first);
    }
}

/// Every index whose bit is set and whose weight is not zero is selected by
/// some draw below the masked total, and by exactly as many draws as its
/// weight says.
pub proof fn lemma_pick_share<T>(items: Seq<(T, usize)>, mask: Seq<bool>, index: int)
    requires
        0 <= index < items.len(),
        mask[index],
    ensures
        masked_weight(items, mask, index) + items[index].1 <= masked_total(items, mask),
        forall|draw: int|
            is_pick(items, mask, draw, index) <==> masked_weight(items, mask, index) <= draw
                < masked_weight(items, mask, index) + items[index].1,
{
    lemma_masked_weight_monotonic(items, mask, index + 1, items.len() as int);
}

/// `scaled` holds the counts of `items`, each multiplied by `factor`.
pub open spec fn is_scaled<T>(items: Seq<(T, usize)>, scaled: Seq<(T, usize)>, factor: nat) -> bool {
    &&& items.len() == scaled.len()
    &&& forall|i: int| 0 <= i < items.len() ==> (#[trigger] scaled[i]).1 == factor * items[i].1
}

/// Multiplying every count by the same factor multiplies every masked weight
/// and the masked sum by that factor.
pub proof fn lemma_scaled_weights<T>(
    items: Seq<(T, usize)>,
    scaled: Seq<(T, usize)>,
    mask: Seq<bool>,
    factor: nat,
    upto: int,
)
    requires
        is_scaled(items, scaled, factor),
        0 <= upto <= items.len(),
    ensures
        masked_weight(scaled, mask, upto) == factor * masked_weight(items, mask, upto),
        masked_weights(scaled, mask, upto).len() == masked_weights(items, mask, upto).len(),
        forall|j: int|
            0 <= j < masked_weights(items, mask, upto).len() ==> (#[trigger] masked_weights(
                scaled,
                mask,
                upto,
            )[j]) == factor * masked_weights(items, mask, upto)[j],
    decreases upto,
{
    if upto > 0 {
        lemma_scaled_weights(items, scaled, mask, factor, upto - 1);
        let before = masked_weight(items, mask, upto - 1) as int;
        let weight = items[upto - 1].1 as int;
        assert(factor * (before + weight) == factor * before + factor * weight)
            by (nonlinear_arith);
    } else {
        assert(factor * 0 == 0) by (nonlinear_arith);
    }
}

/// Multiplying every count by the same positive factor leaves the share of
/// each possible state in the masked sum, `weight / total`, as it was. The
/// entropy of a cell depends on the counts through these shares alone.
pub proof fn lemma_shares_ignore_scale<T>(
    items: Seq<(T, usize)>,
    scaled: Seq<(T, usize)>,
    mask: Seq<bool>,
    factor: nat,
)
    requires
        is_scaled(items, scaled, factor),
        factor > 0,
    ensures
        masked_weights(scaled, mask, scaled.len() as int).len() == masked_weights(
            items,
            mask,
            items.len() as int,
        ).len(),
        forall|j: int|
            0 <= j < masked_weights(items, mask, items.len() as int).len() ==> (
            #[trigger] masked_weights(scaled, mask, scaled.len() as int)[j]) * masked_total(
                items,
                mask,
            ) == masked_weights(items, mask, items.len() as int)[j] * masked_total(scaled, mask),
{
    let len = items.len() as int;
    lemma_scaled_weights(items, scaled, mask, factor, len);
    let total = masked_total(items, mask) as int;
    assert forall|j: int| 0 <= j < masked_weights(items, mask, len).len() implies (
    #[trigger] masked_weights(scaled, mask, len)[j]) * masked_total(items, mask)
        == masked_weights(items, mask, len)[j] * masked_total(scaled, mask) by {
        let weight = masked_weights(items, mask, len)[j] as int;
        assert((factor * weight) * total == weight * (factor * total)) by (nonlinear_arith);
    }
}

/// `Range::new(0, bound).ind_sample(&mut thread_rng())`: a number drawn
/// uniformly from `0` up to, not including, `bound`, by the generator of the
/// running thread, which the system seeds. Which number comes is not
/// stated. The range panics when it is empty, so `bound` is not zero.
#[verifier::external_body]
fn uniform_below(bound: usize) -> (draw: usize)
    requires
        bound > 0,
    ensures
        draw < bound,
{
    rand::distributions::Range::new(0, bound).ind_sample(&mut rand::thread_rng())
}

/// The sum of the weights of the items whose mask bit is set, or `None`
/// where it does not fit a `usize`.
pub fn masked_sum<T>(items: &[(T, usize)], mask: &BitVec) -> (total: Option<usize>)
    requires
        items@.len() == mask_bits(*mask).len(),
    ensures
        match total {
            Some(sum) => sum == masked_total(items@, mask_bits(*mask)),
            None => masked_total(items@, mask_bits(*mask)) > usize::MAX,
        },
{
    let ghost bits = mask_bits(*mask);
    let mut walk = masked(items, mask);
    let mut sum: usize = 0;
    loop
        invariant
            walk.items() == items@,
            walk.bits() == bits,
            bits == mask_bits(*mask),
            items@.len() == bits.len(),
            0 <= walk.passed() <= items@.len(),
            sum == masked_weight(items@, bits, walk.passed()),
        decreases items@.len() - walk.passed(),
    {
        let ghost before = walk.passed();
        match walk.next() {
            Some(item) => {
                proof {
                    lemma_masked_weight_skips(items@, bits, before, walk.passed() - 1);
                }
                match sum.checked_add(item.1) {
                    Some(next) => {
                        sum = next;
                    },
                    None => {
                        proof {
                            lemma_masked_weight_monotonic(
                                items@,
                                bits,
                                walk.passed(),
                                items@.len() as int,
                            );
                        }
                        return None;
                    },
                }
            },
            None => {
                proof {
                    lemma_masked_weight_skips(items@, bits, before, walk.passed());
                }
                return Some(sum);
            },
        }
    }
}

/// The index that `draw` selects: the first index whose mask bit is set and
/// at which the running sum of the selectable weights exceeds `draw`.
pub fn weighted_pick<T>(items: &[(T, usize)], mask: &BitVec, draw: usize) -> (index: usize)
    requires
        items@.len() == mask_bits(*mask).len(),
        draw < masked_total(items@, mask_bits(*mask)),
    ensures
        is_pick(items@, mask_bits(*mask), draw as int, index as int),
{
    let ghost bits = mask_bits(*mask);
    let mut walk = masked(items, mask);
    let mut choice: usize = draw;
    loop
        invariant
            walk.items() == items@,
            walk.bits() == bits,
            bits == mask_bits(*mask),
            items@.len() == bits.len(),
            0 <= walk.passed() <= items@.len(),
            draw < masked_total(items@, bits),
            choice + masked_weight(items@, bits, walk.passed()) == draw,
        decreases items@.len() - walk.passed(),
    {
        let ghost before = walk.passed();
        match walk.next() {
            Some(item) => {
                proof {
                    lemma_masked_weight_skips(items@, bits, before, walk.passed() - 1);
                }
                if choice < item.1 {
                    return walk.position() - 1;
                }
                choice -= item.1;
            },
            None => {
                proof {
                    lemma_masked_weight_skips(items@, bits, before, walk.passed());
                }
                return unreached();
            },
        }
    }
}

/// One index drawn at random, each index with a probability in proportion
/// to its weight among the items whose mask bit is set.
///
/// The index returned has its mask bit set and a weight that is not zero:
/// it is the one that some draw below the masked total selects.
pub fn masked_weighted_choice<T>(items: &[(T, usize)], mask: &BitVec) -> (index: usize)
    requires
        items@.len() == mask_bits(*mask).len(),
        0 < masked_total(items@, mask_bits(*mask)) <= usize::MAX,
    ensures
        index < items@.len(),
        mask_bits(*mask)[index as int],
        items@[index as int].1 > 0,
        exists|draw: int|
            0 <= draw < masked_total(items@, mask_bits(*mask)) && is_pick(
                items@,
                mask_bits(*mask),
                draw,
                index as int,
            ),
{
    let total: usize = match masked_sum(items, mask) {
        Some(sum) => sum,
        None => unreached(),
    };
    let draw: usize = uniform_below(total);
    let index: usize = weighted_pick(items, mask, draw);
    index
}

} // verus!
