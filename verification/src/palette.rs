//! The colour palette of a seed image: its distinct colours in ascending
//! order.

use vstd::prelude::*;
use crate::sourceimage::RGB;

verus! {

/// Each colour comes before every colour that follows it in the sequence.
pub open spec fn strictly_increasing(colors: Seq<RGB>) -> bool {
    forall|i: int, j: int| 0 <= i < j < colors.len() ==> colors[i].precedes(colors[j])
}

/// `palette` is the palette of `cells`: the colours that occur among the
/// cells, each once, in ascending order.
pub open spec fn is_palette_of(palette: Seq<RGB>, cells: Seq<RGB>) -> bool {
    &&& strictly_increasing(palette)
    &&& forall|c: RGB| palette.contains(c) <==> cells.contains(c)
}

/// Some colour of the sequence has the given key.
pub open spec fn has_key(colors: Seq<RGB>, key: int) -> bool {
    exists|j: int| 0 <= j < colors.len() && (#[trigger] colors[j]).key() == key
}

/// `<[u32]>::sort`: the same numbers, each as often as before, in ascending
/// order.
#[verifier::external_body]
fn sort_keys(keys: &mut Vec<u32>)
    ensures
        final(keys)@.to_multiset() == old(keys)@.to_multiset(),
        forall|i: int, j: int|
            0 <= i <= j < final(keys)@.len() ==> final(keys)@[i] <= final(keys)@[j],
{
    keys.sort()
}

/// The colours of `cells`, sorted, with repeated colours dropped.
pub fn sorted_distinct(cells: &Vec<RGB>) -> (palette: Vec<RGB>)
    ensures
        is_palette_of(palette@, cells@),
{
    let mut keys: Vec<u32> = Vec::new();
    let mut next: usize = 0;
    while next < cells.len()
        invariant
            next <= cells@.len(),
            keys@.len() == next,
            forall|k: int| 0 <= k < next ==> keys@[k] == cells@[k].key(),
        decreases cells@.len() - next,
    {
        keys.push(cells[next].sort_key());
        next += 1;
    }
    let ghost unsorted = keys@;
    sort_keys(&mut keys);
    proof {
        unsorted.to_multiset_ensures();
        keys@.to_multiset_ensures();
    }
    assert forall|k: int| 0 <= k < keys@.len() implies unsorted.contains(#[trigger] keys@[k]) by {
        assert(keys@.contains(keys@[k]));
        assert(keys@.to_multiset().count(keys@[k]) > 0);
        assert(unsorted.to_multiset().count(keys@[k]) > 0);
    }
    let mut palette: Vec<RGB> = Vec::new();
    let mut at: usize = 0;
    while at < keys.len()
        invariant
            at <= keys@.len(),
            unsorted.len() == cells@.len(),
            forall|k: int| 0 <= k < unsorted.len() ==> unsorted[k] == cells@[k].key(),
            forall|k: int| 0 <= k < keys@.len() ==> unsorted.contains(#[trigger] keys@[k]),
            forall|i: int, j: int| 0 <= i <= j < keys@.len() ==> keys@[i] <= keys@[j],
            strictly_increasing(palette@),
            at > 0 ==> palette@.len() > 0 && palette@.last().key() == keys@[at - 1],
            at == 0 ==> palette@.len() == 0,
            forall|j: int| 0 <= j < palette@.len() ==> cells@.contains(#[trigger] palette@[j]),
            forall|k: int| 0 <= k < at ==> has_key(palette@, #[trigger] keys@[k] as int),
        decreases keys@.len() - at,
    {
        let key: u32 = keys[at];
        let ghost source = choose|k: int| 0 <= k < unsorted.len() && unsorted[k] == key;
        assert(unsorted.contains(keys@[at as int]));
        if at == 0 || key != keys[at - 1] {
            let color = RGB::from_sort_key(key);
            proof {
                RGB::lemma_key_order(color, cells@[source]);
                let ghost grown = palette@.push(color);
                assert forall|i: int, j: int| 0 <= i < j < grown.len() implies grown[i].precedes(
                    grown[j],
                ) by {
                    if j == palette@.len() {
                        RGB::lemma_key_order(grown[i], palette@.last());
                        RGB::lemma_key_order(grown[i], color);
                        RGB::lemma_key_order(palette@.last(), color);
                    }
                }
                assert forall|k: int| 0 <= k < at + 1 implies has_key(
                    grown,
                    #[trigger] keys@[k] as int,
                ) by {
                    if k < at {
                        assert(has_key(palette@, keys@[k] as int));
                        let j = choose|j: int|
                            0 <= j < palette@.len() && (#[trigger] palette@[j]).key() == keys@[k];
                        assert(grown[j].key() == keys@[k]);
                    } else {
                        assert(grown[palette@.len() as int].key() == keys@[k]);
                    }
                }
            }
            palette.push(color);
        } else {
            proof {
                assert(palette@.last().key() == keys@[at as int]);
                assert forall|k: int| 0 <= k < at + 1 implies has_key(
                    palette@,
                    #[trigger] keys@[k] as int,
                ) by {
                    if k == at {
                        assert(palette@[palette@.len() - 1].key() == keys@[k]);
                    }
                }
            }
        }
        at += 1;
    }
    proof {
        assert forall|c: RGB| cells@.contains(c) implies palette@.contains(c) by {
            let n = choose|n: int| 0 <= n < cells@.len() && cells@[n] == c;
            assert(unsorted[n] == c.key());
            assert(unsorted.contains(unsorted[n]));
            assert(keys@.to_multiset().count(unsorted[n]) > 0);
            assert(keys@.contains(unsorted[n]));
            let k = choose|k: int| 0 <= k < keys@.len() && keys@[k] == unsorted[n];
            assert(has_key(palette@, keys@[k] as int));
            let j = choose|j: int|
                0 <= j < palette@.len() && (#[trigger] palette@[j]).key() == keys@[k];
            RGB::lemma_key_order(palette@[j], c);
        }
    }
    palette
}

/// Two ascending sequences that hold the same colours are the same sequence.
pub proof fn lemma_increasing_unique(first: Seq<RGB>, second: Seq<RGB>)
    requires
        strictly_increasing(first),
        strictly_increasing(second),
        forall|c: RGB| first.contains(c) <==> second.contains(c),
    ensures
        first == second,
    decreases first.len(),
{
    if first.len() == 0 {
        if second.len() > 0 {
            assert(second.contains(second[0]));
        }
        assert(first =~= second);
    } else {
        let top = first.last();
        assert(first.contains(top));
        let at = choose|j: int| 0 <= j < second.len() && second[j] == top;
        if at != second.len() - 1 {
            assert(second.contains(second.last()));
            let back = choose|i: int| 0 <= i < first.len() && first[i] == second.last();
            assert(second[at].precedes(second.last()));
            if back < first.len() - 1 {
                assert(first[back].precedes(first.last()));
            }
            assert(false);
        }
        assert(second.last() == top);
        let shorter = first.drop_last();
        let other = second.drop_last();
        assert forall|c: RGB| shorter.contains(c) <==> other.contains(c) by {
            if shorter.contains(c) {
                let i = choose|i: int| 0 <= i < shorter.len() && shorter[i] == c;
                assert(first[i].precedes(top));
                assert(first.contains(c));
                let j = choose|j: int| 0 <= j < second.len() && second[j] == c;
                assert(other[j] == c);
            }
            if other.contains(c) {
                let j = choose|j: int| 0 <= j < other.len() && other[j] == c;
                assert(second[j].precedes(top));
                assert(second.contains(c));
                let i = choose|i: int| 0 <= i < first.len() && first[i] == c;
                assert(shorter[i] == c);
            }
        }
        lemma_increasing_unique(shorter, other);
        assert(first =~= shorter.push(top));
        assert(second =~= other.push(top));
    }
}

/// The palette depends only on which colours occur and how often, not on
/// where: two runs of cells that hold the same colours, each as often in one
/// as in the other, have the same palette.
pub proof fn lemma_palette_ignores_order(
    first: Seq<RGB>,
    second: Seq<RGB>,
    first_palette: Seq<RGB>,
    second_palette: Seq<RGB>,
)
    requires
        first.to_multiset() == second.to_multiset(),
        is_palette_of(first_palette, first),
        is_palette_of(second_palette, second),
    ensures
        first_palette == second_palette,
{
    first.to_multiset_ensures();
    second.to_multiset_ensures();
    assert forall|c: RGB| first_palette.contains(c) <==> second_palette.contains(c) by {
        assert(first.contains(c) <==> first.to_multiset().count(c) > 0);
        assert(second.contains(c) <==> second.to_multiset().count(c) > 0);
    }
    lemma_increasing_unique(first_palette, second_palette);
}

/// Building a palette twice changes nothing: a palette is its own palette.
pub proof fn lemma_palette_idempotent(cells: Seq<RGB>, palette: Seq<RGB>, again: Seq<RGB>)
    requires
        is_palette_of(palette, cells),
        is_palette_of(again, palette),
    ensures
        again == palette,
{
    lemma_increasing_unique(again, palette);
}

} // verus!
