//! The state table of a seed image: its distinct blocks, each with the
//! number of windows that show it.

use vstd::prelude::*;
use crate::grid::{lemma_unit_windows, lemma_whole_grid_window, views, GridView, PixelGrid};

verus! {

/// How many of the windows show `block`.
pub open spec fn occurrences(windows: Seq<GridView>, block: GridView) -> nat
    decreases windows.len(),
{
    if windows.len() == 0 {
        0
    } else {
        occurrences(windows.drop_last(), block) + if windows.last() == block {
            1nat
        } else {
            0nat
        }
    }
}

/// The distinct values among the windows, each at the place of its first
/// occurrence.
pub open spec fn distinct(windows: Seq<GridView>) -> Seq<GridView>
    decreases windows.len(),
{
    if windows.len() == 0 {
        Seq::empty()
    } else {
        let before = distinct(windows.drop_last());
        if before.contains(windows.last()) {
            before
        } else {
            before.push(windows.last())
        }
    }
}

/// The blocks of a table, in the table's order.
pub open spec fn blocks_of(table: Seq<(PixelGrid, usize)>) -> Seq<GridView> {
    Seq::new(table.len(), |i: int| table[i].0@)
}

/// The sum of the counts of the first `upto` entries.
pub open spec fn counts_sum<T>(table: Seq<(T, usize)>, upto: int) -> nat
    decreases upto,
{
    if upto <= 0 {
        0
    } else {
        counts_sum(table, upto - 1) + table[upto - 1].1 as nat
    }
}

/// The sum of all counts of a table.
pub open spec fn total_count<T>(table: Seq<(T, usize)>) -> nat {
    counts_sum(table, table.len() as int)
}

/// `table` is the state table of `windows`: one entry for each distinct
/// block, in the order in which the blocks first occur, with the number of
/// windows that show the block.
pub open spec fn is_state_table(table: Seq<(PixelGrid, usize)>, windows: Seq<GridView>) -> bool {
    &&& blocks_of(table) == distinct(windows)
    &&& forall|i: int|
        0 <= i < table.len() ==> (#[trigger] table[i]).1 == occurrences(windows, table[i].0@)
}

/// No block is counted more often than there are windows.
pub proof fn lemma_occurrences_bound(windows: Seq<GridView>, block: GridView)
    ensures
        occurrences(windows, block) <= windows.len(),
        occurrences(windows, block) > 0 <==> windows.contains(block),
    decreases windows.len(),
{
    if windows.len() > 0 {
        let before = windows.drop_last();
        lemma_occurrences_bound(before, block);
        if before.contains(block) {
            let i = choose|i: int| 0 <= i < before.len() && before[i] == block;
            assert(windows[i] == block);
        }
        if windows.contains(block) && windows.last() != block {
            let i = choose|i: int| 0 <= i < windows.len() && windows[i] == block;
            assert(before[i] == block);
        }
    }
}

/// The distinct values are the values of the windows, each kept once.
pub proof fn lemma_distinct(windows: Seq<GridView>)
    ensures
        distinct(windows).no_duplicates(),
        distinct(windows).len() <= windows.len(),
        forall|block: GridView| distinct(windows).contains(block) <==> windows.contains(block),
    decreases windows.len(),
{
    if windows.len() > 0 {
        let before = windows.drop_last();
        let last = windows.last();
        lemma_distinct(before);
        assert forall|block: GridView| distinct(windows).contains(block) <==> windows.contains(
            block,
        ) by {
            if distinct(windows).contains(block) {
                let i = choose|i: int|
                    0 <= i < distinct(windows).len() && distinct(windows)[i] == block;
                if i < distinct(before).len() {
                    assert(distinct(before)[i] == block);
                    assert(distinct(before).contains(block));
                    assert(before.contains(block));
                    let j = choose|j: int| 0 <= j < before.len() && before[j] == block;
                    assert(windows[j] == block);
                } else {
                    assert(windows[windows.len() - 1] == block);
                }
            }
            if windows.contains(block) {
                let j = choose|j: int| 0 <= j < windows.len() && windows[j] == block;
                if j < before.len() {
                    assert(before[j] == block);
                    assert(before.contains(block));
                    let i = choose|i: int|
                        0 <= i < distinct(before).len() && distinct(before)[i] == block;
                    assert(distinct(windows)[i] == block);
                } else if distinct(before).contains(last) {
                } else {
                    assert(distinct(windows)[distinct(before).len() as int] == block);
                }
            }
        }
    }
}

/// Raising one count by one raises the sum by one.
pub proof fn lemma_counts_sum_raised<T>(
    before: Seq<(T, usize)>,
    after: Seq<(T, usize)>,
    at: int,
    upto: int,
)
    requires
        before.len() == after.len(),
        0 <= at < before.len(),
        0 <= upto <= before.len(),
        after[at].1 == before[at].1 + 1,
        forall|j: int| 0 <= j < before.len() && j != at ==> after[j].1 == before[j].1,
    ensures
        counts_sum(after, upto) == counts_sum(before, upto) + if at < upto {
            1nat
        } else {
            0nat
        },
    decreases upto,
{
    if upto > 0 {
        lemma_counts_sum_raised(before, after, at, upto - 1);
    }
}

/// A sum of counts does not change when an entry is added after them.
pub proof fn lemma_counts_sum_pushed<T>(table: Seq<(T, usize)>, entry: (T, usize), upto: int)
    requires
        0 <= upto <= table.len(),
    ensures
        counts_sum(table.push(entry), upto) == counts_sum(table, upto),
    decreases upto,
{
    if upto > 0 {
        lemma_counts_sum_pushed(table, entry, upto - 1);
    }
}

/// The counts of a state table add up to the number of windows, and none of
/// them is zero.
pub proof fn lemma_state_table_counts(table: Seq<(PixelGrid, usize)>, windows: Seq<GridView>)
    requires
        is_state_table(table, windows),
    ensures
        forall|i: int| 0 <= i < table.len() ==> 0 < (#[trigger] table[i]).1 <= windows.len(),
        table.len() <= windows.len(),
        (table.len() == 0) == (windows.len() == 0),
{
    lemma_distinct(windows);
    assert forall|i: int| 0 <= i < table.len() implies 0 < (#[trigger] table[i]).1
        <= windows.len() by {
        lemma_occurrences_bound(windows, table[i].0@);
        assert(blocks_of(table)[i] == table[i].0@);
        assert(distinct(windows).contains(distinct(windows)[i]));
    }
    if windows.len() > 0 {
        assert(windows.contains(windows[0]));
        assert(distinct(windows).contains(windows[0]));
    }
}

/// Where no two windows show the same block, the distinct blocks are the
/// windows themselves and each occurs once.
pub proof fn lemma_distinct_of_distinct(windows: Seq<GridView>)
    requires
        windows.no_duplicates(),
    ensures
        distinct(windows) == windows,
        forall|i: int| 0 <= i < windows.len() ==> occurrences(windows, #[trigger] windows[i]) == 1,
    decreases windows.len(),
{
    if windows.len() > 0 {
        let before = windows.drop_last();
        let last = windows.last();
        lemma_distinct_of_distinct(before);
        lemma_occurrences_bound(before, last);
        if before.contains(last) {
            let i = choose|i: int| 0 <= i < before.len() && before[i] == last;
            assert(windows[i] == windows[windows.len() - 1]);
        }
        assert forall|i: int| 0 <= i < windows.len() implies occurrences(
            windows,
            #[trigger] windows[i],
        ) == 1 by {
            if i < before.len() {
                assert(occurrences(before, before[i]) == 1);
            }
        }
    }
}

/// Where no two windows show the same block, the state table lists the
/// windows in their order, each with the count one.
pub proof fn lemma_table_of_distinct_windows(
    table: Seq<(PixelGrid, usize)>,
    windows: Seq<GridView>,
)
    requires
        is_state_table(table, windows),
        windows.no_duplicates(),
    ensures
        blocks_of(table) == windows,
        forall|i: int| 0 <= i < table.len() ==> (#[trigger] table[i]).1 == 1,
{
    lemma_distinct_of_distinct(windows);
    assert forall|i: int| 0 <= i < table.len() implies (#[trigger] table[i]).1 == 1 by {
        assert(windows[i] == table[i].0@);
    }
}

/// Where the block is as large as the seed, the state table has one entry:
/// the seed itself, counted once.
pub proof fn lemma_table_of_whole_seed(seed: GridView, table: Seq<(PixelGrid, usize)>)
    requires
        seed.wf(),
        seed.rows > 0,
        seed.cols > 0,
        is_state_table(table, seed.windows(seed.rows, seed.cols)),
    ensures
        table.len() == 1,
        table[0].0@ == seed,
        table[0].1 == 1,
{
    lemma_whole_grid_window(seed);
    lemma_table_of_distinct_windows(table, seq![seed]);
    assert(blocks_of(table)[0] == table[0].0@);
}

/// Where no colour occurs twice in the seed, the state table for blocks of
/// one cell lists the cells of the seed in their order, each counted once.
pub proof fn lemma_table_of_distinct_cells(seed: GridView, table: Seq<(PixelGrid, usize)>)
    requires
        seed.wf(),
        seed.cells.no_duplicates(),
        is_state_table(table, seed.windows(1, 1)),
    ensures
        table.len() == seed.cells.len(),
        forall|k: int|
            0 <= k < table.len() ==> (#[trigger] table[k]).0@ == (GridView {
                rows: 1,
                cols: 1,
                cells: seq![seed.cells[k]],
            }) && table[k].1 == 1,
{
    let windows = seed.windows(1, 1);
    assert forall|k: int| 0 <= k < seed.cells.len() implies windows.len() == seed.cells.len()
        && (#[trigger] windows[k]).cells[0] == seed.cells[k] by {
        lemma_unit_windows(seed, k);
    }
    if seed.cells.len() == 0 {
        assert(windows.len() == 0) by (nonlinear_arith)
            requires
                windows.len() == GridView::span(seed.rows, 1) * GridView::span(seed.cols, 1),
                GridView::span(seed.rows, 1) == seed.rows,
                GridView::span(seed.cols, 1) == seed.cols,
                seed.rows * seed.cols == 0,
        ;
    }
    assert forall|i: int, j: int| 0 <= i < windows.len() && 0 <= j < windows.len() && i
        != j implies windows[i] != windows[j] by {
        assert(windows[i].cells[0] == seed.cells[i]);
        assert(windows[j].cells[0] == seed.cells[j]);
    }
    lemma_table_of_distinct_windows(table, windows);
    assert forall|k: int| 0 <= k < table.len() implies (#[trigger] table[k]).0@ == (GridView {
        rows: 1,
        cols: 1,
        cells: seq![seed.cells[k]],
    }) && table[k].1 == 1 by {
        lemma_unit_windows(seed, k);
        assert(blocks_of(table)[k] == table[k].0@);
    }
}

/// Counts the windows block by block.
pub fn count_blocks(windows: Vec<PixelGrid>) -> (table: Vec<(PixelGrid, usize)>)
    ensures
        is_state_table(table@, views(windows@)),
        total_count(table@) == windows@.len(),
        total_count(table@) <= usize::MAX,
{
    let ghost all = views(windows@);
    let total: usize = windows.len();
    let mut table: Vec<(PixelGrid, usize)> = Vec::new();
    assert(blocks_of(table@) =~= distinct(all.take(0)));
    for window in iter: windows
        invariant
            iter.seq() == windows@,
            windows@.len() == total,
            all == views(windows@),
            is_state_table(table@, all.take(iter.index() as int)),
            total_count(table@) == iter.index(),
    {
        let ghost done = iter.index() as int;
        let ghost seen = all.take(done);
        let ghost now = all.take(done + 1);
        let ghost before = table@;
        proof {
            assert(now.drop_last() =~= seen);
            lemma_distinct(seen);
            lemma_occurrences_bound(seen, window@);
        }
        let mut at: usize = 0;
        let mut found = false;
        while at < table.len() && !found
            invariant
                table@ == before,
                at <= table@.len(),
                found ==> at < table@.len() && table@[at as int].0@ == window@,
                forall|j: int| 0 <= j < at ==> (#[trigger] table@[j]).0@ != window@,
            decreases table@.len() - at + if found { 0int } else { 1int },
        {
            if table[at].0.same_as(&window) {
                found = true;
            } else {
                at += 1;
            }
        }
        if found {
            proof {
                assert(blocks_of(before)[at as int] == window@);
            }
            table[at].1 = table[at].1 + 1;
            proof {
                lemma_counts_sum_raised(before, table@, at as int, before.len() as int);
                assert(blocks_of(table@) =~= blocks_of(before));
                assert forall|i: int| 0 <= i < table@.len() implies (#[trigger] table@[i]).1
                    == occurrences(now, table@[i].0@) by {
                    if i != at {
                        assert(blocks_of(before)[i] == before[i].0@);
                    }
                }
            }
        } else {
            proof {
                assert forall|i: int| 0 <= i < distinct(seen).len() implies distinct(seen)[i]
                    != window@ by {
                    assert(blocks_of(before)[i] == before[i].0@);
                }
                lemma_counts_sum_pushed(before, (window, 1usize), before.len() as int);
            }
            table.push((window, 1));
            proof {
                assert(blocks_of(table@) =~= blocks_of(before).push(window@));
                assert forall|i: int| 0 <= i < table@.len() implies (#[trigger] table@[i]).1
                    == occurrences(now, table@[i].0@) by {
                    if i < before.len() {
                        assert(blocks_of(before)[i] == before[i].0@);
                    }
                }
            }
        }
    }
    assert(all.take(windows@.len() as int) =~= all);
    table
}

} // verus!
