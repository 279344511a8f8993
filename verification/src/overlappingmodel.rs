//! Uncertain cells and the grid of them that is being resolved.

use vstd::prelude::*;
use bit_vec::BitVec;
use crate::bitmask::{
    count_true, lemma_count_true_all, lemma_count_true_bounds, lemma_count_true_one_hot,
    mask_bits, mask_filled, mask_get, mask_len, mask_negate, mask_none, mask_set, mask_set_all,
    one_hot, uniform_bits,
};
use crate::grid::{lemma_cell_index, GridView, PixelGrid};
use crate::palette::{is_palette_of, sorted_distinct};
use crate::sourceimage::{SeedImage, RGB};
use crate::statetable::{
    count_blocks, counts_sum, is_state_table, lemma_state_table_counts, total_count,
};
use crate::utils::{
    is_pick, lemma_masked_weight_skips, lemma_masked_weights_len, lemma_masked_weights_skips,
    masked, masked_total, masked_weight, masked_weighted_choice, masked_weights,
};

verus! {

/// What the Shannon entropy of a cell is computed from.
#[derive(Debug, PartialEq, Eq)]
pub enum Entropy {
    /// One state is left: the entropy is zero, whatever its count.
    Zero,
    /// Several states are left. `weights` are their counts, in the order of
    /// the states, and `total` is the sum of the counts. The entropy is the
    /// negated sum of `p * ln(p)` over `p = weight / total`.
    Shannon { weights: Vec<usize>, total: u128 },
}

/// One cell of the output: which colours and which states it may still take.
#[derive(Debug)]
pub struct UncertainCell {
    pub possible_colors: BitVec,
    pub possible_states: BitVec,
}

impl UncertainCell {
    /// The colour mask, bit by bit.
    pub open spec fn colors(&self) -> Seq<bool> {
        mask_bits(self.possible_colors)
    }

    /// The state mask, bit by bit.
    pub open spec fn states(&self) -> Seq<bool> {
        mask_bits(self.possible_states)
    }

    /// The number of states that are still possible.
    pub open spec fn remaining(&self) -> nat {
        count_true(self.states())
    }

    /// A cell for which every colour and every state is possible.
    pub fn new(num_colors: usize, num_states: usize) -> (cell: UncertainCell)
        ensures
            cell.colors() == uniform_bits(num_colors as nat, true),
            cell.states() == uniform_bits(num_states as nat, true),
            cell.remaining() == num_states,
    {
        let possible_colors = mask_filled(num_colors, true);
        let possible_states = mask_filled(num_states, true);
        proof {
            lemma_count_true_all(num_states as nat);
        }
        UncertainCell { possible_colors, possible_states }
    }

    /// What the entropy of the cell over `concrete_states` is computed from.
    ///
    /// `None` when no state is possible any more, [`Entropy::Zero`] when
    /// exactly one is, whatever the counts are, and else the counts of the
    /// possible states with their sum.
    pub fn entropy<T>(&self, concrete_states: &[(T, usize)]) -> (entropy: Option<Entropy>)
        requires
            self.states().len() == concrete_states@.len(),
        ensures
            entropy.is_none() <==> self.remaining() == 0,
            entropy == Some(Entropy::Zero) <==> self.remaining() == 1,
            self.remaining() >= 2 ==> (entropy matches Some(Entropy::Shannon { weights, total })
                && weights@ == masked_weights(
                concrete_states@,
                self.states(),
                concrete_states@.len() as int,
            ) && total == masked_total(concrete_states@, self.states())),
    {
        let ghost bits = self.states();
        proof {
            lemma_count_true_bounds(bits);
        }
        if mask_none(&self.possible_states) {
            return None;
        }
        let len: usize = mask_len(&self.possible_states);
        let mut set: usize = 0;
        let mut at: usize = 0;
        while at < len
            invariant
                at <= len,
                len == bits.len(),
                bits == self.states(),
                set == count_true(bits.take(at as int)),
                set <= at,
            decreases len - at,
        {
            proof {
                assert(bits.take(at + 1).drop_last() =~= bits.take(at as int));
            }
            match mask_get(&self.possible_states, at) {
                Some(true) => {
                    set += 1;
                },
                _ => {},
            }
            at += 1;
        }
        assert(bits.take(len as int) =~= bits);
        if set == 1 {
            return Some(Entropy::Zero);
        }
        let mut walk = masked(concrete_states, &self.possible_states);
        let mut weights: Vec<usize> = Vec::new();
        let mut total: u128 = 0;
        loop
            invariant
                walk.items() == concrete_states@,
                walk.bits() == bits,
                bits == self.states(),
                concrete_states@.len() == bits.len(),
                0 <= walk.passed() <= bits.len(),
                bits.len() == len,
                count_true(bits) >= 2,
                weights@ == masked_weights(concrete_states@, bits, walk.passed()),
                total == masked_weight(concrete_states@, bits, walk.passed()),
            decreases bits.len() - walk.passed(),
        {
            let ghost before = walk.passed();
            match walk.next() {
                Some(item) => {
                    proof {
                        lemma_masked_weight_skips(concrete_states@, bits, before, walk.passed() - 1);
                        lemma_masked_weights_skips(
                            concrete_states@,
                            bits,
                            before,
                            walk.passed() - 1,
                        );
                        lemma_masked_weights_len(concrete_states@, bits, walk.passed());
                    }
                    weights.push(item.1);
                    total = total + item.1 as u128;
                },
                None => {
                    proof {
                        lemma_masked_weight_skips(concrete_states@, bits, before, walk.passed());
                        lemma_masked_weights_skips(concrete_states@, bits, before, walk.passed());
                    }
                    return Some(Entropy::Shannon { weights, total });
                },
            }
        }
    }

    /// Leaves `chosen` as the only possible state.
    pub fn collapse_to(&mut self, chosen: usize)
        requires
            chosen < old(self).states().len(),
        ensures
            final(self).states() == one_hot(old(self).states().len(), chosen as int),
            final(self).remaining() == 1,
            final(self).possible_colors == old(self).possible_colors,
    {
        let ghost len = self.states().len();
        mask_set_all(&mut self.possible_states);
        mask_negate(&mut self.possible_states);
        mask_set(&mut self.possible_states, chosen, true);
        proof {
            lemma_count_true_one_hot(len, chosen as int);
        }
    }

    /// Chooses one of the possible states at random, each with a probability
    /// in proportion to its count, and leaves it as the only possible state.
    ///
    /// The state that is left was possible before and has a count that is
    /// not zero. A cell with a single possible state keeps it.
    pub fn collapse<T>(&mut self, concrete_states: &[(T, usize)])
        requires
            old(self).states().len() == concrete_states@.len(),
            0 < masked_total(concrete_states@, old(self).states()) <= usize::MAX,
        ensures
            final(self).remaining() == 1,
            final(self).states().len() == old(self).states().len(),
            forall|i: int|
                0 <= i < final(self).states().len() && final(self).states()[i] ==> old(
                    self,
                ).states()[i] && concrete_states@[i].1 > 0,
            exists|chosen: int, draw: int|
                0 <= draw < masked_total(concrete_states@, old(self).states()) && is_pick(
                    concrete_states@,
                    old(self).states(),
                    draw,
                    chosen,
                ) && final(self).states() == one_hot(old(self).states().len(), chosen),
            final(self).possible_colors == old(self).possible_colors,
    {
        let chosen: usize = masked_weighted_choice(concrete_states, &self.possible_states);
        let ghost draw = choose|draw: int|
            0 <= draw < masked_total(concrete_states@, self.states()) && is_pick(
                concrete_states@,
                self.states(),
                draw,
                chosen as int,
            );
        self.collapse_to(chosen);
        assert(is_pick(concrete_states@, old(self).states(), draw, chosen as int));
    }
}

/// Why the scan for the next cell to resolve found none.
#[derive(Copy, Clone, Debug, PartialEq, Eq, Structural)]
pub enum ModelError {
    /// The cell at this place of the scan, rows first, has no possible state
    /// left.
    NoValidStates(usize),
    /// Every cell is decided: there is nothing left to resolve.
    AllStatesDecided,
}

/// Why no model can be built from a seed image and the sizes asked for.
#[derive(Copy, Clone, Debug, PartialEq, Eq, Structural)]
pub enum ConfigError {
    /// The output has no cells: its width or its height is zero.
    ZeroSizedOutput,
    /// The output has more cells than can be counted.
    OutputTooLarge,
    /// A block has no cells: its width or its height is zero.
    ZeroSizedBlock,
    /// No block fits into the seed image, so no state could be observed.
    EmptyStateTable,
}

/// The grid of uncertain cells, with the palette and the state table of the
/// seed image it was built from.
#[derive(Debug)]
pub struct OverlappingModel {
    model: Vec<UncertainCell>,
    height: usize,
    width: usize,
    palette: Vec<RGB>,
    states: Vec<(PixelGrid, usize)>,
    block_dims: (usize, usize),
}

/// The cell at `index` has no possible state left.
pub open spec fn is_contradiction(cells: Seq<UncertainCell>, index: int) -> bool {
    0 <= index < cells.len() && cells[index].remaining() == 0
}

/// The cell at `index` has several possible states left and an entropy that
/// is not ranked zero.
pub open spec fn is_undecided(cells: Seq<UncertainCell>, ranks: Seq<u64>, index: int) -> bool {
    0 <= index < cells.len() && cells[index].remaining() >= 2 && ranks[index] != 0
}

/// The cell at `index` is undecided, no undecided cell has a lower rank, and
/// every undecided cell after it has a higher one.
pub open spec fn is_lowest_undecided(
    cells: Seq<UncertainCell>,
    ranks: Seq<u64>,
    index: int,
) -> bool {
    &&& is_undecided(cells, ranks, index)
    &&& forall|j: int| #[trigger]
        is_undecided(cells, ranks, j) ==> ranks[index] <= ranks[j] && (index < j ==> ranks[index]
            < ranks[j])
}

/// At most one cell is the lowest undecided one.
pub proof fn lemma_lowest_undecided_unique(
    cells: Seq<UncertainCell>,
    ranks: Seq<u64>,
    first: int,
    second: int,
)
    requires
        is_lowest_undecided(cells, ranks, first),
        is_lowest_undecided(cells, ranks, second),
    ensures
        first == second,
{
}

/// Cells for which the one state of a single-state table is possible are
/// decided: none of them is a contradiction and none is undecided, whatever
/// the ranks are.
pub proof fn lemma_single_state_decided(cells: Seq<UncertainCell>, ranks: Seq<u64>)
    requires
        forall|i: int|
            0 <= i < cells.len() ==> (#[trigger] cells[i]).states() == uniform_bits(1, true),
    ensures
        forall|j: int| !is_contradiction(cells, j),
        forall|j: int| !is_undecided(cells, ranks, j),
{
    lemma_count_true_all(1);
}

/// What is wrong with the sizes asked for, if anything: the first of the
/// faults in the order of [`ConfigError`].
pub open spec fn config_fault(
    seed: GridView,
    output_dims: (usize, usize),
    block_dims: (usize, usize),
) -> Option<ConfigError> {
    if output_dims.0 == 0 || output_dims.1 == 0 {
        Some(ConfigError::ZeroSizedOutput)
    } else if output_dims.0 * output_dims.1 > usize::MAX {
        Some(ConfigError::OutputTooLarge)
    } else if block_dims.0 == 0 || block_dims.1 == 0 {
        Some(ConfigError::ZeroSizedBlock)
    } else if seed.rows < block_dims.1 || seed.cols < block_dims.0 {
        Some(ConfigError::EmptyStateTable)
    } else {
        None
    }
}

/// The masked sum of some counts is at most the sum of all of them, and it
/// is not zero where a bit is set and no count is zero.
pub proof fn lemma_masked_weight_within<T>(items: Seq<(T, usize)>, mask: Seq<bool>, upto: int)
    requires
        0 <= upto <= items.len(),
        items.len() == mask.len(),
    ensures
        masked_weight(items, mask, upto) <= counts_sum(items, upto),
        (forall|i: int| 0 <= i < upto ==> (#[trigger] items[i]).1 > 0) && count_true(
            mask.take(upto),
        ) > 0 ==> masked_weight(items, mask, upto) > 0,
    decreases upto,
{
    if upto > 0 {
        lemma_masked_weight_within(items, mask, upto - 1);
        assert(mask.take(upto).drop_last() =~= mask.take(upto - 1));
    }
}

impl OverlappingModel {
    /// The cells, row after row.
    pub closed spec fn cells(&self) -> Seq<UncertainCell> {
        self.model@
    }

    /// The number of rows of cells.
    pub closed spec fn rows(&self) -> nat {
        self.height as nat
    }

    /// The number of columns of cells.
    pub closed spec fn cols(&self) -> nat {
        self.width as nat
    }

    /// The palette of the seed image.
    pub closed spec fn palette_colors(&self) -> Seq<RGB> {
        self.palette@
    }

    /// The state table of the seed image.
    pub closed spec fn state_table(&self) -> Seq<(PixelGrid, usize)> {
        self.states@
    }

    /// The width and the height of a block.
    pub closed spec fn block_shape(&self) -> (usize, usize) {
        self.block_dims
    }

    /// The cells fill the grid, every mask has a bit for each colour or each
    /// state, and the counts of the states are not zero and add up to a
    /// number that can be counted.
    pub open spec fn wf(&self) -> bool {
        &&& self.cells().len() == self.rows() * self.cols()
        &&& forall|i: int|
            0 <= i < self.cells().len() ==> (#[trigger] self.cells()[i]).colors().len()
                == self.palette_colors().len() && self.cells()[i].states().len()
                == self.state_table().len()
        &&& forall|i: int|
            0 <= i < self.state_table().len() ==> (#[trigger] self.state_table()[i]).1 > 0
        &&& total_count(self.state_table()) <= usize::MAX
    }

    /// The distinct colours of the image in ascending order.
    pub fn build_color_palette(image_data: &PixelGrid) -> (palette: Vec<RGB>)
        ensures
            is_palette_of(palette@, image_data@.cells),
    {
        let cells = image_data.to_vec();
        sorted_distinct(&cells)
    }

    /// The distinct blocks of `block_dims.0` columns and `block_dims.1` rows
    /// that occur in the image, in the order in which they first occur, each
    /// with the number of windows that show it.
    ///
    /// The counts add up to the number of windows. There is no entry where
    /// the block is larger than the image along an axis.
    pub fn build_block_frequency_map(image_data: &PixelGrid, block_dims: (usize, usize)) -> (states:
        Vec<(PixelGrid, usize)>)
        requires
            block_dims.0 > 0,
            block_dims.1 > 0,
        ensures
            is_state_table(
                states@,
                image_data@.windows(block_dims.1 as nat, block_dims.0 as nat),
            ),
            total_count(states@) == GridView::span(image_data@.rows, block_dims.1 as nat)
                * GridView::span(image_data@.cols, block_dims.0 as nat),
            total_count(states@) <= usize::MAX,
            block_dims.1 <= image_data@.rows && block_dims.0 <= image_data@.cols ==> total_count(
                states@,
            ) == (image_data@.rows - block_dims.1 + 1) * (image_data@.cols - block_dims.0 + 1),
            states@.len() == 0 <==> (image_data@.rows < block_dims.1 || image_data@.cols
                < block_dims.0),
    {
        let windows = image_data.windows(block_dims.1, block_dims.0);
        let states = count_blocks(windows);
        proof {
            let down = GridView::span(image_data@.rows, block_dims.1 as nat);
            let across = GridView::span(image_data@.cols, block_dims.0 as nat);
            lemma_state_table_counts(
                states@,
                image_data@.windows(block_dims.1 as nat, block_dims.0 as nat),
            );
            assert((down * across == 0) <==> (down == 0 || across == 0)) by (nonlinear_arith);
        }
        states
    }

    /// A model of `output_dims.0` columns and `output_dims.1` rows of cells,
    /// for blocks of `block_dims.0` columns and `block_dims.1` rows of the
    /// seed image. Every colour of the palette and every state of the state
    /// table is possible for every cell.
    ///
    /// Sizes from which no model can be built are refused before any cell is
    /// made, with the first fault in the order of [`ConfigError`].
    pub fn from_seed_image(
        seed_image: SeedImage,
        output_dims: (usize, usize),
        block_dims: (usize, usize),
    ) -> (built: Result<OverlappingModel, ConfigError>)
        ensures
            match built {
                Ok(model) => {
                    &&& config_fault(seed_image.image_data@, output_dims, block_dims).is_none()
                    &&& model.wf()
                    &&& model.rows() == output_dims.1
                    &&& model.cols() == output_dims.0
                    &&& model.block_shape() == block_dims
                    &&& is_palette_of(model.palette_colors(), seed_image.image_data@.cells)
                    &&& is_state_table(
                        model.state_table(),
                        seed_image.image_data@.windows(block_dims.1 as nat, block_dims.0 as nat),
                    )
                    &&& forall|i: int|
                        0 <= i < model.cells().len() ==> (#[trigger] model.cells()[i]).colors()
                            == uniform_bits(model.palette_colors().len(), true)
                            && model.cells()[i].states() == uniform_bits(
                            model.state_table().len(),
                            true,
                        )
                },
                Err(fault) => config_fault(seed_image.image_data@, output_dims, block_dims)
                    == Some(fault),
            },
    {
        let (x, y) = output_dims;
        if x == 0 || y == 0 {
            return Err(ConfigError::ZeroSizedOutput);
        }
        let count: usize = match x.checked_mul(y) {
            Some(count) => count,
            None => {
                return Err(ConfigError::OutputTooLarge);
            },
        };
        if block_dims.0 == 0 || block_dims.1 == 0 {
            return Err(ConfigError::ZeroSizedBlock);
        }
        let (seed_rows, seed_cols) = seed_image.image_data.dim();
        if seed_rows < block_dims.1 || seed_cols < block_dims.0 {
            return Err(ConfigError::EmptyStateTable);
        }
        let palette = Self::build_color_palette(&seed_image.image_data);
        let states = Self::build_block_frequency_map(&seed_image.image_data, block_dims);
        proof {
            lemma_state_table_counts(
                states@,
                seed_image.image_data@.windows(block_dims.1 as nat, block_dims.0 as nat),
            );
        }
        let num_colors: usize = palette.len();
        let num_states: usize = states.len();
        let mut model_data: Vec<UncertainCell> = Vec::new();
        let mut made: usize = 0;
        while made < count
            invariant
                made <= count,
                model_data@.len() == made,
                forall|i: int|
                    0 <= i < made ==> (#[trigger] model_data@[i]).colors() == uniform_bits(
                        num_colors as nat,
                        true,
                    ) && model_data@[i].states() == uniform_bits(num_states as nat, true),
            decreases count - made,
        {
            model_data.push(UncertainCell::new(num_colors, num_states));
            made += 1;
        }
        assert(y * x == x * y) by (nonlinear_arith);
        Ok(
            OverlappingModel {
                model: model_data,
                height: y,
                width: x,
                palette,
                states,
                block_dims,
            },
        )
    }

    /// The row and the column of the undecided cell of lowest entropy, where
    /// `ranks` holds a number for each cell, rows first, that orders the
    /// cells as their entropies do and is zero where the entropy is zero.
    ///
    /// The cells are scanned row after row. A cell without a possible state
    /// ends the scan with its place. A cell with one possible state, or with
    /// rank zero, is decided and passed over. Of several undecided cells of
    /// the same lowest rank the last one is returned.
    pub fn find_lowest_nonzero_entropy_coordinates(&self, ranks: &[u64]) -> (found: Result<
        [usize; 2],
        ModelError,
    >)
        requires
            self.wf(),
            ranks@.len() == self.cells().len(),
        ensures
            match found {
                Ok(at) => {
                    &&& at[0] < self.rows()
                    &&& at[1] < self.cols()
                    &&& is_lowest_undecided(self.cells(), ranks@, at[0] * self.cols() + at[1])
                    &&& forall|j: int| !is_contradiction(self.cells(), j)
                },
                Err(ModelError::NoValidStates(index)) => {
                    &&& is_contradiction(self.cells(), index as int)
                    &&& forall|j: int| 0 <= j < index ==> !is_contradiction(self.cells(), j)
                },
                Err(ModelError::AllStatesDecided) => {
                    &&& forall|j: int| !is_contradiction(self.cells(), j)
                    &&& forall|j: int| !is_undecided(self.cells(), ranks@, j)
                },
            },
    {
        let count: usize = self.model.len();
        let mut output: Option<usize> = None;
        let mut index: usize = 0;
        while index < count
            invariant
                self.wf(),
                index <= count,
                count == self.cells().len(),
                ranks@.len() == count,
                forall|j: int| 0 <= j < index ==> !is_contradiction(self.cells(), j),
                match output {
                    None => forall|j: int|
                        0 <= j < index ==> !is_undecided(self.cells(), ranks@, j),
                    Some(best) => {
                        &&& best < index
                        &&& is_undecided(self.cells(), ranks@, best as int)
                        &&& forall|j: int|
                            0 <= j < index && #[trigger] is_undecided(self.cells(), ranks@, j)
                                ==> ranks@[best as int] <= ranks@[j] && (best < j
                                ==> ranks@[best as int] < ranks@[j])
                    },
                },
            decreases count - index,
        {
            let cell = &self.model[index];
            match cell.entropy(self.states.as_slice()) {
                None => {
                    return Err(ModelError::NoValidStates(index));
                },
                Some(Entropy::Zero) => {},
                Some(Entropy::Shannon { .. }) => {
                    let rank: u64 = ranks[index];
                    if rank != 0 {
                        match output {
                            None => {
                                output = Some(index);
                            },
                            Some(best) => {
                                if rank <= ranks[best] {
                                    output = Some(index);
                                }
                            },
                        }
                    }
                },
            }
            index += 1;
        }
        match output {
            None => Err(ModelError::AllStatesDecided),
            Some(best) => {
                proof {
                    let b = best as int;
                    let w = self.width as int;
                    let h = self.height as int;
                    assert(w > 0) by (nonlinear_arith)
                        requires
                            0 <= b < h * w,
                            0 <= w,
                    ;
                    vstd::arithmetic::div_mod::lemma_fundamental_div_mod(b, w);
                    vstd::arithmetic::div_mod::lemma_mod_bound(b, w);
                    assert(w * (b / w) == (b / w) * w) by (nonlinear_arith);
                    assert(0 <= b / w < h) by (nonlinear_arith)
                        requires
                            0 <= b < h * w,
                            0 < w,
                            b == (b / w) * w + b % w,
                            0 <= b % w < w,
                    ;
                }
                Ok([best / self.width, best % self.width])
            },
        }
    }

    /// The place of a cell in the row-major order of the cells.
    fn index_of(&self, row: usize, col: usize) -> (index: usize)
        requires
            self.wf(),
            row < self.rows(),
            col < self.cols(),
        ensures
            index == row * self.cols() + col,
            index < self.cells().len(),
    {
        let count: usize = self.model.len();
        proof {
            lemma_cell_index(row as int, col as int, self.height as int, self.width as int);
            assert(0 <= row * self.width) by (nonlinear_arith)
                requires
                    0 <= row,
                    0 <= self.width,
            ;
        }
        row * self.width + col
    }

    /// Chooses, for the cell in the given row and column, one of its
    /// possible states at random, each with a probability in proportion to
    /// its count, and leaves it as the only possible state. No other cell
    /// changes.
    pub fn collapse_cell(&mut self, row: usize, col: usize)
        requires
            old(self).wf(),
            row < old(self).rows(),
            col < old(self).cols(),
            old(self).cells()[row * old(self).cols() + col].remaining() > 0,
        ensures
            final(self).wf(),
            final(self).rows() == old(self).rows(),
            final(self).cols() == old(self).cols(),
            final(self).block_shape() == old(self).block_shape(),
            final(self).palette_colors() == old(self).palette_colors(),
            final(self).state_table() == old(self).state_table(),
            final(self).cells().len() == old(self).cells().len(),
            forall|i: int|
                0 <= i < old(self).cells().len() && i != row * old(self).cols() + col
                    ==> final(self).cells()[i] == old(self).cells()[i],
            ({
                let before = old(self).cells()[row * old(self).cols() + col];
                let after = final(self).cells()[row * old(self).cols() + col];
                &&& after.remaining() == 1
                &&& after.states().len() == before.states().len()
                &&& after.possible_colors == before.possible_colors
                &&& forall|i: int|
                    0 <= i < after.states().len() && after.states()[i] ==> before.states()[i]
            }),
    {
        let at: usize = self.index_of(row, col);
        proof {
            let mask = self.model@[at as int].states();
            lemma_masked_weight_within(self.states@, mask, self.states@.len() as int);
            assert(mask.take(mask.len() as int) =~= mask);
        }
        self.model[at].collapse(self.states.as_slice());
    }

    /// The number of rows and of columns of cells.
    pub fn dims(&self) -> (dims: (usize, usize))
        ensures
            dims.0 == self.rows(),
            dims.1 == self.cols(),
    {
        (self.height, self.width)
    }

    /// The width and the height of a block.
    pub fn block_dims(&self) -> (dims: (usize, usize))
        ensures
            dims == self.block_shape(),
    {
        self.block_dims
    }

    /// The palette of the seed image.
    pub fn palette(&self) -> (palette: &Vec<RGB>)
        ensures
            palette@ == self.palette_colors(),
    {
        &self.palette
    }

    /// The state table of the seed image.
    pub fn states(&self) -> (states: &Vec<(PixelGrid, usize)>)
        ensures
            states@ == self.state_table(),
    {
        &self.states
    }

    /// The cell in the given row and column, if there is one.
    pub fn cell(&self, row: usize, col: usize) -> (cell: Option<&UncertainCell>)
        requires
            self.wf(),
        ensures
            match cell {
                Some(found) => row < self.rows() && col < self.cols() && *found
                    == self.cells()[row * self.cols() + col],
                None => row >= self.rows() || col >= self.cols(),
            },
    {
        if row < self.height && col < self.width {
            let at: usize = self.index_of(row, col);
            Some(&self.model[at])
        } else {
            None
        }
    }

    /// Puts `cell` in the given row and column. No other cell changes.
    pub fn set_cell(&mut self, row: usize, col: usize, cell: UncertainCell)
        requires
            old(self).wf(),
            row < old(self).rows(),
            col < old(self).cols(),
            cell.colors().len() == old(self).palette_colors().len(),
            cell.states().len() == old(self).state_table().len(),
        ensures
            final(self).wf(),
            final(self).rows() == old(self).rows(),
            final(self).cols() == old(self).cols(),
            final(self).block_shape() == old(self).block_shape(),
            final(self).palette_colors() == old(self).palette_colors(),
            final(self).state_table() == old(self).state_table(),
            final(self).cells() == old(self).cells().update(row * old(self).cols() + col, cell),
    {
        let at: usize = self.index_of(row, col);
        self.model[at] = cell;
    }
}

} // verus!
