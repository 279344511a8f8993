//! Rectangular grids of colours, held in an `ndarray::Array2`.
//!
//! The array is opaque to Verus. Its shape and its cells are named by
//! [`grid_shape`] and [`grid_cells`], and every array method that the library
//! calls is reached through one of the small private functions below, whose
//! contract is taken from the array's own source and is not proved here.

use vstd::prelude::*;
use ndarray::{Array2, Axis};
use crate::sourceimage::RGB;

verus! {

/// A grid of colours with a number of rows and of columns.
///
/// The grid is an `ndarray::Array2`. The array type is defined with a bound
/// on a trait of its crate and cannot be declared to Verus, so this struct
/// hides it: Verus knows of a grid what [`grid_shape`] and [`grid_cells`]
/// say, and no more.
#[verifier::external_body]
#[derive(Debug)]
pub struct PixelGrid {
    cells: Array2<RGB>,
}

/// The number of rows and of columns of a grid.
pub uninterp spec fn grid_shape(grid: PixelGrid) -> (nat, nat);

/// The cells of a grid, row after row, each row from its first column on.
pub uninterp spec fn grid_cells(grid: PixelGrid) -> Seq<RGB>;

/// A grid as a mathematical value.
pub struct GridView {
    pub rows: nat,
    pub cols: nat,
    pub cells: Seq<RGB>,
}

impl GridView {
    /// The cells fill the shape exactly.
    pub open spec fn wf(self) -> bool {
        self.cells.len() == self.rows * self.cols
    }

    /// The cell in the given row and column.
    pub open spec fn at(self, row: int, col: int) -> RGB {
        self.cells[row * self.cols + col]
    }

    /// How many window origins there are along an axis of length `len` for a
    /// window of length `size`.
    pub open spec fn span(len: nat, size: nat) -> nat {
        if len < size {
            0
        } else {
            (len - size + 1) as nat
        }
    }

    /// The window of `height` rows and `width` columns whose first cell is in
    /// the given row and column.
    pub open spec fn window(self, row: int, col: int, height: nat, width: nat) -> GridView {
        GridView {
            rows: height,
            cols: width,
            cells: Seq::new(
                height * width,
                |k: int| self.at(row + k / (width as int), col + k % (width as int)),
            ),
        }
    }

    /// Every window of the given size that lies within the grid, by origin:
    /// row after row, each row from its first column on.
    pub open spec fn windows(self, height: nat, width: nat) -> Seq<GridView> {
        let across = Self::span(self.cols, width);
        Seq::new(
            Self::span(self.rows, height) * across,
            |k: int| self.window(k / (across as int), k % (across as int), height, width),
        )
    }

    /// The grid with rows and columns exchanged.
    pub open spec fn transposed(self) -> GridView {
        GridView {
            rows: self.cols,
            cols: self.rows,
            cells: Seq::new(
                self.cols * self.rows,
                |k: int| self.at(k % (self.rows as int), k / (self.rows as int)),
            ),
        }
    }

    /// The grid with each of its rows reversed.
    pub open spec fn mirrored(self) -> GridView {
        GridView {
            rows: self.rows,
            cols: self.cols,
            cells: Seq::new(
                self.rows * self.cols,
                |k: int| self.at(k / (self.cols as int), self.cols - 1 - k % (self.cols as int)),
            ),
        }
    }

    /// The grid turned a quarter turn clockwise: its first row becomes the
    /// last column.
    pub open spec fn rotated(self) -> GridView {
        GridView {
            rows: self.cols,
            cols: self.rows,
            cells: Seq::new(
                self.cols * self.rows,
                |k: int| self.at(self.rows - 1 - k % (self.rows as int), k / (self.rows as int)),
            ),
        }
    }
}

/// A shape and cells as one value.
pub open spec fn as_view(shape: (nat, nat), cells: Seq<RGB>) -> GridView {
    GridView { rows: shape.0, cols: shape.1, cells }
}

impl View for PixelGrid {
    type V = GridView;

    open spec fn view(&self) -> GridView {
        as_view(grid_shape(*self), grid_cells(*self))
    }
}

/// The grids of a sequence as mathematical values.
pub open spec fn views(grids: Seq<PixelGrid>) -> Seq<GridView> {
    Seq::new(grids.len(), |i: int| grids[i]@)
}

/// Whether an array of this shape can exist: the product of its axis
/// lengths, zero-length axes left out, is at most `isize::MAX`.
pub open spec fn shape_fits(rows: nat, cols: nat) -> bool {
    (if rows == 0 { 1 } else { rows as int }) * (if cols == 0 { 1 } else { cols as int })
        <= isize::MAX
}

/// `Array2::from_shape_vec` with a `(rows, cols)` shape: the array whose
/// rows are the consecutive runs of `cols` items of the vector. It fails
/// exactly when the vector's length is not `rows * cols` or no array of
/// that shape can exist.
#[verifier::external_body]
fn grid_from_shape_vec(rows: usize, cols: usize, cells: Vec<RGB>) -> (grid: Option<PixelGrid>)
    ensures
        grid.is_some() <==> (cells@.len() == rows * cols && shape_fits(rows as nat, cols as nat)),
        grid matches Some(g) ==> grid_shape(g) == (rows as nat, cols as nat) && grid_cells(g)
            == cells@,
{
    match Array2::from_shape_vec((rows, cols), cells) {
        Ok(array) => Some(PixelGrid { cells: array }),
        Err(_) => None,
    }
}

/// `ArrayBase::dim`: the number of rows and of columns. An array holds as
/// many cells as its shape says.
#[verifier::external_body]
fn grid_dim(grid: &PixelGrid) -> (dim: (usize, usize))
    ensures
        (dim.0 as nat, dim.1 as nat) == grid_shape(*grid),
        grid_cells(*grid).len() == dim.0 * dim.1,
{
    grid.cells.dim()
}

/// Indexing an array by `[row, col]`: the cell at that place, rows counted
/// first. The array panics on an index outside its shape, so such an index
/// is not admitted.
#[verifier::external_body]
fn grid_at(grid: &PixelGrid, row: usize, col: usize) -> (cell: RGB)
    requires
        row < grid_shape(*grid).0,
        col < grid_shape(*grid).1,
    ensures
        cell == grid_cells(*grid)[row * grid_shape(*grid).1 + col],
{
    grid.cells[[row, col]]
}

/// `ArrayBase::iter`, collected: the cells in the array's logical order, the
/// column index varying fastest.
#[verifier::external_body]
fn grid_to_vec(grid: &PixelGrid) -> (cells: Vec<RGB>)
    ensures
        cells@ == grid_cells(*grid),
{
    grid.cells.iter().cloned().collect()
}

/// `ArrayBase::windows` with a `(height, width)` window, each window copied
/// into a grid of its own: all windows of that size that fit into the array,
/// by origin in logical order, and none where the window is larger than the
/// array along an axis. The array panics on a window with a zero-length
/// axis, so such a window is not admitted.
#[verifier::external_body]
fn grid_windows(grid: &PixelGrid, height: usize, width: usize) -> (windows: Vec<PixelGrid>)
    requires
        height > 0,
        width > 0,
    ensures
        windows@.len() == as_view(grid_shape(*grid), grid_cells(*grid)).windows(
            height as nat,
            width as nat,
        ).len(),
        forall|k: int|
            0 <= k < windows@.len() ==> as_view(
                grid_shape(#[trigger] windows@[k]),
                grid_cells(windows@[k]),
            ) == as_view(grid_shape(*grid), grid_cells(*grid)).windows(
                height as nat,
                width as nat,
            )[k],
{
    grid.cells.windows((height, width)).into_iter().map(
        |window| PixelGrid { cells: window.to_owned() },
    ).collect()
}

/// `ArrayBase::t`, copied into a grid of its own: the array with its two
/// axes exchanged.
#[verifier::external_body]
pub(crate) fn grid_transposed(grid: &PixelGrid) -> (turned: PixelGrid)
    ensures
        as_view(grid_shape(turned), grid_cells(turned)) == as_view(
            grid_shape(*grid),
            grid_cells(*grid),
        ).transposed(),
{
    PixelGrid { cells: grid.cells.t().to_owned() }
}

/// `ArrayBase::invert_axis` on the second axis: each row of the array is
/// reversed, and the shape stays.
#[verifier::external_body]
pub(crate) fn grid_invert_rows(grid: &mut PixelGrid)
    ensures
        as_view(grid_shape(*final(grid)), grid_cells(*final(grid))) == as_view(
            grid_shape(*old(grid)),
            grid_cells(*old(grid)),
        ).mirrored(),
{
    grid.cells.invert_axis(Axis(1))
}

impl PixelGrid {
    /// A grid of `shape.0` rows and `shape.1` columns whose rows are the
    /// consecutive runs of `shape.1` items of `cells`; `None` where the
    /// number of cells is not that of the shape, or the shape is too large
    /// to exist.
    pub fn from_shape_vec(shape: (usize, usize), cells: Vec<RGB>) -> (grid: Option<PixelGrid>)
        ensures
            grid.is_some() <==> (cells@.len() == shape.0 * shape.1 && shape_fits(
                shape.0 as nat,
                shape.1 as nat,
            )),
            grid matches Some(g) ==> g@ == (GridView {
                rows: shape.0 as nat,
                cols: shape.1 as nat,
                cells: cells@,
            }),
    {
        grid_from_shape_vec(shape.0, shape.1, cells)
    }

    /// The number of rows and of columns.
    pub fn dim(&self) -> (dim: (usize, usize))
        ensures
            dim.0 == self@.rows,
            dim.1 == self@.cols,
            self@.wf(),
    {
        grid_dim(self)
    }

    /// The cell in the given row and column, if there is one.
    pub fn get(&self, row: usize, col: usize) -> (cell: Option<RGB>)
        ensures
            cell == if row < self@.rows && col < self@.cols {
                Some(self@.at(row as int, col as int))
            } else {
                None
            },
    {
        let (rows, cols) = grid_dim(self);
        if row < rows && col < cols {
            Some(grid_at(self, row, col))
        } else {
            None
        }
    }

    /// The cells, row after row.
    pub fn to_vec(&self) -> (cells: Vec<RGB>)
        ensures
            cells@ == self@.cells,
    {
        grid_to_vec(self)
    }

    /// Every window of `height` rows and `width` columns that lies within
    /// the grid, by origin, row after row.
    pub fn windows(&self, height: usize, width: usize) -> (windows: Vec<PixelGrid>)
        requires
            height > 0,
            width > 0,
        ensures
            views(windows@) == self@.windows(height as nat, width as nat),
    {
        grid_windows(self, height, width)
    }

    /// Whether two grids have the same shape and the same cells.
    pub fn same_as(&self, other: &PixelGrid) -> (same: bool)
        ensures
            same == (self@ == other@),
    {
        let (rows, cols) = grid_dim(self);
        let (other_rows, other_cols) = grid_dim(other);
        if rows != other_rows || cols != other_cols {
            return false;
        }
        let mut row: usize = 0;
        while row < rows
            invariant
                row <= rows,
                rows == self@.rows == other@.rows,
                cols == self@.cols == other@.cols,
                self@.wf(),
                other@.wf(),
                forall|k: int| 0 <= k < row * cols ==> self@.cells[k] == other@.cells[k],
            decreases rows - row,
        {
            let mut col: usize = 0;
            while col < cols
                invariant
                    row < rows,
                    col <= cols,
                    rows == self@.rows == other@.rows,
                    cols == self@.cols == other@.cols,
                    self@.wf(),
                    other@.wf(),
                    forall|k: int| 0 <= k < row * cols + col ==> self@.cells[k] == other@.cells[k],
                decreases cols - col,
            {
                if grid_at(self, row, col) != grid_at(other, row, col) {
                    return false;
                }
                col += 1;
            }
            assert(row * cols + cols == (row + 1) * cols) by (nonlinear_arith);
            row += 1;
        }
        assert(self@.cells =~= other@.cells);
        true
    }
}

/// The cell in row `i` and column `j` of a window is the cell of the grid
/// that lies `i` rows and `j` columns from the window's first cell.
pub proof fn lemma_window_at(
    grid: GridView,
    row: int,
    col: int,
    height: nat,
    width: nat,
    i: int,
    j: int,
)
    requires
        0 <= i < height,
        0 <= j < width,
    ensures
        grid.window(row, col, height, width).at(i, j) == grid.at(row + i, col + j),
{
    let k = i * width + j;
    lemma_cell_index(i, j, height as int, width as int);
    vstd::arithmetic::div_mod::lemma_fundamental_div_mod_converse(k, width as int, i, j);
}

/// The window at place `i * across + j` of the windows, where `across` is
/// the number of windows in a row, is the one whose first cell is in row `i`
/// and column `j` of the grid.
pub proof fn lemma_windows_at(grid: GridView, height: nat, width: nat, i: int, j: int)
    requires
        0 <= i < GridView::span(grid.rows, height),
        0 <= j < GridView::span(grid.cols, width),
    ensures
        0 <= i * GridView::span(grid.cols, width) + j < grid.windows(height, width).len(),
        grid.windows(height, width)[i * GridView::span(grid.cols, width) + j] == grid.window(
            i,
            j,
            height,
            width,
        ),
{
    let across = GridView::span(grid.cols, width) as int;
    let down = GridView::span(grid.rows, height) as int;
    let k = i * across + j;
    lemma_cell_index(i, j, down, across);
    vstd::arithmetic::div_mod::lemma_fundamental_div_mod_converse(k, across, i, j);
}

/// A grid has one window of its own size: itself.
pub proof fn lemma_whole_grid_window(grid: GridView)
    requires
        grid.wf(),
        grid.rows > 0,
        grid.cols > 0,
    ensures
        grid.windows(grid.rows, grid.cols) == seq![grid],
{
    let windows = grid.windows(grid.rows, grid.cols);
    assert(windows.len() == 1) by (nonlinear_arith)
        requires
            windows.len() == GridView::span(grid.rows, grid.rows) * GridView::span(
                grid.cols,
                grid.cols,
            ),
            GridView::span(grid.rows, grid.rows) == 1,
            GridView::span(grid.cols, grid.cols) == 1,
    ;
    let only = windows[0];
    assert forall|k: int| 0 <= k < grid.cells.len() implies only.cells[k] == grid.cells[k] by {
        vstd::arithmetic::div_mod::lemma_fundamental_div_mod(k, grid.cols as int);
        assert(grid.cols * (k / (grid.cols as int)) == (k / (grid.cols as int)) * grid.cols)
            by (nonlinear_arith);
    }
    assert(only.cells =~= grid.cells);
}

/// The windows of one cell are the cells of the grid, each as a grid of its
/// own.
pub proof fn lemma_unit_windows(grid: GridView, k: int)
    requires
        grid.wf(),
        0 <= k < grid.cells.len(),
    ensures
        grid.windows(1, 1).len() == grid.cells.len(),
        grid.windows(1, 1)[k] == (GridView { rows: 1, cols: 1, cells: seq![grid.cells[k]] }),
{
    let rows = grid.rows as int;
    let cols = grid.cols as int;
    assert(rows > 0 && cols > 0) by (nonlinear_arith)
        requires
            0 <= k < rows * cols,
            0 <= rows,
            0 <= cols,
    ;
    vstd::arithmetic::div_mod::lemma_fundamental_div_mod(k, cols);
    assert(cols * (k / cols) == (k / cols) * cols) by (nonlinear_arith);
    let window = grid.windows(1, 1)[k];
    assert(window.cells =~= seq![grid.cells[k]]);
}

/// The cell in row `i` and column `j` of the turned grid is the cell of the
/// grid in column `i`, counted `j` rows up from the last row.
pub proof fn lemma_rotated_at(grid: GridView, i: int, j: int)
    requires
        0 <= i < grid.cols,
        0 <= j < grid.rows,
    ensures
        grid.rotated().at(i, j) == grid.at(grid.rows - 1 - j, i),
{
    let k = i * grid.rows + j;
    lemma_cell_index(i, j, grid.cols as int, grid.rows as int);
    vstd::arithmetic::div_mod::lemma_fundamental_div_mod_converse(k, grid.rows as int, i, j);
}

/// A quarter turn clockwise is an exchange of rows and columns followed by
/// the reversal of each row.
pub proof fn lemma_rotated_in_two_steps(grid: GridView)
    ensures
        grid.transposed().mirrored() == grid.rotated(),
{
    let flipped = grid.transposed();
    let turned = flipped.mirrored();
    let rows = grid.rows as int;
    let cols = grid.cols as int;
    assert forall|k: int| 0 <= k < cols * rows implies turned.cells[k] == grid.rotated().cells[k] by {
        assert(rows > 0) by (nonlinear_arith)
            requires
                0 <= k < cols * rows,
                0 <= rows,
        ;
        let i = k / rows;
        let j = rows - 1 - k % rows;
        vstd::arithmetic::div_mod::lemma_fundamental_div_mod(k, rows);
        vstd::arithmetic::div_mod::lemma_mod_bound(k, rows);
        assert(rows * i == i * rows) by (nonlinear_arith);
        assert(0 <= i < cols) by (nonlinear_arith)
            requires
                0 <= k < cols * rows,
                0 < rows,
                k == i * rows + k % rows,
                0 <= k % rows < rows,
        ;
        lemma_cell_index(i, j, cols, rows);
        vstd::arithmetic::div_mod::lemma_fundamental_div_mod_converse(i * rows + j, rows, i, j);
        assert(turned.cells[k] == flipped.at(i, j));
        assert(flipped.at(i, j) == grid.at(j, i));
    }
    assert(turned.cells =~= grid.rotated().cells);
}

/// Four quarter turns give the grid back.
pub proof fn lemma_four_turns(grid: GridView)
    requires
        grid.wf(),
    ensures
        grid.rotated().rotated().rotated().rotated() == grid,
{
    let once = grid.rotated();
    let twice = once.rotated();
    let thrice = twice.rotated();
    let back = thrice.rotated();
    assert(grid.cols * grid.rows == grid.rows * grid.cols) by (nonlinear_arith);
    assert forall|k: int| 0 <= k < grid.cells.len() implies back.cells[k] == grid.cells[k] by {
        let rows = grid.rows as int;
        let cols = grid.cols as int;
        assert(cols > 0) by (nonlinear_arith)
            requires
                0 <= k < rows * cols,
                0 <= cols,
        ;
        let i = k / cols;
        let j = k % cols;
        vstd::arithmetic::div_mod::lemma_fundamental_div_mod(k, cols);
        vstd::arithmetic::div_mod::lemma_mod_bound(k, cols);
        assert(cols * i == i * cols) by (nonlinear_arith);
        assert(0 <= i < rows) by (nonlinear_arith)
            requires
                0 <= k < rows * cols,
                0 < cols,
                k == i * cols + j,
                0 <= j < cols,
        ;
        lemma_rotated_at(thrice, i, j);
        lemma_rotated_at(twice, cols - 1 - j, i);
        lemma_rotated_at(once, rows - 1 - i, cols - 1 - j);
        lemma_rotated_at(grid, j, rows - 1 - i);
    }
    assert(back.cells =~= grid.cells);
}

/// The position of a cell in the row-major order lies within the grid.
pub proof fn lemma_cell_index(row: int, col: int, rows: int, cols: int)
    requires
        0 <= row < rows,
        0 <= col < cols,
    ensures
        0 <= row * cols + col < rows * cols,
{
    assert(row * cols + col < rows * cols) by (nonlinear_arith)
        requires
            0 <= row < rows,
            0 <= col < cols,
    {
        assert((row + 1) * cols <= rows * cols);
        assert((row + 1) * cols == row * cols + cols);
    }
    assert(0 <= row * cols) by (nonlinear_arith)
        requires
            0 <= row,
            0 <= cols,
    ;
}

} // verus!
