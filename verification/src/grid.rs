use vstd::prelude::*;
use ndarray::Array2;
use crate::candidate_set::CandidateSet;

verus! {

/// The rectangle of cells that one box covers: rows `row_start..row_end`,
/// columns `col_start..col_end`.
#[derive(Clone, Copy, Debug, PartialEq, Eq, Structural)]
pub struct BoxRegion {
    pub row_start: usize,
    pub row_end: usize,
    pub col_start: usize,
    pub col_end: usize,
}

impl BoxRegion {
    /// The region of the box in box row `i` and box column `j`, for boxes
    /// of side `box_side`.
    pub open spec fn at(i: int, j: int, box_side: int) -> BoxRegion {
        BoxRegion {
            row_start: (i * box_side) as usize,
            row_end: ((i + 1) * box_side) as usize,
            col_start: (j * box_side) as usize,
            col_end: ((j + 1) * box_side) as usize,
        }
    }

    /// The region of the box in box row `i` and box column `j`.
    pub fn locate(i: usize, j: usize, box_side: usize) -> (r: Self)
        requires
            i < usize::MAX,
            j < usize::MAX,
            (i + 1) * box_side <= usize::MAX,
            (j + 1) * box_side <= usize::MAX,
        ensures
            r == Self::at(i as int, j as int, box_side as int),
    {
        assert(i * box_side <= (i + 1) * box_side) by (nonlinear_arith);
        assert(j * box_side <= (j + 1) * box_side) by (nonlinear_arith);
        Self {
            row_start: i * box_side,
            row_end: (i + 1) * box_side,
            col_start: j * box_side,
            col_end: (j + 1) * box_side,
        }
    }
}

/// The table of box regions that a board of `n` by `n` boxes of side
/// `box_side` has.
pub open spec fn box_table(n: int, box_side: int) -> Seq<Seq<BoxRegion>> {
    Seq::new(n as nat, |i: int| Seq::new(n as nat, |j: int| BoxRegion::at(i, j, box_side)))
}

/// The matrix of candidate sets, kept in an `ndarray::Array2`.
#[verifier::external_body]
pub struct CellGrid {
    cells: Array2<CandidateSet>,
}

/// The candidate sets that a grid holds, row by row.
pub uninterp spec fn grid_cells(g: CellGrid) -> Seq<Seq<CandidateSet>>;

/// The matrix of box regions, kept in an `ndarray::Array2`.
#[verifier::external_body]
pub struct RegionTable {
    regions: Array2<BoxRegion>,
}

/// The regions that a table holds, row by row.
pub uninterp spec fn table_regions(t: RegionTable) -> Seq<Seq<BoxRegion>>;

/// `Array2::from_elem`: a grid of `rows` by `cols` copies of `cell`. The
/// call panics when the product of the axis lengths that are not zero
/// overflows `isize`, so each length is bounded by itself as well.
#[verifier::external_body]
pub(crate) fn grid_filled(rows: usize, cols: usize, cell: CandidateSet) -> (g: CellGrid)
    requires
        rows <= 0x7FFF,
        cols <= 0x7FFF,
        rows * cols <= 0x7FFF,
    ensures
        grid_cells(g) == Seq::new(rows as nat, |i: int| Seq::new(cols as nat, |j: int| cell)),
{
    CellGrid { cells: Array2::from_elem((rows, cols), cell) }
}

/// `Index` with a `(row, col)` pair: the cell at that place. The call
/// panics when the pair is out of bounds.
#[verifier::external_body]
pub(crate) fn grid_get(g: &CellGrid, row: usize, col: usize) -> (cell: CandidateSet)
    requires
        row < grid_cells(*g).len(),
        col < grid_cells(*g)[row as int].len(),
    ensures
        cell == grid_cells(*g)[row as int][col as int],
{
    g.cells[(row, col)]
}

/// `IndexMut` with a `(row, col)` pair: the cell at that place becomes
/// `cell`, every other cell stays. The call panics when the pair is out of
/// bounds.
#[verifier::external_body]
pub(crate) fn grid_set(g: &mut CellGrid, row: usize, col: usize, cell: CandidateSet)
    requires
        row < grid_cells(*old(g)).len(),
        col < grid_cells(*old(g))[row as int].len(),
    ensures
        grid_cells(*final(g)) == grid_cells(*old(g)).update(
            row as int,
            grid_cells(*old(g))[row as int].update(col as int, cell),
        ),
{
    g.cells[(row, col)] = cell;
}

/// `Array2::clone`: a grid with the same cells.
#[verifier::external_body]
pub(crate) fn grid_copy(g: &CellGrid) -> (r: CellGrid)
    ensures
        grid_cells(r) == grid_cells(*g),
{
    CellGrid { cells: g.cells.clone() }
}

/// `Array2::from_shape_fn`: the table of `n` by `n` regions in which the
/// entry at `(i, j)` is what `BoxRegion::locate` gives for `i` and `j`.
/// The call panics when the product of the axis lengths that are not zero
/// overflows `isize`.
#[verifier::external_body]
pub(crate) fn table_built(n: usize, box_side: usize) -> (t: RegionTable)
    requires
        n <= 0x7FFF,
        n * n <= 0x7FFF,
        n * box_side <= usize::MAX,
    ensures
        table_regions(t) == box_table(n as int, box_side as int),
{
    RegionTable {
        regions: Array2::from_shape_fn((n, n), |(i, j)| BoxRegion::locate(i, j, box_side)),
    }
}

/// `Index` with a `(row, col)` pair: the region at that place. The call
/// panics when the pair is out of bounds.
#[verifier::external_body]
pub(crate) fn table_get(t: &RegionTable, i: usize, j: usize) -> (region: BoxRegion)
    requires
        i < table_regions(*t).len(),
        j < table_regions(*t)[i as int].len(),
    ensures
        region == table_regions(*t)[i as int][j as int],
{
    t.regions[(i, j)]
}

} // verus!
