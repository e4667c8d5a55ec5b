use vstd::prelude::*;
use crate::candidate_set::{mask, CandidateSet};
use crate::errors::{BoardError, Sector};
use crate::board_info::{digit_value, is_digit};
use crate::rules::{
    complete, hidden_singles, in_grid, off_axis, set_cell, sums_ok, sweep_cell, swept_to, Cells,
};
use crate::singles::{begins_with, with_entry, Forced};

verus! {

/// A grid and the error that the work on it ended with, if it did.
pub type Outcome = (Cells, Option<BoardError>);

/// The error of a result, if it is one.
pub open spec fn failure(res: Result<(), BoardError>) -> Option<BoardError> {
    match res {
        Ok(()) => None,
        Err(e) => Some(e),
    }
}

/// Whether step `k` of the sweep that eliminates `v` around `(row, col)`
/// meets a clash: a solved cell off the axes of `(row, col)` that holds
/// `v`.
pub open spec fn clash_at(g: Cells, row: int, col: int, v: int, k: int) -> bool {
    let (r, c) = sweep_cell(row, col, k);
    off_axis(row, col, r, c) && g[r][c].count() <= 1 && g[r][c].has(v)
}

/// The first step from `k` on at which the sweep meets a clash; 27 if it
/// meets none.
pub open spec fn sweep_stop(g: Cells, row: int, col: int, v: int, k: int) -> int
    decreases 27 - k,
{
    if k >= 27 {
        27
    } else if clash_at(g, row, col, v, k) {
        k
    } else {
        sweep_stop(g, row, col, v, k + 1)
    }
}

/// The cells that the first `k` steps of the sweep solve, each with the
/// value left to it, in the order of the sweep.
pub open spec fn sweep_singles(g: Cells, row: int, col: int, v: int, k: int) -> Seq<Forced>
    decreases k,
{
    if k <= 0 {
        Seq::empty()
    } else {
        let prev = sweep_singles(g, row, col, v, k - 1);
        let (r, c) = sweep_cell(row, col, k - 1);
        let cell = swept_to(g, row, col, v, k - 1)[r][c];
        if cell.count() > 1 && cell.stripped(v).count() == 1 {
            with_entry(prev, (r as usize, c as usize), cell.stripped(v).lowest() as u8)
        } else {
            prev
        }
    }
}

/// What eliminating `v` around the solved cell `(row, col)` makes of the
/// grid. The sweep of row, column and box stops at the first clash, with
/// an error that names `(row, col)`; else the elimination goes on from
/// each cell that the sweep solved, in the order of the sweep, and stops
/// at the first error. `fuel` bounds the depth; the number of candidates
/// of the grid is enough.
pub open spec fn propagate(g: Cells, row: int, col: int, v: int, fuel: nat) -> Outcome
    decreases fuel, 0int,
{
    let stop = sweep_stop(g, row, col, v, 0);
    if stop < 27 {
        (
            swept_to(g, row, col, v, stop),
            Some(
                BoardError::InvalidCell {
                    row: row as usize,
                    col: col as usize,
                    from: Sector::Quadrant,
                },
            ),
        )
    } else if fuel == 0 {
        (swept_to(g, row, col, v, 27), None)
    } else {
        propagate_all(
            swept_to(g, row, col, v, 27),
            sweep_singles(g, row, col, v, 27),
            0,
            (fuel - 1) as nat,
        )
    }
}

/// `propagate` from each of the entries `list[i..]` in turn, up to the
/// first error.
pub open spec fn propagate_all(g: Cells, list: Seq<Forced>, i: int, fuel: nat) -> Outcome
    decreases fuel, 1 + list.len() - i,
{
    if i < 0 || i >= list.len() {
        (g, None)
    } else {
        let e = list[i];
        let next = propagate(g, e.0.0 as int, e.0.1 as int, e.1 as int, fuel);
        if next.1 is Some {
            next
        } else {
            propagate_all(next.0, list, i + 1, fuel)
        }
    }
}

/// What assigning `v` to the cell `(row, col)` makes of the grid: nothing,
/// with an error, if `v` is not a candidate of the cell; else the cell
/// holds `v` alone and `v` is eliminated around it.
pub open spec fn assigned(g: Cells, row: int, col: int, v: int, fuel: nat) -> Outcome {
    if !g[row][col].has(v) {
        (
            g,
            Some(
                BoardError::InvalidAssignment {
                    row: row as usize,
                    col: col as usize,
                    value: v as u8,
                },
            ),
        )
    } else {
        propagate(set_cell(g, row, col, CandidateSet(mask(v))), row, col, v, fuel)
    }
}

/// `assigned` for each of the entries `list[j..]` in turn, up to the first
/// error.
pub open spec fn assign_all(g: Cells, list: Seq<Forced>, j: int, fuel: nat) -> Outcome
    decreases list.len() - j,
{
    if j < 0 || j >= list.len() {
        (g, None)
    } else {
        let e = list[j];
        let next = assigned(g, e.0.0 as int, e.0.1 as int, e.1 as int, fuel);
        if next.1 is Some {
            next
        } else {
            assign_all(next.0, list, j + 1, fuel)
        }
    }
}

/// What the passes over the hidden singles make of the grid: each pass
/// assigns the hidden singles of the grid that it starts from, in the
/// order of their discovery; the passes end with the first error, or with
/// a grid that has no hidden single.
pub open spec fn hidden_rounds(g: Cells, fuel: nat) -> Outcome
    decreases fuel,
{
    let found = hidden_singles(g);
    if found.len() == 0 || fuel == 0 {
        (g, None)
    } else {
        let next = assign_all(g, found, 0, fuel);
        if next.1 is Some {
            next
        } else {
            hidden_rounds(next.0, (fuel - 1) as nat)
        }
    }
}

/// The grid in which every value is a candidate of every cell.
pub open spec fn full_grid() -> Cells {
    Seq::new(9, |r: int| Seq::new(9, |c: int| CandidateSet(0x1FF)))
}

/// What assigning the givens among the first `n` characters of `text`
/// makes of the full grid, the character number `i` being for the cell
/// `(i / 9, i % 9)`; the first error ends it.
pub open spec fn placed_to(text: Seq<char>, n: int) -> Outcome
    decreases n,
{
    if n <= 0 {
        (full_grid(), None)
    } else {
        let prev = placed_to(text, n - 1);
        if prev.1 is Some || !is_digit(text[n - 1]) {
            prev
        } else {
            assigned(prev.0, (n - 1) / 9, (n - 1) % 9, digit_value(text[n - 1]), 729)
        }
    }
}

/// After an error no further given is assigned.
pub proof fn lemma_placed_stuck(text: Seq<char>, n: int, m: int)
    requires
        placed_to(text, n).1 is Some,
        n <= m,
    ensures
        placed_to(text, m) == placed_to(text, n),
    decreases m - n,
{
    if n < m {
        lemma_placed_stuck(text, n, m - 1);
    }
}

/// A grid, the guesses that led to it, and the error that the search ended
/// with, if it did.
pub type Search = (Cells, Seq<Forced>, Option<BoardError>);

/// Whether `(r, c)` is the unsolved cell with the fewest candidates, and
/// the first of these row by row.
pub open spec fn is_min_cell(g: Cells, r: int, c: int) -> bool {
    &&& in_grid(r, c)
    &&& g[r][c].count() != 1
    &&& forall|r2: int, c2: int|
        in_grid(r2, c2) && (#[trigger] g[r2][c2]).count() != 1 ==> g[r][c].count()
            <= g[r2][c2].count() && (g[r2][c2].count() == g[r][c].count() ==> r * 9 + c <= r2
            * 9 + c2)
}

/// The unsolved cell with the fewest candidates, the first of these row by
/// row.
pub open spec fn min_cell(g: Cells) -> (int, int) {
    choose|p: (int, int)| is_min_cell(g, p.0, p.1)
}

/// There is one such cell at most.
pub proof fn lemma_min_cell(g: Cells, r: int, c: int)
    requires
        is_min_cell(g, r, c),
    ensures
        min_cell(g) == (r, c),
{
    let p = min_cell(g);
    assert(is_min_cell(g, (r, c).0, (r, c).1));
    assert(is_min_cell(g, p.0, p.1));
    assert(g[p.0][p.1].count() != 1);
    assert(g[r][c].count() != 1);
}

/// What solving makes of the grid: the passes over the hidden singles
/// first; then, if every cell is solved, the check of the sums; else the
/// guesses.
pub open spec fn search(g: Cells, trail: Seq<Forced>, fuel: nat) -> Search
    decreases fuel, 2int, 0int,
{
    let first = hidden_rounds(g, fuel);
    if first.1 is Some {
        (first.0, trail, first.1)
    } else if complete(first.0) {
        (
            first.0,
            trail,
            if sums_ok(first.0) {
                None
            } else {
                Some(BoardError::InvalidBoard)
            },
        )
    } else {
        guessed(first.0, trail, fuel)
    }
}

/// What guessing makes of the grid: the values of the unsolved cell with
/// the fewest candidates are tried in ascending order.
pub open spec fn guessed(g: Cells, trail: Seq<Forced>, fuel: nat) -> Search
    decreases fuel, 1int, 0int,
{
    let (row, col) = min_cell(g);
    tried(g, row, col, g[row][col].values(), 0, trail, fuel)
}

/// What trying the values `values[idx..]` for the cell `(row, col)` makes
/// of the grid: the first value whose assignment succeeds and whose grid
/// is then solved ends the search, with the value added to the guesses;
/// when no value is left, the grid and the guesses are as they were.
pub open spec fn tried(
    g: Cells,
    row: int,
    col: int,
    values: Seq<u8>,
    idx: int,
    trail: Seq<Forced>,
    fuel: nat,
) -> Search
    decreases fuel, 0int, values.len() - idx,
{
    if idx < 0 || idx >= values.len() || fuel == 0 {
        (g, trail, Some(BoardError::NoSolutionFound))
    } else {
        let first = assigned(g, row, col, values[idx] as int, fuel);
        let deeper = search(
            first.0,
            trail.push(((row as usize, col as usize), values[idx])),
            (fuel - 1) as nat,
        );
        if first.1 is None && deeper.2 is None {
            deeper
        } else {
            tried(g, row, col, values, idx + 1, trail, fuel)
        }
    }
}

/// What a search ends with. A failed search leaves the guesses as they
/// were. A successful one ends on a grid of solved cells whose units add
/// up to the checksum, with guesses that begin with the earlier ones: it
/// has added a guess if the passes over the hidden singles left an
/// unsolved cell, and none if they solved every cell.
pub proof fn lemma_search(g: Cells, trail: Seq<Forced>, fuel: nat)
    ensures
        ({
            let first = hidden_rounds(g, fuel);
            let last = search(g, trail, fuel);
            &&& begins_with(last.1, trail)
            &&& last.2 is Some ==> last.1 == trail
            &&& last.2 is None ==> complete(last.0) && sums_ok(last.0) && first.1 is None
            &&& last.2 is None && !complete(first.0) ==> last.1.len() > trail.len()
            &&& first.1 is Some || complete(first.0) ==> last.0 == first.0 && last.1 == trail
        }),
    decreases fuel, 2int, 0int,
{
    let first = hidden_rounds(g, fuel);
    if first.1 is None && !complete(first.0) {
        let (row, col) = min_cell(first.0);
        lemma_tried(first.0, row, col, first.0[row][col].values(), 0, trail, fuel);
    }
}

/// What trying the values of a cell ends with: the grid and the guesses
/// as they were, with `NoSolutionFound`, or a grid of solved cells whose
/// units add up to the checksum, with at least one guess more.
pub proof fn lemma_tried(
    g: Cells,
    row: int,
    col: int,
    values: Seq<u8>,
    idx: int,
    trail: Seq<Forced>,
    fuel: nat,
)
    ensures
        ({
            let last = tried(g, row, col, values, idx, trail, fuel);
            &&& last.2 is Some ==> last == (g, trail, Some(BoardError::NoSolutionFound))
            &&& last.2 is None ==> complete(last.0) && sums_ok(last.0) && begins_with(
                last.1,
                trail,
            ) && last.1.len() > trail.len()
        }),
    decreases fuel, 0int, values.len() - idx,
{
    if !(idx < 0 || idx >= values.len() || fuel == 0) {
        let first = assigned(g, row, col, values[idx] as int, fuel);
        let longer = trail.push(((row as usize, col as usize), values[idx]));
        let deeper = search(first.0, longer, (fuel - 1) as nat);
        lemma_search(first.0, longer, (fuel - 1) as nat);
        if first.1 is None && deeper.2 is None {
            assert forall|i: int| 0 <= i < trail.len() implies deeper.1[i] == trail[i] by {
                assert(longer[i] == trail[i]);
            }
        } else {
            lemma_tried(g, row, col, values, idx + 1, trail, fuel);
        }
    }
}

} // verus!
