use vstd::prelude::*;
use crate::candidate_set::CandidateSet;
use crate::singles::{distinct_keys, lemma_with_entry, with_entry, Forced};

verus! {

/// The candidate sets of a grid, row by row.
pub type Cells = Seq<Seq<CandidateSet>>;

/// A grid in which every cell holds one value.
pub type Filled = Seq<Seq<int>>;

/// Whether `(r, c)` is a cell of the grid.
pub open spec fn in_grid(r: int, c: int) -> bool {
    0 <= r < 9 && 0 <= c < 9
}

/// Nine rows of nine well-formed candidate sets, none of them empty.
pub open spec fn grid_wf(g: Cells) -> bool {
    &&& g.len() == 9
    &&& forall|r: int| 0 <= r < 9 ==> (#[trigger] g[r]).len() == 9
    &&& forall|r: int, c: int|
        in_grid(r, c) ==> (#[trigger] g[r][c]).wf() && g[r][c].count() >= 1
}

/// The grid `g` with the cell at `(r, c)` replaced by `x`.
pub open spec fn set_cell(g: Cells, r: int, c: int, x: CandidateSet) -> Cells {
    g.update(r, g[r].update(c, x))
}

/// Whether two cells lie in the same box.
pub open spec fn same_box(r1: int, c1: int, r2: int, c2: int) -> bool {
    r1 / 3 == r2 / 3 && c1 / 3 == c2 / 3
}

/// Whether two cells share a row, a column or a box. A cell is its own
/// peer.
pub open spec fn peers(r1: int, c1: int, r2: int, c2: int) -> bool {
    r1 == r2 || c1 == c2 || same_box(r1, c1, r2, c2)
}

/// Whether two cells share neither row nor column.
pub open spec fn off_axis(r1: int, c1: int, r2: int, c2: int) -> bool {
    r1 != r2 && c1 != c2
}

/// The cell number `i` of the unit `u`: the units `0..9` are the rows,
/// `9..18` the columns, `18..27` the boxes, each walked row by row.
pub open spec fn unit_cell(u: int, i: int) -> (int, int) {
    if u < 9 {
        (u, i)
    } else if u < 18 {
        (i, u - 9)
    } else {
        (((u - 18) / 3) * 3 + i / 3, ((u - 18) % 3) * 3 + i % 3)
    }
}

/// The cell that the sweep around `(row, col)` visits as number `k`: the
/// row first, then the column, then the box.
pub open spec fn sweep_cell(row: int, col: int, k: int) -> (int, int) {
    if k < 9 {
        (row, k)
    } else if k < 18 {
        (k - 9, col)
    } else {
        ((row / 3) * 3 + (k - 18) / 3, (col / 3) * 3 + (k - 18) % 3)
    }
}

/// Whether the sweep around `(row, col)` has visited `(r, c)` in its first
/// `k` steps.
pub open spec fn visited(row: int, col: int, k: int, r: int, c: int) -> bool {
    ||| r == row && c < k
    ||| c == col && r < k - 9
    ||| same_box(row, col, r, c) && (r % 3) * 3 + c % 3 < k - 18
}

/// The grid after the first `k` steps of the sweep that eliminates `v`
/// around `(row, col)`.
pub open spec fn swept_to(g: Cells, row: int, col: int, v: int, k: int) -> Cells {
    Seq::new(
        9,
        |r: int|
            Seq::new(
                9,
                |c: int|
                    if visited(row, col, k, r, c) {
                        g[r][c].stripped(v)
                    } else {
                        g[r][c]
                    },
            ),
    )
}

/// Whether a solved cell off the axes of `(row, col)`, among the cells that
/// the first `k` steps of the sweep visit, holds `v`.
pub open spec fn clash_within(g: Cells, row: int, col: int, v: int, k: int) -> bool {
    exists|r: int, c: int|
        in_grid(r, c) && visited(row, col, k, r, c) && off_axis(row, col, r, c) && (
        #[trigger] g[r][c]).count() <= 1 && g[r][c].has(v)
}

/// Every candidate of `b` is a candidate of `a`, cell by cell.
pub open spec fn refines(a: Cells, b: Cells) -> bool {
    forall|r: int, c: int, v: int|
        in_grid(r, c) && #[trigger] b[r][c].has(v) ==> a[r][c].has(v)
}

/// Every cell holds exactly one value.
pub open spec fn complete(g: Cells) -> bool {
    forall|r: int, c: int| in_grid(r, c) ==> (#[trigger] g[r][c]).count() == 1
}

/// The value of the solved cell at `(r, c)` has been eliminated around it:
/// a peer that still holds it is itself solved and shares the row or the
/// column.
pub open spec fn cell_settled(g: Cells, r: int, c: int) -> bool {
    forall|r2: int, c2: int, x: int|
        in_grid(r2, c2) && peers(r, c, r2, c2) && (r2, c2) != (r, c) && g[r][c].has(x)
            && #[trigger] g[r2][c2].has(x) ==> g[r2][c2].count() == 1 && !off_axis(
            r,
            c,
            r2,
            c2,
        )
}

/// Every solved cell is settled.
pub open spec fn settled(g: Cells) -> bool {
    forall|r: int, c: int|
        in_grid(r, c) && g[r][c].count() == 1 ==> #[trigger] cell_settled(g, r, c)
}

/// Every cell that is solved in `b` and was not in `a` is settled in `b`.
pub open spec fn fresh_settled(a: Cells, b: Cells) -> bool {
    forall|r: int, c: int|
        in_grid(r, c) && b[r][c].count() == 1 && a[r][c].count() != 1 ==> #[trigger] cell_settled(
            b,
            r,
            c,
        )
}

/// The solved cell at `(r, c)` and another solved cell of its box, off its
/// axes, hold the same value.
pub open spec fn box_clash(g: Cells, r: int, c: int) -> bool {
    exists|r2: int, c2: int|
        in_grid(r2, c2) && same_box(r, c, r2, c2) && off_axis(r, c, r2, c2) && g[r][c].count()
            == 1 && (#[trigger] g[r2][c2]).count() == 1 && g[r2][c2] == g[r][c]
}

/// The candidates of the first `k` cells, counted row by row.
pub open spec fn total_to(g: Cells, k: int) -> int
    decreases k,
{
    if k <= 0 {
        0
    } else {
        total_to(g, k - 1) + g[(k - 1) / 9][(k - 1) % 9].count()
    }
}

/// The number of candidates that the grid still holds.
pub open spec fn total(g: Cells) -> int {
    total_to(g, 81)
}

/// The sum of the first `n` cells of the unit `u`, each cell counted with
/// the sum of its candidates.
pub open spec fn unit_sum(g: Cells, u: int, n: int) -> int
    decreases n,
{
    if n <= 0 {
        0
    } else {
        unit_sum(g, u, n - 1) + g[unit_cell(u, n - 1).0][unit_cell(u, n - 1).1].sum()
    }
}

/// Every row, column and box adds up to the checksum.
pub open spec fn sums_ok(g: Cells) -> bool {
    forall|u: int| 0 <= u < 27 ==> #[trigger] unit_sum(g, u, 9) == 45
}

/// Among the first `n` cells of the unit `u`, the number of unsolved cells
/// that hold `v`.
pub open spec fn unit_count(g: Cells, u: int, v: int, n: int) -> int
    decreases n,
{
    if n <= 0 {
        0
    } else {
        let cell = g[unit_cell(u, n - 1).0][unit_cell(u, n - 1).1];
        unit_count(g, u, v, n - 1) + (if cell.count() != 1 && cell.has(v) {
            1int
        } else {
            0int
        })
    }
}

/// The first of the cells `i..9` of the unit `u` that is unsolved and
/// holds `v`; 9 if there is none.
pub open spec fn home(g: Cells, u: int, v: int, i: int) -> int
    decreases 9 - i,
{
    if i >= 9 {
        9
    } else if g[unit_cell(u, i).0][unit_cell(u, i).1].count() != 1 && g[unit_cell(u, i).0][unit_cell(
        u,
        i,
    ).1].has(v) {
        i
    } else {
        home(g, u, v, i + 1)
    }
}

pub proof fn lemma_unit_cell(u: int, i: int)
    requires
        0 <= u < 27,
        0 <= i < 9,
    ensures
        in_grid(unit_cell(u, i).0, unit_cell(u, i).1),
{
}

pub proof fn lemma_sweep_cell(row: int, col: int, k: int)
    requires
        in_grid(row, col),
        0 <= k < 27,
    ensures
        in_grid(sweep_cell(row, col, k).0, sweep_cell(row, col, k).1),
        peers(row, col, sweep_cell(row, col, k).0, sweep_cell(row, col, k).1),
        k < 18 ==> !off_axis(row, col, sweep_cell(row, col, k).0, sweep_cell(row, col, k).1),
        off_axis(row, col, sweep_cell(row, col, k).0, sweep_cell(row, col, k).1) ==> !visited(
            row,
            col,
            k,
            sweep_cell(row, col, k).0,
            sweep_cell(row, col, k).1,
        ),
        forall|r: int, c: int|
            in_grid(r, c) ==> (#[trigger] visited(row, col, k + 1, r, c) <==> visited(
                row,
                col,
                k,
                r,
                c,
            ) || (r, c) == sweep_cell(row, col, k)),
{
}

pub proof fn lemma_sweep_ends(row: int, col: int)
    requires
        in_grid(row, col),
    ensures
        forall|r: int, c: int| in_grid(r, c) ==> !#[trigger] visited(row, col, 0, r, c),
        forall|r: int, c: int|
            in_grid(r, c) ==> (#[trigger] visited(row, col, 27, r, c) <==> peers(
                row,
                col,
                r,
                c,
            )),
{
}

/// One step of the sweep strips the cell that it visits.
pub proof fn lemma_sweep_step(g: Cells, row: int, col: int, v: int, k: int)
    requires
        grid_wf(g),
        in_grid(row, col),
        1 <= v <= 9,
        0 <= k < 27,
    ensures
        ({
            let (r, c) = sweep_cell(row, col, k);
            let cur = swept_to(g, row, col, v, k);
            &&& set_cell(cur, r, c, cur[r][c].stripped(v)) == swept_to(g, row, col, v, k + 1)
            &&& off_axis(row, col, r, c) ==> cur[r][c] == g[r][c]
        }),
        swept_to(g, row, col, v, 0) == g,
{
    let (r, c) = sweep_cell(row, col, k);
    let cur = swept_to(g, row, col, v, k);
    let next = swept_to(g, row, col, v, k + 1);
    let step = set_cell(cur, r, c, cur[r][c].stripped(v));
    lemma_sweep_cell(row, col, k);
    lemma_sweep_ends(row, col);
    g[r][c].lemma_stripped(v);
    assert(step.len() == 9);
    assert forall|r2: int| 0 <= r2 < 9 implies #[trigger] step[r2] =~= next[r2] by {
        assert forall|c2: int| 0 <= c2 < 9 implies step[r2][c2] == next[r2][c2] by {
            assert(visited(row, col, k + 1, r2, c2) <==> visited(row, col, k, r2, c2) || (r2, c2)
                == (r, c));
        }
    }
    assert(step =~= next);
    let first = swept_to(g, row, col, v, 0);
    assert forall|r2: int| 0 <= r2 < 9 implies #[trigger] first[r2] =~= g[r2] by {
        assert forall|c2: int| 0 <= c2 < 9 implies first[r2][c2] == g[r2][c2] by {
            assert(!visited(row, col, 0, r2, c2));
        }
    }
    assert(first =~= g);
}

/// A grid within a well-formed grid keeps its solved cells as they are.
pub proof fn lemma_refines_single(a: Cells, b: Cells, r: int, c: int)
    requires
        grid_wf(a),
        grid_wf(b),
        refines(a, b),
        in_grid(r, c),
        a[r][c].count() == 1,
    ensures
        b[r][c] == a[r][c],
{
    assert forall|v: int| #[trigger] b[r][c].has(v) implies a[r][c].has(v) by {}
    b[r][c].lemma_subset(a[r][c]);
}

/// Refinement goes through, and a grid refines itself.
pub proof fn lemma_refines_trans(a: Cells, b: Cells, c: Cells)
    requires
        refines(a, b),
        refines(b, c),
    ensures
        refines(a, c),
        refines(a, a),
{
    assert forall|r: int, k: int, v: int| in_grid(r, k) && #[trigger] c[r][k].has(v) implies a[r][k].has(
        v,
    ) by {
        assert(b[r][k].has(v));
    }
}

/// A settled cell stays settled when the grid loses candidates.
pub proof fn lemma_settled_mono(a: Cells, b: Cells, r: int, c: int)
    requires
        grid_wf(a),
        grid_wf(b),
        refines(a, b),
        in_grid(r, c),
        a[r][c].count() == 1,
        cell_settled(a, r, c),
    ensures
        cell_settled(b, r, c),
        b[r][c] == a[r][c],
{
    lemma_refines_single(a, b, r, c);
    assert forall|r2: int, c2: int, x: int|
        in_grid(r2, c2) && peers(r, c, r2, c2) && (r2, c2) != (r, c) && b[r][c].has(x)
            && #[trigger] b[r2][c2].has(x) implies b[r2][c2].count() == 1 && !off_axis(
        r,
        c,
        r2,
        c2,
    ) by {
        assert(a[r2][c2].has(x));
        lemma_refines_single(a, b, r2, c2);
    }
}

proof fn lemma_total_to(a: Cells, b: Cells, k: int)
    requires
        grid_wf(a),
        grid_wf(b),
        refines(a, b),
        0 <= k <= 81,
    ensures
        total_to(b, k) <= total_to(a, k),
        forall|r: int, c: int|
            in_grid(r, c) && r * 9 + c < k && (#[trigger] b[r][c]).count() < a[r][c].count()
                ==> total_to(b, k) < total_to(a, k),
    decreases k,
{
    if k > 0 {
        lemma_total_to(a, b, k - 1);
        let r0 = (k - 1) / 9;
        let c0 = (k - 1) % 9;
        assert forall|v: int| #[trigger] b[r0][c0].has(v) implies a[r0][c0].has(v) by {}
        b[r0][c0].lemma_subset(a[r0][c0]);
        assert forall|r: int, c: int|
            in_grid(r, c) && r * 9 + c < k && (#[trigger] b[r][c]).count() < a[r][c].count()
            implies total_to(b, k) < total_to(a, k) by {
            if r * 9 + c < k - 1 {
            } else {
                assert(r == r0 && c == c0);
            }
        }
    }
}

/// A grid within another holds no more candidates, and fewer where some
/// cell lost one.
pub proof fn lemma_total(a: Cells, b: Cells)
    requires
        grid_wf(a),
        grid_wf(b),
        refines(a, b),
    ensures
        total(b) <= total(a),
        0 <= total(b),
        forall|r: int, c: int|
            in_grid(r, c) && (#[trigger] b[r][c]).count() < a[r][c].count() ==> total(b) < total(
                a,
            ),
{
    lemma_total_to(a, b, 81);
    lemma_total_nonneg(b, 81);
}

proof fn lemma_total_nonneg(g: Cells, k: int)
    ensures
        0 <= total_to(g, k),
    decreases k,
{
    if k > 0 {
        lemma_total_nonneg(g, k - 1);
    }
}

/// What the whole sweep leaves: a grid within the first one, in which the
/// peers that were unsolved have lost `v`.
pub proof fn lemma_swept(g: Cells, row: int, col: int, v: int, k: int)
    requires
        grid_wf(g),
        in_grid(row, col),
        1 <= v <= 9,
        0 <= k <= 27,
    ensures
        grid_wf(swept_to(g, row, col, v, k)),
        refines(g, swept_to(g, row, col, v, k)),
        forall|r: int, c: int|
            in_grid(r, c) && visited(row, col, k, r, c) && g[r][c].count() > 1 ==> !(
            #[trigger] swept_to(g, row, col, v, k)[r][c]).has(v),
{
    let s = swept_to(g, row, col, v, k);
    assert forall|r: int, c: int| in_grid(r, c) implies (#[trigger] s[r][c]).wf() && s[r][c].count()
        >= 1 && (forall|w: int| s[r][c].has(w) ==> g[r][c].has(w)) && (visited(row, col, k, r, c)
        && g[r][c].count() > 1 ==> !s[r][c].has(v)) by {
        g[r][c].lemma_stripped(v);
    }
    assert forall|r: int, c: int, w: int| in_grid(r, c) && #[trigger] s[r][c].has(w) implies g[r][c].has(
        w,
    ) by {
        assert(s[r][c].wf());
    }
}

/// After a whole sweep without a clash, the cell that it started from is
/// settled.
pub proof fn lemma_swept_settled(g: Cells, row: int, col: int, v: int)
    requires
        grid_wf(g),
        in_grid(row, col),
        1 <= v <= 9,
        g[row][col].count() == 1,
        g[row][col].has(v),
        !clash_within(g, row, col, v, 27),
    ensures
        cell_settled(swept_to(g, row, col, v, 27), row, col),
        swept_to(g, row, col, v, 27)[row][col] == g[row][col],
{
    let s = swept_to(g, row, col, v, 27);
    lemma_swept(g, row, col, v, 27);
    lemma_sweep_ends(row, col);
    lemma_refines_single(g, s, row, col);
    assert forall|r2: int, c2: int, x: int|
        in_grid(r2, c2) && peers(row, col, r2, c2) && (r2, c2) != (row, col) && s[row][col].has(x)
            && #[trigger] s[r2][c2].has(x) implies s[r2][c2].count() == 1 && !off_axis(
        row,
        col,
        r2,
        c2,
    ) by {
        g[row][col].lemma_one(x, v);
        assert(visited(row, col, 27, r2, c2));
        g[r2][c2].lemma_stripped(v);
        assert(s[r2][c2] == g[r2][c2].stripped(v));
        if g[r2][c2].count() > 1 {
            assert(false);
        }
        if off_axis(row, col, r2, c2) {
            assert(g[r2][c2].count() <= 1);
            assert(clash_within(g, row, col, v, 27));
        }
    }
}

/// The forced assignments that the first `k` pairs of a unit and a value
/// give, the units in their order and the values ascending within a unit:
/// a value that exactly one unsolved cell of the unit holds goes to that
/// cell, unless the cell has an entry.
pub open spec fn singles_to(g: Cells, k: int) -> Seq<Forced>
    decreases k,
{
    if k <= 0 {
        Seq::empty()
    } else {
        let prev = singles_to(g, k - 1);
        let u = (k - 1) / 9;
        let v = (k - 1) % 9 + 1;
        let h = home(g, u, v, 0);
        if unit_count(g, u, v, 9) == 1 {
            with_entry(prev, (unit_cell(u, h).0 as usize, unit_cell(u, h).1 as usize), v as u8)
        } else {
            prev
        }
    }
}

/// The hidden singles of the grid, in the order of their discovery.
pub open spec fn hidden_singles(g: Cells) -> Seq<Forced> {
    singles_to(g, 243)
}

/// The entry `e` is a hidden single of the unit `u`: its cell is an
/// unsolved cell of the unit that holds its value, and no other unsolved
/// cell of the unit holds the value.
pub open spec fn forced_in(g: Cells, e: Forced, u: int) -> bool {
    &&& 1 <= e.1 <= 9
    &&& in_grid(e.0.0 as int, e.0.1 as int)
    &&& g[e.0.0 as int][e.0.1 as int].count() != 1
    &&& g[e.0.0 as int][e.0.1 as int].has(e.1 as int)
    &&& exists|h: int| 0 <= h < 9 && #[trigger] unit_cell(u, h) == (e.0.0 as int, e.0.1 as int)
    &&& forall|i: int|
        0 <= i < 9 && #[trigger] unit_cell(u, i) != (e.0.0 as int, e.0.1 as int) ==> !(g[unit_cell(
            u,
            i,
        ).0][unit_cell(u, i).1].count() != 1 && g[unit_cell(u, i).0][unit_cell(u, i).1].has(
            e.1 as int,
        ))
}

/// The entry `e` is a hidden single of some unit.
pub open spec fn hidden(g: Cells, e: Forced) -> bool {
    exists|u: int| 0 <= u < 27 && #[trigger] forced_in(g, e, u)
}

/// Two cells of one unit are peers, and different places of a unit are
/// different cells.
pub proof fn lemma_unit_peers(u: int, i: int, j: int)
    requires
        0 <= u < 27,
        0 <= i < 9,
        0 <= j < 9,
    ensures
        in_grid(unit_cell(u, i).0, unit_cell(u, i).1),
        peers(unit_cell(u, i).0, unit_cell(u, i).1, unit_cell(u, j).0, unit_cell(u, j).1),
        i != j ==> unit_cell(u, i) != unit_cell(u, j),
{
}

/// Where the search for the home of a value ends: at the first cell from
/// `i` on that is unsolved and holds the value.
pub proof fn lemma_home(g: Cells, u: int, v: int, i: int)
    requires
        0 <= i <= 9,
    ensures
        i <= home(g, u, v, i) <= 9,
        home(g, u, v, i) < 9 ==> g[unit_cell(u, home(g, u, v, i)).0][unit_cell(
            u,
            home(g, u, v, i),
        ).1].count() != 1 && g[unit_cell(u, home(g, u, v, i)).0][unit_cell(
            u,
            home(g, u, v, i),
        ).1].has(v),
        forall|j: int|
            i <= j < home(g, u, v, i) ==> !((#[trigger] g[unit_cell(u, j).0][unit_cell(
                u,
                j,
            ).1]).count() != 1 && g[unit_cell(u, j).0][unit_cell(u, j).1].has(v)),
    decreases 9 - i,
{
    let cell = g[unit_cell(u, i).0][unit_cell(u, i).1];
    if i < 9 && !(cell.count() != 1 && cell.has(v)) {
        lemma_home(g, u, v, i + 1);
    }
}

/// In a unit that counts one unsolved cell with `v`, the home of `v` is
/// that cell, and no other unsolved cell of the unit holds `v`.
pub proof fn lemma_home_found(g: Cells, u: int, v: int)
    requires
        unit_count(g, u, v, 9) == 1,
    ensures
        0 <= home(g, u, v, 0) < 9,
        g[unit_cell(u, home(g, u, v, 0)).0][unit_cell(u, home(g, u, v, 0)).1].count() != 1,
        g[unit_cell(u, home(g, u, v, 0)).0][unit_cell(u, home(g, u, v, 0)).1].has(v),
        forall|i: int|
            0 <= i < 9 && i != home(g, u, v, 0) ==> !((#[trigger] g[unit_cell(u, i).0][unit_cell(
                u,
                i,
            ).1]).count() != 1 && g[unit_cell(u, i).0][unit_cell(u, i).1].has(v)),
{
    let h = home(g, u, v, 0);
    let first = lemma_unit_count(g, u, v, 9);
    lemma_home(g, u, v, 0);
    if h > first {
        assert(!(g[unit_cell(u, first).0][unit_cell(u, first).1].count() != 1 && g[unit_cell(
            u,
            first,
        ).0][unit_cell(u, first).1].has(v)));
    }
    assert forall|i: int| 0 <= i < 9 && i != h implies !((#[trigger] g[unit_cell(
        u,
        i,
    ).0][unit_cell(u, i).1]).count() != 1 && g[unit_cell(u, i).0][unit_cell(u, i).1].has(v)) by {
        let cell = g[unit_cell(u, i).0][unit_cell(u, i).1];
        if cell.count() != 1 && cell.has(v) {
            lemma_one_unsolved(g, u, v, 9, i, h);
        }
    }
}

/// A unit that counts an unsolved cell with `v` has such a cell.
pub proof fn lemma_unit_count(g: Cells, u: int, v: int, n: int) -> (i: int)
    requires
        unit_count(g, u, v, n) >= 1,
    ensures
        0 <= i < n,
        g[unit_cell(u, i).0][unit_cell(u, i).1].count() != 1,
        g[unit_cell(u, i).0][unit_cell(u, i).1].has(v),
    decreases n,
{
    let cell = g[unit_cell(u, n - 1).0][unit_cell(u, n - 1).1];
    if n <= 0 {
        0
    } else if cell.count() != 1 && cell.has(v) {
        n - 1
    } else {
        lemma_unit_count(g, u, v, n - 1)
    }
}

/// The count of a unit lies between 0 and the number of cells counted.
pub proof fn lemma_unit_count_bounds(g: Cells, u: int, v: int, n: int)
    requires
        0 <= n,
    ensures
        0 <= unit_count(g, u, v, n) <= n,
    decreases n,
{
    if n > 0 {
        lemma_unit_count_bounds(g, u, v, n - 1);
    }
}

/// Every recorded hidden single is one, lies in the grid, and no cell is
/// recorded twice.
pub proof fn lemma_singles_to(g: Cells, k: int)
    requires
        0 <= k <= 243,
    ensures
        distinct_keys(singles_to(g, k)),
        singles_to(g, k).len() <= k,
        forall|i: int|
            0 <= i < singles_to(g, k).len() ==> hidden(g, #[trigger] singles_to(g, k)[i])
                && in_grid(singles_to(g, k)[i].0.0 as int, singles_to(g, k)[i].0.1 as int),
    decreases k,
{
    if k > 0 {
        lemma_singles_to(g, k - 1);
        let prev = singles_to(g, k - 1);
        let u = (k - 1) / 9;
        let v = (k - 1) % 9 + 1;
        let h = home(g, u, v, 0);
        if unit_count(g, u, v, 9) == 1 {
            lemma_home_found(g, u, v);
            let pos = (unit_cell(u, h).0 as usize, unit_cell(u, h).1 as usize);
            let e: Forced = (pos, v as u8);
            lemma_with_entry(prev, pos, v as u8);
            lemma_unit_cell(u, h);
            assert(unit_cell(u, h) == (e.0.0 as int, e.0.1 as int));
            assert forall|i: int|
                0 <= i < 9 && #[trigger] unit_cell(u, i) != (
                    e.0.0 as int,
                    e.0.1 as int,
                ) implies !(g[unit_cell(u, i).0][unit_cell(u, i).1].count() != 1 && g[unit_cell(
                u,
                i,
            ).0][unit_cell(u, i).1].has(e.1 as int)) by {
                assert(i != h);
            }
            assert(forced_in(g, e, u));
            let cur = singles_to(g, k);
            assert forall|i: int| 0 <= i < cur.len() implies hidden(g, #[trigger] cur[i])
                && in_grid(cur[i].0.0 as int, cur[i].0.1 as int) by {
                if i < prev.len() {
                    assert(cur[i] == prev[i]);
                } else {
                    assert(cur[i] == e);
                }
            }
        }
    }
}

/// Once every solved cell of `a` is settled, a grid within `a` whose newly
/// solved cells are settled has every solved cell settled.
pub proof fn lemma_settled_step(a: Cells, b: Cells)
    requires
        grid_wf(a),
        grid_wf(b),
        refines(a, b),
        settled(a),
        fresh_settled(a, b),
    ensures
        settled(b),
{
    assert forall|r: int, c: int| in_grid(r, c) && b[r][c].count() == 1 implies #[trigger] cell_settled(
        b,
        r,
        c,
    ) by {
        if a[r][c].count() == 1 {
            assert(cell_settled(a, r, c));
            lemma_settled_mono(a, b, r, c);
        }
    }
}

/// A cell that loses a value, or is solved from an unsolved one, leaves
/// the grid with fewer candidates.
pub proof fn lemma_total_drop(a: Cells, b: Cells, r: int, c: int, v: int)
    requires
        grid_wf(a),
        grid_wf(b),
        refines(a, b),
        in_grid(r, c),
        (a[r][c].has(v) && !b[r][c].has(v)) || (a[r][c].count() != 1 && b[r][c].count() == 1),
    ensures
        total(b) < total(a),
{
    assert forall|w: int| #[trigger] b[r][c].has(w) implies a[r][c].has(w) by {}
    b[r][c].lemma_subset(a[r][c]);
    assert(b[r][c].count() < a[r][c].count());
    lemma_total(a, b);
}

/// The rules of the puzzle: nine rows of nine values of `1..=9`, and no
/// value twice in a row, a column or a box.
pub open spec fn is_solution(s: Filled) -> bool {
    &&& s.len() == 9
    &&& forall|r: int| 0 <= r < 9 ==> (#[trigger] s[r]).len() == 9
    &&& forall|r: int, c: int| in_grid(r, c) ==> 1 <= #[trigger] s[r][c] <= 9
    &&& forall|r1: int, c1: int, r2: int, c2: int|
        in_grid(r1, c1) && in_grid(r2, c2) && peers(r1, c1, r2, c2) && (r1, c1) != (r2, c2)
            ==> #[trigger] s[r1][c1] != #[trigger] s[r2][c2]
}

/// The value of every cell of `s` is a candidate of that cell in `g`.
pub open spec fn fits(s: Filled, g: Cells) -> bool {
    forall|r: int, c: int| in_grid(r, c) ==> #[trigger] g[r][c].has(s[r][c])
}

/// Every solution that fits `a` fits `b`.
pub open spec fn keeps(a: Cells, b: Cells) -> bool {
    forall|s: Filled| is_solution(s) && #[trigger] fits(s, a) ==> fits(s, b)
}

/// Every solution that fits `a` and has `v` at `(row, col)` fits `b`.
pub open spec fn keeps_with(a: Cells, b: Cells, row: int, col: int, v: int) -> bool {
    forall|s: Filled| is_solution(s) && #[trigger] fits(s, a) && s[row][col] == v ==> fits(s, b)
}

/// No solution that fits `g` has `v` at `(row, col)`.
pub open spec fn excludes(g: Cells, row: int, col: int, v: int) -> bool {
    forall|s: Filled| is_solution(s) && #[trigger] fits(s, g) ==> s[row][col] != v
}

/// No solution fits `g`.
pub open spec fn unsolvable(g: Cells) -> bool {
    forall|s: Filled| is_solution(s) ==> !#[trigger] fits(s, g)
}

/// The values of the unit `u` of `s`, in the order of the unit.
pub open spec fn unit_values(s: Filled, u: int) -> Seq<int> {
    Seq::new(9, |i: int| s[unit_cell(u, i).0][unit_cell(u, i).1])
}

/// The sum of the values of `a`.
pub open spec fn seq_sum(a: Seq<int>) -> int
    decreases a.len(),
{
    if a.len() == 0 {
        0
    } else {
        seq_sum(a.drop_last()) + a.last()
    }
}

/// Whether `v` is one of the values of `a`.
pub open spec fn occurs(a: Seq<int>, v: int) -> bool {
    exists|i: int| 0 <= i < a.len() && #[trigger] a[i] == v
}

/// No value occurs twice in `a`.
pub open spec fn all_differ(a: Seq<int>) -> bool {
    forall|i: int, j: int| 0 <= i < j < a.len() ==> a[i] != a[j]
}

proof fn lemma_sum_remove(a: Seq<int>, k: int)
    requires
        0 <= k < a.len(),
    ensures
        seq_sum(a) == seq_sum(a.remove(k)) + a[k],
    decreases a.len(),
{
    if k == a.len() - 1 {
        assert(a.remove(k) =~= a.drop_last());
    } else {
        lemma_sum_remove(a.drop_last(), k);
        assert(a.remove(k).drop_last() =~= a.drop_last().remove(k));
        assert(a.remove(k).last() == a.last());
    }
}

/// `n` different values of `1..=n` are all of them, and add up to
/// `n * (n + 1) / 2`.
pub proof fn lemma_all_values(a: Seq<int>, n: int)
    requires
        a.len() == n,
        forall|i: int| 0 <= i < n ==> 1 <= #[trigger] a[i] <= n,
        all_differ(a),
    ensures
        forall|v: int| 1 <= v <= n ==> #[trigger] occurs(a, v),
        2 * seq_sum(a) == n * (n + 1),
    decreases n,
{
    if n > 0 {
        if exists|k: int| 0 <= k < n && a[k] == n {
            let k = choose|k: int| 0 <= k < n && a[k] == n;
            let b = a.remove(k);
            assert forall|i: int| 0 <= i < n - 1 implies 1 <= #[trigger] b[i] <= n - 1 by {
                if i < k {
                    assert(b[i] == a[i]);
                } else {
                    assert(b[i] == a[i + 1]);
                }
            }
            assert forall|i: int, j: int| 0 <= i < j < b.len() implies b[i] != b[j] by {
                let i2 = if i < k {
                    i
                } else {
                    i + 1
                };
                let j2 = if j < k {
                    j
                } else {
                    j + 1
                };
                assert(b[i] == a[i2] && b[j] == a[j2]);
            }
            lemma_all_values(b, n - 1);
            lemma_sum_remove(a, k);
            assert(2 * seq_sum(a) == n * (n + 1)) by (nonlinear_arith)
                requires
                    2 * seq_sum(b) == (n - 1) * n,
                    seq_sum(a) == seq_sum(b) + n,
            ;
            assert forall|v: int| 1 <= v <= n implies #[trigger] occurs(a, v) by {
                if v == n {
                    assert(a[k] == v);
                } else {
                    assert(occurs(b, v));
                    let i = choose|i: int| 0 <= i < n - 1 && #[trigger] b[i] == v;
                    if i < k {
                        assert(a[i] == v);
                    } else {
                        assert(a[i + 1] == v);
                    }
                }
            }
        } else {
            let b = a.drop_last();
            assert forall|i: int| 0 <= i < n - 1 implies 1 <= #[trigger] b[i] <= n - 1 by {
                assert(b[i] == a[i]);
            }
            assert forall|i: int, j: int| 0 <= i < j < b.len() implies b[i] != b[j] by {
                assert(b[i] == a[i] && b[j] == a[j]);
            }
            lemma_all_values(b, n - 1);
            let last = a[n - 1];
            assert(1 <= last <= n - 1);
            assert(occurs(b, last));
            let i = choose|i: int| 0 <= i < n - 1 && #[trigger] b[i] == last;
            assert(a[i] == last);
            assert(false);
        }
    }
}

/// In a solution, every row, column and box holds each of `1..=9` exactly
/// once, and its values add up to 45.
pub proof fn lemma_solution_units(s: Filled, u: int)
    requires
        is_solution(s),
        0 <= u < 27,
    ensures
        forall|v: int| 1 <= v <= 9 ==> #[trigger] occurs(unit_values(s, u), v),
        all_differ(unit_values(s, u)),
        seq_sum(unit_values(s, u)) == 45,
{
    let a = unit_values(s, u);
    assert forall|i: int| 0 <= i < 9 implies 1 <= #[trigger] a[i] <= 9 by {
        lemma_unit_cell(u, i);
    }
    assert forall|i: int, j: int| 0 <= i < j < a.len() implies a[i] != a[j] by {
        lemma_unit_peers(u, i, j);
        lemma_unit_peers(u, j, i);
        let p = unit_cell(u, i);
        let q = unit_cell(u, j);
        assert(s[p.0][p.1] != s[q.0][q.1]);
    }
    lemma_all_values(a, 9);
}

proof fn lemma_unit_sum(s: Filled, g: Cells, u: int, n: int)
    requires
        is_solution(s),
        grid_wf(g),
        complete(g),
        fits(s, g),
        0 <= u < 27,
        0 <= n <= 9,
    ensures
        unit_sum(g, u, n) == seq_sum(unit_values(s, u).take(n)),
    decreases n,
{
    let a = unit_values(s, u);
    if n > 0 {
        lemma_unit_sum(s, g, u, n - 1);
        lemma_unit_cell(u, n - 1);
        let p = unit_cell(u, n - 1);
        assert(g[p.0][p.1].has(s[p.0][p.1]));
        g[p.0][p.1].lemma_single(s[p.0][p.1]);
        assert(a.take(n).drop_last() =~= a.take(n - 1));
        assert(a.take(n).last() == s[p.0][p.1]);
    }
}

/// A grid of solved cells that a solution fits passes the integrity
/// check: every unit adds up to the checksum.
pub proof fn lemma_solution_sums(s: Filled, g: Cells)
    requires
        is_solution(s),
        grid_wf(g),
        complete(g),
        fits(s, g),
    ensures
        sums_ok(g),
{
    assert forall|u: int| 0 <= u < 27 implies #[trigger] unit_sum(g, u, 9) == 45 by {
        lemma_unit_sum(s, g, u, 9);
        lemma_solution_units(s, u);
        assert(unit_values(s, u).take(9) =~= unit_values(s, u));
    }
}

/// Solutions are kept along a chain of grids, and by a grid itself.
pub proof fn lemma_keeps_trans(a: Cells, b: Cells, c: Cells)
    requires
        keeps(a, b),
        keeps(b, c),
    ensures
        keeps(a, c),
        keeps(a, a),
{
    assert forall|s: Filled| is_solution(s) && #[trigger] fits(s, a) implies fits(s, c) by {
        assert(fits(s, b));
    }
}

/// A grid that keeps the solutions of another and has none shows that the
/// other has none.
pub proof fn lemma_keeps_unsolvable(a: Cells, b: Cells)
    requires
        keeps(a, b),
        unsolvable(b),
    ensures
        unsolvable(a),
{
    assert forall|s: Filled| is_solution(s) implies !#[trigger] fits(s, a) by {
        if fits(s, a) {
            assert(fits(s, b));
        }
    }
}

/// The sweep around a solved cell keeps every solution: no solution has
/// the value of the cell at one of its peers.
pub proof fn lemma_swept_keeps(g: Cells, row: int, col: int, v: int, k: int)
    requires
        grid_wf(g),
        in_grid(row, col),
        1 <= v <= 9,
        0 <= k <= 27,
        g[row][col].count() == 1,
        g[row][col].has(v),
    ensures
        keeps(g, swept_to(g, row, col, v, k)),
        clash_within(g, row, col, v, k) ==> unsolvable(g),
{
    let w = swept_to(g, row, col, v, k);
    assert forall|s: Filled| is_solution(s) && #[trigger] fits(s, g) implies fits(s, w) by {
        assert(g[row][col].has(s[row][col]));
        g[row][col].lemma_one(s[row][col], v);
        assert forall|r: int, c: int| in_grid(r, c) implies #[trigger] w[r][c].has(s[r][c]) by {
            assert(g[r][c].has(s[r][c]));
            g[r][c].lemma_stripped(v);
            if visited(row, col, k, r, c) && (r, c) != (row, col) {
                assert(peers(row, col, r, c));
                assert(s[row][col] != s[r][c]);
            }
        }
    }
    if clash_within(g, row, col, v, k) {
        let (r, c) = choose|r: int, c: int|
            in_grid(r, c) && visited(row, col, k, r, c) && off_axis(row, col, r, c) && (
            #[trigger] g[r][c]).count() <= 1 && g[r][c].has(v);
        assert forall|s: Filled| is_solution(s) implies !#[trigger] fits(s, g) by {
            if fits(s, g) {
                assert(g[row][col].has(s[row][col]));
                g[row][col].lemma_one(s[row][col], v);
                assert(g[r][c].has(s[r][c]));
                g[r][c].lemma_one(s[r][c], v);
                assert(peers(row, col, r, c));
                assert(s[row][col] != s[r][c]);
            }
        }
    }
}

/// In a settled grid a hidden single is forced: every solution that fits
/// the grid has the value of the entry at its cell.
pub proof fn lemma_hidden_forced(g: Cells, e: Forced, s: Filled)
    requires
        grid_wf(g),
        settled(g),
        hidden(g, e),
        is_solution(s),
        fits(s, g),
    ensures
        s[e.0.0 as int][e.0.1 as int] == e.1,
{
    let u = choose|u: int| 0 <= u < 27 && #[trigger] forced_in(g, e, u);
    let v = e.1 as int;
    let r = e.0.0 as int;
    let c = e.0.1 as int;
    let h = choose|h: int| 0 <= h < 9 && #[trigger] unit_cell(u, h) == (r, c);
    // where the solution has the value in the unit
    lemma_solution_units(s, u);
    assert(occurs(unit_values(s, u), v));
    let t = choose|t: int| 0 <= t < 9 && #[trigger] unit_values(s, u)[t] == v;
    let p = unit_cell(u, t);
    lemma_unit_peers(u, t, h);
    assert(s[p.0][p.1] == v);
    assert(g[p.0][p.1].has(v));
    if p != (r, c) {
        // a solved cell with the value would have taken it from the unsolved one
        assert(unit_cell(u, t) != (r, c));
        assert(g[p.0][p.1].count() == 1);
        assert(cell_settled(g, p.0, p.1));
        assert(g[r][c].has(v));
        assert(false);
    }
}

/// A unit that counts one unsolved cell with `v` has no two of them.
proof fn lemma_one_unsolved(g: Cells, u: int, v: int, n: int, i: int, j: int)
    requires
        unit_count(g, u, v, n) == 1,
        0 <= i < n,
        0 <= j < n,
        g[unit_cell(u, i).0][unit_cell(u, i).1].count() != 1,
        g[unit_cell(u, i).0][unit_cell(u, i).1].has(v),
        g[unit_cell(u, j).0][unit_cell(u, j).1].count() != 1,
        g[unit_cell(u, j).0][unit_cell(u, j).1].has(v),
    ensures
        i == j,
    decreases n,
{
    lemma_unit_count_bounds(g, u, v, n - 1);
    if i == n - 1 && j == n - 1 {
    } else if i == n - 1 {
        lemma_unit_count_zero(g, u, v, n - 1, j);
    } else if j == n - 1 {
        lemma_unit_count_zero(g, u, v, n - 1, i);
    } else if unit_count(g, u, v, n - 1) == 0 {
        lemma_unit_count_zero(g, u, v, n - 1, i);
    } else {
        lemma_one_unsolved(g, u, v, n - 1, i, j);
    }
}

proof fn lemma_unit_count_zero(g: Cells, u: int, v: int, n: int, i: int)
    requires
        unit_count(g, u, v, n) == 0,
        0 <= i < n,
    ensures
        !(g[unit_cell(u, i).0][unit_cell(u, i).1].count() != 1 && g[unit_cell(u, i).0][unit_cell(
            u,
            i,
        ).1].has(v)),
    decreases n,
{
    lemma_unit_count_bounds(g, u, v, n - 1);
    if i < n - 1 {
        lemma_unit_count_zero(g, u, v, n - 1, i);
    }
}

/// A solution that fits a grid fits every grid that the grid refines.
pub proof fn lemma_fits_wider(s: Filled, a: Cells, b: Cells)
    requires
        refines(a, b),
        fits(s, b),
    ensures
        fits(s, a),
{
    assert forall|r: int, c: int| in_grid(r, c) implies #[trigger] a[r][c].has(s[r][c]) by {
        assert(b[r][c].has(s[r][c]));
    }
}

/// Assigning a hidden single of the settled grid `first` in a grid `pre`
/// within it loses no solution; if the assignment cannot be made, `pre`
/// has no solution.
pub proof fn lemma_forced_step(first: Cells, pre: Cells, post: Cells, e: Forced)
    requires
        grid_wf(first),
        settled(first),
        hidden(first, e),
        refines(first, pre),
    ensures
        keeps_with(pre, post, e.0.0 as int, e.0.1 as int, e.1 as int) ==> keeps(pre, post),
        excludes(pre, e.0.0 as int, e.0.1 as int, e.1 as int) ==> unsolvable(pre),
{
    assert forall|s: Filled| is_solution(s) && #[trigger] fits(s, pre) implies s[e.0.0 as int][e.0.1 as int]
        == e.1 by {
        lemma_fits_wider(s, first, pre);
        lemma_hidden_forced(first, e, s);
    }
}

/// A guess whose grid has no solution excludes the guessed value.
pub proof fn lemma_failed_guess(a: Cells, b: Cells, row: int, col: int, v: int)
    requires
        keeps_with(a, b, row, col, v),
        unsolvable(b),
    ensures
        excludes(a, row, col, v),
{
    assert forall|s: Filled| is_solution(s) && #[trigger] fits(s, a) implies s[row][col] != v by {
        if s[row][col] == v {
            assert(fits(s, b));
        }
    }
}

/// A grid of solved cells that fails the integrity check has no solution.
pub proof fn lemma_bad_sums(g: Cells)
    requires
        grid_wf(g),
        complete(g),
        !sums_ok(g),
    ensures
        unsolvable(g),
{
    assert forall|s: Filled| is_solution(s) implies !#[trigger] fits(s, g) by {
        if fits(s, g) {
            lemma_solution_sums(s, g);
        }
    }
}

/// A cell all of whose values are excluded leaves the grid without a
/// solution.
pub proof fn lemma_all_excluded(g: Cells, row: int, col: int)
    requires
        in_grid(row, col),
        forall|v: int| g[row][col].has(v) ==> #[trigger] excludes(g, row, col, v),
    ensures
        unsolvable(g),
{
    assert forall|s: Filled| is_solution(s) implies !#[trigger] fits(s, g) by {
        if fits(s, g) {
            assert(g[row][col].has(s[row][col]));
            assert(excludes(g, row, col, s[row][col]));
        }
    }
}

proof fn lemma_total_range(g: Cells, k: int)
    requires
        grid_wf(g),
        0 <= k <= 81,
    ensures
        k <= total_to(g, k) <= 9 * k,
    decreases k,
{
    if k > 0 {
        lemma_total_range(g, k - 1);
        g[(k - 1) / 9][(k - 1) % 9].lemma_count();
    }
}

/// A well-formed grid holds at least one candidate and at most nine for
/// each of its 81 cells.
pub proof fn lemma_total_bounds(g: Cells)
    requires
        grid_wf(g),
    ensures
        81 <= total(g) <= 729,
{
    lemma_total_range(g, 81);
}

/// No two solved cells of a row, a column or a box hold the same value.
pub open spec fn no_repeats(g: Cells) -> bool {
    forall|r1: int, c1: int, r2: int, c2: int|
        in_grid(r1, c1) && in_grid(r2, c2) && peers(r1, c1, r2, c2) && (r1, c1) != (r2, c2)
            ==> #[trigger] g[r1][c1] != #[trigger] g[r2][c2]
}

/// The values of a grid of solved cells.
pub open spec fn values_of(g: Cells) -> Filled {
    Seq::new(9, |r: int| Seq::new(9, |c: int| g[r][c].lowest()))
}

/// A grid of solved cells in which no value stands twice in a row, a
/// column or a box is a solution: every unit holds each of `1..=9` exactly
/// once, and adds up to 45.
pub proof fn lemma_solved_grid(g: Cells, u: int)
    requires
        grid_wf(g),
        complete(g),
        no_repeats(g),
        0 <= u < 27,
    ensures
        is_solution(values_of(g)),
        fits(values_of(g), g),
        forall|v: int| 1 <= v <= 9 ==> #[trigger] occurs(unit_values(values_of(g), u), v),
        all_differ(unit_values(values_of(g), u)),
        seq_sum(unit_values(values_of(g), u)) == 45,
        unit_sum(g, u, 9) == 45,
        sums_ok(g),
{
    let s = values_of(g);
    assert forall|r: int, c: int| in_grid(r, c) implies 1 <= #[trigger] s[r][c] <= 9 && g[r][c].has(
        s[r][c],
    ) by {
        g[r][c].lemma_some();
    }
    assert forall|r1: int, c1: int, r2: int, c2: int|
        in_grid(r1, c1) && in_grid(r2, c2) && peers(r1, c1, r2, c2) && (r1, c1) != (r2, c2)
        implies #[trigger] s[r1][c1] != #[trigger] s[r2][c2] by {
        g[r1][c1].lemma_some();
        g[r2][c2].lemma_some();
        if s[r1][c1] == s[r2][c2] {
            g[r1][c1].lemma_single(s[r1][c1]);
            g[r2][c2].lemma_single(s[r2][c2]);
            assert(g[r1][c1] == g[r2][c2]);
        }
    }
    assert(fits(s, g)) by {
        assert forall|r: int, c: int| in_grid(r, c) implies #[trigger] g[r][c].has(s[r][c]) by {
            assert(1 <= s[r][c] <= 9 && g[r][c].has(s[r][c]));
        }
    }
    lemma_solution_units(s, u);
    lemma_solution_sums(s, g);
}

} // verus!
