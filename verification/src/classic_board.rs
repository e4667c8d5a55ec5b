use vstd::prelude::*;
use crate::board_info::{
    digit_of, digit_value, givens, is_digit, lemma_alphabet_digit, valid_format, BoardInfo,
};
use vstd::string::*;
use crate::candidate_set::{mask, CandidateSet};
use crate::errors::{BoardError, Sector};
use crate::grid::{
    box_table, grid_cells, grid_copy, grid_filled, grid_get, grid_set, table_built, table_get,
    table_regions, CellGrid, RegionTable,
};
use crate::model::{
    assign_all, assigned, clash_at, failure, full_grid, guessed, hidden_rounds, is_min_cell,
    lemma_min_cell, lemma_placed_stuck, min_cell, placed_to, propagate, propagate_all, search,
    sweep_singles, sweep_stop, tried,
};
use crate::rules::{
    box_clash, cell_settled, clash_within, complete, forced_in, fresh_settled, grid_wf, hidden,
    hidden_singles, home, in_grid, lemma_home_found, lemma_refines_single, lemma_refines_trans,
    lemma_settled_mono, lemma_settled_step, lemma_singles_to, lemma_sweep_cell, lemma_sweep_ends,
    lemma_sweep_step, lemma_swept, lemma_swept_settled, lemma_total, lemma_total_drop,
    lemma_unit_count_bounds, off_axis, peers,
    refines, set_cell, settled, singles_to, sums_ok, sweep_cell, swept_to, total,
    unit_cell, unit_count, unit_sum, visited, Cells, Filled, excludes, fits, is_solution, keeps,
    keeps_with, lemma_all_excluded, lemma_bad_sums, lemma_failed_guess,
    lemma_forced_step, lemma_keeps_trans, lemma_keeps_unsolvable, lemma_swept_keeps,
    lemma_solved_grid, lemma_total_bounds, no_repeats, unsolvable, values_of,
};
use crate::singles::{
    begins_with, has_key, lemma_with_entry, pending_key, with_entry, Forced, SinglesMap,
};

verus! {

/// A 9x9 board: the candidates of each cell, the table of box regions, and
/// the configuration it was made with.
pub struct ClassicBoard {
    grid: CellGrid,
    quadrants: RegionTable,
    info: BoardInfo,
    verbose: bool,
}

impl View for ClassicBoard {
    type V = Cells;

    /// The candidate sets of the cells, row by row.
    closed spec fn view(&self) -> Cells {
        grid_cells(self.grid)
    }
}

/// A recorded single: a cell of the grid that is solved in `cur` with the
/// recorded value and was unsolved in `first`.
pub open spec fn entry_ok(first: Cells, cur: Cells, e: Forced) -> bool {
    &&& in_grid(e.0.0 as int, e.0.1 as int)
    &&& 1 <= e.1 <= 9
    &&& cur[e.0.0 as int][e.0.1 as int].count() == 1
    &&& cur[e.0.0 as int][e.0.1 as int].has(e.1 as int)
    &&& first[e.0.0 as int][e.0.1 as int].count() > 1
}

/// The givens among the first `n` characters of `s` stand in their cells:
/// the character number `i` belongs to the cell `(i / 9, i % 9)`.
pub open spec fn placed(s: Seq<char>, g: Cells, n: int) -> bool {
    forall|i: int|
        0 <= i < n && is_digit(#[trigger] s[i]) ==> g[i / 9][i % 9] == CandidateSet(
            mask(digit_value(s[i])),
        )
}

/// The grid `s` has, for each digit among the first `n` characters of
/// `text`, the value of that digit in the cell of that character.
pub open spec fn agrees(s: Filled, text: Seq<char>, n: int) -> bool {
    forall|i: int|
        0 <= i < n && is_digit(#[trigger] text[i]) ==> s[i / 9][i % 9] == digit_value(text[i])
}

impl ClassicBoard {
    /// The board has the classic configuration, its table of regions is
    /// that of nine boxes of side 3, and its grid is well formed.
    pub closed spec fn wf(&self) -> bool {
        &&& self.info.is_classic()
        &&& table_regions(self.quadrants) == box_table(3, 3)
        &&& grid_wf(self@)
    }

    /// A well-formed board has a well-formed grid.
    pub proof fn lemma_wf(&self)
        requires
            self.wf(),
        ensures
            grid_wf(self@),
    {
    }

    /// The candidates of the cell at `(row, col)`.
    pub fn candidates(&self, row: usize, col: usize) -> (x: CandidateSet)
        requires
            self.wf(),
            row < 9,
            col < 9,
        ensures
            x == self@[row as int][col as int],
            x.wf(),
            x.count() >= 1,
    {
        grid_get(&self.grid, row, col)
    }

    /// The value of the cell at `(row, col)`, if the cell is solved.
    pub fn value_at(&self, row: usize, col: usize) -> (r: Option<u8>)
        requires
            self.wf(),
            row < 9,
            col < 9,
        ensures
            r == self@[row as int][col as int].solved_value(),
    {
        self.candidates(row, col).value()
    }

    /// Whether the board was asked to trace its work.
    pub fn is_verbose(&self) -> (r: bool)
        ensures
            r == self.verbose(),
    {
        self.verbose
    }

    /// The trace flag that the board was made with.
    pub closed spec fn verbose(&self) -> bool {
        self.verbose
    }

    fn put(&mut self, row: usize, col: usize, x: CandidateSet)
        requires
            old(self).wf(),
            row < 9,
            col < 9,
            x.wf(),
            x.count() >= 1,
        ensures
            final(self).wf(),
            final(self).verbose() == old(self).verbose(),
            final(self)@ == set_cell(old(self)@, row as int, col as int, x),
    {
        grid_set(&mut self.grid, row, col, x);
    }

    /// The cell number `i` of the unit `unit`, a box being walked through
    /// its region of the table.
    pub fn unit_position(&self, unit: usize, i: usize) -> (p: (usize, usize))
        requires
            self.wf(),
            unit < 27,
            i < 9,
        ensures
            (p.0 as int, p.1 as int) == unit_cell(unit as int, i as int),
            p.0 < 9,
            p.1 < 9,
    {
        let side: usize = self.info.side;
        let bs: usize = self.info.box_side;
        if unit < side {
            (unit, i)
        } else if unit < 2 * side {
            (i, unit - side)
        } else {
            let b: usize = unit - 2 * side;
            let region = table_get(&self.quadrants, b / bs, b % bs);
            (region.row_start + i / bs, region.col_start + i % bs)
        }
    }

    /// The cell that the sweep around `(row, col)` visits as number `k`,
    /// and the kind of unit that it is visited for.
    fn sweep_position(&self, row: usize, col: usize, k: usize) -> (p: ((usize, usize), Sector))
        requires
            self.wf(),
            row < 9,
            col < 9,
            k < 27,
        ensures
            (p.0.0 as int, p.0.1 as int) == sweep_cell(row as int, col as int, k as int),
            p.0.0 < 9,
            p.0.1 < 9,
            p.1 == (if k < 9 {
                Sector::Row
            } else if k < 18 {
                Sector::Column
            } else {
                Sector::Quadrant
            }),
    {
        let side: usize = self.info.side;
        let bs: usize = self.info.box_side;
        if k < side {
            ((row, k), Sector::Row)
        } else if k < 2 * side {
            ((k - side, col), Sector::Column)
        } else {
            let i: usize = k - 2 * side;
            let region = table_get(&self.quadrants, row / bs, col / bs);
            ((region.row_start + i / bs, region.col_start + i % bs), Sector::Quadrant)
        }
    }

    /// Eliminates `value` at the peer `(r, c)` of `(row, col)`: an unsolved
    /// peer loses the value, and is recorded if that solves it; a solved
    /// peer off the axes that holds the value is a contradiction.
    fn eliminate_at(
        &mut self,
        r: usize,
        c: usize,
        row: usize,
        col: usize,
        value: u8,
        source: Sector,
        singles: &mut SinglesMap,
    ) -> (res: Result<(), BoardError>)
        requires
            old(self).wf(),
            r < 9,
            c < 9,
            1 <= value <= 9,
        ensures
            final(self).wf(),
            final(self).verbose() == old(self).verbose(),
            ({
                let cell = old(self)@[r as int][c as int];
                let clash = cell.count() <= 1 && r != row && c != col && cell.has(value as int);
                match res {
                    Ok(()) => {
                        &&& !clash
                        &&& final(self)@ == set_cell(
                            old(self)@,
                            r as int,
                            c as int,
                            cell.stripped(value as int),
                        )
                        &&& final(singles)@ == (if cell.count() > 1 && cell.stripped(
                            value as int,
                        ).count() == 1 {
                            with_entry(
                                old(singles)@,
                                (r, c),
                                cell.stripped(value as int).lowest() as u8,
                            )
                        } else {
                            old(singles)@
                        })
                    },
                    Err(e) => {
                        &&& clash
                        &&& e == (BoardError::InvalidCell { row, col, from: source })
                        &&& final(self)@ == old(self)@
                        &&& final(singles)@ == old(singles)@
                    },
                }
            }),
    {
        let mut cell = self.candidates(r, c);
        let ghost before = cell;
        let ghost g = self@;
        proof {
            before.lemma_stripped(value as int);
        }
        if cell.len() > 1 {
            cell.remove(value);
            if !cell.has_values() {
                return Err(BoardError::InvalidCell { row: r, col: c, from: source });
            }
            self.put(r, c, cell);
            match cell.value() {
                Some(x) => {
                    proof {
                        cell.lemma_some();
                        cell.lemma_one(x as int, cell.lowest());
                    }
                    singles.insert((r, c), x);
                },
                None => {},
            }
            Ok(())
        } else {
            match cell.value() {
                Some(x) => {
                    if r != row && c != col && x == value {
                        return Err(BoardError::InvalidCell { row, col, from: source });
                    }
                },
                None => {},
            }
            proof {
                assert(g[r as int] =~= g[r as int].update(c as int, before));
                assert(g =~= set_cell(g, r as int, c as int, before));
            }
            Ok(())
        }
    }

    /// Eliminates `value` around the solved cell `(row, col)`: sweeps its
    /// row, its column and its box, then does the same from every cell
    /// that the sweep solved, in the order in which they were found.
    pub fn remove_candidate(&mut self, row: usize, col: usize, value: u8) -> (res: Result<
        (),
        BoardError,
    >)
        requires
            old(self).wf(),
            row < 9,
            col < 9,
            1 <= value <= 9,
            old(self)@[row as int][col as int].count() == 1,
            old(self)@[row as int][col as int].has(value as int),
        ensures
            final(self).wf(),
            final(self).verbose() == old(self).verbose(),
            refines(old(self)@, final(self)@),
            match res {
                Ok(()) => {
                    &&& final(self)@[row as int][col as int] == old(self)@[row as int][col as int]
                    &&& cell_settled(final(self)@, row as int, col as int)
                    &&& fresh_settled(old(self)@, final(self)@)
                    &&& keeps(old(self)@, final(self)@)
                    &&& forall|r: int, c: int|
                        in_grid(r, c) && peers(row as int, col as int, r, c) && old(
                            self,
                        )@[r][c].count() > 1 ==> !(#[trigger] final(self)@[r][c]).has(
                            value as int,
                        )
                },
                Err(e) => {
                    &&& e matches BoardError::InvalidCell { row: r2, col: c2, from }
                    &&& from == Sector::Quadrant
                    &&& r2 < 9
                    &&& c2 < 9
                    &&& box_clash(final(self)@, r2 as int, c2 as int)
                    &&& unsolvable(old(self)@)
                },
            },
            forall|fuel: nat|
                fuel >= total(old(self)@) ==> #[trigger] propagate(
                    old(self)@,
                    row as int,
                    col as int,
                    value as int,
                    fuel,
                ) == (final(self)@, failure(res)),
        decreases total(old(self)@),
    {
        let ghost g0 = self@;
        let mut singles = SinglesMap::new();
        let mut k: usize = 0;
        proof {
            lemma_sweep_step(g0, row as int, col as int, value as int, 0);
            lemma_sweep_ends(row as int, col as int);
        }
        while k < 27
            invariant
                self.wf(),
                k <= 27,
                row < 9,
                col < 9,
                1 <= value <= 9,
                g0 == old(self)@,
                self.verbose() == old(self).verbose(),
                grid_wf(g0),
                g0[row as int][col as int].count() == 1,
                g0[row as int][col as int].has(value as int),
                self@ == swept_to(g0, row as int, col as int, value as int, k as int),
                !clash_within(g0, row as int, col as int, value as int, k as int),
                singles@ == sweep_singles(g0, row as int, col as int, value as int, k as int),
                sweep_stop(g0, row as int, col as int, value as int, 0) == sweep_stop(
                    g0,
                    row as int,
                    col as int,
                    value as int,
                    k as int,
                ),
                singles.wf(),
                forall|i: int| 0 <= i < singles@.len() ==> entry_ok(g0, self@, #[trigger] singles@[i]),
                forall|r: int, c: int|
                    in_grid(r, c) && (#[trigger] self@[r][c]).count() == 1 && g0[r][c].count() != 1
                        ==> has_key(singles@, (r as usize, c as usize)),
            decreases 27 - k,
        {
            let (pos, source) = self.sweep_position(row, col, k);
            let ghost cur = self@;
            let ghost before = singles@;
            let ghost r = pos.0 as int;
            let ghost c = pos.1 as int;
            proof {
                lemma_sweep_step(g0, row as int, col as int, value as int, k as int);
                lemma_sweep_cell(row as int, col as int, k as int);
                lemma_swept(g0, row as int, col as int, value as int, k as int);
                lemma_swept(g0, row as int, col as int, value as int, k as int + 1);
                cur[r][c].lemma_stripped(value as int);
            }
            let res = self.eliminate_at(pos.0, pos.1, row, col, value, source, &mut singles);
            match res {
                Err(e) => {
                    proof {
                        lemma_refines_single(g0, cur, row as int, col as int);
                        cur[row as int][col as int].lemma_single(value as int);
                        cur[r][c].lemma_single(value as int);
                        assert(cur[r][c] == cur[row as int][col as int]);
                        assert(box_clash(cur, row as int, col as int));
                        assert(clash_within(g0, row as int, col as int, value as int, k as int + 1));
                        lemma_swept_keeps(g0, row as int, col as int, value as int, k as int + 1);
                        assert(clash_at(g0, row as int, col as int, value as int, k as int));
                        assert(sweep_stop(g0, row as int, col as int, value as int, 0) == k);
                        assert(e == BoardError::InvalidCell { row, col, from: Sector::Quadrant });
                    }
                    return Err(e);
                },
                Ok(()) => {},
            }
            proof {
                let next = self@;
                let cell = cur[r][c];
                let after = cell.stripped(value as int);
                lemma_with_entry(before, pos, after.lowest() as u8);
                assert(next[r][c] == after);
                assert(!clash_at(g0, row as int, col as int, value as int, k as int));
                assert(pos == (r as usize, c as usize));
                // no clash among the cells visited so far
                assert(!clash_within(g0, row as int, col as int, value as int, k as int + 1)) by {
                    if clash_within(g0, row as int, col as int, value as int, k as int + 1) {
                        let (r2, c2) = choose|r2: int, c2: int|
                            in_grid(r2, c2) && visited(
                                row as int,
                                col as int,
                                k as int + 1,
                                r2,
                                c2,
                            ) && off_axis(row as int, col as int, r2, c2) && (
                            #[trigger] g0[r2][c2]).count() <= 1 && g0[r2][c2].has(value as int);
                        if (r2, c2) == (r, c) {
                            assert(cur[r][c] == g0[r][c]);
                        } else {
                            assert(visited(row as int, col as int, k as int, r2, c2));
                            assert(clash_within(g0, row as int, col as int, value as int, k as int));
                        }
                    }
                }
                // the recorded singles are still solved with their values
                assert forall|i: int| 0 <= i < singles@.len() implies entry_ok(
                    g0,
                    next,
                    #[trigger] singles@[i],
                ) by {
                    let e = singles@[i];
                    if i < before.len() {
                        assert(e == before[i]);
                        assert(entry_ok(g0, cur, e));
                        if (e.0.0 as int, e.0.1 as int) == (r, c) {
                            assert(next[r][c] == cur[r][c]);
                        } else {
                            assert(next[e.0.0 as int][e.0.1 as int] == cur[e.0.0 as int][e.0.1 as int]);
                        }
                    } else {
                        assert(e == ((pos.0, pos.1), after.lowest() as u8));
                        after.lemma_some();
                        assert forall|w: int| #[trigger] cur[r][c].has(w) implies g0[r][c].has(
                            w,
                        ) by {}
                        cur[r][c].lemma_subset(g0[r][c]);
                    }
                }
                // every cell that the sweep solved is recorded
                assert forall|r2: int, c2: int|
                    in_grid(r2, c2) && (#[trigger] next[r2][c2]).count() == 1 && g0[r2][c2].count()
                        != 1 implies has_key(singles@, (r2 as usize, c2 as usize)) by {
                    if (r2, c2) == (r, c) {
                        if cell.count() == 1 {
                            assert(cur[r2][c2].count() == 1);
                            assert(has_key(before, (r2 as usize, c2 as usize)));
                        }
                    } else {
                        assert(next[r2][c2] == cur[r2][c2]);
                        assert(has_key(before, (r2 as usize, c2 as usize)));
                    }
                }
            }
            k = k + 1;
        }
        let ghost g1 = self@;
        let n: usize = singles.len();
        proof {
            lemma_swept(g0, row as int, col as int, value as int, 27);
            lemma_swept_settled(g0, row as int, col as int, value as int);
            lemma_swept_keeps(g0, row as int, col as int, value as int, 27);
            lemma_sweep_ends(row as int, col as int);
            lemma_total(g0, g1);
            lemma_refines_trans(g1, g1, g1);
            if n > 0 {
                let e = singles@[0];
                assert(entry_ok(g0, g1, e));
                assert(g1[e.0.0 as int][e.0.1 as int].count() < g0[e.0.0 as int][e.0.1 as int].count());
            }
            assert forall|r: int, c: int|
                in_grid(r, c) && (#[trigger] g1[r][c]).count() == 1 && g0[r][c].count()
                    != 1 implies cell_settled(g1, r, c) || pending_key(
                singles@,
                0,
                (r as usize, c as usize),
            ) by {
                assert(has_key(singles@, (r as usize, c as usize)));
            }
        }
        let mut i: usize = 0;
        while i < n
            invariant
                self.wf(),
                i <= n,
                n == singles@.len(),
                row < 9,
                col < 9,
                1 <= value <= 9,
                g0 == old(self)@,
                self.verbose() == old(self).verbose(),
                grid_wf(g0),
                grid_wf(g1),
                refines(g0, g1),
                refines(g1, self@),
                g0[row as int][col as int].count() == 1,
                g1[row as int][col as int] == g0[row as int][col as int],
                cell_settled(self@, row as int, col as int),
                keeps(g0, self@),
                n > 0 ==> total(g1) < total(g0),
                g1 == swept_to(g0, row as int, col as int, value as int, 27),
                singles@ == sweep_singles(g0, row as int, col as int, value as int, 27),
                sweep_stop(g0, row as int, col as int, value as int, 0) == 27,
                forall|f: nat|
                    f >= total(g1) ==> #[trigger] propagate_all(g1, singles@, 0, f)
                        == propagate_all(self@, singles@, i as int, f),
                forall|j: int| i <= j < n ==> entry_ok(g0, self@, #[trigger] singles@[j]),
                forall|r: int, c: int|
                    in_grid(r, c) && (#[trigger] self@[r][c]).count() == 1 && g0[r][c].count() != 1
                        ==> cell_settled(self@, r, c) || pending_key(
                        singles@,
                        i as int,
                        (r as usize, c as usize),
                    ),
                forall|r: int, c: int|
                    in_grid(r, c) && peers(row as int, col as int, r, c) && g0[r][c].count() > 1
                        ==> !(#[trigger] g1[r][c]).has(value as int),
            decreases n - i,
        {
            let e = singles.get(i);
            let ghost pre = self@;
            proof {
                assert(entry_ok(g0, pre, singles@[i as int]));
                lemma_total(g1, pre);
            }
            let res = self.remove_candidate(e.0.0, e.0.1, e.1);
            match res {
                Err(err) => {
                    proof {
                        lemma_refines_trans(g1, pre, self@);
                        lemma_refines_trans(g0, g1, self@);
                        lemma_keeps_unsolvable(g0, pre);
                        assert forall|f: nat| f >= total(g1) implies #[trigger] propagate_all(
                            g1,
                            singles@,
                            0,
                            f,
                        ) == (self@, Some(err)) by {
                            assert(propagate(pre, e.0.0 as int, e.0.1 as int, e.1 as int, f) == (
                                self@,
                                Some(err),
                            ));
                        }
                        assert forall|fuel: nat| fuel >= total(g0) implies #[trigger] propagate(
                            g0,
                            row as int,
                            col as int,
                            value as int,
                            fuel,
                        ) == (self@, Some(err)) by {
                            assert(propagate_all(g1, singles@, 0, (fuel - 1) as nat) == (
                                self@,
                                Some(err),
                            ));
                        }
                    }
                    return Err(err);
                },
                Ok(()) => {},
            }
            proof {
                let post = self@;
                assert forall|f: nat| f >= total(g1) implies #[trigger] propagate_all(
                    g1,
                    singles@,
                    0,
                    f,
                ) == propagate_all(post, singles@, i as int + 1, f) by {
                    assert(propagate(pre, e.0.0 as int, e.0.1 as int, e.1 as int, f) == (
                        post,
                        None::<BoardError>,
                    ));
                }
                lemma_keeps_trans(g0, pre, post);
                lemma_refines_trans(g1, pre, post);
                lemma_refines_trans(g0, g1, pre);
                lemma_refines_single(g0, pre, row as int, col as int);
                lemma_settled_mono(pre, post, row as int, col as int);
                assert forall|j: int| i + 1 <= j < n implies entry_ok(
                    g0,
                    post,
                    #[trigger] singles@[j],
                ) by {
                    let f = singles@[j];
                    assert(entry_ok(g0, pre, f));
                    lemma_refines_single(pre, post, f.0.0 as int, f.0.1 as int);
                }
                assert forall|r: int, c: int|
                    in_grid(r, c) && (#[trigger] post[r][c]).count() == 1 && g0[r][c].count()
                        != 1 implies cell_settled(post, r, c) || pending_key(
                    singles@,
                    i as int + 1,
                    (r as usize, c as usize),
                ) by {
                    if pre[r][c].count() != 1 {
                        assert(cell_settled(post, r, c));
                    } else if cell_settled(pre, r, c) {
                        lemma_settled_mono(pre, post, r, c);
                    } else {
                        assert(pending_key(singles@, i as int, (r as usize, c as usize)));
                        let j = choose|j: int|
                            i <= j < singles@.len() && (#[trigger] singles@[j]).0 == (
                                r as usize,
                                c as usize,
                            );
                        if j == i {
                            assert(cell_settled(post, r, c));
                        } else {
                            assert(singles@[j].0 == (r as usize, c as usize));
                        }
                    }
                }
            }
            i = i + 1;
        }
        proof {
            let post = self@;
            lemma_refines_trans(g0, g1, post);
            lemma_refines_single(g0, post, row as int, col as int);
            assert forall|r: int, c: int|
                in_grid(r, c) && post[r][c].count() == 1 && g0[r][c].count()
                    != 1 implies #[trigger] cell_settled(post, r, c) by {
                assert(!pending_key(singles@, n as int, (r as usize, c as usize)));
            }
            assert forall|r: int, c: int|
                in_grid(r, c) && peers(row as int, col as int, r, c) && g0[r][c].count()
                    > 1 implies !(#[trigger] post[r][c]).has(value as int) by {
                assert(!g1[r][c].has(value as int));
            }
            assert forall|fuel: nat| fuel >= total(g0) implies #[trigger] propagate(
                g0,
                row as int,
                col as int,
                value as int,
                fuel,
            ) == (post, None::<BoardError>) by {
                let f0 = total(g1) as nat;
                assert(propagate_all(g1, singles@, 0, f0) == propagate_all(
                    post,
                    singles@,
                    n as int,
                    f0,
                ));
                assert(propagate_all(post, singles@, n as int, f0) == (post, None::<BoardError>));
                if n > 0 {
                    let f = (fuel - 1) as nat;
                    assert(propagate_all(g1, singles@, 0, f) == propagate_all(
                        post,
                        singles@,
                        n as int,
                        f,
                    ));
                    assert(propagate_all(post, singles@, n as int, f) == (
                        post,
                        None::<BoardError>,
                    ));
                } else {
                    assert(propagate_all(g1, singles@, 0, f0) == (g1, None::<BoardError>));
                    assert(g1 == post);
                    if fuel > 0 {
                        assert(propagate_all(g1, singles@, 0, (fuel - 1) as nat) == (
                            g1,
                            None::<BoardError>,
                        ));
                    }
                }
            }
        }
        Ok(())
    }
    /// Puts `value` into the cell at `(row, col)` and eliminates it around
    /// the cell. Fails, and changes nothing, when the value is not a
    /// candidate of the cell.
    pub fn assign(&mut self, row: usize, col: usize, value: u8) -> (res: Result<(), BoardError>)
        requires
            old(self).wf(),
            row < 9,
            col < 9,
            1 <= value <= 9,
        ensures
            final(self).wf(),
            final(self).verbose() == old(self).verbose(),
            refines(old(self)@, final(self)@),
            !old(self)@[row as int][col as int].has(value as int) <==> res == Err::<
                (),
                BoardError,
            >(BoardError::InvalidAssignment { row, col, value }),
            match res {
                Ok(()) => {
                    &&& final(self)@[row as int][col as int] == CandidateSet(mask(value as int))
                    &&& final(self)@[row as int][col as int].count() == 1
                    &&& final(self)@[row as int][col as int].has(value as int)
                    &&& cell_settled(final(self)@, row as int, col as int)
                    &&& fresh_settled(old(self)@, final(self)@)
                    &&& settled(old(self)@) ==> settled(final(self)@)
                    &&& keeps_with(
                        old(self)@,
                        final(self)@,
                        row as int,
                        col as int,
                        value as int,
                    )
                    &&& forall|r: int, c: int|
                        in_grid(r, c) && peers(row as int, col as int, r, c) && (r, c) != (
                            row as int,
                            col as int,
                        ) && old(self)@[r][c].count() > 1 ==> !(#[trigger] final(self)@[r][c]).has(
                            value as int,
                        )
                },
                Err(BoardError::InvalidAssignment { row: r2, col: c2, value: v2 }) => {
                    &&& r2 == row
                    &&& c2 == col
                    &&& v2 == value
                    &&& final(self)@ == old(self)@
                },
                Err(BoardError::InvalidCell { row: r2, col: c2, from }) => {
                    &&& from == Sector::Quadrant
                    &&& r2 < 9
                    &&& c2 < 9
                    &&& box_clash(final(self)@, r2 as int, c2 as int)
                },
                Err(_) => false,
            },
            res is Err ==> excludes(old(self)@, row as int, col as int, value as int),
            forall|fuel: nat|
                fuel >= total(old(self)@) ==> #[trigger] assigned(
                    old(self)@,
                    row as int,
                    col as int,
                    value as int,
                    fuel,
                ) == (final(self)@, failure(res)),
    {
        let ghost g0 = self@;
        if !self.candidates(row, col).contains(value) {
            proof {
                lemma_refines_trans(g0, g0, g0);
            }
            return Err(BoardError::InvalidAssignment { row, col, value });
        }
        self.put(row, col, CandidateSet::single_value(value));
        let ghost g1 = self@;
        proof {
            g1[row as int][col as int].lemma_one(value as int, value as int);
            assert forall|r: int, c: int, v: int| in_grid(r, c) && #[trigger] g1[r][c].has(
                v,
            ) implies g0[r][c].has(v) by {
                if (r, c) == (row as int, col as int) {
                    g1[r][c].lemma_one(v, value as int);
                }
            }
        }
        let res = self.remove_candidate(row, col, value);
        proof {
            let g2 = self@;
            lemma_refines_trans(g0, g1, g2);
            lemma_total(g0, g1);
            assert(g1 == set_cell(g0, row as int, col as int, CandidateSet(mask(value as int))));
            assert forall|fuel: nat| fuel >= total(g0) implies #[trigger] assigned(
                g0,
                row as int,
                col as int,
                value as int,
                fuel,
            ) == (g2, failure(res)) by {
                assert(propagate(g1, row as int, col as int, value as int, fuel) == (
                    g2,
                    failure(res),
                ));
            }
            assert forall|s: Filled|
                is_solution(s) && #[trigger] fits(s, g0) && s[row as int][col as int]
                    == value implies fits(s, g1) by {
                assert forall|r: int, c: int| in_grid(r, c) implies #[trigger] g1[r][c].has(
                    s[r][c],
                ) by {
                    assert(g0[r][c].has(s[r][c]));
                }
            }
            if res is Ok {
                assert(keeps_with(g0, g2, row as int, col as int, value as int)) by {
                    assert forall|s: Filled|
                        is_solution(s) && #[trigger] fits(s, g0) && s[row as int][col as int]
                            == value implies fits(s, g2) by {
                        assert(fits(s, g1));
                    }
                }
            } else {
                assert(excludes(g0, row as int, col as int, value as int)) by {
                    assert forall|s: Filled| is_solution(s) && #[trigger] fits(
                        s,
                        g0,
                    ) implies s[row as int][col as int] != value by {
                        if s[row as int][col as int] == value {
                            assert(fits(s, g1));
                        }
                    }
                }
            }
            if res is Ok {
                assert forall|r: int, c: int|
                    in_grid(r, c) && g2[r][c].count() == 1 && g0[r][c].count()
                        != 1 implies #[trigger] cell_settled(g2, r, c) by {
                    if (r, c) != (row as int, col as int) {
                        assert(g1[r][c] == g0[r][c]);
                    }
                }
                if settled(g0) {
                    lemma_settled_step(g0, g2);
                }
                assert forall|r: int, c: int|
                    in_grid(r, c) && peers(row as int, col as int, r, c) && (r, c) != (
                        row as int,
                        col as int,
                    ) && g0[r][c].count() > 1 implies !(#[trigger] g2[r][c]).has(value as int) by {
                    assert(g1[r][c] == g0[r][c]);
                }
            }
        }
        res
    }

    /// Whether every cell holds exactly one value.
    pub fn is_solved(&self) -> (r: bool)
        requires
            self.wf(),
        ensures
            r == complete(self@),
    {
        let side: usize = self.info.side;
        let cells: usize = self.info.dimmension();
        let mut k: usize = 0;
        while k < cells
            invariant
                self.wf(),
                side == 9,
                cells == 81,
                k <= 81,
                forall|r: int, c: int|
                    in_grid(r, c) && r * 9 + c < k ==> (#[trigger] self@[r][c]).count() == 1,
            decreases cells - k,
        {
            if !self.candidates(k / side, k % side).is_single() {
                return false;
            }
            k = k + 1;
        }
        true
    }

    /// Whether the values of the unit `unit` add up to the checksum.
    pub fn check_sector_integrity(&self, unit: usize) -> (r: bool)
        requires
            self.wf(),
            unit < 27,
            complete(self@),
        ensures
            r == (unit_sum(self@, unit as int, 9) == 45),
    {
        let mut acc: u8 = 0;
        let mut i: usize = 0;
        while i < 9
            invariant
                self.wf(),
                unit < 27,
                complete(self@),
                i <= 9,
                acc == unit_sum(self@, unit as int, i as int),
                acc <= 9 * i,
            decreases 9 - i,
        {
            let pos = self.unit_position(unit, i);
            let cell = self.candidates(pos.0, pos.1);
            let x: u8 = cell.value().unwrap();
            proof {
                cell.lemma_single(x as int);
            }
            acc = acc + x;
            i = i + 1;
        }
        acc == CandidateSet::checksum()
    }

    /// Whether every row, every column and every box adds up to the
    /// checksum.
    pub fn is_valid(&self) -> (r: bool)
        requires
            self.wf(),
            complete(self@),
        ensures
            r == sums_ok(self@),
    {
        let mut unit: usize = 0;
        while unit < 27
            invariant
                self.wf(),
                complete(self@),
                unit <= 27,
                forall|u: int| 0 <= u < unit ==> #[trigger] unit_sum(self@, u, 9) == 45,
            decreases 27 - unit,
        {
            if !self.check_sector_integrity(unit) {
                return false;
            }
            unit = unit + 1;
        }
        true
    }

    /// The unsolved cell with the fewest candidates, the first such cell
    /// row by row, and the number of its candidates; `((0, 0), 9)` when
    /// every cell is solved.
    pub fn find_min_candidates(&self) -> (m: ((usize, usize), usize))
        requires
            self.wf(),
        ensures
            in_grid(m.0.0 as int, m.0.1 as int),
            complete(self@) ==> m == ((0usize, 0usize), 9usize),
            !complete(self@) ==> is_min_cell(self@, m.0.0 as int, m.0.1 as int),
            !complete(self@) ==> {
                &&& 2 <= m.1 <= 9
                &&& self@[m.0.0 as int][m.0.1 as int].count() == m.1
                &&& forall|r: int, c: int|
                    in_grid(r, c) && (#[trigger] self@[r][c]).count() != 1 ==> m.1
                        <= self@[r][c].count() && (self@[r][c].count() == m.1 ==> m.0.0 * 9
                        + m.0.1 <= r * 9 + c)
            },
    {
        let side: usize = self.info.side;
        let cells: usize = self.info.dimmension();
        let mut best: ((usize, usize), usize) = ((0, 0), side + 1);
        let mut k: usize = 0;
        while k < cells && best.1 != 2
            invariant
                self.wf(),
                side == 9,
                cells == 81,
                k <= 81,
                2 <= best.1 <= 10,
                in_grid(best.0.0 as int, best.0.1 as int),
                best.1 == 10 ==> best.0 == (0usize, 0usize) && forall|r: int, c: int|
                    in_grid(r, c) && r * 9 + c < k ==> (#[trigger] self@[r][c]).count() == 1,
                best.1 < 10 ==> {
                    &&& best.0.0 * 9 + best.0.1 < k
                    &&& self@[best.0.0 as int][best.0.1 as int].count() == best.1
                    &&& forall|r: int, c: int|
                        in_grid(r, c) && r * 9 + c < k && (#[trigger] self@[r][c]).count() != 1
                            ==> best.1 <= self@[r][c].count() && (self@[r][c].count() == best.1
                            ==> best.0.0 * 9 + best.0.1 <= r * 9 + c)
                },
            decreases cells - k,
        {
            let row: usize = k / side;
            let col: usize = k % side;
            let len: usize = self.candidates(row, col).len();
            if 2 <= len && len < best.1 {
                best = ((row, col), len);
            }
            k = k + 1;
        }
        if best.1 > side {
            best = (best.0, side);
        }
        best
    }

    /// For each value `v`, at index `v - 1`, the number of unsolved cells
    /// of the unit `unit` that hold `v`.
    pub fn count_frequencies(&self, unit: usize) -> (freqs: Vec<u8>)
        requires
            self.wf(),
            unit < 27,
        ensures
            freqs@.len() == 9,
            forall|v: int|
                1 <= v <= 9 ==> (#[trigger] freqs@[v - 1]) == unit_count(self@, unit as int, v, 9),
    {
        let mut freqs: Vec<u8> = vec![0u8, 0u8, 0u8, 0u8, 0u8, 0u8, 0u8, 0u8, 0u8];
        let mut i: usize = 0;
        while i < 9
            invariant
                self.wf(),
                unit < 27,
                i <= 9,
                freqs@.len() == 9,
                forall|v: int|
                    1 <= v <= 9 ==> (#[trigger] freqs@[v - 1]) == unit_count(
                        self@,
                        unit as int,
                        v,
                        i as int,
                    ),
            decreases 9 - i,
        {
            let pos = self.unit_position(unit, i);
            let cell = self.candidates(pos.0, pos.1);
            let ghost before = freqs@;
            proof {
                assert forall|v: int| 1 <= v <= 9 implies 0 <= (#[trigger] before[v - 1]) <= i by {
                    lemma_unit_count_bounds(self@, unit as int, v, i as int);
                }
            }
            if cell.len() != 1 {
                let mut value: u8 = 1;
                while value <= 9
                    invariant
                        1 <= value <= 10,
                        i < 9,
                        freqs@.len() == 9,
                        before.len() == 9,
                        forall|v: int| 1 <= v <= 9 ==> 0 <= (#[trigger] before[v - 1]) <= i,
                        forall|v: int|
                            1 <= v <= 9 ==> (#[trigger] freqs@[v - 1]) == before[v - 1] + (if v
                                < value && cell.has(v) {
                                1int
                            } else {
                                0int
                            }),
                    decreases 10 - value,
                {
                    if cell.contains(value) {
                        let n: u8 = freqs[(value - 1) as usize];
                        assert(n == before[value as int - 1]);
                        freqs.set((value - 1) as usize, n + 1);
                    }
                    value = value + 1;
                }
            }
            i = i + 1;
        }
        freqs
    }

    /// The hidden singles of the grid: for every unit, rows first, then
    /// columns, then boxes, and every value in ascending order, a value
    /// that exactly one unsolved cell of the unit holds is recorded for
    /// that cell. The first entry of a cell stays. The grid is not changed.
    pub fn find_unit_frequencies(&self) -> (res: Result<SinglesMap, BoardError>)
        requires
            self.wf(),
        ensures
            res matches Ok(m) && m@ == hidden_singles(self@) && m.wf(),
            res matches Ok(m) && forall|i: int|
                0 <= i < m@.len() ==> hidden(self@, #[trigger] m@[i]),
    {
        let mut singles = SinglesMap::new();
        let mut unit: usize = 0;
        while unit < 27
            invariant
                self.wf(),
                unit <= 27,
                singles@ == singles_to(self@, unit * 9),
            decreases 27 - unit,
        {
            let freqs = self.count_frequencies(unit);
            let mut value: u8 = 1;
            while value <= 9
                invariant
                    self.wf(),
                    unit < 27,
                    1 <= value <= 10,
                    freqs@.len() == 9,
                    forall|v: int|
                        1 <= v <= 9 ==> (#[trigger] freqs@[v - 1]) == unit_count(
                            self@,
                            unit as int,
                            v,
                            9,
                        ),
                    singles@ == singles_to(self@, unit * 9 + value - 1),
                decreases 10 - value,
            {
                let ghost before = singles@;
                let ghost k = unit * 9 + value;
                proof {
                    assert((k - 1) / 9 == unit as int);
                    assert((k - 1) % 9 + 1 == value as int);
                    assert(freqs@[value as int - 1] == unit_count(
                        self@,
                        unit as int,
                        value as int,
                        9,
                    ));
                }
                if freqs[(value - 1) as usize] == 1 {
                    proof {
                        lemma_home_found(self@, unit as int, value as int);
                    }
                    let mut i: usize = 0;
                    let mut found: bool = false;
                    while i < 9 && !found
                        invariant
                            self.wf(),
                            unit < 27,
                            1 <= value <= 9,
                            i <= 9,
                            k == unit * 9 + value,
                            before == singles_to(self@, k - 1),
                            unit_count(self@, unit as int, value as int, 9) == 1,
                            !found ==> singles@ == before && home(
                                self@,
                                unit as int,
                                value as int,
                                0,
                            ) == home(self@, unit as int, value as int, i as int),
                            found ==> singles@ == singles_to(self@, k as int),
                        decreases 9 - i + (if found {
                            0int
                        } else {
                            1int
                        }),
                    {
                        let pos = self.unit_position(unit, i);
                        let cell = self.candidates(pos.0, pos.1);
                        if cell.len() != 1 && cell.contains(value) {
                            proof {
                                assert(home(self@, unit as int, value as int, i as int) == i);
                            }
                            singles.insert(pos, value);
                            found = true;
                        } else {
                            proof {
                                assert(home(self@, unit as int, value as int, i as int) == home(
                                    self@,
                                    unit as int,
                                    value as int,
                                    i as int + 1,
                                ));
                            }
                            i = i + 1;
                        }
                    }
                    proof {
                        if !found {
                            assert(home(self@, unit as int, value as int, 9) == 9);
                        }
                    }
                }
                value = value + 1;
            }
            unit = unit + 1;
        }
        proof {
            lemma_singles_to(self@, 243);
        }
        Ok(singles)
    }
    /// Assigns the hidden singles of the grid, pass after pass, each pass
    /// in the order of discovery, until a pass finds none.
    pub fn assign_hidden_singles(&mut self) -> (res: Result<(), BoardError>)
        requires
            old(self).wf(),
        ensures
            final(self).wf(),
            final(self).verbose() == old(self).verbose(),
            refines(old(self)@, final(self)@),
            match res {
                Ok(()) => {
                    &&& hidden_singles(final(self)@).len() == 0
                    &&& settled(old(self)@) ==> settled(final(self)@) && keeps(
                        old(self)@,
                        final(self)@,
                    )
                },
                Err(e) => {
                    &&& settled(old(self)@) ==> unsolvable(old(self)@)
                    &&& match e {
                        BoardError::InvalidAssignment { row, col, value } => row < 9 && col < 9
                            && 1 <= value <= 9 && !final(self)@[row as int][col as int].has(
                            value as int,
                        ),
                        BoardError::InvalidCell { row, col, from } => from == Sector::Quadrant
                            && row < 9 && col < 9 && box_clash(
                            final(self)@,
                            row as int,
                            col as int,
                        ),
                        _ => false,
                    }
                },
            },
            forall|fuel: nat|
                fuel >= total(old(self)@) ==> #[trigger] hidden_rounds(old(self)@, fuel) == (
                    final(self)@,
                    failure(res),
                ),
    {
        let ghost g0 = self@;
        let ghost mut rounds: nat = 0;
        proof {
            lemma_refines_trans(g0, g0, g0);
            lemma_keeps_trans(g0, g0, g0);
            lemma_total(g0, g0);
        }
        loop
            invariant
                self.wf(),
                g0 == old(self)@,
                self.verbose() == old(self).verbose(),
                grid_wf(g0),
                refines(g0, self@),
                settled(g0) ==> settled(self@) && keeps(g0, self@),
                0 <= total(self@),
                total(self@) + rounds <= total(g0),
                forall|f: nat|
                    f >= total(g0) ==> #[trigger] hidden_rounds(g0, f) == hidden_rounds(
                        self@,
                        (f - rounds) as nat,
                    ),
            ensures
                hidden_singles(self@).len() == 0,
                forall|f: nat|
                    f >= total(g0) ==> #[trigger] hidden_rounds(g0, f) == (
                        self@,
                        None::<BoardError>,
                    ),
            decreases total(self@),
        {
            let found = match self.find_unit_frequencies() {
                Ok(m) => m,
                Err(e) => {
                    return Err(e);
                },
            };
            if found.is_empty() {
                proof {
                    assert forall|f: nat| f >= total(g0) implies #[trigger] hidden_rounds(g0, f)
                        == (self@, None::<BoardError>) by {
                        assert(hidden_rounds(self@, (f - rounds) as nat) == (
                            self@,
                            None::<BoardError>,
                        ));
                    }
                }
                break;
            }
            let ghost gp = self@;
            let n: usize = found.len();
            let mut j: usize = 0;
            proof {
                lemma_refines_trans(gp, gp, gp);
                lemma_total(gp, gp);
            }
            while j < n
                invariant
                    self.wf(),
                    g0 == old(self)@,
                    self.verbose() == old(self).verbose(),
                    grid_wf(g0),
                    grid_wf(gp),
                    refines(g0, gp),
                    refines(gp, self@),
                    found@ == hidden_singles(gp),
                    n == found@.len(),
                    j <= n,
                    j == 0 ==> self@ == gp,
                    j > 0 ==> total(self@) < total(gp),
                    0 <= total(self@),
                    settled(g0) ==> settled(gp) && settled(self@) && keeps(g0, self@),
                    n > 0,
                    total(gp) + rounds <= total(g0),
                    forall|f: nat|
                        f >= total(g0) ==> #[trigger] hidden_rounds(g0, f) == hidden_rounds(
                            gp,
                            (f - rounds) as nat,
                        ),
                    forall|f: nat|
                        f >= total(gp) ==> #[trigger] assign_all(gp, found@, 0, f) == assign_all(
                            self@,
                            found@,
                            j as int,
                            f,
                        ),
                decreases n - j,
            {
                let e = found.get(j);
                let ghost pre = self@;
                proof {
                    lemma_singles_to(gp, 243);
                    assert(hidden(gp, found@[j as int]));
                }
                let res = self.assign(e.0.0, e.0.1, e.1);
                proof {
                    if settled(g0) {
                        lemma_forced_step(gp, pre, self@, e);
                    }
                }
                proof {
                    lemma_total(gp, pre);
                    assert forall|f: nat| f >= total(gp) implies #[trigger] assign_all(
                        gp,
                        found@,
                        0,
                        f,
                    ) == (if res is Err {
                        (self@, failure(res))
                    } else {
                        assign_all(self@, found@, j as int + 1, f)
                    }) by {
                        assert(assigned(pre, e.0.0 as int, e.0.1 as int, e.1 as int, f) == (
                            self@,
                            failure(res),
                        ));
                        assert(assign_all(gp, found@, 0, f) == assign_all(
                            pre,
                            found@,
                            j as int,
                            f,
                        ));
                    }
                }
                match res {
                    Err(err) => {
                        proof {
                            lemma_refines_trans(gp, pre, self@);
                            lemma_refines_trans(g0, gp, self@);
                            if settled(g0) {
                                lemma_keeps_unsolvable(g0, pre);
                            }
                            assert forall|f: nat| f >= total(g0) implies #[trigger] hidden_rounds(
                                g0,
                                f,
                            ) == (self@, Some(err)) by {
                                let f2 = (f - rounds) as nat;
                                assert(assign_all(gp, found@, 0, f2) == (self@, Some(err)));
                                lemma_total_bounds(gp);
                                assert(hidden_rounds(gp, f2) == (self@, Some(err)));
                            }
                        }
                        return Err(err);
                    },
                    Ok(()) => {},
                }
                proof {
                    let post = self@;
                    lemma_refines_trans(gp, pre, post);
                    lemma_total(pre, post);
                    if settled(g0) {
                        lemma_keeps_trans(g0, pre, post);
                    }
                    if j == 0 {
                        let u = choose|u: int| 0 <= u < 27 && #[trigger] forced_in(gp, e, u);
                        lemma_total_drop(gp, post, e.0.0 as int, e.0.1 as int, e.1 as int);
                    }
                }
                j = j + 1;
            }
            proof {
                lemma_refines_trans(g0, gp, self@);
                let cur = self@;
                assert forall|f: nat| f >= total(g0) implies #[trigger] hidden_rounds(g0, f)
                    == hidden_rounds(cur, (f - (rounds + 1)) as nat) by {
                    let f2 = (f - rounds) as nat;
                    lemma_total_bounds(gp);
                    assert(assign_all(gp, found@, 0, f2) == assign_all(cur, found@, n as int, f2));
                    assert(assign_all(cur, found@, n as int, f2) == (cur, None::<BoardError>));
                    assert(hidden_rounds(gp, f2) == hidden_rounds(cur, (f2 - 1) as nat));
                }
                rounds = rounds + 1;
            }
        }
        Ok(())
    }

    /// The guessing step: takes the unsolved cell with the fewest
    /// candidates and tries its values in ascending order, each on the
    /// grid as it is now. A value is pushed on `assignments` while it is
    /// tried; the first that leads to a solved board stays there. When
    /// every value has failed, the grid and `assignments` are as they were.
    pub fn guess(&mut self, assignments: &mut Vec<Forced>) -> (res: Result<(), BoardError>)
        requires
            old(self).wf(),
            !complete(old(self)@),
        ensures
            final(self).wf(),
            final(self).verbose() == old(self).verbose(),
            refines(old(self)@, final(self)@),
            match res {
                Ok(()) => {
                    &&& complete(final(self)@)
                    &&& sums_ok(final(self)@)
                    &&& begins_with(final(assignments)@, old(assignments)@)
                    &&& final(assignments)@.len() > old(assignments)@.len()
                    &&& settled(old(self)@) ==> settled(final(self)@)
                },
                Err(e) => {
                    &&& e == BoardError::NoSolutionFound
                    &&& final(self)@ == old(self)@
                    &&& final(assignments)@ == old(assignments)@
                    &&& settled(old(self)@) ==> unsolvable(old(self)@)
                },
            },
            forall|fuel: nat|
                fuel >= total(old(self)@) ==> #[trigger] guessed(
                    old(self)@,
                    old(assignments)@,
                    fuel,
                ) == (final(self)@, final(assignments)@, failure(res)),
        decreases total(old(self)@), 0int,
    {
        let ghost g1 = self@;
        let ghost t0 = assignments@;
        let smallest = self.find_min_candidates();
        let old_grid = grid_copy(&self.grid);
        let row: usize = smallest.0.0;
        let col: usize = smallest.0.1;
        let candidates = self.candidates(row, col);
        let values = candidates.iter();
        proof {
            candidates.lemma_values(9);
            lemma_refines_trans(g1, g1, g1);
            lemma_min_cell(g1, row as int, col as int);
            lemma_total_bounds(g1);
        }
        let mut idx: usize = 0;
        while idx < values.len()
            invariant
                self.wf(),
                g1 == old(self)@,
                self.verbose() == old(self).verbose(),
                t0 == old(assignments)@,
                assignments@ == t0,
                self@ == g1,
                grid_cells(old_grid) == g1,
                grid_wf(g1),
                !complete(g1),
                row < 9,
                col < 9,
                idx <= values@.len(),
                g1[row as int][col as int].count() >= 2,
                values@ == g1[row as int][col as int].values(),
                forall|i: int| 0 <= i < values@.len() ==> 1 <= #[trigger] values@[i] <= 9,
                settled(g1) ==> forall|i: int|
                    0 <= i < idx ==> excludes(g1, row as int, col as int, #[trigger] values@[i] as int),
                total(g1) >= 81,
                min_cell(g1) == (row as int, col as int),
                forall|f: nat|
                    f >= total(g1) ==> #[trigger] tried(
                        g1,
                        row as int,
                        col as int,
                        values@,
                        0,
                        t0,
                        f,
                    ) == tried(g1, row as int, col as int, values@, idx as int, t0, f),
            decreases values.len() - idx,
        {
            let value: u8 = values[idx];
            assignments.push(((row, col), value));
            let ghost pushed = assignments@;
            let first = self.assign(row, col, value);
            let ghost mid = self@;
            proof {
                assert(pushed == t0.push(((row, col), value)));
                assert forall|f: nat| f >= total(g1) implies #[trigger] assigned(
                    g1,
                    row as int,
                    col as int,
                    values@[idx as int] as int,
                    f,
                ) == (mid, failure(first)) by {}
                if first is Err {
                    assert forall|f: nat| f >= total(g1) implies #[trigger] tried(
                        g1,
                        row as int,
                        col as int,
                        values@,
                        0,
                        t0,
                        f,
                    ) == tried(g1, row as int, col as int, values@, idx as int + 1, t0, f) by {
                        assert(assigned(
                            g1,
                            row as int,
                            col as int,
                            values@[idx as int] as int,
                            f,
                        ) == (mid, failure(first)));
                    }
                }
            }
            if first.is_ok() {
                proof {
                    lemma_total_drop(g1, mid, row as int, col as int, value as int);
                    lemma_total(g1, mid);
                    assert(0 <= total(mid) < total(g1));
                }
                let second = self.find_solution(assignments);
                proof {
                    assert forall|f: nat| f >= total(g1) implies #[trigger] tried(
                        g1,
                        row as int,
                        col as int,
                        values@,
                        0,
                        t0,
                        f,
                    ) == (if second is Ok {
                        (self@, assignments@, None::<BoardError>)
                    } else {
                        tried(g1, row as int, col as int, values@, idx as int + 1, t0, f)
                    }) by {
                        assert(assigned(
                            g1,
                            row as int,
                            col as int,
                            values@[idx as int] as int,
                            f,
                        ) == (mid, failure(first)));
                        assert(search(mid, pushed, (f - 1) as nat) == (
                            self@,
                            assignments@,
                            failure(second),
                        ));
                    }
                }
                if second.is_ok() {
                    proof {
                        lemma_refines_trans(g1, mid, self@);
                        assert forall|f: nat| f >= total(g1) implies #[trigger] guessed(g1, t0, f)
                            == (self@, assignments@, None::<BoardError>) by {
                            assert(tried(g1, row as int, col as int, values@, 0, t0, f) == (
                                self@,
                                assignments@,
                                None::<BoardError>,
                            ));
                        }
                    }
                    return Ok(());
                }
                proof {
                    if settled(g1) {
                        lemma_failed_guess(g1, mid, row as int, col as int, value as int);
                    }
                }
            }
            assignments.pop();
            self.grid = grid_copy(&old_grid);
            proof {
                assert(assignments@ =~= t0);
            }
            idx = idx + 1;
        }
        proof {
            if settled(g1) {
                let cell = g1[row as int][col as int];
                assert forall|v: int| cell.has(v) implies #[trigger] excludes(
                    g1,
                    row as int,
                    col as int,
                    v,
                ) by {
                    assert(cell.values_to(9).contains(v as u8));
                    let i = choose|i: int| 0 <= i < values@.len() && values@[i] == v as u8;
                    assert(excludes(g1, row as int, col as int, values@[i] as int));
                }
                lemma_all_excluded(g1, row as int, col as int);
            }
            assert forall|f: nat| f >= total(g1) implies #[trigger] guessed(g1, t0, f) == (
                g1,
                t0,
                Some(BoardError::NoSolutionFound),
            ) by {
                assert(tried(g1, row as int, col as int, values@, 0, t0, f) == tried(
                    g1,
                    row as int,
                    col as int,
                    values@,
                    values@.len() as int,
                    t0,
                    f,
                ));
            }
        }
        Err(BoardError::NoSolutionFound)
    }

    /// Solves the board: assigns hidden singles until a pass finds none;
    /// then, if every cell is solved, checks that every unit adds up to
    /// the checksum; else it guesses.
    pub fn find_solution(&mut self, assignments: &mut Vec<Forced>) -> (res: Result<
        (),
        BoardError,
    >)
        requires
            old(self).wf(),
        ensures
            final(self).wf(),
            final(self).verbose() == old(self).verbose(),
            refines(old(self)@, final(self)@),
            match res {
                Ok(()) => {
                    &&& complete(final(self)@)
                    &&& sums_ok(final(self)@)
                    &&& begins_with(final(assignments)@, old(assignments)@)
                    &&& settled(old(self)@) ==> settled(final(self)@)
                },
                Err(e) => {
                    &&& final(assignments)@ == old(assignments)@
                    &&& settled(old(self)@) ==> unsolvable(old(self)@)
                    &&& match e {
                        BoardError::InvalidBoard => complete(final(self)@) && !sums_ok(
                            final(self)@,
                        ),
                        BoardError::NoSolutionFound => !complete(final(self)@) && hidden_singles(
                            final(self)@,
                        ).len() == 0,
                        BoardError::InvalidAssignment { row, col, value } => row < 9 && col < 9
                            && 1 <= value <= 9 && !final(self)@[row as int][col as int].has(
                            value as int,
                        ),
                        BoardError::InvalidCell { row, col, from } => from == Sector::Quadrant
                            && row < 9 && col < 9 && box_clash(
                            final(self)@,
                            row as int,
                            col as int,
                        ),
                        _ => false,
                    }
                },
            },
            res is Ok && final(assignments)@.len() == old(assignments)@.len() && settled(
                old(self)@,
            ) ==> keeps(old(self)@, final(self)@),
            forall|fuel: nat|
                fuel >= total(old(self)@) ==> #[trigger] search(
                    old(self)@,
                    old(assignments)@,
                    fuel,
                ) == (final(self)@, final(assignments)@, failure(res)),
        decreases total(old(self)@), 1int,
    {
        let ghost g0 = self@;
        let ghost t0 = assignments@;
        match self.assign_hidden_singles() {
            Err(e) => {
                proof {
                    assert forall|fuel: nat| fuel >= total(g0) implies #[trigger] search(
                        g0,
                        t0,
                        fuel,
                    ) == (self@, t0, Some(e)) by {
                        assert(hidden_rounds(g0, fuel) == (self@, Some(e)));
                    }
                }
                return Err(e);
            },
            Ok(()) => {},
        }
        let ghost g1 = self@;
        proof {
            lemma_total(g0, g1);
            assert forall|fuel: nat| fuel >= total(g0) implies #[trigger] search(g0, t0, fuel) == (
            if complete(g1) {
                (
                    g1,
                    t0,
                    if sums_ok(g1) {
                        None
                    } else {
                        Some(BoardError::InvalidBoard)
                    },
                )
            } else {
                guessed(g1, t0, fuel)
            }) by {
                assert(hidden_rounds(g0, fuel) == (g1, None::<BoardError>));
            }
        }
        if self.is_solved() {
            if self.is_valid() {
                return Ok(());
            } else {
                proof {
                    lemma_bad_sums(g1);
                    if settled(g0) {
                        lemma_keeps_unsolvable(g0, g1);
                    }
                }
                return Err(BoardError::InvalidBoard);
            }
        }
        let res = self.guess(assignments);
        proof {
            lemma_refines_trans(g0, g1, self@);
            if res is Err && settled(g0) {
                lemma_keeps_unsolvable(g0, g1);
            }
            assert forall|fuel: nat| fuel >= total(g0) implies #[trigger] search(g0, t0, fuel) == (
                self@,
                assignments@,
                failure(res),
            ) by {
                assert(guessed(g1, t0, fuel) == (self@, assignments@, failure(res)));
            }
        }
        res
    }

    /// Solves the board. On success every cell holds one value and every
    /// row, column and box adds up to the checksum. A settled board that
    /// some solution fits is solved.
    pub fn solve(&mut self) -> (res: Result<(), BoardError>)
        requires
            old(self).wf(),
        ensures
            final(self).wf(),
            final(self).verbose() == old(self).verbose(),
            refines(old(self)@, final(self)@),
            match res {
                Ok(()) => {
                    &&& complete(final(self)@)
                    &&& sums_ok(final(self)@)
                    &&& settled(old(self)@) ==> settled(final(self)@)
                },
                Err(e) => {
                    &&& settled(old(self)@) ==> unsolvable(old(self)@)
                    &&& match e {
                        BoardError::InvalidBoard => complete(final(self)@) && !sums_ok(
                            final(self)@,
                        ),
                        BoardError::NoSolutionFound => !complete(final(self)@) && hidden_singles(
                            final(self)@,
                        ).len() == 0,
                        BoardError::InvalidAssignment { row, col, value } => row < 9 && col < 9
                            && 1 <= value <= 9 && !final(self)@[row as int][col as int].has(
                            value as int,
                        ),
                        BoardError::InvalidCell { row, col, from } => from == Sector::Quadrant
                            && row < 9 && col < 9 && box_clash(
                            final(self)@,
                            row as int,
                            col as int,
                        ),
                        _ => false,
                    }
                },
            },
            settled(old(self)@) && !unsolvable(old(self)@) ==> res is Ok,
            res is Ok && no_repeats(final(self)@) ==> is_solution(values_of(final(self)@)) && fits(
                values_of(final(self)@),
                final(self)@,
            ),
            (forall|g: Cells|
                grid_wf(g) && refines(old(self)@, g) && #[trigger] complete(g) ==> !sums_ok(g))
                ==> res is Err,
            forall|fuel: nat|
                fuel >= total(old(self)@) ==> (#[trigger] search(
                    old(self)@,
                    Seq::<Forced>::empty(),
                    fuel,
                )).0 == final(self)@ && search(old(self)@, Seq::<Forced>::empty(), fuel).2
                    == failure(res),
    {
        let mut trail: Vec<Forced> = Vec::new();
        let res = self.find_solution(&mut trail);
        proof {
            if res is Ok {
                assert(complete(self@) && grid_wf(self@));
                if no_repeats(self@) {
                    lemma_solved_grid(self@, 0);
                }
            }
        }
        res
    }

    /// Builds the board of a puzzle given as 81 characters, row by row: a
    /// digit is a given, `_` or `.` an unknown cell. Each given is assigned
    /// in turn, and its value eliminated around it. The board that comes
    /// out is fitted by exactly the solutions that agree with the givens.
    pub fn new(input: &str, verbose: bool) -> (res: Result<Self, BoardError>)
        ensures
            !valid_format(input@) <==> (res matches Err(e) && e == BoardError::InvalidFormat),
            valid_format(input@) && givens(input@, 81) < 17 <==> (res matches Err(e) && e
                == BoardError::NotEnoughEntries),
            match res {
                Ok(b) => {
                    &&& b.wf()
                    &&& settled(b@)
                    &&& b.verbose() == verbose
                    &&& placed(input@, b@, 81)
                    &&& forall|s: Filled|
                        is_solution(s) ==> (#[trigger] agrees(s, input@, 81) <==> fits(s, b@))
                    &&& placed_to(input@, 81) == (b@, None::<BoardError>)
                },
                Err(BoardError::InvalidFormat) => true,
                Err(BoardError::NotEnoughEntries) => true,
                Err(BoardError::InvalidAssignment { row, col, value }) => {
                    &&& row < 9
                    &&& col < 9
                    &&& is_digit(input@[row * 9 + col])
                    &&& value == digit_value(input@[row * 9 + col])
                    &&& forall|s: Filled| is_solution(s) ==> !#[trigger] agrees(s, input@, 81)
                    &&& placed_to(input@, 81).1 == Some(
                        BoardError::InvalidAssignment { row, col, value },
                    )
                },
                Err(BoardError::InvalidCell { row, col, from }) => {
                    &&& from == Sector::Quadrant
                    &&& row < 9
                    &&& col < 9
                    &&& forall|s: Filled| is_solution(s) ==> !#[trigger] agrees(s, input@, 81)
                    &&& placed_to(input@, 81).1 == Some(BoardError::InvalidCell { row, col, from })
                },
                Err(_) => false,
            },
    {
        let info = BoardInfo::new_9x9();
        let n: usize = input.unicode_len();
        if n != info.dimmension() {
            return Err(BoardError::InvalidFormat);
        }
        let mut i: usize = 0;
        while i < n
            invariant
                info.is_classic(),
                n == 81,
                n == input@.len(),
                i <= n,
                forall|k: int| 0 <= k < i ==> info.pattern@.contains(#[trigger] input@[k]),
            decreases n - i,
        {
            if !info.accepts(input.get_char(i)) {
                return Err(BoardError::InvalidFormat);
            }
            i = i + 1;
        }
        let mut digit_count: usize = 0;
        i = 0;
        while i < n
            invariant
                n == 81,
                n == input@.len(),
                i <= n,
                digit_count == givens(input@, i as int),
                digit_count <= i,
            decreases n - i,
        {
            if digit_of(input.get_char(i)).is_some() {
                digit_count = digit_count + 1;
            }
            i = i + 1;
        }
        if digit_count < info.minimum_entries {
            return Err(BoardError::NotEnoughEntries);
        }
        let grid = grid_filled(info.side, info.side, CandidateSet::new());
        let quadrants = table_built(info.box_side, info.box_side);
        let mut board = Self { grid, quadrants, info, verbose };
        proof {
            assert(grid_wf(board@));
            assert(settled(board@));
            assert(board@ =~~= full_grid());
            CandidateSet::lemma_full();
            assert forall|s: Filled| is_solution(s) implies fits(s, board@) by {
                assert forall|r: int, c: int| in_grid(r, c) implies #[trigger] board@[r][c].has(
                    s[r][c],
                ) by {
                    assert(CandidateSet(0x1FF)@.contains(s[r][c]));
                }
            }
        }
        let mut idx: usize = 0;
        while idx < n
            invariant
                n == 81,
                n == input@.len(),
                idx <= n,
                valid_format(input@),
                givens(input@, 81) >= 17,
                board.wf(),
                board.verbose() == verbose,
                settled(board@),
                placed(input@, board@, idx as int),
                placed_to(input@, idx as int) == (board@, None::<BoardError>),
                forall|s: Filled|
                    is_solution(s) && #[trigger] agrees(s, input@, idx as int) ==> fits(s, board@),
            decreases n - idx,
        {
            let ch = input.get_char(idx);
            let ghost pre = board@;
            match digit_of(ch) {
                Some(digit) => {
                    let side: usize = board.info.side;
                    proof {
                        lemma_alphabet_digit(ch);
                    }
                    let res = board.assign(idx / side, idx % side, digit);
                    proof {
                        lemma_total_bounds(pre);
                        assert(assigned(pre, idx as int / 9, idx as int % 9, digit as int, 729) == (
                            board@,
                            failure(res),
                        ));
                        assert(placed_to(input@, idx as int + 1) == (board@, failure(res)));
                    }
                    match res {
                        Err(e) => {
                            proof {
                                lemma_placed_stuck(input@, idx as int + 1, 81);
                                assert forall|s: Filled| is_solution(s) implies !#[trigger] agrees(
                                    s,
                                    input@,
                                    81,
                                ) by {
                                    if agrees(s, input@, 81) {
                                        assert(agrees(s, input@, idx as int));
                                        assert(fits(s, pre));
                                        assert(s[idx as int / 9][idx as int % 9] == digit);
                                    }
                                }
                            }
                            return Err(e);
                        },
                        Ok(()) => {},
                    }
                    proof {
                        let post = board@;
                        assert forall|k: int| 0 <= k < idx + 1 && is_digit(
                            #[trigger] input@[k],
                        ) implies post[k / 9][k % 9] == CandidateSet(
                            mask(digit_value(input@[k])),
                        ) by {
                            if k < idx {
                                lemma_alphabet_digit(input@[k]);
                                CandidateSet::lemma_mask_single(digit_value(input@[k]));
                                lemma_refines_single(pre, post, k / 9, k % 9);
                            }
                        }
                        assert forall|s: Filled|
                            is_solution(s) && #[trigger] agrees(
                                s,
                                input@,
                                idx as int + 1,
                            ) implies fits(s, post) by {
                            assert(agrees(s, input@, idx as int));
                            assert(fits(s, pre));
                            assert(s[idx as int / 9][idx as int % 9] == digit);
                        }
                    }
                },
                None => {
                    proof {
                        assert(placed_to(input@, idx as int + 1) == (pre, None::<BoardError>));
                        assert forall|s: Filled|
                            is_solution(s) && #[trigger] agrees(
                                s,
                                input@,
                                idx as int + 1,
                            ) implies fits(s, pre) by {
                            assert(agrees(s, input@, idx as int));
                        }
                    }
                },
            }
            idx = idx + 1;
        }
        proof {
            let g = board@;
            assert forall|s: Filled| is_solution(s) && fits(s, g) implies #[trigger] agrees(
                s,
                input@,
                81,
            ) by {
                assert forall|k: int| 0 <= k < 81 && is_digit(#[trigger] input@[k]) implies s[k
                    / 9][k % 9] == digit_value(input@[k]) by {
                    lemma_alphabet_digit(input@[k]);
                    CandidateSet::lemma_mask_single(digit_value(input@[k]));
                    assert(g[k / 9][k % 9].has(s[k / 9][k % 9]));
                    g[k / 9][k % 9].lemma_one(s[k / 9][k % 9], digit_value(input@[k]));
                }
            }
        }
        Ok(board)
    }
}

} // verus!
