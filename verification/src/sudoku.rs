//! The grid: nine blocks of nine places, with its rows, columns and checks.
use crate::grid::{grid_ok, grid_solved, in_unit, is_grid, place_in_unit, unit_cell, unit_of};
use crate::sk_box::{Box, BoxView};
use crate::sk_cell::{array_check, take_three, Cell};
use crate::unit::{ref_views, unit_view};
use vstd::prelude::*;

verus! {

/// A 9×9 grid, stored as nine 3×3 blocks, row by row.
#[derive(PartialEq, Copy, Clone, Debug)]
pub struct Sudoku {
    pub cells: [Cell; 9],
}

impl View for Sudoku {
    type V = Seq<Seq<BoxView>>;

    open spec fn view(&self) -> Seq<Seq<BoxView>> {
        Seq::new(9, |c: int| self.cells[c]@)
    }
}

/// Two grids with the same views hold the same places.
pub proof fn lemma_sudoku_ext(a: Sudoku, b: Sudoku)
    requires
        a@ == b@,
    ensures
        a == b,
{
    assert forall|c: int| 0 <= c < 9 implies a.cells[c] == b.cells[c] by {
        assert(a@[c] == a.cells[c]@);
        assert(b@[c] == b.cells[c]@);
        crate::unit::lemma_unit_ext(a.cells[c].boxes, b.cells[c].boxes);
    }
    assert(a.cells =~= b.cells);
}

/// The view of a grid has nine blocks of nine places, each with ten flags.
pub proof fn lemma_sudoku_proper(s: Sudoku)
    ensures
        is_grid(s@),
        crate::line::is_proper(s@),
{
    assert forall|c: int, k: int| 0 <= c < 9 && 0 <= k < 9 implies (#[trigger] s@[c][k]).poss.len()
        == 10 by {
        assert(s@[c] == s.cells[c]@);
        assert(s@[c][k] == s.cells[c].boxes[k]@);
    }
}

/// Which of the three numbers `first`, `first + step` and `first + 2 * step`
/// is `x`: 0, 1 or 2; or -1 if it is none of them.
pub open spec fn slot(x: int, first: int, step: int) -> int {
    if x == first {
        0
    } else if x == first + step {
        1
    } else if x == first + 2 * step {
        2
    } else {
        -1
    }
}

/// The `t`-th of the three numbers `first`, `first + step` and `first + 2 * step`.
pub open spec fn nth_of(first: int, step: int, t: int) -> int {
    if t == 0 {
        first
    } else if t == 1 {
        first + step
    } else {
        first + 2 * step
    }
}

/// Which of nine places the place at spot `b` of block `c` is, where the
/// nine are three places, from `first_box` on and `box_step` apart, of each
/// of three blocks, from `first_cell` on and `cell_step` apart; or -1 if it
/// is none of them.
pub open spec fn nine_slot(
    c: int,
    b: int,
    first_cell: usize,
    cell_step: usize,
    first_box: usize,
    box_step: usize,
) -> int {
    if slot(c, first_cell as int, cell_step as int) >= 0 && slot(
        b,
        first_box as int,
        box_step as int,
    ) >= 0 {
        3 * slot(c, first_cell as int, cell_step as int) + slot(
            b,
            first_box as int,
            box_step as int,
        )
    } else {
        -1
    }
}

/// Three blocks of the grid, to be changed in place: those at `first`,
/// `first + step` and `first + 2 * step`.
#[verifier::rlimit(80)]
fn three_cells<'a>(cells: &'a mut [Cell; 9], first: usize, step: usize) -> (result: (
    &'a mut Cell,
    &'a mut Cell,
    &'a mut Cell,
))
    requires
        1 <= step <= 3,
        first + 2 * step < 9,
    ensures
        *result.0 == old(cells)[first as int],
        *result.1 == old(cells)[first + step],
        *result.2 == old(cells)[first + 2 * step],
        forall|c: int|
            0 <= c < 9 ==> #[trigger] final(cells)[c] == (if c == first {
                *final(result.0)
            } else if c == first + step {
                *final(result.1)
            } else if c == first + 2 * step {
                *final(result.2)
            } else {
                old(cells)[c]
            }),
{
    let slice: &mut [Cell] = cells;
    let (_, from) = slice.split_at_mut(first);
    let (a, rest) = from.split_at_mut(1);
    let (_, rest) = rest.split_at_mut(step - 1);
    let (b, rest) = rest.split_at_mut(1);
    let (_, rest) = rest.split_at_mut(step - 1);
    let (c, _) = rest.split_at_mut(1);
    (&mut a[0], &mut b[0], &mut c[0])
}

/// Nine places of the grid, to be changed in place: three places, from
/// `first_box` on and `box_step` apart, of each of three blocks, from
/// `first_cell` on and `cell_step` apart.
fn take_nine<'a>(
    cells: &'a mut [Cell; 9],
    first_cell: usize,
    cell_step: usize,
    first_box: usize,
    box_step: usize,
) -> (result: Vec<&'a mut Box>)
    requires
        1 <= cell_step <= 3,
        first_cell + 2 * cell_step < 9,
        1 <= box_step <= 3,
        first_box + 2 * box_step < 9,
    ensures
        result@.len() == 9,
        forall|k: int|
            0 <= k < 9 ==> *(#[trigger] result@[k]) == old(cells)[nth_of(
                first_cell as int,
                cell_step as int,
                k / 3,
            )].boxes[nth_of(first_box as int, box_step as int, k % 3)],
        forall|c: int, b: int|
            0 <= c < 9 && 0 <= b < 9 ==> #[trigger] final(cells)[c].boxes[b] == (if nine_slot(
                c,
                b,
                first_cell,
                cell_step,
                first_box,
                box_step,
            ) >= 0 {
                *final(result@[nine_slot(c, b, first_cell, cell_step, first_box, box_step)])
            } else {
                old(cells)[c].boxes[b]
            }),
{
    let mut result: Vec<&mut Box> = Vec::new();
    let (a, b, c) = three_cells(cells, first_cell, cell_step);
    take_three(a, first_box, box_step, &mut result);
    take_three(b, first_box, box_step, &mut result);
    take_three(c, first_box, box_step, &mut result);
    result
}

impl Sudoku {
    /// The nine places of row `row`, from left to right, to be changed in
    /// place: what is written through the `k`-th reference is written to
    /// place `k` of the row, and no other place of the grid changes.
    pub fn get_row_mut<'a>(&'a mut self, row: usize) -> (result: Vec<&'a mut Box>)
        requires
            row < 9,
        ensures
            result@.len() == 9,
            ref_views(result@) == unit_of(old(self)@, 9 + row),
            forall|c: int, b: int|
                0 <= c < 9 && 0 <= b < 9 ==> (#[trigger] final(self)@[c][b]) == (if in_unit(
                    9 + row,
                    c,
                    b,
                ) {
                    final(result@[place_in_unit(9 + row, c, b)])@
                } else {
                    old(self)@[c][b]
                }),
    {
        let cell_offset = (row / 3) * 3;
        let box_offset = (row % 3) * 3;
        let result = take_nine(&mut self.cells, cell_offset, 1, box_offset, 1);
        proof {
            assert forall|k: int| 0 <= k < 9 implies #[trigger] ref_views(result@)[k] == unit_of(
                old(self)@,
                9 + row,
            )[k] by {
                assert(*result@[k] == old(self).cells[nth_of(
                    cell_offset as int,
                    1,
                    k / 3,
                )].boxes[nth_of(box_offset as int, 1, k % 3)]);
                assert(old(self)@[unit_cell(9 + row, k)] == old(self).cells[unit_cell(
                    9 + row,
                    k,
                )]@);
            }
            assert(ref_views(result@) =~= unit_of(old(self)@, 9 + row));
        }
        result
    }

    /// The nine places of column `col`, from the top down, to be changed in
    /// place: what is written through the `k`-th reference is written to
    /// place `k` of the column, and no other place of the grid changes.
    pub fn get_col_mut<'a>(&'a mut self, col: usize) -> (result: Vec<&'a mut Box>)
        requires
            col < 9,
        ensures
            result@.len() == 9,
            ref_views(result@) == unit_of(old(self)@, 18 + col),
            forall|c: int, b: int|
                0 <= c < 9 && 0 <= b < 9 ==> (#[trigger] final(self)@[c][b]) == (if in_unit(
                    18 + col,
                    c,
                    b,
                ) {
                    final(result@[place_in_unit(18 + col, c, b)])@
                } else {
                    old(self)@[c][b]
                }),
    {
        let cell_offset = col / 3;
        let box_offset = col % 3;
        let result = take_nine(&mut self.cells, cell_offset, 3, box_offset, 3);
        proof {
            assert forall|k: int| 0 <= k < 9 implies #[trigger] ref_views(result@)[k] == unit_of(
                old(self)@,
                18 + col,
            )[k] by {
                assert(*result@[k] == old(self).cells[nth_of(
                    cell_offset as int,
                    3,
                    k / 3,
                )].boxes[nth_of(box_offset as int, 3, k % 3)]);
                assert(old(self)@[unit_cell(18 + col, k)] == old(self).cells[unit_cell(
                    18 + col,
                    k,
                )]@);
            }
            assert(ref_views(result@) =~= unit_of(old(self)@, 18 + col));
        }
        result
    }

    /// A grid of 81 blank places.
    pub fn blank() -> (result: Sudoku)
        ensures
            forall|c: int, b: int|
                0 <= c < 9 && 0 <= b < 9 ==> (#[trigger] result@[c][b]) == BoxView::blank(),
    {
        let result = Sudoku { cells: [Cell::blank(); 9] };
        assert forall|c: int, b: int| 0 <= c < 9 && 0 <= b < 9 implies (#[trigger] result@[c][b])
            == BoxView::blank() by {
            assert(result@[c] == result.cells[c]@);
        }
        result
    }

    /// The nine places of row `row`, from left to right.
    pub fn get_row(&self, row: usize) -> (result: [Box; 9])
        requires
            row < 9,
        ensures
            unit_view(result) == unit_of(self@, 9 + row),
    {
        let cell_offset = (row / 3) * 3;
        let box_offset = (row % 3) * 3;
        let result = [
            self.lookup(cell_offset, box_offset),
            self.lookup(cell_offset, box_offset + 1),
            self.lookup(cell_offset, box_offset + 2),
            self.lookup(cell_offset + 1, box_offset),
            self.lookup(cell_offset + 1, box_offset + 1),
            self.lookup(cell_offset + 1, box_offset + 2),
            self.lookup(cell_offset + 2, box_offset),
            self.lookup(cell_offset + 2, box_offset + 1),
            self.lookup(cell_offset + 2, box_offset + 2),
        ];
        assert(unit_view(result) =~= unit_of(self@, 9 + row));
        result
    }

    /// The nine places of column `col`, from the top down.
    pub fn get_col(&self, col: usize) -> (result: [Box; 9])
        requires
            col < 9,
        ensures
            unit_view(result) == unit_of(self@, 18 + col),
    {
        let cell_offset = col / 3;
        let box_offset = col % 3;
        let result = [
            self.lookup(cell_offset, box_offset),
            self.lookup(cell_offset, box_offset + 3),
            self.lookup(cell_offset, box_offset + 6),
            self.lookup(cell_offset + 3, box_offset),
            self.lookup(cell_offset + 3, box_offset + 3),
            self.lookup(cell_offset + 3, box_offset + 6),
            self.lookup(cell_offset + 6, box_offset),
            self.lookup(cell_offset + 6, box_offset + 3),
            self.lookup(cell_offset + 6, box_offset + 6),
        ];
        assert(unit_view(result) =~= unit_of(self@, 18 + col));
        result
    }

    /// The place at spot `box_idx` of block `cell_idx`.
    pub fn lookup(&self, cell_idx: usize, box_idx: usize) -> (result: Box)
        requires
            cell_idx < 9,
            box_idx < 9,
        ensures
            result == self.cells[cell_idx as int].boxes[box_idx as int],
            result@ == self@[cell_idx as int][box_idx as int],
    {
        assert(self@[cell_idx as int] == self.cells[cell_idx as int]@);
        self.cells[cell_idx].boxes[box_idx]
    }

    /// The block `cell_idx`.
    pub fn get_cell(&self, cell_idx: usize) -> (result: Cell)
        requires
            cell_idx < 9,
        ensures
            result == self.cells[cell_idx as int],
            result@ == self@[cell_idx as int],
    {
        self.cells[cell_idx]
    }

    /// The block and the spot within it of the place in column `col` and
    /// row `row` of the grid, both counted from 1.
    pub fn col_row_to_cell_idx(col: usize, row: usize) -> (result: (usize, usize))
        requires
            1 <= col,
            1 <= row,
            (col - 1) / 3 + ((row - 1) / 3) * 3 <= usize::MAX,
        ensures
            result.0 == (col - 1) / 3 + ((row - 1) / 3) * 3,
            result.1 == (col - 1) % 3 + ((row - 1) % 3) * 3,
            col <= 9 && row <= 9 ==> result.0 == crate::grid::unit_cell(8 + row, col - 1)
                && result.1 == crate::grid::unit_box(8 + row, col - 1),
    {
        let cell = ((col - 1) / 3) + (((row - 1) / 3) * 3);
        let col_in_cell = (col - 1) % 3;
        let row_in_cell = (row - 1) % 3;
        let idx = col_in_cell + (row_in_cell * 3);
        (cell, idx)
    }

    /// Puts `sk_box` at column `col` and row `row` of the grid, both counted from 1.
    pub fn box_set(&mut self, col: usize, row: usize, sk_box: Box)
        requires
            1 <= col <= 9,
            1 <= row <= 9,
        ensures
            final(self)@ == old(self)@.update(
                crate::grid::unit_cell(8 + row, col - 1),
                old(self)@[crate::grid::unit_cell(8 + row, col - 1)].update(
                    crate::grid::unit_box(8 + row, col - 1),
                    sk_box@,
                ),
            ),
    {
        let (cell, idx) = Self::col_row_to_cell_idx(col, row);
        self.cells[cell].boxes[idx] = sk_box;
        proof {
            let h = old(self)@.update(cell as int, old(self)@[cell as int].update(idx as int, sk_box@));
            assert forall|c: int| 0 <= c < 9 implies #[trigger] self@[c] == h[c] by {
                assert(self@[c] == self.cells[c]@);
                assert(old(self)@[c] == old(self).cells[c]@);
                assert(self@[c] =~= h[c]);
            }
            assert(self@ =~= h);
        }
    }

    /// The place at column `col` and row `row` of the grid, both counted from 1.
    pub fn get_box(&self, col: usize, row: usize) -> (result: Box)
        requires
            1 <= col <= 9,
            1 <= row <= 9,
        ensures
            result@ == self@[crate::grid::unit_cell(8 + row, col - 1)][crate::grid::unit_box(
                8 + row,
                col - 1,
            )],
    {
        let (cell, idx) = Self::col_row_to_cell_idx(col, row);
        assert(self@[cell as int] == self.cells[cell as int]@);
        self.cells[cell].boxes[idx]
    }

    /// Whether the grid is coherent: in every block, row and column each
    /// place keeps its invariant and no digit is confirmed twice.
    pub fn check(&self) -> (result: bool)
        ensures
            result == grid_ok(self@),
    {
        proof {
            lemma_sudoku_proper(*self);
        }
        let mut n: usize = 0;
        while n < 27
            invariant
                0 <= n <= 27,
                is_grid(self@),
                forall|m: int| 0 <= m < n ==> crate::unit::unit_ok(#[trigger] unit_of(self@, m), false),
            decreases 27 - n,
        {
            let unit = self.get_unit(n);
            if !array_check(unit, false) {
                return false;
            }
            n += 1;
        }
        true
    }

    /// Whether every place of the grid has a confirmed digit.
    pub fn all_solved(&self) -> (result: bool)
        ensures
            result == grid_solved(self@),
    {
        let mut c: usize = 0;
        while c < 9
            invariant
                0 <= c <= 9,
                forall|x: int| 0 <= x < c ==> crate::sk_cell::all_solved(#[trigger] self@[x]),
            decreases 9 - c,
        {
            assert(self@[c as int] == self.cells[c as int]@);
            if !self.cells[c].solved() {
                return false;
            }
            c += 1;
        }
        true
    }

    /// Whether the grid, which is coherent, is solved: whether every place has a confirmed digit.
    pub fn solved(&self) -> (result: bool)
        requires
            grid_ok(self@),
        ensures
            result == grid_solved(self@),
    {
        self.all_solved()
    }

    /// Solves the grid as far as deduction goes: rounds of single position,
    /// naked sets and candidate lines, until every place has a confirmed
    /// digit or a round changes nothing.
    pub fn solve(&mut self)
        requires
            crate::rounds::can_solve(old(self)@),
        ensures
            crate::rounds::solves_to(old(self)@, final(self)@),
            grid_ok(final(self)@),
            crate::grid::grid_shrinks_to(old(self)@, final(self)@),
    {
        crate::rounds::solve_rounds(self, false);
    }

    /// Solves the grid as far as deduction goes, where that can be done. On
    /// a grid that is not coherent, or on which a technique cannot be
    /// applied or leaves the grid incoherent, the grid stays as it was and
    /// the result is `false`.
    pub fn try_solve(&mut self) -> (ok: bool)
        ensures
            ok == crate::rounds::can_solve(old(self)@),
            ok ==> crate::rounds::solves_to(old(self)@, final(self)@),
            ok ==> grid_ok(final(self)@),
            ok ==> crate::grid::grid_shrinks_to(old(self)@, final(self)@),
            !ok ==> *final(self) == *old(self),
    {
        crate::rounds::solve_rounds(self, true)
    }

    /// The nine places of unit `n`: of a block for `n` below 9, of a row for
    /// `n` from 9 to 17, of a column for `n` from 18 to 26.
    pub fn get_unit(&self, n: usize) -> (result: [Box; 9])
        requires
            n < 27,
        ensures
            unit_view(result) == unit_of(self@, n as int),
    {
        if n < 9 {
            let result = self.cells[n].boxes;
            assert(self@[n as int] == self.cells[n as int]@);
            assert(unit_view(result) =~= unit_of(self@, n as int));
            result
        } else if n < 18 {
            self.get_row(n - 9)
        } else {
            self.get_col(n - 18)
        }
    }

    /// The nine places of unit `n`, to be changed in place: of a block for
    /// `n` below 9, of a row for `n` from 9 to 17, of a column for `n` from
    /// 18 to 26. What is written through the `k`-th reference is written to
    /// place `k` of the unit, and no other place of the grid changes.
    pub fn get_unit_mut<'a>(&'a mut self, n: usize) -> (result: Vec<&'a mut Box>)
        requires
            n < 27,
        ensures
            result@.len() == 9,
            ref_views(result@) == unit_of(old(self)@, n as int),
            forall|c: int, b: int|
                0 <= c < 9 && 0 <= b < 9 ==> (#[trigger] final(self)@[c][b]) == (if in_unit(
                    n as int,
                    c,
                    b,
                ) {
                    final(result@[place_in_unit(n as int, c, b)])@
                } else {
                    old(self)@[c][b]
                }),
    {
        if n < 9 {
            let result = self.cells[n].get_mut();
            proof {
                assert(old(self)@[n as int] == old(self).cells[n as int]@);
                assert(ref_views(result@) =~= unit_of(old(self)@, n as int));
            }
            result
        } else if n < 18 {
            self.get_row_mut(n - 9)
        } else {
            self.get_col_mut(n - 18)
        }
    }
}

} // verus!
