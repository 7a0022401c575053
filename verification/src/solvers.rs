//! The deduction techniques, each as one pass over the grid.
//!
//! The names of the techniques are the usual ones: single position and
//! single candidate, naked sets, candidate lines.
use crate::bits::{has_bit, lemma_bit_zero};
use crate::grid::{in_unit, is_grid, place_in_unit, unit_of, with_unit};
use crate::line::{
    constant_lines, has_many, is_line, is_proper, lemma_progress_line, lemma_progress_next,
    lemma_progress_skip, lemma_progress_start, lemma_spots_confined, lies_on, line_pass,
    line_progress, many_spots, strike_line,
};
use crate::sk_cell::spots;
use crate::naked::{can_naked_set, can_naked_set_boxes, naked_set_array, naked_set_unit};
use crate::single::{can_narrow, can_single_position, single_position_array, single_position_unit};
use crate::sk_box::BoxView;
use crate::sudoku::{lemma_sudoku_proper, Sudoku};
use crate::unit::ref_views;

use vstd::prelude::*;

verus! {

/// The grid after single position has passed over its first `n` units, in order.
pub open spec fn single_pass(g: Seq<Seq<BoxView>>, n: int) -> Seq<Seq<BoxView>>
    decreases n,
{
    if n <= 0 {
        g
    } else {
        with_unit(
            single_pass(g, n - 1),
            n - 1,
            single_position_unit(unit_of(single_pass(g, n - 1), n - 1)),
        )
    }
}

/// Whether single position can pass over the first `n` units of the grid, in order.
pub open spec fn can_single_pass(g: Seq<Seq<BoxView>>, n: int) -> bool {
    forall|m: int| 0 <= m < n ==> can_narrow(#[trigger] unit_of(single_pass(g, m), m))
}

/// The grid after naked sets has passed over its first `n` units, in order.
pub open spec fn naked_pass(g: Seq<Seq<BoxView>>, n: int) -> Seq<Seq<BoxView>>
    decreases n,
{
    if n <= 0 {
        g
    } else {
        with_unit(
            naked_pass(g, n - 1),
            n - 1,
            naked_set_unit(unit_of(naked_pass(g, n - 1), n - 1)),
        )
    }
}

/// Whether naked sets can pass over the first `n` units of the grid, in order.
pub open spec fn can_naked_pass(g: Seq<Seq<BoxView>>, n: int) -> bool {
    forall|m: int| 0 <= m < n ==> can_naked_set(#[trigger] unit_of(naked_pass(g, m), m))
}

/// The grid is `g` with the places of unit `n` as `u` has them, where every
/// other place is as in `g` and every place of the unit is as in `u`.
proof fn lemma_unit_written(g: Seq<Seq<BoxView>>, h: Seq<Seq<BoxView>>, n: int, u: Seq<BoxView>)
    requires
        0 <= n < 27,
        is_grid(h),
        forall|c: int, b: int|
            0 <= c < 9 && 0 <= b < 9 ==> (#[trigger] h[c][b]) == (if in_unit(n, c, b) {
                u[place_in_unit(n, c, b)]
            } else {
                g[c][b]
            }),
    ensures
        h == with_unit(g, n, u),
{
    let w = with_unit(g, n, u);
    assert forall|c: int| 0 <= c < 9 implies #[trigger] h[c] == w[c] by {
        assert(h[c] =~= w[c]);
    }
    assert(h =~= w);
}

/// Single position over the blocks of the grid, one after the other.
fn single_position_cells(sudoku: &mut Sudoku)
    requires
        can_single_pass(old(sudoku)@, 9),
    ensures
        final(sudoku)@ == single_pass(old(sudoku)@, 9),
{
    let ghost g = sudoku@;
    for i in 0..9
        invariant
            g == old(sudoku)@,
            can_single_pass(g, 9),
            sudoku@ == single_pass(g, i as int),
    {
        let ghost before = sudoku@;
        let ghost cells = sudoku.cells;
        let boxes = sudoku.cells[i].get_mut();
        proof {
            assert(before[i as int] == cells[i as int]@);
            assert(ref_views(boxes@) =~= unit_of(before, i as int));
        }
        single_position_array(boxes);
        proof {
            lemma_sudoku_proper(*sudoku);
            assert forall|c: int, b: int| 0 <= c < 9 && 0 <= b < 9 implies (
            #[trigger] sudoku@[c][b]) == (if in_unit(i as int, c, b) {
                single_position_unit(unit_of(before, i as int))[place_in_unit(i as int, c, b)]
            } else {
                before[c][b]
            }) by {
                assert(sudoku@[c] == sudoku.cells[c]@);
                assert(sudoku@[c][b] == sudoku.cells[c].boxes[b]@);
                assert(before[c] == cells[c]@);
                assert(before[c][b] == cells[c].boxes[b]@);
            }
            lemma_unit_written(
                before,
                sudoku@,
                i as int,
                single_position_unit(unit_of(before, i as int)),
            );
        }
    }
}

/// Strikes, in each block, the confirmed digits from the other places of the
/// block: single position over the nine blocks.
pub fn normalise(sudoku: &mut Sudoku)
    requires
        can_single_pass(old(sudoku)@, 9),
    ensures
        final(sudoku)@ == single_pass(old(sudoku)@, 9),
{
    single_position_cells(sudoku);
}

/// One pass of single position over the grid: over the nine blocks, then the
/// nine rows, then the nine columns.
pub fn single_position(sudoku: &mut Sudoku)
    requires
        can_single_pass(old(sudoku)@, 27),
    ensures
        final(sudoku)@ == single_pass(old(sudoku)@, 27),
{
    let ghost g = sudoku@;
    assert(can_single_pass(g, 9));
    single_position_cells(sudoku);

    for i in 0..9
        invariant
            g == old(sudoku)@,
            can_single_pass(g, 27),
            sudoku@ == single_pass(g, 9 + i),
    {
        let ghost before = sudoku@;
        single_position_array(sudoku.get_row_mut(i));
        proof {
            lemma_sudoku_proper(*sudoku);
            lemma_unit_written(
                before,
                sudoku@,
                9 + i,
                single_position_unit(unit_of(before, 9 + i)),
            );
        }
    }

    for i in 0..9
        invariant
            g == old(sudoku)@,
            can_single_pass(g, 27),
            sudoku@ == single_pass(g, 18 + i),
    {
        let ghost before = sudoku@;
        single_position_array(sudoku.get_col_mut(i));
        proof {
            lemma_sudoku_proper(*sudoku);
            lemma_unit_written(
                before,
                sudoku@,
                18 + i,
                single_position_unit(unit_of(before, 18 + i)),
            );
        }
    }
}

/// One pass of single position over the grid, where it can be made; where
/// it cannot, the grid stays as it was and the result is `false`.
pub fn try_single_position(sudoku: &mut Sudoku) -> (ok: bool)
    ensures
        ok == can_single_pass(old(sudoku)@, 27),
        ok ==> final(sudoku)@ == single_pass(old(sudoku)@, 27),
        !ok ==> *final(sudoku) == *old(sudoku),
{
    let snapshot: Sudoku = *sudoku;
    let ghost g = sudoku@;
    for i in 0..27
        invariant
            g == old(sudoku)@,
            snapshot == *old(sudoku),
            can_single_pass(g, i as int),
            sudoku@ == single_pass(g, i as int),
    {
        let ghost before = sudoku@;
        if !can_single_position(&sudoku.get_unit(i)) {
            *sudoku = snapshot;
            return false;
        }
        single_position_array(sudoku.get_unit_mut(i));
        proof {
            lemma_sudoku_proper(*sudoku);
            lemma_unit_written(
                before,
                sudoku@,
                i as int,
                single_position_unit(unit_of(before, i as int)),
            );
        }
    }
    true
}

/// One pass of naked sets over the grid: over the nine blocks, then the nine
/// rows, then the nine columns.
pub fn naked_set(sudoku: &mut Sudoku)
    requires
        can_naked_pass(old(sudoku)@, 27),
    ensures
        final(sudoku)@ == naked_pass(old(sudoku)@, 27),
{
    let ghost g = sudoku@;
    for i in 0..9
        invariant
            g == old(sudoku)@,
            can_naked_pass(g, 27),
            sudoku@ == naked_pass(g, i as int),
    {
        let ghost before = sudoku@;
        let ghost cells = sudoku.cells;
        let boxes = sudoku.cells[i].get_mut();
        proof {
            assert(before[i as int] == cells[i as int]@);
            assert(ref_views(boxes@) =~= unit_of(before, i as int));
        }
        naked_set_array(boxes);
        proof {
            lemma_sudoku_proper(*sudoku);
            assert forall|c: int, b: int| 0 <= c < 9 && 0 <= b < 9 implies (
            #[trigger] sudoku@[c][b]) == (if in_unit(i as int, c, b) {
                naked_set_unit(unit_of(before, i as int))[place_in_unit(i as int, c, b)]
            } else {
                before[c][b]
            }) by {
                assert(sudoku@[c] == sudoku.cells[c]@);
                assert(sudoku@[c][b] == sudoku.cells[c].boxes[b]@);
                assert(before[c] == cells[c]@);
                assert(before[c][b] == cells[c].boxes[b]@);
            }
            lemma_unit_written(
                before,
                sudoku@,
                i as int,
                naked_set_unit(unit_of(before, i as int)),
            );
        }
    }

    for i in 0..9
        invariant
            g == old(sudoku)@,
            can_naked_pass(g, 27),
            sudoku@ == naked_pass(g, 9 + i),
    {
        let ghost before = sudoku@;
        naked_set_array(sudoku.get_row_mut(i));
        proof {
            lemma_sudoku_proper(*sudoku);
            lemma_unit_written(before, sudoku@, 9 + i, naked_set_unit(unit_of(before, 9 + i)));
        }
    }

    for i in 0..9
        invariant
            g == old(sudoku)@,
            can_naked_pass(g, 27),
            sudoku@ == naked_pass(g, 18 + i),
    {
        let ghost before = sudoku@;
        naked_set_array(sudoku.get_col_mut(i));
        proof {
            lemma_sudoku_proper(*sudoku);
            lemma_unit_written(before, sudoku@, 18 + i, naked_set_unit(unit_of(before, 18 + i)));
        }
    }
}

/// One pass of naked sets over the grid, where it can be made; where it
/// cannot, the grid stays as it was and the result is `false`.
pub fn try_naked_set(sudoku: &mut Sudoku) -> (ok: bool)
    ensures
        ok == can_naked_pass(old(sudoku)@, 27),
        ok ==> final(sudoku)@ == naked_pass(old(sudoku)@, 27),
        !ok ==> *final(sudoku) == *old(sudoku),
{
    let snapshot: Sudoku = *sudoku;
    let ghost g = sudoku@;
    for i in 0..27
        invariant
            g == old(sudoku)@,
            snapshot == *old(sudoku),
            can_naked_pass(g, i as int),
            sudoku@ == naked_pass(g, i as int),
    {
        let ghost before = sudoku@;
        if !can_naked_set_boxes(&sudoku.get_unit(i)) {
            *sudoku = snapshot;
            return false;
        }
        naked_set_array(sudoku.get_unit_mut(i));
        proof {
            lemma_sudoku_proper(*sudoku);
            lemma_unit_written(
                before,
                sudoku@,
                i as int,
                naked_set_unit(unit_of(before, i as int)),
            );
        }
    }
    true
}

/// One pass of candidate lines over the grid, block by block: each digit
/// that is possible at two or more places of a block, all in one row or one
/// column of the block, is struck from that row or column in the two other
/// blocks through which it runs.
pub fn candidate_line(sudoku: &mut Sudoku)
    ensures
        final(sudoku)@ == line_pass(old(sudoku)@, 9),
{
    let lines = constant_lines();
    let ghost g0 = sudoku@;
    let mut cell_idx: usize = 0;
    while cell_idx < 9
        invariant
            0 <= cell_idx <= 9,
            forall|l: int| 0 <= l < 6 ==> is_line(#[trigger] lines[l], l),
            sudoku@ == line_pass(g0, cell_idx as int),
        decreases 9 - cell_idx,
    {
        let cell = sudoku.cells[cell_idx];
        let possibles = cell.bitmap_possibles();
        let ghost g = sudoku@;
        proof {
            lemma_sudoku_proper(*sudoku);
            lemma_progress_start(g, cell_idx as int);
            assert(g[cell_idx as int] == cell@);
        }
        let mut candidate_value: usize = 1;
        while candidate_value < 10
            invariant
                1 <= candidate_value <= 10,
                cell_idx < 9,
                is_proper(g),
                g[cell_idx as int] == cell@,
                forall|l: int| 0 <= l < 6 ==> is_line(#[trigger] lines[l], l),
                forall|d: int| 1 <= d <= 9 ==> #[trigger] possibles[d] == spots(cell@, d),
                sudoku@ == line_progress(g, cell_idx as int, candidate_value as int, 0),
            decreases 10 - candidate_value,
        {
            let value_bitmap = possibles[candidate_value];
            proof {
                lemma_spots_confined(cell@, candidate_value as int, lines[0], 0);
            }
            if has_many(value_bitmap) {
                proof {
                    let (i, j) = choose|i: int, j: int|
                        0 <= i < j < 16 && has_bit(value_bitmap, i) && has_bit(value_bitmap, j);
                    lemma_bit_zero(i);
                }
                let mut l: usize = 0;
                while l < 6
                    invariant
                        0 <= l <= 6,
                        1 <= candidate_value <= 9,
                        cell_idx < 9,
                        is_proper(g),
                        g[cell_idx as int] == cell@,
                        value_bitmap != 0,
                        value_bitmap == spots(cell@, candidate_value as int),
                        many_spots(cell@, candidate_value as int),
                        forall|m: int| 0 <= m < 6 ==> is_line(#[trigger] lines[m], m),
                        sudoku@ == line_progress(
                            g,
                            cell_idx as int,
                            candidate_value as int,
                            l as int,
                        ),
                    decreases 6 - l,
                {
                    let checkline = lines[l];
                    proof {
                        lemma_spots_confined(cell@, candidate_value as int, checkline, l as int);
                    }
                    if lies_on(value_bitmap, &checkline) {
                        strike_line(sudoku, cell_idx, candidate_value as u16, &checkline);
                    }
                    proof {
                        lemma_progress_line(
                            g,
                            sudoku@,
                            cell_idx as int,
                            candidate_value as int,
                            l as int,
                        );
                    }
                    l += 1;
                }
                proof {
                    lemma_progress_next(g, cell_idx as int, candidate_value as int);
                }
            } else {
                proof {
                    lemma_progress_skip(g, cell_idx as int, candidate_value as int);
                }
            }
            candidate_value += 1;
        }
        cell_idx += 1;
    }
}

} // verus!
