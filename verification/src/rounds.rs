//! The solving loop: rounds of the three techniques, until the grid is
//! solved or a round changes nothing.
use crate::grid::{grid_ok, grid_shrinks_to, grid_solved, is_grid, unit_of};
use crate::line::line_pass;
use crate::shrink::{
    grid_measure, lemma_grid_shrinks_refl, lemma_grid_shrinks_trans, lemma_line_pass_shrinks,
    lemma_measure_falls, lemma_naked_pass_shrinks, lemma_single_pass_shrinks,
};
use crate::sk_box::{lemma_box_ext, Box, BoxView};
use crate::solvers::{
    can_naked_pass, can_single_pass, candidate_line, naked_pass, naked_set, single_pass,
    single_position, try_naked_set, try_single_position,
};
use crate::sudoku::{lemma_sudoku_ext, lemma_sudoku_proper, Sudoku};
use vstd::prelude::*;

verus! {

/// The grid after single position has passed over it.
pub open spec fn after_single(g: Seq<Seq<BoxView>>) -> Seq<Seq<BoxView>> {
    single_pass(g, 27)
}

/// The grid after single position and then naked sets have passed over it.
pub open spec fn after_naked(g: Seq<Seq<BoxView>>) -> Seq<Seq<BoxView>> {
    naked_pass(after_single(g), 27)
}

/// The grid after one round: single position, then naked sets, then candidate lines.
pub open spec fn round(g: Seq<Seq<BoxView>>) -> Seq<Seq<BoxView>> {
    line_pass(after_naked(g), 9)
}

/// Whether one round can be made on the grid: each technique can pass over
/// it in its turn, and the grid is coherent after each.
pub open spec fn can_round(g: Seq<Seq<BoxView>>) -> bool {
    &&& can_single_pass(g, 27)
    &&& grid_ok(after_single(g))
    &&& can_naked_pass(after_single(g), 27)
    &&& grid_ok(after_naked(g))
    &&& grid_ok(round(g))
}

/// The grid after `n` rounds.
pub open spec fn rounds(g: Seq<Seq<BoxView>>, n: nat) -> Seq<Seq<BoxView>>
    decreases n,
{
    if n == 0 {
        g
    } else {
        round(rounds(g, (n - 1) as nat))
    }
}

/// Whether the loop is still at work after `n` rounds: whether none of the
/// grids before the `n`-th was solved, and each round so far changed something.
pub open spec fn goes_on(g: Seq<Seq<BoxView>>, n: nat) -> bool {
    forall|j: nat|
        j < n ==> !grid_solved(#[trigger] rounds(g, j)) && round(rounds(g, j)) != rounds(g, j)
}

/// Whether the grid can be solved as far as deduction goes: it is coherent,
/// and every round that the loop comes to can be made.
pub open spec fn can_solve(g: Seq<Seq<BoxView>>) -> bool {
    &&& grid_ok(g)
    &&& forall|n: nat|
        goes_on(g, n) && !grid_solved(#[trigger] rounds(g, n)) ==> can_round(rounds(g, n))
}

/// Whether `h` is where the loop ends on `g`: the first of the grids after
/// 0, 1, 2, ... rounds that is solved or that one more round does not change.
pub open spec fn solves_to(g: Seq<Seq<BoxView>>, h: Seq<Seq<BoxView>>) -> bool {
    exists|n: nat|
        goes_on(g, n) && h == #[trigger] rounds(g, n) && (grid_solved(h) || round(h) == h)
}

/// The loop ends at one grid only: what it leaves is decided by what it was given.
pub proof fn lemma_solves_to_one(g: Seq<Seq<BoxView>>, h: Seq<Seq<BoxView>>, k: Seq<Seq<BoxView>>)
    requires
        solves_to(g, h),
        solves_to(g, k),
    ensures
        h == k,
{
    let m = choose|m: nat|
        goes_on(g, m) && h == #[trigger] rounds(g, m) && (grid_solved(h) || round(h) == h);
    let n = choose|n: nat|
        goes_on(g, n) && k == #[trigger] rounds(g, n) && (grid_solved(k) || round(k) == k);
    if m < n {
        assert(!grid_solved(rounds(g, m)) && round(rounds(g, m)) != rounds(g, m));
    } else if n < m {
        assert(!grid_solved(rounds(g, n)) && round(rounds(g, n)) != rounds(g, n));
    }
}

/// One round only takes away.
pub proof fn lemma_round_shrinks(g: Seq<Seq<BoxView>>)
    requires
        is_grid(g),
    ensures
        is_grid(round(g)),
        grid_shrinks_to(g, round(g)),
{
    lemma_single_pass_shrinks(g, 27);
    lemma_naked_pass_shrinks(after_single(g), 27);
    lemma_line_pass_shrinks(after_naked(g), 9);
    lemma_grid_shrinks_trans(g, after_single(g), after_naked(g));
    lemma_grid_shrinks_trans(g, after_naked(g), round(g));
}

/// In a coherent grid every place keeps its invariant.
pub proof fn lemma_ok_places(g: Seq<Seq<BoxView>>)
    requires
        grid_ok(g),
    ensures
        forall|c: int, b: int| 0 <= c < 9 && 0 <= b < 9 ==> (#[trigger] g[c][b]).wf(),
{
    assert forall|c: int, b: int| 0 <= c < 9 && 0 <= b < 9 implies (#[trigger] g[c][b]).wf() by {
        assert(unit_of(g, c)[b] == g[c][b]);
    }
}

/// Whether the two places are the same.
pub fn same_box(a: &Box, b: &Box) -> (result: bool)
    ensures
        result == (a@ == b@),
        result == (*a == *b),
{
    proof {
        if a@ == b@ {
            lemma_box_ext(*a, *b);
        }
    }
    let same_value = match (a.value, b.value) {
        (Some(x), Some(y)) => x == y,
        (None, None) => true,
        _ => false,
    };
    if !same_value {
        return false;
    }
    let mut d: usize = 0;
    while d < 10
        invariant
            0 <= d <= 10,
            a.value == b.value,
            forall|e: int| 0 <= e < d ==> a.poss[e] == b.poss[e],
        decreases 10 - d,
    {
        if a.poss[d] != b.poss[d] {
            assert(a@.poss[d as int] != b@.poss[d as int]);
            return false;
        }
        d += 1;
    }
    assert(a@.poss =~= b@.poss);
    proof {
        lemma_box_ext(*a, *b);
    }
    true
}

/// Whether the two grids are the same.
pub fn same_grid(a: &Sudoku, b: &Sudoku) -> (result: bool)
    ensures
        result == (a@ == b@),
        result == (*a == *b),
{
    proof {
        if a@ == b@ {
            lemma_sudoku_ext(*a, *b);
        }
    }
    let mut c: usize = 0;
    while c < 9
        invariant
            0 <= c <= 9,
            forall|x: int, y: int| 0 <= x < c && 0 <= y < 9 ==> (#[trigger] a@[x][y]) == b@[x][y],
        decreases 9 - c,
    {
        let mut k: usize = 0;
        while k < 9
            invariant
                0 <= k <= 9,
                c < 9,
                forall|x: int, y: int|
                    0 <= x < c && 0 <= y < 9 ==> (#[trigger] a@[x][y]) == b@[x][y],
                forall|y: int| 0 <= y < k ==> (#[trigger] a@[c as int][y]) == b@[c as int][y],
            decreases 9 - k,
        {
            assert(a@[c as int] == a.cells[c as int]@);
            assert(b@[c as int] == b.cells[c as int]@);
            assert(a@[c as int][k as int] == a.cells[c as int].boxes[k as int]@);
            assert(b@[c as int][k as int] == b.cells[c as int].boxes[k as int]@);
            if !same_box(&a.cells[c].boxes[k], &b.cells[c].boxes[k]) {
                return false;
            }
            k += 1;
        }
        c += 1;
    }
    proof {
        assert forall|x: int| 0 <= x < 9 implies #[trigger] a@[x] == b@[x] by {
            assert(a@[x] == a.cells[x]@);
            assert(b@[x] == b.cells[x]@);
            assert(a@[x] =~= b@[x]);
        }
        assert(a@ =~= b@);
        lemma_sudoku_ext(*a, *b);
    }
    true
}

/// Rounds of the three techniques until the grid is solved or a round
/// changes nothing. With `checked`, everything is tested as the loop goes,
/// and it stops, with the grid as it was, at the first thing that fails.
pub(crate) fn solve_rounds(sudoku: &mut Sudoku, checked: bool) -> (ok: bool)
    requires
        !checked ==> can_solve(old(sudoku)@),
    ensures
        ok == can_solve(old(sudoku)@),
        ok ==> solves_to(old(sudoku)@, final(sudoku)@),
        ok ==> grid_ok(final(sudoku)@),
        ok ==> grid_shrinks_to(old(sudoku)@, final(sudoku)@),
        !ok ==> *final(sudoku) == *old(sudoku),
{
    let snapshot: Sudoku = *sudoku;
    let ghost g0 = sudoku@;
    if checked && !sudoku.check() {
        return false;
    }
    let ghost mut n: nat = 0;
    proof {
        lemma_sudoku_proper(*sudoku);
        lemma_grid_shrinks_refl(g0);
    }
    loop
        invariant
            g0 == old(sudoku)@,
            snapshot == *old(sudoku),
            !checked ==> can_solve(g0),
            grid_ok(g0),
            grid_ok(sudoku@),
            sudoku@ == rounds(g0, n),
            goes_on(g0, n),
            grid_shrinks_to(g0, sudoku@),
            forall|m: nat| m < n ==> can_round(#[trigger] rounds(g0, m)),
        decreases grid_measure(sudoku@),
    {
        if sudoku.all_solved() {
            proof {
                assert forall|m: nat|
                    goes_on(g0, m) && !grid_solved(#[trigger] rounds(g0, m)) implies can_round(
                    rounds(g0, m),
                ) by {
                    if m > n {
                        assert(!grid_solved(rounds(g0, n)));
                    }
                }
            }
            return true;
        }
        let orig: Sudoku = *sudoku;
        let ghost g = sudoku@;
        if checked {
            if !try_single_position(sudoku) {
                *sudoku = snapshot;
                return false;
            }
            if !sudoku.check() {
                *sudoku = snapshot;
                return false;
            }
            if !try_naked_set(sudoku) {
                *sudoku = snapshot;
                return false;
            }
            if !sudoku.check() {
                *sudoku = snapshot;
                return false;
            }
            candidate_line(sudoku);
            if !sudoku.check() {
                *sudoku = snapshot;
                return false;
            }
        } else {
            single_position(sudoku);
            naked_set(sudoku);
            candidate_line(sudoku);
        }
        proof {
            assert(can_round(g));
            assert(sudoku@ == round(g));
            lemma_sudoku_proper(orig);
            lemma_round_shrinks(g);
            lemma_grid_shrinks_trans(g0, g, sudoku@);
        }
        if same_grid(&orig, sudoku) {
            proof {
                assert forall|m: nat|
                    goes_on(g0, m) && !grid_solved(#[trigger] rounds(g0, m)) implies can_round(
                    rounds(g0, m),
                ) by {
                    if m > n {
                        assert(round(rounds(g0, n)) != rounds(g0, n));
                    }
                }
            }
            return true;
        }
        proof {
            lemma_ok_places(g);
            lemma_ok_places(sudoku@);
            lemma_measure_falls(g, sudoku@);
            assert(rounds(g0, n + 1) == round(rounds(g0, n)));
            assert forall|j: nat| j < n + 1 implies !grid_solved(#[trigger] rounds(g0, j)) && round(
                rounds(g0, j),
            ) != rounds(g0, j) by {}
            n = n + 1;
        }
    }
}

} // verus!
