//! Candidate lines.
//!
//! Where the places of a block at which a digit is still possible all lie
//! in one row of the block, the digit goes to that row within the block, and
//! is struck from the same row in the two other blocks of the band. The same
//! holds of a column of the block and the two other blocks of the stack.
//!
//! A block has six lines: its rows 0 to 2 are the lines 0 to 2, its columns
//! 0 to 2 the lines 3 to 5.
use crate::bits::{
    has_bit, lemma_bit_and, lemma_bit_not, lemma_bit_zero, lemma_nonzero_has_bit,
};
use crate::sk_box::BoxView;
use crate::sk_cell::{lemma_spots_below, spots};
use crate::sudoku::Sudoku;
use vstd::prelude::*;

verus! {

/// Whether `g` is a grid whose places all have ten flags.
pub open spec fn is_proper(g: Seq<Seq<BoxView>>) -> bool {
    &&& g.len() == 9
    &&& forall|c: int| 0 <= c < 9 ==> (#[trigger] g[c]).len() == 9
    &&& forall|c: int, k: int| 0 <= c < 9 && 0 <= k < 9 ==> (#[trigger] g[c][k]).poss.len() == 10
}

/// Whether the digit `d` is possible at two or more places of the unit.
pub open spec fn many_spots(u: Seq<BoxView>, d: int) -> bool {
    exists|i: int, j: int| 0 <= i < j < 9 && u[i].can(d) && u[j].can(d)
}

/// Whether spot `k` of a block lies on its line `l`.
pub open spec fn on_line(k: int, l: int) -> bool {
    if l < 3 {
        k / 3 == l
    } else {
        k % 3 == l - 3
    }
}

/// Whether the digit `d` is possible at two or more places of the block, all on its line `l`.
pub open spec fn confined(u: Seq<BoxView>, d: int, l: int) -> bool {
    many_spots(u, d) && forall|k: int| 0 <= k < 9 && u[k].can(d) ==> on_line(k, l)
}

/// Whether `c2` is one of the two other blocks through which line `l` of block `c` runs.
pub open spec fn line_reaches(c: int, l: int, c2: int) -> bool {
    c2 != c && if l < 3 {
        c2 / 3 == c / 3
    } else {
        c2 % 3 == c % 3
    }
}

/// Whether line `l` of block `c` strikes the digit `d` at spot `k2` of block `c2`.
pub open spec fn line_hit(g: Seq<Seq<BoxView>>, c: int, c2: int, k2: int, d: int, l: int) -> bool {
    line_reaches(c, l, c2) && on_line(k2, l) && confined(g[c], d, l)
}

/// Whether one of the lines below `l` of block `c` strikes the digit `d` at spot `k2` of block `c2`.
pub open spec fn hit_below(g: Seq<Seq<BoxView>>, c: int, c2: int, k2: int, d: int, l: int) -> bool {
    exists|m: int| 0 <= m < l && line_hit(g, c, c2, k2, d, m)
}

/// Whether the digit `e` is struck at spot `k2` of block `c2` once block `c`
/// has been searched for the digits below `d`, and for `d` on the lines below `l`.
pub open spec fn hit_before(
    g: Seq<Seq<BoxView>>,
    c: int,
    c2: int,
    k2: int,
    e: int,
    d: int,
    l: int,
) -> bool {
    1 <= e <= 9 && ((e < d && hit_below(g, c, c2, k2, e, 6)) || (e == d && hit_below(
        g,
        c,
        c2,
        k2,
        e,
        l,
    )))
}

/// The grid once block `c` has been searched for the digits below `d`, and
/// for `d` on the lines below `l`.
pub open spec fn line_progress(g: Seq<Seq<BoxView>>, c: int, d: int, l: int) -> Seq<Seq<BoxView>> {
    Seq::new(
        9,
        |c2: int|
            Seq::new(
                9,
                |k2: int|
                    BoxView {
                        value: g[c2][k2].value,
                        poss: Seq::new(
                            10,
                            |e: int| g[c2][k2].poss[e] && !hit_before(g, c, c2, k2, e, d, l),
                        ),
                    },
            ),
    )
}

/// The grid after the candidate lines of block `c` are followed: each digit
/// that is confined to a line of the block is struck from that line in the
/// two other blocks it runs through. No confirmed digit changes.
pub open spec fn line_step(g: Seq<Seq<BoxView>>, c: int) -> Seq<Seq<BoxView>> {
    line_progress(g, c, 10, 0)
}

/// The grid after the candidate lines of its first `n` blocks are followed, block by block.
pub open spec fn line_pass(g: Seq<Seq<BoxView>>, n: int) -> Seq<Seq<BoxView>>
    decreases n,
{
    if n <= 0 {
        g
    } else {
        line_step(line_pass(g, n - 1), n - 1)
    }
}

/// Before the first digit is searched for, nothing is struck.
pub proof fn lemma_progress_start(g: Seq<Seq<BoxView>>, c: int)
    requires
        is_proper(g),
    ensures
        line_progress(g, c, 1, 0) == g,
{
    let h = line_progress(g, c, 1, 0);
    assert forall|c2: int| 0 <= c2 < 9 implies #[trigger] h[c2] == g[c2] by {
        assert forall|k2: int| 0 <= k2 < 9 implies #[trigger] h[c2][k2] == g[c2][k2] by {
            assert(h[c2][k2].poss =~= g[c2][k2].poss);
        }
        assert(h[c2] =~= g[c2]);
    }
    assert(h =~= g);
}

/// After the last line, the search goes on with the next digit.
pub proof fn lemma_progress_next(g: Seq<Seq<BoxView>>, c: int, d: int)
    ensures
        line_progress(g, c, d, 6) == line_progress(g, c, d + 1, 0),
{
    let a = line_progress(g, c, d, 6);
    let b = line_progress(g, c, d + 1, 0);
    assert forall|c2: int| 0 <= c2 < 9 implies #[trigger] a[c2] == b[c2] by {
        assert forall|k2: int| 0 <= k2 < 9 implies #[trigger] a[c2][k2] == b[c2][k2] by {
            assert(a[c2][k2].poss =~= b[c2][k2].poss);
        }
        assert(a[c2] =~= b[c2]);
    }
    assert(a =~= b);
}

/// A digit that is not possible at two or more places of the block is confined to no line.
pub proof fn lemma_progress_skip(g: Seq<Seq<BoxView>>, c: int, d: int)
    requires
        !many_spots(g[c], d),
    ensures
        line_progress(g, c, d, 0) == line_progress(g, c, d + 1, 0),
{
    let a = line_progress(g, c, d, 0);
    let b = line_progress(g, c, d + 1, 0);
    assert forall|c2: int| 0 <= c2 < 9 implies #[trigger] a[c2] == b[c2] by {
        assert forall|k2: int| 0 <= k2 < 9 implies #[trigger] a[c2][k2] == b[c2][k2] by {
            assert(a[c2][k2].poss =~= b[c2][k2].poss);
        }
        assert(a[c2] =~= b[c2]);
    }
    assert(a =~= b);
}

/// The grid `h` is `before` with the digit `d` struck at the places that
/// line `l` of block `c` reaches.
pub open spec fn is_struck(
    before: Seq<Seq<BoxView>>,
    h: Seq<Seq<BoxView>>,
    c: int,
    d: int,
    l: int,
) -> bool {
    &&& h.len() == 9
    &&& forall|c2: int| 0 <= c2 < 9 ==> (#[trigger] h[c2]).len() == 9
    &&& forall|c2: int, k2: int|
        0 <= c2 < 9 && 0 <= k2 < 9 ==> (#[trigger] h[c2][k2]) == (if line_reaches(c, l, c2)
            && on_line(k2, l) {
            before[c2][k2].without(d)
        } else {
            before[c2][k2]
        })
}

/// One line further in the search: where the digit is confined to the line,
/// it is struck along it; where it is not, nothing changes.
pub proof fn lemma_progress_line(
    g: Seq<Seq<BoxView>>,
    h: Seq<Seq<BoxView>>,
    c: int,
    d: int,
    l: int,
)
    requires
        is_proper(g),
        0 <= c < 9,
        1 <= d <= 9,
        0 <= l < 6,
        if confined(g[c], d, l) {
            is_struck(line_progress(g, c, d, l), h, c, d, l)
        } else {
            h == line_progress(g, c, d, l)
        },
    ensures
        h == line_progress(g, c, d, l + 1),
{
    let a = line_progress(g, c, d, l);
    let b = line_progress(g, c, d, l + 1);
    assert forall|c2: int| 0 <= c2 < 9 implies #[trigger] h[c2] == b[c2] by {
        assert forall|k2: int| 0 <= k2 < 9 implies #[trigger] h[c2][k2] == b[c2][k2] by {
            assert forall|e: int| 0 <= e < 10 implies hit_before(g, c, c2, k2, e, d, l + 1) == (
            hit_before(g, c, c2, k2, e, d, l) || (e == d && line_hit(g, c, c2, k2, d, l))) by {
                if e == d {
                    if hit_below(g, c, c2, k2, e, l + 1) {
                        let m = choose|m: int| 0 <= m < l + 1 && line_hit(g, c, c2, k2, e, m);
                        if m < l {
                            assert(hit_below(g, c, c2, k2, e, l));
                        }
                    }
                    if hit_below(g, c, c2, k2, e, l) {
                        let m = choose|m: int| 0 <= m < l && line_hit(g, c, c2, k2, e, m);
                        assert(line_hit(g, c, c2, k2, e, m));
                    }
                    if line_hit(g, c, c2, k2, d, l) {
                        assert(hit_below(g, c, c2, k2, e, l + 1));
                    }
                }
            }
            assert(a[c2][k2].poss.len() == 10);
            assert(h[c2][k2] == (if confined(g[c], d, l) && line_reaches(c, l, c2) && on_line(
                k2,
                l,
            ) {
                a[c2][k2].without(d)
            } else {
                a[c2][k2]
            }));
            assert forall|e: int| 0 <= e < 10 implies h[c2][k2].poss[e] == b[c2][k2].poss[e] by {
                assert(hit_before(g, c, c2, k2, e, d, l + 1) == (hit_before(g, c, c2, k2, e, d, l)
                    || (e == d && line_hit(g, c, c2, k2, d, l))));
                assert(a[c2][k2].poss[e] == (g[c2][k2].poss[e] && !hit_before(
                    g,
                    c,
                    c2,
                    k2,
                    e,
                    d,
                    l,
                )));
            }
            assert(h[c2][k2].poss =~= b[c2][k2].poss);
        }
        assert(h[c2] =~= b[c2]);
    }
    assert(h =~= b);
}

/// Whether the line runs along a row or along a column of the block.
#[derive(Copy, Clone)]
pub enum Direction {
    Horizontal,
    Vertical,
}

/// One of the six lines of a block: the position mask of its three spots,
/// its direction, and which row or column of the block it is.
#[derive(Copy, Clone)]
pub struct ConstantLine {
    pub bit_pattern: u16,
    pub direction: Direction,
    pub index: usize,
}

/// Which of the six lines of a block `line` is.
pub open spec fn line_number(line: ConstantLine) -> int {
    match line.direction {
        Direction::Horizontal => line.index as int,
        Direction::Vertical => line.index + 3,
    }
}

/// Whether `line` is line `l` of a block: whether its mask holds the three spots of that line.
pub open spec fn is_line(line: ConstantLine, l: int) -> bool {
    &&& line.index < 3
    &&& line_number(line) == l
    &&& forall|i: int| has_bit(line.bit_pattern, i) == (0 <= i < 9 && on_line(i, l))
}

/// The six lines of a block: its three rows, then its three columns.
pub fn constant_lines() -> (result: [ConstantLine; 6])
    ensures
        forall|l: int| 0 <= l < 6 ==> is_line(#[trigger] result[l], l),
{
    let result = [
        ConstantLine { bit_pattern: 0b0000000111, direction: Direction::Horizontal, index: 0 },
        ConstantLine { bit_pattern: 0b0000111000, direction: Direction::Horizontal, index: 1 },
        ConstantLine { bit_pattern: 0b0111000000, direction: Direction::Horizontal, index: 2 },
        ConstantLine { bit_pattern: 0b0001001001, direction: Direction::Vertical, index: 0 },
        ConstantLine { bit_pattern: 0b0010010010, direction: Direction::Vertical, index: 1 },
        ConstantLine { bit_pattern: 0b0100100100, direction: Direction::Vertical, index: 2 },
    ];
    proof {
        assert forall|i: int| has_bit(0b0000000111u16, i) == (0 <= i < 9 && on_line(i, 0)) by {
            if 0 <= i < 16 {
                let e: u16 = i as u16;
                assert(((0b0000000111u16 >> e) & 1 == 1) == (e < 3)) by (bit_vector)
                    requires
                        e < 16,
                ;
            }
        }
        assert forall|i: int| has_bit(0b0000111000u16, i) == (0 <= i < 9 && on_line(i, 1)) by {
            if 0 <= i < 16 {
                let e: u16 = i as u16;
                assert(((0b0000111000u16 >> e) & 1 == 1) == (3 <= e && e < 6)) by (bit_vector)
                    requires
                        e < 16,
                ;
            }
        }
        assert forall|i: int| has_bit(0b0111000000u16, i) == (0 <= i < 9 && on_line(i, 2)) by {
            if 0 <= i < 16 {
                let e: u16 = i as u16;
                assert(((0b0111000000u16 >> e) & 1 == 1) == (6 <= e && e < 9)) by (bit_vector)
                    requires
                        e < 16,
                ;
            }
        }
        assert forall|i: int| has_bit(0b0001001001u16, i) == (0 <= i < 9 && on_line(i, 3)) by {
            if 0 <= i < 16 {
                let e: u16 = i as u16;
                assert(((0b0001001001u16 >> e) & 1 == 1) == (e == 0 || e == 3 || e == 6))
                    by (bit_vector)
                    requires
                        e < 16,
                ;
            }
        }
        assert forall|i: int| has_bit(0b0010010010u16, i) == (0 <= i < 9 && on_line(i, 4)) by {
            if 0 <= i < 16 {
                let e: u16 = i as u16;
                assert(((0b0010010010u16 >> e) & 1 == 1) == (e == 1 || e == 4 || e == 7))
                    by (bit_vector)
                    requires
                        e < 16,
                ;
            }
        }
        assert forall|i: int| has_bit(0b0100100100u16, i) == (0 <= i < 9 && on_line(i, 5)) by {
            if 0 <= i < 16 {
                let e: u16 = i as u16;
                assert(((0b0100100100u16 >> e) & 1 == 1) == (e == 2 || e == 5 || e == 8))
                    by (bit_vector)
                    requires
                        e < 16,
                ;
            }
        }
    }
    result
}

/// Whether the position mask has two or more bits.
pub fn has_many(value_bitmap: u16) -> (result: bool)
    ensures
        result == exists|i: int, j: int|
            0 <= i < j < 16 && has_bit(value_bitmap, i) && has_bit(value_bitmap, j),
{
    if value_bitmap == 0 {
        proof {
            assert forall|i: int| !has_bit(value_bitmap, i) by {
                lemma_bit_zero(i);
            }
        }
        return false;
    }
    let rest = value_bitmap & (value_bitmap - 1);
    proof {
        let below: u16 = (value_bitmap - 1) as u16;
        let lowest: u16 = value_bitmap & !below;
        if rest != 0 {
            assert(lowest != 0 && lowest & rest == 0) by (bit_vector)
                requires
                    value_bitmap != 0,
                    below == value_bitmap - 1,
                    lowest == value_bitmap & !below,
                    rest == value_bitmap & below,
            ;
            lemma_nonzero_has_bit(lowest);
            lemma_nonzero_has_bit(rest);
            let i = choose|i: int| 0 <= i < 16 && has_bit(lowest, i);
            let j = choose|j: int| 0 <= j < 16 && has_bit(rest, j);
            lemma_bit_and(value_bitmap, !below, i);
            lemma_bit_and(value_bitmap, below, j);
            lemma_bit_and(lowest, rest, i);
            lemma_bit_zero(i);
            assert(i != j);
            if i < j {
                assert(has_bit(value_bitmap, i) && has_bit(value_bitmap, j));
            } else {
                assert(has_bit(value_bitmap, j) && has_bit(value_bitmap, i));
            }
        } else {
            assert forall|i: int, j: int|
                0 <= i < j < 16 && has_bit(value_bitmap, i) implies !has_bit(value_bitmap, j) by {
                let a: u16 = i as u16;
                let b: u16 = j as u16;
                assert(!(((value_bitmap >> a) & 1 == 1) && ((value_bitmap >> b) & 1 == 1)))
                    by (bit_vector)
                    requires
                        a < b,
                        b < 16,
                        value_bitmap != 0,
                        below == value_bitmap - 1,
                        value_bitmap & below == 0,
                ;
            }
        }
    }
    rest != 0
}

/// Whether the position mask, which is not empty, has all its bits on `line`.
pub fn lies_on(value_bitmap: u16, line: &ConstantLine) -> (result: bool)
    requires
        value_bitmap != 0,
    ensures
        result == forall|i: int| has_bit(value_bitmap, i) ==> has_bit(line.bit_pattern, i),
{
    let inside = (value_bitmap & line.bit_pattern) != 0;
    let outside = (value_bitmap & !line.bit_pattern) == 0;
    proof {
        if outside {
            assert forall|i: int| has_bit(value_bitmap, i) implies has_bit(line.bit_pattern, i) by {
                lemma_bit_and(value_bitmap, !line.bit_pattern, i);
                lemma_bit_not(line.bit_pattern, i);
                lemma_bit_zero(i);
            }
            lemma_nonzero_has_bit(value_bitmap);
            let i = choose|i: int| 0 <= i < 16 && has_bit(value_bitmap, i);
            lemma_bit_and(value_bitmap, line.bit_pattern, i);
            lemma_bit_zero(i);
            assert(inside);
        } else {
            lemma_nonzero_has_bit(value_bitmap & !line.bit_pattern);
            let i = choose|i: int| 0 <= i < 16 && has_bit(value_bitmap & !line.bit_pattern, i);
            lemma_bit_and(value_bitmap, !line.bit_pattern, i);
            lemma_bit_not(line.bit_pattern, i);
            assert(has_bit(value_bitmap, i) && !has_bit(line.bit_pattern, i));
        }
    }
    inside && outside
}

/// What the position mask of a digit says of the block: whether the digit
/// is possible at two or more places, and whether all of them are on a line.
pub proof fn lemma_spots_confined(u: Seq<BoxView>, d: int, line: ConstantLine, l: int)
    requires
        u.len() == 9,
        0 <= l < 6,
        is_line(line, l),
    ensures
        many_spots(u, d) == exists|i: int, j: int|
            0 <= i < j < 16 && has_bit(spots(u, d), i) && has_bit(spots(u, d), j),
        (forall|k: int| 0 <= k < 9 && u[k].can(d) ==> on_line(k, l)) == (forall|i: int|
            has_bit(spots(u, d), i) ==> has_bit(line.bit_pattern, i)),
{
    assert forall|i: int| #[trigger] has_bit(spots(u, d), i) == (0 <= i < 9 && u[i].can(d)) by {
        lemma_spots_below(u, d, 9, i);
    }
    if many_spots(u, d) {
        let (i, j) = choose|i: int, j: int| 0 <= i < j < 9 && u[i].can(d) && u[j].can(d);
        assert(0 <= i < j < 16 && has_bit(spots(u, d), i) && has_bit(spots(u, d), j));
    }
    if exists|i: int, j: int|
        0 <= i < j < 16 && has_bit(spots(u, d), i) && has_bit(spots(u, d), j) {
        let (i, j) = choose|i: int, j: int|
            0 <= i < j < 16 && has_bit(spots(u, d), i) && has_bit(spots(u, d), j);
        assert(0 <= i < j < 9 && u[i].can(d) && u[j].can(d));
    }
    if forall|k: int| 0 <= k < 9 && u[k].can(d) ==> on_line(k, l) {
        assert forall|i: int| has_bit(spots(u, d), i) implies has_bit(line.bit_pattern, i) by {
            assert(0 <= i < 9 && u[i].can(d));
            assert(on_line(i, l));
        }
    }
    if forall|i: int| has_bit(spots(u, d), i) ==> has_bit(line.bit_pattern, i) {
        assert forall|k: int| 0 <= k < 9 && u[k].can(d) implies on_line(k, l) by {
            assert(has_bit(spots(u, d), k));
        }
    }
}

/// Strikes the digit `value` along line `l` of block `cell_idx` in the two
/// other blocks through which the line runs.
pub fn strike_line(sudoku: &mut Sudoku, cell_idx: usize, value: u16, line: &ConstantLine)
    requires
        cell_idx < 9,
        1 <= value <= 9,
        is_line(*line, line_number(*line)),
    ensures
        is_struck(
            old(sudoku)@,
            final(sudoku)@,
            cell_idx as int,
            value as int,
            line_number(*line),
        ),
{
    let ghost before = sudoku@;
    let ghost l = line_number(*line);
    let first = match line.direction {
        Direction::Horizontal => (cell_idx / 3) * 3,
        Direction::Vertical => cell_idx % 3,
    };
    let step: usize = match line.direction {
        Direction::Horizontal => 1,
        Direction::Vertical => 3,
    };
    let mut t: usize = 0;
    while t < 3
        invariant
            0 <= t <= 3,
            cell_idx < 9,
            1 <= value <= 9,
            0 <= l < 6,
            is_line(*line, l),
            before == old(sudoku)@,
            l == line_number(*line),
            first as int == (if l < 3 {
                (cell_idx as int / 3) * 3
            } else {
                cell_idx as int % 3
            }),
            step as int == (if l < 3 {
                1int
            } else {
                3int
            }),
            forall|c2: int, k2: int|
                0 <= c2 < 9 && 0 <= k2 < 9 ==> (#[trigger] sudoku@[c2][k2]) == (if line_reaches(
                    cell_idx as int,
                    l,
                    c2,
                ) && on_line(k2, l) && (c2 - first) / (step as int) < t {
                    before[c2][k2].without(value as int)
                } else {
                    before[c2][k2]
                }),
        decreases 3 - t,
    {
        let cell_to_clean_idx = first + t * step;
        let ghost mid = sudoku@;
        if cell_to_clean_idx != cell_idx {
            match line.direction {
                Direction::Horizontal => {
                    sudoku.cells[cell_to_clean_idx].rm_poss_from_row(value, line.index);
                },
                Direction::Vertical => {
                    sudoku.cells[cell_to_clean_idx].rm_poss_from_col(value, line.index);
                },
            }
        }
        proof {
            assert forall|c2: int, k2: int| 0 <= c2 < 9 && 0 <= k2 < 9 implies (
            #[trigger] sudoku@[c2][k2]) == (if line_reaches(cell_idx as int, l, c2) && on_line(
                k2,
                l,
            ) && (c2 - first) / (step as int) < t + 1 {
                before[c2][k2].without(value as int)
            } else {
                before[c2][k2]
            }) by {
                assert(sudoku@[c2] == sudoku.cells[c2]@);
                assert(mid[c2][k2] == (if line_reaches(cell_idx as int, l, c2) && on_line(k2, l)
                    && (c2 - first) / (step as int) < t {
                    before[c2][k2].without(value as int)
                } else {
                    before[c2][k2]
                }));
            }
        }
        t += 1;
    }
}

} // verus!
