//! Grids and places as text: the one-line form, the plain listing, and the
//! short forms of a place and of a block.
use crate::grid::{is_grid, unit_of};
use crate::single::can_narrow;
use crate::sk_box::{digit_char, Box, BoxView};
use crate::sk_cell::Cell;
use crate::solvers::{can_single_pass, normalise, single_pass};
use crate::sudoku::{lemma_sudoku_proper, Sudoku};
use crate::unit::{placed, placed_below};
use vstd::prelude::*;
use vstd::string::{StrSliceExecFns, StringExecFns};

verus! {

/// `String::push` appends one character to the end of the string.
pub assume_specification[ String::push ](s: &mut String, ch: char)
    ensures
        final(s)@ == old(s)@.push(ch),
;

/// Whether the character stands for a place: a dot for a blank one, or a digit from 1 to 9.
pub open spec fn is_place_char(c: char) -> bool {
    c == '.' || ('1' <= c && c <= '9')
}

/// The place that the character stands for.
pub open spec fn char_view(c: char) -> BoxView {
    if c == '.' {
        BoxView::blank()
    } else {
        BoxView::solved_as((c as u32 - 48) as u8)
    }
}

/// Where in a text of 81 characters, row by row, the place at spot `b` of block `c` stands.
pub open spec fn text_index(c: int, b: int) -> int {
    ((c / 3) * 3 + b / 3) * 9 + (c % 3) * 3 + b % 3
}

/// The block of the `q`-th place of the grid, counted row by row.
pub open spec fn cell_of(q: int) -> int {
    crate::grid::unit_cell(9 + q / 9, q % 9)
}

/// The spot within its block of the `q`-th place of the grid, counted row by row.
pub open spec fn spot_of(q: int) -> int {
    crate::grid::unit_box(9 + q / 9, q % 9)
}

/// The place at spot `b` of block `c` is the `text_index(c, b)`-th of the grid.
pub proof fn lemma_text_place(c: int, b: int)
    requires
        0 <= c < 9,
        0 <= b < 9,
    ensures
        0 <= text_index(c, b) < 81,
        cell_of(text_index(c, b)) == c,
        spot_of(text_index(c, b)) == b,
{
    let r = (c / 3) * 3 + b / 3;
    let x = (c % 3) * 3 + b % 3;
    assert(0 <= r < 9 && 0 <= x < 9);
    let q = r * 9 + x;
    assert(q / 9 == r && q % 9 == x);
    assert(r / 3 == c / 3 && r % 3 == b / 3);
    assert(x / 3 == c % 3 && x % 3 == b % 3);
}

/// The `q`-th place of the grid stands at `text_index` of its block and spot.
pub proof fn lemma_place_text(q: int)
    requires
        0 <= q < 81,
    ensures
        0 <= cell_of(q) < 9,
        0 <= spot_of(q) < 9,
        text_index(cell_of(q), spot_of(q)) == q,
{
    let r = q / 9;
    let x = q % 9;
    let c = (r / 3) * 3 + x / 3;
    let b = (r % 3) * 3 + x % 3;
    assert(c / 3 == r / 3 && c % 3 == x / 3);
    assert(b / 3 == r % 3 && b % 3 == x % 3);
    assert((c / 3) * 3 + b / 3 == r);
    assert((c % 3) * 3 + b % 3 == x);
}

/// Whether the text gives a grid: 81 characters, each a dot or a digit from 1 to 9.
pub open spec fn is_grid_text(text: Seq<char>) -> bool {
    text.len() == 81 && forall|p: int| 0 <= p < 81 ==> is_place_char(#[trigger] text[p])
}

/// The grid that a text of 81 characters gives, row by row, before anything is deduced.
pub open spec fn text_grid(text: Seq<char>) -> Seq<Seq<BoxView>> {
    Seq::new(9, |c: int| Seq::new(9, |b: int| char_view(text[text_index(c, b)])))
}

/// How many of the first `n` places of the unit have a confirmed digit.
pub open spec fn solved_below(u: Seq<BoxView>, n: int) -> int
    decreases n,
{
    if n <= 0 {
        0
    } else {
        solved_below(u, n - 1) + crate::sk_box::flag(u[n - 1].value.is_some())
    }
}

/// How many of the digits 1 to 9 are confirmed among the first `n` places of the unit.
pub open spec fn placed_count(u: Seq<BoxView>, n: int) -> int {
    crate::sk_box::flag(placed_below(u, 1, n)) + crate::sk_box::flag(placed_below(u, 2, n))
        + crate::sk_box::flag(placed_below(u, 3, n)) + crate::sk_box::flag(placed_below(u, 4, n))
        + crate::sk_box::flag(placed_below(u, 5, n)) + crate::sk_box::flag(placed_below(u, 6, n))
        + crate::sk_box::flag(placed_below(u, 7, n)) + crate::sk_box::flag(placed_below(u, 8, n))
        + crate::sk_box::flag(placed_below(u, 9, n))
}

/// No more digits are confirmed in a unit than it has places with a confirmed digit.
pub proof fn lemma_placed_count(u: Seq<BoxView>, n: int)
    requires
        0 <= n <= u.len(),
    ensures
        placed_count(u, n) <= solved_below(u, n) <= n,
        forall|i: int| 0 <= i < n && (#[trigger] u[i]).value.is_none() ==> solved_below(u, n) < n,
    decreases n,
{
    if n > 0 {
        lemma_placed_count(u, n - 1);
        assert forall|d: int| 1 <= d <= 9 implies (#[trigger] placed_below(u, d, n)) == (
        placed_below(u, d, n - 1) || u[n - 1].value == Some(d as u8)) by {
            if placed_below(u, d, n) {
                let j = choose|j: int| 0 <= j < n && (#[trigger] u[j]).value == Some(d as u8);
                if j < n - 1 {
                    assert(placed_below(u, d, n - 1));
                }
            }
            if placed_below(u, d, n - 1) {
                let j = choose|j: int| 0 <= j < n - 1 && (#[trigger] u[j]).value == Some(d as u8);
                assert(u[j].value == Some(d as u8));
            }
            if u[n - 1].value == Some(d as u8) {
                assert(placed_below(u, d, n));
            }
        }
        assert(placed_below(u, 1, n) == (placed_below(u, 1, n - 1) || u[n - 1].value == Some(1u8)));
        assert(placed_below(u, 2, n) == (placed_below(u, 2, n - 1) || u[n - 1].value == Some(2u8)));
        assert(placed_below(u, 3, n) == (placed_below(u, 3, n - 1) || u[n - 1].value == Some(3u8)));
        assert(placed_below(u, 4, n) == (placed_below(u, 4, n - 1) || u[n - 1].value == Some(4u8)));
        assert(placed_below(u, 5, n) == (placed_below(u, 5, n - 1) || u[n - 1].value == Some(5u8)));
        assert(placed_below(u, 6, n) == (placed_below(u, 6, n - 1) || u[n - 1].value == Some(6u8)));
        assert(placed_below(u, 7, n) == (placed_below(u, 7, n - 1) || u[n - 1].value == Some(7u8)));
        assert(placed_below(u, 8, n) == (placed_below(u, 8, n - 1) || u[n - 1].value == Some(8u8)));
        assert(placed_below(u, 9, n) == (placed_below(u, 9, n - 1) || u[n - 1].value == Some(9u8)));
    }
}

/// In a unit with a place that has no confirmed digit, some digit is confirmed nowhere.
pub proof fn lemma_free_digit(u: Seq<BoxView>, i: int)
    requires
        u.len() == 9,
        0 <= i < 9,
        u[i].value.is_none(),
    ensures
        exists|d: int| 1 <= d <= 9 && !placed(u, d),
{
    lemma_placed_count(u, 9);
    assert(placed_count(u, 9) < 9);
    if placed(u, 1) && placed(u, 2) && placed(u, 3) && placed(u, 4) && placed(u, 5) && placed(u, 6)
        && placed(u, 7) && placed(u, 8) && placed(u, 9) {
        assert(false);
    }
}

/// Whether every place of the grid is blank or confirmed as a digit from 1 to 9.
pub open spec fn is_fresh(g: Seq<Seq<BoxView>>) -> bool {
    &&& is_grid(g)
    &&& forall|c: int, b: int|
        0 <= c < 9 && 0 <= b < 9 ==> (#[trigger] g[c][b]) == BoxView::blank() || exists|d: u8|
            1 <= d <= 9 && g[c][b] == BoxView::solved_as(d)
}

/// Single position over the first `n` blocks leaves the later blocks as they were.
pub proof fn lemma_later_blocks(g: Seq<Seq<BoxView>>, n: int, c: int)
    requires
        is_grid(g),
        0 <= n <= c < 9,
    ensures
        is_grid(single_pass(g, n)),
        single_pass(g, n)[c] == g[c],
    decreases n,
{
    if n > 0 {
        lemma_later_blocks(g, n - 1, c);
        assert(single_pass(g, n)[c] =~= single_pass(g, n - 1)[c]);
    }
}

/// The blocks of a grid in which every place is blank or confirmed can be normalised.
pub proof fn lemma_fresh_normalises(g: Seq<Seq<BoxView>>)
    requires
        is_fresh(g),
    ensures
        can_single_pass(g, 9),
{
    assert forall|m: int| 0 <= m < 9 implies can_narrow(#[trigger] unit_of(single_pass(g, m), m)) by {
        lemma_later_blocks(g, m, m);
        let u = unit_of(single_pass(g, m), m);
        assert(u =~= g[m]);
        assert forall|i: int| 0 <= i < 9 && (#[trigger] u[i]).value.is_none() implies exists|d: int|
            u[i].can(d) && !placed(u, d) by {
            lemma_free_digit(u, i);
            let d = choose|d: int| 1 <= d <= 9 && !placed(u, d);
            assert(u[i] == BoxView::blank());
            assert(u[i].can(d));
        }
    }
}

/// Whether the character stands for a place.
pub fn is_box_char(c: char) -> (result: bool)
    ensures
        result == is_place_char(c),
{
    c == '.' || ('1' <= c && c <= '9')
}

impl Box {
    /// The short form of the place: its confirmed digit, or a dot.
    pub fn to_string(&self) -> (result: String)
        requires
            self.value matches Some(x) ==> x <= 9,
        ensures
            result@ == seq![
                match self.value {
                    Some(x) => digit_char(x),
                    None => '.',
                },
            ],
    {
        let mut result = String::new();
        let c = self.get_c();
        result.push(c);
        assert(result@ =~= seq![c]);
        result
    }

    /// The long form of the place: its confirmed digit between blanks, or
    /// the digits 1 to 9 with a dot for each that is not possible, in brackets.
    pub fn debug_string(&self) -> (result: String)
        requires
            self.value matches Some(x) ==> x <= 9,
        ensures
            result@ == debug_text(self@),
    {
        let mut result = String::new();
        result.push('[');
        match self.value {
            Some(x) => {
                result.push(' ');
                result.push(' ');
                result.push(' ');
                result.push(' ');
                result.push((48u8 + x) as char);
                result.push(' ');
                result.push(' ');
                result.push(' ');
                result.push(' ');
            },
            None => {
                let mut d: u8 = 1;
                while d <= 9
                    invariant
                        1 <= d <= 10,
                        self.value.is_none(),
                        result@.len() == d,
                        result@[0] == '[',
                        forall|e: int|
                            1 <= e < d ==> #[trigger] result@[e] == (if self@.poss[e] {
                                digit_char(e as u8)
                            } else {
                                '.'
                            }),
                    decreases 10 - d,
                {
                    if self.poss[d as usize] {
                        result.push((48u8 + d) as char);
                    } else {
                        result.push('.');
                    }
                    d += 1;
                }
            },
        }
        result.push(']');
        assert(result@ =~= debug_text(self@));
        result
    }
}

/// The long form of a place.
pub open spec fn debug_text(v: BoxView) -> Seq<char> {
    Seq::new(
        11,
        |i: int|
            if i == 0 {
                '['
            } else if i == 10 {
                ']'
            } else {
                match v.value {
                    Some(x) => if i == 5 {
                        digit_char(x)
                    } else {
                        ' '
                    },
                    None => if v.poss[i] {
                        digit_char(i as u8)
                    } else {
                        '.'
                    },
                }
            },
    )
}

/// The short form of a block: the short forms of its nine places, in brackets.
pub open spec fn cell_text(u: Seq<BoxView>) -> Seq<char> {
    Seq::new(
        11,
        |i: int|
            if i == 0 {
                '['
            } else if i == 10 {
                ']'
            } else {
                match u[i - 1].value {
                    Some(x) => digit_char(x),
                    None => '.',
                }
            },
    )
}

impl Cell {
    /// The short form of the block: the short forms of its nine places, in brackets.
    pub fn to_string(&self) -> (result: String)
        requires
            forall|i: int| 0 <= i < 9 ==> ((#[trigger] self.boxes[i]).value matches Some(x) ==> x <= 9),
        ensures
            result@ == cell_text(self@),
    {
        let mut result = String::new();
        result.push('[');
        let mut k: usize = 0;
        while k < 9
            invariant
                0 <= k <= 9,
                forall|i: int|
                    0 <= i < 9 ==> ((#[trigger] self.boxes[i]).value matches Some(x) ==> x <= 9),
                result@.len() == k + 1,
                result@[0] == '[',
                forall|i: int| 1 <= i <= k ==> #[trigger] result@[i] == cell_text(self@)[i],
            decreases 9 - k,
        {
            assert(self@[k as int] == self.boxes[k as int]@);
            result.push(self.boxes[k].get_c());
            k += 1;
        }
        result.push(']');
        assert(result@ =~= cell_text(self@));
        result
    }
}

/// The plain listing of a grid: thirteen lines, of which every fourth is a
/// rule of eleven dashes and the others are the nine rows of the grid, each
/// with a bar between the blocks.
pub open spec fn ss_text(g: Seq<Seq<BoxView>>) -> Seq<Seq<char>> {
    Seq::new(
        13,
        |y: int|
            Seq::new(
                11,
                |x: int|
                    if y % 4 == 0 {
                        '-'
                    } else if x % 4 == 3 {
                        '|'
                    } else {
                        match g[(y / 4) * 3 + x / 4][((y % 4) - 1) * 3 + x % 4].value {
                            Some(v) => digit_char(v),
                            None => '.',
                        }
                    },
            ),
    )
}

impl Sudoku {
    /// The place that the character stands for: a blank place for a dot, a
    /// confirmed one for a digit.
    pub fn char_to_box(c: char) -> (result: Box)
        requires
            is_place_char(c),
        ensures
            result@ == char_view(c),
    {
        if c == '.' {
            Box::blank()
        } else {
            let digit = c as u32 - 48;
            Box::from_val(digit as u8)
        }
    }

    /// The character that shows the place at column `col` and row `row`,
    /// both counted from 1: its confirmed digit, or a dot.
    pub fn get_c(&self, col: usize, row: usize) -> (result: char)
        requires
            1 <= col <= 9,
            1 <= row <= 9,
            self@[crate::grid::unit_cell(8 + row, col - 1)][crate::grid::unit_box(
                8 + row,
                col - 1,
            )].value matches Some(x) ==> x <= 9,
        ensures
            result == (match self@[crate::grid::unit_cell(8 + row, col - 1)][crate::grid::unit_box(
                8 + row,
                col - 1,
            )].value {
                Some(x) => digit_char(x),
                None => '.',
            }),
    {
        self.get_box(col, row).get_c()
    }

    /// Whether the text gives a grid: 81 characters, each a dot or a digit from 1 to 9.
    pub fn is_line(input: &String) -> (result: bool)
        ensures
            result == is_grid_text(input@),
    {
        let text = input.as_str();
        if text.unicode_len() != 81 {
            return false;
        }
        let mut p: usize = 0;
        while p < 81
            invariant
                0 <= p <= 81,
                text@ == input@,
                text@.len() == 81,
                forall|q: int| 0 <= q < p ==> is_place_char(#[trigger] text@[q]),
            decreases 81 - p,
        {
            if !is_box_char(text.get_char(p)) {
                return false;
            }
            p += 1;
        }
        true
    }

    /// The grid that a text of 81 characters gives, row by row: a dot is a
    /// blank place, a digit a confirmed one. In each block the confirmed
    /// digits are struck from the other places.
    pub fn from_line(input: &String) -> (result: Sudoku)
        requires
            is_grid_text(input@),
        ensures
            result@ == single_pass(text_grid(input@), 9),
    {
        let text = input.as_str();
        let mut result: Sudoku = Sudoku::blank();
        let mut row: usize = 1;
        let mut col: usize = 1;
        let mut p: usize = 0;
        proof {
            assert forall|q: int| 0 <= q < 81 implies (#[trigger] result@[cell_of(q)][spot_of(q)])
                == BoxView::blank() by {
                lemma_place_text(q);
            }
        }
        while p < 81
            invariant
                0 <= p <= 81,
                text@ == input@,
                is_grid_text(text@),
                row == p % 9 + 1,
                col == p / 9 + 1,
                forall|q: int|
                    0 <= q < p ==> (#[trigger] result@[cell_of(q)][spot_of(q)]) == char_view(
                        text@[q],
                    ),
                forall|q: int|
                    p <= q < 81 ==> (#[trigger] result@[cell_of(q)][spot_of(q)])
                        == BoxView::blank(),
            decreases 81 - p,
        {
            let c = text.get_char(p);
            let ghost before = result@;
            assert(is_place_char(text@[p as int]));
            result.box_set(row, col, Self::char_to_box(c));
            proof {
                lemma_sudoku_proper(result);
                lemma_place_text(p as int);
                assert(crate::grid::unit_cell(8 + col, row - 1) == cell_of(p as int));
                assert(crate::grid::unit_box(8 + col, row - 1) == spot_of(p as int));
                assert forall|q: int| 0 <= q < 81 && q != p implies (
                #[trigger] result@[cell_of(q)][spot_of(q)]) == before[cell_of(q)][spot_of(q)] by {
                    lemma_place_text(q);
                }
            }
            row += 1;
            if row == 10 {
                row = 1;
                col += 1;
            }
            p += 1;
        }
        proof {
            lemma_sudoku_proper(result);
            assert forall|c: int, b: int| 0 <= c < 9 && 0 <= b < 9 implies (#[trigger] result@[c][b])
                == text_grid(input@)[c][b] by {
                lemma_text_place(c, b);
                let q = text_index(c, b);
                assert(result@[cell_of(q)][spot_of(q)] == char_view(text@[q]));
            }
            assert forall|c: int| 0 <= c < 9 implies #[trigger] result@[c] == text_grid(
                input@,
            )[c] by {
                assert(result@[c] =~= text_grid(input@)[c]);
            }
            assert(result@ =~= text_grid(input@));
            assert forall|c: int, b: int| 0 <= c < 9 && 0 <= b < 9 implies (#[trigger] result@[c][b])
                == BoxView::blank() || exists|d: u8|
                1 <= d <= 9 && result@[c][b] == BoxView::solved_as(d) by {
                lemma_text_place(c, b);
                let ch = input@[text_index(c, b)];
                assert(is_place_char(ch));
                if ch != '.' {
                    assert(result@[c][b] == BoxView::solved_as((ch as u32 - 48) as u8));
                }
            }
            lemma_fresh_normalises(result@);
        }
        normalise(&mut result);
        result
    }

    /// The plain listing of the grid: thirteen lines, of which every fourth
    /// is a rule of eleven dashes and the others are the nine rows of the
    /// grid, each with a bar between the blocks.
    pub fn print_ss(&self) -> (result: Vec<String>)
        requires
            forall|c: int, b: int|
                0 <= c < 9 && 0 <= b < 9 ==> ((#[trigger] self@[c][b]).value matches Some(x) ==> x
                    <= 9),
        ensures
            result@.len() == 13,
            forall|y: int| 0 <= y < 13 ==> (#[trigger] result@[y])@ == ss_text(self@)[y],
    {
        let mut result: Vec<String> = Vec::new();
        let mut y: usize = 0;
        while y < 13
            invariant
                0 <= y <= 13,
                forall|c: int, b: int|
                    0 <= c < 9 && 0 <= b < 9 ==> ((#[trigger] self@[c][b]).value matches Some(x)
                        ==> x <= 9),
                result@.len() == y,
                forall|z: int| 0 <= z < y ==> (#[trigger] result@[z])@ == ss_text(self@)[z],
            decreases 13 - y,
        {
            let mut line = String::new();
            let mut x: usize = 0;
            while x < 11
                invariant
                    0 <= x <= 11,
                    y < 13,
                    forall|c: int, b: int|
                        0 <= c < 9 && 0 <= b < 9 ==> ((#[trigger] self@[c][b]).value matches Some(
                            v,
                        ) ==> v <= 9),
                    line@.len() == x,
                    forall|w: int| 0 <= w < x ==> #[trigger] line@[w] == ss_text(self@)[y as int][w],
                decreases 11 - x,
            {
                if y % 4 == 0 {
                    line.push('-');
                } else if x % 4 == 3 {
                    line.push('|');
                } else {
                    let cell_idx = (y / 4) * 3 + x / 4;
                    let box_idx = ((y % 4) - 1) * 3 + x % 4;
                    let sk_box = self.lookup(cell_idx, box_idx);
                    assert(self@[cell_idx as int][box_idx as int] == sk_box@);
                    line.push(sk_box.get_c());
                }
                x += 1;
            }
            assert(line@ =~= ss_text(self@)[y as int]);
            result.push(line);
            y += 1;
        }
        result
    }
}

/// Whether `line` is a row of a grid in the listing form, as it is read
/// from a file: a first character, then three times three places and a
/// bar, and the end of the line, `\n` or `\r\n`.
pub open spec fn is_ss_row(line: Seq<char>) -> bool {
    &&& (line.len() == 14 && line[13] == '\n') || (line.len() == 15 && line[13] == '\r'
        && line[14] == '\n')
    &&& forall|i: int| 0 <= i < line.len() ==> (#[trigger] line[i]) <= '\x7f'
    &&& line[4] == '|' && line[8] == '|' && line[12] == '|'
    &&& forall|x: int| 0 <= x < 9 ==> is_place_char(#[trigger] line[ss_column(x)])
}

/// Where in a row of the listing form the place of column `x` stands.
pub open spec fn ss_column(x: int) -> int {
    1 + x + x / 3
}

/// Which line of a file in the listing form holds row `r` of the grid:
/// after every three rows stands one line that is not read.
pub open spec fn ss_line(r: int) -> int {
    r + r / 3
}

/// Whether the lines are those of a file in the listing form.
pub open spec fn is_print_ss(lines: Seq<String>) -> bool {
    lines.len() >= 11 && forall|r: int| 0 <= r < 9 ==> is_ss_row((#[trigger] lines[ss_line(r)])@)
}

/// The 81 places of a file in the listing form, row by row.
pub open spec fn ss_chars(lines: Seq<String>) -> Seq<char> {
    Seq::new(81, |p: int| lines[ss_line(p / 9)]@[ss_column(p % 9)])
}

/// Whether `line` is a grid on one line, as it is read from a file: 81
/// places and the end of the line.
pub open spec fn is_txt_line(line: Seq<char>) -> bool {
    line.len() == 82 && line[81] == '\n' && is_grid_text(line.subrange(0, 81))
}

/// Whether the line is a row of a grid in the listing form.
pub fn is_ss_row_line(line: &String) -> (result: bool)
    ensures
        result == is_ss_row(line@),
{
    let text = line.as_str();
    let n = text.unicode_len();
    if n != 14 && n != 15 {
        return false;
    }
    let mut i: usize = 0;
    while i < n
        invariant
            0 <= i <= n,
            n == text@.len(),
            text@ == line@,
            forall|j: int| 0 <= j < i ==> (#[trigger] text@[j]) <= '\x7f',
        decreases n - i,
    {
        if text.get_char(i) > '\x7f' {
            return false;
        }
        i += 1;
    }
    if n == 14 {
        if text.get_char(13) != '\n' {
            return false;
        }
    } else {
        if text.get_char(13) != '\r' || text.get_char(14) != '\n' {
            return false;
        }
    }
    if text.get_char(4) != '|' || text.get_char(8) != '|' || text.get_char(12) != '|' {
        return false;
    }
    let mut x: usize = 0;
    while x < 9
        invariant
            0 <= x <= 9,
            text@ == line@,
            text@.len() == 14 || text@.len() == 15,
            forall|y: int| 0 <= y < x ==> is_place_char(#[trigger] text@[ss_column(y)]),
        decreases 9 - x,
    {
        if !is_box_char(text.get_char(1 + x + x / 3)) {
            assert(!is_place_char(text@[ss_column(x as int)]));
            return false;
        }
        x += 1;
    }
    true
}

impl Sudoku {
    /// The grid that the lines of a file in the listing form give, with the
    /// confirmed digits struck from the other places of each block; or an
    /// error, where the lines are not of that form or the grid is not
    /// coherent.
    ///
    /// The lines are taken as they are read, each with its end of line.
    /// Three rows of the grid are followed by one line that is not read.
    pub fn from_ss(lines: &Vec<String>) -> (result: Result<Sudoku, &'static str>)
        ensures
            match result {
                Ok(sudoku) => is_print_ss(lines@) && sudoku@ == single_pass(
                    text_grid(ss_chars(lines@)),
                    9,
                ) && crate::grid::grid_ok(sudoku@),
                Err(_) => !is_print_ss(lines@) || !crate::grid::grid_ok(
                    single_pass(text_grid(ss_chars(lines@)), 9),
                ),
            },
    {
        if lines.len() < 11 {
            return Err("too few lines");
        }
        let mut text = String::new();
        let mut r: usize = 0;
        while r < 9
            invariant
                0 <= r <= 9,
                lines.len() >= 11,
                text@.len() == 9 * r,
                forall|q: int| 0 <= q < r ==> is_ss_row((#[trigger] lines@[ss_line(q)])@),
                forall|p: int| 0 <= p < 9 * r ==> #[trigger] text@[p] == ss_chars(lines@)[p],
            decreases 9 - r,
        {
            let line = &lines[r + r / 3];
            if !is_ss_row_line(line) {
                assert(!is_ss_row(lines@[ss_line(r as int)]@));
                return Err("a row is not three times three places and a bar");
            }
            let row = line.as_str();
            let mut x: usize = 0;
            while x < 9
                invariant
                    0 <= x <= 9,
                    0 <= r < 9,
                    lines.len() >= 11,
                    row@ == lines@[ss_line(r as int)]@,
                    is_ss_row(row@),
                    text@.len() == 9 * r + x,
                    forall|p: int|
                        0 <= p < 9 * r + x ==> #[trigger] text@[p] == ss_chars(lines@)[p],
                decreases 9 - x,
            {
                let c = row.get_char(1 + x + x / 3);
                text.push(c);
                proof {
                    let p = 9 * r + x;
                    assert(p / 9 == r && p % 9 == x);
                }
                x += 1;
            }
            r += 1;
        }
        proof {
            assert(text@ =~= ss_chars(lines@));
            assert forall|p: int| 0 <= p < 81 implies is_place_char(#[trigger] text@[p]) by {
                let line = lines@[ss_line(p / 9)]@;
                assert(is_ss_row(line));
                assert(is_place_char(line[ss_column(p % 9)]));
            }
        }
        let sudoku = Self::from_line(&text);
        if !sudoku.check() {
            return Err("a digit stands twice in a row, a column or a block");
        }
        Ok(sudoku)
    }

    /// Whether each of the lines is a grid on one line, as it is read from a
    /// file: 81 places and the end of the line.
    pub fn is_txt(lines: &Vec<String>) -> (result: bool)
        ensures
            result == forall|i: int| 0 <= i < lines.len() ==> is_txt_line((#[trigger] lines@[i])@),
    {
        let mut i: usize = 0;
        while i < lines.len()
            invariant
                0 <= i <= lines.len(),
                forall|j: int| 0 <= j < i ==> is_txt_line((#[trigger] lines@[j])@),
            decreases lines.len() - i,
        {
            let line = lines[i].as_str();
            if line.unicode_len() != 82 {
                return false;
            }
            if line.get_char(81) != '\n' {
                return false;
            }
            let grid = String::from_str(line.substring_char(0, 81));
            if !Self::is_line(&grid) {
                return false;
            }
            i += 1;
        }
        true
    }

    /// The grids that the lines of a file give, one grid to a line, each as
    /// [`Sudoku::from_line`] reads it.
    pub fn from_txt(lines: &Vec<String>) -> (result: Vec<Sudoku>)
        requires
            forall|i: int| 0 <= i < lines.len() ==> is_txt_line((#[trigger] lines@[i])@),
        ensures
            result.len() == lines.len(),
            forall|i: int|
                0 <= i < lines.len() ==> (#[trigger] result@[i])@ == single_pass(
                    text_grid(lines@[i]@.subrange(0, 81)),
                    9,
                ),
    {
        let mut result: Vec<Sudoku> = Vec::new();
        let mut i: usize = 0;
        while i < lines.len()
            invariant
                0 <= i <= lines.len(),
                forall|j: int| 0 <= j < lines.len() ==> is_txt_line((#[trigger] lines@[j])@),
                result.len() == i,
                forall|j: int|
                    0 <= j < i ==> (#[trigger] result@[j])@ == single_pass(
                        text_grid(lines@[j]@.subrange(0, 81)),
                        9,
                    ),
            decreases lines.len() - i,
        {
            let line = lines[i].as_str();
            assert(is_txt_line(lines@[i as int]@));
            let grid = String::from_str(line.substring_char(0, 81));
            result.push(Self::from_line(&grid));
            i += 1;
        }
        result
    }
}

} // verus!
