//! The large picture of a grid: every place as three rows of three
//! characters, which show its confirmed digit or its possible digits.
use crate::rounds::same_box;
use crate::sk_box::{digit_char, BoxView};
use crate::sudoku::Sudoku;
use crate::text::cell_of;
use crate::text::spot_of;
use vstd::prelude::*;
use vstd::string::StringExecFns;

verus! {

/// The rule above the picture, and the blank before the words that follow it.
pub open spec fn top_rule() -> Seq<char> {
    "╔═══════════╦═══════════╦═══════════╗ "@
}

/// The rule between two bands of blocks.
pub open spec fn band_rule() -> Seq<char> {
    "╠═══════════╬═══════════╬═══════════╣"@
}

/// The rule between two rows of places within a band.
pub open spec fn row_rule() -> Seq<char> {
    "║---+---+---║---+---+---║---+---+---║"@
}

/// The rule below the picture.
pub open spec fn bottom_rule() -> Seq<char> {
    "╚═══════════╩═══════════╩═══════════╝"@
}

/// What switches the colour of changed places on.
pub open spec fn colour_on() -> Seq<char> {
    "\x1b[93m"@
}

/// What switches the colour off again.
pub open spec fn colour_off() -> Seq<char> {
    "\x1b[0m"@
}

/// The character that shows the place at `value`'s spot of its picture.
pub open spec fn pretty_char(v: BoxView, value: int) -> char {
    match v.value {
        Some(x) => if value == 5 {
            digit_char(x)
        } else {
            ' '
        },
        None => if v.poss[value] {
            digit_char(value as u8)
        } else {
            '.'
        },
    }
}

/// The `q`-th place of the grid, counted row by row.
pub open spec fn place(g: Seq<Seq<BoxView>>, q: int) -> BoxView {
    g[cell_of(q)][spot_of(q)]
}

/// One character of the picture with what stands around it: the character
/// that shows the `j`-th of the 27 spots of a line of the picture of row
/// `r`, in colour where the place differs from the same place of `other`,
/// followed by the bar that ends a place or a block.
pub open spec fn pretty_spot(
    g: Seq<Seq<BoxView>>,
    other: Option<Seq<Seq<BoxView>>>,
    r: int,
    k: int,
    j: int,
) -> Seq<char> {
    let v = place(g, r * 9 + j / 3);
    let shown = seq![pretty_char(v, k * 3 + j % 3 + 1)];
    let coloured = match other {
        Some(h) => if v != place(h, r * 9 + j / 3) {
            colour_on() + shown + colour_off()
        } else {
            shown
        },
        None => shown,
    };
    if j % 9 == 8 {
        coloured.push('║')
    } else if j % 3 == 2 {
        coloured.push('|')
    } else {
        coloured
    }
}

/// The first `n` spots of line `k` of the picture of row `r`, after the bar that opens the line.
pub open spec fn pretty_spots(
    g: Seq<Seq<BoxView>>,
    other: Option<Seq<Seq<BoxView>>>,
    r: int,
    k: int,
    n: int,
) -> Seq<char>
    decreases n,
{
    if n <= 0 {
        seq!['║']
    } else {
        pretty_spots(g, other, r, k, n - 1) + pretty_spot(g, other, r, k, n - 1)
    }
}

/// Line `y` of the picture, which has 37 lines: the rule above, with the
/// words `note` behind it; for each row of the grid three lines of
/// characters and a rule; the last rule closes the picture.
pub open spec fn pretty_line(
    g: Seq<Seq<BoxView>>,
    other: Option<Seq<Seq<BoxView>>>,
    note: Seq<char>,
    y: int,
) -> Seq<char> {
    if y == 0 {
        top_rule() + note
    } else if y == 36 {
        bottom_rule()
    } else if (y - 1) % 4 < 3 {
        pretty_spots(g, other, (y - 1) / 4, (y - 1) % 4, 27)
    } else if ((y - 1) / 4) % 3 == 2 {
        band_rule()
    } else {
        row_rule()
    }
}

/// The words of a commentary, or none.
pub open spec fn words_of(commentary: Option<String>) -> Seq<char> {
    match commentary {
        Some(words) => words@,
        None => Seq::empty(),
    }
}

/// The grid to compare with, if there is one.
pub open spec fn view_of(diff: Option<Sudoku>) -> Option<Seq<Seq<BoxView>>> {
    match diff {
        Some(d) => Some(d@),
        None => None,
    }
}

impl Sudoku {
    /// The large picture of the grid, line by line. Every place takes three
    /// lines of three characters: a confirmed digit stands in the middle,
    /// otherwise each possible digit stands at its own spot and a dot at the
    /// spot of each other digit. With `diff`, the places that differ from
    /// those of that grid are shown in colour. The words of `commentary`
    /// follow the rule above the picture.
    pub fn pretty_print(&self, diff: Option<Sudoku>, commentary: Option<String>) -> (result: Vec<
        String,
    >)
        requires
            forall|c: int, b: int|
                0 <= c < 9 && 0 <= b < 9 ==> ((#[trigger] self@[c][b]).value matches Some(x) ==> x
                    <= 9),
        ensures
            result@.len() == 37,
            forall|y: int|
                0 <= y < 37 ==> (#[trigger] result@[y])@ == pretty_line(
                    self@,
                    view_of(diff),
                    words_of(commentary),
                    y,
                ),
    {
        let ghost other = view_of(diff);
        let ghost note = words_of(commentary);
        let mut result: Vec<String> = Vec::new();
        let mut first = String::from_str("╔═══════════╦═══════════╦═══════════╗ ");
        match &commentary {
            Some(words) => {
                first.append(words.as_str());
            },
            None => {
                assert(first@ + Seq::<char>::empty() =~= first@);
            },
        }
        result.push(first);
        let mut y: usize = 1;
        while y < 36
            invariant
                1 <= y <= 36,
                forall|c: int, b: int|
                    0 <= c < 9 && 0 <= b < 9 ==> ((#[trigger] self@[c][b]).value matches Some(x)
                        ==> x <= 9),
                other == view_of(diff),
                result@.len() == y,
                forall|z: int|
                    0 <= z < y ==> (#[trigger] result@[z])@ == pretty_line(self@, other, note, z),
            decreases 36 - y,
        {
            let row = (y - 1) / 4;
            let val_row = (y - 1) % 4;
            let line = if val_row < 3 {
                self.pretty_row(diff, row, val_row)
            } else if row % 3 == 2 {
                String::from_str("╠═══════════╬═══════════╬═══════════╣")
            } else {
                String::from_str("║---+---+---║---+---+---║---+---+---║")
            };
            result.push(line);
            y += 1;
        }
        result.push(String::from_str("╚═══════════╩═══════════╩═══════════╝"));
        result
    }

    /// Line `val_row` of the picture of row `row` of the grid.
    pub fn pretty_row(&self, diff: Option<Sudoku>, row: usize, val_row: usize) -> (result: String)
        requires
            row < 9,
            val_row < 3,
            forall|c: int, b: int|
                0 <= c < 9 && 0 <= b < 9 ==> ((#[trigger] self@[c][b]).value matches Some(x) ==> x
                    <= 9),
        ensures
            result@ == pretty_spots(self@, view_of(diff), row as int, val_row as int, 27),
    {
        let ghost other = view_of(diff);
        let mut result = String::new();
        result.push('║');
        assert(result@ =~= seq!['║']);
        let mut j: usize = 0;
        while j < 27
            invariant
                0 <= j <= 27,
                row < 9,
                val_row < 3,
                forall|c: int, b: int|
                    0 <= c < 9 && 0 <= b < 9 ==> ((#[trigger] self@[c][b]).value matches Some(x)
                        ==> x <= 9),
                other == view_of(diff),
                result@ == pretty_spots(self@, other, row as int, val_row as int, j as int),
            decreases 27 - j,
        {
            self.pretty_push(&mut result, diff, row, val_row, j);
            j += 1;
        }
        result
    }

    /// The place in row `row` and column `col` of the grid, both counted from 0.
    fn place_at(&self, row: usize, col: usize) -> (result: crate::sk_box::Box)
        requires
            row < 9,
            col < 9,
        ensures
            result@ == place(self@, row * 9 + col),
    {
        assert((row * 9 + col) / 9 == row && (row * 9 + col) % 9 == col);
        self.get_box(col + 1, row + 1)
    }

    /// Appends to `line` the `j`-th of the 27 spots of line `val_row` of the picture of row `row`.
    fn pretty_push(
        &self,
        line: &mut String,
        diff: Option<Sudoku>,
        row: usize,
        val_row: usize,
        j: usize,
    )
        requires
            row < 9,
            val_row < 3,
            j < 27,
            forall|c: int, b: int|
                0 <= c < 9 && 0 <= b < 9 ==> ((#[trigger] self@[c][b]).value matches Some(x) ==> x
                    <= 9),
        ensures
            final(line)@ == old(line)@ + pretty_spot(
                self@,
                view_of(diff),
                row as int,
                val_row as int,
                j as int,
            ),
    {
        let ghost before = line@;
        let orig_box = self.place_at(row, j / 3);
        proof {
            crate::text::lemma_place_text(row * 9 + j / 3);
        }
        let changed = match diff {
            None => false,
            Some(compare) => {
                let other_box = compare.place_at(row, j / 3);
                !same_box(&orig_box, &other_box)
            },
        };
        let c = orig_box.get_pretty_c((val_row * 3 + j % 3 + 1) as u8);
        let ghost shown = seq![c];
        if changed {
            line.append("\x1b[93m");
        }
        line.push(c);
        if changed {
            line.append("\x1b[0m");
        }
        let ghost coloured = if changed {
            colour_on() + shown + colour_off()
        } else {
            shown
        };
        assert(line@ =~= before + coloured);
        if j % 9 == 8 {
            line.push('║');
            assert(line@ =~= before + coloured.push('║'));
        } else if j % 3 == 2 {
            line.push('|');
            assert(line@ =~= before + coloured.push('|'));
        }
    }
}

} // verus!
