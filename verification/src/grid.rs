//! The grid as mathematics: nine blocks of nine places, and its 27 units.
//!
//! A place is addressed by its block (0 to 8, row by row) and its spot in
//! the block (0 to 8, row by row). The units are numbered 0 to 26: the nine
//! blocks, then the nine rows from the top, then the nine columns from the left.
use crate::sk_box::BoxView;
use crate::sk_cell::all_solved;
use crate::unit::{unit_ok, unit_shrinks_to};
use vstd::prelude::*;

verus! {

/// The block of place `k` of unit `n`.
pub open spec fn unit_cell(n: int, k: int) -> int {
    if n < 9 {
        n
    } else if n < 18 {
        ((n - 9) / 3) * 3 + k / 3
    } else {
        (n - 18) / 3 + 3 * (k / 3)
    }
}

/// The spot within its block of place `k` of unit `n`.
pub open spec fn unit_box(n: int, k: int) -> int {
    if n < 9 {
        k
    } else if n < 18 {
        ((n - 9) % 3) * 3 + k % 3
    } else {
        (n - 18) % 3 + 3 * (k % 3)
    }
}

/// Whether the place at spot `b` of block `c` belongs to unit `n`.
pub open spec fn in_unit(n: int, c: int, b: int) -> bool {
    if n < 9 {
        c == n
    } else if n < 18 {
        c / 3 == (n - 9) / 3 && b / 3 == (n - 9) % 3
    } else {
        c % 3 == (n - 18) / 3 && b % 3 == (n - 18) % 3
    }
}

/// Which place of unit `n` the place at spot `b` of block `c` is, if it belongs to it.
pub open spec fn place_in_unit(n: int, c: int, b: int) -> int {
    if n < 9 {
        b
    } else if n < 18 {
        (c % 3) * 3 + b % 3
    } else {
        (c / 3) * 3 + b / 3
    }
}

/// Whether `g` has the shape of a grid: nine blocks of nine places.
pub open spec fn is_grid(g: Seq<Seq<BoxView>>) -> bool {
    g.len() == 9 && forall|c: int| 0 <= c < 9 ==> (#[trigger] g[c]).len() == 9
}

/// The nine places of unit `n` of the grid, in order.
pub open spec fn unit_of(g: Seq<Seq<BoxView>>, n: int) -> Seq<BoxView> {
    Seq::new(9, |k: int| g[unit_cell(n, k)][unit_box(n, k)])
}

/// The grid in which the places of unit `n` are those of `u` and all others are as in `g`.
pub open spec fn with_unit(g: Seq<Seq<BoxView>>, n: int, u: Seq<BoxView>) -> Seq<Seq<BoxView>> {
    Seq::new(
        9,
        |c: int|
            Seq::new(
                9,
                |b: int|
                    if in_unit(n, c, b) {
                        u[place_in_unit(n, c, b)]
                    } else {
                        g[c][b]
                    },
            ),
    )
}

/// Whether the grid is coherent: in each of its 27 units every place keeps
/// its invariant and no digit is confirmed twice.
pub open spec fn grid_ok(g: Seq<Seq<BoxView>>) -> bool {
    is_grid(g) && forall|n: int| 0 <= n < 27 ==> unit_ok(#[trigger] unit_of(g, n), false)
}

/// Whether every place of the grid has a confirmed digit.
pub open spec fn grid_solved(g: Seq<Seq<BoxView>>) -> bool {
    forall|c: int| 0 <= c < 9 ==> all_solved(#[trigger] g[c])
}

/// Whether each place of `later` can follow the same place of `g` in a deduction.
pub open spec fn grid_shrinks_to(g: Seq<Seq<BoxView>>, later: Seq<Seq<BoxView>>) -> bool {
    &&& is_grid(g)
    &&& is_grid(later)
    &&& forall|c: int| 0 <= c < 9 ==> unit_shrinks_to(#[trigger] g[c], later[c])
}

/// The two ways of addressing a place agree: place `c` of row `r` is place
/// `r` of column `c`, and both are spot `(r % 3) * 3 + c % 3` of block
/// `(r / 3) * 3 + c / 3`.
pub proof fn lemma_addressing_agrees(r: int, c: int)
    requires
        0 <= r < 9,
        0 <= c < 9,
    ensures
        unit_cell(9 + r, c) == (r / 3) * 3 + c / 3,
        unit_box(9 + r, c) == (r % 3) * 3 + c % 3,
        unit_cell(18 + c, r) == unit_cell(9 + r, c),
        unit_box(18 + c, r) == unit_box(9 + r, c),
        unit_cell(unit_cell(9 + r, c), unit_box(9 + r, c)) == unit_cell(9 + r, c),
        unit_box(unit_cell(9 + r, c), unit_box(9 + r, c)) == unit_box(9 + r, c),
{
}

/// Every place of a unit belongs to it, at its own position, and lies in the grid.
pub proof fn lemma_unit_places(n: int, k: int)
    requires
        0 <= n < 27,
        0 <= k < 9,
    ensures
        0 <= unit_cell(n, k) < 9,
        0 <= unit_box(n, k) < 9,
        in_unit(n, unit_cell(n, k), unit_box(n, k)),
        place_in_unit(n, unit_cell(n, k), unit_box(n, k)) == k,
{
}

/// A place that belongs to a unit is one of its nine places.
pub proof fn lemma_place_of_unit(n: int, c: int, b: int)
    requires
        0 <= n < 27,
        0 <= c < 9,
        0 <= b < 9,
        in_unit(n, c, b),
    ensures
        0 <= place_in_unit(n, c, b) < 9,
        unit_cell(n, place_in_unit(n, c, b)) == c,
        unit_box(n, place_in_unit(n, c, b)) == b,
{
}

} // verus!
