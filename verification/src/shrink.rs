//! Deduction only takes away: no technique makes a digit possible again,
//! and none takes a confirmed digit back.
use crate::bits::{lemma_bit_and, mask_flags};
use crate::grid::{
    in_unit, is_grid, lemma_place_of_unit, place_in_unit, unit_of, with_unit, grid_shrinks_to,
};
use crate::line::{line_pass, line_step};
use crate::naked::{naked_run, naked_set_unit, naked_step, naked_upto, patterns, struck};
use crate::single::{claims, free_flags, offers, single_position_unit, top_claim_below};
use crate::sk_box::{count_digits, lemma_bits, BoxView};
use crate::solvers::{naked_pass, single_pass};
use crate::unit::unit_shrinks_to;
use vstd::prelude::*;

verus! {

/// Setting the possible digits to some of those that were possible only takes away.
pub proof fn lemma_with_flags_shrinks(v: BoxView, p: Seq<bool>)
    requires
        forall|d: int| 0 <= d < 10 && p[d] ==> v.poss[d],
    ensures
        v.shrinks_to(v.with_flags(p)),
{
}

/// A place follows itself, and following is transitive.
pub proof fn lemma_unit_shrinks_trans(a: Seq<BoxView>, b: Seq<BoxView>, c: Seq<BoxView>)
    requires
        unit_shrinks_to(a, b),
        unit_shrinks_to(b, c),
    ensures
        unit_shrinks_to(a, c),
{
    assert forall|i: int| 0 <= i < a.len() implies (#[trigger] a[i]).shrinks_to(c[i]) by {
        assert(a[i].shrinks_to(b[i]));
        assert(b[i].shrinks_to(c[i]));
    }
}

/// The highest claim of a place, if it has one, is a digit that the place offers.
pub proof fn lemma_top_claim(u: Seq<BoxView>, i: int, n: int)
    requires
        n <= 10,
    ensures
        top_claim_below(u, i, n) == 0 || (1 <= top_claim_below(u, i, n) < n && claims(
            u,
            i,
            top_claim_below(u, i, n),
        )),
    decreases n,
{
    if n > 1 && !claims(u, i, n - 1) {
        lemma_top_claim(u, i, n - 1);
    }
}

/// Single position only takes away.
pub proof fn lemma_single_shrinks(u: Seq<BoxView>)
    requires
        u.len() == 9,
    ensures
        unit_shrinks_to(u, single_position_unit(u)),
{
    let r = single_position_unit(u);
    assert forall|i: int| 0 <= i < 9 implies (#[trigger] u[i]).shrinks_to(r[i]) by {
        lemma_with_flags_shrinks(u[i], free_flags(u, i));
        lemma_top_claim(u, i, 10);
    }
}

/// Striking the digits of a pattern from a place only takes away.
pub proof fn lemma_struck_shrinks(v: BoxView, pat: u16)
    ensures
        v.shrinks_to(struck(v, pat)),
{
    lemma_bits(v);
    let p = mask_flags(v.bits() & !pat);
    assert forall|d: int| 0 <= d < 10 && p[d] implies v.poss[d] by {
        lemma_bit_and(v.bits(), !pat, d);
        assert(p[d] == crate::bits::has_bit(v.bits() & !pat, d));
        assert(crate::bits::has_bit(v.bits(), d) == v.can(d));
    }
    lemma_with_flags_shrinks(v, p);
}

/// The search for the first `n` patterns only takes away.
pub proof fn lemma_naked_run_shrinks(u: Seq<BoxView>, pats: Seq<u16>, k: int, n: int)
    requires
        u.len() == 9,
    ensures
        naked_run(u, pats, k, n).len() == 9,
        unit_shrinks_to(u, naked_run(u, pats, k, n)),
    decreases n,
{
    if n > 0 {
        lemma_naked_run_shrinks(u, pats, k, n - 1);
        let before = naked_run(u, pats, k, n - 1);
        let after = naked_step(before, pats[n - 1], k);
        assert forall|i: int| 0 <= i < 9 implies (#[trigger] before[i]).shrinks_to(after[i]) by {
            lemma_struck_shrinks(before[i], pats[n - 1]);
        }
        lemma_unit_shrinks_trans(u, before, after);
    }
}

/// The search for naked sets of the sizes 2 to `k` only takes away.
pub proof fn lemma_naked_upto_shrinks(u: Seq<BoxView>, k: int)
    requires
        u.len() == 9,
    ensures
        naked_upto(u, k).len() == 9,
        unit_shrinks_to(u, naked_upto(u, k)),
    decreases k,
{
    if k >= 2 {
        lemma_naked_upto_shrinks(u, k - 1);
        lemma_naked_run_shrinks(naked_upto(u, k - 1), patterns(k), k, patterns(k).len() as int);
        lemma_unit_shrinks_trans(u, naked_upto(u, k - 1), naked_upto(u, k));
    }
}

/// Naked sets only takes away.
pub proof fn lemma_naked_shrinks(u: Seq<BoxView>)
    requires
        u.len() == 9,
    ensures
        naked_set_unit(u).len() == 9,
        unit_shrinks_to(u, naked_set_unit(u)),
{
    lemma_naked_upto_shrinks(u, 5);
}

/// Following is transitive on grids.
pub proof fn lemma_grid_shrinks_trans(
    a: Seq<Seq<BoxView>>,
    b: Seq<Seq<BoxView>>,
    c: Seq<Seq<BoxView>>,
)
    requires
        grid_shrinks_to(a, b),
        grid_shrinks_to(b, c),
    ensures
        grid_shrinks_to(a, c),
{
    assert forall|x: int| 0 <= x < 9 implies unit_shrinks_to(#[trigger] a[x], c[x]) by {
        assert(unit_shrinks_to(a[x], b[x]));
        assert(unit_shrinks_to(b[x], c[x]));
        lemma_unit_shrinks_trans(a[x], b[x], c[x]);
    }
}

/// A grid follows itself.
pub proof fn lemma_grid_shrinks_refl(g: Seq<Seq<BoxView>>)
    requires
        is_grid(g),
    ensures
        grid_shrinks_to(g, g),
{
    assert forall|x: int| 0 <= x < 9 implies unit_shrinks_to(#[trigger] g[x], g[x]) by {}
}

/// Where a unit only loses, the grid only loses.
pub proof fn lemma_with_unit_shrinks(g: Seq<Seq<BoxView>>, n: int, u: Seq<BoxView>)
    requires
        is_grid(g),
        0 <= n < 27,
        unit_shrinks_to(unit_of(g, n), u),
    ensures
        is_grid(with_unit(g, n, u)),
        grid_shrinks_to(g, with_unit(g, n, u)),
{
    let h = with_unit(g, n, u);
    assert forall|c: int| 0 <= c < 9 implies unit_shrinks_to(#[trigger] g[c], h[c]) by {
        assert forall|b: int| 0 <= b < 9 implies (#[trigger] g[c][b]).shrinks_to(h[c][b]) by {
            if in_unit(n, c, b) {
                lemma_place_of_unit(n, c, b);
                let k = place_in_unit(n, c, b);
                assert(unit_of(g, n)[k] == g[c][b]);
                assert(unit_of(g, n)[k].shrinks_to(u[k]));
            }
        }
    }
}

/// Single position over the first `n` units only takes away.
pub proof fn lemma_single_pass_shrinks(g: Seq<Seq<BoxView>>, n: int)
    requires
        is_grid(g),
        0 <= n <= 27,
    ensures
        is_grid(single_pass(g, n)),
        grid_shrinks_to(g, single_pass(g, n)),
    decreases n,
{
    if n > 0 {
        lemma_single_pass_shrinks(g, n - 1);
        let h = single_pass(g, n - 1);
        lemma_single_shrinks(unit_of(h, n - 1));
        lemma_with_unit_shrinks(h, n - 1, single_position_unit(unit_of(h, n - 1)));
        lemma_grid_shrinks_trans(g, h, single_pass(g, n));
    } else {
        lemma_grid_shrinks_refl(g);
    }
}

/// Naked sets over the first `n` units only takes away.
pub proof fn lemma_naked_pass_shrinks(g: Seq<Seq<BoxView>>, n: int)
    requires
        is_grid(g),
        0 <= n <= 27,
    ensures
        is_grid(naked_pass(g, n)),
        grid_shrinks_to(g, naked_pass(g, n)),
    decreases n,
{
    if n > 0 {
        lemma_naked_pass_shrinks(g, n - 1);
        let h = naked_pass(g, n - 1);
        lemma_naked_shrinks(unit_of(h, n - 1));
        lemma_with_unit_shrinks(h, n - 1, naked_set_unit(unit_of(h, n - 1)));
        lemma_grid_shrinks_trans(g, h, naked_pass(g, n));
    } else {
        lemma_grid_shrinks_refl(g);
    }
}

/// Candidate lines over the first `n` blocks only takes away.
pub proof fn lemma_line_pass_shrinks(g: Seq<Seq<BoxView>>, n: int)
    requires
        is_grid(g),
        0 <= n <= 9,
    ensures
        is_grid(line_pass(g, n)),
        grid_shrinks_to(g, line_pass(g, n)),
    decreases n,
{
    if n > 0 {
        lemma_line_pass_shrinks(g, n - 1);
        let h = line_pass(g, n - 1);
        let after = line_step(h, n - 1);
        assert forall|c: int| 0 <= c < 9 implies unit_shrinks_to(#[trigger] h[c], after[c]) by {
            assert forall|b: int| 0 <= b < 9 implies (#[trigger] h[c][b]).shrinks_to(
                after[c][b],
            ) by {}
        }
        lemma_grid_shrinks_trans(g, h, after);
    } else {
        lemma_grid_shrinks_refl(g);
    }
}

/// How much is left to deduce at a place: its flags, and one more while no digit is confirmed.
#[verifier::opaque]
pub open spec fn place_measure(v: BoxView) -> int {
    crate::sk_box::flag(v.poss[0]) + count_digits(v.poss) + crate::sk_box::flag(v.value.is_none())
}

/// The `m`-th of the 81 places of the grid, counted block by block.
pub open spec fn place_at(g: Seq<Seq<BoxView>>, m: int) -> BoxView {
    g[m / 9][m % 9]
}

/// How much is left to deduce at the first `n` places of the grid, counted block by block.
pub open spec fn measure_below(g: Seq<Seq<BoxView>>, n: int) -> int
    decreases n,
{
    if n <= 0 {
        0
    } else {
        measure_below(g, n - 1) + place_measure(place_at(g, n - 1))
    }
}

/// How much is left to deduce in the grid.
pub open spec fn grid_measure(g: Seq<Seq<BoxView>>) -> int {
    measure_below(g, 81)
}

/// The measure of the grid does not rise where the grid only loses; it
/// falls where a place that keeps its invariant has changed.
pub proof fn lemma_measure_below(g: Seq<Seq<BoxView>>, h: Seq<Seq<BoxView>>, n: int)
    requires
        grid_shrinks_to(g, h),
        0 <= n <= 81,
    ensures
        0 <= measure_below(h, n) <= measure_below(g, n),
        (exists|m: int|
            0 <= m < n && place_measure(#[trigger] place_at(h, m)) < place_measure(place_at(g, m)))
            ==> measure_below(h, n) < measure_below(g, n),
    decreases n,
{
    if n > 0 {
        lemma_measure_below(g, h, n - 1);
        let c = (n - 1) / 9;
        let b = (n - 1) % 9;
        assert(unit_shrinks_to(g[c], h[c]));
        assert(g[c][b].shrinks_to(h[c][b]));
        lemma_place_measure_bounds(g[c][b], h[c][b]);
        if exists|m: int|
            0 <= m < n && place_measure(#[trigger] place_at(h, m)) < place_measure(place_at(g, m)) {
            let m = choose|m: int|
                0 <= m < n && place_measure(#[trigger] place_at(h, m)) < place_measure(
                    place_at(g, m),
                );
            if m < n - 1 {
                assert(measure_below(h, n - 1) < measure_below(g, n - 1));
            }
        }
    }
}

/// The measure of a place does not rise where the place only loses.
pub proof fn lemma_place_measure_bounds(a: BoxView, b: BoxView)
    requires
        a.shrinks_to(b),
    ensures
        0 <= place_measure(b) <= place_measure(a),
{
    reveal(place_measure);
}

/// Between two places that keep their invariant, of which the second
/// follows the first, either nothing has changed or the measure has fallen.
pub proof fn lemma_place_measure(a: BoxView, b: BoxView)
    requires
        a.wf(),
        b.wf(),
        a.shrinks_to(b),
    ensures
        a == b || place_measure(b) < place_measure(a),
{
    reveal(place_measure);
    if place_measure(b) >= place_measure(a) {
        assert(a.poss =~= b.poss);
        assert(a.value == b.value);
    }
}

/// Between two coherent grids, of which the second follows the first,
/// either nothing has changed or the measure has fallen.
pub proof fn lemma_measure_falls(g: Seq<Seq<BoxView>>, h: Seq<Seq<BoxView>>)
    requires
        grid_shrinks_to(g, h),
        forall|c: int, b: int| 0 <= c < 9 && 0 <= b < 9 ==> (#[trigger] g[c][b]).wf(),
        forall|c: int, b: int| 0 <= c < 9 && 0 <= b < 9 ==> (#[trigger] h[c][b]).wf(),
    ensures
        g == h || grid_measure(h) < grid_measure(g),
        0 <= grid_measure(h),
{
    lemma_measure_below(g, h, 81);
    if g != h {
        if forall|c: int, b: int| 0 <= c < 9 && 0 <= b < 9 ==> (#[trigger] g[c][b]) == h[c][b] {
            assert forall|c: int| 0 <= c < 9 implies #[trigger] g[c] == h[c] by {
                assert(g[c] =~= h[c]);
            }
            assert(g =~= h);
        }
        let (c, b) = choose|c: int, b: int|
            0 <= c < 9 && 0 <= b < 9 && (#[trigger] g[c][b]) != h[c][b];
        assert(unit_shrinks_to(g[c], h[c]));
        lemma_place_measure(g[c][b], h[c][b]);
        let m = c * 9 + b;
        assert(m / 9 == c && m % 9 == b);
        assert(place_measure(place_at(h, m)) < place_measure(place_at(g, m)));
    }
}

} // verus!
