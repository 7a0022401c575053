//! Deduction is sound: what holds of a solution of the grid before a
//! technique is applied holds of it afterwards. A grid that has a solution
//! therefore never comes to hold a digit twice in a unit, nor a place
//! without a possible digit, and every technique can always be applied to it.
use crate::bits::{has_bit, lemma_bit_and, lemma_bit_not, lemma_bit_zero, mask_flags};
use crate::combinations::{bit_count, bits_below, is_pool, lemma_combinations_members};
use crate::grid::{
    grid_ok, in_unit, is_grid, lemma_place_of_unit, lemma_unit_places, place_in_unit, unit_box,
    unit_cell, unit_of, with_unit,
};
use crate::line::{hit_before, hit_below, line_hit, line_pass, line_step, on_line};
use crate::naked::{
    can_naked_set, can_run, can_search_upto, can_strike, digits, is_match, match_count, naked_run,
    naked_set_unit, naked_step, naked_upto, patterns,
};
use crate::rounds::{
    after_naked, after_single, can_round, can_solve, goes_on, round, rounds, solves_to,
};
use crate::shrink::lemma_top_claim;
use crate::single::{
    can_narrow, free_flags, lemma_one_offer, narrowed, offers, single_position_unit,
    top_claim_below,
};
use crate::sk_box::{flag, lemma_bits, BoxView};
use crate::solvers::{can_naked_pass, can_single_pass, naked_pass, single_pass};
use crate::text::{char_view, is_grid_text, text_grid, text_index};
use crate::unit::{placed, unit_ok};
use vstd::prelude::*;

verus! {

/// Whether the digit `d` is one of `s`.
pub open spec fn stands(s: Seq<int>, d: int) -> bool {
    exists|i: int| 0 <= i < 9 && s[i] == d
}

/// Whether `s` holds the digits 1 to 9, each once.
pub open spec fn is_perm(s: Seq<int>) -> bool {
    &&& s.len() == 9
    &&& forall|i: int| 0 <= i < 9 ==> 1 <= #[trigger] s[i] <= 9
    &&& forall|i: int, j: int| 0 <= i < j < 9 ==> s[i] != s[j]
    &&& forall|d: int| 1 <= d <= 9 ==> #[trigger] stands(s, d)
}

/// Whether the digit `d` can stand at the place: the place keeps its
/// invariant, `d` is possible at it, and no other digit is confirmed at it.
pub open spec fn place_fits(v: BoxView, d: int) -> bool {
    &&& v.wf()
    &&& v.can(d)
    &&& v.value matches Some(x) ==> x == d
}

/// Whether the digits `s` can stand at the nine places of the unit.
pub open spec fn fits(u: Seq<BoxView>, s: Seq<int>) -> bool {
    &&& u.len() == 9
    &&& is_perm(s)
    &&& forall|i: int| 0 <= i < 9 ==> place_fits(#[trigger] u[i], s[i])
}

/// A unit in which nine different digits can stand is coherent.
pub proof fn lemma_fits_ok(u: Seq<BoxView>, s: Seq<int>)
    requires
        fits(u, s),
    ensures
        unit_ok(u, false),
{
    assert forall|i: int, j: int|
        0 <= i < j < 9 && (#[trigger] u[i]).value.is_some() implies u[i].value != (
    #[trigger] u[j]).value by {
        assert(place_fits(u[i], s[i]));
        assert(place_fits(u[j], s[j]));
    }
}

/// In a unit in which the digits `s` can stand, a digit is confirmed only where it stands.
pub proof fn lemma_placed_where(u: Seq<BoxView>, s: Seq<int>, i: int)
    requires
        fits(u, s),
        0 <= i < 9,
    ensures
        placed(u, s[i]) == u[i].value.is_some(),
{
    assert(place_fits(u[i], s[i]));
    if placed(u, s[i]) {
        let j = choose|j: int| 0 <= j < 9 && (#[trigger] u[j]).value == Some(s[i] as u8);
        assert(place_fits(u[j], s[j]));
        if i < j {
            assert(s[i] != s[j]);
        } else if j < i {
            assert(s[j] != s[i]);
        }
    }
    if u[i].value.is_some() {
        assert(u[i].value == Some(s[i] as u8));
    }
}

/// Striking the confirmed digits leaves at each place the digit that stands there.
pub proof fn lemma_narrowed_fits(u: Seq<BoxView>, s: Seq<int>, i: int)
    requires
        fits(u, s),
        0 <= i < 9,
    ensures
        place_fits(narrowed(u, i), s[i]),
        u[i].value.is_none() ==> offers(u, i, s[i]),
{
    assert(place_fits(u[i], s[i]));
    lemma_placed_where(u, s, i);
    if u[i].value.is_none() {
        let p = free_flags(u, i);
        assert(p[s[i]]);
        assert(!p[0]);
    }
}

/// Single position can pass over a unit in which nine different digits can
/// stand, and they can still stand in it afterwards.
pub proof fn lemma_single_sound(u: Seq<BoxView>, s: Seq<int>)
    requires
        fits(u, s),
    ensures
        can_narrow(u),
        fits(single_position_unit(u), s),
{
    assert forall|i: int| 0 <= i < 9 implies ((#[trigger] u[i]).value matches Some(v) ==> v
        < 16) by {
        assert(place_fits(u[i], s[i]));
    }
    assert forall|i: int| 0 <= i < 9 && (#[trigger] u[i]).value.is_none() implies exists|d: int|
        u[i].can(d) && !placed(u, d) by {
        assert(place_fits(u[i], s[i]));
        lemma_placed_where(u, s, i);
        assert(u[i].can(s[i]) && !placed(u, s[i]));
    }
    let r = single_position_unit(u);
    assert forall|i: int| 0 <= i < 9 implies place_fits(#[trigger] r[i], s[i]) by {
        lemma_narrowed_fits(u, s, i);
        lemma_top_claim(u, i, 10);
        let t = top_claim_below(u, i, 10);
        if t != 0 {
            assert(stands(s, t));
            let j = choose|j: int| 0 <= j < 9 && s[j] == t;
            lemma_narrowed_fits(u, s, j);
            lemma_placed_where(u, s, j);
            if u[j].value.is_some() {
                // the digit is confirmed at j, so no place offers it
                assert(placed(u, t));
                assert(!free_flags(u, i)[t]);
                assert(false);
            }
            lemma_one_offer(u, t, 9, i, j);
        }
    }
}

/// How many of the first `n` places of `u` match `pat` and hold, in `s`, a digit below `m`.
pub open spec fn matched_below(u: Seq<BoxView>, s: Seq<int>, pat: u16, m: int, n: int) -> int
    decreases n,
{
    if n <= 0 {
        0
    } else {
        matched_below(u, s, pat, m, n - 1) + flag(is_match(u[n - 1], pat) && s[n - 1] < m)
    }
}

/// Whether one of the first `n` places of `u` matches `pat` and holds the digit `d` in `s`.
pub open spec fn matched_at(u: Seq<BoxView>, s: Seq<int>, pat: u16, d: int, n: int) -> bool {
    exists|i: int| 0 <= i < n && is_match(#[trigger] u[i], pat) && s[i] == d
}

/// Counting the places that hold a digit up to `m` adds at most the one place that holds `m`.
proof fn lemma_matched_step(u: Seq<BoxView>, s: Seq<int>, pat: u16, m: int, n: int)
    requires
        is_perm(s),
        u.len() == 9,
        0 <= n <= 9,
    ensures
        matched_below(u, s, pat, m + 1, n) == matched_below(u, s, pat, m, n) + flag(
            matched_at(u, s, pat, m, n),
        ),
    decreases n,
{
    if n > 0 {
        lemma_matched_step(u, s, pat, m, n - 1);
        if is_match(u[n - 1], pat) && s[n - 1] == m {
            assert(matched_at(u, s, pat, m, n));
            if matched_at(u, s, pat, m, n - 1) {
                let i = choose|i: int| 0 <= i < n - 1 && is_match(#[trigger] u[i], pat) && s[i] == m;
                assert(s[i] != s[n - 1]);
            }
        } else {
            if matched_at(u, s, pat, m, n) {
                let i = choose|i: int| 0 <= i < n && is_match(#[trigger] u[i], pat) && s[i] == m;
                assert(i < n - 1);
                assert(matched_at(u, s, pat, m, n - 1));
            }
            if matched_at(u, s, pat, m, n - 1) {
                let i = choose|i: int| 0 <= i < n - 1 && is_match(#[trigger] u[i], pat) && s[i] == m;
                assert(is_match(u[i], pat) && s[i] == m);
            }
        }
    }
}

/// No place holds a digit below 1, and every matching place holds a digit below 10.
proof fn lemma_matched_ends(u: Seq<BoxView>, s: Seq<int>, pat: u16, n: int)
    requires
        is_perm(s),
        u.len() == 9,
        0 <= n <= 9,
    ensures
        matched_below(u, s, pat, 1, n) == 0,
        matched_below(u, s, pat, 10, n) == match_count(u, pat, n),
    decreases n,
{
    if n > 0 {
        lemma_matched_ends(u, s, pat, n - 1);
    }
}

/// The count of bits below `n` does not fall as `n` grows.
proof fn lemma_bits_below_grows(mask: u16, m: int, n: int)
    requires
        m <= n,
    ensures
        bits_below(mask, m) <= bits_below(mask, n),
    decreases n - m,
{
    if m < n {
        lemma_bits_below_grows(mask, m, n - 1);
    }
}

/// No more places match a pattern than the pattern has digits; and where a
/// digit of the pattern stands at no matching place, fewer do.
proof fn lemma_matched_bound(u: Seq<BoxView>, s: Seq<int>, pat: u16, m: int, gap: int)
    requires
        fits(u, s),
        1 <= m <= 10,
    ensures
        matched_below(u, s, pat, m, 9) <= bits_below(pat, m),
        1 <= gap < m && has_bit(pat, gap) && !matched_at(u, s, pat, gap, 9) ==> matched_below(
            u,
            s,
            pat,
            m,
            9,
        ) < bits_below(pat, m),
    decreases m,
{
    if m == 1 {
        lemma_matched_ends(u, s, pat, 9);
        lemma_bits_below_grows(pat, 0, 1);
    } else {
        lemma_matched_bound(u, s, pat, m - 1, gap);
        lemma_matched_step(u, s, pat, m - 1, 9);
        if matched_at(u, s, pat, m - 1, 9) {
            let i = choose|i: int| 0 <= i < 9 && is_match(#[trigger] u[i], pat) && s[i] == m - 1;
            assert(place_fits(u[i], s[i]));
            lemma_bits(u[i]);
            assert(has_bit(u[i].bits(), m - 1) == u[i].can(m - 1));
            assert(has_bit(pat, m - 1));
        }
    }
}

/// What is left of a place when the digits of a pattern are struck from it.
proof fn lemma_struck_flags(v: BoxView, pat: u16)
    ensures
        forall|d: int|
            0 <= d < 10 ==> #[trigger] mask_flags(v.bits() & !pat)[d] == (v.can(d) && !has_bit(
                pat,
                d,
            )),
{
    lemma_bits(v);
    assert forall|d: int| 0 <= d < 10 implies #[trigger] mask_flags(v.bits() & !pat)[d] == (v.can(
        d,
    ) && !has_bit(pat, d)) by {
        lemma_bit_and(v.bits(), !pat, d);
        lemma_bit_not(pat, d);
        assert(has_bit(v.bits(), d) == v.can(d));
    }
}

/// A unit in which nine different digits can stand can be searched for a
/// naked set of the `k` digits of any pattern, and the digits can still
/// stand in it afterwards.
pub proof fn lemma_strike_sound(u: Seq<BoxView>, s: Seq<int>, pat: u16, k: int)
    requires
        fits(u, s),
        bit_count(pat) == k,
    ensures
        can_strike(u, pat, k),
        fits(naked_step(u, pat, k), s),
{
    lemma_matched_ends(u, s, pat, 9);
    lemma_matched_bound(u, s, pat, 10, 0);
    lemma_bits_below_grows(pat, 10, 16);
    let matches = match_count(u, pat, 9);
    assert(matches <= k);
    if matches == k {
        let r = naked_step(u, pat, k);
        assert forall|i: int| 0 <= i < 9 implies (!is_match(#[trigger] u[i], pat) ==> u[i].bits()
            & !pat != 0) && place_fits(r[i], s[i]) by {
            assert(place_fits(u[i], s[i]));
            if !is_match(u[i], pat) {
                let d = s[i];
                if has_bit(pat, d) {
                    if matched_at(u, s, pat, d, 9) {
                        let j = choose|j: int|
                            0 <= j < 9 && is_match(#[trigger] u[j], pat) && s[j] == d;
                        if i < j {
                            assert(s[i] != s[j]);
                        } else if j < i {
                            assert(s[j] != s[i]);
                        }
                    }
                    lemma_matched_bound(u, s, pat, 10, d);
                    assert(false);
                }
                lemma_struck_flags(u[i], pat);
                let q = mask_flags(u[i].bits() & !pat);
                assert(q[d]);
                assert(!q[0]);
                lemma_bits(u[i]);
                lemma_bit_and(u[i].bits(), !pat, d);
                lemma_bit_not(pat, d);
                lemma_bit_zero(d);
                assert(u[i].bits() & !pat != 0);
                if u[i].value.is_some() {
                    assert(q =~= crate::sk_box::only(d));
                }
            }
        }
    }
}

/// A unit in which nine different digits can stand can be searched for the
/// first `n` of the patterns, if each has `k` digits, and the digits can
/// still stand in it afterwards.
pub proof fn lemma_run_sound(u: Seq<BoxView>, s: Seq<int>, pats: Seq<u16>, k: int, n: int)
    requires
        fits(u, s),
        0 <= n <= pats.len(),
        forall|m: int| 0 <= m < n ==> bit_count(#[trigger] pats[m]) == k,
    ensures
        can_run(u, pats, k, n),
        fits(naked_run(u, pats, k, n), s),
    decreases n,
{
    if n > 0 {
        lemma_run_sound(u, s, pats, k, n - 1);
        lemma_strike_sound(naked_run(u, pats, k, n - 1), s, pats[n - 1], k);
        assert forall|m: int| 0 <= m < n implies can_strike(
            #[trigger] naked_run(u, pats, k, m),
            pats[m],
            k,
        ) by {
            if m < n - 1 {
                assert(can_run(u, pats, k, n - 1));
            }
        }
    }
}

/// A unit in which nine different digits can stand can be searched for
/// naked sets of the sizes 2 to `k`, and the digits can still stand in it afterwards.
pub proof fn lemma_upto_sound(u: Seq<BoxView>, s: Seq<int>, k: int)
    requires
        fits(u, s),
        k <= 9,
    ensures
        can_search_upto(u, k),
        fits(naked_upto(u, k), s),
    decreases k,
{
    if k >= 2 {
        lemma_upto_sound(u, s, k - 1);
        let pats = patterns(k);
        assert(is_pool(digits()));
        assert forall|m: int| 0 <= m < pats.len() implies bit_count(#[trigger] pats[m]) == k by {
            lemma_combinations_members(digits(), k as nat, m);
        }
        lemma_run_sound(naked_upto(u, k - 1), s, pats, k, pats.len() as int);
    }
}

/// Naked sets can pass over a unit in which nine different digits can
/// stand, and they can still stand in it afterwards.
pub proof fn lemma_naked_sound(u: Seq<BoxView>, s: Seq<int>)
    requires
        fits(u, s),
    ensures
        can_naked_set(u),
        fits(naked_set_unit(u), s),
{
    lemma_upto_sound(u, s, 5);
}

/// The digits that a solution puts at the nine places of unit `n`.
pub open spec fn unit_digits(sol: Seq<Seq<int>>, n: int) -> Seq<int> {
    Seq::new(9, |k: int| sol[unit_cell(n, k)][unit_box(n, k)])
}

/// Whether `sol` is a solved grid: nine blocks of nine digits, in which
/// every block, row and column holds the digits 1 to 9, each once.
pub open spec fn is_solution(sol: Seq<Seq<int>>) -> bool {
    &&& sol.len() == 9
    &&& forall|c: int| 0 <= c < 9 ==> (#[trigger] sol[c]).len() == 9
    &&& forall|n: int| 0 <= n < 27 ==> is_perm(#[trigger] unit_digits(sol, n))
}

/// Whether `sol` is a solution of the grid `g`: a solved grid that puts at
/// each place a digit that can stand there.
pub open spec fn admits(g: Seq<Seq<BoxView>>, sol: Seq<Seq<int>>) -> bool {
    &&& is_grid(g)
    &&& is_solution(sol)
    &&& forall|c: int, b: int|
        0 <= c < 9 && 0 <= b < 9 ==> place_fits(#[trigger] g[c][b], sol[c][b])
}

/// In each unit of a grid the digits of a solution can stand.
pub proof fn lemma_admits_unit(g: Seq<Seq<BoxView>>, sol: Seq<Seq<int>>, n: int)
    requires
        admits(g, sol),
        0 <= n < 27,
    ensures
        fits(unit_of(g, n), unit_digits(sol, n)),
{
    let u = unit_of(g, n);
    let s = unit_digits(sol, n);
    assert forall|k: int| 0 <= k < 9 implies place_fits(#[trigger] u[k], s[k]) by {
        lemma_unit_places(n, k);
        assert(place_fits(g[unit_cell(n, k)][unit_box(n, k)], sol[unit_cell(n, k)][unit_box(n, k)]));
    }
}

/// A grid that has a solution is coherent.
pub proof fn lemma_admits_ok(g: Seq<Seq<BoxView>>, sol: Seq<Seq<int>>)
    requires
        admits(g, sol),
    ensures
        grid_ok(g),
{
    assert forall|n: int| 0 <= n < 27 implies unit_ok(#[trigger] unit_of(g, n), false) by {
        lemma_admits_unit(g, sol, n);
        lemma_fits_ok(unit_of(g, n), unit_digits(sol, n));
    }
}

/// Where a unit is replaced by one in which the digits of the solution can
/// still stand, the solution is still one of the grid.
pub proof fn lemma_admits_with_unit(
    g: Seq<Seq<BoxView>>,
    sol: Seq<Seq<int>>,
    n: int,
    u: Seq<BoxView>,
)
    requires
        admits(g, sol),
        0 <= n < 27,
        fits(u, unit_digits(sol, n)),
    ensures
        admits(with_unit(g, n, u), sol),
{
    let h = with_unit(g, n, u);
    assert forall|c: int, b: int| 0 <= c < 9 && 0 <= b < 9 implies place_fits(
        #[trigger] h[c][b],
        sol[c][b],
    ) by {
        if in_unit(n, c, b) {
            lemma_place_of_unit(n, c, b);
            let k = place_in_unit(n, c, b);
            assert(place_fits(u[k], unit_digits(sol, n)[k]));
        } else {
            assert(place_fits(g[c][b], sol[c][b]));
        }
    }
}

/// Single position can pass over the first `n` units of a grid that has a
/// solution, and the solution is still one of the grid afterwards.
pub proof fn lemma_single_pass_sound(g: Seq<Seq<BoxView>>, sol: Seq<Seq<int>>, n: int)
    requires
        admits(g, sol),
        0 <= n <= 27,
    ensures
        can_single_pass(g, n),
        admits(single_pass(g, n), sol),
    decreases n,
{
    if n > 0 {
        lemma_single_pass_sound(g, sol, n - 1);
        let h = single_pass(g, n - 1);
        lemma_admits_unit(h, sol, n - 1);
        lemma_single_sound(unit_of(h, n - 1), unit_digits(sol, n - 1));
        lemma_admits_with_unit(h, sol, n - 1, single_position_unit(unit_of(h, n - 1)));
        assert forall|m: int| 0 <= m < n implies can_narrow(
            #[trigger] unit_of(single_pass(g, m), m),
        ) by {
            if m < n - 1 {
                assert(can_single_pass(g, n - 1));
            }
        }
    }
}

/// Naked sets can pass over the first `n` units of a grid that has a
/// solution, and the solution is still one of the grid afterwards.
pub proof fn lemma_naked_pass_sound(g: Seq<Seq<BoxView>>, sol: Seq<Seq<int>>, n: int)
    requires
        admits(g, sol),
        0 <= n <= 27,
    ensures
        can_naked_pass(g, n),
        admits(naked_pass(g, n), sol),
    decreases n,
{
    if n > 0 {
        lemma_naked_pass_sound(g, sol, n - 1);
        let h = naked_pass(g, n - 1);
        lemma_admits_unit(h, sol, n - 1);
        lemma_naked_sound(unit_of(h, n - 1), unit_digits(sol, n - 1));
        lemma_admits_with_unit(h, sol, n - 1, naked_set_unit(unit_of(h, n - 1)));
        assert forall|m: int| 0 <= m < n implies can_naked_set(
            #[trigger] unit_of(naked_pass(g, m), m),
        ) by {
            if m < n - 1 {
                assert(can_naked_pass(g, n - 1));
            }
        }
    }
}

/// No candidate line of a block strikes, in another block, the digit that
/// a solution puts there.
pub proof fn lemma_line_spares(
    g: Seq<Seq<BoxView>>,
    sol: Seq<Seq<int>>,
    c: int,
    c2: int,
    k2: int,
    l: int,
)
    requires
        admits(g, sol),
        0 <= c < 9,
        0 <= c2 < 9,
        0 <= k2 < 9,
        0 <= l < 6,
    ensures
        !line_hit(g, c, c2, k2, sol[c2][k2], l),
{
    let e = sol[c2][k2];
    if line_hit(g, c, c2, k2, e, l) {
        assert(place_fits(g[c2][k2], e));
        // where the digit stands in the block that holds the line
        let block = unit_digits(sol, c);
        assert(is_perm(block));
        assert(stands(block, e));
        let k = choose|k: int| 0 <= k < 9 && block[k] == e;
        assert(sol[c][k] == e);
        assert(place_fits(g[c][k], sol[c][k]));
        assert(on_line(k, l));
        // the row or column of the grid that runs along the line
        let n = if l < 3 {
            9 + (c / 3) * 3 + l
        } else {
            18 + (c % 3) * 3 + (l - 3)
        };
        assert(in_unit(n, c, k));
        assert(in_unit(n, c2, k2));
        lemma_place_of_unit(n, c, k);
        lemma_place_of_unit(n, c2, k2);
        let here = place_in_unit(n, c, k);
        let there = place_in_unit(n, c2, k2);
        let along = unit_digits(sol, n);
        assert(is_perm(along));
        assert(along[here] == e);
        assert(along[there] == e);
        assert(here != there);
        if here < there {
            assert(along[here] != along[there]);
        } else {
            assert(along[there] != along[here]);
        }
    }
}

/// The candidate lines of one block can be followed in a grid that has a
/// solution, and the solution is still one of the grid afterwards.
pub proof fn lemma_line_step_sound(g: Seq<Seq<BoxView>>, sol: Seq<Seq<int>>, c: int)
    requires
        admits(g, sol),
        0 <= c < 9,
    ensures
        admits(line_step(g, c), sol),
{
    let h = line_step(g, c);
    assert forall|c2: int, k2: int| 0 <= c2 < 9 && 0 <= k2 < 9 implies place_fits(
        #[trigger] h[c2][k2],
        sol[c2][k2],
    ) by {
        let e = sol[c2][k2];
        let v = g[c2][k2];
        assert(place_fits(v, e));
        assert(!hit_before(g, c, c2, k2, e, 10, 0)) by {
            if hit_below(g, c, c2, k2, e, 6) {
                let l = choose|l: int| 0 <= l < 6 && line_hit(g, c, c2, k2, e, l);
                lemma_line_spares(g, sol, c, c2, k2, l);
            }
        }
        assert(h[c2][k2].poss[e]);
        if v.value.is_some() {
            assert(h[c2][k2].poss =~= crate::sk_box::only(e));
        }
    }
}

/// Candidate lines can pass over the first `n` blocks of a grid that has a
/// solution, and the solution is still one of the grid afterwards.
pub proof fn lemma_line_pass_sound(g: Seq<Seq<BoxView>>, sol: Seq<Seq<int>>, n: int)
    requires
        admits(g, sol),
        0 <= n <= 9,
    ensures
        admits(line_pass(g, n), sol),
    decreases n,
{
    if n > 0 {
        lemma_line_pass_sound(g, sol, n - 1);
        lemma_line_step_sound(line_pass(g, n - 1), sol, n - 1);
    }
}

/// One round can be made on a grid that has a solution; the grid is
/// coherent after each technique, and the solution is still one of the
/// grid at the end.
pub proof fn lemma_round_sound(g: Seq<Seq<BoxView>>, sol: Seq<Seq<int>>)
    requires
        admits(g, sol),
    ensures
        can_round(g),
        admits(after_single(g), sol),
        admits(after_naked(g), sol),
        admits(round(g), sol),
{
    lemma_single_pass_sound(g, sol, 27);
    lemma_admits_ok(after_single(g), sol);
    lemma_naked_pass_sound(after_single(g), sol, 27);
    lemma_admits_ok(after_naked(g), sol);
    lemma_line_pass_sound(after_naked(g), sol, 9);
    lemma_admits_ok(round(g), sol);
}

/// After any number of rounds on a grid that has a solution, the solution
/// is still one of the grid.
pub proof fn lemma_rounds_sound(g: Seq<Seq<BoxView>>, sol: Seq<Seq<int>>, n: nat)
    requires
        admits(g, sol),
    ensures
        admits(rounds(g, n), sol),
    decreases n,
{
    if n > 0 {
        lemma_rounds_sound(g, sol, (n - 1) as nat);
        lemma_round_sound(rounds(g, (n - 1) as nat), sol);
    }
}

/// A grid that has a solution can be solved as far as deduction goes:
/// every technique can be applied whenever its turn comes, no unit ever
/// holds a digit twice, and where the loop ends the solution is still one
/// of the grid.
pub proof fn lemma_solvable(g: Seq<Seq<BoxView>>, sol: Seq<Seq<int>>)
    requires
        admits(g, sol),
    ensures
        can_solve(g),
        forall|n: nat| grid_ok(#[trigger] rounds(g, n)),
        forall|h: Seq<Seq<BoxView>>| solves_to(g, h) ==> admits(h, sol),
{
    lemma_admits_ok(g, sol);
    assert forall|n: nat| grid_ok(#[trigger] rounds(g, n)) && can_round(rounds(g, n)) by {
        lemma_rounds_sound(g, sol, n);
        lemma_admits_ok(rounds(g, n), sol);
        lemma_round_sound(rounds(g, n), sol);
    }
    assert forall|h: Seq<Seq<BoxView>>| solves_to(g, h) implies admits(h, sol) by {
        let n = choose|n: nat|
            goes_on(g, n) && h == #[trigger] rounds(g, n) && (crate::grid::grid_solved(h) || round(
                h,
            ) == h);
        lemma_rounds_sound(g, sol, n);
    }
}

/// In a grid that has a solution and in which every place has a confirmed
/// digit, the confirmed digits are the solution.
pub proof fn lemma_solved_is_solution(g: Seq<Seq<BoxView>>, sol: Seq<Seq<int>>)
    requires
        admits(g, sol),
        crate::grid::grid_solved(g),
    ensures
        forall|c: int, b: int|
            0 <= c < 9 && 0 <= b < 9 ==> (#[trigger] g[c][b]).value == Some(sol[c][b] as u8),
{
    assert forall|c: int, b: int| 0 <= c < 9 && 0 <= b < 9 implies (#[trigger] g[c][b]).value
        == Some(sol[c][b] as u8) by {
        assert(place_fits(g[c][b], sol[c][b]));
        assert(crate::sk_cell::all_solved(g[c]));
    }
}

/// A puzzle that deduction solves has one solution only.
pub proof fn lemma_solved_is_unique(
    g: Seq<Seq<BoxView>>,
    h: Seq<Seq<BoxView>>,
    sol: Seq<Seq<int>>,
    other: Seq<Seq<int>>,
)
    requires
        admits(g, sol),
        admits(g, other),
        solves_to(g, h),
        crate::grid::grid_solved(h),
    ensures
        sol == other,
{
    lemma_solvable(g, sol);
    lemma_solvable(g, other);
    lemma_solved_is_solution(h, sol);
    lemma_solved_is_solution(h, other);
    assert forall|c: int| 0 <= c < 9 implies #[trigger] sol[c] == other[c] by {
        assert forall|b: int| 0 <= b < 9 implies sol[c][b] == other[c][b] by {
            assert(h[c][b].value == Some(sol[c][b] as u8));
            assert(h[c][b].value == Some(other[c][b] as u8));
            assert(place_fits(g[c][b], sol[c][b]));
            assert(place_fits(g[c][b], other[c][b]));
        }
        assert(sol[c] =~= other[c]);
    }
    assert(sol =~= other);
}

/// After each technique has passed over a grid that has a solution, no
/// unit of the grid holds a digit twice, and every place keeps its invariant.
pub proof fn lemma_passes_keep_coherent(g: Seq<Seq<BoxView>>, sol: Seq<Seq<int>>)
    requires
        admits(g, sol),
    ensures
        grid_ok(g),
        grid_ok(single_pass(g, 27)),
        grid_ok(naked_pass(g, 27)),
        grid_ok(line_pass(g, 9)),
{
    lemma_admits_ok(g, sol);
    lemma_single_pass_sound(g, sol, 27);
    lemma_admits_ok(single_pass(g, 27), sol);
    lemma_naked_pass_sound(g, sol, 27);
    lemma_admits_ok(naked_pass(g, 27), sol);
    lemma_line_pass_sound(g, sol, 9);
    lemma_admits_ok(line_pass(g, 9), sol);
}

/// A text of 81 places, of which each digit is the digit of a solved grid
/// at the same place, gives a grid of which that solved grid is a
/// solution, also once the confirmed digits are struck within each block.
pub proof fn lemma_text_admits(text: Seq<char>, sol: Seq<Seq<int>>)
    requires
        is_grid_text(text),
        is_solution(sol),
        forall|c: int, b: int|
            0 <= c < 9 && 0 <= b < 9 && text[text_index(c, b)] != '.' ==> text[text_index(c, b)]
                as int - 48 == #[trigger] sol[c][b],
    ensures
        admits(text_grid(text), sol),
        admits(single_pass(text_grid(text), 9), sol),
        can_solve(single_pass(text_grid(text), 9)),
{
    let g = text_grid(text);
    assert forall|c: int, b: int| 0 <= c < 9 && 0 <= b < 9 implies place_fits(
        #[trigger] g[c][b],
        sol[c][b],
    ) by {
        crate::text::lemma_text_place(c, b);
        let ch = text[text_index(c, b)];
        assert(g[c][b] == char_view(ch));
        // the digit of the solution at this place lies in 1 to 9
        let block = unit_digits(sol, c);
        assert(is_perm(block));
        assert(block[b] == sol[c][b]);
        if ch != '.' {
            assert(g[c][b].poss =~= crate::sk_box::only(sol[c][b]));
        }
    }
    lemma_single_pass_sound(g, sol, 9);
    lemma_solvable(single_pass(g, 9), sol);
}

} // verus!
