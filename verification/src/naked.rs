//! Naked sets, on one unit.
//!
//! Where `k` places of a unit have the same `k` possible digits and no
//! others, those digits go to those places, and are struck from the other
//! places of the unit. Only places whose possible digits are exactly the
//! same set are found: three places with {1,4}, {4,7} and {7,1} are not.
use crate::bits::mask_flags;
use crate::combinations::{combinations, combo};
use crate::sk_box::{Box, BoxView};
use crate::unit::{copy_back, copy_out, ref_views, unit_view};
use vstd::prelude::*;

verus! {

/// Whether the place has no confirmed digit and exactly the digits of `pat` as possible ones.
pub open spec fn is_match(v: BoxView, pat: u16) -> bool {
    v.value.is_none() && v.bits() == pat
}

/// How many of the first `n` places of `u` match `pat`.
pub open spec fn match_count(u: Seq<BoxView>, pat: u16, n: int) -> int
    decreases n,
{
    if n <= 0 {
        0
    } else if is_match(u[n - 1], pat) {
        match_count(u, pat, n - 1) + 1
    } else {
        match_count(u, pat, n - 1)
    }
}

/// Whether the unit can be searched for a naked set of the `k` digits of
/// `pat`: no more than `k` places match, and where `k` do, every other place
/// has a possible digit outside `pat`.
pub open spec fn can_strike(u: Seq<BoxView>, pat: u16, k: int) -> bool {
    &&& u.len() == 9
    &&& match_count(u, pat, 9) <= k
    &&& match_count(u, pat, 9) == k ==> forall|i: int|
        0 <= i < 9 && !is_match(#[trigger] u[i], pat) ==> u[i].bits() & !pat != 0
}

/// The place after the digits of `pat` are struck from it, unless it matches `pat`.
pub open spec fn struck(v: BoxView, pat: u16) -> BoxView {
    if is_match(v, pat) {
        v
    } else {
        v.with_flags(mask_flags(v.bits() & !pat))
    }
}

/// The unit after the search for a naked set of the `k` digits of `pat`:
/// where `k` places match, the digits are struck from the others; where
/// fewer do, nothing changes.
pub open spec fn naked_step(u: Seq<BoxView>, pat: u16, k: int) -> Seq<BoxView> {
    if match_count(u, pat, 9) == k {
        Seq::new(9, |i: int| struck(u[i], pat))
    } else {
        u
    }
}

/// The unit after the search for the first `n` of the patterns `pats`, one after the other.
pub open spec fn naked_run(u: Seq<BoxView>, pats: Seq<u16>, k: int, n: int) -> Seq<BoxView>
    decreases n,
{
    if n <= 0 {
        u
    } else {
        naked_step(naked_run(u, pats, k, n - 1), pats[n - 1], k)
    }
}

/// Whether the unit can be searched for the first `n` of the patterns `pats`, one after the other.
pub open spec fn can_run(u: Seq<BoxView>, pats: Seq<u16>, k: int, n: int) -> bool {
    forall|m: int| 0 <= m < n ==> can_strike(#[trigger] naked_run(u, pats, k, m), pats[m], k)
}

/// The digits 1 to 9.
pub open spec fn digits() -> Seq<u16> {
    seq![1u16, 2u16, 3u16, 4u16, 5u16, 6u16, 7u16, 8u16, 9u16]
}

/// The sets of `k` digits, as digit masks, in the order in which they are searched.
pub open spec fn patterns(k: int) -> Seq<u16> {
    combinations(digits(), k as nat)
}

/// The unit after the search for naked sets of the sizes 2 to `k`, in turn.
pub open spec fn naked_upto(u: Seq<BoxView>, k: int) -> Seq<BoxView>
    decreases k,
{
    if k < 2 {
        u
    } else {
        naked_run(naked_upto(u, k - 1), patterns(k), k, patterns(k).len() as int)
    }
}

/// Whether the unit can be searched for naked sets of the sizes 2 to `k`, in turn.
pub open spec fn can_search_upto(u: Seq<BoxView>, k: int) -> bool
    decreases k,
{
    if k < 2 {
        u.len() == 9
    } else {
        can_search_upto(u, k - 1) && can_run(
            naked_upto(u, k - 1),
            patterns(k),
            k,
            patterns(k).len() as int,
        )
    }
}

/// The unit after one pass of naked sets: the search for sets of 2, 3, 4 and 5 digits.
pub open spec fn naked_set_unit(u: Seq<BoxView>) -> Seq<BoxView> {
    naked_upto(u, 5)
}

/// Whether one pass of naked sets can be made over the unit: at no step do
/// more places match a set than it has digits, and no place is left without
/// a possible digit.
pub open spec fn can_naked_set(u: Seq<BoxView>) -> bool {
    can_search_upto(u, 5)
}

/// Whether the place matches `pattern`.
fn box_matches(sk_box: &Box, pattern: u16) -> (result: bool)
    ensures
        result == is_match(sk_box@, pattern),
{
    !sk_box.solved() && sk_box.get_possibles_bits() == pattern
}

/// How many places of the unit match `pattern`.
fn count_matches(boxes: &[Box; 9], pattern: u16) -> (matches: u16)
    ensures
        matches == match_count(unit_view(*boxes), pattern, 9),
{
    let mut matches: u16 = 0;
    let mut i: usize = 0;
    while i < 9
        invariant
            0 <= i <= 9,
            0 <= matches <= i,
            matches == match_count(unit_view(*boxes), pattern, i as int),
        decreases 9 - i,
    {
        assert(unit_view(*boxes)[i as int] == boxes[i as int]@);
        if box_matches(&boxes[i], pattern) {
            matches += 1;
        }
        i += 1;
    }
    matches
}

/// Whether the unit can be searched for a naked set of the `factors` digits of `pattern`.
fn can_strike_pattern(boxes: &[Box; 9], pattern: u16, factors: u16) -> (result: bool)
    ensures
        result == can_strike(unit_view(*boxes), pattern, factors as int),
{
    let ghost u = unit_view(*boxes);
    let matches = count_matches(boxes, pattern);
    if matches > factors {
        return false;
    }
    if matches == factors {
        let mut i: usize = 0;
        while i < 9
            invariant
                0 <= i <= 9,
                u == unit_view(*boxes),
                match_count(u, pattern, 9) == factors,
                forall|j: int|
                    0 <= j < i && !is_match(#[trigger] u[j], pattern) ==> u[j].bits() & !pattern
                        != 0,
            decreases 9 - i,
        {
            assert(u[i as int] == boxes[i as int]@);
            if !box_matches(&boxes[i], pattern) && boxes[i].get_possibles_bits() & !pattern == 0 {
                return false;
            }
            i += 1;
        }
    }
    true
}

/// Searches the unit for a naked set of the `factors` digits of `pattern`.
fn strike_pattern(boxes: &mut [Box; 9], pattern: u16, factors: u16)
    requires
        can_strike(unit_view(*old(boxes)), pattern, factors as int),
    ensures
        unit_view(*final(boxes)) == naked_step(unit_view(*old(boxes)), pattern, factors as int),
{
    let ghost u = unit_view(*boxes);
    let matches = count_matches(boxes, pattern);
    if matches == factors {
        let mut i: usize = 0;
        while i < 9
            invariant
                0 <= i <= 9,
                can_strike(u, pattern, factors as int),
                match_count(u, pattern, 9) == factors,
                forall|j: int| 0 <= j < i ==> (#[trigger] boxes[j])@ == struck(u[j], pattern),
                forall|j: int| i <= j < 9 ==> (#[trigger] boxes[j])@ == u[j],
            decreases 9 - i,
        {
            if !box_matches(&boxes[i], pattern) {
                boxes[i].remove_impossible_bits(pattern);
            }
            i += 1;
        }
        assert(unit_view(*boxes) =~= naked_step(u, pattern, factors as int));
    }
}

/// One pass of naked sets over the unit. With `checked`, each step is tested
/// before it is made, and the pass stops, with the unit as it was, at the
/// first step that cannot be made.
fn naked_set_pass(boxes: &mut [Box; 9], checked: bool) -> (ok: bool)
    requires
        !checked ==> can_naked_set(unit_view(*old(boxes))),
    ensures
        ok == can_naked_set(unit_view(*old(boxes))),
        ok ==> unit_view(*final(boxes)) == naked_set_unit(unit_view(*old(boxes))),
        !ok ==> *final(boxes) == *old(boxes),
{
    let ghost u = unit_view(*boxes);
    let mut work: [Box; 9] = *boxes;
    let pool: [u16; 9] = [1, 2, 3, 4, 5, 6, 7, 8, 9];
    assert(pool@ =~= digits());
    let mut factors: u16 = 2;
    while factors <= 5
        invariant
            2 <= factors <= 6,
            pool@ == digits(),
            *boxes == *old(boxes),
            u == unit_view(*old(boxes)),
            !checked ==> can_naked_set(u),
            can_search_upto(u, factors - 1),
            unit_view(work) == naked_upto(u, factors - 1),
        decreases 6 - factors,
    {
        let bit_patterns = combo(pool.as_slice(), factors);
        let ghost base = unit_view(work);
        let ghost pats = patterns(factors as int);
        proof {
            lemma_can_search_below(u, factors as int);
        }
        let mut p: usize = 0;
        while p < bit_patterns.len()
            invariant
                0 <= p <= bit_patterns.len(),
                2 <= factors <= 5,
                bit_patterns@ == pats,
                pats == patterns(factors as int),
                base == naked_upto(u, factors - 1),
                *boxes == *old(boxes),
                u == unit_view(*old(boxes)),
                !checked ==> can_run(base, pats, factors as int, pats.len() as int),
                can_search_upto(u, factors - 1),
                can_run(base, pats, factors as int, p as int),
                unit_view(work) == naked_run(base, pats, factors as int, p as int),
            decreases bit_patterns.len() - p,
        {
            if checked && !can_strike_pattern(&work, bit_patterns[p], factors) {
                proof {
                    lemma_can_search_below(u, factors as int);
                }
                return false;
            }
            strike_pattern(&mut work, bit_patterns[p], factors);
            p += 1;
        }
        factors += 1;
    }
    *boxes = work;
    true
}

/// What can be searched for the sizes 2 to 5 can be searched for the sizes 2 to `k`.
proof fn lemma_can_search_below(u: Seq<BoxView>, k: int)
    requires
        2 <= k <= 5,
    ensures
        can_search_upto(u, 5) ==> can_search_upto(u, k),
{
    reveal_with_fuel(can_search_upto, 5);
}

/// One pass of naked sets over a unit: for each set of 2, 3, 4 and 5 digits
/// in turn, where as many places as the set has digits have exactly these as
/// their possible digits, the digits are struck from the other places.
pub fn naked_set_boxes(boxes: &mut [Box; 9])
    requires
        can_naked_set(unit_view(*old(boxes))),
    ensures
        unit_view(*final(boxes)) == naked_set_unit(unit_view(*old(boxes))),
{
    naked_set_pass(boxes, false);
}

/// One pass of naked sets over a unit, where it can be made; where it
/// cannot, the unit stays as it was and the result is `false`.
pub fn try_naked_set_boxes(boxes: &mut [Box; 9]) -> (ok: bool)
    ensures
        ok == can_naked_set(unit_view(*old(boxes))),
        ok ==> unit_view(*final(boxes)) == naked_set_unit(unit_view(*old(boxes))),
        !ok ==> *final(boxes) == *old(boxes),
{
    naked_set_pass(boxes, true)
}

/// Whether one pass of naked sets can be made over the unit.
pub fn can_naked_set_boxes(boxes: &[Box; 9]) -> (result: bool)
    ensures
        result == can_naked_set(unit_view(*boxes)),
{
    let mut work = *boxes;
    naked_set_pass(&mut work, true)
}

/// One pass of naked sets over a unit, through the references to its nine
/// places: for each set of 2, 3, 4 and 5 digits in turn, where as many
/// places as the set has digits have exactly these as their possible
/// digits, the digits are struck from the other places.
pub fn naked_set_array(boxes: Vec<&mut Box>)
    requires
        boxes.len() == 9,
        can_naked_set(ref_views(boxes@)),
    ensures
        forall|i: int| 0 <= i < 9 ==> final(boxes@[i])@ == naked_set_unit(ref_views(boxes@))[i],
{
    let mut unit = copy_out(&boxes);
    naked_set_boxes(&mut unit);
    proof {
        assert forall|i: int| 0 <= i < 9 implies unit[i]@ == naked_set_unit(ref_views(boxes@))[i] by {
            assert(unit_view(unit)[i] == unit[i]@);
        }
    }
    copy_back(boxes, &unit);
}

} // verus!
