//! Single position and single candidate, on one unit.
//!
//! A digit that is confirmed at one place of a unit is possible at no other.
//! A place left with one possible digit is confirmed as that digit, and so is
//! the one place of the unit that still offers a digit.
use crate::bits::{
    has_bit, lemma_bit_and, lemma_bit_not, lemma_bit_possible, lemma_bit_single, lemma_bit_zero,
    lemma_nonzero_has_bit, mask_flags, POSSIBLE_BIT_MASK,
};
use crate::constants::ON;
use crate::sk_box::{lemma_bits, Box, BoxView};
use crate::unit::{copy_back, copy_out, placed, placed_below, ref_views, unit_view};
use vstd::prelude::*;

verus! {

/// The digits that place `i` of `u` keeps when those confirmed in the unit are struck.
pub open spec fn free_flags(u: Seq<BoxView>, i: int) -> Seq<bool> {
    Seq::new(10, |d: int| u[i].can(d) && !placed(u, d))
}

/// Place `i` of `u` after the digits confirmed in the unit are struck from
/// it. A confirmed place stays as it is.
pub open spec fn narrowed(u: Seq<BoxView>, i: int) -> BoxView {
    if u[i].value.is_none() {
        u[i].with_flags(free_flags(u, i))
    } else {
        u[i]
    }
}

/// Whether the digits confirmed in `u` can be struck from its other places:
/// the confirmed digits fit a mask, and every place without a confirmed
/// digit keeps a possible one.
pub open spec fn can_narrow(u: Seq<BoxView>) -> bool {
    &&& u.len() == 9
    &&& forall|i: int| 0 <= i < 9 ==> ((#[trigger] u[i]).value matches Some(v) ==> v < 16)
    &&& forall|i: int|
        0 <= i < 9 && (#[trigger] u[i]).value.is_none() ==> exists|d: int|
            u[i].can(d) && !placed(u, d)
}

/// Whether place `i` of `u`, which had no confirmed digit, offers the digit
/// `d` once the confirmed digits are struck.
pub open spec fn offers(u: Seq<BoxView>, i: int, d: int) -> bool {
    u[i].value.is_none() && narrowed(u, i).can(d)
}

/// How many of the first `n` places of `u` offer the digit `d`.
pub open spec fn offer_count(u: Seq<BoxView>, d: int, n: int) -> int
    decreases n,
{
    if n <= 0 {
        0
    } else if offers(u, n - 1, d) {
        offer_count(u, d, n - 1) + 1
    } else {
        offer_count(u, d, n - 1)
    }
}

/// Whether place `i` is the one place of `u` that offers the digit `d`.
pub open spec fn claims(u: Seq<BoxView>, i: int, d: int) -> bool {
    offers(u, i, d) && offer_count(u, d, 9) == 1
}

/// The highest digit below `n` that place `i` of `u` claims, or 0 if it claims none.
pub open spec fn top_claim_below(u: Seq<BoxView>, i: int, n: int) -> int
    decreases n,
{
    if n <= 1 {
        0
    } else if claims(u, i, n - 1) {
        n - 1
    } else {
        top_claim_below(u, i, n - 1)
    }
}

/// Place `i` of `u` after the claims on the digits below `n` are granted.
pub open spec fn granted_below(u: Seq<BoxView>, i: int, n: int) -> BoxView {
    if top_claim_below(u, i, n) != 0 {
        BoxView::solved_as(top_claim_below(u, i, n) as u8)
    } else {
        narrowed(u, i)
    }
}

/// The unit after the digits confirmed in it are struck from its other places.
pub open spec fn narrowed_unit(u: Seq<BoxView>) -> Seq<BoxView> {
    Seq::new(9, |i: int| narrowed(u, i))
}

/// The unit after one pass of single position: the confirmed digits are
/// struck from the other places, and each place that alone offers a digit is
/// confirmed as that digit (as the highest, should it alone offer several).
pub open spec fn single_position_unit(u: Seq<BoxView>) -> Seq<BoxView> {
    Seq::new(9, |i: int| granted_below(u, i, 10))
}

/// An offer among the first `n` places is counted.
pub proof fn lemma_offer_counted(u: Seq<BoxView>, d: int, n: int, i: int)
    requires
        0 <= i < n,
        offers(u, i, d),
    ensures
        offer_count(u, d, n) >= 1,
        offer_count(u, d, i) >= 0,
        offer_count(u, d, n) >= offer_count(u, d, i) + 1,
    decreases n,
{
    lemma_offer_count_grows(u, d, i, n);
    if i < n - 1 {
        lemma_offer_counted(u, d, n - 1, i);
    } else {
        lemma_offer_count_grows(u, d, 0, i);
    }
}

/// The count of offers does not fall as more places are counted.
pub proof fn lemma_offer_count_grows(u: Seq<BoxView>, d: int, m: int, n: int)
    requires
        m <= n,
    ensures
        offer_count(u, d, m) <= offer_count(u, d, n),
        0 <= offer_count(u, d, m),
    decreases n - m, m,
{
    if m < n {
        lemma_offer_count_grows(u, d, m, n - 1);
    } else if m > 0 {
        lemma_offer_count_grows(u, d, m - 1, m - 1);
    }
}

/// Where one place in all offers a digit, two places that offer it are the same place.
pub proof fn lemma_one_offer(u: Seq<BoxView>, d: int, n: int, i: int, j: int)
    requires
        0 <= i < n,
        0 <= j < n,
        offers(u, i, d),
        offers(u, j, d),
        offer_count(u, d, n) == 1,
    ensures
        i == j,
{
    if i < j {
        lemma_offer_counted(u, d, j, i);
        lemma_offer_counted(u, d, n, j);
    } else if j < i {
        lemma_offer_counted(u, d, i, j);
        lemma_offer_counted(u, d, n, i);
    }
}

/// The mask of the digits 1 to 9 that are not confirmed at any place of the unit.
fn free_digits(boxes: &[Box; 9]) -> (poss_vals: u16)
    requires
        forall|i: int| 0 <= i < 9 ==> ((#[trigger] boxes[i]).value matches Some(v) ==> v < 16),
    ensures
        forall|d: int| has_bit(poss_vals, d) == (1 <= d <= 9 && !placed(unit_view(*boxes), d)),
{
    let mut poss_vals: u16 = POSSIBLE_BIT_MASK;
    let ghost u = unit_view(*boxes);
    proof {
        assert forall|d: int| has_bit(poss_vals, d) == (1 <= d <= 9 && !placed_below(u, d, 0)) by {
            lemma_bit_possible(d);
        }
    }
    let mut x: usize = 0;
    while x < 9
        invariant
            0 <= x <= 9,
            u == unit_view(*boxes),
            forall|i: int| 0 <= i < 9 ==> ((#[trigger] boxes[i]).value matches Some(v) ==> v < 16),
            forall|d: int|
                has_bit(poss_vals, d) == (1 <= d <= 9 && !placed_below(u, d, x as int)),
        decreases 9 - x,
    {
        let ghost before = poss_vals;
        assert(u[x as int] == boxes[x as int]@);
        match boxes[x].value {
            Some(confirmed_value) => {
                poss_vals &= !(ON << confirmed_value);
                proof {
                    assert forall|d: int|
                        has_bit(poss_vals, d) == (1 <= d <= 9 && !placed_below(
                            u,
                            d,
                            x as int + 1,
                        )) by {
                        lemma_bit_and(before, !(1u16 << confirmed_value), d);
                        lemma_bit_single(confirmed_value as u16, d);
                        if 0 <= d < 16 {
                            lemma_bit_not(1u16 << confirmed_value, d);
                        }
                        if 1 <= d <= 9 {
                            if d == confirmed_value {
                                assert(u[x as int].value == Some(d as u8));
                            } else if placed_below(u, d, x as int + 1) {
                                let j = choose|j: int|
                                    0 <= j < x + 1 && (#[trigger] u[j]).value == Some(d as u8);
                                assert(j < x);
                            }
                        }
                    }
                }
            },
            None => {
                proof {
                    assert forall|d: int|
                        placed_below(u, d, x as int + 1) implies placed_below(u, d, x as int) by {
                        let j = choose|j: int|
                            0 <= j < x + 1 && (#[trigger] u[j]).value == Some(d as u8);
                        assert(j < x);
                    }
                }
            },
        }
        x += 1;
    }
    poss_vals
}

/// Strikes the digits outside `poss_vals` from place `cur_idx`, which has no confirmed digit.
fn narrow_place(boxes: &mut [Box; 9], cur_idx: usize, poss_vals: u16, Ghost(u): Ghost<Seq<BoxView>>)
    requires
        cur_idx < 9,
        can_narrow(u),
        u[cur_idx as int] == old(boxes)[cur_idx as int]@,
        u[cur_idx as int].value.is_none(),
        forall|d: int| has_bit(poss_vals, d) == (1 <= d <= 9 && !placed(u, d)),
    ensures
        final(boxes)[cur_idx as int]@ == narrowed(u, cur_idx as int),
        forall|i: int| 0 <= i < 9 && i != cur_idx ==> final(boxes)[i] == old(boxes)[i],
{
    let ghost here = boxes[cur_idx as int]@;
    proof {
        lemma_bits(here);
        let d = choose|d: int| here.can(d) && !placed(u, d);
        lemma_bit_and(here.bits(), poss_vals, d);
        lemma_bit_zero(d);
        assert(mask_flags(here.bits() & poss_vals) =~= free_flags(u, cur_idx as int)) by {
            assert forall|e: int| 0 <= e < 10 implies has_bit(here.bits() & poss_vals, e) == (
            here.can(e) && !placed(u, e)) by {
                lemma_bit_and(here.bits(), poss_vals, e);
            }
        }
    }
    boxes[cur_idx].remove_possible_bits(poss_vals);
}

/// Strikes the digits confirmed in the unit from its other places. A place
/// left with one possible digit is confirmed as that digit.
pub fn single_candidate_boxes(boxes: &mut [Box; 9])
    requires
        can_narrow(unit_view(*old(boxes))),
    ensures
        unit_view(*final(boxes)) == narrowed_unit(unit_view(*old(boxes))),
{
    let ghost u = unit_view(*boxes);
    assert forall|i: int| 0 <= i < 9 implies ((#[trigger] boxes[i]).value matches Some(v) ==> v
        < 16) by {
        assert(u[i] == boxes[i]@);
    }
    let poss_vals = free_digits(boxes);
    let mut cur_idx: usize = 0;
    while cur_idx < 9
        invariant
            0 <= cur_idx <= 9,
            can_narrow(u),
            forall|d: int| has_bit(poss_vals, d) == (1 <= d <= 9 && !placed(u, d)),
            forall|i: int| 0 <= i < cur_idx ==> (#[trigger] boxes[i])@ == narrowed(u, i),
            forall|i: int| cur_idx <= i < 9 ==> (#[trigger] boxes[i])@ == u[i],
        decreases 9 - cur_idx,
    {
        match boxes[cur_idx].value {
            Some(_unused) => {},
            None => {
                narrow_place(boxes, cur_idx, poss_vals, Ghost(u));
            },
        }
        cur_idx += 1;
    }
    assert(unit_view(*boxes) =~= narrowed_unit(u));
}

/// Whether one pass of single position can be made over the unit: whether,
/// once the confirmed digits are struck, every other place keeps a possible digit.
pub fn can_single_position(boxes: &[Box; 9]) -> (result: bool)
    ensures
        result == can_narrow(unit_view(*boxes)),
{
    let ghost u = unit_view(*boxes);
    let mut i: usize = 0;
    while i < 9
        invariant
            0 <= i <= 9,
            u == unit_view(*boxes),
            forall|j: int| 0 <= j < i ==> ((#[trigger] boxes[j]).value matches Some(v) ==> v < 16),
        decreases 9 - i,
    {
        assert(u[i as int] == boxes[i as int]@);
        match boxes[i].value {
            Some(v) => {
                if v >= 16 {
                    return false;
                }
            },
            None => {},
        }
        i += 1;
    }
    let poss_vals = free_digits(boxes);
    let mut i: usize = 0;
    while i < 9
        invariant
            0 <= i <= 9,
            u == unit_view(*boxes),
            forall|j: int| 0 <= j < 9 ==> ((#[trigger] boxes[j]).value matches Some(v) ==> v < 16),
            forall|d: int| has_bit(poss_vals, d) == (1 <= d <= 9 && !placed(u, d)),
            forall|j: int|
                0 <= j < i && (#[trigger] u[j]).value.is_none() ==> exists|d: int|
                    u[j].can(d) && !placed(u, d),
        decreases 9 - i,
    {
        assert(u[i as int] == boxes[i as int]@);
        if !boxes[i].solved() {
            let bits = boxes[i].get_possibles_bits();
            proof {
                lemma_bits(u[i as int]);
            }
            if bits & poss_vals == 0 {
                proof {
                    assert forall|d: int| !(u[i as int].can(d) && !placed(u, d)) by {
                        lemma_bit_and(bits, poss_vals, d);
                        lemma_bit_zero(d);
                    }
                }
                return false;
            }
            proof {
                lemma_nonzero_has_bit(bits & poss_vals);
                let d = choose|d: int| 0 <= d < 16 && has_bit(bits & poss_vals, d);
                lemma_bit_and(bits, poss_vals, d);
                assert(u[i as int].can(d) && !placed(u, d));
            }
        }
        i += 1;
    }
    assert forall|j: int| 0 <= j < 9 implies ((#[trigger] u[j]).value matches Some(v) ==> v
        < 16) by {
        assert(u[j] == boxes[j]@);
    }
    true
}

/// How often a digit has been offered so far.
#[derive(Copy, Clone)]
enum Found {
    Never,
    Once,
    Many,
}

/// The tally of one digit: how often it has been offered, and where, if once.
#[derive(Copy, Clone)]
struct PossValWhere {
    index: Option<u8>,
    found: Found,
}

/// Whether the tally `t` of the digit `d` is right for the first `n` places of `u`.
spec fn tally_holds(t: PossValWhere, u: Seq<BoxView>, d: int, n: int) -> bool {
    match t.found {
        Found::Never => offer_count(u, d, n) == 0,
        Found::Once => offer_count(u, d, n) == 1 && (t.index matches Some(j) && j < n && offers(
            u,
            j as int,
            d,
        )),
        Found::Many => offer_count(u, d, n) >= 2,
    }
}

/// Counts one more offer of a digit, made by place `cur_idx`.
fn count_offer(t: PossValWhere, cur_idx: usize) -> (result: PossValWhere)
    requires
        cur_idx < 9,
    ensures
        forall|u: Seq<BoxView>, d: int|
            tally_holds(t, u, d, cur_idx as int) && offers(u, cur_idx as int, d) ==> tally_holds(
                result,
                u,
                d,
                cur_idx as int + 1,
            ),
{
    match t.found {
        Found::Never => PossValWhere { index: Some(cur_idx as u8), found: Found::Once },
        Found::Once => PossValWhere { index: None, found: Found::Many },
        Found::Many => t,
    }
}

/// One pass of single position over a unit: the digits confirmed in it are
/// struck from its other places, and each place that alone offers a digit is
/// confirmed as that digit.
pub fn single_position_boxes(boxes: &mut [Box; 9])
    requires
        can_narrow(unit_view(*old(boxes))),
    ensures
        unit_view(*final(boxes)) == single_position_unit(unit_view(*old(boxes))),
{
    let ghost u = unit_view(*boxes);
    assert forall|i: int| 0 <= i < 9 implies ((#[trigger] boxes[i]).value matches Some(v) ==> v
        < 16) by {
        assert(u[i] == boxes[i]@);
    }
    let poss_vals = free_digits(boxes);
    let mut last_poss_vals: [PossValWhere; 10] = [PossValWhere { index: None, found: Found::Never };
        10];
    let mut cur_idx: usize = 0;
    while cur_idx < 9
        invariant
            0 <= cur_idx <= 9,
            can_narrow(u),
            forall|d: int| has_bit(poss_vals, d) == (1 <= d <= 9 && !placed(u, d)),
            forall|i: int| 0 <= i < cur_idx ==> (#[trigger] boxes[i])@ == narrowed(u, i),
            forall|i: int| cur_idx <= i < 9 ==> (#[trigger] boxes[i])@ == u[i],
            forall|d: int|
                1 <= d <= 9 ==> tally_holds(#[trigger] last_poss_vals[d], u, d, cur_idx as int),
        decreases 9 - cur_idx,
    {
        match boxes[cur_idx].value {
            Some(_unused) => {},
            None => {
                narrow_place(boxes, cur_idx, poss_vals, Ghost(u));
                let mut poss_val: usize = 1;
                while poss_val <= 9
                    invariant
                        1 <= poss_val <= 10,
                        cur_idx < 9,
                        u[cur_idx as int].value.is_none(),
                        boxes[cur_idx as int]@ == narrowed(u, cur_idx as int),
                        forall|d: int|
                            1 <= d < poss_val ==> tally_holds(
                                #[trigger] last_poss_vals[d],
                                u,
                                d,
                                cur_idx as int + 1,
                            ),
                        forall|d: int|
                            poss_val <= d <= 9 ==> tally_holds(
                                #[trigger] last_poss_vals[d],
                                u,
                                d,
                                cur_idx as int,
                            ),
                    decreases 10 - poss_val,
                {
                    if boxes[cur_idx].poss[poss_val] {
                        last_poss_vals[poss_val] = count_offer(last_poss_vals[poss_val], cur_idx);
                    }
                    poss_val += 1;
                }
            },
        }
        cur_idx += 1;
    }
    let mut cur_val: usize = 1;
    assert forall|i: int| 0 <= i < 9 implies (#[trigger] boxes[i])@ == granted_below(u, i, 1) by {}
    while cur_val <= 9
        invariant
            1 <= cur_val <= 10,
            forall|i: int| 0 <= i < 9 ==> (#[trigger] boxes[i])@ == granted_below(
                u,
                i,
                cur_val as int,
            ),
            forall|d: int| 1 <= d <= 9 ==> tally_holds(#[trigger] last_poss_vals[d], u, d, 9),
        decreases 10 - cur_val,
    {
        let lpv = last_poss_vals[cur_val];
        assert(tally_holds(lpv, u, cur_val as int, 9));
        match lpv.found {
            Found::Once => {
                match lpv.index {
                    Some(index) => {
                        boxes[index as usize].set_val(cur_val as u8);
                        proof {
                            assert forall|i: int| 0 <= i < 9 implies (#[trigger] boxes[i])@
                                == granted_below(u, i, cur_val as int + 1) by {
                                if i != index && claims(u, i, cur_val as int) {
                                    lemma_one_offer(u, cur_val as int, 9, i, index as int);
                                }
                            }
                        }
                    },
                    None => {},
                }
            },
            _ => {},
        }
        cur_val += 1;
    }
    assert(unit_view(*boxes) =~= single_position_unit(u));
}

/// Strikes the digits confirmed in the unit from its other places, through
/// the references to its nine places. A place left with one possible digit
/// is confirmed as that digit.
pub fn single_position_candidate(boxes: Vec<&mut Box>)
    requires
        boxes.len() == 9,
        can_narrow(ref_views(boxes@)),
    ensures
        forall|i: int| 0 <= i < 9 ==> final(boxes@[i])@ == narrowed_unit(ref_views(boxes@))[i],
{
    let mut unit = copy_out(&boxes);
    single_candidate_boxes(&mut unit);
    proof {
        assert forall|i: int| 0 <= i < 9 implies unit[i]@ == narrowed_unit(ref_views(boxes@))[i] by {
            assert(unit_view(unit)[i] == unit[i]@);
        }
    }
    copy_back(boxes, &unit);
}

/// One pass of single position over a unit, through the references to its
/// nine places: the digits confirmed in the unit are struck from its other
/// places, and each place that alone offers a digit is confirmed as that digit.
pub fn single_position_array(boxes: Vec<&mut Box>)
    requires
        boxes.len() == 9,
        can_narrow(ref_views(boxes@)),
    ensures
        forall|i: int|
            0 <= i < 9 ==> final(boxes@[i])@ == single_position_unit(ref_views(boxes@))[i],
{
    let mut unit = copy_out(&boxes);
    single_position_boxes(&mut unit);
    proof {
        assert forall|i: int| 0 <= i < 9 implies unit[i]@ == single_position_unit(
            ref_views(boxes@),
        )[i] by {
            assert(unit_view(unit)[i] == unit[i]@);
        }
    }
    copy_back(boxes, &unit);
}

} // verus!
