//! A 3×3 block of places, stored row by row, and checks on any unit.
use crate::bits::{has_bit, lemma_bit_or, lemma_bit_single, lemma_bit_zero};
use crate::sk_box::{Box, BoxView};
use crate::unit::{
    free_below, no_repeat_below, open_below, placed, placed_below, ref_views, unit_ok, unit_view,
};
use vstd::prelude::*;

verus! {

/// A 3×3 block of the grid: nine places, row by row.
#[derive(PartialEq, Copy, Clone, Debug)]
pub struct Cell {
    pub boxes: [Box; 9],
}

impl View for Cell {
    type V = Seq<BoxView>;

    open spec fn view(&self) -> Seq<BoxView> {
        unit_view(self.boxes)
    }
}

/// The position mask of the first `n` places of `u` at which the digit `d` is possible.
pub open spec fn spots_below(u: Seq<BoxView>, d: int, n: int) -> u16
    decreases n,
{
    if n <= 0 {
        0
    } else if u[n - 1].can(d) {
        spots_below(u, d, n - 1) | (1u16 << ((n - 1) as u16))
    } else {
        spots_below(u, d, n - 1)
    }
}

/// The position mask of the places of a unit at which the digit `d` is possible.
pub open spec fn spots(u: Seq<BoxView>, d: int) -> u16 {
    spots_below(u, d, 9)
}

/// Bit `i` of `spots_below(u, d, n)` is set exactly where `d` is possible at place `i < n`.
pub proof fn lemma_spots_below(u: Seq<BoxView>, d: int, n: int, i: int)
    requires
        n <= 16,
    ensures
        has_bit(spots_below(u, d, n), i) == (0 <= i < n && u[i].can(d)),
    decreases n,
{
    if n <= 0 {
        lemma_bit_zero(i);
    } else {
        lemma_spots_below(u, d, n - 1, i);
        if u[n - 1].can(d) {
            lemma_bit_or(spots_below(u, d, n - 1), 1u16 << ((n - 1) as u16), i);
            lemma_bit_single((n - 1) as u16, i);
        }
    }
}

/// Appends to `result` three places of the block, to be changed in place:
/// those at `first`, `first + step` and `first + 2 * step`.
#[verifier::rlimit(80)]
pub fn take_three<'a>(cell: &'a mut Cell, first: usize, step: usize, result: &mut Vec<&'a mut Box>)
    requires
        1 <= step <= 3,
        first + 2 * step < 9,
    ensures
        final(result)@.len() == old(result)@.len() + 3,
        forall|j: int| 0 <= j < old(result)@.len() ==> final(result)@[j] == old(result)@[j],
        *final(result)@[old(result)@.len() as int] == old(cell).boxes[first as int],
        *final(result)@[old(result)@.len() as int + 1] == old(cell).boxes[first + step],
        *final(result)@[old(result)@.len() as int + 2] == old(cell).boxes[first + 2 * step],
        forall|b: int|
            0 <= b < 9 ==> #[trigger] final(cell).boxes[b] == (if b == first {
                *final(final(result)@[old(result)@.len() as int])
            } else if b == first + step {
                *final(final(result)@[old(result)@.len() as int + 1])
            } else if b == first + 2 * step {
                *final(final(result)@[old(result)@.len() as int + 2])
            } else {
                old(cell).boxes[b]
            }),
{
    let boxes: &mut [Box] = &mut cell.boxes;
    let (_, from) = boxes.split_at_mut(first);
    let (a, rest) = from.split_at_mut(1);
    let (_, rest) = rest.split_at_mut(step - 1);
    let (b, rest) = rest.split_at_mut(1);
    let (_, rest) = rest.split_at_mut(step - 1);
    let (c, _) = rest.split_at_mut(1);
    result.push(&mut a[0]);
    result.push(&mut b[0]);
    result.push(&mut c[0]);
}

impl Cell {
    /// A block of nine blank places.
    pub fn blank() -> (result: Cell)
        ensures
            forall|i: int| 0 <= i < 9 ==> (#[trigger] result@[i]) == BoxView::blank(),
    {
        Cell { boxes: [Box::blank(); 9] }
    }

    /// The nine places of the block, to be changed in place: what is written
    /// through the `i`-th reference is written to place `i` of the block.
    pub fn get_mut<'a>(&'a mut self) -> (result: Vec<&'a mut Box>)
        ensures
            result@.len() == 9,
            forall|i: int| 0 <= i < 9 ==> *result@[i] == old(self).boxes[i],
            forall|i: int| 0 <= i < 9 ==> final(self).boxes[i] == *final(result@[i]),
    {
        let mut result: Vec<&mut Box> = Vec::new();
        let mut rest: &mut [Box] = &mut self.boxes;
        let mut i: usize = 0;
        while i < 9
            invariant
                0 <= i <= 9,
                result@.len() == i,
                rest@.len() == 9 - i,
                final(rest)@.len() == 9 - i,
                forall|j: int| 0 <= j < i ==> *result@[j] == old(self).boxes[j],
                forall|j: int| 0 <= j < 9 - i ==> rest@[j] == old(self).boxes[i + j],
                after_borrow(self).boxes@.len() == 9,
                forall|j: int| 0 <= j < i ==> after_borrow(self).boxes@[j] == *final(result@[j]),
                forall|j: int|
                    0 <= j < 9 - i ==> after_borrow(self).boxes@[i + j] == final(rest)@[j],
            decreases 9 - i,
        {
            let ghost old_rest = rest;
            let ghost old_result = result@;
            let (head, tail) = rest.split_at_mut(1);
            let ghost one = head;
            let sk_box = &mut head[0];
            assert(final(one)@ == one@.update(0, *final(sk_box)));
            assert(final(old_rest)@ == final(one)@ + final(tail)@);
            result.push(sk_box);
            assert(forall|j: int| 0 <= j < i ==> result@[j] == old_result[j]);
            assert(final(tail)@.len() == 9 - i - 1);
            assert(forall|j: int| 0 <= j < 9 - i - 1 ==> final(old_rest)@[1 + j] == final(tail)@[j]);
            rest = tail;
            assert(final(old_rest)@[0] == *final(result@[i as int]));
            i += 1;
        }
        result
    }

    /// Fills the block from nine digits, row by row; 0 stands for a blank place.
    pub fn set(&mut self, values: [u8; 9])
        requires
            forall|i: int| 0 <= i < 9 ==> #[trigger] values[i] <= 9,
        ensures
            forall|i: int|
                0 <= i < 9 ==> (#[trigger] final(self)@[i]) == (if values[i] == 0 {
                    BoxView::blank()
                } else {
                    BoxView::solved_as(values[i])
                }),
    {
        let mut x: usize = 0;
        while x < 9
            invariant
                0 <= x <= 9,
                forall|i: int| 0 <= i < 9 ==> #[trigger] values[i] <= 9,
                forall|i: int|
                    0 <= i < x ==> (#[trigger] self.boxes[i])@ == (if values[i] == 0 {
                        BoxView::blank()
                    } else {
                        BoxView::solved_as(values[i])
                    }),
            decreases 9 - x,
        {
            let i = values[x];
            self.boxes[x] = Box::from_val(i);
            x += 1;
        }
        assert forall|i: int| 0 <= i < 9 implies (#[trigger] self@[i]) == (if values[i] == 0 {
            BoxView::blank()
        } else {
            BoxView::solved_as(values[i])
        }) by {
            assert(self@[i] == self.boxes[i]@);
        }
    }

    /// For each digit, the places of the block at which it is possible, as a
    /// position mask: bit `i` of entry `d` is set where `d` is possible at
    /// place `i`. Entry 0 is empty.
    pub fn bitmap_possibles(&self) -> (result: [u16; 10])
        ensures
            result[0] == 0,
            forall|d: int| 1 <= d <= 9 ==> #[trigger] result[d] == spots(self@, d),
    {
        let mut result: [u16; 10] = [0, 0, 0, 0, 0, 0, 0, 0, 0, 0];
        let mut idx: usize = 0;
        while idx < 9
            invariant
                0 <= idx <= 9,
                result[0] == 0,
                forall|d: int|
                    1 <= d <= 9 ==> #[trigger] result[d] == spots_below(self@, d, idx as int),
            decreases 9 - idx,
        {
            let cur_box = self.boxes[idx];
            let bit_pattern: u16 = 1 << idx;
            assert(self@[idx as int] == cur_box@);
            let mut poss_val: usize = 1;
            while poss_val <= 9
                invariant
                    1 <= poss_val <= 10,
                    idx < 9,
                    bit_pattern == 1u16 << (idx as u16),
                    self@[idx as int] == cur_box@,
                    result[0] == 0,
                    forall|d: int|
                        1 <= d < poss_val ==> #[trigger] result[d] == spots_below(
                            self@,
                            d,
                            idx as int + 1,
                        ),
                    forall|d: int|
                        poss_val <= d <= 9 ==> #[trigger] result[d] == spots_below(
                            self@,
                            d,
                            idx as int,
                        ),
                decreases 10 - poss_val,
            {
                if cur_box.poss[poss_val] {
                    result[poss_val] = result[poss_val] | bit_pattern;
                }
                poss_val += 1;
            }
            idx += 1;
        }
        result
    }

    /// Strikes the digit `value` from the three places of row `row` of the block.
    pub fn rm_poss_from_row(&mut self, value: u16, row: usize)
        requires
            value <= 9,
            row < 3,
        ensures
            forall|i: int|
                0 <= i < 9 ==> (#[trigger] final(self)@[i]) == (if i / 3 == row {
                    old(self)@[i].without(value as int)
                } else {
                    old(self)@[i]
                }),
    {
        let start_idx = row * 3;
        self.boxes[start_idx].remove_possible_value(value);
        self.boxes[start_idx + 1].remove_possible_value(value);
        self.boxes[start_idx + 2].remove_possible_value(value);
        assert forall|i: int| 0 <= i < 9 implies (#[trigger] self@[i]) == (if i / 3 == row {
            old(self)@[i].without(value as int)
        } else {
            old(self)@[i]
        }) by {
            assert(self@[i] == self.boxes[i]@);
            assert(old(self)@[i] == old(self).boxes[i]@);
        }
    }

    /// Strikes the digit `value` from the three places of column `col` of the block.
    pub fn rm_poss_from_col(&mut self, value: u16, col: usize)
        requires
            value <= 9,
            col < 3,
        ensures
            forall|i: int|
                0 <= i < 9 ==> (#[trigger] final(self)@[i]) == (if i % 3 == col {
                    old(self)@[i].without(value as int)
                } else {
                    old(self)@[i]
                }),
    {
        self.boxes[col].remove_possible_value(value);
        self.boxes[col + 3].remove_possible_value(value);
        self.boxes[col + 6].remove_possible_value(value);
        assert forall|i: int| 0 <= i < 9 implies (#[trigger] self@[i]) == (if i % 3 == col {
            old(self)@[i].without(value as int)
        } else {
            old(self)@[i]
        }) by {
            assert(self@[i] == self.boxes[i]@);
            assert(old(self)@[i] == old(self).boxes[i]@);
        }
    }

    /// Whether every place of the block has a confirmed digit.
    pub fn solved(&self) -> (result: bool)
        ensures
            result == all_solved(self@),
    {
        let mut i: usize = 0;
        while i < 9
            invariant
                0 <= i <= 9,
                forall|j: int| 0 <= j < i ==> (#[trigger] self@[j]).value.is_some(),
            decreases 9 - i,
        {
            assert(self@[i as int] == self.boxes[i as int]@);
            if !self.boxes[i].solved() {
                return false;
            }
            i += 1;
        }
        true
    }

    /// Whether the block is coherent: every place keeps its invariant and no
    /// digit is confirmed twice.
    pub fn check(&self) -> (result: bool)
        ensures
            result == unit_ok(self@, false),
    {
        array_check(self.boxes, false)
    }
}

/// Whether every place of the unit has a confirmed digit.
pub open spec fn all_solved(u: Seq<BoxView>) -> bool {
    forall|i: int| 0 <= i < 9 ==> (#[trigger] u[i]).value.is_some()
}

/// The digits that are confirmed at none of the places, in ascending order,
/// followed by zeros, and how many they are.
pub fn unsolved_values(input: &Vec<&mut Box>) -> (result: ([u8; 9], usize))
    requires
        forall|i: int|
            0 <= i < input.len() ==> ((#[trigger] ref_views(input@)[i]).value matches Some(v) ==> v
                <= 9),
    ensures
        result.1 <= 9,
        result.0@.subrange(0, result.1 as int) == free_below(ref_views(input@), 10),
        forall|i: int| result.1 <= i < 9 ==> #[trigger] result.0[i] == 0,
{
    let ghost u = ref_views(input@);
    let mut solved: [bool; 10] = [false; 10];
    let mut result: [u8; 9] = [0; 9];
    let mut x: usize = 0;
    while x < input.len()
        invariant
            0 <= x <= input.len(),
            u == ref_views(input@),
            forall|i: int|
                0 <= i < input.len() ==> ((#[trigger] u[i]).value matches Some(v) ==> v <= 9),
            forall|d: int| 0 <= d <= 9 ==> #[trigger] solved[d] == placed_below(u, d, x as int),
        decreases input.len() - x,
    {
        assert(u[x as int] == input@[x as int]@);
        let ghost before = solved;
        match input[x].get_value() {
            Some(v) => {
                solved[v as usize] = true;
                proof {
                    assert forall|d: int| 0 <= d <= 9 implies #[trigger] solved[d] == placed_below(
                        u,
                        d,
                        x as int + 1,
                    ) by {
                        if d == v {
                            assert(u[x as int].value == Some(d as u8));
                        } else if placed_below(u, d, x as int + 1) {
                            let j = choose|j: int|
                                0 <= j < x + 1 && (#[trigger] u[j]).value == Some(d as u8);
                            assert(j < x);
                            assert(before[d]);
                        } else {
                            assert(!placed_below(u, d, x as int));
                            assert(!before[d]);
                        }
                    }
                }
            },
            None => {
                proof {
                    assert forall|d: int| 0 <= d <= 9 implies #[trigger] solved[d] == placed_below(
                        u,
                        d,
                        x as int + 1,
                    ) by {
                        if placed_below(u, d, x as int + 1) {
                            let j = choose|j: int|
                                0 <= j < x + 1 && (#[trigger] u[j]).value == Some(d as u8);
                            assert(j < x);
                        }
                    }
                }
            },
        }
        x += 1;
    }
    let mut j: usize = 0;
    let mut i: usize = 1;
    while i <= 9
        invariant
            1 <= i <= 10,
            0 <= j < i,
            forall|d: int| 0 <= d <= 9 ==> #[trigger] solved[d] == placed(u, d),
            result@.subrange(0, j as int) == free_below(u, i as int),
            forall|k: int| j <= k < 9 ==> #[trigger] result[k] == 0,
        decreases 10 - i,
    {
        if solved[i] == false {
            let ghost before = result@;
            result[j] = i as u8;
            proof {
                assert(result@.subrange(0, j as int + 1) =~= before.subrange(0, j as int).push(
                    i as u8,
                ));
            }
            j += 1;
        }
        i += 1;
    }
    (result, j)
}

/// Whether the unit is coherent: every place keeps its invariant and no
/// digit is confirmed twice. With `strict`, each digit must moreover be
/// either confirmed in the unit or possible at a place without a confirmed
/// digit, and not both.
pub fn array_check(validate: [Box; 9], strict: bool) -> (result: bool)
    ensures
        result == unit_ok(unit_view(validate), strict),
{
    let ghost u = unit_view(validate);
    let mut i: usize = 0;
    while i < 9
        invariant
            0 <= i <= 9,
            u == unit_view(validate),
            forall|j: int| 0 <= j < i ==> (#[trigger] u[j]).wf(),
        decreases 9 - i,
    {
        assert(u[i as int] == validate[i as int]@);
        if !validate[i].check() {
            return false;
        }
        i += 1;
    }
    let mut vals_found: [bool; 10] = [false; 10];
    let mut poss_found: [bool; 10] = [false; 10];
    let mut i: usize = 0;
    while i < 9
        invariant
            0 <= i <= 9,
            u == unit_view(validate),
            forall|j: int| 0 <= j < 9 ==> (#[trigger] u[j]).wf(),
            no_repeat_below(u, i as int),
            forall|d: int| 1 <= d <= 9 ==> #[trigger] vals_found[d] == placed_below(u, d, i as int),
            forall|d: int| 1 <= d <= 9 ==> #[trigger] poss_found[d] == open_below(u, d, i as int),
        decreases 9 - i,
    {
        assert(u[i as int] == validate[i as int]@);
        assert(u[i as int].wf());
        let ghost vals_before = vals_found;
        let ghost poss_before = poss_found;
        match validate[i].value {
            None => {
                let mut x: usize = 1;
                while x < 10
                    invariant
                        1 <= x <= 10,
                        i < 9,
                        u.len() == 9,
                        u[i as int] == validate[i as int]@,
                        forall|d: int|
                            1 <= d < x ==> #[trigger] poss_found[d] == (poss_before[d]
                                || validate[i as int].poss[d]),
                        forall|d: int| x <= d <= 9 ==> #[trigger] poss_found[d] == poss_before[d],
                    decreases 10 - x,
                {
                    if validate[i].poss[x] {
                        poss_found[x] = true;
                    }
                    x += 1;
                }
                proof {
                    assert forall|d: int| 1 <= d <= 9 implies #[trigger] poss_found[d]
                        == open_below(u, d, i as int + 1) by {
                        if open_below(u, d, i as int + 1) {
                            let j = choose|j: int|
                                0 <= j < i + 1 && (#[trigger] u[j]).value.is_none() && u[j].poss[d];
                            if j < i {
                                assert(open_below(u, d, i as int));
                            }
                        }
                        if poss_found[d] {
                            if poss_before[d] {
                                let j = choose|j: int|
                                    0 <= j < i && (#[trigger] u[j]).value.is_none() && u[j].poss[d];
                                assert(u[j].value.is_none() && u[j].poss[d]);
                            } else {
                                assert(u[i as int].value.is_none() && u[i as int].poss[d]);
                            }
                        }
                    }
                    assert forall|d: int| 1 <= d <= 9 implies #[trigger] vals_found[d]
                        == placed_below(u, d, i as int + 1) by {
                        if placed_below(u, d, i as int + 1) {
                            let j = choose|j: int|
                                0 <= j < i + 1 && (#[trigger] u[j]).value == Some(d as u8);
                            assert(j < i);
                        }
                    }
                }
            },
            Some(found_val) => {
                let idx = found_val as usize;
                if vals_found[idx] {
                    proof {
                        let j = choose|j: int|
                            0 <= j < i && (#[trigger] u[j]).value == Some(found_val as int as u8);
                        assert(u[j].value == u[i as int].value);
                    }
                    return false;
                }
                vals_found[idx] = true;
                proof {
                    assert forall|d: int| 1 <= d <= 9 implies #[trigger] vals_found[d]
                        == placed_below(u, d, i as int + 1) by {
                        if d == found_val {
                            assert(u[i as int].value == Some(d as u8));
                        } else if placed_below(u, d, i as int + 1) {
                            let j = choose|j: int|
                                0 <= j < i + 1 && (#[trigger] u[j]).value == Some(d as u8);
                            assert(j < i);
                        }
                    }
                    assert forall|d: int| 1 <= d <= 9 implies #[trigger] poss_found[d]
                        == open_below(u, d, i as int + 1) by {
                        if open_below(u, d, i as int + 1) {
                            let j = choose|j: int|
                                0 <= j < i + 1 && (#[trigger] u[j]).value.is_none() && u[j].poss[d];
                            assert(j < i);
                        }
                    }
                    assert forall|a: int, b: int|
                        0 <= a < b < i + 1 && (#[trigger] u[a]).value.is_some() implies u[a].value
                        != (#[trigger] u[b]).value by {
                        if b == i && u[a].value == u[b].value {
                            assert(placed_below(u, found_val as int, i as int));
                        }
                    }
                }
            },
        }
        i += 1;
    }
    if strict {
        let mut x: usize = 1;
        while x < 10
            invariant
                1 <= x <= 10,
                strict,
                u == unit_view(validate),
                forall|j: int| 0 <= j < 9 ==> (#[trigger] u[j]).wf(),
                crate::unit::no_repeat(u),
                forall|d: int| 1 <= d <= 9 ==> #[trigger] vals_found[d] == placed(u, d),
                forall|d: int| 1 <= d <= 9 ==> #[trigger] poss_found[d] == crate::unit::open_for(u, d),
                forall|d: int|
                    1 <= d < x ==> (#[trigger] placed(u, d)) != crate::unit::open_for(u, d),
            decreases 10 - x,
        {
            if !(vals_found[x] ^ poss_found[x]) {
                assert(placed(u, x as int) == crate::unit::open_for(u, x as int));
                return false;
            }
            x += 1;
        }
    }
    true
}

} // verus!
