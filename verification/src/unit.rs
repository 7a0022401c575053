//! A unit: the nine places of one row, one column or one 3×3 block.
use crate::sk_box::{Box, BoxView};
use vstd::prelude::*;

verus! {

/// The nine places of a unit, as mathematics.
pub open spec fn unit_view(boxes: [Box; 9]) -> Seq<BoxView> {
    Seq::new(9, |i: int| boxes[i]@)
}

/// The places that the references of a unit point to, as mathematics.
pub open spec fn ref_views(boxes: Seq<&mut Box>) -> Seq<BoxView> {
    Seq::new(boxes.len(), |i: int| (*boxes[i])@)
}

/// The nine places that the references point to.
pub fn copy_out(boxes: &Vec<&mut Box>) -> (result: [Box; 9])
    requires
        boxes.len() == 9,
    ensures
        unit_view(result) == ref_views(boxes@),
        forall|i: int| 0 <= i < 9 ==> result[i] == *boxes@[i],
{
    let result = [
        *boxes[0],
        *boxes[1],
        *boxes[2],
        *boxes[3],
        *boxes[4],
        *boxes[5],
        *boxes[6],
        *boxes[7],
        *boxes[8],
    ];
    assert(unit_view(result) =~= ref_views(boxes@));
    result
}

/// Writes the nine places of `unit` through the references.
pub fn copy_back(mut boxes: Vec<&mut Box>, unit: &[Box; 9])
    requires
        boxes.len() == 9,
    ensures
        forall|i: int| 0 <= i < 9 ==> *final(boxes@[i]) == unit[i],
{
    let ghost orig = boxes@;
    let mut i: usize = 0;
    while i < 9
        invariant
            0 <= i <= 9,
            boxes.len() == 9,
            orig.len() == 9,
            forall|j: int| 0 <= j < 9 ==> *final(boxes@[j]) == *final(orig[j]),
            forall|j: int| 0 <= j < i ==> *boxes@[j] == unit[j],
        decreases 9 - i,
    {
        *boxes[i] = unit[i];
        i += 1;
    }
}

/// Whether the digit `d` is confirmed at one of the places of `u`.
pub open spec fn placed(u: Seq<BoxView>, d: int) -> bool {
    placed_below(u, d, u.len() as int)
}

/// Whether the digit `d` is confirmed at one of the first `n` places of `u`.
pub open spec fn placed_below(u: Seq<BoxView>, d: int, n: int) -> bool {
    exists|j: int| 0 <= j < n && (#[trigger] u[j]).value == Some(d as u8)
}

/// Whether no digit is confirmed at two places of `u`.
pub open spec fn no_repeat(u: Seq<BoxView>) -> bool {
    no_repeat_below(u, u.len() as int)
}

/// Whether no digit is confirmed at two of the first `n` places of `u`.
pub open spec fn no_repeat_below(u: Seq<BoxView>, n: int) -> bool {
    forall|i: int, j: int|
        0 <= i < j < n && (#[trigger] u[i]).value.is_some() ==> u[i].value != (
        #[trigger] u[j]).value
}

/// Whether the digit `d` is possible at one of the places of `u` that have no confirmed digit.
pub open spec fn open_for(u: Seq<BoxView>, d: int) -> bool {
    open_below(u, d, u.len() as int)
}

/// Whether the digit `d` is possible at one of the first `n` places of `u`
/// that have no confirmed digit.
pub open spec fn open_below(u: Seq<BoxView>, d: int, n: int) -> bool {
    exists|j: int| 0 <= j < n && (#[trigger] u[j]).value.is_none() && u[j].poss[d]
}

/// Whether the unit is coherent: every place keeps its invariant and no
/// digit is confirmed twice. With `strict`, each digit is moreover either
/// confirmed in the unit or possible at a place without a confirmed digit,
/// and not both.
pub open spec fn unit_ok(u: Seq<BoxView>, strict: bool) -> bool {
    &&& u.len() == 9
    &&& forall|i: int| 0 <= i < 9 ==> (#[trigger] u[i]).wf()
    &&& no_repeat(u)
    &&& strict ==> forall|d: int| 1 <= d <= 9 ==> (#[trigger] placed(u, d)) != open_for(u, d)
}

/// The digits below `n` that are confirmed nowhere in `u`, in ascending order.
pub open spec fn free_below(u: Seq<BoxView>, n: int) -> Seq<u8>
    decreases n,
{
    if n <= 1 {
        Seq::empty()
    } else if placed(u, n - 1) {
        free_below(u, n - 1)
    } else {
        free_below(u, n - 1).push((n - 1) as u8)
    }
}

/// Whether each place of `later` can follow the same place of `u` in a
/// deduction: no digit has become possible again, and what was confirmed is
/// still confirmed.
pub open spec fn unit_shrinks_to(u: Seq<BoxView>, later: Seq<BoxView>) -> bool {
    &&& u.len() == later.len()
    &&& forall|i: int| 0 <= i < u.len() ==> (#[trigger] u[i]).shrinks_to(later[i])
}

/// Two units with the same views hold the same places.
pub proof fn lemma_unit_ext(a: [Box; 9], b: [Box; 9])
    requires
        unit_view(a) == unit_view(b),
    ensures
        a == b,
{
    assert forall|i: int| 0 <= i < 9 implies a[i] == b[i] by {
        assert(unit_view(a)[i] == a[i]@);
        assert(unit_view(b)[i] == b[i]@);
        crate::sk_box::lemma_box_ext(a[i], b[i]);
    }
    assert(a =~= b);
}

} // verus!
