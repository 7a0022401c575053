//! What a technique leaves as it is, it leaves as it is when run again.
use crate::line::line_pass;
use crate::naked::naked_set_unit;
use crate::rounds::round;
use crate::single::{narrowed_unit, single_position_unit};
use crate::sk_box::BoxView;
use crate::solvers::{naked_pass, single_pass};
use vstd::prelude::*;

verus! {

/// A unit that one pass of single position does not change is not changed
/// by a second pass either.
pub proof fn lemma_single_position_stable(u: Seq<BoxView>)
    requires
        single_position_unit(u) == u,
    ensures
        single_position_unit(single_position_unit(u)) == u,
{
}

/// A unit from which striking the confirmed digits takes nothing loses
/// nothing when they are struck again.
pub proof fn lemma_single_candidate_stable(u: Seq<BoxView>)
    requires
        narrowed_unit(u) == u,
    ensures
        narrowed_unit(narrowed_unit(u)) == u,
{
}

/// A unit that one pass of naked sets does not change is not changed by a
/// second pass either.
pub proof fn lemma_naked_set_stable(u: Seq<BoxView>)
    requires
        naked_set_unit(u) == u,
    ensures
        naked_set_unit(naked_set_unit(u)) == u,
{
}

/// A grid that one pass of a technique does not change is not changed by a
/// second pass of that technique either; the same holds of a whole round.
pub proof fn lemma_passes_stable(g: Seq<Seq<BoxView>>)
    ensures
        single_pass(g, 27) == g ==> single_pass(single_pass(g, 27), 27) == g,
        naked_pass(g, 27) == g ==> naked_pass(naked_pass(g, 27), 27) == g,
        line_pass(g, 9) == g ==> line_pass(line_pass(g, 9), 9) == g,
        round(g) == g ==> round(round(g)) == g,
{
}

} // verus!
