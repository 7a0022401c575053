//! Grids for trying the solver on: a blank grid seeded with the digits 1 to
//! 9, in a shuffled order, along its diagonal of blocks.
use crate::constants::{ARRAY_OF_9, BOT_RHT, MID_MID, TOP_LFT};
use crate::sk_box::BoxView;
use crate::sudoku::Sudoku;
use rand::seq::SliceRandom;
use rand::RngCore;
use vstd::prelude::*;

verus! {

/// Whether `rands` holds the digits 1 to 9, each once.
pub open spec fn is_shuffle(rands: Seq<u8>) -> bool {
    &&& rands.len() == 9
    &&& forall|i: int| 0 <= i < 9 ==> 1 <= #[trigger] rands[i] <= 9
    &&& forall|i: int, j: int| 0 <= i < j < 9 ==> rands[i] != rands[j]
}

/// Whether `g` is the grid whose top left, middle and bottom right blocks
/// hold the digits of `rands`, row by row, and whose other blocks are blank.
pub open spec fn is_seeded(g: Seq<Seq<BoxView>>, rands: Seq<u8>) -> bool {
    &&& g.len() == 9
    &&& forall|c: int, b: int|
        0 <= c < 9 && 0 <= b < 9 ==> (#[trigger] g[c][b]) == (if c == 0 || c == 4 || c == 8 {
            BoxView::solved_as(rands[b])
        } else {
            BoxView::blank()
        })
}

/// Puts the nine entries of `values` in an order that `rng` decides.
///
/// Calls `SliceRandom::shuffle` of the crate `rand`. The shuffle only swaps
/// entries of the slice, so the entries afterwards are those from before,
/// each as often as before; nothing is claimed of their order.
#[verifier::external_body]
fn shuffle<R: RngCore + ?Sized>(values: &mut [u8; 9], rng: &mut R)
    ensures
        final(values)@.to_multiset() == old(values)@.to_multiset(),
{
    values.shuffle(rng);
}

/// The digits 1 to 9 in an order that `rng` decides.
fn get_9_rands<R: RngCore + ?Sized>(rng: &mut R) -> (result: [u8; 9])
    ensures
        is_shuffle(result@),
{
    let mut result = ARRAY_OF_9;
    let ghost digits = result@;
    shuffle(&mut result, rng);
    proof {
        assert(digits.no_duplicates());
        digits.lemma_multiset_has_no_duplicates();
        result@.lemma_multiset_has_no_duplicates_conv();
        digits.to_multiset_ensures();
        result@.to_multiset_ensures();
        assert forall|i: int| 0 <= i < 9 implies 1 <= #[trigger] result@[i] <= 9 by {
            let x = result@[i];
            assert(result@.contains(x));
            assert(result@.to_multiset().count(x) > 0);
            assert(digits.to_multiset().count(x) > 0);
            assert(digits.contains(x));
        }
    }
    result
}

/// The grid whose top left, middle and bottom right blocks hold the nine
/// digits of `rands`, row by row, and whose other blocks are blank.
pub fn seed_blocks(rands: [u8; 9]) -> (result: Sudoku)
    requires
        forall|i: int| 0 <= i < 9 ==> 1 <= #[trigger] rands[i] <= 9,
    ensures
        is_seeded(result@, rands@),
{
    let mut sud = Sudoku::blank();
    let ghost blank = sud@;
    sud.cells[TOP_LFT].set(rands);
    sud.cells[MID_MID].set(rands);
    sud.cells[BOT_RHT].set(rands);
    proof {
        assert forall|c: int, b: int| 0 <= c < 9 && 0 <= b < 9 implies (#[trigger] sud@[c][b]) == (
        if c == 0 || c == 4 || c == 8 {
            BoxView::solved_as(rands@[b])
        } else {
            BoxView::blank()
        }) by {
            assert(sud@[c] == sud.cells[c]@);
            assert(blank[c][b] == BoxView::blank());
        }
    }
    sud
}

/// A grid seeded with the digits 1 to 9 in an order that `rng` decides:
/// they fill the top left, the middle and the bottom right block, row by
/// row; the other blocks are blank.
pub fn build_rand_sud<R: RngCore + ?Sized>(rng: &mut R) -> (result: Sudoku)
    ensures
        exists|rands: Seq<u8>| is_shuffle(rands) && is_seeded(result@, rands),
{
    let rands = get_9_rands(rng);
    let sud = seed_blocks(rands);
    assert(is_shuffle(rands@) && is_seeded(sud@, rands@));
    sud
}

} // verus!
