//! Bit masks over a sixteen-bit word, read as sets of small numbers.
//!
//! The solver keeps two kinds of mask: a *digit mask*, in which bit `d`
//! stands for the digit `d` (bits 1 to 9, bit 0 unused), and a *position
//! mask*, in which bit `i` stands for the `i`-th place of a unit (bits 0
//! to 8). Both are read through [`has_bit`]; the lemmas below say how the
//! machine operations act on it.
use vstd::prelude::*;

verus! {

/// The mask in which exactly the digits 1 to 9 are set.
pub const POSSIBLE_BIT_MASK: u16 = 0b1111111110;

/// Whether bit `d` of `mask` is set.
pub open spec fn has_bit(mask: u16, d: int) -> bool {
    0 <= d < 16 && (mask >> (d as u16)) & 1 == 1
}

/// The first ten bits of `mask`, as a sequence of flags.
pub open spec fn mask_flags(mask: u16) -> Seq<bool> {
    Seq::new(10, |d: int| has_bit(mask, d))
}

/// Whether `mask` holds digits only: nothing outside bits 1 to 9.
pub open spec fn is_digit_mask(mask: u16) -> bool {
    mask & POSSIBLE_BIT_MASK == mask
}

/// The empty mask has no bit.
pub proof fn lemma_bit_zero(d: int)
    ensures
        !has_bit(0, d),
{
    if 0 <= d < 16 {
        let e: u16 = d as u16;
        assert((0u16 >> e) & 1 != 1) by (bit_vector);
    }
}

/// `1 << k` has bit `k` and no other.
pub proof fn lemma_bit_single(k: u16, d: int)
    requires
        k < 16,
    ensures
        has_bit(1u16 << k, d) == (d == k),
{
    if 0 <= d < 16 {
        let e: u16 = d as u16;
        assert((((1u16 << k) >> e) & 1 == 1) == (e == k)) by (bit_vector)
            requires
                k < 16,
                e < 16,
        ;
    }
}

/// A bit is in `a | b` when it is in `a` or in `b`.
pub proof fn lemma_bit_or(a: u16, b: u16, d: int)
    ensures
        has_bit(a | b, d) == (has_bit(a, d) || has_bit(b, d)),
{
    if 0 <= d < 16 {
        let e: u16 = d as u16;
        assert((((a | b) >> e) & 1 == 1) == (((a >> e) & 1 == 1) || ((b >> e) & 1 == 1)))
            by (bit_vector)
            requires
                e < 16,
        ;
    }
}

/// A bit is in `a & b` when it is in both.
pub proof fn lemma_bit_and(a: u16, b: u16, d: int)
    ensures
        has_bit(a & b, d) == (has_bit(a, d) && has_bit(b, d)),
{
    if 0 <= d < 16 {
        let e: u16 = d as u16;
        assert((((a & b) >> e) & 1 == 1) == (((a >> e) & 1 == 1) && ((b >> e) & 1 == 1)))
            by (bit_vector)
            requires
                e < 16,
        ;
    }
}

/// A bit is in `!a` when it is not in `a`.
pub proof fn lemma_bit_not(a: u16, d: int)
    requires
        0 <= d < 16,
    ensures
        has_bit(!a, d) == !has_bit(a, d),
{
    let e: u16 = d as u16;
    assert((((!a) >> e) & 1 == 1) == !((a >> e) & 1 == 1)) by (bit_vector)
        requires
            e < 16,
    ;
}

/// Two masks with the same bits are the same mask.
pub proof fn lemma_bits_equal(a: u16, b: u16)
    requires
        forall|d: int| 0 <= d < 16 ==> has_bit(a, d) == has_bit(b, d),
    ensures
        a == b,
{
    assert(has_bit(a, 0) == has_bit(b, 0));
    assert(has_bit(a, 1) == has_bit(b, 1));
    assert(has_bit(a, 2) == has_bit(b, 2));
    assert(has_bit(a, 3) == has_bit(b, 3));
    assert(has_bit(a, 4) == has_bit(b, 4));
    assert(has_bit(a, 5) == has_bit(b, 5));
    assert(has_bit(a, 6) == has_bit(b, 6));
    assert(has_bit(a, 7) == has_bit(b, 7));
    assert(has_bit(a, 8) == has_bit(b, 8));
    assert(has_bit(a, 9) == has_bit(b, 9));
    assert(has_bit(a, 10) == has_bit(b, 10));
    assert(has_bit(a, 11) == has_bit(b, 11));
    assert(has_bit(a, 12) == has_bit(b, 12));
    assert(has_bit(a, 13) == has_bit(b, 13));
    assert(has_bit(a, 14) == has_bit(b, 14));
    assert(has_bit(a, 15) == has_bit(b, 15));
    assert(a == b) by (bit_vector)
        requires
            ((a >> 0u16) & 1 == 1) == ((b >> 0u16) & 1 == 1),
            ((a >> 1u16) & 1 == 1) == ((b >> 1u16) & 1 == 1),
            ((a >> 2u16) & 1 == 1) == ((b >> 2u16) & 1 == 1),
            ((a >> 3u16) & 1 == 1) == ((b >> 3u16) & 1 == 1),
            ((a >> 4u16) & 1 == 1) == ((b >> 4u16) & 1 == 1),
            ((a >> 5u16) & 1 == 1) == ((b >> 5u16) & 1 == 1),
            ((a >> 6u16) & 1 == 1) == ((b >> 6u16) & 1 == 1),
            ((a >> 7u16) & 1 == 1) == ((b >> 7u16) & 1 == 1),
            ((a >> 8u16) & 1 == 1) == ((b >> 8u16) & 1 == 1),
            ((a >> 9u16) & 1 == 1) == ((b >> 9u16) & 1 == 1),
            ((a >> 10u16) & 1 == 1) == ((b >> 10u16) & 1 == 1),
            ((a >> 11u16) & 1 == 1) == ((b >> 11u16) & 1 == 1),
            ((a >> 12u16) & 1 == 1) == ((b >> 12u16) & 1 == 1),
            ((a >> 13u16) & 1 == 1) == ((b >> 13u16) & 1 == 1),
            ((a >> 14u16) & 1 == 1) == ((b >> 14u16) & 1 == 1),
            ((a >> 15u16) & 1 == 1) == ((b >> 15u16) & 1 == 1),
    ;
}

/// A mask other than the empty one has a bit.
pub proof fn lemma_nonzero_has_bit(mask: u16)
    requires
        mask != 0,
    ensures
        exists|d: int| 0 <= d < 16 && has_bit(mask, d),
{
    if forall|d: int| 0 <= d < 16 ==> !has_bit(mask, d) {
        assert forall|d: int| 0 <= d < 16 implies has_bit(mask, d) == has_bit(0, d) by {
            lemma_bit_zero(d);
        }
        lemma_bits_equal(mask, 0);
    }
}

/// The digit mask holds the digits 1 to 9 and nothing else.
pub proof fn lemma_bit_possible(d: int)
    ensures
        has_bit(POSSIBLE_BIT_MASK, d) == (1 <= d <= 9),
{
    if 0 <= d < 16 {
        let e: u16 = d as u16;
        assert((((0b1111111110u16) >> e) & 1 == 1) == (1 <= e && e <= 9)) by (bit_vector)
            requires
                e < 16,
        ;
    }
}

/// A mask holds digits only exactly when all its bits lie in 1 to 9.
pub proof fn lemma_digit_mask(mask: u16)
    ensures
        is_digit_mask(mask) <==> (forall|d: int| has_bit(mask, d) ==> 1 <= d <= 9),
{
    if is_digit_mask(mask) {
        assert forall|d: int| has_bit(mask, d) implies 1 <= d <= 9 by {
            lemma_bit_and(mask, POSSIBLE_BIT_MASK, d);
            lemma_bit_possible(d);
        }
    }
    if forall|d: int| has_bit(mask, d) ==> 1 <= d <= 9 {
        assert forall|d: int| 0 <= d < 16 implies has_bit(mask & POSSIBLE_BIT_MASK, d) == has_bit(
            mask,
            d,
        ) by {
            lemma_bit_and(mask, POSSIBLE_BIT_MASK, d);
            lemma_bit_possible(d);
        }
        lemma_bits_equal(mask & POSSIBLE_BIT_MASK, mask);
    }
}

} // verus!
