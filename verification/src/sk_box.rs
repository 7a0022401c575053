//! One place of the grid: a confirmed digit, or the digits still possible.
use crate::bits::{
    has_bit, is_digit_mask, lemma_bit_and, lemma_bit_not, lemma_bit_or, lemma_bit_possible,
    lemma_bit_single, lemma_bit_zero, lemma_bits_equal, lemma_digit_mask, mask_flags,
    POSSIBLE_BIT_MASK,
};
use crate::constants::ON;
use vstd::prelude::*;

verus! {

/// One place of the grid.
///
/// `value` is the confirmed digit, if there is one. `poss[d]` says whether
/// the digit `d` is still possible; `poss[0]` is unused.
#[derive(PartialEq, Copy, Clone, Debug)]
pub struct Box {
    pub value: Option<u8>,
    pub poss: [bool; 10],
}

/// What a [`Box`] holds, as mathematics: the confirmed digit and the ten flags.
#[verifier::ext_equal]
pub struct BoxView {
    pub value: Option<u8>,
    pub poss: Seq<bool>,
}

/// 1 for `true`, 0 for `false`.
pub open spec fn flag(b: bool) -> int {
    if b {
        1
    } else {
        0
    }
}

/// How many of the digits 1 to 9 are flagged in `p`.
pub open spec fn count_digits(p: Seq<bool>) -> int {
    flag(p[1]) + flag(p[2]) + flag(p[3]) + flag(p[4]) + flag(p[5]) + flag(p[6]) + flag(p[7]) + flag(
        p[8],
    ) + flag(p[9])
}

/// The lowest of the digits 1 to 9 that is flagged in `p`, or 0 if none is.
pub open spec fn lowest_digit(p: Seq<bool>) -> int {
    if p[1] {
        1
    } else if p[2] {
        2
    } else if p[3] {
        3
    } else if p[4] {
        4
    } else if p[5] {
        5
    } else if p[6] {
        6
    } else if p[7] {
        7
    } else if p[8] {
        8
    } else if p[9] {
        9
    } else {
        0
    }
}

/// The ten flags in which `d` alone is set.
pub open spec fn only(d: int) -> Seq<bool> {
    Seq::new(10, |e: int| e == d)
}

/// The ten flags in which exactly the listed digits are set.
pub open spec fn listed_flags(digits: Seq<u8>) -> Seq<bool> {
    Seq::new(10, |d: int| digits.contains(d as u8))
}

/// The character that shows the digit `x`.
pub open spec fn digit_char(x: u8) -> char {
    (48 + x) as u8 as char
}

/// The digit mask of the flags below `n`: bit `d` for each `d` in `1..n` with `p[d]`.
pub open spec fn mask_below(p: Seq<bool>, n: int) -> u16
    decreases n,
{
    if n <= 1 {
        0
    } else if p[n - 1] {
        mask_below(p, n - 1) | (1u16 << ((n - 1) as u16))
    } else {
        mask_below(p, n - 1)
    }
}

/// The digits below `n` that are flagged in `p`, in ascending order.
pub open spec fn digits_below(p: Seq<bool>, n: int) -> Seq<u16>
    decreases n,
{
    if n <= 1 {
        Seq::empty()
    } else if p[n - 1] {
        digits_below(p, n - 1).push((n - 1) as u16)
    } else {
        digits_below(p, n - 1)
    }
}

/// Bit `d` of `mask_below(p, n)` is set exactly for the flagged digits below `n`.
pub proof fn lemma_mask_below(p: Seq<bool>, n: int, d: int)
    requires
        n <= 16,
    ensures
        has_bit(mask_below(p, n), d) == (1 <= d < n && p[d]),
    decreases n,
{
    if n <= 1 {
        lemma_bit_zero(d);
    } else {
        lemma_mask_below(p, n - 1, d);
        if p[n - 1] {
            lemma_bit_or(mask_below(p, n - 1), 1u16 << ((n - 1) as u16), d);
            lemma_bit_single((n - 1) as u16, d);
        }
    }
}

/// `digits_below(p, n)` lists exactly the flagged digits below `n`, each once, in ascending order.
pub proof fn lemma_digits_below(p: Seq<bool>, n: int)
    requires
        n <= 16,
    ensures
        forall|k: int|
            0 <= k < digits_below(p, n).len() ==> 1 <= #[trigger] digits_below(p, n)[k] < n && p[digits_below(
                p,
                n,
            )[k] as int],
        forall|j: int, k: int|
            0 <= j < k < digits_below(p, n).len() ==> digits_below(p, n)[j] < digits_below(p, n)[k],
        forall|d: int| 1 <= d < n && p[d] ==> digits_below(p, n).contains(d as u16),
    decreases n,
{
    if n > 1 {
        lemma_digits_below(p, n - 1);
        let before = digits_below(p, n - 1);
        let all = digits_below(p, n);
        assert forall|d: int| 1 <= d < n && p[d] implies all.contains(d as u16) by {
            if d < n - 1 {
                let k = choose|k: int| 0 <= k < before.len() && before[k] == d as u16;
                assert(all[k] == d as u16);
            } else {
                assert(all[all.len() - 1] == d as u16);
            }
        }
    }
}

impl BoxView {
    /// Whether the digit `d` is still possible here.
    pub open spec fn can(self, d: int) -> bool {
        1 <= d <= 9 && self.poss[d]
    }

    /// The digits still possible, as a digit mask.
    pub open spec fn bits(self) -> u16 {
        mask_below(self.poss, 10)
    }

    /// A place with no digit confirmed and every digit possible.
    pub open spec fn blank() -> BoxView {
        BoxView { value: None, poss: Seq::new(10, |d: int| d != 0) }
    }

    /// A place confirmed as `d`, with `d` as the one possible digit.
    pub open spec fn solved_as(d: u8) -> BoxView {
        BoxView { value: Some(d), poss: only(d as int) }
    }

    /// The place after its possible digits are set to the flags `p`: where `p`
    /// holds one digit only, the place is confirmed as that digit; otherwise
    /// the confirmed digit stays as it was.
    pub open spec fn with_flags(self, p: Seq<bool>) -> BoxView {
        if count_digits(p) == 1 {
            BoxView::solved_as(lowest_digit(p) as u8)
        } else {
            BoxView { value: self.value, poss: p }
        }
    }

    /// The place after its possible digits are set to those listed in `digits`:
    /// a list of one digit confirms the place as that digit; otherwise the
    /// confirmed digit stays as it was.
    pub open spec fn with_listed(self, digits: Seq<u8>) -> BoxView {
        if digits.len() == 1 {
            BoxView::solved_as(digits[0])
        } else {
            BoxView { value: self.value, poss: listed_flags(digits) }
        }
    }

    /// The place after the digit `d` is struck from the possible ones.
    pub open spec fn without(self, d: int) -> BoxView {
        BoxView { value: self.value, poss: self.poss.update(d, false) }
    }

    /// The place's invariant: a confirmed digit lies in 1 to 9 and is the one
    /// possible digit; without a confirmed digit at least one digit is
    /// possible, and flag 0 is unset.
    pub open spec fn wf(self) -> bool {
        &&& self.poss.len() == 10
        &&& match self.value {
            Some(x) => 1 <= x <= 9 && self.poss =~= only(x as int),
            None => !self.poss[0] && count_digits(self.poss) >= 1,
        }
    }

    /// Whether `later` can follow `self` in a deduction: no digit has become
    /// possible again, and a confirmed place is still confirmed.
    pub open spec fn shrinks_to(self, later: BoxView) -> bool {
        &&& forall|d: int| 0 <= d < 10 && later.poss[d] ==> self.poss[d]
        &&& self.value.is_some() ==> later.value.is_some()
    }
}

impl View for Box {
    type V = BoxView;

    open spec fn view(&self) -> BoxView {
        BoxView { value: self.value, poss: self.poss@ }
    }
}

/// Two places with the same view are the same place.
pub proof fn lemma_box_ext(a: Box, b: Box)
    requires
        a@ == b@,
    ensures
        a == b,
{
    assert(a.poss@ == b.poss@);
    assert(a.poss =~= b.poss);
}

/// The bits of a place's mask are its possible digits.
pub proof fn lemma_bits(v: BoxView)
    ensures
        is_digit_mask(v.bits()),
        forall|d: int| has_bit(v.bits(), d) == v.can(d),
        v.bits() != 0 <==> count_digits(v.poss) >= 1,
        mask_flags(v.bits()) =~= Seq::new(10, |d: int| v.can(d)),
{
    assert forall|d: int| #[trigger] has_bit(v.bits(), d) == v.can(d) by {
        lemma_mask_below(v.poss, 10, d);
    }
    lemma_digit_mask(v.bits());
    if v.bits() == 0 {
        assert forall|d: int| 1 <= d <= 9 implies !#[trigger] v.poss[d] by {
            lemma_bit_zero(d);
            assert(has_bit(v.bits(), d) == v.can(d));
        }
    } else if count_digits(v.poss) == 0 {
        assert forall|d: int| 0 <= d < 16 implies #[trigger] has_bit(v.bits(), d) == has_bit(0, d) by {
            lemma_bit_zero(d);
            assert(has_bit(v.bits(), d) == v.can(d));
        }
        lemma_bits_equal(v.bits(), 0);
    }
}

/// A digit mask holds one digit only exactly when it is one of the nine powers of two.
pub proof fn lemma_single_digit(mask: u16)
    requires
        is_digit_mask(mask),
    ensures
        count_digits(mask_flags(mask)) == 1 <==> (mask != 0 && mask == mask & !((mask - 1) as u16)),
        count_digits(mask_flags(mask)) == 1 ==> mask == 1u16 << (lowest_digit(mask_flags(mask)) as u16),
        mask != 0 <==> count_digits(mask_flags(mask)) >= 1,
        !mask_flags(mask)[0],
{
    let p = mask_flags(mask);
    lemma_digit_mask(mask);
    assert(!p[0]);
    if mask == 0 {
        assert forall|d: int| 1 <= d <= 9 implies !p[d] by {
            lemma_bit_zero(d);
        }
    } else if count_digits(p) == 0 {
        assert forall|d: int| 0 <= d < 16 implies has_bit(mask, d) == has_bit(0, d) by {
            lemma_bit_zero(d);
        }
        lemma_bits_equal(mask, 0);
    }
    if count_digits(p) == 1 {
        let k = lowest_digit(p);
        assert forall|d: int| 0 <= d < 16 implies has_bit(mask, d) == has_bit(1u16 << (k as u16), d) by {
            lemma_bit_single(k as u16, d);
            if d < 10 {
                assert(p[d] == has_bit(mask, d));
            }
        }
        lemma_bits_equal(mask, 1u16 << (k as u16));
    }
    if mask != 0 {
        assert((mask == mask & !((mask - 1) as u16)) <==> (mask == 2 || mask == 4 || mask == 8 || mask
            == 16 || mask == 32 || mask == 64 || mask == 128 || mask == 256 || mask == 512)) by {
            let below: u16 = (mask - 1) as u16;
            assert((mask == mask & !below) <==> (mask == 2 || mask == 4 || mask == 8 || mask == 16
                || mask == 32 || mask == 64 || mask == 128 || mask == 256 || mask == 512))
                by (bit_vector)
                requires
                    mask != 0,
                    below == mask - 1,
                    mask & 0b1111111110u16 == mask,
            ;
        }
        if mask == 2 || mask == 4 || mask == 8 || mask == 16 || mask == 32 || mask == 64 || mask
            == 128 || mask == 256 || mask == 512 {
            let k: u16 = if mask == 2 {
                1
            } else if mask == 4 {
                2
            } else if mask == 8 {
                3
            } else if mask == 16 {
                4
            } else if mask == 32 {
                5
            } else if mask == 64 {
                6
            } else if mask == 128 {
                7
            } else if mask == 256 {
                8
            } else {
                9
            };
            assert(mask == 1u16 << k) by (bit_vector)
                requires
                    (mask == 2 && k == 1) || (mask == 4 && k == 2) || (mask == 8 && k == 3) || (mask
                        == 16 && k == 4) || (mask == 32 && k == 5) || (mask == 64 && k == 6) || (
                    mask == 128 && k == 7) || (mask == 256 && k == 8) || (mask == 512 && k == 9),
            ;
            assert forall|d: int| 0 <= d < 10 implies p[d] == (d == k) by {
                lemma_bit_single(k, d);
            }
        } else if count_digits(p) == 1 {
            let k = lowest_digit(p);
            assert(mask == 1u16 << (k as u16));
            let j: u16 = k as u16;
            assert(false) by {
                assert(mask == 2 || mask == 4 || mask == 8 || mask == 16 || mask == 32 || mask == 64
                    || mask == 128 || mask == 256 || mask == 512) by (bit_vector)
                    requires
                        mask == 1u16 << j,
                        1 <= j <= 9,
                ;
            }
        }
    }
}

impl Box {
    /// A place with no digit confirmed and every digit possible.
    pub fn blank() -> (result: Box)
        ensures
            result@ == BoxView::blank(),
            result@.wf(),
    {
        let result = Box {
            value: None,
            poss: [false, true, true, true, true, true, true, true, true, true],
        };
        assert(result@.poss =~= BoxView::blank().poss);
        result
    }

    /// A place confirmed as `x`, or a blank place where `x` is 0.
    pub fn from_val(x: u8) -> (result: Box)
        requires
            x <= 9,
        ensures
            result@ == (if x == 0 {
                BoxView::blank()
            } else {
                BoxView::solved_as(x)
            }),
            result@.wf(),
    {
        let mut result = Box::blank();
        if x != 0 {
            result.set_val(x);
        }
        result
    }

    /// Confirms the place as `x` and leaves `x` as its one possible digit.
    pub fn set_val(&mut self, x: u8)
        requires
            1 <= x <= 9,
        ensures
            final(self)@ == BoxView::solved_as(x),
            final(self)@.wf(),
    {
        self.value = Some(x);
        self.poss = [false, false, false, false, false, false, false, false, false, false];
        self.poss[x as usize] = true;
        assert(self@.poss =~= only(x as int));
    }

    /// A place without a confirmed digit whose possible digits are those
    /// listed; a list of one digit gives a place confirmed as that digit.
    pub fn from_possibles(possibles: Vec<u8>) -> (result: Box)
        requires
            1 <= possibles.len() <= 9,
            forall|i: int| 0 <= i < possibles.len() ==> 1 <= #[trigger] possibles[i] <= 9,
        ensures
            result@ == BoxView::blank().with_listed(possibles@),
            result@.wf(),
    {
        let mut new_box = Box::blank();
        new_box.set_possibles(possibles);
        new_box
    }

    /// Sets the possible digits to those listed. A list of one digit confirms
    /// the place as that digit; a longer list is for a place that has no
    /// confirmed digit, and leaves it without one.
    pub fn set_possibles(&mut self, possibles: Vec<u8>)
        requires
            1 <= possibles.len() <= 9,
            forall|i: int| 0 <= i < possibles.len() ==> 1 <= #[trigger] possibles[i] <= 9,
            possibles.len() != 1 ==> old(self).value.is_none(),
        ensures
            final(self)@ == old(self)@.with_listed(possibles@),
            final(self)@.wf(),
    {
        if possibles.len() == 1 {
            self.set_val(possibles[0]);
        } else {
            self.poss = [false, false, false, false, false, false, false, false, false, false];
            let mut i: usize = 0;
            while i < possibles.len()
                invariant
                    0 <= i <= possibles.len(),
                    self.value == old(self).value,
                    forall|j: int| 0 <= j < possibles.len() ==> 1 <= #[trigger] possibles[j] <= 9,
                    forall|d: int|
                        0 <= d < 10 ==> self.poss[d] == possibles@.subrange(0, i as int).contains(
                            d as u8,
                        ),
                decreases possibles.len() - i,
            {
                let x = possibles[i];
                self.poss[x as usize] = true;
                proof {
                    let before = possibles@.subrange(0, i as int);
                    let after = possibles@.subrange(0, i as int + 1);
                    assert(after =~= before.push(x));
                    assert forall|d: int| 0 <= d < 10 implies self.poss[d] == after.contains(
                        d as u8,
                    ) by {
                        if d == x {
                            assert(after[i as int] == x);
                        } else if before.contains(d as u8) {
                            let j = choose|j: int| 0 <= j < before.len() && before[j] == d as u8;
                            assert(after[j] == d as u8);
                        } else if after.contains(d as u8) {
                            let j = choose|j: int| 0 <= j < after.len() && after[j] == d as u8;
                            assert(before[j] == d as u8);
                        }
                    }
                }
                i += 1;
            }
            assert(possibles@.subrange(0, i as int) =~= possibles@);
            assert(self@.poss =~= listed_flags(possibles@));
            assert(possibles@.contains(possibles@[0]));
            assert(self@.poss[possibles@[0] as int]);
            assert forall|j: int| 0 <= j < possibles.len() implies possibles@[j] != 0 by {
                assert(1 <= possibles[j]);
            }
        }
    }

    /// Keeps of the possible digits those that `possible_bits` holds too.
    pub fn remove_possible_bits(&mut self, possible_bits: u16)
        requires
            old(self)@.bits() & possible_bits != 0,
        ensures
            final(self)@ == old(self)@.with_flags(mask_flags(old(self)@.bits() & possible_bits)),
            old(self)@.wf() ==> final(self)@.wf(),
    {
        let curr_poss = self.get_possibles_bits();
        proof {
            lemma_bits(self@);
            lemma_keeps_digit_mask(curr_poss, possible_bits);
            lemma_part_keeps_wf(self@, curr_poss & possible_bits, possible_bits);
        }
        self.set_possibles_bits(curr_poss & possible_bits);
    }

    /// The digits of 1 to 9 that `possible_bits` does not hold.
    pub fn invert_possible_bits(possible_bits: u16) -> (result: u16)
        ensures
            result == !possible_bits & POSSIBLE_BIT_MASK,
            is_digit_mask(result),
            forall|d: int| has_bit(result, d) == (1 <= d <= 9 && !has_bit(possible_bits, d)),
    {
        let mut inverted_bits = !possible_bits;
        inverted_bits = inverted_bits & POSSIBLE_BIT_MASK;
        proof {
            assert forall|d: int| has_bit(inverted_bits, d) == (1 <= d <= 9 && !has_bit(
                possible_bits,
                d,
            )) by {
                lemma_bit_and(!possible_bits, POSSIBLE_BIT_MASK, d);
                lemma_bit_possible(d);
                if 0 <= d < 16 {
                    lemma_bit_not(possible_bits, d);
                }
            }
            lemma_digit_mask(inverted_bits);
        }
        inverted_bits
    }

    /// Strikes the digit `value` from the possible ones; nothing else changes.
    pub fn remove_possible_value(&mut self, value: u16)
        requires
            value <= 9,
        ensures
            final(self)@ == old(self)@.without(value as int),
    {
        self.poss[value as usize] = false;
    }

    /// Strikes from the possible digits those that `impossible_bits` holds.
    pub fn remove_impossible_bits(&mut self, impossible_bits: u16)
        requires
            old(self)@.bits() & !impossible_bits != 0,
        ensures
            final(self)@ == old(self)@.with_flags(mask_flags(old(self)@.bits() & !impossible_bits)),
            old(self)@.wf() ==> final(self)@.wf(),
    {
        let curr_poss = self.get_possibles_bits();
        proof {
            lemma_bits(self@);
            lemma_keeps_digit_mask(curr_poss, !impossible_bits);
            lemma_part_keeps_wf(self@, curr_poss & !impossible_bits, !impossible_bits);
        }
        self.set_possibles_bits(curr_poss & !impossible_bits);
    }

    /// A place without a confirmed digit whose possible digits are those of `possibles`.
    pub fn from_possibles_bits(possibles: u16) -> (result: Box)
        requires
            possibles != 0,
            is_digit_mask(possibles),
        ensures
            result@ == BoxView::blank().with_flags(mask_flags(possibles)),
            result@.wf(),
    {
        let mut new_box = Box::blank();
        new_box.set_possibles_bits(possibles);
        new_box
    }

    /// Sets the possible digits to those of the digit mask `possibles`. A mask
    /// of one digit confirms the place as that digit.
    pub fn set_possibles_bits(&mut self, possibles: u16)
        requires
            possibles != 0,
            is_digit_mask(possibles),
        ensures
            final(self)@ == old(self)@.with_flags(mask_flags(possibles)),
            old(self)@.value.is_none() ==> final(self)@.wf(),
    {
        proof {
            lemma_single_digit(possibles);
        }
        if possibles == possibles & (!(possibles - 1)) {
            proof {
                let k: u16 = lowest_digit(mask_flags(possibles)) as u16;
                assert(possibles == 1u16 << k);
                assert(possibles == 2 || possibles == 4 || possibles == 8 || possibles == 16
                    || possibles == 32 || possibles == 64 || possibles == 128 || possibles == 256
                    || possibles == 512) by (bit_vector)
                    requires
                        possibles == 1u16 << k,
                        1 <= k <= 9,
                ;
                assert forall|j: u16| 1 <= j <= 9 && possibles == 1u16 << j implies j == k by {
                    lemma_bit_single(j, k as int);
                    lemma_bit_single(k, k as int);
                }
                assert(2 == 1u16 << 1 && 4 == 1u16 << 2 && 8 == 1u16 << 3 && 16 == 1u16 << 4 && 32
                    == 1u16 << 5 && 64 == 1u16 << 6 && 128 == 1u16 << 7 && 256 == 1u16 << 8 && 512
                    == 1u16 << 9) by (bit_vector);
            }
            match possibles {
                0b10 => self.set_val(1),
                0b100 => self.set_val(2),
                0b1000 => self.set_val(3),
                0b10000 => self.set_val(4),
                0b100000 => self.set_val(5),
                0b1000000 => self.set_val(6),
                0b10000000 => self.set_val(7),
                0b100000000 => self.set_val(8),
                0b1000000000 => self.set_val(9),
                _ => {
                    assert(false);
                },
            }
        } else {
            let mut n: usize = 0;
            while n <= 9
                invariant
                    0 <= n <= 10,
                    self.value == old(self).value,
                    forall|d: int| 0 <= d < n ==> self.poss[d] == has_bit(possibles, d),
                decreases 10 - n,
            {
                self.poss[n] = (possibles >> n & 0b1) == 0b1;
                n = n + 1;
            }
            assert(self@.poss =~= mask_flags(possibles));
        }
    }

    /// The possible digits, in ascending order.
    pub fn get_possibles(&self) -> (result: Vec<u16>)
        ensures
            result@ == digits_below(self@.poss, 10),
    {
        let mut result: Vec<u16> = Vec::new();
        let mut x: usize = 1;
        while x < 10
            invariant
                1 <= x <= 10,
                result@ == digits_below(self@.poss, x as int),
            decreases 10 - x,
        {
            if self.poss[x] {
                result.push(x as u16);
            }
            x += 1;
        }
        result
    }

    /// Whether the digit `value` is flagged as possible.
    pub fn is_poss(&self, value: u8) -> (result: bool)
        requires
            value <= 9,
        ensures
            result == self@.poss[value as int],
    {
        self.poss[value as usize]
    }

    /// The possible digits, as a digit mask: bit `d` is set where `d` is possible.
    pub fn get_possibles_bits(&self) -> (result: u16)
        ensures
            result == self@.bits(),
    {
        let mut result: u16 = 0;
        let mut x: usize = 1;
        while x < 10
            invariant
                1 <= x <= 10,
                result == mask_below(self@.poss, x as int),
            decreases 10 - x,
        {
            if self.poss[x] {
                result |= ON << x;
            }
            x += 1;
        }
        result
    }

    /// Whether the place keeps its invariant.
    pub fn check(self) -> (result: bool)
        ensures
            result == self@.wf(),
    {
        match self.value {
            Some(x) => {
                if x < 1 || x > 9 {
                    return false;
                }
                let mut d: usize = 0;
                while d < 10
                    invariant
                        0 <= d <= 10,
                        1 <= x <= 9,
                        self.value == Some(x),
                        forall|e: int| 0 <= e < d ==> self.poss[e] == (e == x),
                    decreases 10 - d,
                {
                    if self.poss[d] != (d == x as usize) {
                        assert(self@.poss[d as int] != only(x as int)[d as int]);
                        return false;
                    }
                    d += 1;
                }
                assert(self@.poss =~= only(x as int));
                true
            },
            None => {
                if self.poss[0] {
                    return false;
                }
                let mut found_true = false;
                let mut d: usize = 1;
                while d < 10
                    invariant
                        1 <= d <= 10,
                        found_true == exists|e: int| 1 <= e < d && self.poss[e],
                    decreases 10 - d,
                {
                    found_true = found_true || self.poss[d];
                    d += 1;
                }
                found_true
            },
        }
    }

    /// The character that shows the place in a plain listing: its confirmed
    /// digit, or a dot.
    pub fn get_c(&self) -> (result: char)
        requires
            self.value matches Some(x) ==> x <= 9,
        ensures
            result == (match self.value {
                Some(x) => digit_char(x),
                None => '.',
            }),
    {
        match self.value {
            Some(x) => (48u8 + x) as char,
            None => '.',
        }
    }

    /// The character that shows the place at `value`'s spot of its 3×3
    /// picture. A confirmed place shows its digit at the middle spot and
    /// blanks around it; another shows `value` where it is possible, else a dot.
    pub fn get_pretty_c(&self, value: u8) -> (result: char)
        requires
            value <= 9,
            self.value matches Some(x) ==> x <= 9,
        ensures
            result == (match self.value {
                Some(x) => if value == 5 {
                    digit_char(x)
                } else {
                    ' '
                },
                None => if self@.poss[value as int] {
                    digit_char(value)
                } else {
                    '.'
                },
            }),
    {
        if self.solved() {
            if value == 5 {
                match self.value {
                    Some(x) => (48u8 + x) as char,
                    None => ' ',
                }
            } else {
                ' '
            }
        } else if self.is_poss(value) {
            (48u8 + value) as char
        } else {
            '.'
        }
    }

    /// Whether a digit is confirmed.
    pub fn solved(&self) -> (result: bool)
        ensures
            result == self@.value.is_some(),
    {
        self.value.is_some()
    }

    /// The confirmed digit, if there is one.
    pub fn get_value(&self) -> (result: Option<u8>)
        ensures
            result == self@.value,
    {
        self.value
    }
}

/// A place that keeps its invariant keeps it when its possible digits are
/// set to some of those it had, as long as one is left.
pub proof fn lemma_part_keeps_wf(v: BoxView, part: u16, other: u16)
    requires
        part == v.bits() & other,
        part != 0,
    ensures
        v.wf() ==> v.with_flags(mask_flags(part)).wf(),
{
    lemma_bits(v);
    lemma_keeps_digit_mask(v.bits(), other);
    lemma_single_digit(part);
    if v.wf() {
        let p = mask_flags(part);
        assert forall|d: int| 0 <= d < 10 && p[d] implies v.can(d) by {
            lemma_bit_and(v.bits(), other, d);
            assert(has_bit(v.bits(), d) == v.can(d));
        }
        if v.value.is_some() && count_digits(p) != 1 {
            assert(false);
        }
    }
}

/// Meeting a digit mask with any mask gives a digit mask.
pub proof fn lemma_keeps_digit_mask(mask: u16, other: u16)
    requires
        is_digit_mask(mask),
    ensures
        is_digit_mask(mask & other),
{
    lemma_digit_mask(mask);
    assert forall|d: int| has_bit(mask & other, d) implies 1 <= d <= 9 by {
        lemma_bit_and(mask, other, d);
    }
    lemma_digit_mask(mask & other);
}

} // verus!
