use sudoku_solver::constants::{OFF, ON};
use sudoku_solver::sk_box::Box;

const BOX_EMPTY_POSS: [bool; 10] = [false; 10];

#[test]
fn test_ok_value_box() {
    // Ensure box with a single value passes
    let ok_value_box = Box::from_val(2);
    assert!(ok_value_box.check());
}

#[test]
#[should_panic]
// Checks that a box with no possible values will fail
fn test_no_poss_box() {
    let mut ok_no_value = Box::blank();
    ok_no_value.poss = BOX_EMPTY_POSS;

    assert!(ok_no_value.check());
}

#[test]
#[should_panic]
// Checks that values outside of the 0-9 range fail
fn test_bad_value_box() {
    let bad_value = Box {
        value: Some(11),
        poss: [false, false, false, false, false, false, false, false, false, false],
    };

    assert!(bad_value.check());
}

#[test]
#[should_panic]
// Checks for a box with a set value, but a possibles array that doesn't match.
fn test_bad_possibles_box() {
    let bad_value = Box {
        value: Some(4),
        poss: [false, true, false, false, false, true, false, false, false, false],
    };

    assert!(bad_value.check());
}

#[test]
#[should_panic]
// Checks that a box with no possibilities fails.
fn test_has_possibles_box() {
    let bad_value = Box {
        value: None,
        poss: [false, false, false, false, false, false, false, false, false, false],
    };

    assert!(bad_value.check());
}

#[test]
// Check that a boxes methods for updating and reading values stay consistent.
fn test_value_set_and_read() {
    let setter = Box::from_possibles(vec![1, 4, 7]);

    assert!(setter.poss == [false, true, false, false, true, false, false, true, false, false]);

    // Now we do the same but with a bit pattern.
    let bit_pattern: u16 = ON << 1 | OFF << 2 | ON << 4 | ON << 7;
    let setter = Box::from_possibles_bits(bit_pattern);

    assert_eq!(bit_pattern, setter.get_possibles_bits());

    assert!(setter.poss == [false, true, false, false, true, false, false, true, false, false]);
}

#[test]
// Check that converting back and forth from arrays of vals and bitmaps works.
fn test_possibles_bitmaps() {
    let test_box = Box::from_possibles([1, 3, 9].to_vec());

    assert_eq!(test_box.get_possibles_bits(), ON << 1 | ON << 3 | ON << 9);
}

#[test]
fn test_debug_print() {
    let test_box = Box::from_possibles([1, 3, 9].to_vec());
    assert_eq!(test_box.debug_string(), "[1.3.....9]");

    let test_box = Box::from_possibles([1, 9].to_vec());
    assert_eq!(test_box.debug_string(), "[1.......9]");

    let test_box = Box::from_val(1);
    assert_eq!(test_box.debug_string(), "[    1    ]");
}

#[test]
fn check_tells_the_four_kinds_of_bad_box_apart_from_good_ones() {
    assert!(Box::blank().check());
    assert!(Box::from_val(9).check());
    assert!(Box::from_possibles(vec![2, 5]).check());
    let mut zero_flag = Box::blank();
    zero_flag.poss[0] = true;
    assert!(!zero_flag.check());
    let zero_value = Box { value: Some(0), poss: BOX_EMPTY_POSS };
    assert!(!zero_value.check());
}

#[test]
fn from_val_zero_is_blank() {
    let b = Box::from_val(0);
    assert_eq!(b, Box::blank());
    assert_eq!(b.value, None);
    assert_eq!(b.get_possibles(), vec![1, 2, 3, 4, 5, 6, 7, 8, 9]);
    assert_eq!(b.get_possibles_bits(), 0b1111111110);
    assert!(!b.solved());
}

#[test]
fn set_val_leaves_one_possible_digit() {
    let mut b = Box::blank();
    b.set_val(7);
    assert_eq!(b.value, Some(7));
    assert_eq!(b.get_value(), Some(7));
    assert_eq!(b.get_possibles(), vec![7]);
    assert_eq!(b.get_possibles_bits(), 1 << 7);
    assert!(b.solved());
    assert!(b.is_poss(7));
    assert!(!b.is_poss(6));
}

#[test]
fn set_possibles_bits_of_one_digit_confirms_it() {
    let mut b = Box::blank();
    b.set_possibles_bits(1 << 9);
    assert_eq!(b, Box::from_val(9));
    let mut b = Box::blank();
    b.set_possibles_bits(1 << 1);
    assert_eq!(b, Box::from_val(1));
}

#[test]
fn set_possibles_of_one_digit_confirms_it() {
    let b = Box::from_possibles(vec![6]);
    assert_eq!(b, Box::from_val(6));
}

#[test]
fn remove_possible_bits_keeps_the_common_digits() {
    let mut b = Box::from_possibles(vec![1, 2, 3, 4]);
    b.remove_possible_bits(1 << 2 | 1 << 4 | 1 << 8);
    assert_eq!(b.value, None);
    assert_eq!(b.get_possibles(), vec![2, 4]);
    // one digit left: the place is confirmed
    b.remove_possible_bits(1 << 4 | 1 << 9);
    assert_eq!(b, Box::from_val(4));
}

#[test]
fn remove_impossible_bits_strikes_the_named_digits() {
    let mut b = Box::from_possibles(vec![1, 2, 3, 4]);
    b.remove_impossible_bits(1 << 1 | 1 << 9);
    assert_eq!(b.get_possibles(), vec![2, 3, 4]);
    b.remove_impossible_bits(1 << 2 | 1 << 3);
    assert_eq!(b, Box::from_val(4));
}

#[test]
fn remove_possible_value_strikes_one_digit_and_confirms_nothing() {
    let mut b = Box::from_possibles(vec![3, 8]);
    b.remove_possible_value(3);
    assert_eq!(b.value, None);
    assert_eq!(b.get_possibles(), vec![8]);
    b.remove_possible_value(8);
    assert_eq!(b.get_possibles(), Vec::<u16>::new());
    assert!(!b.check());
}

#[test]
fn invert_possible_bits_stays_within_the_digits() {
    assert_eq!(Box::invert_possible_bits(0), 0b1111111110);
    assert_eq!(Box::invert_possible_bits(0b1111111110), 0);
    assert_eq!(Box::invert_possible_bits(1 << 3 | 1 << 5), 0b1111010110);
    assert_eq!(Box::invert_possible_bits(0xFFFF), 0);
}

#[test]
fn characters_of_a_box() {
    let solved = Box::from_val(3);
    let open = Box::from_possibles(vec![2, 5]);
    assert_eq!(solved.get_c(), '3');
    assert_eq!(open.get_c(), '.');
    assert_eq!(solved.to_string(), "3");
    assert_eq!(open.to_string(), ".");
    assert_eq!(solved.get_pretty_c(5), '3');
    assert_eq!(solved.get_pretty_c(3), ' ');
    assert_eq!(open.get_pretty_c(5), '5');
    assert_eq!(open.get_pretty_c(2), '2');
    assert_eq!(open.get_pretty_c(3), '.');
}
