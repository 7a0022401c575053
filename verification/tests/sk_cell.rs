use sudoku_solver::constants::{ARRAY_OF_9, BOT_RHT, TOP_LFT};
use sudoku_solver::single::single_position_array;
use sudoku_solver::sk_box::Box;
use sudoku_solver::sk_cell::{array_check, unsolved_values, Cell};
use sudoku_solver::sudoku::Sudoku;

// The grid of the easy puzzle that the row and column tests read.
const SIMPLE: &str = "\
...26.7.1\
68..7..9.\
19...45..\
82.1...4.\
..46.29..\
.5...3.28\
..93...74\
.4..5..36\
7.3.18...";

#[test]
// Check that we can solve a box when there's only one value left.
fn test_last_value_box() {
    let mut test_cell: Cell = Cell {
        boxes: [
            Box::blank(),
            Box::from_val(2),
            Box::from_val(3),
            Box::from_val(4),
            Box::from_val(5),
            Box::from_val(6),
            Box::from_val(7),
            Box::from_val(8),
            Box::from_val(9),
        ],
    };

    single_position_array(test_cell.get_mut());

    assert!(test_cell.boxes[TOP_LFT].value == Some(1));
}

#[test]
fn test_set() {
    let mut test_cell: Cell = Cell { boxes: [Box::blank(); 9] };

    test_cell.set(ARRAY_OF_9);
    assert!(test_cell.boxes[TOP_LFT].value == Some(1));
    assert!(test_cell.boxes[BOT_RHT].value == Some(9));
}

#[test]
fn test_bitmap_possibles() {
    let sudoku = Sudoku::from_line(&SIMPLE.to_string());

    let possibles = sudoku.cells[0].bitmap_possibles();

    // Value 1 should only be possible in cell 7.
    assert_eq!(possibles[1], 1 << (7 - 1));

    // Value 2 should only be possible in cells 1, 2, 3, 6, and 9
    assert_eq!(possibles[2], 0b100100111);

    // Value 3 should only be possible in cells 1, 2, 3, 6, and 9
    assert_eq!(possibles[2], 0b100100111);
}

#[test]
fn set_takes_zero_as_blank() {
    let mut cell = Cell::blank();
    cell.set([0, 2, 0, 4, 0, 6, 0, 8, 0]);
    assert_eq!(cell.boxes[0], Box::blank());
    assert_eq!(cell.boxes[1], Box::from_val(2));
    assert_eq!(cell.boxes[8], Box::blank());
    assert!(!cell.solved());
    cell.set(ARRAY_OF_9);
    assert!(cell.solved());
    assert!(cell.check());
    assert_eq!(cell.to_string(), "[123456789]");
}

#[test]
fn bitmap_possibles_of_a_blank_block() {
    let cell = Cell::blank();
    let possibles = cell.bitmap_possibles();
    assert_eq!(possibles[0], 0);
    for d in 1..10 {
        assert_eq!(possibles[d], 0b111111111);
    }
}

#[test]
fn rm_poss_from_row_and_col_touch_three_places() {
    let mut cell = Cell::blank();
    cell.rm_poss_from_row(4, 1);
    for i in 0..9 {
        assert_eq!(cell.boxes[i].is_poss(4), i / 3 != 1);
        assert!(cell.boxes[i].is_poss(5));
    }
    cell.rm_poss_from_col(5, 2);
    for i in 0..9 {
        assert_eq!(cell.boxes[i].is_poss(5), i % 3 != 2);
    }
}

#[test]
fn unsolved_values_lists_the_missing_digits() {
    let mut cell = Cell::blank();
    cell.set([0, 2, 0, 4, 0, 6, 0, 8, 0]);
    let (values, count) = unsolved_values(&cell.get_mut());
    assert_eq!(count, 5);
    assert_eq!(values, [1, 3, 5, 7, 9, 0, 0, 0, 0]);
    cell.set(ARRAY_OF_9);
    let (values, count) = unsolved_values(&cell.get_mut());
    assert_eq!(count, 0);
    assert_eq!(values, [0; 9]);
    let (values, count) = unsolved_values(&Vec::new());
    assert_eq!(count, 9);
    assert_eq!(values, ARRAY_OF_9);
}

#[test]
fn array_check_finds_a_repeated_digit() {
    let mut cell = Cell::blank();
    cell.set([1, 0, 0, 0, 1, 0, 0, 0, 0]);
    assert!(!array_check(cell.boxes, false));
    assert!(!cell.check());
    cell.set([1, 0, 0, 0, 2, 0, 0, 0, 0]);
    assert!(array_check(cell.boxes, false));
}

#[test]
fn array_check_strict_wants_each_digit_placed_or_possible_not_both() {
    let mut cell = Cell::blank();
    cell.set([1, 0, 0, 0, 2, 0, 0, 0, 0]);
    // 1 is confirmed and still possible elsewhere
    assert!(!array_check(cell.boxes, true));
    single_position_array(cell.get_mut());
    assert!(array_check(cell.boxes, true));
    // 9 is neither confirmed nor possible
    for i in 0..9 {
        cell.boxes[i].remove_possible_value(9);
    }
    assert!(array_check(cell.boxes, false));
    assert!(!array_check(cell.boxes, true));
}

#[test]
fn get_mut_hands_out_the_nine_places_in_order() {
    let mut cell = Cell::blank();
    cell.set([0, 2, 0, 4, 0, 6, 0, 8, 0]);
    {
        let mut boxes = cell.get_mut();
        assert_eq!(boxes.len(), 9);
        assert_eq!(*boxes[1], Box::from_val(2));
        assert_eq!(*boxes[8], Box::blank());
        *boxes[0] = Box::from_val(1);
        boxes[8].set_val(9);
    }
    assert_eq!(cell.boxes[0], Box::from_val(1));
    assert_eq!(cell.boxes[8], Box::from_val(9));
    assert_eq!(cell.boxes[4], Box::blank());
}
