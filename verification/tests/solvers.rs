use sudoku_solver::combinations::combo;
use sudoku_solver::constants::{
    BOT_MID, BOT_RHT, MID_LFT, MID_MID, MID_RHT, ON, TOP_LFT, TOP_MID, TOP_RHT,
};
use sudoku_solver::naked::{can_naked_set_boxes, naked_set_array, naked_set_boxes, try_naked_set_boxes};
use sudoku_solver::single::{
    can_single_position, single_candidate_boxes, single_position_array, single_position_boxes,
    single_position_candidate,
};
use sudoku_solver::sk_box::Box;
use sudoku_solver::solvers::{candidate_line, naked_set, normalise, single_position};
use sudoku_solver::sudoku::Sudoku;

// In the top middle block 4, 5 and 6 can only stand in the middle row; in
// the middle right block 7, 8 and 9 can only stand in the middle column.
const CANDIDATE_LINE: &str = "\
...123...\
.........\
...789...\
......1.4\
......2.5\
......3.6\
.........\
.........\
.........";

// Each of the three places asked about is the last open one of its row or column.
const EASY_SOLVE: &str = "\
.23456789\
....7....\
....8....\
....2....\
.........\
....3....\
....4....\
....9....\
23456789.";

#[test]
fn solvers_test_last_value_line() {
    let mut line = Vec::new();

    let mut box1 = Box::blank();
    let mut box2 = Box::from_val(2);
    let mut box3 = Box::from_val(3);
    let mut box4 = Box::from_val(4);
    let mut box5 = Box::from_val(5);
    let mut box6 = Box::from_val(6);
    let mut box7 = Box::from_val(7);
    let mut box8 = Box::from_val(8);
    let mut box9 = Box::from_val(9);

    line.push(&mut box1);
    line.push(&mut box2);
    line.push(&mut box3);
    line.push(&mut box4);
    line.push(&mut box5);
    line.push(&mut box6);
    line.push(&mut box7);
    line.push(&mut box8);
    line.push(&mut box9);

    // The nine places need not come from one block: they are handed over
    // by reference and changed in place.
    single_position_array(line);

    assert!(box1.value == Some(1));
}

#[test]
fn test_remove_possibles() {
    let mut line = Vec::new();

    let mut box1 = Box::blank();
    let mut box2 = Box::from_val(2);
    let mut box3 = Box::from_val(3);
    let mut box4 = Box::from_val(4);
    let mut box5 = Box::blank();
    let mut box6 = Box::from_val(6);
    let mut box7 = Box::from_val(7);
    let mut box8 = Box::from_val(8);
    let mut box9 = Box::blank();

    line.push(&mut box1);
    line.push(&mut box2);
    line.push(&mut box3);
    line.push(&mut box4);
    line.push(&mut box5);
    line.push(&mut box6);
    line.push(&mut box7);
    line.push(&mut box8);
    line.push(&mut box9);

    single_position_array(line);

    assert!(box1.get_possibles() == [1, 5, 9]);
    assert!(box5.get_possibles() == [1, 5, 9]);
    assert!(box9.get_possibles() == [1, 5, 9]);
}

#[test]
fn solvers_test_simple_combo() {
    let result = combo(&[1, 2, 3, 4], 2);
    // Combos we want to see are:
    // 1,2 / 1,3 / 1,4 / 2,3 / 2,4 / 3,4
    assert_eq!(result.len(), 6);
    assert!(result.contains(&(ON << 1 | ON << 2)));
    assert!(result.contains(&(ON << 1 | ON << 3)));
    assert!(result.contains(&(ON << 1 | ON << 4)));
    assert!(result.contains(&(ON << 2 | ON << 3)));
    assert!(result.contains(&(ON << 2 | ON << 4)));
    assert!(result.contains(&(ON << 3 | ON << 4)));
}

#[test]
fn solvers_test_complex_combo() {
    let result = combo(&[1, 2, 3, 4, 5, 6, 7, 8, 9], 4);
    // There are 126 possible combinations of 4 objects from a pool of 9.
    assert_eq!(result.len(), 126);
}

fn factor_2_line() -> [Box; 9] {
    [
        Box::from_possibles([1, 2].to_vec()),
        Box::from_possibles([1, 2].to_vec()),
        Box::from_possibles([1, 2, 3].to_vec()),
        Box::from_possibles([1, 2, 4].to_vec()),
        Box::from_possibles([1, 2, 5].to_vec()),
        Box::from_possibles([1, 2, 6].to_vec()),
        Box::from_possibles([1, 2, 7].to_vec()),
        Box::from_possibles([1, 2, 8].to_vec()),
        Box::from_possibles([1, 2, 9].to_vec()),
    ]
}

fn factor_3_line() -> [Box; 9] {
    [
        Box::from_possibles([1, 2, 3].to_vec()),
        Box::from_possibles([1, 2, 3].to_vec()),
        Box::from_possibles([1, 2, 3].to_vec()),
        Box::from_possibles([1, 2, 4].to_vec()),
        Box::from_possibles([1, 2, 5].to_vec()),
        Box::from_possibles([1, 2, 6].to_vec()),
        Box::from_possibles([1, 2, 7].to_vec()),
        Box::from_possibles([1, 2, 8].to_vec()),
        Box::from_possibles([1, 2, 9].to_vec()),
    ]
}

fn factor_4_line() -> [Box; 9] {
    [
        Box::from_possibles([1, 2, 3, 4].to_vec()),
        Box::from_possibles([1, 2, 3, 4].to_vec()),
        Box::from_possibles([1, 2, 3, 4].to_vec()),
        Box::from_possibles([1, 2, 3, 4].to_vec()),
        Box::from_possibles([1, 2, 3, 5].to_vec()),
        Box::from_possibles([1, 3, 6].to_vec()),
        Box::from_possibles([1, 2, 7].to_vec()),
        Box::from_possibles([1, 3, 8].to_vec()),
        Box::from_possibles([1, 2, 9].to_vec()),
    ]
}

fn factor_5_line() -> [Box; 9] {
    [
        Box::from_possibles([1, 2, 3, 4, 5].to_vec()),
        Box::from_possibles([1, 2, 3, 4, 5].to_vec()),
        Box::from_possibles([1, 2, 3, 4, 5].to_vec()),
        Box::from_possibles([1, 2, 3, 4, 5].to_vec()),
        Box::from_possibles([1, 2, 3, 4, 5].to_vec()),
        Box::from_possibles([1, 5, 6].to_vec()),
        Box::from_possibles([1, 2, 7].to_vec()),
        Box::from_possibles([5, 3, 8].to_vec()),
        Box::from_possibles([4, 2, 9].to_vec()),
    ]
}

#[test]
fn solvers_test_box_simplification_factor_2() {
    let mut line = Vec::new();

    let mut box1 = Box::from_possibles([1, 2].to_vec());
    let mut box2 = Box::from_possibles([1, 2].to_vec());
    let mut box3 = Box::from_possibles([1, 2, 3].to_vec());
    let mut box4 = Box::from_possibles([1, 2, 4].to_vec());
    let mut box5 = Box::from_possibles([1, 2, 5].to_vec());
    let mut box6 = Box::from_possibles([1, 2, 6].to_vec());
    let mut box7 = Box::from_possibles([1, 2, 7].to_vec());
    let mut box8 = Box::from_possibles([1, 2, 8].to_vec());
    let mut box9 = Box::from_possibles([1, 2, 9].to_vec());

    line.push(&mut box1);
    line.push(&mut box2);
    line.push(&mut box3);
    line.push(&mut box4);
    line.push(&mut box5);
    line.push(&mut box6);
    line.push(&mut box7);
    line.push(&mut box8);
    line.push(&mut box9);

    naked_set_array(line);

    assert_eq!(box3.get_possibles(), [3]);
    assert_eq!(box4.get_possibles(), [4]);
    assert_eq!(box5.get_possibles(), [5]);
    assert_eq!(box6.get_possibles(), [6]);
    assert_eq!(box7.get_possibles(), [7]);
    assert_eq!(box8.get_possibles(), [8]);
    assert_eq!(box9.get_possibles(), [9]);
}

#[test]
fn solvers_test_box_simplification_factor_3() {
    let mut line = Vec::new();

    let mut box1 = Box::from_possibles([1, 2, 3].to_vec());
    let mut box2 = Box::from_possibles([1, 2, 3].to_vec());
    let mut box3 = Box::from_possibles([1, 2, 3].to_vec());
    let mut box4 = Box::from_possibles([1, 2, 4].to_vec());
    let mut box5 = Box::from_possibles([1, 2, 5].to_vec());
    let mut box6 = Box::from_possibles([1, 2, 6].to_vec());
    let mut box7 = Box::from_possibles([1, 2, 7].to_vec());
    let mut box8 = Box::from_possibles([1, 2, 8].to_vec());
    let mut box9 = Box::from_possibles([1, 2, 9].to_vec());

    line.push(&mut box1);
    line.push(&mut box2);
    line.push(&mut box3);
    line.push(&mut box4);
    line.push(&mut box5);
    line.push(&mut box6);
    line.push(&mut box7);
    line.push(&mut box8);
    line.push(&mut box9);

    naked_set_array(line);

    assert_eq!(box4.get_possibles(), [4]);
    assert_eq!(box5.get_possibles(), [5]);
    assert_eq!(box6.get_possibles(), [6]);
    assert_eq!(box7.get_possibles(), [7]);
    assert_eq!(box8.get_possibles(), [8]);
    assert_eq!(box9.get_possibles(), [9]);
}

#[test]
fn solvers_test_box_simplification_factor_4() {
    let mut line = Vec::new();

    let mut box1 = Box::from_possibles([1, 2, 3, 4].to_vec());
    let mut box2 = Box::from_possibles([1, 2, 3, 4].to_vec());
    let mut box3 = Box::from_possibles([1, 2, 3, 4].to_vec());
    let mut box4 = Box::from_possibles([1, 2, 3, 4].to_vec());
    let mut box5 = Box::from_possibles([1, 2, 3, 5].to_vec());
    let mut box6 = Box::from_possibles([1, 3, 6].to_vec());
    let mut box7 = Box::from_possibles([1, 2, 7].to_vec());
    let mut box8 = Box::from_possibles([1, 3, 8].to_vec());
    let mut box9 = Box::from_possibles([1, 2, 9].to_vec());

    line.push(&mut box1);
    line.push(&mut box2);
    line.push(&mut box3);
    line.push(&mut box4);
    line.push(&mut box5);
    line.push(&mut box6);
    line.push(&mut box7);
    line.push(&mut box8);
    line.push(&mut box9);

    naked_set_array(line);

    assert_eq!(box5.get_possibles(), [5]);
    assert_eq!(box6.get_possibles(), [6]);
    assert_eq!(box7.get_possibles(), [7]);
    assert_eq!(box8.get_possibles(), [8]);
    assert_eq!(box9.get_possibles(), [9]);
}

#[test]
fn solvers_test_box_simplification_factor_5() {
    let mut line = Vec::new();

    let mut box1 = Box::from_possibles([1, 2, 3, 4, 5].to_vec());
    let mut box2 = Box::from_possibles([1, 2, 3, 4, 5].to_vec());
    let mut box3 = Box::from_possibles([1, 2, 3, 4, 5].to_vec());
    let mut box4 = Box::from_possibles([1, 2, 3, 4, 5].to_vec());
    let mut box5 = Box::from_possibles([1, 2, 3, 4, 5].to_vec());
    let mut box6 = Box::from_possibles([1, 5, 6].to_vec());
    let mut box7 = Box::from_possibles([1, 2, 7].to_vec());
    let mut box8 = Box::from_possibles([5, 3, 8].to_vec());
    let mut box9 = Box::from_possibles([4, 2, 9].to_vec());

    line.push(&mut box1);
    line.push(&mut box2);
    line.push(&mut box3);
    line.push(&mut box4);
    line.push(&mut box5);
    line.push(&mut box6);
    line.push(&mut box7);
    line.push(&mut box8);
    line.push(&mut box9);

    naked_set_array(line);

    assert_eq!(box6.get_possibles(), [6]);
    assert_eq!(box7.get_possibles(), [7]);
    assert_eq!(box8.get_possibles(), [8]);
    assert_eq!(box9.get_possibles(), [9]);
}

#[test]
fn solvers_backup_test_last_value_line() {
    let mut line = Vec::new();

    let mut box1 = Box::blank();
    let mut box2 = Box::from_val(2);
    let mut box3 = Box::from_val(3);
    let mut box4 = Box::from_val(4);
    let mut box5 = Box::from_val(5);
    let mut box6 = Box::from_val(6);
    let mut box7 = Box::from_val(7);
    let mut box8 = Box::from_val(8);
    let mut box9 = Box::from_val(9);

    line.push(&mut box1);
    line.push(&mut box2);
    line.push(&mut box3);
    line.push(&mut box4);
    line.push(&mut box5);
    line.push(&mut box6);
    line.push(&mut box7);
    line.push(&mut box8);
    line.push(&mut box9);

    // The nine places need not come from one block: they are handed over
    // by reference and changed in place.
    single_position_candidate(line);

    assert!(box1.value == Some(1));
}

#[test]
fn solvers_backup_test_simple_combo() {
    let result = combo(&[1, 2, 3, 4], 2);
    for element in result.iter() {
        println!("{:#018b}, ", element);
    }
    assert_eq!(result.len(), 6);
    assert!(result.contains(&(ON << 1 | ON << 2)));
    assert!(result.contains(&(ON << 1 | ON << 3)));
    assert!(result.contains(&(ON << 1 | ON << 4)));
    assert!(result.contains(&(ON << 2 | ON << 3)));
    assert!(result.contains(&(ON << 2 | ON << 4)));
    assert!(result.contains(&(ON << 3 | ON << 4)));
}

#[test]
fn solvers_backup_test_complex_combo() {
    let result = combo(&[1, 2, 3, 4, 5, 6, 7, 8, 9], 4);
    for element in result.iter() {
        println!("{:#018b}, ", element);
    }
    assert_eq!(result.len(), 126);
}

#[test]
fn solvers_backup_test_box_simplification_factor_2() {
    let mut line = factor_2_line();

    assert!(try_naked_set_boxes(&mut line));

    assert_eq!(line[2].get_possibles(), [3]);
    assert_eq!(line[3].get_possibles(), [4]);
    assert_eq!(line[4].get_possibles(), [5]);
    assert_eq!(line[5].get_possibles(), [6]);
    assert_eq!(line[6].get_possibles(), [7]);
    assert_eq!(line[7].get_possibles(), [8]);
    assert_eq!(line[8].get_possibles(), [9]);
}

#[test]
fn solvers_backup_test_box_simplification_factor_3() {
    let mut line = factor_3_line();

    assert!(try_naked_set_boxes(&mut line));

    assert_eq!(line[3].get_possibles(), [4]);
    assert_eq!(line[4].get_possibles(), [5]);
    assert_eq!(line[5].get_possibles(), [6]);
    assert_eq!(line[6].get_possibles(), [7]);
    assert_eq!(line[7].get_possibles(), [8]);
    assert_eq!(line[8].get_possibles(), [9]);
}

#[test]
fn solvers_backup_test_box_simplification_factor_4() {
    let mut line = factor_4_line();

    assert!(try_naked_set_boxes(&mut line));

    assert_eq!(line[4].get_possibles(), [5]);
    assert_eq!(line[5].get_possibles(), [6]);
    assert_eq!(line[6].get_possibles(), [7]);
    assert_eq!(line[7].get_possibles(), [8]);
    assert_eq!(line[8].get_possibles(), [9]);
}

#[test]
fn solvers_backup_test_box_simplification_factor_5() {
    let mut line = factor_5_line();

    assert!(try_naked_set_boxes(&mut line));

    assert_eq!(line[5].get_possibles(), [6]);
    assert_eq!(line[6].get_possibles(), [7]);
    assert_eq!(line[7].get_possibles(), [8]);
    assert_eq!(line[8].get_possibles(), [9]);
}

#[test]
fn solvers_candidate_line_test() {
    let mut sudoku = Sudoku::from_line(&CANDIDATE_LINE.to_string());

    candidate_line(&mut sudoku);

    // Make sure the '456' possible in the middle of the mid top row have blocked out
    // both sides of it
    assert_eq!(sudoku.lookup(TOP_LFT, MID_LFT), Box::from_possibles([1, 2, 3, 7, 8, 9].to_vec()));
    assert_eq!(sudoku.lookup(TOP_LFT, MID_MID), Box::from_possibles([1, 2, 3, 7, 8, 9].to_vec()));
    assert_eq!(sudoku.lookup(TOP_LFT, MID_RHT), Box::from_possibles([1, 2, 3, 7, 8, 9].to_vec()));

    // Make sure the '789' possible in the middle column of the mid right block have
    // blocked out above and below
    assert_eq!(sudoku.lookup(TOP_RHT, MID_LFT), Box::from_possibles([1, 2, 3, 7, 8, 9].to_vec()));
    assert_eq!(sudoku.lookup(TOP_RHT, MID_MID), Box::from_possibles([1, 2, 3].to_vec()));
    assert_eq!(sudoku.lookup(TOP_RHT, MID_RHT), Box::from_possibles([1, 2, 3, 7, 8, 9].to_vec()));
    assert_eq!(sudoku.lookup(TOP_RHT, TOP_MID), Box::from_possibles([1, 2, 3, 4, 5, 6].to_vec()));
    assert_eq!(sudoku.lookup(TOP_RHT, BOT_MID), Box::from_possibles([1, 2, 3, 4, 5, 6].to_vec()));

    // Make sure that 789 are removed from the middle column of the bottom right block
    assert_eq!(sudoku.lookup(BOT_RHT, TOP_MID), Box::from_possibles([1, 2, 3, 4, 5, 6].to_vec()));
    assert_eq!(sudoku.lookup(BOT_RHT, MID_MID), Box::from_possibles([1, 2, 3, 4, 5, 6].to_vec()));
    assert_eq!(sudoku.lookup(BOT_RHT, BOT_MID), Box::from_possibles([1, 2, 3, 4, 5, 6].to_vec()));
}

#[test]
fn candidate_line_leaves_the_other_bands_alone() {
    let mut sudoku = Sudoku::from_line(&CANDIDATE_LINE.to_string());
    let before = sudoku;

    candidate_line(&mut sudoku);

    // the block that holds the line itself
    assert_eq!(sudoku.get_cell(TOP_MID), before.get_cell(TOP_MID));
    assert_eq!(sudoku.get_cell(MID_RHT), before.get_cell(MID_RHT));
    // the other rows of the blocks beside it
    for spot in [0, 1, 2, 6, 7, 8] {
        assert_eq!(sudoku.lookup(TOP_LFT, spot), before.lookup(TOP_LFT, spot));
    }
    // blocks in other bands and stacks
    for cell in [MID_LFT, MID_MID, 6, BOT_MID] {
        assert_eq!(sudoku.get_cell(cell), before.get_cell(cell));
    }
    // a second pass finds nothing new
    let once = sudoku;
    candidate_line(&mut sudoku);
    assert_eq!(sudoku, once);
}

#[test]
fn test_naive_row_solve() {
    let mut sudoku = Sudoku::from_line(&EASY_SOLVE.to_string());

    let row = sudoku.get_row_mut(0);
    single_position_array(row);
    assert_eq!(sudoku.cells[TOP_LFT].boxes[TOP_LFT], Box::from_val(1));
}

#[test]
fn test_single_position_sudoku_solve() {
    let mut sudoku = Sudoku::from_line(&EASY_SOLVE.to_string());

    single_position(&mut sudoku);

    // Check that the top left most box got solved as it's the last in the row
    assert_eq!(sudoku.cells[TOP_LFT].boxes[TOP_LFT], Box::from_val(1));

    // Check that the center box got solved as it's the last in the column
    assert_eq!(sudoku.cells[MID_MID].boxes[MID_MID], Box::from_val(1));

    // Check that the bot right most box got solved as it's the last in the column
    assert_eq!(sudoku.cells[BOT_RHT].boxes[BOT_RHT], Box::from_val(1));
}

#[test]
fn single_position_scenario_eight_of_nine() {
    let mut line = [
        Box::from_val(2),
        Box::from_val(3),
        Box::from_val(4),
        Box::from_val(5),
        Box::from_val(6),
        Box::from_val(7),
        Box::from_val(8),
        Box::from_val(9),
        Box::blank(),
    ];
    single_position_boxes(&mut line);
    assert_eq!(line[8], Box::from_val(1));
    for i in 0..8 {
        assert_eq!(line[i], Box::from_val(i as u8 + 2));
    }
}

#[test]
fn single_position_confirms_the_only_place_for_a_digit() {
    // 9 is possible in the first place only
    let mut line = [
        Box::from_possibles(vec![1, 2, 9]),
        Box::from_possibles(vec![1, 2, 3]),
        Box::from_possibles(vec![1, 2, 3]),
        Box::from_possibles(vec![1, 2, 3]),
        Box::from_val(4),
        Box::from_val(5),
        Box::from_val(6),
        Box::from_val(7),
        Box::from_val(8),
    ];
    single_position_boxes(&mut line);
    assert_eq!(line[0], Box::from_val(9));
    assert_eq!(line[1].get_possibles(), [1, 2, 3]);
    assert_eq!(line[1].value, None);
}

#[test]
fn single_position_candidate_only_strikes() {
    let mut line = [
        Box::from_possibles(vec![1, 2, 9]),
        Box::from_possibles(vec![1, 2, 3, 4]),
        Box::from_possibles(vec![1, 2, 3]),
        Box::from_possibles(vec![1, 2, 3]),
        Box::from_val(4),
        Box::from_val(5),
        Box::from_val(6),
        Box::from_val(7),
        Box::from_val(8),
    ];
    single_candidate_boxes(&mut line);
    assert_eq!(line[0].value, None);
    assert_eq!(line[0].get_possibles(), [1, 2, 9]);
    assert_eq!(line[1].get_possibles(), [1, 2, 3]);
}

#[test]
fn can_single_position_sees_a_place_left_with_nothing() {
    let mut line = [Box::blank(); 9];
    line[0] = Box::from_val(1);
    line[1] = Box::from_possibles(vec![1, 2]);
    assert!(can_single_position(&line));
    line[2] = Box::from_val(2);
    assert!(!can_single_position(&line));
}

#[test]
fn naked_pair_scenario() {
    let mut line = [
        Box::from_possibles(vec![1, 2]),
        Box::from_possibles(vec![1, 2, 3, 4]),
        Box::from_possibles(vec![1, 3, 4, 5]),
        Box::from_possibles(vec![2, 5, 6, 7]),
        Box::from_possibles(vec![1, 2]),
        Box::from_possibles(vec![1, 2, 7, 8, 9]),
        Box::from_possibles(vec![2, 3, 6, 9]),
        Box::from_possibles(vec![1, 4, 8, 9]),
        Box::from_possibles(vec![1, 2, 3, 4, 5, 6, 7, 8, 9]),
    ];
    naked_set_boxes(&mut line);
    assert_eq!(line[0].get_possibles(), [1, 2]);
    assert_eq!(line[4].get_possibles(), [1, 2]);
    assert_eq!(line[1].get_possibles(), [3, 4]);
    assert_eq!(line[2].get_possibles(), [3, 4, 5]);
    assert_eq!(line[3].get_possibles(), [5, 6, 7]);
    assert_eq!(line[5].get_possibles(), [7, 8, 9]);
    assert_eq!(line[6].get_possibles(), [3, 6, 9]);
    assert_eq!(line[7].get_possibles(), [4, 8, 9]);
    assert_eq!(line[8].get_possibles(), [3, 4, 5, 6, 7, 8, 9]);
}

#[test]
fn naked_set_misses_a_triple_spread_over_unlike_places() {
    // {1,4}, {4,7} and {7,1} share three digits among three places, but no
    // two of them have the same possible digits: nothing is struck.
    let mut line = [
        Box::from_possibles(vec![1, 4]),
        Box::from_possibles(vec![4, 7]),
        Box::from_possibles(vec![7, 1]),
        Box::from_possibles(vec![1, 2, 3, 4, 5, 6, 7, 8, 9]),
        Box::from_possibles(vec![1, 2, 3, 4, 5, 6, 7, 8, 9]),
        Box::from_possibles(vec![1, 2, 3, 4, 5, 6, 7, 8, 9]),
        Box::from_possibles(vec![1, 2, 3, 4, 5, 6, 7, 8, 9]),
        Box::from_possibles(vec![1, 2, 3, 4, 5, 6, 7, 8, 9]),
        Box::from_possibles(vec![1, 2, 3, 4, 5, 6, 7, 8, 9]),
    ];
    let before = line;
    assert!(can_naked_set_boxes(&line));
    naked_set_boxes(&mut line);
    assert_eq!(line, before);
}

#[test]
fn try_naked_set_refuses_three_places_for_two_digits() {
    let mut line = [Box::blank(); 9];
    line[0] = Box::from_possibles(vec![1, 2]);
    line[1] = Box::from_possibles(vec![1, 2]);
    line[2] = Box::from_possibles(vec![1, 2]);
    let before = line;
    assert!(!can_naked_set_boxes(&line));
    assert!(!try_naked_set_boxes(&mut line));
    assert_eq!(line, before);
}

#[test]
fn try_naked_set_refuses_to_empty_a_place() {
    let mut line = [Box::blank(); 9];
    line[0] = Box::from_possibles(vec![1, 2]);
    line[1] = Box::from_possibles(vec![1, 2]);
    line[2] = Box::from_val(1);
    let before = line;
    assert!(!can_naked_set_boxes(&line));
    assert!(!try_naked_set_boxes(&mut line));
    assert_eq!(line, before);
}

#[test]
fn combo_counts_and_bits() {
    let pool = [1, 2, 3, 4, 5, 6, 7, 8, 9];
    let pairs = combo(&pool, 2);
    assert_eq!(pairs.len(), 36);
    for k in 1..=9u16 {
        let all = combo(&pool, k);
        for (i, a) in all.iter().enumerate() {
            assert_eq!(a.count_ones(), k as u32);
            assert_eq!(a & !0b1111111110, 0);
            for b in all.iter().skip(i + 1) {
                assert_ne!(a, b);
            }
        }
    }
    assert_eq!(combo(&pool, 9), vec![0b1111111110]);
    assert_eq!(combo(&pool, 10), Vec::<u16>::new());
    assert_eq!(combo(&[], 1), Vec::<u16>::new());
}

#[test]
fn combo_lists_subsets_with_earlier_members_first() {
    assert_eq!(combo(&[1, 2, 3], 1), vec![0b10, 0b100, 0b1000]);
    assert_eq!(combo(&[1, 2, 3], 2), vec![0b110, 0b1010, 0b1100]);
    assert_eq!(combo(&[3, 1, 2], 2), vec![0b1010, 0b1100, 0b110]);
}

#[test]
fn normalise_strikes_within_blocks_only() {
    let mut sudoku = Sudoku::blank();
    sudoku.cells[0].boxes[0] = Box::from_val(5);
    normalise(&mut sudoku);
    assert_eq!(sudoku.lookup(0, 8).get_possibles(), [1, 2, 3, 4, 6, 7, 8, 9]);
    assert_eq!(sudoku.lookup(1, 0), Box::blank());
    single_position(&mut sudoku);
    assert_eq!(sudoku.lookup(1, 0).get_possibles(), [1, 2, 3, 4, 6, 7, 8, 9]);
    assert_eq!(sudoku.lookup(1, 3), Box::blank());
    assert_eq!(sudoku.lookup(3, 0).get_possibles(), [1, 2, 3, 4, 6, 7, 8, 9]);
}

#[test]
fn naked_set_over_the_grid_reaches_rows() {
    let mut sudoku = Sudoku::blank();
    // two places of the top row, in different blocks, with the same two digits
    sudoku.cells[0].boxes[0] = Box::from_possibles(vec![1, 2]);
    sudoku.cells[2].boxes[2] = Box::from_possibles(vec![1, 2]);
    naked_set(&mut sudoku);
    assert_eq!(sudoku.lookup(1, 1).get_possibles(), [3, 4, 5, 6, 7, 8, 9]);
    assert_eq!(sudoku.lookup(0, 1).get_possibles(), [3, 4, 5, 6, 7, 8, 9]);
    assert_eq!(sudoku.lookup(0, 4), Box::blank());
}
