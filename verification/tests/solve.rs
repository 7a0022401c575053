use sudoku_solver::sk_box::Box;
use sudoku_solver::solvers::{
    candidate_line, try_naked_set, try_single_position,
};
use sudoku_solver::sudoku::Sudoku;

// A puzzle that single position alone solves.
const SIMPLE: &str = "\
...26.7.1\
68..7..9.\
19...45..\
82.1...4.\
..46.29..\
.5...3.28\
..93...74\
.4..5..36\
7.3.18...";

const SIMPLE_SOLVED: &str = "\
435269781\
682571493\
197834562\
826195347\
374682915\
951743628\
519326874\
248957136\
763418259";

// A grid with many solutions: deduction cannot decide it.
const OPEN: &str = "\
123......\
456......\
789......\
...123...\
...456...\
...789...\
......123\
......456\
......789";

// A puzzle that single position alone does not solve.
const HARD: &str = "\
4.....8.5\
.3.......\
...7.....\
.2.....6.\
....8.4..\
....1....\
...6.3.7.\
5..2.....\
1.4......";

fn read(text: &str) -> Sudoku {
    let line = text.to_string();
    assert!(Sudoku::is_line(&line));
    Sudoku::from_line(&line)
}

fn subset(later: &Sudoku, earlier: &Sudoku) -> bool {
    for c in 0..9 {
        for b in 0..9 {
            let now = later.lookup(c, b);
            let then = earlier.lookup(c, b);
            for d in 0..10 {
                if now.poss[d] && !then.poss[d] {
                    return false;
                }
            }
            if then.value.is_some() && now.value != then.value {
                return false;
            }
        }
    }
    true
}

fn one_round(sudoku: &mut Sudoku) {
    assert!(try_single_position(sudoku));
    assert!(sudoku.check());
    assert!(try_naked_set(sudoku));
    assert!(sudoku.check());
    candidate_line(sudoku);
    assert!(sudoku.check());
}

#[test]
fn solve_reaches_the_solution_of_an_easy_puzzle() {
    let mut sudoku = read(SIMPLE);
    assert!(sudoku.try_solve());
    assert!(sudoku.solved());
    assert_eq!(sudoku, read(SIMPLE_SOLVED));

    let mut again = read(SIMPLE);
    again.solve();
    assert_eq!(again, sudoku);
}

#[test]
fn solve_stops_where_a_round_changes_nothing() {
    let mut sudoku = read(OPEN);
    let start = sudoku;
    assert!(sudoku.try_solve());
    assert!(sudoku.check());
    assert!(!sudoku.solved());
    assert!(subset(&sudoku, &start));

    // stuck: one more round changes nothing, and neither does solving again
    let stuck = sudoku;
    one_round(&mut sudoku);
    assert_eq!(sudoku, stuck);
    assert!(sudoku.try_solve());
    assert_eq!(sudoku, stuck);
}

#[test]
fn solve_reaches_the_solution_of_a_hard_puzzle() {
    let mut sudoku = read(HARD);
    let start = sudoku;
    assert!(sudoku.try_solve());
    assert!(sudoku.check());
    assert!(sudoku.solved());
    assert!(subset(&sudoku, &start));
    assert_eq!(sudoku.get_c(1, 1), '4');
    assert_eq!(sudoku.get_c(2, 1), '1');
    assert_eq!(sudoku.get_c(3, 1), '7');
}

#[test]
fn solve_gives_the_same_grid_every_time() {
    let mut a = read(HARD);
    let mut b = read(HARD);
    assert!(a.try_solve());
    assert!(b.try_solve());
    assert_eq!(a, b);
}

#[test]
fn solve_on_a_solved_grid_changes_nothing() {
    let mut sudoku = read(SIMPLE_SOLVED);
    let before = sudoku;
    assert!(sudoku.try_solve());
    assert_eq!(sudoku, before);
    assert!(sudoku.solved());
}

#[test]
fn try_solve_refuses_a_grid_with_a_digit_twice() {
    let mut sudoku = Sudoku::blank();
    sudoku.box_set(1, 1, Box::from_val(5));
    sudoku.box_set(9, 1, Box::from_val(5));
    let before = sudoku;
    assert!(!sudoku.try_solve());
    assert_eq!(sudoku, before);
}

#[test]
fn try_solve_refuses_a_puzzle_that_runs_into_a_contradiction() {
    // the top row wants a 9 in its last place, where the column forbids it
    let text = "\
12345678.\
........9\
.........\
.........\
.........\
.........\
.........\
.........\
.........";
    let mut sudoku = read(text);
    assert!(sudoku.check());
    let before = sudoku;
    assert!(!sudoku.try_solve());
    assert_eq!(sudoku, before);
}

#[test]
fn every_round_only_takes_away_and_keeps_units_free_of_repeats() {
    let mut sudoku = read(HARD);
    for _ in 0..5 {
        let before = sudoku;
        assert!(try_single_position(&mut sudoku));
        assert!(subset(&sudoku, &before));
        assert!(sudoku.check());
        let before = sudoku;
        assert!(try_naked_set(&mut sudoku));
        assert!(subset(&sudoku, &before));
        assert!(sudoku.check());
        let before = sudoku;
        candidate_line(&mut sudoku);
        assert!(subset(&sudoku, &before));
        assert!(sudoku.check());
    }
}

#[test]
fn a_technique_run_twice_on_a_stable_grid_changes_nothing() {
    let mut sudoku = read(HARD);
    assert!(sudoku.try_solve());
    let stable = sudoku;
    assert!(try_single_position(&mut sudoku));
    assert_eq!(sudoku, stable);
    assert!(try_single_position(&mut sudoku));
    assert_eq!(sudoku, stable);
    assert!(try_naked_set(&mut sudoku));
    assert!(try_naked_set(&mut sudoku));
    assert_eq!(sudoku, stable);
    candidate_line(&mut sudoku);
    candidate_line(&mut sudoku);
    assert_eq!(sudoku, stable);
}

// A puzzle with one solution that is known to need more than the three techniques.
const HARDEST: &str = "\
8........\
..36.....\
.7..9.2..\
.5...7...\
....457..\
...1...3.\
..1....68\
..85...1.\
.9....4..";

#[test]
fn solve_leaves_a_puzzle_beyond_its_techniques_unsolved_and_stable() {
    let mut sudoku = read(HARDEST);
    let start = sudoku;
    assert!(sudoku.try_solve());
    assert!(sudoku.check());
    assert!(!sudoku.solved());
    assert!(subset(&sudoku, &start));
    // every given digit is still there
    for row in 1..=9 {
        for col in 1..=9 {
            if start.get_box(col, row).solved() {
                assert_eq!(sudoku.get_box(col, row), start.get_box(col, row));
            }
        }
    }
    let stuck = sudoku;
    one_round(&mut sudoku);
    assert_eq!(sudoku, stuck);
}

#[test]
fn single_position_can_confirm_a_digit_twice_where_no_solution_exists() {
    // The first two places of the top row can only hold 1 or 2, and 2
    // stands further down in both of their columns.
    let text = "\
..3456789\
.........\
.........\
2........\
.........\
.........\
.2.......\
.........\
.........";
    let mut sudoku = read(text);
    assert!(sudoku.check());
    let before = sudoku;
    assert!(try_single_position(&mut sudoku));
    assert_eq!(sudoku.get_box(1, 1), Box::from_val(1));
    assert_eq!(sudoku.get_box(2, 1), Box::from_val(1));
    assert!(!sudoku.check());
    // the solving loop refuses the puzzle and leaves it as it was
    let mut sudoku = before;
    assert!(!sudoku.try_solve());
    assert_eq!(sudoku, before);
}
