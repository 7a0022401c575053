use rand::SeedableRng;
use rand_chacha::ChaCha8Rng;
use sudoku_solver::constants::{
    ARRAY_OF_9, BOT_LFT, BOT_MID, BOT_RHT, MID_LFT, MID_MID, MID_RHT, TOP_LFT, TOP_MID, TOP_RHT,
};
use sudoku_solver::sk_box::Box;
use sudoku_solver::solvers::single_position;
use sudoku_solver::sudoku::Sudoku;
use sudoku_solver::sudoku_builder::{build_rand_sud, seed_blocks};

const BLANK: &str = "\
.........\
.........\
.........\
.........\
.........\
.........\
.........\
.........\
.........";

const SPARSE: &str = "\
.1.......\
.2.......\
.3.......\
....1....\
....2....\
....3....\
.......1.\
.......2.\
.......3.";

// The grid of the easy puzzle that the row and column tests read.
const SIMPLE: &str = "\
...26.7.1\
68..7..9.\
19...45..\
82.1...4.\
..46.29..\
.5...3.28\
..93...74\
.4..5..36\
7.3.18...";

const EASY_SOLVE: &str = "\
.23456789\
....7....\
....8....\
....2....\
.........\
....3....\
....4....\
....9....\
23456789.";

const SOLVED: &str = "\
435269781\
682571493\
197834562\
826195347\
374682915\
951743628\
519326874\
248957136\
763418259";

fn read(text: &str) -> Sudoku {
    let line = text.to_string();
    assert!(Sudoku::is_line(&line));
    let sudoku = Sudoku::from_line(&line);
    assert!(sudoku.check());
    sudoku
}

#[test]
fn test_blank_read() {
    let result = read(BLANK);
    assert_eq!(result, Sudoku::blank());
}

#[test]
fn test_sparse_read() {
    let result = read(SPARSE);
    assert_eq!(result.cells[TOP_LFT].boxes[TOP_MID].value, Some(1));
    assert_eq!(result.cells[TOP_LFT].boxes[MID_MID].value, Some(2));
    assert_eq!(result.cells[TOP_LFT].boxes[BOT_MID].value, Some(3));

    assert_eq!(result.cells[MID_MID].boxes[TOP_MID].value, Some(1));
    assert_eq!(result.cells[MID_MID].boxes[MID_MID].value, Some(2));
    assert_eq!(result.cells[MID_MID].boxes[BOT_MID].value, Some(3));

    assert_eq!(result.cells[BOT_RHT].boxes[TOP_MID].value, Some(1));
    assert_eq!(result.cells[BOT_RHT].boxes[MID_MID].value, Some(2));
    assert_eq!(result.cells[BOT_RHT].boxes[BOT_MID].value, Some(3));

    let lines = result.print_ss();
    assert_eq!(lines.len(), 13);
    assert_eq!(lines[0], "-----------");
    assert_eq!(lines[1], ".1.|...|...");
    assert_eq!(lines[2], ".2.|...|...");
    assert_eq!(lines[3], ".3.|...|...");
    assert_eq!(lines[4], "-----------");
    assert_eq!(lines[5], "...|.1.|...");
    assert_eq!(lines[9], "...|...|.1.");
    assert_eq!(lines[11], "...|...|.3.");
    assert_eq!(lines[12], "-----------");
}

#[test]
fn test_row_read_mut() {
    let mut sudoku = read(SIMPLE);

    {
        let mut row1 = sudoku.get_row_mut(0);

        assert!(!row1[0].solved());
        assert!(!row1[1].solved());
        assert!(!row1[2].solved());
        assert_eq!(*row1[3], Box::from_val(2));
        assert_eq!(*row1[4], Box::from_val(6));
        assert!(!row1[5].solved());
        assert_eq!(*row1[6], Box::from_val(7));
        assert!(!row1[7].solved());
        assert_eq!(*row1[8], Box::from_val(1));

        // Check updating works at end of test.
        // This is the top_right box of the top right cell
        *row1[8] = Box::from_val(9);
    }

    {
        let mut row3 = sudoku.get_row_mut(3);
        assert_eq!(*row3[0], Box::from_val(8));
        assert_eq!(*row3[1], Box::from_val(2));
        assert!(!row3[2].solved());
        assert_eq!(*row3[3], Box::from_val(1));
        assert!(!row3[4].solved());
        assert!(!row3[5].solved());
        assert!(!row3[6].solved());
        assert_eq!(*row3[7], Box::from_val(4));
        assert!(!row3[8].solved());

        // Checked later at end of test
        // This is the top_mid box of the middle cell
        *row3[3] = Box::from_val(4);
    }
    {
        let mut row7 = sudoku.get_row_mut(7);
        assert!(!row7[0].solved());
        assert_eq!(*row7[1], Box::from_val(4));
        assert!(!row7[2].solved());
        assert!(!row7[3].solved());
        assert_eq!(*row7[4], Box::from_val(5));
        assert!(!row7[5].solved());
        assert!(!row7[6].solved());
        assert_eq!(*row7[7], Box::from_val(3));
        assert_eq!(*row7[8], Box::from_val(6));

        // Checked later at end of test
        *row7[8] = Box::from_val(2);
    }

    // Now check that we can update values using these calls.
    assert_eq!(sudoku.lookup(TOP_RHT, TOP_RHT).value, Some(9));
    assert_eq!(sudoku.lookup(MID_MID, TOP_LFT).value, Some(4));
    assert_eq!(sudoku.lookup(BOT_RHT, MID_RHT).value, Some(2));
}

#[test]
fn test_col_read_mut() {
    let mut sudoku = read(SIMPLE);

    {
        let mut col1 = sudoku.get_col_mut(0);
        assert!(!col1[0].solved());
        assert_eq!(*col1[1], Box::from_val(6));
        assert_eq!(*col1[2], Box::from_val(1));
        assert_eq!(*col1[3], Box::from_val(8));
        assert!(!col1[4].solved());
        assert!(!col1[5].solved());
        assert!(!col1[6].solved());
        assert!(!col1[7].solved());
        assert_eq!(*col1[8], Box::from_val(7));

        // Set this to test it later.
        // This is the bottom left box of the top left cell
        *col1[2] = Box::from_val(9);
    }

    {
        let mut col3 = sudoku.get_col_mut(3);
        assert_eq!(*col3[0], Box::from_val(2));
        assert_eq!(*col3[3], Box::from_val(1));
        assert_eq!(*col3[4], Box::from_val(6));
        assert_eq!(*col3[6], Box::from_val(3));

        assert!(!col3[1].solved());
        assert!(!col3[2].solved());
        assert!(!col3[5].solved());
        assert!(!col3[7].solved());
        assert!(!col3[8].solved());

        // Checked later at end of test
        // This is the mid-left box of the centre cell.
        *col3[4] = Box::from_val(3);
    }

    {
        let mut col7 = sudoku.get_col_mut(7);
        assert_eq!(*col7[1], Box::from_val(9));
        assert_eq!(*col7[3], Box::from_val(4));
        assert_eq!(*col7[5], Box::from_val(2));
        assert_eq!(*col7[6], Box::from_val(7));
        assert_eq!(*col7[7], Box::from_val(3));
        assert!(!col7[0].solved());
        assert!(!col7[2].solved());
        assert!(!col7[4].solved());
        assert!(!col7[8].solved());

        // Checked later at end of test
        // This is the bottom mid box of the bottom right cell
        *col7[8] = Box::from_val(2);
    }

    // Now check that we can update values using these calls.
    assert_eq!(sudoku.lookup(TOP_LFT, BOT_LFT).value, Some(9));
    assert_eq!(sudoku.lookup(MID_MID, MID_LFT).value, Some(3));
    assert_eq!(sudoku.lookup(BOT_RHT, BOT_MID).value, Some(2));
}

#[test]
fn test_row_read() {
    let sudoku = read(SIMPLE);

    let row1 = sudoku.get_row(0);
    assert!(!row1[0].solved());
    assert!(!row1[1].solved());
    assert!(!row1[2].solved());
    assert_eq!(row1[3], Box::from_val(2));
    assert_eq!(row1[4], Box::from_val(6));
    assert!(!row1[5].solved());
    assert_eq!(row1[6], Box::from_val(7));
    assert!(!row1[7].solved());
    assert_eq!(row1[8], Box::from_val(1));

    let row3 = sudoku.get_row(3);
    assert_eq!(row3[0], Box::from_val(8));
    assert_eq!(row3[1], Box::from_val(2));
    assert!(!row3[2].solved());
    assert_eq!(row3[3], Box::from_val(1));
    assert!(!row3[4].solved());
    assert!(!row3[5].solved());
    assert!(!row3[6].solved());
    assert_eq!(row3[7], Box::from_val(4));
    assert!(!row3[8].solved());

    let row7 = sudoku.get_row(7);
    assert!(!row7[0].solved());
    assert_eq!(row7[1], Box::from_val(4));
    assert!(!row7[2].solved());
    assert!(!row7[3].solved());
    assert_eq!(row7[4], Box::from_val(5));
    assert!(!row7[5].solved());
    assert!(!row7[6].solved());
    assert_eq!(row7[7], Box::from_val(3));
}

#[test]
fn test_col_read() {
    let sudoku = read(SIMPLE);

    let col3 = sudoku.get_col(3);
    assert_eq!(col3[0], Box::from_val(2));
    assert!(!col3[1].solved());
    assert!(!col3[2].solved());
    assert_eq!(col3[3], Box::from_val(1));
    assert_eq!(col3[4], Box::from_val(6));
    assert!(!col3[5].solved());
    assert_eq!(col3[6], Box::from_val(3));
    assert!(!col3[7].solved());
    assert!(!col3[8].solved());
}

#[test]
fn units_by_number_agree_with_blocks_rows_and_columns() {
    let mut sudoku = read(SIMPLE);
    for n in 0..9 {
        assert_eq!(sudoku.get_unit(n), sudoku.get_cell(n).boxes);
        assert_eq!(sudoku.get_unit(9 + n), sudoku.get_row(n));
        assert_eq!(sudoku.get_unit(18 + n), sudoku.get_col(n));
    }
    for n in 0..27 {
        let copy = sudoku.get_unit(n);
        let unit = sudoku.get_unit_mut(n);
        assert_eq!(unit.len(), 9);
        for k in 0..9 {
            assert_eq!(*unit[k], copy[k]);
        }
    }
    // place c of row r is place r of column c
    for r in 0..9 {
        for c in 0..9 {
            assert_eq!(sudoku.get_row(r)[c], sudoku.get_col(c)[r]);
            assert_eq!(sudoku.get_row(r)[c], sudoku.get_box(c + 1, r + 1));
            let mark = Box::from_possibles(vec![(r + 1) as u8, (c + 1) as u8, 1, 9]);
            let before = sudoku;
            *sudoku.get_row_mut(r)[c] = mark;
            let by_row = sudoku;
            sudoku = before;
            *sudoku.get_col_mut(c)[r] = mark;
            assert_eq!(sudoku, by_row);
            sudoku = before;
        }
    }
}

#[test]
fn writing_through_a_unit_changes_nine_places_and_no_others() {
    let mut sudoku = Sudoku::blank();
    {
        let mut unit = sudoku.get_unit_mut(22);
        for k in 0..9 {
            *unit[k] = Box::from_val(k as u8 + 1);
        }
    }
    for k in 0..9 {
        assert_eq!(sudoku.get_col(4)[k], Box::from_val(k as u8 + 1));
    }
    let mut count = 0;
    for c in 0..9 {
        for b in 0..9 {
            if sudoku.lookup(c, b).solved() {
                count += 1;
            }
        }
    }
    assert_eq!(count, 9);
    assert_eq!(sudoku.lookup(TOP_MID, TOP_MID), Box::from_val(1));
    assert_eq!(sudoku.lookup(BOT_MID, BOT_MID), Box::from_val(9));
}

#[test]
fn test_sudoku_pretty_print_single() {
    let mut sudoku = read(EASY_SOLVE);

    single_position(&mut sudoku);

    assert!(true);
}

#[test]
fn test_sudoku_pretty_print_compare() {
    let unsolved = read(EASY_SOLVE);
    let mut solved = unsolved;
    single_position(&mut solved);

    assert!(true);
}

#[test]
fn test_solved() {
    let sudoku = read(EASY_SOLVE);
    assert!(!sudoku.solved());

    let sudoku = read(SOLVED);
    assert!(sudoku.solved());
}

#[test]
fn test_from_line() {
    let sud_line = "\
        6.2.5....\
        .....4.3.\
        .........\
        43...8...\
        .1....2..\
        ......7..\
        5..27....\
        .......81\
        ...6.....";

    let sudoku = Sudoku::from_line(&sud_line.to_string());
    assert_eq!(sudoku.get_c(1, 1), '6');
    assert_eq!(sudoku.get_c(5, 1), '5');
    assert_eq!(sudoku.get_c(9, 9), '.');
}

#[test]
fn test_col_row_cell_idx() {
    assert_eq!(Sudoku::col_row_to_cell_idx(1, 1), (0, 0));
    assert_eq!(Sudoku::col_row_to_cell_idx(2, 5), (3, 4));
    assert_eq!(Sudoku::col_row_to_cell_idx(5, 5), (4, 4));
    assert_eq!(Sudoku::col_row_to_cell_idx(7, 3), (2, 6));
    assert_eq!(Sudoku::col_row_to_cell_idx(7, 5), (5, 3));
    assert_eq!(Sudoku::col_row_to_cell_idx(8, 7), (8, 1));
    assert_eq!(Sudoku::col_row_to_cell_idx(9, 9), (8, 8));
}

#[test]
fn is_line_refuses_bad_texts() {
    assert!(Sudoku::is_line(&BLANK.to_string()));
    assert!(!Sudoku::is_line(&"".to_string()));
    assert!(!Sudoku::is_line(&BLANK[1..].to_string()));
    assert!(!Sudoku::is_line(&format!("{}.", BLANK)));
    assert!(!Sudoku::is_line(&format!("0{}", &BLANK[1..])));
    assert!(!Sudoku::is_line(&format!("x{}", &BLANK[1..])));
    assert!(!Sudoku::is_line(&format!("{}é", &BLANK[2..])));
}

#[test]
fn from_line_strikes_within_blocks() {
    let sudoku = read(SPARSE);
    assert_eq!(sudoku.lookup(TOP_LFT, TOP_LFT).get_possibles(), [4, 5, 6, 7, 8, 9]);
    assert_eq!(sudoku.lookup(TOP_MID, TOP_LFT), Box::blank());
    assert_eq!(sudoku.get_box(2, 1), Box::from_val(1));
    assert_eq!(sudoku.get_box(1, 2).get_possibles(), [4, 5, 6, 7, 8, 9]);
}

#[test]
fn box_set_and_get_box_count_from_one() {
    let mut sudoku = Sudoku::blank();
    sudoku.box_set(9, 1, Box::from_val(3));
    assert_eq!(sudoku.lookup(TOP_RHT, TOP_RHT), Box::from_val(3));
    assert_eq!(sudoku.get_box(9, 1), Box::from_val(3));
    assert_eq!(sudoku.get_c(9, 1), '3');
    sudoku.box_set(1, 9, Box::from_val(4));
    assert_eq!(sudoku.lookup(BOT_LFT, BOT_LFT), Box::from_val(4));
    sudoku.box_set(4, 5, Box::from_val(5));
    assert_eq!(sudoku.lookup(MID_MID, MID_LFT), Box::from_val(5));
    assert_eq!(sudoku.lookup(MID_LFT, MID_RHT), Box::blank());
}

#[test]
fn check_finds_a_digit_twice_in_a_row_or_column() {
    let mut sudoku = Sudoku::blank();
    assert!(sudoku.check());
    sudoku.box_set(1, 1, Box::from_val(5));
    sudoku.box_set(9, 1, Box::from_val(5));
    assert!(!sudoku.check());
    let mut sudoku = Sudoku::blank();
    sudoku.box_set(2, 1, Box::from_val(5));
    sudoku.box_set(2, 9, Box::from_val(5));
    assert!(!sudoku.check());
    let mut sudoku = Sudoku::blank();
    sudoku.box_set(1, 1, Box::from_val(5));
    sudoku.box_set(3, 3, Box::from_val(5));
    assert!(!sudoku.check());
    let mut sudoku = Sudoku::blank();
    sudoku.box_set(1, 1, Box::from_val(5));
    sudoku.box_set(4, 2, Box::from_val(5));
    assert!(sudoku.check());
}

#[test]
fn test_9_rands() {
    let mut rng: ChaCha8Rng = ChaCha8Rng::seed_from_u64(245);

    let result1 = rands_of(&build_rand_sud(&mut rng));
    let result2 = rands_of(&build_rand_sud(&mut rng));

    println!("Result 1: {:?}", result1);
    println!("Result 2: {:?}", result2);

    assert_ne!(result1, ARRAY_OF_9);
    assert_ne!(result1, result2);
}

fn rands_of(sud: &Sudoku) -> [u8; 9] {
    let mut result = [0u8; 9];
    for i in 0..9 {
        result[i] = sud.cells[TOP_LFT].boxes[i].value.unwrap();
    }
    result
}

#[test]
fn test_rand_sudoku() {
    let mut rng: ChaCha8Rng = ChaCha8Rng::seed_from_u64(0);

    let sud = build_rand_sud(&mut rng);

    assert_eq!(sud.cells[TOP_LFT].boxes[TOP_LFT].value.unwrap(), 4);
    assert_eq!(sud.cells[BOT_RHT].boxes[BOT_RHT].value.unwrap(), 7);
}

#[test]
fn build_rand_sud_seeds_the_diagonal_with_a_shuffle() {
    let mut rng: ChaCha8Rng = ChaCha8Rng::seed_from_u64(7);
    let sud = build_rand_sud(&mut rng);
    let mut rands = rands_of(&sud);
    assert_eq!(sud.cells[MID_MID], sud.cells[TOP_LFT]);
    assert_eq!(sud.cells[BOT_RHT], sud.cells[TOP_LFT]);
    for c in [TOP_MID, TOP_RHT, MID_LFT, MID_RHT, BOT_LFT, BOT_MID] {
        for b in 0..9 {
            assert_eq!(sud.cells[c].boxes[b], Box::blank());
        }
    }
    assert!(sud.check());
    rands.sort();
    assert_eq!(rands, ARRAY_OF_9);
}

#[test]
fn seed_blocks_fills_three_blocks() {
    let sud = seed_blocks([9, 8, 7, 6, 5, 4, 3, 2, 1]);
    assert_eq!(sud.cells[TOP_LFT].boxes[TOP_LFT], Box::from_val(9));
    assert_eq!(sud.cells[MID_MID].boxes[MID_MID], Box::from_val(5));
    assert_eq!(sud.cells[BOT_RHT].boxes[BOT_RHT], Box::from_val(1));
    assert_eq!(sud.cells[TOP_MID].boxes[TOP_LFT], Box::blank());
}

#[test]
fn from_ss_reads_the_listing_form() {
    let mut lines: Vec<String> = Vec::new();
    for chunk in [
        "|...|26.|7.1|", "|68.|.7.|.9.|", "|19.|..4|5..|", "-------------",
        "|82.|1..|.4.|", "|..4|6.2|9..|", "|.5.|..3|.28|", "-------------",
        "|..9|3..|.74|", "|.4.|.5.|.36|", "|7.3|.18|...|",
    ] {
        lines.push(format!("{}\n", chunk));
    }
    let sudoku = Sudoku::from_ss(&lines).unwrap();
    assert_eq!(sudoku, read(SIMPLE));

    // the same with the other end of line, and a last rule
    let mut dos: Vec<String> = lines.iter().map(|l| l.replace("\n", "\r\n")).collect();
    dos.push("-------------\r\n".to_string());
    assert_eq!(Sudoku::from_ss(&dos).unwrap(), sudoku);
}

#[test]
fn from_ss_refuses_what_is_not_the_listing_form() {
    let good: Vec<String> = [
        "|...|...|...|", "|...|...|...|", "|...|...|...|", "",
        "|...|...|...|", "|...|...|...|", "|...|...|...|", "",
        "|...|...|...|", "|...|...|...|", "|...|...|...|",
    ]
    .iter()
    .map(|l| format!("{}\n", l))
    .collect();
    assert_eq!(Sudoku::from_ss(&good).unwrap(), Sudoku::blank());

    let mut short = good.clone();
    short.pop();
    assert!(Sudoku::from_ss(&short).is_err());

    let mut no_bar = good.clone();
    no_bar[5] = "|...+...|...|\n".to_string();
    assert!(Sudoku::from_ss(&no_bar).is_err());

    let mut zero = good.clone();
    zero[0] = "|0..|...|...|\n".to_string();
    assert!(Sudoku::from_ss(&zero).is_err());

    let mut no_end = good.clone();
    no_end[10] = "|...|...|...|".to_string();
    assert!(Sudoku::from_ss(&no_end).is_err());

    let mut twice = good.clone();
    twice[0] = "|5..|...|..5|\n".to_string();
    assert!(Sudoku::from_ss(&twice).is_err());

    // the first character of a row is not looked at
    let mut first = good.clone();
    first[0] = "x...|...|...|\n".to_string();
    assert_eq!(Sudoku::from_ss(&first).unwrap(), Sudoku::blank());
}

#[test]
fn from_txt_reads_one_grid_to_a_line() {
    let lines = vec![format!("{}\n", SIMPLE), format!("{}\n", BLANK)];
    assert!(Sudoku::is_txt(&lines));
    let grids = Sudoku::from_txt(&lines);
    assert_eq!(grids.len(), 2);
    assert_eq!(grids[0], read(SIMPLE));
    assert_eq!(grids[1], Sudoku::blank());
    assert_eq!(Sudoku::from_txt(&Vec::new()).len(), 0);

    assert!(!Sudoku::is_txt(&vec![SIMPLE.to_string()]));
    assert!(!Sudoku::is_txt(&vec![format!("{}\r\n", SIMPLE)]));
    assert!(!Sudoku::is_txt(&vec![format!("{}\n", SIMPLE), "\n".to_string()]));
    assert!(!Sudoku::is_txt(&vec![format!("{}\n", SIMPLE.replace("2", "0"))]));
}

#[test]
fn pretty_print_draw_every_place_as_three_by_three() {
    let sudoku = read(SPARSE);
    let lines = sudoku.pretty_print(None, Some("Solving".to_string()));
    assert_eq!(lines.len(), 37);
    assert_eq!(lines[0], "╔═══════════╦═══════════╦═══════════╗ Solving");
    assert_eq!(lines[1], "║...|   |...║123|123|123║123|123|123║");
    assert_eq!(lines[2], "║456| 1 |456║456|456|456║456|456|456║");
    assert_eq!(lines[3], "║789|   |789║789|789|789║789|789|789║");
    assert_eq!(lines[4], "║---+---+---║---+---+---║---+---+---║");
    assert_eq!(lines[12], "╠═══════════╬═══════════╬═══════════╣");
    assert_eq!(lines[24], "╠═══════════╬═══════════╬═══════════╣");
    assert_eq!(lines[36], "╚═══════════╩═══════════╩═══════════╝");
    let plain = sudoku.pretty_print(None, None);
    assert_eq!(plain[0], "╔═══════════╦═══════════╦═══════════╗ ");
    assert_eq!(plain[1..], lines[1..]);
}

#[test]
fn pretty_print_colour_what_has_changed() {
    let before = read(SPARSE);
    let mut after = before;
    after.box_set(1, 1, Box::from_val(4));
    let lines = after.pretty_print(Some(before), None);
    let on = "\x1b[93m";
    let off = "\x1b[0m";
    assert_eq!(
        lines[1],
        format!("║{on} {off}{on} {off}{on} {off}|   |...║123|123|123║123|123|123║")
    );
    assert_eq!(
        lines[2],
        format!("║{on} {off}{on}4{off}{on} {off}| 1 |456║456|456|456║456|456|456║")
    );
    assert_eq!(lines[5..], before.pretty_print(None, None)[5..]);
}
