use sudoku_logic::{is_valid_guess, is_valid_sudoku, solve_sudoku, solver, Grid};

const PUZZLE: [u8; 81] = [
    5, 3, 0, 0, 7, 0, 0, 0, 0, //
    6, 0, 0, 1, 9, 5, 0, 0, 0, //
    0, 9, 8, 0, 0, 0, 0, 6, 0, //
    8, 0, 0, 0, 6, 0, 0, 0, 3, //
    4, 0, 0, 8, 0, 3, 0, 0, 1, //
    7, 0, 0, 0, 2, 0, 0, 0, 6, //
    0, 6, 0, 0, 0, 0, 2, 8, 0, //
    0, 0, 0, 4, 1, 9, 0, 0, 5, //
    0, 0, 0, 0, 8, 0, 0, 7, 9, //
];

const SOLVED: [u8; 81] = [
    5, 3, 4, 6, 7, 8, 9, 1, 2, //
    6, 7, 2, 1, 9, 5, 3, 4, 8, //
    1, 9, 8, 3, 4, 2, 5, 6, 7, //
    8, 5, 9, 7, 6, 1, 4, 2, 3, //
    4, 2, 6, 8, 5, 3, 7, 9, 1, //
    7, 1, 3, 9, 2, 4, 8, 5, 6, //
    9, 6, 1, 5, 3, 7, 2, 8, 4, //
    2, 8, 7, 4, 1, 9, 6, 3, 5, //
    3, 4, 5, 2, 8, 6, 1, 7, 9, //
];

const FIRST_OF_ALL: [u8; 81] = [
    1, 2, 3, 4, 5, 6, 7, 8, 9, //
    4, 5, 6, 7, 8, 9, 1, 2, 3, //
    7, 8, 9, 1, 2, 3, 4, 5, 6, //
    2, 1, 4, 3, 6, 5, 8, 9, 7, //
    3, 6, 5, 8, 9, 7, 2, 1, 4, //
    8, 9, 7, 2, 1, 4, 3, 6, 5, //
    5, 3, 1, 6, 4, 2, 9, 7, 8, //
    6, 4, 2, 9, 7, 8, 5, 3, 1, //
    9, 7, 8, 5, 3, 1, 6, 4, 2, //
];

#[test]
fn empty_board_is_filled_with_the_first_of_all_boards() {
    let solved = solve_sudoku(vec![0; 81]).expect("the empty board has completions");
    assert_eq!(solved, FIRST_OF_ALL.to_vec());
    assert!(solved.iter().all(|v| (1..=9).contains(v)));
    assert!(is_valid_sudoku(&Grid::from_flat(&solved)));
}

#[test]
fn solved_board_comes_back_unchanged() {
    assert_eq!(solve_sudoku(SOLVED.to_vec()), Some(SOLVED.to_vec()));
}

#[test]
fn digit_twice_in_the_first_row_has_no_solution() {
    let mut cells = vec![0u8; 81];
    cells[0] = 5;
    cells[1] = 5;
    assert!(!is_valid_sudoku(&Grid::from_flat(&cells)));
    assert_eq!(solve_sudoku(cells), None);
}

#[test]
fn digit_twice_in_a_block_has_no_solution() {
    let mut cells = vec![0u8; 81];
    cells[0] = 9;
    cells[10] = 9;
    assert_eq!(solve_sudoku(cells), None);
}

#[test]
fn single_blank_receives_its_only_digit() {
    let mut cells = SOLVED.to_vec();
    cells[40] = 0;
    let solved = solve_sudoku(cells).expect("one digit fits");
    assert_eq!(solved[40], 5);
    assert_eq!(solved, SOLVED.to_vec());
}

#[test]
fn single_blank_in_the_last_cell_is_filled() {
    let mut cells = SOLVED.to_vec();
    cells[80] = 0;
    assert_eq!(solve_sudoku(cells), Some(SOLVED.to_vec()));
}

#[test]
fn blank_with_no_digit_left_has_no_solution() {
    // The first row lacks only the 9, and its one blank has a 9 below it.
    let mut cells = vec![0u8; 81];
    for c in 0..8 {
        cells[c] = (c + 1) as u8;
    }
    cells[9 * 5 + 8] = 9;
    assert!(is_valid_sudoku(&Grid::from_flat(&cells)));
    assert_eq!(solve_sudoku(cells), None);
}

#[test]
fn dead_end_behind_two_choices_has_no_solution() {
    // The first cell may take 1 or 9, but the last cell of the row takes
    // neither: its column holds both.
    let mut cells = vec![0u8; 81];
    for c in 1..8 {
        cells[c] = (c + 1) as u8;
    }
    cells[9 * 5 + 8] = 9;
    cells[9 * 7 + 8] = 1;
    assert!(is_valid_sudoku(&Grid::from_flat(&cells)));
    assert_eq!(solve_sudoku(cells), None);
}

#[test]
fn classic_puzzle_is_solved() {
    assert_eq!(solve_sudoku(PUZZLE.to_vec()), Some(SOLVED.to_vec()));
}

#[test]
fn of_two_completions_the_one_with_the_smaller_digit_first_is_returned() {
    // Rows 2 and 5 hold 4 and 2 crosswise in columns 4 and 5; blanking the
    // four cells leaves two ways to fill them.
    let mut cells = SOLVED.to_vec();
    for n in [22, 23, 49, 50] {
        cells[n] = 0;
    }
    let mut expected = SOLVED.to_vec();
    expected[22] = 2;
    expected[23] = 4;
    expected[49] = 4;
    expected[50] = 2;
    assert_eq!(solve_sudoku(cells), Some(expected));
}

#[test]
fn of_two_completions_the_first_may_be_the_board_one_started_from() {
    // Rows 3 and 4 hold 1 and 3 crosswise in columns 5 and 8.
    let mut cells = SOLVED.to_vec();
    for n in [32, 35, 41, 44] {
        cells[n] = 0;
    }
    assert_eq!(solve_sudoku(cells), Some(SOLVED.to_vec()));
}

#[test]
fn value_above_nine_stays_as_a_given() {
    let mut cells = vec![0u8; 81];
    cells[0] = 10;
    let solved = solve_sudoku(cells).expect("the other cells can be filled");
    assert_eq!(solved[0], 10);
    assert_eq!(&solved[1..9], &[1, 2, 3, 4, 5, 6, 7, 8]);
    assert!(solved[1..].iter().all(|v| (1..=9).contains(v)));
    assert!(is_valid_sudoku(&Grid::from_flat(&solved)));
}

#[test]
fn value_above_nine_twice_in_a_row_has_no_solution() {
    let mut cells = vec![0u8; 81];
    cells[0] = 200;
    cells[5] = 200;
    assert_eq!(solve_sudoku(cells), None);
}

#[test]
fn guess_is_refused_when_the_row_holds_it() {
    let mut grid = Grid::from_flat(&[0u8; 81]);
    grid.set(4, 0, 7);
    assert!(!is_valid_guess(&grid, 7, 4, 8));
    assert!(is_valid_guess(&grid, 6, 4, 8));
}

#[test]
fn guess_is_refused_when_the_column_holds_it() {
    let mut grid = Grid::from_flat(&[0u8; 81]);
    grid.set(0, 4, 7);
    assert!(!is_valid_guess(&grid, 7, 8, 4));
    assert!(is_valid_guess(&grid, 7, 8, 3));
}

#[test]
fn guess_is_refused_when_the_block_holds_it() {
    let mut grid = Grid::from_flat(&[0u8; 81]);
    grid.set(3, 3, 7);
    assert!(!is_valid_guess(&grid, 7, 4, 4));
    assert!(!is_valid_guess(&grid, 7, 5, 5));
    assert!(is_valid_guess(&grid, 7, 6, 6));
    assert!(is_valid_guess(&grid, 7, 4, 6));
}

#[test]
fn guess_is_refused_when_the_cell_itself_holds_it() {
    let mut grid = Grid::from_flat(&[0u8; 81]);
    grid.set(2, 2, 3);
    assert!(!is_valid_guess(&grid, 3, 2, 2));
    assert!(is_valid_guess(&grid, 4, 2, 2));
}

#[test]
fn guess_is_accepted_on_an_empty_board() {
    let grid = Grid::from_flat(&[0u8; 81]);
    for d in 1..=9 {
        assert!(is_valid_guess(&grid, d, 0, 0));
        assert!(is_valid_guess(&grid, d, 8, 8));
    }
}

#[test]
fn guess_sees_every_cell_of_the_block() {
    for r in 6..9 {
        for c in 0..3 {
            let mut grid = Grid::from_flat(&[0u8; 81]);
            grid.set(r, c, 1);
            assert!(!is_valid_guess(&grid, 1, 7, 1));
        }
    }
}

#[test]
fn search_leaves_the_solution_on_the_board() {
    let mut board = Grid::from_flat(&PUZZLE);
    let solved = solver(&mut board, 0).expect("the puzzle has a solution");
    assert_eq!(solved.to_flat(), SOLVED.to_vec());
    assert_eq!(board.to_flat(), SOLVED.to_vec());
}

#[test]
fn failed_search_leaves_the_board_as_it_was() {
    let mut cells = vec![0u8; 81];
    for c in 1..8 {
        cells[c] = (c + 1) as u8;
    }
    cells[9 * 5 + 8] = 9;
    cells[9 * 7 + 8] = 1;
    let mut board = Grid::from_flat(&cells);
    assert!(solver(&mut board, 0).is_none());
    assert_eq!(board.to_flat(), cells);
}

#[test]
fn search_from_the_end_returns_the_board() {
    let mut board = Grid::from_flat(&PUZZLE);
    let same = solver(&mut board, 81).expect("nothing is left to fill");
    assert_eq!(same.to_flat(), PUZZLE.to_vec());
    assert_eq!(board.to_flat(), PUZZLE.to_vec());
}

#[test]
fn search_from_the_second_row_leaves_the_first_row_blank() {
    let mut board = Grid::from_flat(&[0u8; 81]);
    let filled = solver(&mut board, 9).expect("eight rows can be filled");
    let expected: [u8; 81] = [
        0, 0, 0, 0, 0, 0, 0, 0, 0, //
        1, 2, 3, 4, 5, 6, 7, 8, 9, //
        4, 5, 6, 7, 8, 9, 1, 2, 3, //
        2, 1, 4, 3, 6, 5, 8, 9, 7, //
        3, 6, 5, 8, 9, 7, 2, 1, 4, //
        7, 8, 9, 1, 2, 4, 3, 5, 6, //
        5, 3, 1, 6, 4, 2, 9, 7, 8, //
        6, 4, 2, 9, 7, 8, 5, 3, 1, //
        8, 9, 7, 5, 1, 3, 4, 6, 2, //
    ];
    assert_eq!(filled.to_flat(), expected.to_vec());
}
