use sudoku_solver::input::digits;
use sudoku_solver::solvers::backtracking::{Sudoku, EMPTY, SIDE, SIZE, SQUARE_SIDE};

const CLASSIC: &str = "\
    530070000\
    600195000\
    098000060\
    800060003\
    400803001\
    700020006\
    060000280\
    000419005\
    000080079";

const CLASSIC_SOLVED: &str = "\
    534678912\
    672195348\
    198342567\
    859761423\
    426853791\
    713924856\
    961537284\
    287419635\
    345286179";

const FIRST_GRID: &str = "\
    123456789\
    456789123\
    789123456\
    214365897\
    365897214\
    897214365\
    531642978\
    642978531\
    978531642";

fn grid(text: &str) -> Sudoku {
    Sudoku::new(digits(text).into_iter()).unwrap()
}

/// Row, column and block of every cell hold each digit from 1 to 9 once.
fn is_valid_solution(cells: &[u8; SIZE]) -> bool {
    for p in 0..SIZE {
        if cells[p] < 1 || cells[p] > 9 {
            return false;
        }
        for q in 0..SIZE {
            let same_row = p / 9 == q / 9;
            let same_col = p % 9 == q % 9;
            let same_block = p / 27 == q / 27 && (p % 9) / 3 == (q % 9) / 3;
            if p != q && (same_row || same_col || same_block) && cells[p] == cells[q] {
                return false;
            }
        }
    }
    true
}

#[test]
fn constants_describe_the_grid() {
    assert_eq!(SQUARE_SIDE, 3);
    assert_eq!(SIDE, SQUARE_SIDE * 3);
    assert_eq!(SIZE, SIDE * SIDE);
    assert_eq!(EMPTY, 0);
}

#[test]
fn new_takes_exactly_81_cells() {
    assert!(Sudoku::new(vec![0u8; 81].into_iter()).is_some());
    assert!(Sudoku::new(vec![0u8; 0].into_iter()).is_none());
    assert!(Sudoku::new(vec![0u8; 1].into_iter()).is_none());
    assert!(Sudoku::new(vec![0u8; 80].into_iter()).is_none());
    assert!(Sudoku::new(vec![0u8; 82].into_iter()).is_none());
    assert!(Sudoku::new(vec![0u8; 200].into_iter()).is_none());
}

#[test]
fn new_keeps_the_cells_in_their_order() {
    let field: Vec<u8> = (0..81u8).map(|i| i % 10).collect();
    let s = Sudoku::new(field.clone().into_iter()).unwrap();
    assert_eq!(s.cells().to_vec(), field);
}

#[test]
fn new_takes_any_cell_value() {
    let mut field = vec![0u8; SIZE];
    field[5] = 200;
    let s = Sudoku::new(field.into_iter()).unwrap();
    assert_eq!(s.cells()[5], 200);
    assert!(!s.is_allowed(1, 5));
    assert!(s.is_allowed(1, 4));
}

#[test]
fn new_stops_reading_an_endless_field() {
    assert!(Sudoku::new(std::iter::repeat(1u8)).is_none());
}

#[test]
fn filled_cell_allows_no_value() {
    let s = grid(CLASSIC);
    for pos in 0..SIZE {
        if s.cells()[pos] != EMPTY {
            for value in 0..=255u8 {
                assert!(!s.is_allowed(value, pos));
            }
        }
    }
}

#[test]
fn empty_cell_allows_what_it_does_not_see() {
    let s = grid(CLASSIC);
    let cells = *s.cells();
    for pos in 0..SIZE {
        if cells[pos] != EMPTY {
            continue;
        }
        for value in 1..=9u8 {
            let mut seen = false;
            for q in 0..SIZE {
                let same_row = pos / 9 == q / 9;
                let same_col = pos % 9 == q % 9;
                let same_block = pos / 27 == q / 27 && (pos % 9) / 3 == (q % 9) / 3;
                if (same_row || same_col || same_block) && cells[q] == value {
                    seen = true;
                }
            }
            assert_eq!(s.is_allowed(value, pos), !seen);
        }
    }
}

#[test]
fn values_outside_the_digits_are_not_allowed() {
    let s = Sudoku::new(vec![0u8; SIZE].into_iter()).unwrap();
    assert!(!s.is_allowed(0, 40));
    assert!(s.is_allowed(1, 40));
    assert!(s.is_allowed(9, 40));
    assert!(!s.is_allowed(10, 40));
    assert!(!s.is_allowed(255, 40));
}

#[test]
fn block_is_seen_from_every_corner() {
    // A 7 in the last cell of the last block.
    let mut field = vec![0u8; SIZE];
    field[80] = 7;
    let s = Sudoku::new(field.into_iter()).unwrap();
    assert!(!s.is_allowed(7, 60));
    assert!(!s.is_allowed(7, 70));
    assert!(!s.is_allowed(7, 8));
    assert!(!s.is_allowed(7, 72));
    assert!(s.is_allowed(7, 50));
    assert!(s.is_allowed(7, 59));
    assert!(s.is_allowed(7, 57));
}

#[test]
fn set_value_writes_and_logs() {
    let mut s = grid(CLASSIC);
    assert!(s.set_value(1, 2).is_ok());
    assert_eq!(s.cells()[2], 1);
    let entry = s.rollback().unwrap();
    assert_eq!((entry.pos, entry.val), (2, 1));
}

#[test]
fn refused_value_changes_nothing() {
    let mut s = grid(CLASSIC);
    let before = *s.cells();
    let refused = s.set_value(5, 2);
    assert_eq!(refused.unwrap_err().msg, "Value is not allowed in the position");
    assert_eq!(*s.cells(), before);
    assert!(s.rollback().is_err());
}

#[test]
fn rollback_undoes_set_value() {
    let mut s = grid(CLASSIC);
    let before = *s.cells();
    assert!(s.set_value(4, 2).is_ok());
    assert!(s.set_value(2, 3).is_ok());
    let newest = s.rollback().unwrap();
    assert_eq!((newest.pos, newest.val), (3, 2));
    assert_eq!(s.cells()[3], EMPTY);
    assert_eq!(s.cells()[2], 4);
    let oldest = s.rollback().unwrap();
    assert_eq!((oldest.pos, oldest.val), (2, 4));
    assert_eq!(*s.cells(), before);
    assert!(s.rollback().is_err());
}

#[test]
fn rollback_on_new_grid_changes_nothing() {
    let mut s = grid(CLASSIC);
    let before = *s.cells();
    assert!(s.rollback().is_err());
    assert_eq!(*s.cells(), before);
}

#[test]
fn solved_only_asks_for_no_empty_cell() {
    // Full but far from valid.
    let s = Sudoku::new(vec![1u8; SIZE].into_iter()).unwrap();
    assert!(s.solved());
    let mut field = vec![1u8; SIZE];
    field[80] = 0;
    let s = Sudoku::new(field.into_iter()).unwrap();
    assert!(!s.solved());
    assert_eq!(s.next_empty(), Some(80));
}

#[test]
fn fill_position_takes_the_smallest_allowed_value() {
    let mut s = grid(CLASSIC);
    // Cell 2 sees 5, 3, 7, 6, 9 and 8.
    assert!(s.fill_position(2, 1).is_some());
    assert_eq!(s.cells()[2], 1);
    let _ = s.rollback();
    assert!(s.fill_position(2, 2).is_some());
    assert_eq!(s.cells()[2], 2);
    let _ = s.rollback();
    assert!(s.fill_position(2, 3).is_some());
    assert_eq!(s.cells()[2], 4);
}

#[test]
fn fill_position_past_the_digits_fails() {
    let mut s = Sudoku::new(vec![0u8; SIZE].into_iter()).unwrap();
    assert!(s.fill_position(0, 10).is_none());
    assert!(s.fill_position(0, 255).is_none());
    assert_eq!(s.cells()[0], EMPTY);
    assert!(s.fill_position(0, 9).is_some());
    assert_eq!(s.cells()[0], 9);
}

#[test]
fn fill_position_never_takes_the_empty_value() {
    let mut s = Sudoku::new(vec![0u8; SIZE].into_iter()).unwrap();
    assert!(s.fill_position(0, 0).is_some());
    assert_eq!(s.cells()[0], 1);
}

#[test]
fn solve_finds_the_solution_of_the_classic_puzzle() {
    let mut s = grid(CLASSIC);
    assert!(s.solve().is_ok());
    assert_eq!(s.cells().to_vec(), digits(CLASSIC_SOLVED));
    assert!(is_valid_solution(s.cells()));
}

#[test]
fn solve_keeps_the_given_digits() {
    let given = digits(CLASSIC);
    let mut s = grid(CLASSIC);
    assert!(s.solve().is_ok());
    for pos in 0..SIZE {
        if given[pos] != EMPTY {
            assert_eq!(s.cells()[pos], given[pos]);
        }
    }
}

#[test]
fn solve_fills_the_empty_grid_with_the_first_grid() {
    let mut s = Sudoku::new(vec![0u8; SIZE].into_iter()).unwrap();
    assert!(s.solve().is_ok());
    assert_eq!(s.cells().to_vec(), digits(FIRST_GRID));
    assert!(is_valid_solution(s.cells()));
}

#[test]
fn solve_on_a_full_grid_changes_nothing() {
    let mut s = grid(CLASSIC_SOLVED);
    assert!(s.solve().is_ok());
    assert_eq!(s.cells().to_vec(), digits(CLASSIC_SOLVED));
    assert!(s.rollback().is_err());
}

#[test]
fn solve_twice_gives_the_same_grid() {
    let mut s = grid(CLASSIC);
    assert!(s.solve().is_ok());
    let first = *s.cells();
    assert!(s.solve().is_ok());
    assert_eq!(*s.cells(), first);
}

#[test]
fn solve_reports_a_cell_without_candidate() {
    // The last cell of the first row sees every digit.
    let mut field = vec![0u8; SIZE];
    for i in 0..8 {
        field[i] = (i + 1) as u8;
    }
    field[17] = 9;
    let mut s = Sudoku::new(field.clone().into_iter()).unwrap();
    assert!(s.solve().is_err());
    assert!(!s.solved());
    assert_eq!(s.cells().to_vec(), field);
}

#[test]
fn solve_reports_contradicting_givens() {
    // The solved classic grid with its first two cells cleared and a second
    // 3 written into the second row: the first cell takes its 5, and the
    // second cell sees every digit.
    let mut field = digits(CLASSIC_SOLVED);
    field[0] = 0;
    field[1] = 0;
    field[10] = 3;
    let mut s = Sudoku::new(field.clone().into_iter()).unwrap();
    assert!(s.solve().is_err());
    assert!(!s.solved());
    assert_eq!(s.cells().to_vec(), field);
    assert!(s.rollback().is_err());
}

#[test]
fn solve_backtracks_over_a_wrong_first_choice() {
    // Cleared cells whose smallest allowed digits lead nowhere at first.
    let solved = digits(CLASSIC_SOLVED);
    let mut field = solved.clone();
    for pos in [0, 1, 2, 3, 9, 10, 11, 18, 27, 28, 36, 40, 41, 50, 60, 70, 80] {
        field[pos] = 0;
    }
    let mut s = Sudoku::new(field.into_iter()).unwrap();
    assert!(s.solve().is_ok());
    assert!(is_valid_solution(s.cells()));
}

#[test]
fn solve_goes_on_from_logged_values() {
    let mut s = grid(CLASSIC);
    // The right digit, logged by hand.
    assert!(s.set_value(4, 2).is_ok());
    assert!(s.solve().is_ok());
    assert_eq!(s.cells().to_vec(), digits(CLASSIC_SOLVED));
}

#[test]
fn solve_takes_a_wrong_logged_value_back() {
    let mut s = grid(CLASSIC);
    // A digit that fits for now, smaller than the right one.
    assert!(s.set_value(1, 2).is_ok());
    assert!(s.solve().is_ok());
    assert_eq!(s.cells().to_vec(), digits(CLASSIC_SOLVED));
}

#[test]
fn solve_does_not_go_back_below_a_logged_value() {
    let given = digits(CLASSIC);
    let mut s = grid(CLASSIC);
    // The only solution holds a 1 in cell 7; the search tries larger digits only.
    assert!(s.set_value(2, 7).is_ok());
    assert!(s.solve().is_err());
    assert!(!s.solved());
    assert_eq!(s.cells().to_vec(), given);
    assert!(s.rollback().is_err());
}

#[test]
fn digits_keeps_decimal_digits_only() {
    assert_eq!(digits(""), Vec::<u8>::new());
    assert_eq!(digits("5 3 . x\n07"), vec![5, 3, 0, 7]);
    assert_eq!(digits("0123456789"), vec![0, 1, 2, 3, 4, 5, 6, 7, 8, 9]);
    assert_eq!(digits("a/:b"), Vec::<u8>::new());
    assert_eq!(digits("|1|\u{0663}|\u{ff12}|2|"), vec![1, 2]);
}

#[test]
fn render_draws_blanks_and_numbers() {
    let mut field = vec![0u8; SIZE];
    field[1] = 7;
    field[2] = 10;
    field[3] = 255;
    field[80] = 100;
    let text = Sudoku::new(field.into_iter()).unwrap().render();
    let lines: Vec<&str> = text.lines().collect();
    assert_eq!(lines.len(), 19);
    assert_eq!(lines[0], "=====================================");
    assert_eq!(lines[1], "|   | 7 | 10 | 255 |   |   |   |   |   |");
    assert_eq!(lines[2], "|-----------|-----------|-----------|");
    assert_eq!(lines[3], "|   |   |   |   |   |   |   |   |   |");
    assert_eq!(lines[6], "=====================================");
    assert_eq!(lines[12], "=====================================");
    assert_eq!(lines[16], "|-----------|-----------|-----------|");
    assert_eq!(lines[17], "|   |   |   |   |   |   |   |   | 100 |");
    assert_eq!(lines[18], "=====================================");
    assert!(text.ends_with("=\n"));
}

#[test]
fn render_of_the_solved_classic_grid() {
    let mut s = grid(CLASSIC);
    assert!(s.solve().is_ok());
    let expected = [
        "=====================================\n",
        "| 5 | 3 | 4 | 6 | 7 | 8 | 9 | 1 | 2 |\n",
        "|-----------|-----------|-----------|\n",
        "| 6 | 7 | 2 | 1 | 9 | 5 | 3 | 4 | 8 |\n",
        "|-----------|-----------|-----------|\n",
        "| 1 | 9 | 8 | 3 | 4 | 2 | 5 | 6 | 7 |\n",
        "=====================================\n",
        "| 8 | 5 | 9 | 7 | 6 | 1 | 4 | 2 | 3 |\n",
        "|-----------|-----------|-----------|\n",
        "| 4 | 2 | 6 | 8 | 5 | 3 | 7 | 9 | 1 |\n",
        "|-----------|-----------|-----------|\n",
        "| 7 | 1 | 3 | 9 | 2 | 4 | 8 | 5 | 6 |\n",
        "=====================================\n",
        "| 9 | 6 | 1 | 5 | 3 | 7 | 2 | 8 | 4 |\n",
        "|-----------|-----------|-----------|\n",
        "| 2 | 8 | 7 | 4 | 1 | 9 | 6 | 3 | 5 |\n",
        "|-----------|-----------|-----------|\n",
        "| 3 | 4 | 5 | 2 | 8 | 6 | 1 | 7 | 9 |\n",
        "=====================================\n",
    ]
    .concat();
    assert_eq!(s.render(), expected);
}
