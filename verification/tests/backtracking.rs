use sudoku_solver::solvers::backtracking::{Sudoku, SIZE};

fn test_field_helper() -> Sudoku {
    let mut field: Vec<u8> = vec![0; SIZE];
    // First square if filled except of central cell. Allowed value is 5.
    field[0] = 1;
    field[1] = 2;
    field[2] = 3;
    field[9] = 4;
    field[11] = 6;
    field[18] = 7;
    field[19] = 8;
    field[20] = 9;
    // First row is filled except of cell #3. Allowed value is 4.
    field[4] = 5;
    field[5] = 6;
    field[6] = 7;
    field[7] = 8;
    field[8] = 9;
    // First col is filled except of cell #3. Allowed value is 2.
    field[36] = 3;
    field[45] = 5;
    field[54] = 6;
    field[63] = 8;
    field[72] = 9;

    Sudoku::new(field.into_iter()).unwrap()
}

fn solvable_field_helper() -> Sudoku {
    let field: Vec<u8> = vec![
        5, 3, 0, 0, 7, 0, 0, 0, 0, 6, 0, 0, 1, 9, 5, 0, 0, 0, 0, 9, 8, 0, 0, 0, 0, 6, 0, 8, 0, 0,
        0, 6, 0, 0, 0, 3, 4, 0, 0, 8, 0, 3, 0, 0, 1, 7, 0, 0, 0, 2, 0, 0, 0, 6, 0, 6, 0, 0, 0, 0,
        2, 8, 0, 0, 0, 0, 4, 1, 9, 0, 0, 5, 0, 0, 0, 0, 8, 0, 0, 7, 9,
    ];
    Sudoku::new(field.into_iter()).unwrap()
}

#[test]
fn new_sudoku() {
    let mut field: Vec<u8> = vec![9; SIZE];
    field[0] = 0;
    let sudoku = Sudoku::new(field.into_iter()).unwrap();
    let expected_out = [
        "=====================================\n",
        "|   | 9 | 9 | 9 | 9 | 9 | 9 | 9 | 9 |\n",
        "|-----------|-----------|-----------|\n",
        "| 9 | 9 | 9 | 9 | 9 | 9 | 9 | 9 | 9 |\n",
        "|-----------|-----------|-----------|\n",
        "| 9 | 9 | 9 | 9 | 9 | 9 | 9 | 9 | 9 |\n",
        "=====================================\n",
        "| 9 | 9 | 9 | 9 | 9 | 9 | 9 | 9 | 9 |\n",
        "|-----------|-----------|-----------|\n",
        "| 9 | 9 | 9 | 9 | 9 | 9 | 9 | 9 | 9 |\n",
        "|-----------|-----------|-----------|\n",
        "| 9 | 9 | 9 | 9 | 9 | 9 | 9 | 9 | 9 |\n",
        "=====================================\n",
        "| 9 | 9 | 9 | 9 | 9 | 9 | 9 | 9 | 9 |\n",
        "|-----------|-----------|-----------|\n",
        "| 9 | 9 | 9 | 9 | 9 | 9 | 9 | 9 | 9 |\n",
        "|-----------|-----------|-----------|\n",
        "| 9 | 9 | 9 | 9 | 9 | 9 | 9 | 9 | 9 |\n",
        "=====================================\n",
    ]
    .concat();

    let res: String = sudoku.render();

    assert_eq!(&expected_out, &res);
}

#[test]
fn not_allowed_in_square() {
    let s = test_field_helper();
    assert!(!s.is_allowed(1, 10));
}

#[test]
fn allowed_in_square() {
    let s = test_field_helper();
    assert!(s.is_allowed(5, 10));
}

#[test]
fn allowed_in_row() {
    let s = test_field_helper();
    assert!(s.is_allowed(4, 3));
}

#[test]
fn not_allowed_in_row() {
    let s = test_field_helper();
    assert!(!s.is_allowed(5, 3));
}

#[test]
fn allowed_in_col() {
    let s = test_field_helper();
    assert!(s.is_allowed(2, 27));
}

#[test]
fn not_allowed_in_col() {
    let s = test_field_helper();
    assert!(!s.is_allowed(4, 27));
}

#[test]
fn set_value() {
    let mut s = test_field_helper();
    assert!(s.set_value(2, 27).is_ok());
}

#[test]
fn set_value_which_is_already_set() {
    let mut s = test_field_helper();
    assert!(s.set_value(2, 1).is_err());
}

#[test]
fn rollback() {
    let mut s = test_field_helper();
    let _ = s.set_value(2, 27).is_ok();
    let log = s.rollback().unwrap();
    assert_eq!(27, log.pos);
    assert_eq!(2, log.val);
}

#[test]
fn rollback_with_empty_log() {
    let mut s = test_field_helper();
    assert!(s.rollback().is_err());
}

#[test]
fn next_empty() {
    let s = test_field_helper();
    assert_eq!(3, s.next_empty().unwrap());
}

#[test]
fn next_empty_on_solved_field() {
    let s = Sudoku::new(vec![9; SIZE].into_iter()).unwrap();
    assert!(s.next_empty().is_none());
}

#[test]
fn fill_position() {
    let mut s = test_field_helper();
    assert!(s.fill_position(3, 1).is_some());
    assert_eq!(4, s.cells()[3]);
}

#[test]
fn fill_position_9_is_a_valid_choice() {
    let field: Vec<u8> = vec![
        5, 3, 1, 2, 7, 4, 8, 0, 0, 6, 0, 0, 1, 9, 5, 0, 0, 0, 0, 9, 8, 0, 0, 0, 0, 6, 0, 8, 0, 0,
        0, 6, 0, 0, 0, 3, 4, 0, 0, 8, 0, 3, 0, 0, 1, 7, 0, 0, 0, 2, 0, 0, 0, 6, 0, 6, 0, 0, 0, 0,
        2, 8, 0, 0, 0, 0, 4, 1, 9, 0, 0, 5, 0, 0, 0, 0, 8, 0, 0, 7, 9,
    ];
    let mut s = Sudoku::new(field.into_iter()).unwrap();

    assert!(s.fill_position(7, 1).is_some());
    assert_eq!(s.cells()[7], 9);
}

#[test]
fn fill_unfillable_position() {
    let mut s = test_field_helper();
    assert!(s.fill_position(3, 5).is_none());
    assert_eq!(0, s.cells()[3]);
}

#[test]
fn not_solved() {
    let s = solvable_field_helper();
    assert!(!s.solved());
}

#[test]
fn solved() {
    let s = Sudoku::new(vec![9; SIZE].into_iter()).unwrap();
    assert!(s.solved());
}

#[test]
fn solve() {
    let mut s = solvable_field_helper();
    let res = s.solve();
    assert!(res.is_ok());
    assert!(s.solved());
}

#[test]
fn solve_empty() {
    let mut s = Sudoku::new(vec![0; SIZE].into_iter()).unwrap();
    assert!(s.solve().is_ok());
    assert!(s.solved());
}
