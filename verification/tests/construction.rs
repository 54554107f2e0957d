use sudoku_solver::grid::{check_grid, GridError};
use sudoku_solver::puzzle::Puzzle;

fn diagonal() -> Vec<Vec<isize>> {
    vec![
        vec![1, 0, 0, 0, 0, 0, 0, 0, 0],
        vec![0, 2, 0, 0, 0, 0, 0, 0, 0],
        vec![0, 0, 3, 0, 0, 0, 0, 0, 0],
        vec![0, 0, 0, 4, 0, 0, 0, 0, 0],
        vec![0, 0, 0, 0, 5, 0, 0, 0, 0],
        vec![0, 0, 0, 0, 0, 6, 0, 0, 0],
        vec![0, 0, 0, 0, 0, 0, 7, 0, 0],
        vec![0, 0, 0, 0, 0, 0, 0, 8, 0],
        vec![0, 0, 0, 0, 0, 0, 0, 0, 9],
    ]
}

fn classic() -> Vec<Vec<isize>> {
    vec![
        vec![0, 0, 9, 0, 1, 6, 0, 4, 2],
        vec![1, 0, 4, 2, 0, 9, 0, 6, 0],
        vec![0, 2, 0, 0, 0, 8, 7, 0, 0],
        vec![3, 5, 0, 0, 9, 0, 1, 0, 0],
        vec![0, 6, 7, 4, 0, 1, 9, 0, 5],
        vec![0, 0, 0, 7, 5, 0, 0, 8, 6],
        vec![0, 9, 0, 0, 0, 4, 8, 5, 7],
        vec![8, 0, 0, 9, 6, 0, 0, 2, 0],
        vec![4, 7, 0, 8, 0, 5, 0, 0, 0],
    ]
}

#[test]
fn test_new() {
    let input = diagonal();
    let puzz = Puzzle::new(input);
    assert!(matches!(puzz, Ok(_)));
    let puzz = puzz.unwrap();
    for i in 0..9 {
        assert_eq!(true, puzz.row_contains(i, i as u8 + 1))
    }
    for i in 0..9 {
        assert_eq!(true, puzz.col_contains(i, i as u8 + 1))
    }
    assert_eq!(true, puzz.box_contains(0, 1));
    assert_eq!(true, puzz.box_contains(0, 2));
    assert_eq!(true, puzz.box_contains(0, 3));
    assert_eq!(true, puzz.box_contains(4, 4));
    assert_eq!(true, puzz.box_contains(4, 5));
    assert_eq!(true, puzz.box_contains(4, 6));
    assert_eq!(true, puzz.box_contains(8, 7));
    assert_eq!(true, puzz.box_contains(8, 8));
    assert_eq!(true, puzz.box_contains(8, 9));
}

#[test]
fn test_new_errs() {
    let input = vec![
        vec![1, 0, 0, 0, 0, 0, 0, 0, 0],
        vec![0, 1, 0, 0, 0, 0, 0, 0, 0],
    ];
    let puzz = Puzzle::new(input);
    assert_eq!(puzz, Err("expected 9 rows"));
    let input = vec![
        vec![1, 0, 0, 0, 0, 0, 0, 0, 0],
        vec![0, 2, 0, 0, 0, 0, 0, 0, 0],
        vec![0, 0, 3, 0, 0, 0, 0, 0, 0],
        vec![0, 0, 0, 4, 0, 0, 0, 0, 0],
        vec![0, 0, 0, 0, 5, 0, 0, 0, 0],
        vec![0, 0, 0, 0, 0, 6, 0, 0, 0],
        vec![0, 0, 0, 0, 0, 0, 7, 0, 0],
        vec![0, 0, 0, 0, 0, 0, 0, 8, 0],
        vec![0, 0, 0, 0, 0, 0, 0, 0],
    ];
    let puzz = Puzzle::new(input);
    assert_eq!(puzz, Err("expected 9 columns"));
    let input = vec![
        vec![1, 0, 0, 0, 0, 0, 0, 0, 0],
        vec![0, 2, 0, 0, 0, 0, 0, 0, 0],
        vec![0, 0, 3, 0, 0, 0, 0, 0, 0],
        vec![0, 0, 0, 4, 0, 0, 0, 0, 0],
        vec![0, 0, 0, 0, 5, 0, 0, 0, 0],
        vec![0, 0, 0, 0, 0, 6, 0, 0, 0],
        vec![0, 0, 0, 0, 0, 0, 7, 0, 0],
        vec![0, 0, 0, 0, 0, 0, 0, 8, 0],
        vec![0, 0, 0, 0, 0, 0, 0, 0, 10],
    ];
    let puzz = Puzzle::new(input);
    assert_eq!(puzz, Err("expected numbers 0-9"));
}

#[test]
fn new_records_only_what_the_cells_hold() {
    let puzz = Puzzle::new(diagonal()).unwrap();
    for g in 0..9usize {
        for d in 0..=10u8 {
            assert_eq!(d == g as u8 + 1, puzz.row_contains(g, d));
            assert_eq!(d == g as u8 + 1, puzz.col_contains(g, d));
            assert_eq!(false, puzz.box_contains(g, 0));
        }
    }
    for d in 1..=9u8 {
        assert_eq!(d <= 3, puzz.box_contains(0, d));
        assert_eq!(false, puzz.box_contains(1, d));
        assert_eq!(4 <= d && d <= 6, puzz.box_contains(4, d));
        assert_eq!(7 <= d, puzz.box_contains(8, d));
    }
}

#[test]
fn eight_rows_are_refused() {
    let mut input = diagonal();
    input.pop();
    assert_eq!(Err(GridError::InvalidRowCount), check_grid(&input));
    assert_eq!(Puzzle::new(input), Err("expected 9 rows"));
}

#[test]
fn ten_rows_are_refused() {
    let mut input = diagonal();
    input.push(vec![0; 9]);
    assert_eq!(Err(GridError::InvalidRowCount), check_grid(&input));
    assert_eq!(Puzzle::new(input), Err("expected 9 rows"));
}

#[test]
fn no_rows_are_refused() {
    let input: Vec<Vec<isize>> = Vec::new();
    assert_eq!(Err(GridError::InvalidRowCount), check_grid(&input));
    assert_eq!(Puzzle::new(input), Err("expected 9 rows"));
}

#[test]
fn a_row_of_eight_is_refused() {
    let mut input = diagonal();
    input[4].pop();
    assert_eq!(Err(GridError::InvalidColumnCount), check_grid(&input));
    assert_eq!(Puzzle::new(input), Err("expected 9 columns"));
}

#[test]
fn a_row_of_ten_is_refused() {
    let mut input = diagonal();
    input[0].push(0);
    assert_eq!(Err(GridError::InvalidColumnCount), check_grid(&input));
    assert_eq!(Puzzle::new(input), Err("expected 9 columns"));
}

#[test]
fn ten_is_refused() {
    let mut input = diagonal();
    input[3][7] = 10;
    assert_eq!(Err(GridError::InvalidDigit), check_grid(&input));
    assert_eq!(Puzzle::new(input), Err("expected numbers 0-9"));
}

#[test]
fn minus_one_is_refused() {
    let mut input = diagonal();
    input[0][0] = -1;
    assert_eq!(Err(GridError::InvalidDigit), check_grid(&input));
    assert_eq!(Puzzle::new(input), Err("expected numbers 0-9"));
}

#[test]
fn row_lengths_are_checked_before_entries() {
    let mut input = diagonal();
    input[0][0] = 12;
    input[8].pop();
    assert_eq!(Err(GridError::InvalidColumnCount), check_grid(&input));
    assert_eq!(Puzzle::new(input), Err("expected 9 columns"));
}

#[test]
fn row_count_is_checked_first() {
    let mut input = diagonal();
    input[0][0] = 12;
    input[1].pop();
    input.pop();
    assert_eq!(Err(GridError::InvalidRowCount), check_grid(&input));
    assert_eq!(Puzzle::new(input), Err("expected 9 rows"));
}

#[test]
fn a_good_grid_passes_the_check() {
    assert_eq!(Ok(()), check_grid(&diagonal()));
    assert_eq!(Ok(()), check_grid(&classic()));
    assert_eq!(Ok(()), check_grid(&vec![vec![0; 9]; 9]));
}

#[test]
fn messages() {
    assert_eq!("expected 9 rows", GridError::InvalidRowCount.message());
    assert_eq!("expected 9 columns", GridError::InvalidColumnCount.message());
    assert_eq!("expected numbers 0-9", GridError::InvalidDigit.message());
}

#[test]
fn grid_comes_back_unchanged() {
    for grid in [diagonal(), classic(), vec![vec![0; 9]; 9]] {
        let puzz = Puzzle::new(grid.clone()).unwrap();
        assert_eq!(grid, puzz.to_grid());
        let back: Vec<Vec<isize>> = puzz.into();
        assert_eq!(grid, back);
    }
}

#[test]
fn repeated_givens_are_accepted_and_come_back() {
    let mut grid = diagonal();
    grid[0][8] = 1;
    grid[1][0] = 1;
    let puzz = Puzzle::new(grid.clone()).unwrap();
    assert_eq!(true, puzz.row_contains(0, 1));
    assert_eq!(true, puzz.col_contains(0, 1));
    assert_eq!(grid, puzz.to_grid());
}

#[test]
fn to_grid_is_row_major() {
    let mut grid = vec![vec![0; 9]; 9];
    grid[2][7] = 5;
    let puzz = Puzzle::new(grid).unwrap();
    let out = puzz.to_grid();
    assert_eq!(9, out.len());
    for (r, row) in out.iter().enumerate() {
        assert_eq!(9, row.len());
        for (c, v) in row.iter().enumerate() {
            assert_eq!(if r == 2 && c == 7 { 5 } else { 0 }, *v);
        }
    }
    assert_eq!(true, puzz.row_contains(2, 5));
    assert_eq!(true, puzz.col_contains(7, 5));
    assert_eq!(true, puzz.box_contains(2, 5));
    assert_eq!(false, puzz.box_contains(5, 5));
}
