use sudoku::add;
use sudoku::grid::GridContent;

fn test_grid() -> GridContent {
    GridContent::new([
        [11, 12, 13, 14, 15, 16, 17, 18, 19],
        [21, 22, 23, 24, 25, 26, 27, 28, 29],
        [31, 32, 33, 34, 35, 36, 37, 38, 39],
        [41, 42, 43, 44, 45, 46, 47, 48, 49],
        [51, 52, 53, 54, 55, 56, 57, 58, 59],
        [61, 62, 63, 64, 65, 66, 67, 68, 69],
        [71, 72, 73, 74, 75, 76, 77, 78, 79],
        [81, 82, 83, 84, 85, 86, 87, 88, 89],
        [91, 92, 93, 94, 95, 96, 97, 98, 99],
    ])
}

fn empty_grid() -> GridContent {
    GridContent::new([[0; 9]; 9])
}

const COMPLETED: [[u8; 9]; 9] = [
    [5, 3, 4, 6, 7, 8, 9, 1, 2],
    [6, 7, 2, 1, 9, 5, 3, 4, 8],
    [1, 9, 8, 3, 4, 2, 5, 6, 7],
    [8, 5, 9, 7, 6, 1, 4, 2, 3],
    [4, 2, 6, 8, 5, 3, 7, 9, 1],
    [7, 1, 3, 9, 2, 4, 8, 5, 6],
    [9, 6, 1, 5, 3, 7, 2, 8, 4],
    [2, 8, 7, 4, 1, 9, 6, 3, 5],
    [3, 4, 5, 2, 8, 6, 1, 7, 9],
];

fn completed_grid() -> GridContent {
    GridContent::new(COMPLETED)
}

fn invalid_row_grid() -> GridContent {
    GridContent::new([
        [5, 3, 6, 6, 7, 8, 9, 1, 2],
        [0, 7, 2, 1, 9, 5, 3, 4, 8],
        [1, 9, 8, 3, 4, 2, 5, 6, 7],
        [8, 5, 9, 7, 6, 1, 4, 2, 3],
        [4, 2, 0, 8, 5, 3, 7, 9, 1],
        [7, 1, 3, 9, 2, 4, 8, 5, 6],
        [9, 6, 1, 5, 3, 7, 2, 8, 4],
        [2, 8, 7, 4, 1, 9, 6, 3, 5],
        [3, 4, 5, 2, 8, 6, 1, 7, 9],
    ])
}

fn invalid_col_grid() -> GridContent {
    GridContent::new([
        [5, 3, 4, 6, 7, 8, 9, 1, 2],
        [6, 7, 2, 1, 9, 5, 4, 0, 8],
        [1, 9, 8, 3, 4, 2, 5, 6, 7],
        [8, 5, 9, 7, 6, 1, 4, 2, 3],
        [4, 2, 6, 8, 5, 3, 7, 9, 1],
        [7, 1, 3, 9, 2, 4, 8, 5, 6],
        [9, 6, 1, 5, 3, 7, 2, 8, 4],
        [2, 8, 7, 4, 1, 9, 6, 3, 5],
        [3, 4, 5, 2, 8, 6, 1, 7, 9],
    ])
}

fn invalid_sec_grid() -> GridContent {
    GridContent::new([
        [5, 3, 4, 6, 7, 8, 9, 1, 2],
        [6, 7, 2, 1, 9, 5, 3, 4, 8],
        [1, 9, 8, 3, 4, 2, 5, 6, 7],
        [8, 0, 9, 5, 6, 1, 4, 2, 3],
        [4, 2, 6, 8, 5, 3, 7, 9, 1],
        [7, 1, 3, 9, 2, 4, 8, 5, 6],
        [9, 6, 1, 0, 3, 7, 2, 8, 4],
        [2, 8, 7, 4, 1, 9, 6, 3, 5],
        [3, 4, 5, 2, 8, 6, 1, 7, 9],
    ])
}

fn invalid_too_great_grid() -> GridContent {
    GridContent::new([
        [5, 3, 4, 6, 7, 8, 9, 1, 2],
        [6, 7, 2, 1, 9, 5, 3, 4, 8],
        [1, 9, 8, 3, 4, 2, 5, 6, 7],
        [8, 5, 9, 7, 6, 1, 4, 2, 3],
        [4, 2, 6, 8, 5, 3, 7, 16, 1],
        [7, 1, 3, 9, 2, 4, 8, 5, 6],
        [9, 6, 1, 5, 3, 7, 2, 8, 4],
        [2, 8, 7, 4, 1, 9, 6, 3, 5],
        [3, 4, 5, 2, 8, 6, 1, 7, 9],
    ])
}

fn almost_completed_grid() -> GridContent {
    GridContent::new([
        [5, 3, 4, 6, 7, 8, 9, 1, 2],
        [6, 7, 2, 1, 9, 5, 3, 4, 8],
        [1, 9, 8, 0, 4, 2, 5, 6, 7],
        [8, 5, 9, 7, 6, 1, 4, 2, 3],
        [4, 2, 6, 8, 5, 3, 7, 9, 1],
        [7, 1, 3, 9, 2, 4, 8, 5, 6],
        [9, 6, 1, 5, 3, 7, 2, 8, 4],
        [2, 8, 7, 4, 1, 9, 6, 3, 5],
        [3, 4, 5, 2, 8, 6, 1, 7, 9],
    ])
}

fn easy_row_grid() -> GridContent {
    GridContent::new([
        [0, 0, 0, 0, 0, 0, 0, 0, 0],
        [0, 0, 0, 0, 0, 0, 0, 0, 0],
        [0, 0, 0, 0, 0, 0, 0, 0, 0],
        [0, 0, 0, 0, 0, 0, 0, 0, 0],
        [0, 0, 0, 0, 0, 0, 0, 0, 0],
        [4, 2, 6, 8, 5, 0, 7, 9, 1],
        [0, 0, 0, 0, 0, 0, 0, 0, 0],
        [0, 0, 0, 0, 0, 0, 0, 0, 0],
        [0, 0, 0, 0, 0, 0, 0, 0, 0],
    ])
}

fn easy_col_grid() -> GridContent {
    GridContent::new([
        [0, 0, 0, 0, 0, 0, 0, 1, 0],
        [0, 0, 0, 0, 0, 0, 0, 4, 0],
        [0, 0, 0, 0, 0, 0, 0, 6, 0],
        [0, 0, 0, 0, 0, 0, 0, 2, 0],
        [0, 0, 0, 0, 0, 0, 0, 0, 0],
        [0, 0, 0, 0, 0, 0, 0, 5, 0],
        [0, 0, 0, 0, 0, 0, 0, 8, 0],
        [0, 0, 0, 0, 0, 0, 0, 3, 0],
        [0, 0, 0, 0, 0, 0, 0, 7, 0],
    ])
}

fn easy_sec_grid() -> GridContent {
    GridContent::new([
        [0, 0, 0, 0, 0, 0, 0, 0, 0],
        [0, 0, 0, 0, 0, 0, 0, 0, 0],
        [0, 0, 0, 0, 0, 0, 0, 0, 0],
        [0, 0, 0, 0, 0, 0, 0, 0, 0],
        [0, 0, 0, 0, 0, 0, 0, 0, 0],
        [0, 0, 0, 0, 0, 0, 0, 0, 0],
        [0, 0, 0, 5, 3, 7, 0, 0, 0],
        [0, 0, 0, 4, 1, 9, 0, 0, 0],
        [0, 0, 0, 0, 8, 6, 0, 0, 0],
    ])
}

fn unique_grid() -> GridContent {
    GridContent::new([
        [0, 0, 0, 0, 0, 0, 1, 2, 0],
        [0, 0, 0, 0, 0, 0, 0, 0, 0],
        [0, 0, 0, 1, 2, 0, 0, 0, 0],
        [1, 0, 0, 0, 0, 0, 0, 0, 0],
        [2, 0, 0, 0, 0, 0, 0, 0, 0],
        [0, 0, 0, 0, 0, 0, 0, 0, 0],
        [0, 0, 0, 0, 0, 0, 0, 0, 0],
        [0, 0, 2, 0, 0, 0, 0, 0, 0],
        [0, 0, 1, 0, 0, 0, 0, 0, 0],
    ])
}

fn force_grid() -> GridContent {
    GridContent::new([
        [0, 0, 3, 0, 0, 0, 0, 0, 0],
        [0, 0, 2, 0, 0, 0, 0, 0, 0],
        [0, 0, 1, 0, 0, 0, 0, 0, 0],
        [0, 4, 0, 0, 0, 0, 0, 0, 0],
        [0, 3, 0, 0, 0, 0, 0, 0, 0],
        [0, 2, 0, 0, 0, 0, 0, 0, 0],
        [3, 6, 0, 0, 0, 0, 0, 0, 0],
        [2, 5, 0, 0, 0, 0, 0, 0, 0],
        [4, 0, 0, 0, 0, 0, 0, 0, 0],
    ])
}

fn force_grid_2() -> GridContent {
    GridContent::new([
        [4, 8, 3, 7, 1, 6, 5, 9, 2],
        [0, 0, 1, 0, 0, 0, 4, 0, 0],
        [9, 0, 6, 2, 0, 4, 8, 0, 1],
        [8, 0, 7, 0, 0, 0, 6, 0, 5],
        [6, 0, 2, 0, 0, 0, 9, 0, 0],
        [1, 0, 5, 0, 6, 0, 7, 0, 4],
        [3, 0, 4, 6, 0, 2, 1, 0, 9],
        [0, 0, 9, 0, 0, 0, 2, 4, 0],
        [0, 0, 8, 4, 0, 9, 3, 0, 0],
    ])
}

fn puzzle_1() -> GridContent {
    GridContent::new([
        [0, 0, 0, 6, 0, 3, 5, 0, 4],
        [9, 0, 4, 5, 1, 0, 3, 0, 0],
        [0, 3, 0, 0, 0, 2, 0, 0, 0],
        [3, 9, 0, 0, 0, 0, 6, 4, 0],
        [0, 6, 0, 3, 4, 0, 7, 1, 0],
        [0, 4, 2, 0, 0, 0, 0, 3, 8],
        [0, 5, 0, 1, 0, 0, 0, 9, 0],
        [0, 0, 1, 0, 5, 7, 2, 6, 0],
        [0, 0, 9, 2, 0, 4, 8, 0, 0],
    ])
}

fn puzzle_2() -> GridContent {
    GridContent::new([
        [0, 0, 3, 7, 0, 6, 5, 0, 0],
        [0, 0, 0, 0, 0, 0, 0, 0, 0],
        [9, 0, 0, 2, 0, 4, 0, 0, 1],
        [8, 0, 7, 0, 0, 0, 6, 0, 5],
        [0, 0, 0, 0, 0, 0, 0, 0, 0],
        [1, 0, 5, 0, 0, 0, 7, 0, 4],
        [3, 0, 0, 6, 0, 2, 0, 0, 9],
        [0, 0, 9, 0, 0, 0, 0, 0, 0],
        [0, 0, 8, 4, 0, 9, 3, 0, 0],
    ])
}

fn assert_grid_eq(g: &GridContent, expected: [[u8; 9]; 9]) {
    for r in 0..9usize {
        assert_eq!(g.row(r), expected[r]);
    }
}

#[test]
fn it_works() {
    let result = add(2, 2);
    assert_eq!(result, 4);
}

#[test]
fn row_3() {
    assert_eq!(test_grid().row(3), [41, 42, 43, 44, 45, 46, 47, 48, 49]);
}

#[test]
fn col_3() {
    assert_eq!(test_grid().col(3), [14, 24, 34, 44, 54, 64, 74, 84, 94]);
}

#[test]
fn sec_1x1() {
    assert_eq!(
        test_grid().sec(1, 1),
        [[44, 45, 46,], [54, 55, 56,], [64, 65, 66,],]
    );
}

#[test]
fn is_solved() {
    assert!(completed_grid().is_solved());
    assert!(!empty_grid().is_solved());
    assert!(!almost_completed_grid().is_solved());
}

#[test]
fn is_valid_sudoku() {
    assert!(completed_grid().is_valid_sudoku());
    assert!(empty_grid().is_valid_sudoku());
    assert!(almost_completed_grid().is_valid_sudoku());
    assert!(easy_row_grid().is_valid_sudoku());
    assert!(easy_col_grid().is_valid_sudoku());
    assert!(easy_sec_grid().is_valid_sudoku());
    assert!(!test_grid().is_valid_sudoku());
    assert!(!invalid_row_grid().is_valid_sudoku());
    assert!(!invalid_col_grid().is_valid_sudoku());
    assert!(!invalid_sec_grid().is_valid_sudoku());
    assert!(!invalid_too_great_grid().is_valid_sudoku());
}

#[test]
fn find_easy_row() {
    assert_eq!(completed_grid().find_easy_row(), None);
    assert_eq!(empty_grid().find_easy_row(), None);
    assert_eq!(almost_completed_grid().find_easy_row(), Some((2, 3, 3)));
    assert_eq!(easy_row_grid().find_easy_row(), Some((5, 5, 3)));
    assert_eq!(easy_col_grid().find_easy_row(), None);
    assert_eq!(easy_sec_grid().find_easy_row(), None);
}

#[test]
fn find_easy_col() {
    assert_eq!(completed_grid().find_easy_col(), None);
    assert_eq!(empty_grid().find_easy_col(), None);
    assert_eq!(almost_completed_grid().find_easy_col(), Some((2, 3, 3)));
    assert_eq!(easy_row_grid().find_easy_col(), None);
    assert_eq!(easy_col_grid().find_easy_col(), Some((4, 7, 9)));
    assert_eq!(easy_sec_grid().find_easy_col(), None);
}

#[test]
fn find_easy_sec() {
    assert_eq!(completed_grid().find_easy_sec(), None);
    assert_eq!(empty_grid().find_easy_sec(), None);
    assert_eq!(almost_completed_grid().find_easy_sec(), Some((2, 3, 3)));
    assert_eq!(easy_row_grid().find_easy_sec(), None);
    assert_eq!(easy_col_grid().find_easy_sec(), None);
    assert_eq!(easy_sec_grid().find_easy_sec(), Some((8, 3, 2)));
}

#[test]
fn missing_numbers() {
    assert_eq!(completed_grid().missing_numbers(0, 0), []);
    assert_eq!(empty_grid().missing_numbers(0, 0), [1, 2, 3, 4, 5, 6, 7, 8, 9]);
    assert_eq!(almost_completed_grid().missing_numbers(2, 3), [3]);
    assert_eq!(almost_completed_grid().missing_numbers(1, 3), []);
    assert_eq!(easy_row_grid().missing_numbers(5, 0), []);
}

#[test]
fn unique_missing_numbers() {
    assert_eq!(unique_grid().unique_missing_numbers(1, 1), [1, 2]);
    assert_eq!(force_grid().unique_missing_numbers(8, 1), [1]);
    assert_eq!(force_grid_2().unique_missing_numbers(8, 1), [1]);
}

#[test]
fn solve() {
    let solved = almost_completed_grid().solve().unwrap();
    assert_grid_eq(&solved, COMPLETED);
    assert!(empty_grid().solve().is_err());
    assert!(invalid_sec_grid().solve().is_err());
    let solved_1 = puzzle_1().solve().unwrap();
    assert_grid_eq(
        &solved_1,
        [
            [7, 1, 8, 6, 9, 3, 5, 2, 4],
            [9, 2, 4, 5, 1, 8, 3, 7, 6],
            [5, 3, 6, 4, 7, 2, 1, 8, 9],
            [3, 9, 7, 8, 2, 1, 6, 4, 5],
            [8, 6, 5, 3, 4, 9, 7, 1, 2],
            [1, 4, 2, 7, 6, 5, 9, 3, 8],
            [2, 5, 3, 1, 8, 6, 4, 9, 7],
            [4, 8, 1, 9, 5, 7, 2, 6, 3],
            [6, 7, 9, 2, 3, 4, 8, 5, 1],
        ],
    );
    let solved_2 = puzzle_2().solve().unwrap();
    assert_grid_eq(
        &solved_2,
        [
            [4, 8, 3, 7, 1, 6, 5, 9, 2],
            [7, 2, 1, 8, 9, 5, 4, 6, 3],
            [9, 5, 6, 2, 3, 4, 8, 7, 1],
            [8, 4, 7, 9, 2, 1, 6, 3, 5],
            [6, 3, 2, 5, 4, 7, 9, 1, 8],
            [1, 9, 5, 3, 6, 8, 7, 2, 4],
            [3, 7, 4, 6, 5, 2, 1, 8, 9],
            [5, 6, 9, 1, 8, 3, 2, 4, 7],
            [2, 1, 8, 4, 7, 9, 3, 5, 6],
        ],
    );
}

#[test]
fn solve_is_deterministic() {
    let first = puzzle_1().solve().unwrap();
    let second = puzzle_1().solve().unwrap();
    for r in 0..9usize {
        assert_eq!(first.row(r), second.row(r));
    }
    let e1 = empty_grid().solve().unwrap_err();
    let e2 = empty_grid().solve().unwrap_err();
    assert_eq!(e1, e2);
}

#[test]
fn solve_returns_solved_input_unchanged() {
    let out = completed_grid().solve().unwrap();
    assert_grid_eq(&out, COMPLETED);
    assert!(out.is_solved());
}

#[test]
fn solve_error_kinds() {
    assert_eq!(invalid_row_grid().solve().unwrap_err(), "Not valid");
    assert_eq!(invalid_too_great_grid().solve().unwrap_err(), "Not valid");
    assert_eq!(empty_grid().solve().unwrap_err(), "Cannot find next move");
}

#[test]
fn missing_numbers_cache_warm_equivalence() {
    // A warmed cache must not change any answer.
    let mut cold = almost_completed_grid();
    let mut warm = almost_completed_grid();
    for r in 0..9usize {
        for c in 0..9usize {
            warm.missing_numbers(r, c);
        }
    }
    warm.unique_missing_numbers(2, 3);
    for r in 0..9usize {
        for c in 0..9usize {
            assert_eq!(cold.missing_numbers(r, c), warm.missing_numbers(r, c));
        }
    }
    assert_eq!(
        cold.unique_missing_numbers(2, 3),
        warm.unique_missing_numbers(2, 3)
    );
    // Asking twice gives the same answer as asking once.
    let mut twice = almost_completed_grid();
    assert_eq!(twice.missing_numbers(2, 3), [3]);
    assert_eq!(twice.missing_numbers(2, 3), [3]);
}

#[test]
fn invalidation_updates_cached_entries() {
    let mut g = empty_grid();
    assert_eq!(g.missing_numbers(5, 5), [1, 2, 3, 4, 5, 6, 7, 8, 9]);
    // Record an assignment of 5 to the row peer (5, 3): the assigned cell's
    // entry becomes empty and cached peers lose the value.
    g.remove_number_from_related_cells(5, 3, 5);
    assert_eq!(g.missing_numbers(5, 3), []);
    assert_eq!(g.missing_numbers(5, 5), [1, 2, 3, 4, 6, 7, 8, 9]);
    // A cell with no cached entry is computed fresh from the grid.
    assert_eq!(g.missing_numbers(0, 0), [1, 2, 3, 4, 5, 6, 7, 8, 9]);
}

#[test]
fn is_valid_ignores_empties_and_out_of_range() {
    assert!(GridContent::is_valid(&[1, 2, 3, 4, 5, 6, 7, 8, 9]));
    assert!(GridContent::is_valid(&[0, 0, 0, 12, 12, 0]));
    assert!(!GridContent::is_valid(&[5, 0, 5]));
    assert!(GridContent::is_valid(&[]));
}

// A valid grid in which each single-gap group's missing value collides with
// the gap cell's other groups: row 0 misses 1, but column 0 and sector 0
// already hold 1; row 2 misses 7, but column 3 already holds 7.
fn conflicting_gaps_grid() -> GridContent {
    GridContent::new([
        [0, 2, 3, 4, 5, 6, 7, 8, 9],
        [4, 5, 6, 7, 8, 9, 1, 2, 3],
        [1, 8, 9, 0, 2, 3, 4, 5, 6],
        [2, 3, 4, 5, 6, 7, 8, 9, 1],
        [5, 6, 7, 8, 9, 1, 2, 3, 4],
        [8, 9, 1, 2, 3, 4, 5, 6, 7],
        [3, 4, 5, 6, 7, 8, 9, 1, 2],
        [6, 7, 8, 9, 1, 2, 3, 4, 5],
        [9, 1, 2, 3, 4, 5, 6, 7, 8],
    ])
}

#[test]
fn single_gap_rules_respect_all_groups() {
    let g = conflicting_gaps_grid();
    assert!(g.is_valid_sudoku());
    // No rule may commit a value that conflicts with the cell's column or
    // sector, so deduction stops rather than fill the grid invalidly.
    assert_eq!(g.find_easy_row(), None);
    assert_eq!(g.find_easy_col(), None);
    assert_eq!(g.find_easy_sec(), None);
    assert_eq!(
        conflicting_gaps_grid().solve().unwrap_err(),
        "Cannot find next move"
    );
}

#[test]
fn solved_output_is_valid() {
    let solved = almost_completed_grid().solve().unwrap();
    assert!(solved.is_solved());
    assert!(solved.is_valid_sudoku());
    let solved_1 = puzzle_1().solve().unwrap();
    assert!(solved_1.is_solved());
    assert!(solved_1.is_valid_sudoku());
}
