use sudoku::Sudoku;

/// The sample puzzle: a well-posed hard puzzle with a unique solution.
fn hard_puzzle() -> [[u8; 9]; 9] {
    [
        [8, 0, 0, 0, 0, 0, 0, 0, 0],
        [0, 0, 3, 6, 0, 0, 0, 0, 0],
        [0, 7, 0, 0, 9, 0, 2, 0, 0],
        [0, 5, 0, 0, 0, 7, 0, 0, 0],
        [0, 0, 0, 0, 4, 5, 7, 0, 0],
        [0, 0, 0, 1, 0, 0, 0, 3, 0],
        [0, 0, 1, 0, 0, 0, 0, 6, 8],
        [0, 0, 8, 5, 0, 0, 0, 1, 0],
        [0, 9, 0, 0, 0, 0, 4, 0, 0],
    ]
}

/// A fully solved grid: each row shifts the previous band by one.
fn solved_grid() -> [[u8; 9]; 9] {
    [
        [1, 2, 3, 4, 5, 6, 7, 8, 9],
        [4, 5, 6, 7, 8, 9, 1, 2, 3],
        [7, 8, 9, 1, 2, 3, 4, 5, 6],
        [2, 3, 4, 5, 6, 7, 8, 9, 1],
        [5, 6, 7, 8, 9, 1, 2, 3, 4],
        [8, 9, 1, 2, 3, 4, 5, 6, 7],
        [3, 4, 5, 6, 7, 8, 9, 1, 2],
        [6, 7, 8, 9, 1, 2, 3, 4, 5],
        [9, 1, 2, 3, 4, 5, 6, 7, 8],
    ]
}

/// A grid that passes construction but has no completion: row 0 forces a 9 in
/// its last cell, while column 8 already holds a 9.
fn contradictory_grid() -> [[u8; 9]; 9] {
    let mut g = [[0u8; 9]; 9];
    g[0] = [1, 2, 3, 4, 5, 6, 7, 8, 0];
    g[1][8] = 9;
    g
}

fn cells_of(s: &Sudoku) -> Vec<u8> {
    let mut out = Vec::new();
    for r in 0..9 {
        for c in 0..9 {
            out.push(s.get(r, c));
        }
    }
    out
}

/// Checks all 27 unit constraints by hand, independently of the library.
fn check_all_units(s: &Sudoku) {
    for r in 0..9 {
        let mut seen = [false; 10];
        for c in 0..9 {
            let v = s.get(r, c) as usize;
            assert!((1..=9).contains(&v), "row {} col {} out of range", r, c);
            assert!(!seen[v], "row {} repeats {}", r, v);
            seen[v] = true;
        }
    }
    for c in 0..9 {
        let mut seen = [false; 10];
        for r in 0..9 {
            let v = s.get(r, c) as usize;
            assert!(!seen[v], "column {} repeats {}", c, v);
            seen[v] = true;
        }
    }
    for b in 0..9 {
        let mut seen = [false; 10];
        for k in 0..9 {
            let r = (b / 3) * 3 + k / 3;
            let c = (b % 3) * 3 + k % 3;
            let v = s.get(r, c) as usize;
            assert!(!seen[v], "box {} repeats {}", b, v);
            seen[v] = true;
        }
    }
}

#[test]
fn construction_accepts_hard_puzzle() {
    assert!(Sudoku::new(hard_puzzle()).is_ok());
}

#[test]
fn construction_rejects_duplicate_in_row() {
    let mut g = [[0u8; 9]; 9];
    g[0][0] = 5;
    g[0][7] = 5;
    assert!(Sudoku::new(g).is_err());
}

#[test]
fn construction_rejects_duplicate_in_column() {
    let mut g = [[0u8; 9]; 9];
    g[1][4] = 3;
    g[8][4] = 3;
    assert!(Sudoku::new(g).is_err());
}

#[test]
fn construction_rejects_duplicate_in_box() {
    let mut g = [[0u8; 9]; 9];
    g[3][0] = 2;
    g[5][2] = 2;
    assert!(Sudoku::new(g).is_err());
}

#[test]
fn construction_rejects_value_above_nine() {
    let mut g = [[0u8; 9]; 9];
    g[4][4] = 10;
    assert!(Sudoku::new(g).is_err());
}

#[test]
fn construction_allows_repeated_placeholders() {
    assert!(Sudoku::new([[0u8; 9]; 9]).is_ok());
}

#[test]
fn solves_hard_puzzle() {
    let puzzle = hard_puzzle();
    let mut s = Sudoku::new(puzzle).unwrap();
    assert!(s.solve());
    assert!(s.is_fully_solved());
    check_all_units(&s);
    for r in 0..9 {
        for c in 0..9 {
            if puzzle[r][c] != 0 {
                assert_eq!(s.get(r, c), puzzle[r][c], "clue at ({}, {}) moved", r, c);
            }
        }
    }
}

#[test]
fn solves_empty_grid() {
    let mut s = Sudoku::new([[0u8; 9]; 9]).unwrap();
    assert!(s.solve());
    assert!(s.is_fully_solved());
    check_all_units(&s);
    // The search fills the first empty cell first, smallest digit first, so it
    // finds the lexicographically least completion: its first row ascends.
    assert_eq!(s.get_row(0), vec![1, 2, 3, 4, 5, 6, 7, 8, 9]);
}

#[test]
fn unsolvable_grid_is_restored() {
    let g = contradictory_grid();
    let mut s = Sudoku::new(g).unwrap();
    let before = cells_of(&s);
    assert!(!s.solve());
    assert_eq!(cells_of(&s), before);
    for r in 0..9 {
        for c in 0..9 {
            assert_eq!(s.get(r, c), g[r][c]);
        }
    }
}

#[test]
fn solve_on_solved_grid_returns_true_without_mutation() {
    let g = solved_grid();
    let mut s = Sudoku::new(g).unwrap();
    assert_eq!(s.empty_cell_count(), 0);
    assert!(s.is_fully_solved());
    assert!(s.solve());
    for r in 0..9 {
        for c in 0..9 {
            assert_eq!(s.get(r, c), g[r][c]);
        }
    }
}

#[test]
fn repeated_solves_give_identical_grids() {
    let mut a = Sudoku::new(hard_puzzle()).unwrap();
    let mut b = Sudoku::new(hard_puzzle()).unwrap();
    assert!(a.solve());
    assert!(b.solve());
    assert_eq!(cells_of(&a), cells_of(&b));
}

#[test]
fn empty_grid_repeated_solves_agree() {
    let mut a = Sudoku::new([[0u8; 9]; 9]).unwrap();
    let mut b = Sudoku::new([[0u8; 9]; 9]).unwrap();
    assert!(a.solve());
    assert!(b.solve());
    assert_eq!(cells_of(&a), cells_of(&b));
}

#[test]
fn empty_cell_count_matches_placeholders() {
    let s = Sudoku::new(hard_puzzle()).unwrap();
    let zeros = hard_puzzle().iter().flatten().filter(|&&v| v == 0).count();
    assert_eq!(s.empty_cell_count(), zeros);
}

#[test]
fn get_row_column_and_box() {
    let s = Sudoku::new(hard_puzzle()).unwrap();
    assert_eq!(s.get_row(2), vec![0, 7, 0, 0, 9, 0, 2, 0, 0]);
    assert_eq!(s.get_column(1), vec![0, 0, 7, 5, 0, 0, 0, 0, 9]);
    assert_eq!(s.get_box_vals(0), vec![8, 0, 0, 0, 0, 3, 0, 7, 0]);
    assert_eq!(s.get_box_of_cell(1, 2), vec![8, 0, 0, 0, 0, 3, 0, 7, 0]);
    assert_eq!(s.get_box_vals(8), vec![0, 6, 8, 0, 1, 0, 4, 0, 0]);
}

#[test]
fn find_next_free_cell_is_first_in_row_major_order() {
    let s = Sudoku::new(hard_puzzle()).unwrap();
    assert_eq!(s.find_next_free_cell(), Some((0, 1)));
    let t = Sudoku::new(solved_grid()).unwrap();
    assert_eq!(t.find_next_free_cell(), None);
}

#[test]
fn candidates_are_ascending_and_exact() {
    let s = Sudoku::new(hard_puzzle()).unwrap();
    assert_eq!(s.get_possible_values(0, 1), vec![1, 2, 4, 6]);
    let t = Sudoku::new([[0u8; 9]; 9]).unwrap();
    assert_eq!(t.get_possible_values(4, 4), vec![1, 2, 3, 4, 5, 6, 7, 8, 9]);
}

#[test]
fn unit_checks_on_plain_vectors() {
    let s = Sudoku::new([[0u8; 9]; 9]).unwrap();
    assert!(s.is_one_to_nine(&vec![9, 8, 7, 6, 5, 4, 3, 2, 1]));
    assert!(!s.is_one_to_nine(&vec![1, 2, 3, 4, 5, 6, 7, 8, 8]));
    assert!(!s.is_one_to_nine(&vec![1, 2, 3, 4, 5, 6, 7, 8]));
    assert!(!s.is_one_to_nine(&vec![0, 2, 3, 4, 5, 6, 7, 8, 9]));
    assert!(s.is_valid_vector(&vec![0, 0, 0, 1, 0, 0, 2, 0, 0]));
    assert!(!s.is_valid_vector(&vec![5, 0, 0, 5, 0, 0, 0, 0, 0]));
    assert!(!s.is_valid_vector(&vec![0, 0, 0, 0, 0, 0, 0, 0, 10]));
}
