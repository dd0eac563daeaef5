use sudoku_tui::sudoku::{Difficulty, Sudoku};

type Grid = [[Option<u8>; 9]; 9];

/// A fixed full board: row r, column c holds (3r + r/3 + c) mod 9 + 1.
fn full_board() -> Grid {
    let mut g: Grid = [[None; 9]; 9];
    for r in 0..9 {
        for c in 0..9 {
            g[r][c] = Some(((3 * r + r / 3 + c) % 9 + 1) as u8);
        }
    }
    g
}

fn peers(r1: usize, c1: usize, r2: usize, c2: usize) -> bool {
    r1 == r2 || c1 == c2 || (r1 / 3 == r2 / 3 && c1 / 3 == c2 / 3)
}

fn is_consistent(g: &Grid) -> bool {
    for r1 in 0..9 {
        for c1 in 0..9 {
            for r2 in 0..9 {
                for c2 in 0..9 {
                    if (r1, c1) != (r2, c2) && peers(r1, c1, r2, c2) {
                        if let Some(v) = g[r1][c1] {
                            if g[r2][c2] == Some(v) {
                                return false;
                            }
                        }
                    }
                }
            }
        }
    }
    true
}

fn is_full(g: &Grid) -> bool {
    g.iter().all(|row| row.iter().all(|c| matches!(c, Some(1..=9))))
}

/// Independent count of the solutions of a board, up to `limit`.
fn count_solutions(g: &mut Grid, limit: usize) -> usize {
    for r in 0..9 {
        for c in 0..9 {
            if g[r][c].is_none() {
                let mut n = 0;
                for v in 1..=9u8 {
                    let mut ok = true;
                    for r2 in 0..9 {
                        for c2 in 0..9 {
                            if peers(r, c, r2, c2) && g[r2][c2] == Some(v) {
                                ok = false;
                            }
                        }
                    }
                    if ok {
                        g[r][c] = Some(v);
                        n += count_solutions(g, limit);
                        g[r][c] = None;
                        if n >= limit {
                            return n;
                        }
                    }
                }
                return n;
            }
        }
    }
    1
}

#[test]
fn next_cycles_through_all_difficulties() {
    assert_eq!(Difficulty::Easy.next(), Difficulty::Medium);
    assert_eq!(Difficulty::Medium.next(), Difficulty::Hard);
    assert_eq!(Difficulty::Hard.next(), Difficulty::Master);
    assert_eq!(Difficulty::Master.next(), Difficulty::Easy);
    let d = Difficulty::Hard;
    assert_eq!(d.next().next().next().next(), d);
}

#[test]
fn new_and_default_are_empty() {
    for s in [Sudoku::new(), Sudoku::default()] {
        for r in 0..9 {
            for c in 0..9 {
                assert_eq!(s.grid[r][c], None);
                assert!(!s.fixed[r][c]);
                assert!(!s.hint_filled[r][c]);
                assert!(!s.is_fixed(r, c));
            }
        }
        assert!(!s.is_complete());
    }
}

#[test]
fn is_valid_checks_row_column_and_box() {
    let mut s = Sudoku::new();
    s.grid[0][0] = Some(5);
    assert!(!s.is_valid(0, 8, 5)); // same row
    assert!(!s.is_valid(8, 0, 5)); // same column
    assert!(!s.is_valid(2, 2, 5)); // same box
    assert!(s.is_valid(4, 4, 5)); // unrelated cell
    assert!(s.is_valid(0, 8, 4)); // other digit
    // the cell itself counts within its box
    assert!(!s.is_valid(0, 0, 5));
    assert!(s.is_valid(0, 0, 6));
}

#[test]
fn set_fills_only_free_cells_with_valid_digits() {
    let mut s = Sudoku::new();
    assert!(s.set(3, 3, 7));
    assert_eq!(s.grid[3][3], Some(7));
    assert!(!s.set(3, 8, 7));
    assert_eq!(s.grid[3][8], None);
    s.fixed[0][0] = true;
    assert!(!s.set(0, 0, 1));
    assert_eq!(s.grid[0][0], None);
    s.hint_filled[1][1] = true;
    s.grid[1][1] = Some(2);
    assert!(!s.set(1, 1, 3));
    assert_eq!(s.grid[1][1], Some(2));
}

#[test]
fn set_hint_marks_the_cell_and_clear_respects_it() {
    let mut s = Sudoku::new();
    assert!(s.set_hint(4, 4, 9));
    assert_eq!(s.grid[4][4], Some(9));
    assert!(s.hint_filled[4][4]);
    s.clear(4, 4);
    assert_eq!(s.grid[4][4], Some(9));
    assert!(!s.set(4, 4, 1));
    s.fixed[5][5] = true;
    assert!(!s.set_hint(5, 5, 1));
    assert!(!s.hint_filled[5][5]);
    assert!(!s.set_hint(4, 0, 9));
    assert!(!s.hint_filled[4][0]);
}

#[test]
fn clear_undoes_set_on_an_empty_cell() {
    let mut s = Sudoku::new();
    s.grid[0][0] = Some(1);
    let before = s.grid;
    assert!(s.set(8, 8, 4));
    s.clear(8, 8);
    assert_eq!(s.grid, before);
    s.fixed[0][0] = true;
    s.clear(0, 0);
    assert_eq!(s.grid[0][0], Some(1));
}

#[test]
fn valid_moves_keep_the_board_free_of_conflicts() {
    let mut s = Sudoku::new();
    for r in 0..9 {
        for c in 0..9 {
            for n in 1..=9u8 {
                s.set(r, c, n);
            }
        }
    }
    assert!(is_consistent(&s.grid));
}

#[test]
fn is_complete_on_full_and_partial_boards() {
    let mut s = Sudoku::new();
    s.grid = full_board();
    assert!(s.is_complete());
    s.grid[8][8] = None;
    assert!(!s.is_complete());
}

#[test]
fn get_hint_gives_the_only_candidate() {
    let mut s = Sudoku::new();
    s.grid = full_board();
    let expected = s.grid[4][7];
    s.grid[4][7] = None;
    assert_eq!(s.get_hint(4, 7), expected);
    // a filled cell gets no hint
    assert_eq!(s.get_hint(0, 0), None);
    // a cell with several candidates gets none
    let e = Sudoku::new();
    assert_eq!(e.get_hint(0, 0), None);
}

#[test]
fn hint_agrees_with_the_solution() {
    let full = full_board();
    let mut s = Sudoku::new();
    s.grid = full;
    for (r, c) in [(0, 0), (1, 5), (2, 8), (7, 3)] {
        s.grid[r][c] = None;
    }
    for (r, c) in [(0, 0), (1, 5), (2, 8), (7, 3)] {
        assert_eq!(s.get_hint(r, c), full[r][c]);
    }
}

#[test]
fn is_solvable_answers_whether_a_solution_exists() {
    let mut s = Sudoku::new();
    assert!(s.is_solvable());
    s.grid = full_board();
    for r in 0..9 {
        s.grid[r][r] = None;
    }
    assert!(s.is_solvable());
    // a full board with conflicts counts as solved, though it solves nothing
    let mut clash = Sudoku::new();
    clash.grid = [[Some(1); 9]; 9];
    assert!(clash.is_solvable());
    // a consistent board with no completion
    let mut stuck = Sudoku::new();
    for c in 0..8 {
        stuck.grid[0][c] = Some(c as u8 + 1);
    }
    stuck.grid[1][8] = Some(9);
    assert!(!stuck.is_solvable());
}

#[test]
fn generation_gives_a_full_valid_board() {
    let g = Sudoku::generation();
    assert!(is_full(&g));
    assert!(is_consistent(&g));
}

#[test]
fn create_puzzle_keeps_exactly_one_solution() {
    let full = full_board();
    for d in [Difficulty::Easy, Difficulty::Hard] {
        let p = Sudoku::create_puzzle(full, d);
        let mut empties = 0;
        for r in 0..9 {
            for c in 0..9 {
                assert!(p[r][c] == full[r][c] || p[r][c].is_none());
                if p[r][c].is_none() {
                    empties += 1;
                }
            }
        }
        assert!(empties <= 60);
        let mut q = p;
        assert_eq!(count_solutions(&mut q, 2), 1);
    }
}

#[test]
fn create_puzzle_on_a_board_without_unique_solution_removes_nothing() {
    let empty: Grid = [[None; 9]; 9];
    assert_eq!(Sudoku::create_puzzle(empty, Difficulty::Master), empty);
}

#[test]
fn generate_puzzle_marks_givens_and_is_unique() {
    for d in [None, Some(Difficulty::Medium)] {
        let s = Sudoku::generate_puzzle(d);
        let limit = match d {
            None => 40,
            Some(d) => match d {
                Difficulty::Easy => 40,
                Difficulty::Medium => 50,
                Difficulty::Hard => 60,
                Difficulty::Master => 70,
            },
        };
        let mut empties = 0;
        for r in 0..9 {
            for c in 0..9 {
                assert_eq!(s.fixed[r][c], s.grid[r][c].is_some());
                assert!(!s.hint_filled[r][c]);
                if s.grid[r][c].is_none() {
                    empties += 1;
                }
            }
        }
        assert!(empties <= limit);
        assert!(is_consistent(&s.grid));
        let mut q = s.grid;
        assert_eq!(count_solutions(&mut q, 2), 1);
        assert!(s.is_solvable());
    }
}

#[test]
fn create_puzzle_below_its_target_is_minimal() {
    let full = full_board();
    let p = Sudoku::create_puzzle(full, Difficulty::Master);
    let empties = p.iter().flatten().filter(|c| c.is_none()).count();
    if empties < 70 {
        for r in 0..9 {
            for c in 0..9 {
                if p[r][c].is_some() {
                    let mut q = p;
                    q[r][c] = None;
                    assert!(count_solutions(&mut q, 2) >= 2);
                }
            }
        }
    }
}

#[test]
fn generation_draws_different_boards() {
    let a = Sudoku::generation();
    let b = Sudoku::generation();
    let c = Sudoku::generation();
    assert!(a != b || b != c);
}

#[test]
fn givens_and_hints_survive_any_edits() {
    let mut s = Sudoku::generate_puzzle(Some(Difficulty::Easy));
    let start = s.clone();
    let mut hinted = None;
    for r in 0..9 {
        for c in 0..9 {
            if hinted.is_none() && s.grid[r][c].is_none() {
                for n in 1..=9u8 {
                    if hinted.is_none() && s.set_hint(r, c, n) {
                        hinted = Some((r, c, n));
                    }
                }
            }
        }
    }
    for r in 0..9 {
        for c in 0..9 {
            for n in 1..=9u8 {
                s.set(r, c, n);
                s.clear(r, c);
                s.set(r, c, n);
            }
        }
    }
    for r in 0..9 {
        for c in 0..9 {
            assert_eq!(s.is_fixed(r, c), start.grid[r][c].is_some());
            if s.is_fixed(r, c) {
                assert_eq!(s.grid[r][c], start.grid[r][c]);
            }
        }
    }
    if let Some((r, c, n)) = hinted {
        assert!(s.hint_filled[r][c]);
        assert_eq!(s.grid[r][c], Some(n));
    }
}

#[test]
fn a_new_puzzle_is_full_to_target_or_minimal() {
    let s = Sudoku::generate_puzzle(Some(Difficulty::Master));
    let empties = s.grid.iter().flatten().filter(|c| c.is_none()).count();
    assert!(empties >= 1 && empties <= 70);
}
