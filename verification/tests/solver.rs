use sudoku::{Entry, Sudoku, SudokuSolver};

fn entries_of(grid: &[u8; 81]) -> Vec<Entry> {
    let mut stack = Vec::new();
    for (cell, &num) in grid.iter().enumerate() {
        if num != 0 {
            stack.push(Entry { cell: cell as u8, num });
        }
    }
    stack
}

const PUZZLE: &str =
    "53..7....6..195....98....6.8...6...34..8.3..17...2...6.6....28....419..5....8..79";
const SOLVED: &str =
    "534678912672195348198342567859761423426853791713924856961537284287419635345286179";

#[test]
fn fresh_solver_is_not_solved() {
    let solver = SudokuSolver::new();
    assert!(!solver.is_solved());
    assert_eq!(solver.n_solved_cells, 0);
    assert_eq!(solver.last_cell, 0);
    assert_eq!(solver.grid, Sudoku::from_bytes([0u8; 81]).unwrap());
}

#[test]
fn solver_finds_the_solution_from_entries() {
    let puzzle = Sudoku::from_str_line(PUZZLE).unwrap().to_bytes();
    let found = SudokuSolver::new().solve_at_most(entries_of(&puzzle), 3);
    assert_eq!(found, vec![Sudoku::from_str_line(SOLVED).unwrap()]);
}

#[test]
fn solver_with_no_entries_finds_any_grids() {
    let found = SudokuSolver::new().solve_at_most(Vec::new(), 4);
    assert_eq!(found.len(), 4);
    for grid in &found {
        assert!(grid.is_solved());
    }
    assert!(SudokuSolver::new().solve_at_most(Vec::new(), 0).is_empty());
}

#[test]
fn solver_with_one_entry_keeps_it() {
    let found = SudokuSolver::new().solve_at_most(vec![Entry { cell: 44, num: 8 }], 2);
    assert_eq!(found.len(), 2);
    for grid in found {
        assert_eq!(grid.to_bytes()[44], 8);
    }
}

#[test]
fn solver_rejects_conflicting_entries() {
    let stack = vec![Entry { cell: 0, num: 3 }, Entry { cell: 8, num: 3 }];
    assert!(SudokuSolver::new().solve_at_most(stack, 2).is_empty());
}

#[test]
fn cloned_solver_is_independent() {
    let solver = SudokuSolver::new();
    let copy = solver.clone();
    let found = copy.solve_at_most(vec![Entry { cell: 0, num: 1 }], 1);
    assert_eq!(found.len(), 1);
    assert!(!solver.is_solved());
    assert_eq!(solver.n_solved_cells, 0);
}
