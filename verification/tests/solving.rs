use sudoku::Sudoku;

const CLASSIC: &str =
    "53..7....6..195....98....6.8...6...34..8.3..17...2...6.6....28....419..5....8..79";
const CLASSIC_SOLVED: &str =
    "534678912672195348198342567859761423426853791713924856961537284287419635345286179";
const TWO_WAYS: &str =
    "534..8912672195348198342567859..1423426853791713924856961537284287419635345286179";
const TWO_WAYS_OTHER: &str =
    "534768912672195348198342567859671423426853791713924856961537284287419635345286179";
const SEVENTEEN: &str =
    "000000010400000000020000000000050407008000300001090000300400200050100000000806000";
const SEVENTEEN_SOLVED: &str =
    "693784512487512936125963874932651487568247391741398625319475268856129743274836159";

fn parse(line: &str) -> Sudoku {
    Sudoku::from_str_line(line).unwrap()
}

fn cells(line: &str) -> [u8; 81] {
    parse(line).to_bytes()
}

fn is_valid_solution(grid: &[u8; 81]) -> bool {
    for zone in 0..27 {
        let mut seen = [false; 10];
        for k in 0..9 {
            let cell = if zone < 9 {
                zone * 9 + k
            } else if zone < 18 {
                k * 9 + (zone - 9)
            } else {
                ((zone - 18) / 3) * 27 + ((zone - 18) % 3) * 3 + (k / 3) * 9 + k % 3
            };
            let d = grid[cell] as usize;
            if d == 0 || d > 9 || seen[d] {
                return false;
            }
            seen[d] = true;
        }
    }
    true
}

#[test]
fn classic_puzzle_has_its_known_unique_solution() {
    let puzzle = parse(CLASSIC);
    assert_eq!(puzzle.to_bytes().iter().filter(|&&c| c != 0).count(), 30);
    let solution = puzzle.solve_unique().expect("the puzzle has one solution");
    assert_eq!(solution, parse(CLASSIC_SOLVED));
    assert!(solution.is_solved());
    assert!(is_valid_solution(&solution.to_bytes()));
    assert_eq!(puzzle.solve_at_most(5), vec![parse(CLASSIC_SOLVED)]);
}

#[test]
fn solve_one_finds_the_solution() {
    assert_eq!(parse(CLASSIC).solve_one(), Some(parse(CLASSIC_SOLVED)));
}

#[test]
fn solve_fills_the_grid_in_place() {
    let mut puzzle = parse(CLASSIC);
    assert!(puzzle.solve());
    assert_eq!(puzzle, parse(CLASSIC_SOLVED));
}

#[test]
fn solve_leaves_an_unsolvable_grid_alone() {
    let mut grid = cells(CLASSIC);
    grid[2] = 5;
    let mut puzzle = Sudoku::from_bytes(grid).unwrap();
    let before = puzzle;
    assert!(!puzzle.solve());
    assert_eq!(puzzle, before);
}

#[test]
fn solved_grid_is_returned_unchanged() {
    let solved = parse(CLASSIC_SOLVED);
    assert_eq!(solved.solve_one(), Some(solved));
    assert_eq!(solved.solve_unique(), Some(solved));
    assert_eq!(solved.solve_at_most(3), vec![solved]);
    let mut again = solved;
    assert!(again.solve());
    assert_eq!(again, solved);
}

#[test]
fn limit_zero_gives_nothing() {
    assert!(parse(CLASSIC).solve_at_most(0).is_empty());
    assert!(parse(CLASSIC_SOLVED).solve_at_most(0).is_empty());
    assert!(Sudoku::from_bytes([0u8; 81]).unwrap().solve_at_most(0).is_empty());
    assert!(parse(TWO_WAYS).solve_at_most(0).is_empty());
}

#[test]
fn grid_with_two_solutions_yields_both() {
    let puzzle = parse(TWO_WAYS);
    let mut found = puzzle.solve_at_most(5);
    assert_eq!(found.len(), 2);
    let mut want = vec![cells(CLASSIC_SOLVED), cells(TWO_WAYS_OTHER)];
    want.sort();
    let mut got: Vec<[u8; 81]> = found.drain(..).map(|s| s.to_bytes()).collect();
    got.sort();
    assert_eq!(got, want);
    assert_eq!(puzzle.solve_at_most(2).len(), 2);
    assert_eq!(puzzle.solve_at_most(1).len(), 1);
    assert_eq!(puzzle.solve_unique(), None);
    assert!(puzzle.solve_one().is_some());
}

#[test]
fn limit_bounds_the_number_of_solutions() {
    let empty = Sudoku::from_bytes([0u8; 81]).unwrap();
    for limit in [1usize, 2, 3, 7, 20] {
        let found = empty.solve_at_most(limit);
        assert_eq!(found.len(), limit);
        for (i, a) in found.iter().enumerate() {
            assert!(a.is_solved());
            assert!(is_valid_solution(&a.to_bytes()));
            for b in &found[..i] {
                assert_ne!(a, b);
            }
        }
    }
}

#[test]
fn solutions_keep_the_clues() {
    let puzzle = parse(TWO_WAYS);
    let clues = puzzle.to_bytes();
    for solution in puzzle.solve_at_most(10) {
        let grid = solution.to_bytes();
        for c in 0..81 {
            if clues[c] != 0 {
                assert_eq!(grid[c], clues[c]);
            }
        }
    }
}

#[test]
fn few_clues_are_solved_one_by_one() {
    // four clues or fewer are placed without a batch
    let mut grid = [0u8; 81];
    grid[0] = 5;
    grid[40] = 7;
    grid[80] = 1;
    let puzzle = Sudoku::from_bytes(grid).unwrap();
    let found = puzzle.solve_at_most(3);
    assert_eq!(found.len(), 3);
    for solution in found {
        let cells = solution.to_bytes();
        assert_eq!((cells[0], cells[40], cells[80]), (5, 7, 1));
        assert!(is_valid_solution(&cells));
    }
}

#[test]
fn duplicate_in_a_row_has_no_solution() {
    let mut grid = [0u8; 81];
    grid[0] = 4;
    grid[7] = 4;
    let puzzle = Sudoku::from_bytes(grid).unwrap();
    for _ in 0..3 {
        assert!(puzzle.solve_at_most(5).is_empty());
        assert_eq!(puzzle.solve_one(), None);
        assert_eq!(puzzle.solve_unique(), None);
        let mut copy = puzzle;
        assert!(!copy.solve());
        assert_eq!(copy, puzzle);
        assert!(!puzzle.is_solved());
    }
}

#[test]
fn duplicate_in_a_row_among_many_clues_has_no_solution() {
    let mut grid = cells(CLASSIC);
    // row 0 holds a 5 already
    grid[8] = 5;
    let puzzle = Sudoku::from_bytes(grid).unwrap();
    for _ in 0..3 {
        assert!(puzzle.solve_at_most(5).is_empty());
        assert_eq!(puzzle.solve_one(), None);
        assert_eq!(puzzle.solve_unique(), None);
    }
}

#[test]
fn duplicate_in_a_column_or_box_has_no_solution() {
    let mut column = [0u8; 81];
    column[3] = 9;
    column[75] = 9;
    assert!(Sudoku::from_bytes(column).unwrap().solve_at_most(2).is_empty());
    let mut in_box = [0u8; 81];
    in_box[0] = 2;
    in_box[20] = 2;
    assert!(Sudoku::from_bytes(in_box).unwrap().solve_at_most(2).is_empty());
}

#[test]
fn seventeen_clues_can_be_unique() {
    let puzzle = parse(SEVENTEEN);
    assert_eq!(puzzle.to_bytes().iter().filter(|&&c| c != 0).count(), 17);
    assert_eq!(puzzle.solve_unique(), Some(parse(SEVENTEEN_SOLVED)));
}

#[test]
fn sixteen_clues_are_never_unique() {
    let mut grid = cells(SEVENTEEN);
    let first_clue = grid.iter().position(|&c| c != 0).unwrap();
    grid[first_clue] = 0;
    let puzzle = Sudoku::from_bytes(grid).unwrap();
    assert_eq!(puzzle.to_bytes().iter().filter(|&&c| c != 0).count(), 16);
    assert_eq!(puzzle.solve_unique(), None);
    // any pattern of sixteen clues, valid or not
    let mut other = [0u8; 81];
    for c in 0..16 {
        other[c * 5] = (c % 9) as u8 + 1;
    }
    assert_eq!(Sudoku::from_bytes(other).unwrap().solve_unique(), None);
    assert_eq!(Sudoku::from_bytes([0u8; 81]).unwrap().solve_unique(), None);
}

#[test]
fn seven_digits_are_never_unique() {
    // the solved grid without every 8 and every 9: 63 clues, seven digits
    let mut grid = cells(CLASSIC_SOLVED);
    for c in grid.iter_mut() {
        if *c >= 8 {
            *c = 0;
        }
    }
    let puzzle = Sudoku::from_bytes(grid).unwrap();
    assert_eq!(puzzle.solve_unique(), None);
    assert_eq!(puzzle.solve_at_most(5).len(), 2);
    // with the 8s back there are eight digits and one solution
    let mut eight = cells(CLASSIC_SOLVED);
    for c in eight.iter_mut() {
        if *c == 9 {
            *c = 0;
        }
    }
    assert_eq!(Sudoku::from_bytes(eight).unwrap().solve_unique(), Some(parse(CLASSIC_SOLVED)));
}

#[test]
fn is_solved_wants_a_complete_valid_grid() {
    assert!(parse(CLASSIC_SOLVED).is_solved());
    assert!(parse(TWO_WAYS_OTHER).is_solved());
    assert!(!parse(CLASSIC).is_solved());
    assert!(!Sudoku::from_bytes([0u8; 81]).unwrap().is_solved());
    // one empty cell
    let mut open = cells(CLASSIC_SOLVED);
    open[80] = 0;
    assert!(!Sudoku::from_bytes(open).unwrap().is_solved());
    // complete, with a duplicate: two cells of the first row exchanged for equal digits
    let mut twice = cells(CLASSIC_SOLVED);
    twice[0] = twice[1];
    assert!(!Sudoku::from_bytes(twice).unwrap().is_solved());
    // complete, rows and columns fine, boxes not
    let mut latin = [0u8; 81];
    for r in 0..9 {
        for c in 0..9 {
            latin[r * 9 + c] = ((r + c) % 9) as u8 + 1;
        }
    }
    assert!(!Sudoku::from_bytes(latin).unwrap().is_solved());
}

#[test]
fn generated_grids_are_solved() {
    for _ in 0..25 {
        let grid = Sudoku::generate_filled();
        assert!(grid.is_solved());
        assert!(is_valid_solution(&grid.to_bytes()));
    }
}

#[test]
fn generated_grids_differ() {
    let sorted = [1u8, 2, 3, 4, 5, 6, 7, 8, 9];
    let mut first_rows = Vec::new();
    for _ in 0..25 {
        let grid = Sudoku::generate_filled().to_bytes();
        let mut row = [0u8; 9];
        row.copy_from_slice(&grid[..9]);
        let mut check = row;
        check.sort();
        assert_eq!(check, sorted);
        first_rows.push(row);
    }
    assert!(first_rows.iter().any(|row| *row != sorted));
    assert!(first_rows.iter().any(|row| *row != first_rows[0]));
}

#[test]
fn generated_grid_keeps_the_given_first_row() {
    let rows: [[u8; 9]; 3] = [
        [1, 2, 3, 4, 5, 6, 7, 8, 9],
        [9, 8, 7, 6, 5, 4, 3, 2, 1],
        [3, 1, 4, 5, 9, 2, 6, 8, 7],
    ];
    for row in rows {
        for _ in 0..5 {
            let grid = Sudoku::generate_from_first_row(row);
            assert!(grid.is_solved());
            assert_eq!(&grid.to_bytes()[..9], &row);
        }
    }
}

#[test]
fn generation_with_one_first_row_gives_different_grids() {
    let row = [1u8, 2, 3, 4, 5, 6, 7, 8, 9];
    let first = Sudoku::generate_from_first_row(row);
    let mut differs = false;
    for _ in 0..20 {
        if Sudoku::generate_from_first_row(row) != first {
            differs = true;
        }
    }
    assert!(differs);
}

#[test]
fn repeated_searches_return_the_same_list() {
    let grids = [
        Sudoku::from_bytes([0u8; 81]).unwrap(),
        parse(TWO_WAYS),
        parse(CLASSIC),
        parse(SEVENTEEN),
    ];
    for grid in grids {
        for limit in [1usize, 2, 5, 12] {
            let first = grid.solve_at_most(limit);
            for _ in 0..3 {
                assert_eq!(grid.solve_at_most(limit), first);
            }
            // a search with a higher limit begins as one with a lower limit
            let more = grid.solve_at_most(limit + 3);
            assert_eq!(&more[..first.len().min(more.len())], &first[..]);
            assert_eq!(grid.solve_one(), first.first().copied());
        }
    }
}
