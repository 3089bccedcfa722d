use sudoku::Sudoku;

const SOLVED: &str =
    "534678912672195348198342567859761423426853791713924856961537284287419635345286179";

/// A plain backtracking search, to compare with.
fn brute(grid: &mut [u8; 81], limit: usize, found: &mut Vec<[u8; 81]>) {
    if found.len() >= limit {
        return;
    }
    let cell = match grid.iter().position(|&c| c == 0) {
        Some(cell) => cell,
        None => {
            found.push(*grid);
            return;
        }
    };
    let (r, c) = (cell / 9, cell % 9);
    for d in 1..=9u8 {
        let mut ok = true;
        for k in 0..9 {
            let b = (r / 3 * 3 + k / 3) * 9 + c / 3 * 3 + k % 3;
            if grid[r * 9 + k] == d || grid[k * 9 + c] == d || grid[b] == d {
                ok = false;
                break;
            }
        }
        if ok {
            grid[cell] = d;
            brute(grid, limit, found);
            grid[cell] = 0;
        }
    }
}

fn no_conflict(grid: &[u8; 81]) -> bool {
    for a in 0..81 {
        if grid[a] == 0 {
            continue;
        }
        for b in 0..81 {
            let same_box = a / 27 == b / 27 && (a % 9) / 3 == (b % 9) / 3;
            if a != b && (a / 9 == b / 9 || a % 9 == b % 9 || same_box) && grid[a] == grid[b] {
                return false;
            }
        }
    }
    true
}

struct Lcg(u64);

impl Lcg {
    fn next(&mut self, bound: usize) -> usize {
        self.0 = self.0.wrapping_mul(6364136223846793005).wrapping_add(1442695040888963407);
        ((self.0 >> 33) as usize) % bound
    }
}

fn compare(grid: [u8; 81], limit: usize) {
    let mut want = Vec::new();
    let mut work = grid;
    if no_conflict(&grid) {
        brute(&mut work, limit + 1, &mut want);
    }
    let sudoku = Sudoku::from_bytes(grid).unwrap();
    let mut got: Vec<[u8; 81]> =
        sudoku.solve_at_most(limit).into_iter().map(|s| s.to_bytes()).collect();
    if want.len() <= limit {
        want.sort();
        got.sort();
        assert_eq!(got, want);
    } else {
        assert_eq!(got.len(), limit);
    }
    for g in &got {
        assert!(Sudoku::from_bytes(*g).unwrap().is_solved());
        for c in 0..81 {
            assert!(grid[c] == 0 || grid[c] == g[c]);
        }
    }
    let n = got.len();
    got.sort();
    got.dedup();
    assert_eq!(got.len(), n);
    assert!(n <= limit);
    assert_eq!(sudoku.solve_one().is_some(), !want.is_empty());
    assert_eq!(sudoku.solve_unique().is_some(), want.len() == 1
        && grid.iter().filter(|&&c| c != 0).count() >= 17);
    assert_eq!(sudoku.is_solved(), grid.iter().all(|&c| c != 0) && no_conflict(&grid));
}

fn solved() -> [u8; 81] {
    Sudoku::from_str_line(SOLVED).unwrap().to_bytes()
}

#[test]
fn agrees_with_plain_search_on_thinned_grids() {
    let mut rng = Lcg(7);
    for round in 0..40 {
        let mut grid = solved();
        let holes = 20 + (round % 5) * 8;
        for _ in 0..holes {
            grid[rng.next(81)] = 0;
        }
        compare(grid, 30);
    }
}

#[test]
fn agrees_with_plain_search_on_grids_with_a_wrong_clue() {
    let mut rng = Lcg(11);
    for _ in 0..40 {
        let mut grid = solved();
        for _ in 0..45 {
            grid[rng.next(81)] = 0;
        }
        let cell = rng.next(81);
        grid[cell] = rng.next(9) as u8 + 1;
        compare(grid, 10);
    }
}

#[test]
fn agrees_with_plain_search_on_nearly_full_grids() {
    let mut rng = Lcg(3);
    for holes in 0..12 {
        let mut grid = solved();
        for _ in 0..holes {
            grid[rng.next(81)] = 0;
        }
        compare(grid, 5);
    }
}

#[test]
fn agrees_with_plain_search_on_relabelled_grids() {
    let mut rng = Lcg(5);
    for shift in 1..9u8 {
        let mut grid = solved();
        for c in grid.iter_mut() {
            *c = (*c + shift - 1) % 9 + 1;
        }
        for _ in 0..50 {
            grid[rng.next(81)] = 0;
        }
        compare(grid, 40);
    }
}
