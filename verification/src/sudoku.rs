//! The grid type and the operations offered on it.

use vstd::prelude::*;
use crate::board::{admits_none, agrees, clue_entries, inserted, only_entries, Board};
use crate::deduce::{lemma_clue_entries, lemma_clues_agree, lemma_fresh_board, lemma_fresh_stack};
use crate::mask::Mask;
use crate::random::shuffle_digits;
use crate::rules::{
    digits_upto, digits_used, filled_upto, is_completion, is_grid, is_solution, lemma_digits_step,
    lemma_first_row_solvable, lemma_own_completion, lemma_rearranged_digits, lemma_solution_zones,
    n_clues, zones_complete,
};
use crate::search::{entries_solved, grids, search_list};
use crate::solver::SudokuSolver;
use crate::types::Entry;

verus! {

/// A 9x9 grid: 81 cells, row by row, each empty (0) or a digit 1..=9.
#[derive(Copy, Clone, Debug)]
pub struct Sudoku(pub(crate) [u8; 81]);

impl View for Sudoku {
    type V = Seq<u8>;

    open(crate) spec fn view(&self) -> Seq<u8> {
        self.0@
    }
}

/// What a bounded search for the completions of `clues` returns: at most
/// `limit` grids, each a completion, no two equal; and all completions
/// there are, unless the limit was reached.
pub open spec fn solved_up_to(clues: Seq<u8>, sols: Seq<Sudoku>, limit: int) -> bool {
    &&& sols.len() <= limit
    &&& forall|i: int| 0 <= i < sols.len() ==> is_completion((#[trigger] sols[i])@, clues)
    &&& forall|i: int, j: int|
        0 <= i < j < sols.len() ==> (#[trigger] sols[i])@ != (#[trigger] sols[j])@
    &&& (sols.len() < limit ==> forall|g: Seq<u8>| #[trigger]
        is_completion(g, clues) ==> exists|i: int| 0 <= i < sols.len() && (#[trigger] sols[i])@ == g)
}

/// The completions that a search with this limit returns for a grid, in
/// the order in which it finds them.
pub open spec fn found_list(clues: Seq<u8>, limit: int) -> Seq<Seq<u8>> {
    search_list(0, clue_entries(clues, 81), limit)
}

/// The grid has a completion.
pub open spec fn solvable(clues: Seq<u8>) -> bool {
    exists|g: Seq<u8>| #[trigger] is_completion(g, clues)
}

/// `g` is the one completion of the grid.
pub open spec fn only_completion(g: Seq<u8>, clues: Seq<u8>) -> bool {
    is_completion(g, clues) && forall|h: Seq<u8>| #[trigger] is_completion(h, clues) ==> h == g
}

/// A search with limit two tells whether a grid has one completion only:
/// it returns one grid exactly then, and that grid is the completion.
pub proof fn lemma_one_of_two(clues: Seq<u8>, sols: Seq<Sudoku>)
    requires
        solved_up_to(clues, sols, 2),
    ensures
        sols.len() == 1 <==> exists|g: Seq<u8>| #[trigger] only_completion(g, clues),
        sols.len() == 1 ==> only_completion(sols[0]@, clues),
{
    if sols.len() == 1 {
        let g = sols[0]@;
        assert(is_completion(g, clues));
        assert forall|h: Seq<u8>| #[trigger] is_completion(h, clues) implies h == g by {
            let i = choose|i: int| 0 <= i < sols.len() && (#[trigger] sols[i])@ == h;
        }
        assert(only_completion(g, clues));
    } else if sols.len() == 0 {
        assert forall|g: Seq<u8>| !#[trigger] only_completion(g, clues) by {
            if only_completion(g, clues) {
                assert(is_completion(g, clues));
            }
        }
    } else {
        let a = sols[0]@;
        let b = sols[1]@;
        assert(is_completion(a, clues) && is_completion(b, clues) && a != b);
        assert forall|g: Seq<u8>| !#[trigger] only_completion(g, clues) by {}
    }
}

/// A search from the clues of a grid finds the completions of the grid.
pub proof fn lemma_clues_solved(clues: Seq<u8>, sols: Seq<Sudoku>, limit: int)
    requires
        is_grid(clues),
        entries_solved(clue_entries(clues, 81), sols, limit),
    ensures
        solved_up_to(clues, sols, limit),
{
    let k = clue_entries(clues, 81);
    assert forall|i: int| 0 <= i < sols.len() implies is_completion(
        (#[trigger] sols[i])@,
        clues,
    ) by {
        lemma_clues_agree(clues, sols[i]@);
    }
    if sols.len() < limit {
        assert forall|g: Seq<u8>| #[trigger] is_completion(g, clues) implies exists|i: int|
            0 <= i < sols.len() && (#[trigger] sols[i])@ == g by {
            lemma_clues_agree(clues, g);
            assert(agrees(g, k));
        }
    }
}

/// Inserting the clues of a grid into a fresh board as one batch fills
/// every cell exactly when the grid is a solution: `ok` tells whether the
/// insertion went through, and `end` and `left` are the board and the
/// entries it left.
pub proof fn lemma_batch_decides(grid: Seq<u8>, end: Board, left: Seq<Entry>, ok: bool)
    requires
        is_grid(grid),
        ok ==> end.wf() && inserted(Board::fresh(), clue_entries(grid, 81), end, left)
            && only_entries(Board::fresh().grid, clue_entries(grid, 81), end.grid),
        !ok ==> admits_none(Board::fresh(), clue_entries(grid, 81)),
    ensures
        is_solution(grid) <==> ok && end.complete(),
{
    let fresh = Board::fresh();
    let k = clue_entries(grid, 81);
    lemma_clue_entries(grid, 81);
    lemma_clues_agree(grid, grid);
    lemma_fresh_stack(k);
    lemma_fresh_board();
    if is_solution(grid) {
        assert(fresh.consistent(grid));
        assert(fresh.admits(k, grid));
        assert forall|c: int| 0 <= c < 81 implies #[trigger] end.grid[c] != 0 by {
            assert(grid[c] != 0);
            let i = choose|i: int| 0 <= i < k.len() && (#[trigger] k[i]).cell == c;
            assert(end.grid[k[i].cell as int] == k[i].num);
        }
    }
    if ok && end.complete() {
        assert forall|c: int| 0 <= c < 81 implies grid[c] == #[trigger] end.grid[c] by {
            assert(end.grid[c] != 0);
            assert(fresh.grid[c] == 0);
            let i = choose|i: int|
                0 <= i < k.len() && (#[trigger] k[i]).cell == c && k[i].num == end.grid[c];
            assert(grid[k[i].cell as int] == k[i].num);
        }
        assert(grid =~= end.grid);
    }
}

/// The byte that stands for a cell in line format: a point for an empty
/// cell, else the character of the digit.
pub open spec fn line_byte(cell: u8) -> u8 {
    if cell == 0 {
        46
    } else {
        (cell + 48) as u8
    }
}

/// The character that shows a cell in block format: a low line for an
/// empty cell, else the character of the digit.
pub open spec fn block_char(cell: u8) -> char {
    if cell == 0 {
        '_'
    } else {
        ((cell + 48) as u8) as char
    }
}

/// What stands before cell `c` in block format: a blank between boxes, a
/// line feed before each row, and one more between bands.
pub open spec fn separator(c: int) -> Seq<char> {
    if c % 9 == 3 || c % 9 == 6 {
        seq![' ']
    } else if c % 9 == 0 && (c / 9 == 3 || c / 9 == 6) {
        seq!['\n', '\n']
    } else if c % 9 == 0 {
        seq!['\n']
    } else {
        Seq::<char>::empty()
    }
}

/// The first `n` cells of a grid in block format.
pub open spec fn block_text(g: Seq<u8>, n: int) -> Seq<char>
    decreases n,
{
    if n <= 0 {
        Seq::<char>::empty()
    } else {
        block_text(g, n - 1) + separator(n - 1) + seq![block_char(g[n - 1])]
    }
}

/// The text of one cell in block format.
fn cell_str(num: u8) -> (r: &'static str)
    requires
        num <= 9,
    ensures
        r@ == seq![block_char(num)],
{
    proof {
        reveal_strlit("_");
        reveal_strlit("1");
        reveal_strlit("2");
        reveal_strlit("3");
        reveal_strlit("4");
        reveal_strlit("5");
        reveal_strlit("6");
        reveal_strlit("7");
        reveal_strlit("8");
        reveal_strlit("9");
    }
    let r = if num == 0 {
        "_"
    } else if num == 1 {
        "1"
    } else if num == 2 {
        "2"
    } else if num == 3 {
        "3"
    } else if num == 4 {
        "4"
    } else if num == 5 {
        "5"
    } else if num == 6 {
        "6"
    } else if num == 7 {
        "7"
    } else if num == 8 {
        "8"
    } else {
        "9"
    };
    proof {
        assert(r@ =~= seq![block_char(num)]);
    }
    r
}

impl PartialEq for Sudoku {
    fn eq(&self, other: &Sudoku) -> (r: bool) {
        let mut i: usize = 0;
        while i < 81
            invariant
                i <= 81,
                forall|c: int| 0 <= c < i ==> self.0@[c] == other.0@[c],
            decreases 81 - i,
        {
            if self.0[i] != other.0[i] {
                return false;
            }
            i += 1;
        }
        proof {
            assert(self.0@ =~= other.0@);
        }
        true
    }
}

impl Eq for Sudoku {

}

impl vstd::std_specs::cmp::PartialEqSpecImpl for Sudoku {
    open spec fn obeys_eq_spec() -> bool {
        true
    }

    open spec fn eq_spec(&self, other: &Sudoku) -> bool {
        self@ == other@
    }
}

impl Sudoku {
    /// Every cell is empty or holds a digit.
    #[verifier::type_invariant]
    pub(crate) open spec fn cells_in_range(self) -> bool {
        is_grid(self.0@)
    }

    /// Generate a random, solved sudoku.
    pub fn generate_filled() -> (r: Sudoku)
        ensures
            is_solution(r@),
            zones_complete(r@),
    {
        // fill the first row with a permutation of 1...9
        let mut perm: [u8; 9] = [1, 2, 3, 4, 5, 6, 7, 8, 9];
        let ghost sorted = perm@;
        shuffle_digits(&mut perm);
        proof {
            assert(sorted =~= seq![1u8, 2u8, 3u8, 4u8, 5u8, 6u8, 7u8, 8u8, 9u8]);
            lemma_rearranged_digits(sorted, perm@);
        }
        Sudoku::generate_from_first_row(perm)
    }

    /// Generate a random, solved sudoku with the given first row, which
    /// holds nine different digits.
    pub fn generate_from_first_row(first_row: [u8; 9]) -> (r: Sudoku)
        requires
            forall|k: int| 0 <= k < 9 ==> 1 <= #[trigger] first_row@[k] <= 9,
            first_row@.no_duplicates(),
        ensures
            is_solution(r@),
            zones_complete(r@),
            forall|k: int| 0 <= k < 9 ==> r@[k] == first_row@[k],
    {
        let mut stack: Vec<Entry> = Vec::with_capacity(81);
        let mut cell: u8 = 0;
        while cell < 9
            invariant
                cell <= 9,
                stack@.len() == cell,
                forall|k: int| 0 <= k < 9 ==> 1 <= #[trigger] first_row@[k] <= 9,
                forall|i: int|
                    0 <= i < cell ==> (#[trigger] stack@[i]).cell == i && stack@[i].num
                        == first_row@[i],
            decreases 9 - cell,
        {
            stack.push(Entry { cell: cell, num: first_row[cell as usize] });
            cell += 1;
        }
        let solver = SudokuSolver::new();
        let ghost entries = stack@;
        proof {
            assert forall|i: int| 0 <= i < entries.len() implies (#[trigger] entries[i]).wf() by {}
            lemma_fresh_stack(entries);
            lemma_fresh_board();
        }
        match solver._randomized_solve_one(&mut stack) {
            Ok(grid) => {
                proof {
                    lemma_solution_zones(grid@);
                    assert forall|k: int| 0 <= k < 9 implies grid@[k] == first_row@[k] by {
                        assert(grid@[entries[k].cell as int] == entries[k].num);
                    }
                }
                grid
            },
            Err(_) => {
                proof {
                    let g = lemma_first_row_solvable(first_row@);
                    assert(Board::fresh().consistent(g));
                    assert(Board::fresh().admits(entries, g));
                }
                vstd::pervasive::unreached()
            },
        }
    }

    /// Creates a sudoku from a byte slice.
    /// All numbers must be below 10. Empty cells are denoted by 0, clues by the numbers 1-9.
    /// The slice must be of length 81.
    pub fn from_bytes_slice(bytes: &[u8]) -> (r: Result<Sudoku, ()>)
        ensures
            r is Ok <==> is_grid(bytes@),
            r matches Ok(s) ==> s@ == bytes@,
    {
        if bytes.len() != 81 {
            return Err(());
        }
        let mut cells: [u8; 81] = [0u8;81];
        let mut i: usize = 0;
        while i < 81
            invariant
                i <= 81,
                bytes@.len() == 81,
                forall|c: int| 0 <= c < i ==> #[trigger] bytes@[c] <= 9 && cells@[c] == bytes@[c],
            decreases 81 - i,
        {
            if bytes[i] > 9 {
                return Err(());
            }
            cells[i] = bytes[i];
            i += 1;
        }
        proof {
            assert(cells@ =~= bytes@);
        }
        Ok(Sudoku(cells))
    }

    /// What `from_bytes` gives: the grid with these cells, if they are in range.
    pub open(crate) spec fn from_bytes_spec(bytes: [u8; 81]) -> Result<Sudoku, ()> {
        if is_grid(bytes@) {
            Ok(Sudoku(bytes))
        } else {
            Err(())
        }
    }

    /// What `to_bytes` gives: the cells.
    pub open(crate) spec fn to_bytes_spec(self) -> [u8; 81] {
        self.0
    }

    /// Creates a sudoku from a byte array.
    /// All numbers must be below 10. Empty cells are denoted by 0, clues by the numbers 1-9.
    pub fn from_bytes(bytes: [u8; 81]) -> (r: Result<Sudoku, ()>)
        ensures
            r == Sudoku::from_bytes_spec(bytes),
            r is Ok <==> is_grid(bytes@),
            r matches Ok(s) ==> s@ == bytes@,
    {
        let mut i: usize = 0;
        while i < 81
            invariant
                i <= 81,
                forall|c: int| 0 <= c < i ==> #[trigger] bytes@[c] <= 9,
            decreases 81 - i,
        {
            if bytes[i] > 9 {
                return Err(());
            }
            i += 1;
        }
        Ok(Sudoku(bytes))
    }

    /// Try to find a solution to the sudoku and fill it in. Return true if a solution was found.
    pub fn solve(&mut self) -> (r: bool)
        ensures
            r == solvable(old(self)@),
            r ==> is_completion(final(self)@, old(self)@),
            r ==> final(self)@ == found_list(old(self)@, 1)[0],
            !r ==> final(self)@ == old(self)@,
            is_solution(old(self)@) ==> r && final(self)@ == old(self)@,
    {
        match self.clone().solve_one() {
            Some(solution) => {
                *self = solution;
                true
            },
            None => false,
        }
    }

    /// Find a solution to the sudoku. If multiple solutions exist, it will not find them and
    /// just stop at the first. Return `None` if no solution exists.
    pub fn solve_one(self) -> (r: Option<Sudoku>)
        ensures
            r is Some <==> solvable(self@),
            r matches Some(g) ==> is_completion(g@, self@),
            r matches Some(g) ==> g@ == found_list(self@, 1)[0],
            is_solution(self@) ==> (r matches Some(g) && g@ == self@),
    {
        let solutions = self.solve_at_most(1);
        proof {
            if is_solution(self@) {
                use_type_invariant(&self);
                assert(is_completion(self@, self@));
            }
            if solutions@.len() > 0 {
                assert(is_completion(solutions@[0]@, self@));
                if is_solution(self@) {
                    lemma_own_completion(self@, solutions@[0]@);
                }
            }
        }
        if solutions.len() > 0 {
            Some(solutions[0])
        } else {
            None
        }
    }

    /// Solve sudoku and return solution if solution is unique.
    pub fn solve_unique(self) -> (r: Option<Sudoku>)
        ensures
            r matches Some(g) ==> only_completion(g@, self@),
            r is Some <==> n_clues(self@) >= 17 && digits_used(self@).len() >= 8 && exists|
                g: Seq<u8>,
            | #[trigger] only_completion(g, self@),
            n_clues(self@) <= 16 ==> r is None,
    {
        // without at least 8 digits present, sudoku has multiple solutions
        let mut nums_contained = Mask::none();
        // same with less than 17 clues
        let mut n_clues: u8 = 0;
        let mut i: usize = 0;
        proof {
            use_type_invariant(&self);
            lemma_digits_step(self@, 0);
        }
        while i < 81
            invariant
                i <= 81,
                is_grid(self@),
                n_clues == filled_upto(self@, i as int),
                n_clues <= i,
                nums_contained@ == digits_upto(self@, i as int),
            decreases 81 - i,
        {
            let num = self.0[i];
            proof {
                assert(self@[i as int] <= 9);
                lemma_digits_step(self@, i as int);
                assert(nums_contained@.union(set![num as int]) =~= nums_contained@.insert(
                    num as int,
                ));
            }
            if num != 0 {
                nums_contained = nums_contained.union(Mask::from_num(num));
                n_clues += 1;
            }
            i += 1;
        }
        if n_clues < 17 || nums_contained.n_possibilities() < 8 {
            return None;
        }
        let solutions = self.solve_at_most(2);
        proof {
            lemma_one_of_two(self@, solutions@);
        }
        if solutions.len() == 1 {
            Some(solutions[0])
        } else {
            None
        }
    }

    /// Solve sudoku and return the first `limit` solutions it finds. If less solutions exist,
    /// return only those. No specific ordering of solutions is promised.
    pub fn solve_at_most(self, limit: usize) -> (r: Vec<Sudoku>)
        ensures
            solved_up_to(self@, r@, limit as int),
            grids(r@) == found_list(self@, limit as int),
    {
        let solver = SudokuSolver::new();
        let stack = SudokuSolver::stack_from_sudoku(self);
        proof {
            use_type_invariant(&self);
            lemma_clues_agree(self@, self@);
        }
        let r = solver.solve_at_most(stack, limit);
        proof {
            lemma_clues_solved(self@, r@, limit as int);
        }
        r
    }

    /// Check whether the sudoku is solved.
    pub fn is_solved(&self) -> (r: bool)
        ensures
            r == is_solution(self@),
    {
        let mut solver = SudokuSolver::new();
        let mut entries = SudokuSolver::stack_from_sudoku(*self);
        let ghost clues = entries@;
        proof {
            use_type_invariant(self);
            lemma_clues_agree(self@, self@);
            lemma_fresh_stack(clues);
        }
        // if the sudoku contains an error, not all 81 entries are inserted
        let res = solver.batch_insert_entries(&mut entries);
        proof {
            lemma_batch_decides(self@, solver@, entries@, res is Ok);
        }
        solver.is_solved()
    }

    /// Returns the cells from left to right, top to bottom: `None` for an
    /// empty cell, else the digit.
    pub fn iter(&self) -> (r: Vec<Option<u8>>)
        ensures
            r@.len() == 81,
            forall|c: int|
                0 <= c < 81 ==> #[trigger] r@[c] == if self@[c] == 0 {
                    None
                } else {
                    Some(self@[c])
                },
    {
        let mut out: Vec<Option<u8>> = Vec::with_capacity(81);
        let mut i: usize = 0;
        while i < 81
            invariant
                i <= 81,
                out@.len() == i,
                forall|c: int|
                    0 <= c < i ==> #[trigger] out@[c] == if self@[c] == 0 {
                        None
                    } else {
                        Some(self@[c])
                    },
            decreases 81 - i,
        {
            out.push(num_to_opt(&self.0[i]));
            i += 1;
        }
        out
    }

    /// Returns a byte array for the sudoku.
    /// Empty cells are denoted by 0, clues by the numbers 1-9.
    pub fn to_bytes(self) -> (r: [u8; 81])
        ensures
            r == self.to_bytes_spec(),
            r@ == self@,
            is_grid(r@),
    {
        proof {
            use_type_invariant(&self);
        }
        self.0
    }

    /// Returns the sudoku in block format: nine rows of nine cells, a
    /// blank between boxes and an empty line between bands, a low line for
    /// an empty cell. Every row starts with a line feed.
    pub fn to_string(&self) -> (r: String)
        ensures
            r@ == block_text(self@, 81),
    {
        let mut out = String::new();
        let mut c: usize = 0;
        proof {
            use_type_invariant(self);
            reveal_strlit(" ");
            reveal_strlit("\n");
            reveal_strlit("\n\n");
        }
        while c < 81
            invariant
                c <= 81,
                is_grid(self@),
                out@ == block_text(self@, c as int),
                " "@ == seq![' '],
                "\n"@ == seq!['\n'],
                "\n\n"@ == seq!['\n', '\n'],
            decreases 81 - c,
        {
            let row = c / 9;
            let col = c % 9;
            if col == 3 || col == 6 {
                // separate fields in columns
                out.append(" ");
            } else if col == 0 && (row == 3 || row == 6) {
                // separate fields in rows
                out.append("\n\n");
            } else if col == 0 {
                // separate lines not between fields
                out.append("\n");
            }
            proof {
                assert(self@[c as int] <= 9);
                assert(out@ =~= block_text(self@, c as int) + separator(c as int));
            }
            out.append(cell_str(self.0[c]));
            c += 1;
        }
        out
    }

    /// Returns a representation of the sudoku in line format: one
    /// character per cell, a point for an empty cell.
    pub fn to_str_line(&self) -> (r: SudokuLine)
        ensures
            r@.len() == 81,
            forall|c: int| 0 <= c < 81 ==> #[trigger] r@[c] == line_byte(self@[c]),
    {
        let mut chars: [u8; 81] = [46u8;81];
        let mut i: usize = 0;
        proof {
            use_type_invariant(self);
        }
        while i < 81
            invariant
                i <= 81,
                is_grid(self@),
                forall|c: int| 0 <= c < i ==> #[trigger] chars@[c] == line_byte(self@[c]),
                forall|c: int| i <= c < 81 ==> #[trigger] chars@[c] == 46,
            decreases 81 - i,
        {
            let num = self.0[i];
            proof {
                assert(self@[i as int] <= 9);
            }
            chars[i] = if num == 0 {
                46
            } else {
                num + 48
            };
            i += 1;
        }
        SudokuLine(chars)
    }
}

/// `None` for an empty cell, else the digit.
fn num_to_opt(num: &u8) -> (r: Option<u8>)
    ensures
        r == if *num == 0 {
            None
        } else {
            Some(*num)
        },
{
    if *num == 0 {
        None
    } else {
        Some(*num)
    }
}

/// A grid in line format: 81 characters, a point or a digit each.
#[derive(Copy, Clone, Debug)]
pub struct SudokuLine(pub(crate) [u8; 81]);

impl View for SudokuLine {
    type V = Seq<u8>;

    open(crate) spec fn view(&self) -> Seq<u8> {
        self.0@
    }
}

impl SudokuLine {
    /// Every byte is a point or the character of a digit.
    #[verifier::type_invariant]
    pub(crate) open spec fn is_line(self) -> bool {
        forall|c: int| 0 <= c < 81 ==> #[trigger] self.0@[c] == 46 || 49 <= self.0@[c] <= 57
    }

    /// The 81 characters as bytes.
    pub fn as_bytes(&self) -> (r: &[u8; 81])
        ensures
            r@ == self@,
    {
        &self.0
    }

    /// The 81 characters as a string.
    pub fn to_string(&self) -> (r: String)
        ensures
            r@.len() == 81,
            forall|c: int| 0 <= c < 81 ==> #[trigger] r@[c] == self@[c] as char,
    {
        let mut out = String::new();
        let mut c: usize = 0;
        proof {
            use_type_invariant(self);
            reveal_strlit(".");
        }
        while c < 81
            invariant
                c <= 81,
                self.is_line(),
                out@.len() == c,
                forall|i: int| 0 <= i < c ==> #[trigger] out@[i] == self@[i] as char,
                "."@ == seq!['.'],
            decreases 81 - c,
        {
            let byte = self.0[c];
            proof {
                assert(self.0@[c as int] == 46 || 49 <= self.0@[c as int] <= 57);
            }
            if byte == 46 {
                out.append(".");
            } else {
                out.append(cell_str(byte - 48));
            }
            c += 1;
        }
        out
    }
}

impl PartialEq for SudokuLine {
    fn eq(&self, other: &SudokuLine) -> (r: bool) {
        let mut i: usize = 0;
        while i < 81
            invariant
                i <= 81,
                forall|c: int| 0 <= c < i ==> self.0@[c] == other.0@[c],
            decreases 81 - i,
        {
            if self.0[i] != other.0[i] {
                return false;
            }
            i += 1;
        }
        proof {
            assert(self.0@ =~= other.0@);
        }
        true
    }
}

impl Eq for SudokuLine {

}

impl vstd::std_specs::cmp::PartialEqSpecImpl for SudokuLine {
    open spec fn obeys_eq_spec() -> bool {
        true
    }

    open spec fn eq_spec(&self, other: &SudokuLine) -> bool {
        self@ == other@
    }
}

} // verus!
