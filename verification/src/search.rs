//! What the backtracking search keeps true between its steps.
//!
//! A search call is given a board and pending entries, which together admit
//! a set of solutions, and owes the caller those solutions, up to a limit.
//! At every moment each admitted solution is either found already or still
//! admitted by the current board and entries, never both.

use vstd::prelude::*;
use crate::board::{
    admits_none, agrees, all_live, entries_wf, first_double, first_loud, hidden_conflict,
    hidden_found, idle, insert_end, quiet, scanning, settled, single_pushed, singles_pushed,
    zone_singles, Board,
};
use crate::deduce::{
    lemma_complete_unique, lemma_fresh_board, lemma_open_has_candidate, lemma_prune_consistent,
    lemma_prune_wf,
};
use crate::mask::{all_digits, lemma_digit_set_finite};
use crate::rules::is_solution;
use crate::singles::lemma_hidden_single_forced;
use crate::sudoku::Sudoku;
use crate::topology::{lemma_scan_pos, lemma_zone_cell, scan_pos, zone_cell};
use crate::types::Entry;

verus! {

/// The solutions `sols[n0..]` are admitted by the board and entries, and no
/// solution stands twice among them.
pub open spec fn sound(b0: Board, k0: Seq<Entry>, n0: int, sols: Seq<Sudoku>) -> bool {
    &&& 0 <= n0 <= sols.len()
    &&& forall|i: int| n0 <= i < sols.len() ==> b0.admits(k0, (#[trigger] sols[i])@)
    &&& forall|i: int, j: int|
        n0 <= i < j < sols.len() ==> (#[trigger] sols[i])@ != (#[trigger] sols[j])@
}

/// Every solution that the board and entries admit is among `sols[n0..]`.
pub open spec fn exhaustive(b0: Board, k0: Seq<Entry>, n0: int, sols: Seq<Sudoku>) -> bool {
    forall|g: Seq<u8>| #[trigger]
        b0.admits(k0, g) ==> exists|i: int| n0 <= i < sols.len() && (#[trigger] sols[i])@ == g
}

/// What a search call owes: `after` is `before` with solutions appended
/// that the board and entries admit, no solution twice, no more than
/// `limit` in all; and unless the limit was reached, every admitted solution
/// is among them.
pub open spec fn found(
    b0: Board,
    k0: Seq<Entry>,
    before: Seq<Sudoku>,
    after: Seq<Sudoku>,
    limit: int,
) -> bool {
    &&& before.len() <= after.len() <= limit
    &&& after.take(before.len() as int) == before
    &&& sound(b0, k0, before.len() as int, after)
    &&& (after.len() < limit ==> exhaustive(b0, k0, before.len() as int, after))
}

/// What a search from nothing but entries returns: at most `limit` grids,
/// each a solution that holds every entry, no two equal; and all such
/// solutions there are, unless the limit was reached.
pub open spec fn entries_solved(stack: Seq<Entry>, sols: Seq<Sudoku>, limit: int) -> bool {
    &&& sols.len() <= limit
    &&& forall|i: int|
        0 <= i < sols.len() ==> is_solution((#[trigger] sols[i])@) && agrees(sols[i]@, stack)
    &&& forall|i: int, j: int|
        0 <= i < j < sols.len() ==> (#[trigger] sols[i])@ != (#[trigger] sols[j])@
    &&& (sols.len() < limit ==> forall|g: Seq<u8>|
        is_solution(g) && #[trigger] agrees(g, stack) ==> exists|i: int|
            0 <= i < sols.len() && (#[trigger] sols[i])@ == g)
}

/// The state of a search call between steps: the call was given `b0` and
/// `k0` and has appended `sols[n0..]`; `cur` and `stack` are what is left to
/// search. Nothing found is still admitted; what is still admitted was
/// admitted at the start; what was admitted at the start is found or still
/// admitted.
pub open spec fn searching(
    b0: Board,
    k0: Seq<Entry>,
    n0: int,
    cur: Board,
    stack: Seq<Entry>,
    sols: Seq<Sudoku>,
) -> bool {
    &&& sound(b0, k0, n0, sols)
    &&& forall|i: int| n0 <= i < sols.len() ==> !cur.admits(stack, (#[trigger] sols[i])@)
    &&& forall|g: Seq<u8>| #[trigger] cur.admits(stack, g) ==> b0.admits(k0, g)
    &&& forall|g: Seq<u8>| #[trigger]
        b0.admits(k0, g) ==> cur.admits(stack, g) || exists|i: int|
            n0 <= i < sols.len() && (#[trigger] sols[i])@ == g
}

/// Insertion that settles the board leads from one searching state to the
/// next, with no entry pending.
pub proof fn lemma_search_settled(
    b0: Board,
    k0: Seq<Entry>,
    n0: int,
    cur: Board,
    stack: Seq<Entry>,
    sols: Seq<Sudoku>,
    next: Board,
)
    requires
        searching(b0, k0, n0, cur, stack, sols),
        settled(cur, stack, next),
    ensures
        searching(b0, k0, n0, next, Seq::<Entry>::empty(), sols),
{
    let none = Seq::<Entry>::empty();
    assert forall|i: int| n0 <= i < sols.len() implies !next.admits(
        none,
        (#[trigger] sols[i])@,
    ) by {
        assert(!cur.admits(stack, sols[i]@));
    }
    assert forall|g: Seq<u8>| #[trigger] next.admits(none, g) implies b0.admits(k0, g) by {
        assert(cur.admits(stack, g));
    }
    assert forall|g: Seq<u8>| #[trigger] b0.admits(k0, g) implies next.admits(none, g)
        || exists|i: int| n0 <= i < sols.len() && (#[trigger] sols[i])@ == g by {
        if cur.admits(stack, g) {
            assert(next.admits(none, g));
        }
    }
}

/// Entries that the board forces can be pushed onto an empty stack without
/// a change to what is left to search.
pub proof fn lemma_search_forced(
    b0: Board,
    k0: Seq<Entry>,
    n0: int,
    cur: Board,
    stack: Seq<Entry>,
    sols: Seq<Sudoku>,
)
    requires
        searching(b0, k0, n0, cur, Seq::<Entry>::empty(), sols),
        cur.forces(stack),
    ensures
        searching(b0, k0, n0, cur, stack, sols),
{
    let none = Seq::<Entry>::empty();
    assert forall|i: int| n0 <= i < sols.len() implies !cur.admits(
        stack,
        (#[trigger] sols[i])@,
    ) by {
        assert(!cur.admits(none, sols[i]@));
    }
    assert forall|g: Seq<u8>| #[trigger] cur.admits(stack, g) implies b0.admits(k0, g) by {
        assert(cur.admits(none, g));
    }
    assert forall|g: Seq<u8>| #[trigger] b0.admits(k0, g) implies cur.admits(stack, g)
        || exists|i: int| n0 <= i < sols.len() && (#[trigger] sols[i])@ == g by {
        if cur.admits(none, g) {
            assert(cur.admits(stack, g));
        }
    }
}

/// When nothing is left to search, everything admitted has been found.
pub proof fn lemma_search_exhausted(
    b0: Board,
    k0: Seq<Entry>,
    n0: int,
    cur: Board,
    stack: Seq<Entry>,
    sols: Seq<Sudoku>,
)
    requires
        searching(b0, k0, n0, cur, stack, sols),
        admits_none(cur, stack),
    ensures
        exhaustive(b0, k0, n0, sols),
{
    assert forall|g: Seq<u8>| #[trigger] b0.admits(k0, g) implies exists|i: int|
        n0 <= i < sols.len() && (#[trigger] sols[i])@ == g by {
        assert(!cur.admits(stack, g));
    }
}

/// A board with every cell filled is the one solution left; once it is
/// appended, the call has found all.
pub proof fn lemma_search_solved(
    b0: Board,
    k0: Seq<Entry>,
    n0: int,
    cur: Board,
    sols: Seq<Sudoku>,
    grid: Sudoku,
)
    requires
        searching(b0, k0, n0, cur, Seq::<Entry>::empty(), sols),
        cur.wf(),
        cur.complete(),
        grid@ == cur.grid,
    ensures
        sound(b0, k0, n0, sols.push(grid)),
        exhaustive(b0, k0, n0, sols.push(grid)),
        sols.push(grid).take(n0) == sols.take(n0),
{
    let none = Seq::<Entry>::empty();
    let after = sols.push(grid);
    lemma_complete_unique(cur);
    assert(cur.admits(none, grid@));
    assert(after.take(n0) =~= sols.take(n0));
    assert forall|i: int| n0 <= i < after.len() implies b0.admits(k0, (#[trigger] after[i])@) by {
        if i < sols.len() {
            assert(after[i] == sols[i]);
        }
    }
    assert forall|i: int, j: int| n0 <= i < j < after.len() implies (#[trigger] after[i])@ != (
    #[trigger] after[j])@ by {
        assert(after[i] == sols[i]);
        if j < sols.len() {
            assert(after[j] == sols[j]);
        } else {
            assert(!cur.admits(none, sols[i]@));
        }
    }
    assert forall|g: Seq<u8>| #[trigger] b0.admits(k0, g) implies exists|i: int|
        n0 <= i < after.len() && (#[trigger] after[i])@ == g by {
        if cur.admits(none, g) {
            assert(after[sols.len() as int]@ == g);
        } else {
            let i = choose|i: int| n0 <= i < sols.len() && (#[trigger] sols[i])@ == g;
            assert(after[i] == sols[i]);
        }
    }
}

/// Hidden singles are forced, for open cells, and candidates there.
pub proof fn lemma_singles_forced(cur: Board, stack: Seq<Entry>)
    requires
        cur.wf(),
        cur.pruned(),
        singles_pushed(cur, Seq::<Entry>::empty(), stack),
    ensures
        cur.forces(stack),
        cur.stack_ok(stack),
        all_live(cur, stack),
{
    assert forall|i: int| 0 <= i < stack.len() implies cur.grid[(#[trigger] stack[i]).cell as int]
        == 0 && cur.masks[stack[i].cell as int].contains(stack[i].num as int) by {
        let e = stack[i];
        assert(cur.hidden_single(e));
        let (zone, k) = choose|zone: int, k: int|
            0 <= zone < 27 && 0 <= k < 9 && zone_cell(zone, k) == e.cell && #[trigger] cur.single_at(
                zone,
                k,
                e.num as int,
            );
        lemma_zone_cell(zone, k);
        lemma_open_has_candidate(cur, e.cell as int);
        assert(cur.holds_cand(zone, k, e.num as int));
        assert(cur.masks[e.cell as int].subset_of(all_digits()));
        lemma_digit_set_finite(cur.masks[e.cell as int]);
    }
    assert forall|g: Seq<u8>| #[trigger] cur.consistent(g) implies agrees(g, stack) by {
        assert forall|i: int| 0 <= i < stack.len() implies g[(#[trigger] stack[i]).cell as int]
            == stack[i].num by {
            let e = stack[i];
            assert(cur.hidden_single(e));
            let (zone, k) = choose|zone: int, k: int|
                0 <= zone < 27 && 0 <= k < 9 && zone_cell(zone, k) == e.cell
                    && #[trigger] cur.single_at(zone, k, e.num as int);
            lemma_hidden_single_forced(cur, zone, k, e.num as int, g);
        }
    }
    assert(entries_wf(stack)) by {
        assert forall|i: int| 0 <= i < stack.len() implies (#[trigger] stack[i]).wf() by {
            assert(cur.hidden_single(stack[i]));
        }
    }
}

/// A guess for an open cell, pushed onto an empty stack, is a first
/// placement for an open cell.
pub proof fn lemma_guess_ok(cur: Board, entry: Entry)
    requires
        cur.wf(),
        entry.wf(),
        cur.grid[entry.cell as int] == 0,
        cur.masks[entry.cell as int].contains(entry.num as int),
    ensures
        cur.stack_ok(seq![entry]),
        cur.has_live(seq![entry]),
{
    let k = seq![entry];
    assert(k[0] == entry);
    assert(cur.grid[k[0].cell as int] == 0);
}

/// After the branch of a guess has been searched, the solutions it found
/// join those found before. Unless the limit is reached, what is left to
/// search is the board without the guessed digit in the guessed cell.
pub proof fn lemma_search_branch(
    b0: Board,
    k0: Seq<Entry>,
    n0: int,
    cur: Board,
    sols: Seq<Sudoku>,
    entry: Entry,
    sols2: Seq<Sudoku>,
    limit: int,
)
    requires
        searching(b0, k0, n0, cur, Seq::<Entry>::empty(), sols),
        cur.shape(),
        entry.wf(),
        cur.grid[entry.cell as int] == 0,
        found(cur, seq![entry], sols, sols2, limit),
    ensures
        sound(b0, k0, n0, sols2),
        sols2.take(n0) == sols.take(n0),
        sols2.len() < limit ==> searching(
            b0,
            k0,
            n0,
            cur.prune(entry.cell as int, set![entry.num as int]),
            Seq::<Entry>::empty(),
            sols2,
        ),
{
    let none = Seq::<Entry>::empty();
    let guess = seq![entry];
    let cell = entry.cell as int;
    let next = cur.prune(cell, set![entry.num as int]);
    assert(guess[0] == entry);
    assert forall|i: int| 0 <= i < sols.len() implies #[trigger] sols2[i] == sols[i] by {
        assert(sols2.take(sols.len() as int)[i] == sols[i]);
    }
    assert(sols2.take(n0) =~= sols.take(n0));
    assert forall|g: Seq<u8>|
        #![trigger next.consistent(g)]
        next.consistent(g) <==> (cur.consistent(g) && g[cell] != entry.num) by {
        lemma_prune_consistent(cur, cell, set![entry.num as int], g);
    }
    assert forall|g: Seq<u8>|
        #![trigger cur.admits(guess, g)]
        cur.admits(guess, g) <==> (cur.consistent(g) && g[cell] == entry.num) by {
        if cur.admits(guess, g) {
            assert(g[guess[0].cell as int] == guess[0].num);
        }
    }
    assert forall|i: int| n0 <= i < sols2.len() implies b0.admits(k0, (#[trigger] sols2[i])@) by {
        if i < sols.len() {
            assert(sols2[i] == sols[i]);
        } else {
            assert(cur.admits(guess, sols2[i]@));
            assert(cur.admits(none, sols2[i]@));
        }
    }
    assert forall|i: int, j: int| n0 <= i < j < sols2.len() implies (#[trigger] sols2[i])@ != (
    #[trigger] sols2[j])@ by {
        if j < sols.len() {
            assert(sols2[i] == sols[i] && sols2[j] == sols[j]);
        } else if i < sols.len() {
            assert(sols2[i] == sols[i]);
            assert(!cur.admits(none, sols[i]@));
            assert(cur.admits(guess, sols2[j]@));
        }
    }
    if sols2.len() < limit {
        assert forall|i: int| n0 <= i < sols2.len() implies !next.admits(
            none,
            (#[trigger] sols2[i])@,
        ) by {
            if i < sols.len() {
                assert(sols2[i] == sols[i]);
                assert(!cur.admits(none, sols[i]@));
            } else {
                assert(cur.admits(guess, sols2[i]@));
            }
        }
        assert forall|g: Seq<u8>| #[trigger] next.admits(none, g) implies b0.admits(k0, g) by {
            assert(cur.admits(none, g));
        }
        assert forall|g: Seq<u8>| #[trigger] b0.admits(k0, g) implies next.admits(none, g)
            || exists|i: int| n0 <= i < sols2.len() && (#[trigger] sols2[i])@ == g by {
            if cur.admits(none, g) {
                if g[cell] == entry.num {
                    assert(cur.admits(guess, g));
                    let i = choose|i: int|
                        sols.len() <= i < sols2.len() && (#[trigger] sols2[i])@ == g;
                    assert(n0 <= i);
                } else {
                    assert(next.consistent(g));
                }
            } else {
                let i = choose|i: int| n0 <= i < sols.len() && (#[trigger] sols[i])@ == g;
                assert(sols2[i] == sols[i]);
            }
        }
    }
}

/// Taking a digit from an open cell that keeps a candidate leaves a board
/// on which the search can go on: well formed, pruned, and with the single
/// candidate, if one is left, pending as a forced entry.
pub proof fn lemma_retracted(cur: Board, entry: Entry, next: Board, stack: Seq<Entry>)
    requires
        cur.wf(),
        cur.pruned(),
        entry.wf(),
        cur.grid[entry.cell as int] == 0,
        cur.masks[entry.cell as int].contains(entry.num as int),
        next == cur.prune(entry.cell as int, set![entry.num as int]),
        next.masks[entry.cell as int].len() > 0,
        single_pushed(Seq::<Entry>::empty(), stack, entry.cell, next.masks[entry.cell as int]),
    ensures
        next.wf(),
        next.pruned(),
        next.stack_ok(stack),
        next.forces(stack),
        next.candidates() < cur.candidates(),
{
    let cell = entry.cell as int;
    let left = next.masks[cell];
    assert(cur.masks[cell].subset_of(all_digits()));
    lemma_digit_set_finite(left);
    assert(left != Set::<int>::empty());
    lemma_prune_wf(cur, cell, set![entry.num as int]);
    assert(left != cur.masks[cell]);
    crate::deduce::lemma_refined_candidates(cur, next);
    if left.len() == 1 {
        assert(stack.len() == 1);
        let e = stack[0];
        assert(e == stack.last());
        assert(left.contains(e.num as int));
        assert forall|g: Seq<u8>| #[trigger] next.consistent(g) implies agrees(g, stack) by {
            assert(next.allows(cell, g[cell]));
            assert(left.contains(g[cell] as int));
        }
        assert(next.live_or_blocked(stack));
        assert(entries_wf(stack));
    } else {
        assert(stack.len() == 0);
    }
}

/// A scan for a guess begins with nothing seen.
pub proof fn lemma_guess_start(b: Board, last: int)
    requires
        0 <= last < 81,
    ensures
        scanning(b, last, 0, 10, 100),
{
    assert forall|c: int| 0 <= c < 81 implies 0 <= scan_pos(last, c) by {
        lemma_scan_pos(last, c, c);
    }
}

/// The scan sees one more cell. A cell with fewer candidates than any
/// before is the new choice; if it has two, the scan ends there.
pub proof fn lemma_guess_next(b: Board, last: int, seen: int, min: int, best: int, cell: int)
    requires
        b.wf(),
        scanning(b, last, seen, min, best),
        0 <= cell < 81,
        scan_pos(last, cell) == seen,
    ensures
        seen <= 80,
        0 < b.count(cell) < min && b.count(cell) == 2 ==> b.guess_scan(last, cell, cell),
        0 < b.count(cell) < min && b.count(cell) != 2 ==> scanning(
            b,
            last,
            seen + 1,
            b.count(cell) as int,
            cell,
        ),
        !(0 < b.count(cell) < min) ==> scanning(b, last, seen + 1, min, best),
{
    let n = b.count(cell);
    lemma_scan_pos(last, cell, cell);
    assert(b.masks[cell].subset_of(all_digits()));
    lemma_digit_set_finite(b.masks[cell]);
    assert forall|c: int| 0 <= c < 81 && scan_pos(last, c) == seen implies c == cell by {
        lemma_scan_pos(last, c, cell);
    }
    if 0 < n < min {
        assert forall|c: int|
            0 <= c < 81 && scan_pos(last, c) < seen + 1 && #[trigger] b.count(c) > 0 implies n
            <= b.count(c) && (scan_pos(last, c) < scan_pos(last, cell) ==> n < b.count(c)) by {
            if scan_pos(last, c) < seen && min < 10 {
                assert(min <= b.count(c));
            }
        }
    } else {
        assert forall|c: int|
            0 <= c < 81 && scan_pos(last, c) < seen + 1 && #[trigger] b.count(c)
                == 2 implies exists|x: int|
            0 <= x < 81 && scan_pos(last, x) < scan_pos(last, c) && #[trigger] b.count(x) == 1 by {
            if c == cell {
                assert(min == 1);
                assert(b.count(best) == 1);
            }
        }
        if min < 10 {
            assert forall|c: int|
                0 <= c < 81 && scan_pos(last, c) < seen + 1 && #[trigger] b.count(c)
                    > 0 implies min <= b.count(c) && (scan_pos(last, c) < scan_pos(last, best)
                ==> min < b.count(c)) by {}
        }
    }
}

/// A scan that has seen every cell of a board with an open cell has made
/// its choice.
pub proof fn lemma_guess_end(b: Board, last: int, min: int, best: int)
    requires
        b.wf(),
        !b.complete(),
        scanning(b, last, 81, min, best),
    ensures
        b.guess_scan(last, best, last),
{
    let open = choose|c: int| 0 <= c < 81 && !(#[trigger] b.grid[c] != 0);
    lemma_open_has_candidate(b, open);
    lemma_scan_pos(last, open, open);
    lemma_scan_pos(last, last, last);
    assert(b.count(open) > 0);
    assert forall|c: int| 0 <= c < 81 implies scan_pos(last, c) <= scan_pos(last, last) by {
        lemma_scan_pos(last, c, c);
    }
}

/// Taking the last candidate from an open cell leaves a board that
/// admits nothing.
pub proof fn lemma_retract_fail(cur: Board, entry: Entry, next: Board)
    requires
        cur.wf(),
        entry.wf(),
        cur.grid[entry.cell as int] == 0,
        next == cur.prune(entry.cell as int, set![entry.num as int]),
        next.masks[entry.cell as int].len() == 0,
    ensures
        admits_none(next, Seq::<Entry>::empty()),
{
    let cell = entry.cell as int;
    let left = next.masks[cell];
    assert(cur.masks[cell].subset_of(all_digits()));
    lemma_digit_set_finite(left);
    assert(left =~= Set::<int>::empty());
    assert forall|g: Seq<u8>| !#[trigger] next.admits(Seq::<Entry>::empty(), g) by {
        if next.consistent(g) {
            assert(next.allows(cell, g[cell]));
        }
    }
}

/// What a search that starts on the fresh board finds are the solutions
/// that hold every entry.
pub proof fn lemma_fresh_found(stack: Seq<Entry>, sols: Seq<Sudoku>, limit: int)
    requires
        found(Board::fresh(), stack, Seq::<Sudoku>::empty(), sols, limit),
    ensures
        entries_solved(stack, sols, limit),
{
    let fresh = Board::fresh();
    lemma_fresh_board();
    assert forall|i: int| 0 <= i < sols.len() implies is_solution((#[trigger] sols[i])@) && agrees(
        sols[i]@,
        stack,
    ) by {
        assert(fresh.admits(stack, sols[i]@));
    }
    if sols.len() < limit {
        assert forall|g: Seq<u8>| is_solution(g) && #[trigger] agrees(g, stack) implies exists|
            i: int,
        | 0 <= i < sols.len() && (#[trigger] sols[i])@ == g by {
            assert(fresh.consistent(g));
            assert(fresh.admits(stack, g));
        }
    }
}

/// The grids of a list of solutions.
pub open spec fn grids(sols: Seq<Sudoku>) -> Seq<Seq<u8>> {
    Seq::new(sols.len(), |i: int| sols[i]@)
}

/// The entries that a search for hidden singles pushes on this board.
pub open spec fn hidden_pushed(b: Board) -> Seq<Entry> {
    let zone = choose|zone: int| first_loud(b, zone);
    if quiet(b, 27) {
        Seq::<Entry>::empty()
    } else {
        zone_singles(
            b,
            zone,
            if b.covered(zone) {
                first_double(b, zone, 0)
            } else {
                0
            },
        )
    }
}

/// The cell that a scan for a guess chooses when it starts after `last`,
/// and the cell at which it ends.
pub open spec fn guess_of(b: Board, last: int) -> (int, int) {
    choose|p: (int, int)| b.guess_scan(last, p.0, p.1)
}

/// The lowest member of a set of digits.
pub open spec fn lowest(s: Set<int>) -> int {
    choose|d: int| s.contains(d) && forall|x: int| s.contains(x) ==> d <= x
}

/// The entry that is left pending when the candidates of `cell` have
/// become `left`: the one candidate, if it is one.
pub open spec fn single_entry(cell: int, left: Set<int>) -> Seq<Entry> {
    if left.len() == 1 {
        seq![Entry { cell: cell as u8, num: left.choose() as u8 }]
    } else {
        Seq::<Entry>::empty()
    }
}

/// A depth that the search cannot exceed from this board with these
/// entries pending: every step down takes a candidate away or turns to
/// entries for open cells.
pub open spec fn search_depth(b: Board, stack: Seq<Entry>) -> nat {
    2 * b.candidates() + idle(b, stack) + 1
}

/// The solutions that the counting search has found when it returns, in
/// the order in which it finds them: `found` and after them what it finds
/// from board `b`, with `stack` pending and the last scan for a guess ended
/// at `last`. It inserts the pending entries; a filled board is a solution;
/// hidden singles, if there are any, are inserted next; else it guesses the
/// lowest candidate of the chosen cell, searches that branch, and unless
/// the limit is reached goes on without the guessed digit. `depth` bounds
/// the depth of the search.
pub open spec fn search_from(
    b: Board,
    last: int,
    stack: Seq<Entry>,
    limit: int,
    found: Seq<Seq<u8>>,
    depth: nat,
) -> Seq<Seq<u8>>
    decreases depth,
{
    let inserted = insert_end(b, stack);
    let settled = inserted.0;
    let guess = guess_of(settled, last);
    let num = lowest(settled.masks[guess.0]);
    let pruned = settled.prune(guess.0, set![num]);
    if depth == 0 || !inserted.2 {
        found
    } else if settled.complete() {
        found.push(settled.grid)
    } else if hidden_conflict(settled) {
        found
    } else if hidden_pushed(settled).len() > 0 {
        search_from(settled, last, hidden_pushed(settled), limit, found, (depth - 1) as nat)
    } else {
        let branch = search_from(
            settled,
            guess.1,
            seq![Entry { cell: guess.0 as u8, num: num as u8 }],
            limit,
            found,
            (depth - 1) as nat,
        );
        if branch.len() == limit || pruned.masks[guess.0].len() == 0 {
            branch
        } else {
            search_from(
                pruned,
                guess.1,
                single_entry(guess.0, pruned.masks[guess.0]),
                limit,
                branch,
                (depth - 1) as nat,
            )
        }
    }
}

/// The solutions that the counting search returns for a fresh solver with
/// these entries, in order.
pub open spec fn search_list(last: int, stack: Seq<Entry>, limit: int) -> Seq<Seq<u8>> {
    if limit <= 0 {
        Seq::<Seq<u8>>::empty()
    } else {
        search_from(
            Board::fresh(),
            last,
            stack,
            limit,
            Seq::<Seq<u8>>::empty(),
            search_depth(Board::fresh(), stack),
        )
    }
}

/// What the search for hidden singles found is what it pushes on this
/// board.
pub proof fn lemma_hidden_pushed(b: Board, before: Seq<Entry>, after: Seq<Entry>)
    requires
        hidden_found(b, before, after),
    ensures
        after == before + hidden_pushed(b),
{
    if quiet(b, 27) {
        if after != before {
            let zone = choose|zone: int| #[trigger]
                first_loud(b, zone) && after == before + zone_singles(
                    b,
                    zone,
                    if b.covered(zone) {
                        first_double(b, zone, 0)
                    } else {
                        0
                    },
                );
            crate::singles::lemma_all_quiet(b, zone);
        }
        assert(before + hidden_pushed(b) =~= before);
    } else {
        let zone = choose|zone: int| #[trigger]
            first_loud(b, zone) && after == before + zone_singles(
                b,
                zone,
                if b.covered(zone) {
                    first_double(b, zone, 0)
                } else {
                    0
                },
            );
        let z = choose|z: int| first_loud(b, z);
        assert(first_loud(b, zone));
        crate::singles::lemma_first_loud(b, zone, z);
    }
}

/// A scan for a guess has one outcome.
pub proof fn lemma_guess_unique(b: Board, last: int, best: int, stop: int)
    requires
        0 <= last < 81,
        b.guess_scan(last, best, stop),
    ensures
        guess_of(b, last) == (best, stop),
{
    let p = guess_of(b, last);
    assert(b.guess_scan(last, (best, stop).0, (best, stop).1));
    assert(b.guess_scan(last, p.0, p.1));
    lemma_guess_same(b, last, best, stop, p.0, p.1);
}

/// Two outcomes of a scan for a guess are one.
proof fn lemma_guess_same(b: Board, last: int, b1: int, s1: int, b2: int, s2: int)
    requires
        0 <= last < 81,
        b.guess_scan(last, b1, s1),
        b.guess_scan(last, b2, s2),
    ensures
        b1 == b2,
        s1 == s2,
{
    lemma_scan_pos(last, s1, s2);
    lemma_scan_pos(last, s2, last);
    lemma_scan_pos(last, s1, last);
    lemma_scan_pos(last, b1, b2);
    if scan_pos(last, s1) < scan_pos(last, s2) {
        assert(b.count(s1) == 2);
        let x = choose|x: int|
            0 <= x < 81 && scan_pos(last, x) < scan_pos(last, s1) && #[trigger] b.count(x) == 1;
        assert(b.count(x) > 0);
    }
    if scan_pos(last, s2) < scan_pos(last, s1) {
        assert(b.count(s2) == 2);
        let x = choose|x: int|
            0 <= x < 81 && scan_pos(last, x) < scan_pos(last, s2) && #[trigger] b.count(x) == 1;
        assert(b.count(x) > 0);
    }
    assert(s1 == s2);
    assert(b.count(b1) > 0 && b.count(b2) > 0);
}

/// The lowest member of a set is the member that no member is below.
pub proof fn lemma_lowest(s: Set<int>, d: int)
    requires
        s.contains(d),
        forall|x: int| s.contains(x) ==> d <= x,
    ensures
        lowest(s) == d,
{
    let l = lowest(s);
    assert(s.contains(l) && forall|x: int| s.contains(x) ==> l <= x);
}

/// What is pushed when one candidate is left is the entry for it.
pub proof fn lemma_single_entry(stack: Seq<Entry>, cell: u8, left: Set<int>)
    requires
        single_pushed(Seq::<Entry>::empty(), stack, cell, left),
    ensures
        stack == single_entry(cell as int, left),
{
    if left.len() == 1 {
        let e = stack.last();
        assert(left.contains(e.num as int));
        assert(left.contains(left.choose()));
        assert(stack =~= seq![e]);
    }
}

/// The grids of a list with one more solution.
pub proof fn lemma_grids_push(sols: Seq<Sudoku>, grid: Sudoku)
    ensures
        grids(sols.push(grid)) == grids(sols).push(grid@),
        grids(sols).len() == sols.len(),
{
    assert(grids(sols.push(grid)) =~= grids(sols).push(grid@));
}

/// The search is no deeper from entries for open cells on a board with
/// no more candidates than from where no such entries were pending, and
/// no deeper from a board with fewer candidates.
pub proof fn lemma_search_depth(a: Board, ka: Seq<Entry>, b: Board, kb: Seq<Entry>)
    requires
        b.candidates() < a.candidates() || (b.candidates() == a.candidates() && !a.has_live(ka)
            && b.has_live(kb)),
    ensures
        search_depth(b, kb) < search_depth(a, ka),
{
}

} // verus!
