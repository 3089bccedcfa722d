//! The facts that propagation rests on.
//!
//! Each lemma says how one move changes a board and the solutions it
//! admits: refining, placing a digit, pruning candidates, taking an entry
//! off the pending ones, starting from a fresh board.

use vstd::prelude::*;
use crate::board::{
    agrees, all_live, candidates_upto, clue_entries, distinct_cells, entries_wf, holds_all, placed,
    placed_at, single_pushed, zone_union, Board, EAGER_LIMIT,
};
use crate::mask::{
    all_digits, lemma_all_digits_len, lemma_digit_set_finite, lemma_digit_set_shrinks,
};
use crate::rules::{extends, filled_upto, is_grid, is_solution, lemma_filled_bounds, no_conflict};
use crate::topology::{
    col_zone_of, field_zone_of, in_zone, lemma_neighbour_index, lemma_sees_zone,
    lemma_zones_of_cell, neighbour_index, row_zone_of, sees,
};
use crate::types::Entry;

verus! {

/// What a refined board admits, the board it came from admits too.
pub proof fn lemma_refined_consistent(a: Board, b: Board, g: Seq<u8>)
    requires
        a.refined_by(b),
        b.consistent(g),
    ensures
        a.consistent(g),
{
    assert forall|c: int| 0 <= c < 81 implies #[trigger] a.allows(c, g[c]) by {
        assert(b.allows(c, g[c]));
        assert(a.refined_at(b, c));
    }
}

/// Refinement composes.
pub proof fn lemma_refined_trans(a: Board, b: Board, c: Board)
    requires
        a.refined_by(b),
        b.refined_by(c),
    ensures
        a.refined_by(c),
{
    assert forall|x: int| 0 <= x < 81 implies #[trigger] a.refined_at(c, x) by {
        assert(a.refined_at(b, x));
        assert(b.refined_at(c, x));
    }
    assert forall|z: int| 0 <= z < 27 implies (#[trigger] a.zones[z]).subset_of(c.zones[z]) by {
        assert(b.zones[z].subset_of(c.zones[z]));
    }
}

/// Digits that a refinement found in place are still in place.
pub proof fn lemma_refined_holds(a: Board, b: Board, stack: Seq<Entry>)
    requires
        a.refined_by(b),
        entries_wf(stack),
        holds_all(a.grid, stack),
    ensures
        holds_all(b.grid, stack),
{
    assert forall|i: int| 0 <= i < stack.len() implies b.grid[(#[trigger] stack[i]).cell as int]
        == stack[i].num by {
        assert(stack[i].wf());
        assert(a.refined_at(b, stack[i].cell as int));
    }
}

/// Candidate sets that only shrink never raise the count of candidates.
pub proof fn lemma_candidates_shrink(a: Seq<Set<int>>, b: Seq<Set<int>>, n: int)
    requires
        0 <= n <= 81,
        a.len() == 81,
        b.len() == 81,
        forall|c: int| 0 <= c < 81 ==> (#[trigger] a[c]).subset_of(all_digits()),
        forall|c: int| 0 <= c < 81 ==> (#[trigger] b[c]).subset_of(a[c]),
    ensures
        candidates_upto(b, n) <= candidates_upto(a, n),
        (exists|c: int| 0 <= c < n && #[trigger] b[c] != a[c]) ==> candidates_upto(b, n)
            < candidates_upto(a, n),
    decreases n,
{
    if n > 0 {
        lemma_candidates_shrink(a, b, n - 1);
        assert(b[n - 1].subset_of(a[n - 1]));
        assert(a[n - 1].subset_of(all_digits()));
        lemma_digit_set_shrinks(b[n - 1], a[n - 1]);
        if exists|c: int| 0 <= c < n && #[trigger] b[c] != a[c] {
            let c = choose|c: int| 0 <= c < n && #[trigger] b[c] != a[c];
            if c < n - 1 {
                assert(b[c] != a[c]);
            }
        }
    }
}

/// A refined board has no more candidates, and fewer if a cell lost one.
pub proof fn lemma_refined_candidates(a: Board, b: Board)
    requires
        a.shape(),
        b.shape(),
        a.refined_by(b),
    ensures
        b.candidates() <= a.candidates(),
        (exists|c: int| 0 <= c < 81 && #[trigger] b.masks[c] != a.masks[c]) ==> b.candidates()
            < a.candidates(),
{
    assert forall|c: int| 0 <= c < 81 implies (#[trigger] b.masks[c]).subset_of(a.masks[c]) by {
        assert(a.refined_at(b, c));
    }
    lemma_candidates_shrink(a.masks, b.masks, 81);
}

/// An open cell of a well-formed board has a candidate.
pub proof fn lemma_open_has_candidate(b: Board, c: int)
    requires
        b.wf(),
        0 <= c < 81,
    ensures
        b.grid[c] == 0 <==> b.count(c) > 0,
{
    assert((b.grid[c] != 0) <==> b.masks[c] == Set::<int>::empty());
    assert(b.masks[c].subset_of(all_digits()));
    lemma_digit_set_finite(b.masks[c]);
    if b.masks[c].len() == 0 {
        assert(b.masks[c] =~= Set::<int>::empty());
    }
}

/// A well-formed board with every cell filled admits its own grid and
/// nothing else.
pub proof fn lemma_complete_unique(b: Board)
    requires
        b.wf(),
        b.complete(),
    ensures
        b.consistent(b.grid),
        forall|g: Seq<u8>| #[trigger] b.consistent(g) ==> g == b.grid,
{
    assert forall|c: int| 0 <= c < 81 implies 1 <= #[trigger] b.grid[c] <= 9 by {}
    assert forall|c: int| 0 <= c < 81 implies #[trigger] b.allows(c, b.grid[c]) by {}
    assert forall|g: Seq<u8>| #[trigger] b.consistent(g) implies g == b.grid by {
        assert forall|c: int| 0 <= c < 81 implies g[c] == b.grid[c] by {
            assert(b.allows(c, g[c]));
        }
        assert(g =~= b.grid);
    }
}

/// Entries that are all for open cells, and not none, include a live one.
pub proof fn lemma_all_live_has_live(b: Board, stack: Seq<Entry>)
    requires
        all_live(b, stack),
        stack.len() > 0,
    ensures
        b.has_live(stack),
{
    assert(b.grid[stack[0].cell as int] == 0);
}

/// A finite set of two or more members has two different members.
pub proof fn lemma_two_of(s: Set<int>) -> (r: (int, int))
    requires
        s.finite(),
        s.len() >= 2,
    ensures
        s.contains(r.0),
        s.contains(r.1),
        r.0 != r.1,
{
    let a = s.choose();
    assert(s.contains(a));
    let rest = s.remove(a);
    assert(rest.len() >= 1);
    let b = rest.choose();
    assert(rest.contains(b));
    (a, b)
}

/// A digit held by a cell that `cell` sees is placed in a zone of `cell`.
pub proof fn lemma_shared_zone_conflict(b: Board, cell: int, other: int, d: int)
    requires
        b.wf(),
        0 <= cell < 81,
        0 <= other < 81,
        sees(cell, other),
        b.grid[other] == d,
        d != 0,
    ensures
        b.zone_conflict(cell, d),
{
    lemma_zones_of_cell(cell);
    lemma_zones_of_cell(other);
    if row_zone_of(cell) == row_zone_of(other) {
        assert(placed_at(b.grid, row_zone_of(cell), b.grid[other] as int, other));
    } else if col_zone_of(cell) == col_zone_of(other) {
        assert(placed_at(b.grid, col_zone_of(cell), b.grid[other] as int, other));
    } else {
        assert(placed_at(b.grid, field_zone_of(cell), b.grid[other] as int, other));
    }
}

/// No admitted solution holds in an open cell a digit that is placed in one
/// of the cell's zones.
pub proof fn lemma_zone_conflict(b: Board, cell: int, d: int, g: Seq<u8>)
    requires
        b.wf(),
        0 <= cell < 81,
        b.grid[cell] == 0,
        b.zone_conflict(cell, d),
        b.consistent(g),
    ensures
        g[cell] != d,
{
    lemma_zones_of_cell(cell);
    let z = if b.zones[row_zone_of(cell)].contains(d) {
        row_zone_of(cell)
    } else if b.zones[col_zone_of(cell)].contains(d) {
        col_zone_of(cell)
    } else {
        field_zone_of(cell)
    };
    assert(in_zone(cell, z));
    let c = choose|c: int| #[trigger] placed_at(b.grid, z, d, c);
    assert(b.zones[z].subset_of(all_digits()));
    lemma_sees_zone(c, cell);
    assert(in_zone(cell, z));
    assert(sees(c, cell));
    assert(b.allows(c, g[c]));
}

/// Placing a digit that no zone of the cell holds keeps the board well formed.
pub proof fn lemma_place_wf(b: Board, cell: int, d: u8)
    requires
        b.wf(),
        0 <= cell < 81,
        1 <= d <= 9,
        b.grid[cell] == 0,
        !b.zone_conflict(cell, d as int),
    ensures
        b.place(cell, d).wf(),
{
    let n = b.place(cell, d);
    lemma_zones_of_cell(cell);
    assert(n.shape()) by {
        assert forall|c: int| 0 <= c < 81 implies (#[trigger] n.masks[c]).subset_of(
            all_digits(),
        ) by {
            assert(b.masks[c].subset_of(all_digits()));
        }
        assert forall|z: int| 0 <= z < 27 implies (#[trigger] n.zones[z]).subset_of(
            all_digits(),
        ) by {
            assert(b.zones[z].subset_of(all_digits()));
        }
    }
    assert(n.solved_iff_empty()) by {
        assert forall|c: int| 0 <= c < 81 implies ((#[trigger] n.grid[c] != 0) <==> n.masks[c]
            == Set::<int>::empty()) by {
            assert((b.grid[c] != 0) <==> b.masks[c] == Set::<int>::empty());
        }
    }
    assert(n.zones_sound()) by {
        assert forall|z: int, x: int| 0 <= z < 27 && #[trigger] n.zones[z].contains(
            x,
        ) implies exists|c: int| #[trigger] placed_at(n.grid, z, x, c) by {
            if b.zones[z].contains(x) {
                let c = choose|c: int| #[trigger] placed_at(b.grid, z, x, c);
                assert(c != cell);
                assert(placed_at(n.grid, z, x, c));
            } else {
                assert(placed_at(n.grid, z, x, cell));
            }
        }
    }
    assert(n.zones_full()) by {
        assert forall|c: int, z: int|
            0 <= z < 27 && #[trigger] placed_at(n.grid, z, n.grid[c] as int, c) && n.grid[c]
                != 0 implies n.zones[z].contains(n.grid[c] as int) by {
            if c != cell {
                assert(placed_at(b.grid, z, b.grid[c] as int, c));
            }
        }
    }
    assert(no_conflict(n.grid)) by {
        assert forall|x: int, y: int|
            0 <= x < 81 && 0 <= y < 81 && #[trigger] sees(x, y) && n.grid[x] != 0 implies n.grid[x]
            != n.grid[y] by {
            lemma_sees_zone(x, y);
            if x == cell {
                if b.grid[y] == d {
                    lemma_shared_zone_conflict(b, cell, y, d as int);
                }
            } else if y == cell {
                if b.grid[x] == d {
                    lemma_shared_zone_conflict(b, cell, x, d as int);
                }
            } else {
                assert(b.grid[x] != b.grid[y]);
            }
        }
    }
}

/// A candidate of an open cell of a pruned board can be placed there: no
/// zone of the cell holds it, the board stays well formed, and only the
/// neighbours of the cell may now hold a stale candidate.
pub proof fn lemma_place_candidate(b: Board, cell: int, d: u8)
    requires
        b.wf(),
        b.pruned(),
        0 <= cell < 81,
        1 <= d <= 9,
        b.grid[cell] == 0,
        b.masks[cell].contains(d as int),
    ensures
        !b.zone_conflict(cell, d as int),
        b.place(cell, d).wf(),
        b.place(cell, d).pruned_but(cell, 0),
        b.refined_by(b.place(cell, d)),
        b.place(cell, d).candidates() < b.candidates(),
{
    let n = b.place(cell, d);
    lemma_zones_of_cell(cell);
    assert(!b.zone_conflict(cell, d as int)) by {
        assert forall|z: int| 0 <= z < 27 && in_zone(cell, z) implies !b.zones[z].contains(
            d as int,
        ) by {
            if b.zones[z].contains(d as int) {
                let c = choose|c: int| #[trigger] placed_at(b.grid, z, d as int, c);
                lemma_sees_zone(cell, c);
                assert(in_zone(c, z));
                assert(sees(cell, c));
            }
        }
        assert(in_zone(cell, row_zone_of(cell)));
        assert(in_zone(cell, col_zone_of(cell)));
        assert(in_zone(cell, field_zone_of(cell)));
    }
    lemma_place_wf(b, cell, d);
    assert(n.pruned_but(cell, 0)) by {
        assert forall|x: int, y: int|
            0 <= x < 81 && 0 <= y < 81 && #[trigger] sees(x, y) && n.grid[y] != 0
                && n.masks[x].contains(n.grid[y] as int) implies y == cell && neighbour_index(
            cell,
            x,
        ) >= 0 by {
            if y != cell {
                assert(!b.masks[x].contains(b.grid[y] as int));
            }
            lemma_sees_zone(x, y);
            lemma_neighbour_index(cell, x);
        }
    }
    assert forall|c: int| 0 <= c < 81 implies #[trigger] b.refined_at(n, c) by {}
    assert(b.refined_by(n));
    assert(n.masks[cell] != b.masks[cell]);
    lemma_refined_candidates(b, n);
}

/// Placing a candidate keeps exactly the admitted solutions that hold the
/// digit in the cell.
pub proof fn lemma_place_consistent(b: Board, cell: int, d: u8, g: Seq<u8>)
    requires
        b.shape(),
        0 <= cell < 81,
        1 <= d <= 9,
        b.grid[cell] == 0,
    ensures
        b.place(cell, d).consistent(g) ==> g[cell] == d,
        b.masks[cell].contains(d as int) ==> (b.place(cell, d).consistent(g) <==> (b.consistent(g)
            && g[cell] == d)),
        b.consistent(g) && g[cell] == d ==> b.place(cell, d).consistent(g),
{
    let n = b.place(cell, d);
    if n.consistent(g) {
        assert(n.allows(cell, g[cell]));
        if b.masks[cell].contains(d as int) {
            assert forall|c: int| 0 <= c < 81 implies #[trigger] b.allows(c, g[c]) by {
                assert(n.allows(c, g[c]));
            }
        }
    }
    if b.consistent(g) && g[cell] == d {
        assert forall|c: int| 0 <= c < 81 implies #[trigger] n.allows(c, g[c]) by {
            assert(b.allows(c, g[c]));
        }
    }
}

/// Pruning an open cell that keeps a candidate, or any filled cell, keeps
/// the board well formed, and keeps it pruned if it was.
pub proof fn lemma_prune_wf(b: Board, cell: int, gone: Set<int>)
    requires
        b.wf(),
        0 <= cell < 81,
        b.grid[cell] == 0 ==> b.masks[cell].difference(gone) != Set::<int>::empty(),
    ensures
        b.prune(cell, gone).wf(),
        b.pruned() ==> b.prune(cell, gone).pruned(),
        b.refined_by(b.prune(cell, gone)),
{
    let n = b.prune(cell, gone);
    assert(n.shape()) by {
        assert forall|c: int| 0 <= c < 81 implies (#[trigger] n.masks[c]).subset_of(
            all_digits(),
        ) by {
            assert(b.masks[c].subset_of(all_digits()));
        }
    }
    assert(n.solved_iff_empty()) by {
        assert forall|c: int| 0 <= c < 81 implies ((#[trigger] n.grid[c] != 0) <==> n.masks[c]
            == Set::<int>::empty()) by {
            assert((b.grid[c] != 0) <==> b.masks[c] == Set::<int>::empty());
            if c == cell && b.grid[c] != 0 {
                assert(n.masks[c] =~= Set::<int>::empty());
            }
        }
    }
    assert(n.zones_sound()) by {
        assert forall|z: int, x: int| 0 <= z < 27 && #[trigger] n.zones[z].contains(
            x,
        ) implies exists|c: int| #[trigger] placed_at(n.grid, z, x, c) by {
            let c = choose|c: int| #[trigger] placed_at(b.grid, z, x, c);
            assert(placed_at(n.grid, z, x, c));
        }
    }
    if b.pruned() {
        assert forall|x: int, y: int|
            0 <= x < 81 && 0 <= y < 81 && #[trigger] sees(x, y) && n.grid[y]
                != 0 implies !n.masks[x].contains(n.grid[y] as int) by {
            assert(!b.masks[x].contains(b.grid[y] as int));
        }
    }
    assert forall|c: int| 0 <= c < 81 implies #[trigger] b.refined_at(n, c) by {}
}

/// Pruning takes from the admitted solutions exactly those that hold a
/// pruned digit in the cell.
pub proof fn lemma_prune_consistent(b: Board, cell: int, gone: Set<int>, g: Seq<u8>)
    requires
        b.shape(),
        0 <= cell < 81,
        b.grid[cell] == 0,
    ensures
        b.prune(cell, gone).consistent(g) <==> (b.consistent(g) && !gone.contains(g[cell] as int)),
{
    let n = b.prune(cell, gone);
    if n.consistent(g) {
        assert forall|c: int| 0 <= c < 81 implies #[trigger] b.allows(c, g[c]) by {
            assert(n.allows(c, g[c]));
        }
        assert(n.allows(cell, g[cell]));
    }
    if b.consistent(g) && !gone.contains(g[cell] as int) {
        assert forall|c: int| 0 <= c < 81 implies #[trigger] n.allows(c, g[c]) by {
            assert(b.allows(c, g[c]));
        }
    }
}

/// A digit placed in a cell can be pruned from a cell it sees without
/// losing a solution.
pub proof fn lemma_prune_seen(b: Board, cell: int, other: int, g: Seq<u8>)
    requires
        b.shape(),
        0 <= cell < 81,
        0 <= other < 81,
        sees(cell, other),
        b.grid[cell] != 0,
        b.grid[other] == 0,
    ensures
        b.prune(other, set![b.grid[cell] as int]).consistent(g) <==> b.consistent(g),
{
    lemma_prune_consistent(b, other, set![b.grid[cell] as int], g);
    if b.consistent(g) {
        assert(b.allows(cell, g[cell]));
        assert(g[cell] != g[other]);
    }
}

/// Pruning from an open cell the digits placed in its zones loses no
/// admitted solution, and leaves the cell without a candidate that a cell
/// it sees holds.
pub proof fn lemma_prune_zones(b: Board, cell: int)
    requires
        b.wf(),
        0 <= cell < 81,
        b.grid[cell] == 0,
    ensures
        forall|g: Seq<u8>|
            #![trigger b.prune(cell, zone_union(b, cell)).consistent(g)]
            b.prune(cell, zone_union(b, cell)).consistent(g) <==> b.consistent(g),
        forall|other: int|
            0 <= other < 81 && #[trigger] sees(cell, other) && b.grid[other] != 0 ==> !b.prune(
                cell,
                zone_union(b, cell),
            ).masks[cell].contains(b.grid[other] as int),
{
    let gone = zone_union(b, cell);
    let n = b.prune(cell, gone);
    assert forall|g: Seq<u8>| #![trigger n.consistent(g)] n.consistent(g) <==> b.consistent(g) by {
        lemma_prune_consistent(b, cell, gone, g);
        if b.consistent(g) && gone.contains(g[cell] as int) {
            lemma_zone_conflict(b, cell, g[cell] as int, g);
        }
    }
    assert forall|other: int|
        0 <= other < 81 && #[trigger] sees(cell, other) && b.grid[other]
            != 0 implies !n.masks[cell].contains(b.grid[other] as int) by {
        lemma_shared_zone_conflict(b, cell, other, b.grid[other] as int);
    }
}

/// The entries pending before a push are still there, in place.
pub proof fn lemma_single_pushed_keeps(before: Seq<Entry>, after: Seq<Entry>, cell: u8, left: Set<int>)
    requires
        single_pushed(before, after, cell, left),
    ensures
        before.len() <= after.len(),
        forall|i: int| 0 <= i < before.len() ==> #[trigger] after[i] == before[i],
{
    assert forall|i: int| 0 <= i < before.len() implies #[trigger] after[i] == before[i] by {
        if left.len() == 1 {
            assert(after.drop_last()[i] == after[i]);
        }
    }
}

/// The clue entries are as many as the clues, stand in ascending cell
/// order, each hold the digit of their cell, and leave no clue out.
pub proof fn lemma_clue_entries(grid: Seq<u8>, n: int)
    requires
        is_grid(grid),
        0 <= n <= 81,
    ensures
        clue_entries(grid, n).len() == filled_upto(grid, n),
        clue_entries(grid, n).len() <= n,
        entries_wf(clue_entries(grid, n)),
        forall|i: int|
            0 <= i < clue_entries(grid, n).len() ==> (#[trigger] clue_entries(grid, n)[i]).cell < n
                && grid[clue_entries(grid, n)[i].cell as int] == clue_entries(grid, n)[i].num,
        forall|i: int, j: int|
            0 <= i < j < clue_entries(grid, n).len() ==> (#[trigger] clue_entries(grid, n)[i]).cell
                < (#[trigger] clue_entries(grid, n)[j]).cell,
        forall|c: int|
            0 <= c < n && #[trigger] grid[c] != 0 ==> exists|i: int|
                0 <= i < clue_entries(grid, n).len() && (#[trigger] clue_entries(grid, n)[i]).cell
                    == c,
    decreases n,
{
    if n > 0 {
        lemma_clue_entries(grid, n - 1);
        let rest = clue_entries(grid, n - 1);
        let all = clue_entries(grid, n);
        assert forall|c: int| 0 <= c < n && #[trigger] grid[c] != 0 implies exists|i: int|
            0 <= i < all.len() && (#[trigger] all[i]).cell == c by {
            if c < n - 1 {
                let i = choose|i: int| 0 <= i < rest.len() && (#[trigger] rest[i]).cell == c;
                assert(all[i] == rest[i]);
            } else {
                assert(all[all.len() - 1].cell == c);
            }
        }
        assert forall|i: int, j: int| 0 <= i < j < all.len() implies (#[trigger] all[i]).cell < (
        #[trigger] all[j]).cell by {
            assert(all[i] == rest[i]);
            if j < rest.len() {
                assert(all[j] == rest[j]);
            }
        }
        assert forall|i: int| 0 <= i < all.len() implies (#[trigger] all[i]).cell < n
            && grid[all[i].cell as int] == all[i].num && all[i].wf() by {
            if i < rest.len() {
                assert(all[i] == rest[i]);
                assert(rest[i].wf());
            }
        }
    }
}

/// The fresh board is well formed and pruned, and admits every solution.
pub proof fn lemma_fresh_board()
    ensures
        Board::fresh().wf(),
        Board::fresh().pruned(),
        Board::fresh().roomy(9),
        forall|g: Seq<u8>| #[trigger] Board::fresh().consistent(g) <==> is_solution(g),
{
    let b = Board::fresh();
    lemma_all_digits_len();
    assert(all_digits().contains(1));
    assert(b.solved_iff_empty()) by {
        assert forall|c: int| 0 <= c < 81 implies ((#[trigger] b.grid[c] != 0) <==> b.masks[c]
            == Set::<int>::empty()) by {
            assert(b.masks[c].contains(1));
        }
    }
    assert forall|g: Seq<u8>| #[trigger] b.consistent(g) <==> is_solution(g) by {
        if is_solution(g) {
            assert forall|c: int| 0 <= c < 81 implies #[trigger] b.allows(c, g[c]) by {}
        }
    }
}

/// Entries for cells of their own are first placements on the fresh board.
pub proof fn lemma_fresh_stack(stack: Seq<Entry>)
    requires
        entries_wf(stack),
        distinct_cells(stack),
    ensures
        Board::fresh().stack_ok(stack),
        Board::fresh().fresh_for(stack),
{
    let b = Board::fresh();
    lemma_fresh_board();
    assert(b.live_or_blocked(stack)) by {
        assert forall|i: int| 0 <= i < stack.len() implies b.masks[(
        #[trigger] stack[i]).cell as int].contains(stack[i].num as int) by {
            assert(stack[i].wf());
        }
    }
    assert(all_live(b, stack)) by {
        assert forall|i: int| 0 <= i < stack.len() implies b.grid[(
        #[trigger] stack[i]).cell as int] == 0 by {
            assert(stack[i].wf());
        }
    }
    if 1 < stack.len() <= EAGER_LIMIT {
        assert(b.roomy(stack.len() as int + 1));
    }
}

/// A grid of 81 cells holds every clue entry of `grid` exactly when it
/// keeps the clues of `grid`.
pub proof fn lemma_clues_agree(grid: Seq<u8>, g: Seq<u8>)
    requires
        is_grid(grid),
        g.len() == 81,
    ensures
        agrees(g, clue_entries(grid, 81)) <==> extends(g, grid),
        distinct_cells(clue_entries(grid, 81)),
        entries_wf(clue_entries(grid, 81)),
{
    let k = clue_entries(grid, 81);
    lemma_clue_entries(grid, 81);
    if agrees(g, k) {
        assert forall|c: int| 0 <= c < 81 && #[trigger] grid[c] != 0 implies g[c] == grid[c] by {
            let i = choose|i: int| 0 <= i < k.len() && (#[trigger] k[i]).cell == c;
            assert(g[k[i].cell as int] == k[i].num);
        }
    }
    if extends(g, grid) {
        assert forall|i: int| 0 <= i < k.len() implies g[(#[trigger] k[i]).cell as int]
            == k[i].num by {
            assert(grid[k[i].cell as int] == k[i].num);
            assert(k[i].wf());
        }
    }
}

/// Taking the newest entry off the pending entries: what is admitted with
/// it pending is what is admitted without it and holds its digit.
pub proof fn lemma_pop(cur: Board, before: Seq<Entry>, g: Seq<u8>)
    requires
        before.len() > 0,
    ensures
        cur.admits(before, g) <==> (cur.admits(before.drop_last(), g) && g[before.last().cell as int]
            == before.last().num),
{
    let rest = before.drop_last();
    if cur.admits(before, g) {
        assert forall|i: int| 0 <= i < rest.len() implies g[(#[trigger] rest[i]).cell as int]
            == rest[i].num by {
            assert(rest[i] == before[i]);
        }
        assert(g[before[before.len() - 1].cell as int] == before[before.len() - 1].num);
    }
    if cur.admits(rest, g) && g[before.last().cell as int] == before.last().num {
        assert forall|i: int| 0 <= i < before.len() implies g[(#[trigger] before[i]).cell as int]
            == before[i].num by {
            if i < rest.len() {
                assert(rest[i] == before[i]);
            }
        }
    }
}

/// Entries that were in order are in order without the newest.
pub proof fn lemma_pop_keeps(cur: Board, before: Seq<Entry>)
    requires
        before.len() > 0,
        entries_wf(before),
        cur.live_or_blocked(before),
    ensures
        entries_wf(before.drop_last()),
        cur.live_or_blocked(before.drop_last()),
        before.last().wf(),
        cur.forces(before) ==> cur.forces(before.drop_last()),
{
    let rest = before.drop_last();
    assert forall|i: int| 0 <= i < rest.len() implies (#[trigger] rest[i]).wf() by {
        assert(rest[i] == before[i]);
    }
    assert forall|i: int|
        0 <= i < rest.len() && cur.grid[(#[trigger] rest[i]).cell as int]
            == 0 implies cur.masks[rest[i].cell as int].contains(rest[i].num as int)
        || cur.zone_conflict(rest[i].cell as int, rest[i].num as int) by {
        assert(rest[i] == before[i]);
    }
    assert(before[before.len() - 1].wf());
    if cur.forces(before) {
        assert forall|g: Seq<u8>| #[trigger] cur.consistent(g) implies agrees(g, rest) by {
            assert(cur.admits(before, g));
            lemma_pop(cur, before, g);
        }
    }
}

/// The digits of a mask of one digit and a set share a member exactly
/// when the set holds the digit.
pub proof fn lemma_single_meets(d: int, s: Set<int>)
    ensures
        set![d].intersect(s) == Set::<int>::empty() <==> !s.contains(d),
        s.intersect(set![d]) == Set::<int>::empty() <==> !s.contains(d),
{
    if s.contains(d) {
        assert(set![d].intersect(s).contains(d));
        assert(s.intersect(set![d]).contains(d));
    } else {
        assert(set![d].intersect(s) =~= Set::<int>::empty());
        assert(s.intersect(set![d]) =~= Set::<int>::empty());
    }
}

/// A digit is placed in a zone of a cell exactly when one of the three
/// zone sets of the cell shares it with the set of that digit alone.
pub proof fn lemma_zone_meets(b: Board, cell: int, d: int)
    ensures
        b.zone_conflict(cell, d) <==> (b.zones[row_zone_of(cell)].intersect(set![d])
            != Set::<int>::empty() || b.zones[col_zone_of(cell)].intersect(set![d])
            != Set::<int>::empty() || b.zones[field_zone_of(cell)].intersect(set![d])
            != Set::<int>::empty()),
{
    lemma_single_meets(d, b.zones[row_zone_of(cell)]);
    lemma_single_meets(d, b.zones[col_zone_of(cell)]);
    lemma_single_meets(d, b.zones[field_zone_of(cell)]);
}

/// An open cell of a board with exact counters leaves the count of filled
/// cells below 81.
pub proof fn lemma_open_count(grid: Seq<u8>, cell: int)
    requires
        0 <= cell < 81,
        grid[cell] == 0,
    ensures
        filled_upto(grid, 81) < 81,
{
    lemma_filled_bounds(grid, 81);
}

} // verus!
