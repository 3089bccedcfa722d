//! The mathematical model of a search state.
//!
//! A `Board` is what a solver state means: the grid filled so far, the set of
//! candidates of each cell, and the set of digits placed in each zone. The
//! pending entries of a search are a plain sequence. A board and its pending
//! entries together admit a set of solutions; the contracts of the solver
//! say how each step changes that set.

use vstd::prelude::*;
use crate::mask::all_digits;
use crate::rules::{is_grid, is_solution, no_conflict};
use crate::topology::{
    col_zone_of, field_zone_of, in_zone, neighbour, neighbour_index, row_zone_of, scan_pos, sees,
    zone_cell,
};
use crate::types::Entry;

verus! {

/// The most pending entries that are still placed one by one; more are
/// placed in a batch.
pub const EAGER_LIMIT: usize = 4;

/// The model of a search state.
pub struct Board {
    /// The 81 cells: 0 for an open cell, else the digit placed.
    pub grid: Seq<u8>,
    /// The candidates of each cell.
    pub masks: Seq<Set<int>>,
    /// The digits placed in each of the 27 zones.
    pub zones: Seq<Set<int>>,
}

/// Cell `c` belongs to `zone` and holds digit `d`.
pub open spec fn placed_at(grid: Seq<u8>, zone: int, d: int, c: int) -> bool {
    0 <= c < 81 && in_zone(c, zone) && grid[c] == d
}

/// Every entry names a cell of the board and a digit.
pub open spec fn entries_wf(stack: Seq<Entry>) -> bool {
    forall|i: int| 0 <= i < stack.len() ==> (#[trigger] stack[i]).wf()
}

/// `g` holds, for every entry, the entry's digit in the entry's cell.
pub open spec fn agrees(g: Seq<u8>, stack: Seq<Entry>) -> bool {
    forall|i: int| 0 <= i < stack.len() ==> g[(#[trigger] stack[i]).cell as int] == stack[i].num
}

/// No two entries are for the same cell.
pub open spec fn distinct_cells(stack: Seq<Entry>) -> bool {
    forall|i: int, j: int|
        0 <= i < j < stack.len() ==> (#[trigger] stack[i]).cell != (#[trigger] stack[j]).cell
}

/// Every pending entry is for an open cell.
pub open spec fn all_live(b: Board, stack: Seq<Entry>) -> bool {
    forall|i: int| 0 <= i < stack.len() ==> b.grid[(#[trigger] stack[i]).cell as int] == 0
}

/// The grid holds the digit of every entry in the entry's cell.
pub open spec fn holds_all(grid: Seq<u8>, stack: Seq<Entry>) -> bool {
    forall|i: int| 0 <= i < stack.len() ==> grid[(#[trigger] stack[i]).cell as int] == stack[i].num
}

/// Every digit of `after` was in `before` or is the digit of an entry.
pub open spec fn only_entries(before: Seq<u8>, stack: Seq<Entry>, after: Seq<u8>) -> bool {
    forall|c: int|
        0 <= c < 81 && #[trigger] after[c] != 0 ==> before[c] == after[c] || exists|i: int|
            0 <= i < stack.len() && (#[trigger] stack[i]).cell == c && stack[i].num == after[c]
}

/// The clues among the first `n` cells of a grid, as entries in cell order.
pub open spec fn clue_entries(grid: Seq<u8>, n: int) -> Seq<Entry>
    decreases n,
{
    if n <= 0 {
        Seq::<Entry>::empty()
    } else if grid[n - 1] != 0 {
        clue_entries(grid, n - 1).push(Entry { cell: (n - 1) as u8, num: grid[n - 1] })
    } else {
        clue_entries(grid, n - 1)
    }
}

/// Sum of the candidate counts of the first `n` cells.
pub open spec fn candidates_upto(masks: Seq<Set<int>>, n: int) -> nat
    decreases n,
{
    if n <= 0 {
        0
    } else {
        candidates_upto(masks, n - 1) + masks[n - 1].len()
    }
}

/// The digits placed in the three zones of a cell.
pub open spec fn zone_union(b: Board, cell: int) -> Set<int> {
    b.zones[row_zone_of(cell)].union(b.zones[col_zone_of(cell)]).union(
        b.zones[field_zone_of(cell)],
    )
}

impl Board {
    /// The board of a search that has not begun: nothing placed, every
    /// digit a candidate everywhere.
    pub open spec fn fresh() -> Board {
        Board {
            grid: Seq::new(81, |c: int| 0u8),
            masks: Seq::new(81, |c: int| all_digits()),
            zones: Seq::new(27, |z: int| Set::<int>::empty()),
        }
    }

    /// Sizes and ranges.
    pub open spec fn shape(self) -> bool {
        &&& is_grid(self.grid)
        &&& self.masks.len() == 81
        &&& self.zones.len() == 27
        &&& forall|c: int| 0 <= c < 81 ==> (#[trigger] self.masks[c]).subset_of(all_digits())
        &&& forall|z: int| 0 <= z < 27 ==> (#[trigger] self.zones[z]).subset_of(all_digits())
    }

    /// A cell has no candidate left exactly when it holds a digit.
    pub open spec fn solved_iff_empty(self) -> bool {
        forall|c: int|
            0 <= c < 81 ==> ((#[trigger] self.grid[c] != 0) <==> self.masks[c] == Set::<int>::empty())
    }

    /// A zone's set holds only digits that stand in one of its cells.
    pub open spec fn zones_sound(self) -> bool {
        forall|z: int, d: int|
            0 <= z < 27 && #[trigger] self.zones[z].contains(d) ==> exists|c: int| #[trigger]
                placed_at(self.grid, z, d, c)
    }

    /// A zone's set holds every digit that stands in one of its cells.
    pub open spec fn zones_full(self) -> bool {
        forall|c: int, z: int|
            0 <= z < 27 && #[trigger] placed_at(self.grid, z, self.grid[c] as int, c) && self.grid[c]
                != 0 ==> self.zones[z].contains(self.grid[c] as int)
    }

    /// The invariant of every search state.
    pub open spec fn wf(self) -> bool {
        &&& self.shape()
        &&& self.solved_iff_empty()
        &&& self.zones_sound()
        &&& self.zones_full()
        &&& no_conflict(self.grid)
    }

    /// No cell still has a candidate that a cell it sees already holds.
    pub open spec fn pruned(self) -> bool {
        forall|a: int, b: int|
            0 <= a < 81 && 0 <= b < 81 && #[trigger] sees(a, b) && self.grid[b] != 0
                ==> !self.masks[a].contains(self.grid[b] as int)
    }

    /// As `pruned`, but the digit just placed in `cell` may still be a
    /// candidate of those neighbours of `cell` that stand at index `from`
    /// or later.
    pub open spec fn pruned_but(self, cell: int, from: int) -> bool {
        forall|a: int, b: int|
            0 <= a < 81 && 0 <= b < 81 && #[trigger] sees(a, b) && self.grid[b] != 0
                && self.masks[a].contains(self.grid[b] as int) ==> b == cell && neighbour_index(
                cell,
                a,
            ) >= from
    }

    /// All cells hold a digit.
    pub open spec fn complete(self) -> bool {
        forall|c: int| 0 <= c < 81 ==> #[trigger] self.grid[c] != 0
    }

    /// Value `v` may stand in cell `c`: it is the digit placed there, or a candidate.
    pub open spec fn allows(self, c: int, v: u8) -> bool {
        if self.grid[c] != 0 {
            v == self.grid[c]
        } else {
            self.masks[c].contains(v as int)
        }
    }

    /// `g` is a solution that this board still admits.
    pub open spec fn consistent(self, g: Seq<u8>) -> bool {
        is_solution(g) && forall|c: int| 0 <= c < 81 ==> #[trigger] self.allows(c, g[c])
    }

    /// `g` is admitted by the board and holds every pending entry.
    pub open spec fn admits(self, stack: Seq<Entry>, g: Seq<u8>) -> bool {
        self.consistent(g) && agrees(g, stack)
    }

    /// Every solution the board admits holds every pending entry.
    pub open spec fn forces(self, stack: Seq<Entry>) -> bool {
        forall|g: Seq<u8>| #[trigger] self.consistent(g) ==> agrees(g, stack)
    }

    /// Digit `d` is already placed in a zone of `cell`.
    pub open spec fn zone_conflict(self, cell: int, d: int) -> bool {
        self.zones[row_zone_of(cell)].contains(d) || self.zones[col_zone_of(cell)].contains(d)
            || self.zones[field_zone_of(cell)].contains(d)
    }

    /// Every pending entry for an open cell is still a candidate there, or
    /// its digit is already placed in a zone of the cell.
    pub open spec fn live_or_blocked(self, stack: Seq<Entry>) -> bool {
        forall|i: int|
            0 <= i < stack.len() && self.grid[(#[trigger] stack[i]).cell as int] == 0
                ==> self.masks[stack[i].cell as int].contains(stack[i].num as int)
                || self.zone_conflict(stack[i].cell as int, stack[i].num as int)
    }

    /// Some pending entry is for an open cell.
    pub open spec fn has_live(self, stack: Seq<Entry>) -> bool {
        exists|i: int| 0 <= i < stack.len() && self.grid[(#[trigger] stack[i]).cell as int] == 0
    }

    /// Every open cell has at least `n` candidates.
    pub open spec fn roomy(self, n: int) -> bool {
        forall|c: int| 0 <= c < 81 && #[trigger] self.grid[c] == 0 ==> self.masks[c].len() >= n
    }

    /// The pending entries are first placements: each for an open cell of
    /// its own, and either one alone, or enough to be
    /// placed in one batch, or so few that no cell can run out of
    /// alternatives before all of them are placed.
    pub open spec fn fresh_for(self, stack: Seq<Entry>) -> bool {
        &&& all_live(self, stack)
        &&& distinct_cells(stack)
        &&& (stack.len() <= 1 || stack.len() > EAGER_LIMIT || self.roomy(stack.len() as int + 1))
    }

    /// What the insertion routines ask of the pending entries.
    pub open spec fn stack_ok(self, stack: Seq<Entry>) -> bool {
        &&& entries_wf(stack)
        &&& self.live_or_blocked(stack)
        &&& (self.fresh_for(stack) || self.forces(stack))
    }

    /// The board after digit `d` is placed in `cell`.
    pub open spec fn place(self, cell: int, d: u8) -> Board {
        Board {
            grid: self.grid.update(cell, d),
            masks: self.masks.update(cell, Set::<int>::empty()),
            zones: Seq::new(
                27,
                |z: int|
                    if in_zone(cell, z) {
                        self.zones[z].insert(d as int)
                    } else {
                        self.zones[z]
                    },
            ),
        }
    }

    /// The board after the digits in `gone` are taken from the candidates of `cell`.
    pub open spec fn prune(self, cell: int, gone: Set<int>) -> Board {
        Board {
            grid: self.grid,
            masks: self.masks.update(cell, self.masks[cell].difference(gone)),
            zones: self.zones,
        }
    }

    /// Each cell has the candidates it has in `base`, with or without `d`.
    pub open spec fn lost_only(self, base: Board, d: int) -> bool {
        forall|c: int|
            0 <= c < 81 ==> #[trigger] self.masks[c] == base.masks[c] || self.masks[c]
                == base.masks[c].remove(d)
    }

    /// Cell `c` of `next` keeps the digit of `self`, or holds a former
    /// candidate, and has no candidate that `self` had not.
    pub open spec fn refined_at(self, next: Board, c: int) -> bool {
        &&& (self.grid[c] != 0 ==> next.grid[c] == self.grid[c])
        &&& (self.grid[c] == 0 && next.grid[c] != 0 ==> self.masks[c].contains(next.grid[c] as int))
        &&& next.masks[c].subset_of(self.masks[c])
    }

    /// `next` was reached from `self` by placing candidates and pruning:
    /// digits placed stay, new digits were candidates, candidate sets only
    /// shrink and zone sets only grow.
    pub open spec fn refined_by(self, next: Board) -> bool {
        &&& forall|c: int| 0 <= c < 81 ==> #[trigger] self.refined_at(next, c)
        &&& forall|z: int| 0 <= z < 27 ==> (#[trigger] self.zones[z]).subset_of(next.zones[z])
    }

    /// Number of candidates left over all cells.
    pub open spec fn candidates(self) -> nat {
        candidates_upto(self.masks, 81)
    }

    /// Number of candidates of a cell.
    pub open spec fn count(self, c: int) -> nat {
        self.masks[c].len()
    }

    /// Digit `d` is a candidate of the `k`-th cell of `zone`.
    pub open spec fn holds_cand(self, zone: int, k: int, d: int) -> bool {
        self.masks[zone_cell(zone, k)].contains(d)
    }

    /// Every digit is placed in `zone` or is a candidate of one of its cells.
    pub open spec fn covered(self, zone: int) -> bool {
        forall|d: int|
            1 <= d <= 9 ==> #[trigger] self.zones[zone].contains(d) || exists|k: int|
                0 <= k < 9 && #[trigger] self.holds_cand(zone, k, d)
    }

    /// Digit `d` is a candidate of the `k`-th cell of `zone` and of no other
    /// cell of the zone.
    pub open spec fn single_at(self, zone: int, k: int, d: int) -> bool {
        self.holds_cand(zone, k, d) && forall|j: int|
            0 <= j < 9 && j != k ==> !#[trigger] self.holds_cand(zone, j, d)
    }

    /// No digit is a candidate of exactly one cell of `zone`.
    pub open spec fn no_single(self, zone: int) -> bool {
        forall|k: int, d: int| 0 <= k < 9 ==> !#[trigger] self.single_at(zone, k, d)
    }

    /// The entry places a digit that is a candidate of its cell alone in
    /// one of the zones of the cell.
    pub open spec fn hidden_single(self, e: Entry) -> bool {
        e.wf() && exists|zone: int, k: int|
            0 <= zone < 27 && 0 <= k < 9 && zone_cell(zone, k) == e.cell && #[trigger] self.single_at(
                zone,
                k,
                e.num as int,
            )
    }

    /// `best` is the cell that a scan for a guess chooses, and `stop` the
    /// cell at which the scan ends, when it starts after `last`. The scan
    /// ends at the first cell with two candidates that no cell with one
    /// candidate precedes, or else at `last`. The choice is the first
    /// scanned cell with the fewest candidates, open cells only.
    pub open spec fn guess_scan(self, last: int, best: int, stop: int) -> bool {
        &&& 0 <= best < 81
        &&& 0 <= stop < 81
        &&& self.count(best) > 0
        &&& scan_pos(last, best) <= scan_pos(last, stop)
        &&& forall|c: int|
            0 <= c < 81 && scan_pos(last, c) <= scan_pos(last, stop) && #[trigger] self.count(c) > 0
                ==> self.count(best) <= self.count(c) && (scan_pos(last, c) < scan_pos(last, best)
                ==> self.count(best) < self.count(c))
        &&& (stop == last || (stop == best && self.count(best) == 2))
        &&& forall|c: int|
            0 <= c < 81 && scan_pos(last, c) < scan_pos(last, stop) && #[trigger] self.count(c) == 2
                ==> exists|e: int|
                0 <= e < 81 && scan_pos(last, e) < scan_pos(last, c) && #[trigger] self.count(e)
                    == 1
    }
}

/// The two boards, each with its pending entries, admit the same solutions.
pub open spec fn same_admits(a: Board, ka: Seq<Entry>, b: Board, kb: Seq<Entry>) -> bool {
    forall|g: Seq<u8>|
        #![trigger a.admits(ka, g)]
        #![trigger b.admits(kb, g)]
        a.admits(ka, g) <==> b.admits(kb, g)
}

/// The board with its pending entries admits no solution.
pub open spec fn admits_none(a: Board, ka: Seq<Entry>) -> bool {
    forall|g: Seq<u8>| !#[trigger] a.admits(ka, g)
}

/// How the pending entries change when the candidates of `cell` have become
/// `left`: one candidate left is pushed as an entry, several change nothing.
pub open spec fn single_pushed(before: Seq<Entry>, after: Seq<Entry>, cell: u8, left: Set<int>) -> bool {
    if left.len() == 1 {
        &&& after.len() == before.len() + 1
        &&& after.drop_last() == before
        &&& after.last().cell == cell
        &&& left == set![after.last().num as int]
        &&& 1 <= after.last().num <= 9
    } else {
        after == before
    }
}

/// Either candidates were lost, or nothing changed, no pending entry was for
/// an open cell, and every entry now pending is.
pub open spec fn progressed(a: Board, ka: Seq<Entry>, b: Board, kb: Seq<Entry>) -> bool {
    b.candidates() < a.candidates() || (b == a && !a.has_live(ka) && all_live(b, kb))
}

/// What a round of insertion achieves when it succeeds: the entries left
/// are forced by the new board, which refines the old one and admits
/// exactly what the old board admitted together with its entries.
pub open spec fn inserted(a: Board, ka: Seq<Entry>, b: Board, kb: Seq<Entry>) -> bool {
    &&& entries_wf(kb)
    &&& b.live_or_blocked(kb)
    &&& b.forces(kb)
    &&& a.refined_by(b)
    &&& same_admits(b, kb, a, ka)
    &&& progressed(a, ka, b, kb)
    &&& (a.fresh_for(ka) ==> holds_all(b.grid, ka))
}

/// What insertion achieves once no entry is pending: the new board refines
/// the old one and admits exactly what the old board admitted together with
/// its entries; it has fewer candidates if an entry was for an open cell;
/// and first placements are all on the grid.
pub open spec fn settled(a: Board, ka: Seq<Entry>, b: Board) -> bool {
    &&& a.refined_by(b)
    &&& same_admits(b, Seq::<Entry>::empty(), a, ka)
    &&& b.candidates() <= a.candidates()
    &&& (a.has_live(ka) ==> b.candidates() < a.candidates())
    &&& (a.fresh_for(ka) ==> holds_all(b.grid, ka))
}

/// 0 while an entry for an open cell is pending, else 1: the second
/// component of the measure by which insertion terminates.
pub open spec fn idle(b: Board, stack: Seq<Entry>) -> nat {
    if b.has_live(stack) {
        0
    } else {
        1
    }
}

/// The state of the board while the digit of `entry`, just placed, is
/// pruned from the neighbours of its cell: `base` is the board right after
/// the placement and `rest` the entries that were pending then; the first
/// `j` neighbours have been visited. While `pending`, entries of a first
/// batch still wait and nothing may have been pushed.
pub open spec fn spreading(
    base: Board,
    rest: Seq<Entry>,
    entry: Entry,
    j: int,
    cur: Board,
    stack: Seq<Entry>,
    pending: bool,
) -> bool {
    &&& entry.wf()
    &&& cur.wf()
    &&& cur.pruned_but(entry.cell as int, j)
    &&& cur.grid == base.grid
    &&& cur.zones == base.zones
    &&& base.grid[entry.cell as int] == entry.num
    &&& base.shape()
    &&& base.refined_by(cur)
    &&& cur.lost_only(base, entry.num as int)
    &&& entries_wf(stack)
    &&& cur.live_or_blocked(stack)
    &&& same_admits(cur, stack, base, rest)
    &&& (pending ==> stack == rest && rest.len() >= 1 && base.roomy(rest.len() as int + 2))
    &&& (!pending ==> cur.forces(stack))
}

/// `unsolved` holds the digits that are candidates among the first `k`
/// cells of `zone`, and `multiple` those that are candidates of two or more
/// of them.
pub open spec fn scanned(b: Board, zone: int, k: int, unsolved: Set<int>, multiple: Set<int>) -> bool {
    &&& forall|d: int|
        unsolved.contains(d) <==> exists|j: int| 0 <= j < k && #[trigger] b.holds_cand(zone, j, d)
    &&& forall|d: int|
        multiple.contains(d) <==> exists|i: int, j: int|
            0 <= i < j < k && #[trigger] b.holds_cand(zone, i, d) && #[trigger] b.holds_cand(
                zone,
                j,
                d,
            )
}

/// The state of eager insertion between two entries: `s0` and `k0` are
/// the board and the entries it began with, `cur` and `stack` what they
/// have become. While `fresh`, only first placements have been made and
/// the entries not yet placed are pending in their first order.
pub open spec fn draining(
    s0: Board,
    k0: Seq<Entry>,
    cur: Board,
    stack: Seq<Entry>,
    fresh: bool,
) -> bool {
    &&& s0.shape()
    &&& entries_wf(k0)
    &&& k0.len() <= EAGER_LIMIT
    &&& cur.wf()
    &&& cur.pruned()
    &&& entries_wf(stack)
    &&& cur.live_or_blocked(stack)
    &&& s0.refined_by(cur)
    &&& same_admits(cur, stack, s0, k0)
    &&& (fresh ==> is_front(stack, k0) && cur.fresh_for(stack) && holds_from(
        cur.grid,
        k0,
        stack.len() as int,
    ))
    &&& (!fresh ==> cur.forces(stack))
    &&& (!fresh && s0.fresh_for(k0) ==> holds_all(cur.grid, k0))
    &&& (cur.candidates() < s0.candidates() || (cur == s0 && is_front(stack, k0) && filled_from(
        s0.grid,
        k0,
        stack.len() as int,
    )))
}

/// `front` is the beginning of `whole`.
pub open spec fn is_front(front: Seq<Entry>, whole: Seq<Entry>) -> bool {
    front.len() <= whole.len() && front == whole.take(front.len() as int)
}

/// The grid holds the digit of every entry from index `from` on.
pub open spec fn holds_from(grid: Seq<u8>, stack: Seq<Entry>, from: int) -> bool {
    forall|i: int|
        from <= i < stack.len() ==> grid[(#[trigger] stack[i]).cell as int] == stack[i].num
}

/// The cell of every entry from index `from` on is filled.
pub open spec fn filled_from(grid: Seq<u8>, stack: Seq<Entry>, from: int) -> bool {
    forall|i: int| from <= i < stack.len() ==> grid[(#[trigger] stack[i]).cell as int] != 0
}

/// What holds right after an entry was placed by eager insertion: `base`
/// is the board with the entry placed and `rest` the entries then pending.
/// While `pending`, the entries in `rest` are first placements still to be
/// made.
pub open spec fn placed(s0: Board, k0: Seq<Entry>, base: Board, rest: Seq<Entry>, pending: bool) -> bool {
    &&& s0.shape()
    &&& entries_wf(k0)
    &&& k0.len() <= EAGER_LIMIT
    &&& same_admits(base, rest, s0, k0)
    &&& s0.refined_by(base)
    &&& base.candidates() < s0.candidates()
    &&& (!pending && s0.fresh_for(k0) ==> holds_all(base.grid, k0))
    &&& (pending ==> is_front(rest, k0) && all_live(base, rest) && distinct_cells(rest)
        && holds_from(base.grid, k0, rest.len() as int))
}

/// The state of batch insertion while it places entries: `s0` and `k0`
/// are the board and the entries it began with, the first `i` entries have
/// been seen, and `cur` is the board with those of them placed whose cells
/// were open. The candidates of open cells are as they were. Once an entry
/// is placed, `any` is true.
pub open spec fn batching(s0: Board, k0: Seq<Entry>, i: int, cur: Board, any: bool) -> bool {
    &&& 0 <= i <= k0.len()
    &&& s0.wf()
    &&& s0.pruned()
    &&& s0.stack_ok(k0)
    &&& cur.wf()
    &&& s0.refined_by(cur)
    &&& forall|c: int| 0 <= c < 81 && #[trigger] cur.grid[c] == 0 ==> cur.masks[c] == s0.masks[c]
    &&& forall|g: Seq<u8>| #[trigger] s0.admits(k0, g) ==> cur.consistent(g)
    &&& only_entries(s0.grid, k0, cur.grid)
    &&& (s0.fresh_for(k0) ==> holds_all(cur.grid, k0.take(i)) && forall|m: int|
        i <= m < k0.len() ==> cur.grid[(#[trigger] k0[m]).cell as int] == 0)
    &&& (any ==> cur.candidates() < s0.candidates())
    &&& (!any ==> cur == s0 && forall|m: int|
        0 <= m < i ==> s0.grid[(#[trigger] k0[m]).cell as int] != 0)
}

/// The state of batch insertion while it brings the candidates up to
/// date: `s1` is the board with all entries placed, the cells before `cell`
/// have lost the digits placed in their zones, and `stack` holds the cells
/// found with one candidate.
pub open spec fn recounting(
    s0: Board,
    k0: Seq<Entry>,
    s1: Board,
    any: bool,
    cell: int,
    cur: Board,
    stack: Seq<Entry>,
) -> bool {
    &&& 0 <= cell <= 81
    &&& s0.wf()
    &&& s0.pruned()
    &&& s1.wf()
    &&& cur.wf()
    &&& cur.grid == s1.grid
    &&& cur.zones == s1.zones
    &&& s0.refined_by(s1)
    &&& s1.refined_by(cur)
    &&& only_entries(s0.grid, k0, s1.grid)
    &&& (s0.fresh_for(k0) ==> holds_all(s1.grid, k0))
    &&& forall|a: int, b: int|
        0 <= a < cell && 0 <= b < 81 && #[trigger] sees(a, b) && cur.grid[b] != 0
            ==> !cur.masks[a].contains(cur.grid[b] as int)
    &&& forall|g: Seq<u8>| #![trigger cur.consistent(g)] cur.consistent(g) <==> s0.admits(k0, g)
    &&& entries_wf(stack)
    &&& cur.forces(stack)
    &&& cur.live_or_blocked(stack)
    &&& all_live(cur, stack)
    &&& (any ==> cur.candidates() < s0.candidates())
    &&& (!any ==> !s0.has_live(k0) && s1 == s0 && (cur == s0 || cur.candidates()
        < s0.candidates()))
}

/// `after` is `before` with hidden singles of the board pushed, no two for
/// one cell.
pub open spec fn singles_pushed(b: Board, before: Seq<Entry>, after: Seq<Entry>) -> bool {
    &&& is_front(before, after)
    &&& forall|i: int| before.len() <= i < after.len() ==> b.hidden_single(#[trigger] after[i])
    &&& distinct_cells(after.skip(before.len() as int))
}

/// Each of the first `n` zones has a place left for every digit, and no
/// hidden single.
pub open spec fn quiet(b: Board, n: int) -> bool {
    forall|z: int| 0 <= z < n ==> #[trigger] b.covered(z) && b.no_single(z)
}

/// Some digit is a hidden single of `zone` at its `k`-th cell.
pub open spec fn has_single(b: Board, zone: int, k: int) -> bool {
    exists|d: int| #[trigger] b.single_at(zone, k, d)
}

/// The hidden single of `zone` at its `k`-th cell, where there is one.
pub open spec fn single_digit(b: Board, zone: int, k: int) -> int {
    choose|d: int| #[trigger] b.single_at(zone, k, d)
}

/// Two different digits are hidden singles of `zone` at its `k`-th cell,
/// which cannot take both.
pub open spec fn double_at(b: Board, zone: int, k: int) -> bool {
    exists|d: int, e: int| d != e && #[trigger] b.single_at(zone, k, d) && #[trigger] b.single_at(
        zone,
        k,
        e,
    )
}

/// The first cell of `zone`, from the `from`-th on, that would have to take
/// two digits; 9 if there is none.
pub open spec fn first_double(b: Board, zone: int, from: int) -> int
    decreases 9 - from,
{
    if from >= 9 {
        9
    } else if double_at(b, zone, from) {
        from
    } else {
        first_double(b, zone, from + 1)
    }
}

/// The hidden singles among the first `n` cells of `zone` as entries, in
/// the order of the cells.
pub open spec fn zone_singles(b: Board, zone: int, n: int) -> Seq<Entry>
    decreases n,
{
    if n <= 0 {
        Seq::<Entry>::empty()
    } else if has_single(b, zone, n - 1) {
        zone_singles(b, zone, n - 1).push(
            Entry { cell: zone_cell(zone, n - 1) as u8, num: single_digit(b, zone, n - 1) as u8 },
        )
    } else {
        zone_singles(b, zone, n - 1)
    }
}

/// `zone` is the first zone that is not quiet: it has no place left for
/// some digit, or it has a hidden single.
pub open spec fn first_loud(b: Board, zone: int) -> bool {
    0 <= zone < 27 && quiet(b, zone) && !(b.covered(zone) && b.no_single(zone))
}

/// The search for hidden singles fails on this board: the first zone that
/// is not quiet has no place left for some digit, or one of its cells would
/// have to take two digits.
pub open spec fn hidden_conflict(b: Board) -> bool {
    exists|zone: int|
        0 <= zone < 27 && #[trigger] quiet(b, zone) && (!b.covered(zone) || exists|k: int|
            0 <= k < 9 && #[trigger] double_at(b, zone, k))
}

/// What a search for hidden singles leaves pending: what was pending
/// before, and after it the hidden singles of the first zone that is not
/// quiet, one for each cell that has one, in the order of the cells, up to
/// the first cell that would have to take two. Nothing is added if all
/// zones are quiet or if that zone has no place left for some digit.
pub open spec fn hidden_found(b: Board, before: Seq<Entry>, after: Seq<Entry>) -> bool {
    ||| after == before && quiet(b, 27)
    ||| exists|zone: int| #[trigger]
        first_loud(b, zone) && after == before + zone_singles(
            b,
            zone,
            if b.covered(zone) {
                first_double(b, zone, 0)
            } else {
                0
            },
        )
}

/// `singles` holds the digits that are a candidate of exactly one cell of
/// `zone`.
pub open spec fn singles_of(b: Board, zone: int, singles: Set<int>) -> bool {
    &&& singles.subset_of(all_digits())
    &&& forall|k: int, d: int|
        0 <= k < 9 && #[trigger] b.single_at(zone, k, d) ==> singles.contains(d)
    &&& forall|k: int, d: int|
        0 <= k < 9 && singles.contains(d) && #[trigger] b.holds_cand(zone, k, d) ==> b.single_at(
            zone,
            k,
            d,
        )
    &&& forall|d: int|
        singles.contains(d) ==> exists|k: int| 0 <= k < 9 && #[trigger] b.holds_cand(zone, k, d)
}

/// The state of the search for hidden singles while it goes through the
/// cells of a zone that has some: `all` are the hidden singles of the zone
/// and `left` those whose cell is not among the first `k`; the others are
/// pushed, in the order of their cells. `before` are the entries that were
/// pending when the search began.
pub open spec fn resolving(
    b: Board,
    zone: int,
    k: int,
    all: Set<int>,
    left: Set<int>,
    before: Seq<Entry>,
    stack: Seq<Entry>,
) -> bool {
    &&& b.wf()
    &&& b.pruned()
    &&& first_loud(b, zone)
    &&& b.covered(zone)
    &&& 0 <= k <= 9
    &&& singles_of(b, zone, all)
    &&& left != Set::<int>::empty()
    &&& stack == before + zone_singles(b, zone, k)
    &&& forall|j: int| 0 <= j < k ==> !#[trigger] double_at(b, zone, j)
    &&& forall|d: int|
        left.contains(d) <==> all.contains(d) && forall|j: int|
            0 <= j < k ==> !#[trigger] b.holds_cand(zone, j, d)
}

/// The state of a scan for a guess that started after `last` and has
/// seen `seen` cells: `min` is the fewest candidates found in an open cell,
/// or 10 if none was found, and `best` the first cell that has so few.
pub open spec fn scanning(b: Board, last: int, seen: int, min: int, best: int) -> bool {
    &&& 0 <= last < 81
    &&& 0 <= seen <= 81
    &&& 0 < min <= 10
    &&& min != 2
    &&& (min == 10 ==> forall|c: int|
        0 <= c < 81 && scan_pos(last, c) < seen ==> #[trigger] b.count(c) == 0)
    &&& (min < 10 ==> 0 <= best < 81 && b.count(best) == min && scan_pos(last, best) < seen
        && forall|c: int|
        0 <= c < 81 && scan_pos(last, c) < seen && #[trigger] b.count(c) > 0 ==> min <= b.count(c)
            && (scan_pos(last, c) < scan_pos(last, best) ==> min < b.count(c)))
    &&& forall|c: int|
        0 <= c < 81 && scan_pos(last, c) < seen && #[trigger] b.count(c) == 2 ==> exists|x: int|
            0 <= x < 81 && scan_pos(last, x) < scan_pos(last, c) && #[trigger] b.count(x) == 1
}

/// The board that batch insertion reaches by placing the entries from
/// index `i` on, and whether all of them could be placed. An entry for a
/// filled cell is passed over; an entry whose digit is placed in a zone of
/// its open cell stops the placing.
pub open spec fn batch_from(b: Board, stack: Seq<Entry>, i: int) -> (Board, bool)
    decreases stack.len() - i,
{
    if i < 0 || i >= stack.len() {
        (b, true)
    } else if b.grid[stack[i].cell as int] != 0 {
        batch_from(b, stack, i + 1)
    } else if b.zone_conflict(stack[i].cell as int, stack[i].num as int) {
        (b, false)
    } else {
        batch_from(b.place(stack[i].cell as int, stack[i].num), stack, i + 1)
    }
}

/// The candidates that an open cell keeps when the digits placed in its
/// zones are taken from it.
pub open spec fn kept(b: Board, cell: int) -> Set<int> {
    b.masks[cell].difference(zone_union(b, cell))
}

/// The first open cell, from `from` on, that keeps no candidate; 81 if
/// there is none.
pub open spec fn first_starved(b: Board, from: int) -> int
    decreases 81 - from,
{
    if from >= 81 {
        81
    } else if b.grid[from] == 0 && kept(b, from) == Set::<int>::empty() {
        from
    } else {
        first_starved(b, from + 1)
    }
}

/// The board with the candidates of the first `n` cells brought up to
/// date: each has lost the digits placed in its zones.
pub open spec fn recounted(b: Board, n: int) -> Board {
    Board {
        grid: b.grid,
        masks: Seq::new(
            81,
            |c: int|
                if c < n {
                    kept(b, c)
                } else {
                    b.masks[c]
                },
        ),
        zones: b.zones,
    }
}

/// The cells among the first `n` that have exactly one candidate, as
/// entries for that candidate, in ascending order.
pub open spec fn naked_singles(b: Board, n: int) -> Seq<Entry>
    decreases n,
{
    if n <= 0 {
        Seq::<Entry>::empty()
    } else if b.masks[n - 1].len() == 1 {
        naked_singles(b, n - 1).push(
            Entry { cell: (n - 1) as u8, num: b.masks[n - 1].choose() as u8 },
        )
    } else {
        naked_singles(b, n - 1)
    }
}

/// Batch insertion succeeds: every entry for an open cell can be placed,
/// and every open cell then keeps a candidate.
pub open spec fn batch_ok(b: Board, stack: Seq<Entry>) -> bool {
    batch_from(b, stack, 0).1 && first_starved(batch_from(b, stack, 0).0, 0) == 81
}

/// The board that batch insertion leaves. If an entry cannot be placed,
/// it is the board with the entries before it placed. Else every cell up to
/// the first that keeps no candidate, or every cell if there is none, has
/// lost the digits placed in its zones.
pub open spec fn batch_board(b: Board, stack: Seq<Entry>) -> Board {
    let (placed, ok) = batch_from(b, stack, 0);
    if ok {
        recounted(placed, first_starved(placed, 0) + 1)
    } else {
        placed
    }
}

/// The entries that batch insertion leaves pending: the cells left with
/// one candidate, in ascending order, up to the first cell that keeps none.
pub open spec fn batch_pending(b: Board, stack: Seq<Entry>) -> Seq<Entry> {
    let (placed, ok) = batch_from(b, stack, 0);
    if ok {
        naked_singles(recounted(placed, 81), first_starved(placed, 0))
    } else {
        Seq::<Entry>::empty()
    }
}

/// What pruning the digit of the placed entry `e` from the neighbours of
/// its cell gives, from the `j`-th neighbour on: the board, the pending
/// entries, and whether every neighbour kept a candidate. A neighbour left
/// with one candidate is pushed; at one left with none the pruning stops.
pub open spec fn spread_from(b: Board, stack: Seq<Entry>, e: Entry, j: int) -> (
    Board,
    Seq<Entry>,
    bool,
)
    decreases 20 - j,
{
    let n = neighbour(e.cell as int, j);
    if j < 0 || j >= 20 {
        (b, stack, true)
    } else if !b.masks[n].contains(e.num as int) {
        spread_from(b, stack, e, j + 1)
    } else {
        let pruned = b.prune(n, set![e.num as int]);
        let left = pruned.masks[n];
        if left.len() == 0 {
            (pruned, stack, false)
        } else if left.len() == 1 {
            spread_from(pruned, stack.push(Entry { cell: n as u8, num: left.choose() as u8 }), e, j + 1)
        } else {
            spread_from(pruned, stack, e, j + 1)
        }
    }
}

/// What eager insertion gives: the board, the pending entries, and
/// whether it went through. The newest entry is taken off; it is passed
/// over if its cell is filled, it ends the insertion with a failure if its
/// digit is no candidate of its cell, and else it is placed and its digit
/// pruned from the neighbours. The insertion ends when nothing is pending,
/// when more than `EAGER_LIMIT` entries are, or when a neighbour is left
/// without a candidate. `steps` bounds the number of entries taken off.
pub open spec fn eager_from(b: Board, stack: Seq<Entry>, steps: nat) -> (Board, Seq<Entry>, bool)
    decreases steps,
{
    let e = stack.last();
    let rest = stack.drop_last();
    if stack.len() == 0 || steps == 0 {
        (b, stack, true)
    } else if b.grid[e.cell as int] != 0 {
        eager_from(b, rest, (steps - 1) as nat)
    } else if !b.masks[e.cell as int].contains(e.num as int) {
        (b, rest, false)
    } else {
        let spread = spread_from(b.place(e.cell as int, e.num), rest, e, 0);
        if !spread.2 || spread.1.len() > EAGER_LIMIT {
            spread
        } else {
            eager_from(spread.0, spread.1, (steps - 1) as nat)
        }
    }
}

/// A number of steps that eager insertion cannot exceed: every step takes
/// a pending entry off or a candidate away, and after it at most
/// `EAGER_LIMIT` entries are pending.
pub open spec fn eager_steps(b: Board, stack: Seq<Entry>) -> nat {
    b.candidates() * (EAGER_LIMIT + 1) as nat + stack.len()
}

/// What eager insertion gives on this board with these entries pending.
pub open spec fn eager_end(b: Board, stack: Seq<Entry>) -> (Board, Seq<Entry>, bool) {
    eager_from(b, stack, eager_steps(b, stack))
}

/// What one round of insertion gives: eager insertion while at most
/// `EAGER_LIMIT` entries are pending, batch insertion when they are more.
pub open spec fn round_of(b: Board, stack: Seq<Entry>) -> (Board, Seq<Entry>, bool) {
    if stack.len() <= EAGER_LIMIT {
        eager_end(b, stack)
    } else {
        (batch_board(b, stack), batch_pending(b, stack), batch_ok(b, stack))
    }
}

/// What insertion gives: round after round until nothing is pending or a
/// round fails. `rounds` bounds the number of rounds.
pub open spec fn insert_from(b: Board, stack: Seq<Entry>, rounds: nat) -> (Board, Seq<Entry>, bool)
    decreases rounds,
{
    let round = round_of(b, stack);
    if stack.len() == 0 || rounds == 0 {
        (b, stack, true)
    } else if !round.2 {
        round
    } else {
        insert_from(round.0, round.1, (rounds - 1) as nat)
    }
}

/// A number of rounds that insertion cannot exceed: a round takes a
/// candidate away, or it finds no entry for an open cell and leaves only
/// such entries, or none.
pub open spec fn insert_rounds(b: Board, stack: Seq<Entry>) -> nat {
    2 * b.candidates() + 1 + idle(b, stack)
}

/// What insertion gives on this board with these entries pending.
pub open spec fn insert_end(b: Board, stack: Seq<Entry>) -> (Board, Seq<Entry>, bool) {
    insert_from(b, stack, insert_rounds(b, stack))
}

} // verus!
