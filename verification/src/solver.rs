//! The search state and the propagation and backtracking that work on it.

use vstd::prelude::*;
use crate::batch::{
    lemma_batch_fail, lemma_batch_place, lemma_batch_skip, lemma_batch_start, lemma_first_starved,
    lemma_inserted_trans, lemma_prune_refines, lemma_recount_end, lemma_recount_fail,
    lemma_recount_prune, lemma_recount_skip, lemma_recount_start, lemma_recounted_step,
};
use crate::board::{
    admits_none, batch_board, batch_from, batch_ok, batch_pending, batching, clue_entries,
    distinct_cells, draining, eager_end, eager_from, eager_steps, entries_wf, hidden_conflict,
    hidden_found, holds_all, idle, insert_end, insert_from, insert_rounds, inserted, kept,
    naked_singles, only_entries, placed, quiet, recounted, recounting, resolving, round_of,
    same_admits, scanned, scanning, settled, single_pushed, singles_pushed, spread_from, spreading,
    zone_union, Board, EAGER_LIMIT,
};
use crate::deduce::{
    lemma_all_live_has_live, lemma_complete_unique, lemma_fresh_board, lemma_fresh_stack,
    lemma_open_count, lemma_open_has_candidate, lemma_place_candidate, lemma_place_wf,
    lemma_pop_keeps, lemma_refined_candidates, lemma_refined_trans, lemma_single_meets,
    lemma_zone_meets,
};
use crate::eager::{
    lemma_drain_end, lemma_drain_fail, lemma_drain_place, lemma_drain_skip, lemma_drain_spread,
    lemma_drain_spread_fail, lemma_drain_start, lemma_eager_steps, lemma_spread_prune,
    lemma_spread_skip, lemma_spread_step,
};
use crate::mask::{all_digits, lemma_digit_set_finite, Mask};
use crate::random::random_below;
use crate::rules::{filled_upto, lemma_filled_bounds, lemma_filled_update};
use crate::search::{
    entries_solved, found, grids, hidden_pushed, lemma_fresh_found, lemma_grids_push,
    lemma_guess_end, lemma_guess_next, lemma_guess_ok, lemma_guess_start, lemma_guess_unique,
    lemma_hidden_pushed, lemma_lowest, lemma_retract_fail, lemma_retracted, lemma_search_branch,
    lemma_search_depth, lemma_search_exhausted, lemma_search_forced, lemma_search_settled,
    lemma_search_solved, lemma_single_entry, lemma_singles_forced, search_depth, search_from,
    search_list, searching,
};
use crate::singles::{
    lemma_quiet, lemma_resolve_end, lemma_resolve_none, lemma_resolve_push, lemma_resolve_start,
    lemma_resolve_two, lemma_scan_step, lemma_uncovered, lemma_zone_scanned,
};
use crate::sudoku::Sudoku;
use crate::topology::{
    cells_of_zone, col_zone, field_zone, in_zone, lemma_neighbour, lemma_scan_pos, lemma_zone_cell,
    lemma_zones_of_cell, neighbour, neighbours, row_zone, scan_pos, zone_cell,
};
use crate::types::{Entry, Unsolvable};

verus! {

/// One node of the search: the grid being filled, the candidates of each
/// cell, the digits placed in each zone, the number of cells filled and the
/// cell at which the last scan for a guess stopped.
#[derive(Debug)]
pub struct SudokuSolver {
    /// The grid being filled.
    pub grid: Sudoku,
    /// Number of cells that hold a digit.
    pub n_solved_cells: u8,
    /// The digits still possible in each cell; none for a cell that holds one.
    pub cell_poss_digits: [Mask; 81],
    /// The digits placed in each zone.
    pub zone_solved_digits: [Mask; 27],
    /// The cell at which the last scan for a guess ended.
    pub last_cell: u8,
}

impl View for SudokuSolver {
    type V = Board;

    open spec fn view(&self) -> Board {
        Board {
            grid: self.grid@,
            masks: Seq::new(81, |c: int| self.cell_poss_digits[c]@),
            zones: Seq::new(27, |z: int| self.zone_solved_digits[z]@),
        }
    }
}

impl Clone for SudokuSolver {
    fn clone(&self) -> (r: SudokuSolver)
        ensures
            r == *self,
    {
        SudokuSolver {
            grid: self.grid,
            n_solved_cells: self.n_solved_cells,
            cell_poss_digits: self.cell_poss_digits,
            zone_solved_digits: self.zone_solved_digits,
            last_cell: self.last_cell,
        }
    }
}

impl SudokuSolver {
    /// The counters match the board.
    pub open spec fn counted(&self) -> bool {
        self.n_solved_cells == filled_upto(self.grid@, 81) && self.last_cell < 81
    }

    /// The state is one that propagation can be interrupted in: the board
    /// is well formed, though candidates may be stale.
    pub open spec fn wf_stale(&self) -> bool {
        self@.wf() && self.counted()
    }

    /// The state is one that the search can rest in.
    pub open spec fn wf(&self) -> bool {
        self.wf_stale() && self@.pruned()
    }

    /// A state with nothing placed and every digit possible everywhere.
    pub fn new() -> (r: SudokuSolver)
        ensures
            r.wf(),
            r@ == Board::fresh(),
            r.n_solved_cells == 0,
            r.last_cell == 0,
    {
        let all = Mask::all();
        let none = Mask::none();
        let cells: [u8; 81] = [0u8;81];
        let r = SudokuSolver {
            grid: Sudoku(cells),
            n_solved_cells: 0,
            cell_poss_digits: [all;81],
            zone_solved_digits: [none;27],
            last_cell: 0,
        };
        proof {
            assert(r@.grid =~= Board::fresh().grid);
            assert(r@.masks =~= Board::fresh().masks);
            assert(r@.zones =~= Board::fresh().zones);
            lemma_filled_bounds(r@.grid, 81);
            lemma_fresh_board();
        }
        r
    }

    /// Writes a digit into an open cell and records it in the cell's zones.
    fn _insert_entry(&mut self, entry: Entry)
        requires
            old(self).wf_stale(),
            entry.wf(),
            old(self)@.grid[entry.cell as int] == 0,
            !old(self)@.zone_conflict(entry.cell as int, entry.num as int),
        ensures
            final(self)@ == old(self)@.place(entry.cell as int, entry.num),
            final(self).n_solved_cells == old(self).n_solved_cells + 1,
            final(self).last_cell == old(self).last_cell,
            final(self).wf_stale(),
    {
        proof {
            use_type_invariant(&self.grid);
            lemma_filled_bounds(self.grid@, 81);
            lemma_filled_update(self.grid@, 81, entry.cell as int, entry.num);
            lemma_zones_of_cell(entry.cell as int);
            lemma_place_wf(self@, entry.cell as int, entry.num);
        }
        self.n_solved_cells += 1;
        self.grid.0[entry.cell()] = entry.num;
        self.cell_poss_digits[entry.cell()] = Mask::none();
        let rz = row_zone(entry.cell);
        let cz = col_zone(entry.cell);
        let fz = field_zone(entry.cell);
        let m = entry.mask();
        self.zone_solved_digits[rz] = self.zone_solved_digits[rz].union(m);
        self.zone_solved_digits[cz] = self.zone_solved_digits[cz].union(m);
        self.zone_solved_digits[fz] = self.zone_solved_digits[fz].union(m);
        proof {
            let want = old(self)@.place(entry.cell as int, entry.num);
            assert(self@.grid =~= want.grid);
            assert(self@.masks =~= want.masks);
            assert forall|z: int| 0 <= z < 27 implies self@.zones[z] == want.zones[z] by {
                assert(in_zone(entry.cell as int, z) <==> (z == rz || z == cz || z == fz));
                assert(self@.zones[z] =~= want.zones[z]);
            }
            assert(self@.zones =~= want.zones);
        }
    }

    /// Takes `impossible` from the candidates of `cell`. Fails if none is
    /// left; pushes the placement if exactly one is left.
    fn remove_impossibilities(&mut self, cell: u8, impossible: Mask, stack: &mut Vec<Entry>) -> (r:
        Result<(), Unsolvable>)
        requires
            cell < 81,
        ensures
            final(self)@ == old(self)@.prune(cell as int, impossible@),
            final(self).grid == old(self).grid,
            final(self).n_solved_cells == old(self).n_solved_cells,
            final(self).last_cell == old(self).last_cell,
            r is Err <==> final(self)@.masks[cell as int].len() == 0,
            r is Err ==> final(stack)@ == old(stack)@,
            r is Ok ==> single_pushed(
                old(stack)@,
                final(stack)@,
                cell,
                final(self)@.masks[cell as int],
            ),
    {
        let mut cell_mask = self.cell_poss_digits[cell as usize];
        cell_mask.remove(impossible);
        self.cell_poss_digits[cell as usize] = cell_mask;
        proof {
            assert(self@.masks =~= old(self)@.prune(cell as int, impossible@).masks);
            assert(self@.zones =~= old(self)@.zones);
            cell_mask.lemma_view();
        }
        match cell_mask.unique_num() {
            Err(e) => Err(e),
            Ok(Some(num)) => {
                stack.push(Entry { cell: cell, num: num });
                proof {
                    assert(stack@.drop_last() =~= old(stack)@);
                }
                Ok(())
            },
            Ok(None) => Ok(()),
        }
    }

    /// Places pending entries one by one, newest first, and prunes the
    /// placed digit from the twenty neighbours at once. A neighbour left
    /// with one candidate becomes a pending entry; one left with none is a
    /// contradiction. Stops early once more than four entries are pending.
    fn insert_entries_singly(&mut self, stack: &mut Vec<Entry>) -> (r: Result<(), Unsolvable>)
        requires
            old(self).wf(),
            old(self)@.stack_ok(old(stack)@),
            old(stack).len() <= EAGER_LIMIT,
        ensures
            final(self)@ == eager_end(old(self)@, old(stack)@).0,
            final(stack)@ == eager_end(old(self)@, old(stack)@).1,
            r is Ok <==> eager_end(old(self)@, old(stack)@).2,
            r is Ok ==> final(stack)@.len() == 0 || final(stack)@.len() > EAGER_LIMIT,
            old(self)@.refined_by(final(self)@),
            final(self).n_solved_cells >= old(self).n_solved_cells,
            final(self).last_cell == old(self).last_cell,
            r is Ok ==> final(self).wf() && inserted(
                old(self)@,
                old(stack)@,
                final(self)@,
                final(stack)@,
            ),
            r is Err ==> admits_none(old(self)@, old(stack)@),
    {
        let ghost s0 = self@;
        let ghost k0 = stack@;
        let ghost mut fresh = s0.fresh_for(k0);
        let ghost mut steps = eager_steps(s0, k0);
        proof {
            lemma_drain_start(s0, k0);
        }
        loop
            invariant
                self.counted(),
                self.last_cell == old(self).last_cell,
                self.n_solved_cells >= old(self).n_solved_cells,
                s0 == old(self)@,
                k0 == old(stack)@,
                draining(s0, k0, self@, stack@, fresh),
                steps >= eager_steps(self@, stack@),
                eager_end(s0, k0) == eager_from(self@, stack@, steps),
            decreases self@.candidates(), stack.len(),
        {
            let ghost cur = self@;
            let ghost before = stack@;
            let entry = match stack.pop() {
                Some(entry) => entry,
                None => {
                    proof {
                        lemma_drain_end(s0, k0, cur, before, fresh);
                    }
                    return Ok(());
                },
            };
            let ghost rest = stack@;
            proof {
                assert(rest =~= before.drop_last());
                assert(entry == before.last());
                lemma_pop_keeps(cur, before);
                lemma_open_has_candidate(cur, entry.cell as int);
            }
            let entry_mask = entry.mask();
            // cell already solved from a previous entry, skip
            if self.cell_poss_digits[entry.cell()].is_empty() {
                proof {
                    lemma_drain_skip(s0, k0, cur, before, fresh);
                    fresh = false;
                    steps = (steps - 1) as nat;
                }
                continue ;
            }
            proof {
                lemma_single_meets(entry.num as int, cur.masks[entry.cell as int]);
            }
            // is the entry still possible?
            if entry_mask.intersect(self.cell_poss_digits[entry.cell()]).is_empty() {
                proof {
                    lemma_drain_fail(s0, k0, cur, before, fresh);
                }
                return Err(Unsolvable);
            }
            proof {
                lemma_drain_place(s0, k0, cur, before, fresh);
                lemma_place_candidate(cur, entry.cell as int, entry.num);
            }
            self._insert_entry(entry);
            let ghost base = self@;
            let ghost pending = fresh && rest.len() >= 1;
            let ns = neighbours(entry.cell);
            let mut j: usize = 0;
            while j < 20
                invariant
                    j <= 20,
                    forall|i: int| 0 <= i < 20 ==> #[trigger] ns[i] as int == neighbour(
                        entry.cell as int,
                        i,
                    ),
                    entry_mask@ == set![entry.num as int],
                    self.counted(),
                    self.last_cell == old(self).last_cell,
                    self.n_solved_cells >= old(self).n_solved_cells,
                    s0 == old(self)@,
                    k0 == old(stack)@,
                    placed(s0, k0, base, rest, pending),
                    spreading(base, rest, entry, j as int, self@, stack@, pending),
                    base.candidates() < cur.candidates(),
                    spread_from(base, rest, entry, 0) == spread_from(self@, stack@, entry, j as int),
                    eager_end(s0, k0) == eager_from(cur, before, steps),
                    steps >= eager_steps(cur, before),
                    before.len() > 0,
                    entry == before.last(),
                    rest == before.drop_last(),
                    cur.grid[entry.cell as int] == 0,
                    cur.masks[entry.cell as int].contains(entry.num as int),
                    base == cur.place(entry.cell as int, entry.num),
                decreases 20 - j,
            {
                let cell = ns[j];
                let ghost mid = self@;
                let ghost mid_stack = stack@;
                proof {
                    lemma_neighbour(entry.cell as int, j as int);
                    lemma_single_meets(entry.num as int, mid.masks[cell as int]);
                }
                if !entry_mask.intersect(self.cell_poss_digits[cell as usize]).is_empty() {
                    let res = self.remove_impossibilities(cell, entry_mask, stack);
                    proof {
                        let left = self@.masks[cell as int];
                        assert(left =~= mid.masks[cell as int].remove(entry.num as int));
                        assert(mid.masks[cell as int].subset_of(all_digits()));
                        lemma_digit_set_finite(left);
                        lemma_spread_step(entry, j as int, mid, mid_stack, self@, stack@);
                        if res is Err {
                            assert(left =~= Set::<int>::empty());
                            lemma_drain_spread_fail(
                                s0,
                                k0,
                                base,
                                rest,
                                entry,
                                j as int,
                                mid,
                                mid_stack,
                                pending,
                            );
                            lemma_prune_refines(mid, cell as int, entry_mask@);
                            lemma_refined_trans(base, mid, self@);
                            lemma_refined_trans(s0, base, self@);
                        } else {
                            lemma_spread_prune(
                                base,
                                rest,
                                entry,
                                j as int,
                                mid,
                                mid_stack,
                                pending,
                                self@,
                                stack@,
                            );
                        }
                    }
                    match res {
                        Err(e) => {
                            return Err(e);
                        },
                        Ok(()) => {},
                    }
                } else {
                    proof {
                        lemma_spread_skip(base, rest, entry, j as int, mid, mid_stack, pending);
                        lemma_spread_step(entry, j as int, mid, mid_stack, self@, stack@);
                    }
                }
                j += 1;
            }
            proof {
                lemma_drain_spread(s0, k0, base, rest, entry, self@, stack@, pending);
                lemma_refined_candidates(base, self@);
                fresh = pending;
            }
            // found a lot of naked singles, switch to batch insertion
            if stack.len() > EAGER_LIMIT {
                proof {
                    lemma_drain_end(s0, k0, self@, stack@, fresh);
                }
                return Ok(());
            }
            proof {
                lemma_eager_steps(cur, before, self@, stack@);
                steps = (steps - 1) as nat;
            }
        }
    }

    /// Places all pending entries first, checking each against the digits
    /// already placed in its row, column and box, and then takes from every
    /// open cell the digits placed in its zones. A cell left with one
    /// candidate becomes a pending entry; one left with none is a
    /// contradiction.
    pub(crate) fn batch_insert_entries(&mut self, stack: &mut Vec<Entry>) -> (r: Result<(), Unsolvable>)
        requires
            old(self).wf(),
            old(self)@.stack_ok(old(stack)@),
        ensures
            r is Ok <==> batch_ok(old(self)@, old(stack)@),
            final(self)@ == batch_board(old(self)@, old(stack)@),
            final(stack)@ == batch_pending(old(self)@, old(stack)@),
            old(self)@.refined_by(final(self)@),
            final(self).n_solved_cells >= old(self).n_solved_cells,
            final(self).last_cell == old(self).last_cell,
            r is Ok ==> final(self).wf() && inserted(
                old(self)@,
                old(stack)@,
                final(self)@,
                final(stack)@,
            ) && only_entries(old(self)@.grid, old(stack)@, final(self)@.grid),
            r is Err ==> admits_none(old(self)@, old(stack)@) && final(self).n_solved_cells < 81,
    {
        let ghost s0 = self@;
        let ghost k0 = stack@;
        let ghost mut any = false;
        proof {
            lemma_batch_start(s0, k0);
        }
        let n = stack.len();
        let mut i: usize = 0;
        while i < n
            invariant
                n == k0.len(),
                stack@ == k0,
                s0 == old(self)@,
                k0 == old(stack)@,
                self.counted(),
                self.last_cell == old(self).last_cell,
                self.n_solved_cells >= old(self).n_solved_cells,
                batching(s0, k0, i as int, self@, any),
                batch_from(s0, k0, 0) == batch_from(self@, k0, i as int),
            decreases n - i,
        {
            let entry = stack[i];
            let ghost cur = self@;
            proof {
                assert(entry.wf());
                lemma_zones_of_cell(entry.cell as int);
                lemma_open_has_candidate(cur, entry.cell as int);
            }
            // a cell already solved by a previous entry is skipped
            if !self.cell_poss_digits[entry.cell()].is_empty() {
                let entry_mask = entry.mask();
                proof {
                    lemma_zone_meets(cur, entry.cell as int, entry.num as int);
                }
                // is the entry still possible? the zones decide, because the
                // candidates of the cell may be out of date
                if !self.zone_solved_digits[row_zone(entry.cell)].intersect(entry_mask).is_empty()
                    || !self.zone_solved_digits[col_zone(entry.cell)].intersect(
                    entry_mask,
                ).is_empty() || !self.zone_solved_digits[field_zone(entry.cell)].intersect(
                    entry_mask,
                ).is_empty() {
                    proof {
                        lemma_batch_fail(s0, k0, i as int, cur, any);
                        lemma_open_count(cur.grid, entry.cell as int);
                    }
                    stack.clear();
                    return Err(Unsolvable);
                }
                proof {
                    lemma_batch_place(s0, k0, i as int, cur, any);
                    any = true;
                }
                self._insert_entry(entry);
            } else {
                proof {
                    lemma_batch_skip(s0, k0, i as int, cur, any);
                }
            }
            i += 1;
        }
        stack.clear();
        let ghost s1 = self@;
        proof {
            lemma_recount_start(s0, k0, s1, any);
            assert(recounted(s1, 0).masks =~= s1.masks);
        }
        // update cell possibilities from zone masks
        let mut cell: u8 = 0;
        while cell < 81
            invariant
                cell <= 81,
                s0 == old(self)@,
                k0 == old(stack)@,
                self.counted(),
                self.last_cell == old(self).last_cell,
                self.n_solved_cells >= old(self).n_solved_cells,
                recounting(s0, k0, s1, any, cell as int, self@, stack@),
                batch_from(s0, k0, 0) == (s1, true),
                self@ == recounted(s1, cell as int),
                stack@ == naked_singles(recounted(s1, 81), cell as int),
                forall|x: int|
                    0 <= x < cell ==> #[trigger] s1.grid[x] != 0 || kept(s1, x) != Set::<int>::empty(),
            decreases 81 - cell,
        {
            let ghost mid = self@;
            let ghost mid_stack = stack@;
            proof {
                lemma_open_has_candidate(mid, cell as int);
            }
            if !self.cell_poss_digits[cell as usize].is_empty() {
                let zones_mask = self.zone_solved_digits[row_zone(cell)].union(
                    self.zone_solved_digits[col_zone(cell)],
                ).union(self.zone_solved_digits[field_zone(cell)]);
                proof {
                    lemma_zones_of_cell(cell as int);
                    assert(zones_mask@ == zone_union(mid, cell as int));
                }
                let res = self.remove_impossibilities(cell, zones_mask, stack);
                proof {
                    let left = self@.masks[cell as int];
                    assert(mid.masks[cell as int].subset_of(all_digits()));
                    lemma_digit_set_finite(left);
                    assert(left == kept(s1, cell as int));
                    if res is Err {
                        assert(left =~= Set::<int>::empty());
                        lemma_recount_fail(s0, k0, s1, any, cell as int, mid, mid_stack);
                        lemma_open_count(self@.grid, cell as int);
                        lemma_first_starved(s1, 0, cell as int);
                        lemma_prune_refines(mid, cell as int, zones_mask@);
                        lemma_refined_trans(s1, mid, self@);
                        lemma_refined_trans(s0, s1, self@);
                    } else {
                        assert(left != Set::<int>::empty());
                        lemma_recount_prune(
                            s0,
                            k0,
                            s1,
                            any,
                            cell as int,
                            mid,
                            mid_stack,
                            self@,
                            stack@,
                        );
                    }
                    lemma_recounted_step(s1, cell as int, mid, mid_stack, self@, stack@);
                }
                match res {
                    Err(e) => {
                        return Err(e);
                    },
                    Ok(()) => {},
                }
            } else {
                proof {
                    lemma_recount_skip(s0, k0, s1, any, cell as int, mid, mid_stack);
                    lemma_recounted_step(s1, cell as int, mid, mid_stack, self@, stack@);
                }
            }
            cell += 1;
        }
        proof {
            lemma_recount_end(s0, k0, s1, any, self@, stack@);
            lemma_first_starved(s1, 0, 81);
            assert(recounted(s1, 82).masks =~= recounted(s1, 81).masks);
        }
        Ok(())
    }

    /// Works off the pending entries until none is left: one by one while
    /// they are few, in a batch when they are many.
    pub(crate) fn insert_entries(&mut self, stack: &mut Vec<Entry>) -> (r: Result<(), Unsolvable>)
        requires
            old(self).wf(),
            old(self)@.stack_ok(old(stack)@),
        ensures
            final(self)@ == insert_end(old(self)@, old(stack)@).0,
            final(stack)@ == insert_end(old(self)@, old(stack)@).1,
            r is Ok <==> insert_end(old(self)@, old(stack)@).2,
            old(self)@.refined_by(final(self)@),
            final(self).n_solved_cells >= old(self).n_solved_cells,
            final(self).last_cell == old(self).last_cell,
            r is Ok ==> final(self).wf() && final(stack)@.len() == 0 && settled(
                old(self)@,
                old(stack)@,
                final(self)@,
            ),
            r is Err ==> admits_none(old(self)@, old(stack)@),
    {
        let ghost s0 = self@;
        let ghost k0 = stack@;
        let ghost mut rounds = insert_rounds(s0, k0);
        proof {
            assert forall|c: int| 0 <= c < 81 implies #[trigger] s0.refined_at(s0, c) by {}
        }
        loop
            invariant
                s0 == old(self)@,
                k0 == old(stack)@,
                s0.wf(),
                entries_wf(k0),
                self.wf(),
                self.last_cell == old(self).last_cell,
                self.n_solved_cells >= old(self).n_solved_cells,
                self@.stack_ok(stack@),
                s0.refined_by(self@),
                same_admits(self@, stack@, s0, k0),
                self@.candidates() <= s0.candidates(),
                (self@ == s0 && stack@ == k0) || (self@.forces(stack@) && (s0.fresh_for(k0)
                    ==> holds_all(self@.grid, k0)) && (s0.has_live(k0) ==> self@.candidates()
                    < s0.candidates())),
                stack@.len() > 0 ==> rounds >= insert_rounds(self@, stack@),
                insert_end(s0, k0) == insert_from(self@, stack@, rounds),
            decreases self@.candidates(), idle(self@, stack@), stack.len(),
        {
            let ghost cur = self@;
            let ghost before = stack@;
            let n = stack.len();
            if n == 0 {
                proof {
                    if self@ == s0 && stack@ == k0 {
                        assert(!s0.has_live(k0));
                        assert(holds_all(self@.grid, k0));
                    }
                }
                return Ok(());
            }
            let res = if n <= EAGER_LIMIT {
                self.insert_entries_singly(stack)
            } else {
                self.batch_insert_entries(stack)
            };
            proof {
                assert(round_of(cur, before) == (self@, stack@, res is Ok));
                lemma_refined_trans(s0, cur, self@);
            }
            match res {
                Err(e) => {
                    proof {
                        assert forall|g: Seq<u8>| !#[trigger] s0.admits(k0, g) by {
                            assert(!cur.admits(before, g));
                        }
                    }
                    return Err(e);
                },
                Ok(()) => {},
            }
            proof {
                lemma_inserted_trans(s0, k0, cur, before, self@, stack@);
                if cur == s0 && before == k0 {
                    if s0.has_live(k0) {
                        assert(self@.candidates() < s0.candidates());
                    }
                }
                if !(self@.candidates() < cur.candidates()) {
                    if stack@.len() > 0 {
                        lemma_all_live_has_live(self@, stack@);
                    }
                }
                rounds = (rounds - 1) as nat;
            }
        }
    }

    /// Looks, zone by zone, for digits that only one cell of the zone can
    /// still take, and pushes them as entries. Only the first zone that has
    /// such digits is resolved. Fails if a zone has no place left for some
    /// digit, or if one cell would have to take two digits.
    pub(crate) fn find_hidden_singles(&mut self, stack: &mut Vec<Entry>) -> (r: Result<
        (),
        Unsolvable,
    >)
        requires
            old(self).wf(),
        ensures
            *final(self) == *old(self),
            r is Err <==> hidden_conflict(old(self)@),
            hidden_found(old(self)@, old(stack)@, final(stack)@),
            singles_pushed(old(self)@, old(stack)@, final(stack)@),
            r is Err ==> forall|g: Seq<u8>| !#[trigger] old(self)@.consistent(g),
    {
        let ghost b = self@;
        let ghost k0 = stack@;
        let mut zone: u8 = 0;
        while zone < 27
            invariant
                zone <= 27,
                *self == *old(self),
                b == self@,
                k0 == old(stack)@,
                self.wf(),
                stack@ == k0,
                quiet(b, zone as int),
            decreases 27 - zone,
        {
            let mut unsolved = Mask::none();
            let mut multiple_unsolved = Mask::none();
            let cells = cells_of_zone(zone);
            let mut k: usize = 0;
            while k < 9
                invariant
                    k <= 9,
                    zone < 27,
                    b == self@,
                    forall|j: int| 0 <= j < 9 ==> #[trigger] cells[j] as int == zone_cell(
                        zone as int,
                        j,
                    ),
                    scanned(b, zone as int, k as int, unsolved@, multiple_unsolved@),
                decreases 9 - k,
            {
                proof {
                    lemma_zone_cell(zone as int, k as int);
                    lemma_scan_step(b, zone as int, k as int, unsolved@, multiple_unsolved@);
                }
                let poss_digits = self.cell_poss_digits[cells[k] as usize];
                multiple_unsolved = multiple_unsolved.union(unsolved.intersect(poss_digits));
                unsolved = unsolved.union(poss_digits);
                k += 1;
            }
            proof {
                unsolved.lemma_view();
                lemma_zone_scanned(b, zone as int, unsolved@, multiple_unsolved@);
            }
            if !unsolved.union(self.zone_solved_digits[zone as usize]).is_full() {
                proof {
                    lemma_uncovered(b, zone as int, k0);
                }
                return Err(Unsolvable);
            }
            let mut singles = unsolved.without(multiple_unsolved);
            if singles.is_empty() {
                zone += 1;
                continue ;
            }
            let ghost all = singles@;
            proof {
                lemma_resolve_start(b, zone as int, all, k0);
            }
            let mut k: usize = 0;
            while k < 9
                invariant
                    k <= 9,
                    zone < 27,
                    *self == *old(self),
                    b == self@,
                    k0 == old(stack)@,
                    forall|j: int| 0 <= j < 9 ==> #[trigger] cells[j] as int == zone_cell(
                        zone as int,
                        j,
                    ),
                    resolving(b, zone as int, k as int, all, singles@, k0, stack@),
                decreases 9 - k,
            {
                let cell = cells[k];
                proof {
                    lemma_zone_cell(zone as int, k as int);
                }
                let mask = self.cell_poss_digits[cell as usize];
                let found = mask.intersect(singles);
                let ghost left = singles@;
                let ghost pending = stack@;
                proof {
                    found.lemma_view();
                }
                match found.unique_num() {
                    Err(_) => {
                        proof {
                            assert(found@ =~= Set::<int>::empty());
                            lemma_resolve_none(b, zone as int, k as int, all, left, k0, pending);
                        }
                    },
                    Ok(None) => {
                        proof {
                            lemma_resolve_two(b, zone as int, k as int, all, left, k0, pending);
                        }
                        return Err(Unsolvable);
                    },
                    Ok(Some(num)) => {
                        let entry = Entry { cell: cell, num: num };
                        stack.push(entry);
                        // mark num as found
                        singles.remove(Mask::from_num(num));
                        proof {
                            lemma_resolve_push(
                                b,
                                zone as int,
                                k as int,
                                all,
                                left,
                                k0,
                                pending,
                                entry,
                            );
                        }
                        // everything in this zone found
                        // return to insert numbers immediately
                        if singles.is_empty() {
                            return Ok(());
                        }
                    },
                }
                k += 1;
            }
            proof {
                // cannot occur: the cell of every hidden single has been reached
                lemma_resolve_end(b, zone as int, k as int, all, singles@, k0, stack@);
            }
            return Ok(());
        }
        proof {
            lemma_quiet(b, k0);
        }
        Ok(())
    }

    /// Whether every cell holds a digit.
    pub fn is_solved(&self) -> (r: bool)
        ensures
            r == (self.n_solved_cells == 81),
            self.wf_stale() ==> r == self@.complete(),
    {
        proof {
            lemma_filled_bounds(self.grid@, 81);
        }
        self.n_solved_cells == 81
    }

    /// Chooses the cell to guess in: an open cell with few candidates. The
    /// scan starts after the cell where the last scan ended and ends early at
    /// a cell with two candidates; where it ends is remembered.
    fn find_cell_min_poss(&mut self) -> (best_cell: u8)
        requires
            old(self).wf(),
            !old(self)@.complete(),
        ensures
            final(self)@ == old(self)@,
            final(self).grid == old(self).grid,
            final(self).n_solved_cells == old(self).n_solved_cells,
            final(self).cell_poss_digits == old(self).cell_poss_digits,
            final(self).zone_solved_digits == old(self).zone_solved_digits,
            final(self).wf(),
            old(self)@.guess_scan(
                old(self).last_cell as int,
                best_cell as int,
                final(self).last_cell as int,
            ),
            old(self)@.grid[best_cell as int] == 0,
    {
        let mut min_possibilities: u8 = 10;
        let mut best_cell: u8 = 100;
        let ghost b = self@;
        let ghost last = self.last_cell as int;
        let mut cell: u8 = (self.last_cell + 1) % 81;
        let ghost mut seen: int = 0;
        proof {
            lemma_scan_pos(last, cell as int, cell as int);
            lemma_guess_start(b, last);
        }
        loop
            invariant_except_break
                scanning(b, last, seen, min_possibilities as int, best_cell as int),
            invariant
                *self == *old(self),
                b == self@,
                last == self.last_cell,
                self.wf(),
                !b.complete(),
                cell < 81,
                scan_pos(last, cell as int) == seen,
            ensures
                cell < 81,
                best_cell < 81,
                b.guess_scan(last, best_cell as int, cell as int),
            decreases 81 - seen,
        {
            let cell_mask = self.cell_poss_digits[cell as usize];
            let n_possibilities = cell_mask.n_possibilities();
            proof {
                lemma_guess_next(
                    b,
                    last,
                    seen,
                    min_possibilities as int,
                    best_cell as int,
                    cell as int,
                );
                lemma_scan_pos(last, cell as int, cell as int);
            }
            // 0 means the cell is filled; 1 would have been placed already
            if n_possibilities > 0 && n_possibilities < min_possibilities {
                best_cell = cell;
                min_possibilities = n_possibilities;
                if n_possibilities == 2 {
                    break ;
                }
            }
            if cell == self.last_cell {
                proof {
                    lemma_guess_end(b, last, min_possibilities as int, best_cell as int);
                }
                break ;
            }
            cell = if cell == 80 {
                0
            } else {
                cell + 1
            };
            proof {
                seen = seen + 1;
            }
        }
        self.last_cell = cell;
        proof {
            lemma_open_has_candidate(b, best_cell as int);
            assert(self@.masks =~= b.masks);
            assert(self@.zones =~= b.zones);
        }
        best_cell
    }

    /// Chooses the cell to guess in and, of its candidates, the lowest.
    fn find_good_guess(&mut self) -> (entry: Entry)
        requires
            old(self).wf(),
            !old(self)@.complete(),
        ensures
            final(self)@ == old(self)@,
            final(self).n_solved_cells == old(self).n_solved_cells,
            final(self).wf(),
            old(self)@.guess_scan(
                old(self).last_cell as int,
                entry.cell as int,
                final(self).last_cell as int,
            ),
            entry.wf(),
            old(self)@.grid[entry.cell as int] == 0,
            old(self)@.masks[entry.cell as int].contains(entry.num as int),
            forall|d: int| old(self)@.masks[entry.cell as int].contains(d) ==> entry.num <= d,
    {
        let best_cell = self.find_cell_min_poss();
        let num = self.cell_poss_digits[best_cell as usize].one_possibility();
        Entry { num: num, cell: best_cell }
    }

    /// Chooses the cell to guess in and one of its candidates at random.
    fn find_good_random_guess(&mut self) -> (entry: Entry)
        requires
            old(self).wf(),
            !old(self)@.complete(),
        ensures
            final(self)@ == old(self)@,
            final(self).n_solved_cells == old(self).n_solved_cells,
            final(self).wf(),
            old(self)@.guess_scan(
                old(self).last_cell as int,
                entry.cell as int,
                final(self).last_cell as int,
            ),
            entry.wf(),
            old(self)@.grid[entry.cell as int] == 0,
            old(self)@.masks[entry.cell as int].contains(entry.num as int),
    {
        let best_cell = self.find_cell_min_poss();
        let poss_digits = self.cell_poss_digits[best_cell as usize];
        let choice = random_below(poss_digits.n_possibilities());
        let num = poss_digits.nth_possibility(choice);
        Entry { num: num, cell: best_cell }
    }

    /// Finds up to `limit` solutions that hold every entry of the stack.
    /// The state is one that `new` gave, and no cell has two entries.
    pub fn solve_at_most(self, stack: Vec<Entry>, limit: usize) -> (solutions: Vec<Sudoku>)
        requires
            self.wf(),
            self@ == Board::fresh(),
            entries_wf(stack@),
            distinct_cells(stack@),
        ensures
            entries_solved(stack@, solutions@, limit as int),
            grids(solutions@) == search_list(self.last_cell as int, stack@, limit as int),
    {
        let ghost k = stack@;
        let mut stack = stack;
        let mut solutions: Vec<Sudoku> = Vec::new();
        if limit == 0 {
            proof {
                assert(grids(solutions@) =~= Seq::<Seq<u8>>::empty());
            }
            return solutions;
        }
        proof {
            lemma_fresh_stack(k);
            assert(grids(solutions@) =~= Seq::<Seq<u8>>::empty());
        }
        let _ = self._solve_at_most(
            limit,
            &mut stack,
            &mut solutions,
            Ghost(search_depth(self@, k)),
        );
        proof {
            lemma_fresh_found(k, solutions@, limit as int);
        }
        solutions
    }

    /// Inserts and deduces in a loop; when no deduction is left, guesses a
    /// digit, searches that branch on a copy of the state, and then goes on
    /// without the guessed digit. `depth` is a bound on how deep the search
    /// can go.
    fn _solve_at_most(
        self,
        limit: usize,
        stack: &mut Vec<Entry>,
        solutions: &mut Vec<Sudoku>,
        Ghost(depth): Ghost<nat>,
    ) -> (r: Result<(), Unsolvable>)
        requires
            self.wf(),
            self@.stack_ok(old(stack)@),
            old(solutions).len() < limit,
            depth >= search_depth(self@, old(stack)@),
        ensures
            found(self@, old(stack)@, old(solutions)@, final(solutions)@, limit as int),
            grids(final(solutions)@) == search_from(
                self@,
                self.last_cell as int,
                old(stack)@,
                limit as int,
                grids(old(solutions)@),
                depth,
            ),
            r is Err ==> final(solutions).len() < limit,
            r is Ok ==> old(solutions).len() < final(solutions).len(),
        decreases self@.candidates(), idle(self@, old(stack)@),
    {
        let ghost b0 = self@;
        let ghost k0 = stack@;
        let ghost sols0 = solutions@;
        let ghost n0 = solutions@.len() as int;
        let ghost whole = search_from(
            b0,
            self.last_cell as int,
            k0,
            limit as int,
            grids(sols0),
            depth,
        );
        let ghost mut left = depth;
        let mut state = self;
        proof {
            assert(solutions@.take(n0) =~= sols0);
        }
        loop
            invariant
                b0 == self@,
                k0 == old(stack)@,
                sols0 == old(solutions)@,
                n0 == sols0.len(),
                b0.shape(),
                state.wf(),
                state@.stack_ok(stack@),
                n0 <= solutions.len() < limit,
                solutions@.take(n0) == sols0,
                searching(b0, k0, n0, state@, stack@, solutions@),
                state@.candidates() < b0.candidates() || (state@.candidates() == b0.candidates()
                    && idle(state@, stack@) <= idle(b0, k0)),
                left >= search_depth(state@, stack@),
                whole == search_from(
                    self@,
                    self.last_cell as int,
                    old(stack)@,
                    limit as int,
                    grids(old(solutions)@),
                    depth,
                ),
                whole == search_from(
                    state@,
                    state.last_cell as int,
                    stack@,
                    limit as int,
                    grids(solutions@),
                    left,
                ),
            decreases state@.candidates(), idle(state@, stack@),
        {
            let ghost head = state@;
            let ghost head_stack = stack@;
            match state.insert_entries(stack) {
                Err(e) => {
                    proof {
                        lemma_search_exhausted(b0, k0, n0, head, head_stack, solutions@);
                    }
                    return Err(e);
                },
                Ok(()) => {},
            }
            proof {
                assert(stack@ =~= Seq::<Entry>::empty());
                lemma_search_settled(b0, k0, n0, head, head_stack, solutions@, state@);
            }
            if state.is_solved() {
                proof {
                    lemma_search_solved(b0, k0, n0, state@, solutions@, state.grid);
                    lemma_grids_push(solutions@, state.grid);
                }
                solutions.push(state.grid);
                return Ok(());
            }
            let ghost settled_stack = stack@;
            match state.find_hidden_singles(stack) {
                Err(e) => {
                    proof {
                        assert(admits_none(state@, settled_stack));
                        lemma_search_exhausted(b0, k0, n0, state@, settled_stack, solutions@);
                    }
                    return Err(e);
                },
                Ok(()) => {},
            }
            proof {
                lemma_hidden_pushed(state@, settled_stack, stack@);
                assert(stack@ =~= hidden_pushed(state@));
            }
            if !stack.is_empty() {
                proof {
                    lemma_singles_forced(state@, stack@);
                    lemma_search_forced(b0, k0, n0, state@, stack@, solutions@);
                    lemma_all_live_has_live(state@, stack@);
                    lemma_search_depth(head, head_stack, state@, stack@);
                    left = (left - 1) as nat;
                }
                continue ;
            }
            let ghost cur = state@;
            let ghost scan_from = state.last_cell as int;
            let entry = state.find_good_guess();
            stack.push(entry);
            proof {
                assert(stack@ =~= seq![entry]);
                lemma_guess_ok(cur, entry);
                lemma_guess_unique(cur, scan_from, entry.cell as int, state.last_cell as int);
                lemma_lowest(cur.masks[entry.cell as int], entry.num as int);
                lemma_search_depth(head, head_stack, cur, seq![entry]);
            }
            let ghost sols1 = solutions@;
            let _ = state.clone()._solve_at_most(limit, stack, solutions, Ghost((left - 1) as nat));
            stack.clear();
            proof {
                lemma_search_branch(b0, k0, n0, cur, sols1, entry, solutions@, limit as int);
                assert(solutions@.take(n0) =~= sols0) by {
                    assert(sols1.take(n0) == sols0);
                }
                lemma_grids_push(solutions@, state.grid);
            }
            if solutions.len() == limit {
                return Ok(());
            }
            let ghost cleared = stack@;
            match state.remove_impossibilities(entry.cell, entry.mask(), stack) {
                Err(e) => {
                    proof {
                        assert(cleared =~= Seq::<Entry>::empty());
                        lemma_retract_fail(cur, entry, state@);
                        lemma_search_exhausted(b0, k0, n0, state@, cleared, solutions@);
                    }
                    return Err(e);
                },
                Ok(()) => {},
            }
            proof {
                assert(cleared =~= Seq::<Entry>::empty());
                lemma_retracted(cur, entry, state@, stack@);
                lemma_search_forced(b0, k0, n0, state@, stack@, solutions@);
                lemma_single_entry(stack@, entry.cell, state@.masks[entry.cell as int]);
                lemma_search_depth(head, head_stack, state@, stack@);
                left = (left - 1) as nat;
            }
        }
    }

    /// As the counting search, but guesses among the candidates at random
    /// and stops at the first solution.
    pub(crate) fn _randomized_solve_one(self, stack: &mut Vec<Entry>) -> (r: Result<
        Sudoku,
        Unsolvable,
    >)
        requires
            self.wf(),
            self@.stack_ok(old(stack)@),
        ensures
            r matches Ok(grid) ==> self@.admits(old(stack)@, grid@),
            r is Err ==> admits_none(self@, old(stack)@),
        decreases self@.candidates(), idle(self@, old(stack)@),
    {
        let ghost b0 = self@;
        let ghost k0 = stack@;
        let ghost none = Seq::<Sudoku>::empty();
        let mut state = self;
        loop
            invariant
                b0 == self@,
                k0 == old(stack)@,
                none == Seq::<Sudoku>::empty(),
                b0.shape(),
                state.wf(),
                state@.stack_ok(stack@),
                searching(b0, k0, 0, state@, stack@, none),
                state@.candidates() < b0.candidates() || (state@.candidates() == b0.candidates()
                    && idle(state@, stack@) <= idle(b0, k0)),
            decreases state@.candidates(), idle(state@, stack@),
        {
            let ghost head = state@;
            let ghost head_stack = stack@;
            match state.insert_entries(stack) {
                Err(e) => {
                    proof {
                        lemma_search_exhausted(b0, k0, 0, head, head_stack, none);
                        assert forall|g: Seq<u8>| !#[trigger] b0.admits(k0, g) by {}
                    }
                    return Err(e);
                },
                Ok(()) => {},
            }
            proof {
                assert(stack@ =~= Seq::<Entry>::empty());
                lemma_search_settled(b0, k0, 0, head, head_stack, none, state@);
            }
            if state.is_solved() {
                proof {
                    lemma_complete_unique(state@);
                    assert(state@.admits(stack@, state.grid@));
                }
                return Ok(state.grid);
            }
            let ghost settled_stack = stack@;
            match state.find_hidden_singles(stack) {
                Err(e) => {
                    proof {
                        assert(admits_none(state@, settled_stack));
                        lemma_search_exhausted(b0, k0, 0, state@, settled_stack, none);
                        assert forall|g: Seq<u8>| !#[trigger] b0.admits(k0, g) by {}
                    }
                    return Err(e);
                },
                Ok(()) => {},
            }
            if !stack.is_empty() {
                proof {
                    lemma_singles_forced(state@, stack@);
                    lemma_search_forced(b0, k0, 0, state@, stack@, none);
                    lemma_all_live_has_live(state@, stack@);
                }
                continue ;
            }
            let ghost cur = state@;
            let entry = state.find_good_random_guess();
            stack.push(entry);
            proof {
                assert(stack@ =~= seq![entry]);
                lemma_guess_ok(cur, entry);
            }
            match state.clone()._randomized_solve_one(stack) {
                Ok(grid) => {
                    proof {
                        assert(cur.admits(seq![entry], grid@));
                        assert(cur.admits(Seq::<Entry>::empty(), grid@));
                    }
                    return Ok(grid);
                },
                Err(_) => {},
            }
            stack.clear();
            proof {
                assert(found(cur, seq![entry], none, none, 1)) by {
                    assert(none.take(0) =~= none);
                    assert forall|g: Seq<u8>| #[trigger] cur.admits(seq![entry], g) implies false by {}
                }
                lemma_search_branch(b0, k0, 0, cur, none, entry, none, 1);
            }
            let ghost cleared = stack@;
            match state.remove_impossibilities(entry.cell, entry.mask(), stack) {
                Err(e) => {
                    proof {
                        assert(cleared =~= Seq::<Entry>::empty());
                        lemma_retract_fail(cur, entry, state@);
                        lemma_search_exhausted(b0, k0, 0, state@, cleared, none);
                        assert forall|g: Seq<u8>| !#[trigger] b0.admits(k0, g) by {}
                    }
                    return Err(e);
                },
                Ok(()) => {},
            }
            proof {
                assert(cleared =~= Seq::<Entry>::empty());
                lemma_retracted(cur, entry, state@, stack@);
                lemma_search_forced(b0, k0, 0, state@, stack@, none);
            }
        }
    }

    /// The clues of a grid as entries, in cell order.
    pub(crate) fn stack_from_sudoku(sudoku: Sudoku) -> (stack: Vec<Entry>)
        ensures
            stack@ == clue_entries(sudoku@, 81),
    {
        let mut stack: Vec<Entry> = Vec::with_capacity(81);
        let mut cell: u8 = 0;
        while cell < 81
            invariant
                cell <= 81,
                stack@ == clue_entries(sudoku@, cell as int),
            decreases 81 - cell,
        {
            let num = sudoku.0[cell as usize];
            if num != 0 {
                stack.push(Entry { cell: cell, num: num });
            }
            cell += 1;
        }
        stack
    }
}

} // verus!
