//! Batch insertion: the facts about placing many entries at once and
//! bringing the candidates up to date afterwards.

use vstd::prelude::*;
use crate::board::{
    admits_none, agrees, all_live, batching, entries_wf, first_starved, holds_all, inserted, kept,
    naked_singles, only_entries, placed, recounted, recounting, same_admits, single_pushed,
    zone_union, Board,
};
use crate::deduce::{
    lemma_place_consistent, lemma_place_wf, lemma_prune_wf, lemma_prune_zones,
    lemma_refined_candidates, lemma_refined_consistent, lemma_refined_holds, lemma_refined_trans,
    lemma_single_pushed_keeps, lemma_zone_conflict,
};
use crate::mask::{all_digits, lemma_digit_set_finite};
use crate::topology::{col_zone_of, field_zone_of, lemma_zones_of_cell, row_zone_of, sees};
use crate::types::Entry;

verus! {

/// After an open cell was pruned and a single candidate pushed, the
/// pending entries are still forced, in order and for open cells.
pub proof fn lemma_batch_pushed(
    cur: Board,
    stack: Seq<Entry>,
    cell: int,
    gone: Set<int>,
    next: Board,
    next_stack: Seq<Entry>,
)
    requires
        cur.wf(),
        next.wf(),
        0 <= cell < 81,
        cur.grid[cell] == 0,
        next == cur.prune(cell, gone),
        gone == zone_union(cur, cell),
        entries_wf(stack),
        cur.forces(stack),
        cur.live_or_blocked(stack),
        all_live(cur, stack),
        single_pushed(stack, next_stack, cell as u8, next.masks[cell]),
        forall|g: Seq<u8>| #![trigger next.consistent(g)] next.consistent(g) <==> cur.consistent(g),
    ensures
        entries_wf(next_stack),
        next.forces(next_stack),
        next.live_or_blocked(next_stack),
        all_live(next, next_stack),
{
    let left = next.masks[cell];
    lemma_single_pushed_keeps(stack, next_stack, cell as u8, left);
    assert forall|i: int| 0 <= i < next_stack.len() implies (#[trigger] next_stack[i]).wf() by {
        if i < stack.len() {
            assert(next_stack[i] == stack[i]);
        }
    }
    assert forall|i: int| 0 <= i < next_stack.len() implies next.grid[(
    #[trigger] next_stack[i]).cell as int] == 0 by {
        if i < stack.len() {
            assert(next_stack[i] == stack[i]);
        }
    }
    assert forall|g: Seq<u8>| #[trigger] next.consistent(g) implies agrees(g, next_stack) by {
        assert(cur.consistent(g));
        assert(agrees(g, stack));
        assert(next.allows(cell, g[cell]));
        assert forall|i: int| 0 <= i < next_stack.len() implies g[(
        #[trigger] next_stack[i]).cell as int] == next_stack[i].num by {
            if i < stack.len() {
                assert(next_stack[i] == stack[i]);
            } else {
                assert(left.contains(next_stack[i].num as int));
                assert(left.contains(g[cell] as int));
            }
        }
    }
    assert forall|i: int|
        0 <= i < next_stack.len() && next.grid[(#[trigger] next_stack[i]).cell as int]
            == 0 implies next.masks[next_stack[i].cell as int].contains(next_stack[i].num as int)
        || next.zone_conflict(next_stack[i].cell as int, next_stack[i].num as int) by {
        let e = next_stack[i];
        if i < stack.len() {
            assert(next_stack[i] == stack[i]);
            if e.cell == cell && cur.masks[cell].contains(e.num as int) && !left.contains(
                e.num as int,
            ) {
                assert(gone.contains(e.num as int));
            }
        } else {
            assert(left.contains(e.num as int));
        }
    }
}

/// Two rounds of insertion, one after the other, are a round of insertion
/// but for the progress made.
pub proof fn lemma_inserted_trans(
    a: Board,
    ka: Seq<Entry>,
    b: Board,
    kb: Seq<Entry>,
    c: Board,
    kc: Seq<Entry>,
)
    requires
        a.shape(),
        b.shape(),
        c.shape(),
        entries_wf(ka),
        a.refined_by(b),
        same_admits(b, kb, a, ka),
        inserted(b, kb, c, kc),
    ensures
        a.refined_by(c),
        same_admits(c, kc, a, ka),
        holds_all(b.grid, ka) ==> holds_all(c.grid, ka),
        c.candidates() <= b.candidates(),
{
    lemma_refined_trans(a, b, c);
    lemma_refined_candidates(b, c);
    assert forall|g: Seq<u8>|
        #![trigger c.admits(kc, g)]
        #![trigger a.admits(ka, g)]
        c.admits(kc, g) <==> a.admits(ka, g) by {
        if c.admits(kc, g) {
            assert(b.admits(kb, g));
        }
        if a.admits(ka, g) {
            assert(b.admits(kb, g));
        }
    }
    if holds_all(b.grid, ka) {
        lemma_refined_holds(b, c, ka);
    }
}

/// Batch insertion begins in a batching state.
pub proof fn lemma_batch_start(s0: Board, k0: Seq<Entry>)
    requires
        s0.wf(),
        s0.pruned(),
        s0.stack_ok(k0),
    ensures
        batching(s0, k0, 0, s0, false),
{
    assert forall|c: int| 0 <= c < 81 implies #[trigger] s0.refined_at(s0, c) by {}
    assert(k0.take(0) =~= Seq::<Entry>::empty());
}

/// An entry for a filled cell is passed over. That cannot happen to a
/// first placement.
pub proof fn lemma_batch_skip(s0: Board, k0: Seq<Entry>, i: int, cur: Board, any: bool)
    requires
        batching(s0, k0, i, cur, any),
        i < k0.len(),
        cur.grid[k0[i].cell as int] != 0,
    ensures
        batching(s0, k0, i + 1, cur, any),
{
    if s0.fresh_for(k0) {
        assert(cur.grid[k0[i].cell as int] == 0);
    }
    if !any {
        assert forall|m: int| 0 <= m < i + 1 implies s0.grid[(#[trigger] k0[m]).cell as int]
            != 0 by {}
    }
}

/// An entry whose digit is placed in a zone of its open cell shows that
/// nothing was admitted.
pub proof fn lemma_batch_fail(s0: Board, k0: Seq<Entry>, i: int, cur: Board, any: bool)
    requires
        batching(s0, k0, i, cur, any),
        i < k0.len(),
        cur.grid[k0[i].cell as int] == 0,
        cur.zone_conflict(k0[i].cell as int, k0[i].num as int),
    ensures
        admits_none(s0, k0),
{
    let entry = k0[i];
    assert(entry.wf());
    assert forall|g: Seq<u8>| !#[trigger] s0.admits(k0, g) by {
        if s0.admits(k0, g) {
            assert(cur.consistent(g));
            lemma_zone_conflict(cur, entry.cell as int, entry.num as int, g);
        }
    }
}

/// An entry whose digit no zone of its open cell holds is placed.
pub proof fn lemma_batch_place(s0: Board, k0: Seq<Entry>, i: int, cur: Board, any: bool)
    requires
        batching(s0, k0, i, cur, any),
        i < k0.len(),
        cur.grid[k0[i].cell as int] == 0,
        !cur.zone_conflict(k0[i].cell as int, k0[i].num as int),
    ensures
        k0[i].wf(),
        batching(s0, k0, i + 1, cur.place(k0[i].cell as int, k0[i].num), true),
{
    let entry = k0[i];
    let cell = entry.cell as int;
    let d = entry.num as int;
    let next = cur.place(cell, entry.num);
    assert(entry.wf());
    lemma_zones_of_cell(cell);
    assert(s0.masks[cell].contains(d)) by {
        assert(s0.refined_at(cur, cell));
        assert(s0.grid[k0[i].cell as int] == 0);
        if s0.zone_conflict(cell, d) {
            assert(s0.zones[row_zone_of(cell)].subset_of(cur.zones[row_zone_of(cell)]));
            assert(s0.zones[col_zone_of(cell)].subset_of(cur.zones[col_zone_of(cell)]));
            assert(s0.zones[field_zone_of(cell)].subset_of(cur.zones[field_zone_of(cell)]));
        }
    }
    lemma_place_wf(cur, cell, entry.num);
    assert forall|c: int| 0 <= c < 81 implies #[trigger] cur.refined_at(next, c) by {}
    assert(cur.refined_by(next));
    lemma_refined_trans(s0, cur, next);
    assert forall|g: Seq<u8>| #[trigger] s0.admits(k0, g) implies next.consistent(g) by {
        assert(cur.consistent(g));
        lemma_place_consistent(cur, cell, entry.num, g);
    }
    assert(only_entries(s0.grid, k0, next.grid)) by {
        assert forall|c: int| 0 <= c < 81 && #[trigger] next.grid[c] != 0 implies s0.grid[c]
            == next.grid[c] || exists|m: int|
            0 <= m < k0.len() && (#[trigger] k0[m]).cell == c && k0[m].num == next.grid[c] by {
            if c == cell {
                assert(k0[i].cell == c);
            } else {
                assert(cur.grid[c] != 0);
            }
        }
    }
    assert((cur.grid[cell] != 0) <==> cur.masks[cell] == Set::<int>::empty());
    assert(next.masks[cell] != cur.masks[cell]);
    lemma_refined_candidates(cur, next);
    lemma_refined_candidates(s0, cur);
    if s0.fresh_for(k0) {
        assert forall|m: int| 0 <= m < i + 1 implies next.grid[(#[trigger] k0.take(
            i + 1,
        )[m]).cell as int] == k0.take(i + 1)[m].num by {
            if m < i {
                assert(k0.take(i)[m] == k0[m]);
                assert(cur.grid[k0.take(i)[m].cell as int] == k0[m].num);
                assert(k0[m].wf());
            }
        }
        assert forall|m: int| i + 1 <= m < k0.len() implies next.grid[(
        #[trigger] k0[m]).cell as int] == 0 by {
            assert(k0[i].cell != k0[m].cell);
        }
    }
}

/// Once all entries are seen, the candidates can be brought up to date.
pub proof fn lemma_recount_start(s0: Board, k0: Seq<Entry>, s1: Board, any: bool)
    requires
        batching(s0, k0, k0.len() as int, s1, any),
    ensures
        recounting(s0, k0, s1, any, 0, s1, Seq::<Entry>::empty()),
{
    let none = Seq::<Entry>::empty();
    assert(k0.take(k0.len() as int) =~= k0);
    assert forall|c: int| 0 <= c < 81 implies #[trigger] s1.refined_at(s1, c) by {}
    assert forall|g: Seq<u8>| #![trigger s1.consistent(g)] s1.consistent(g) <==> s0.admits(
        k0,
        g,
    ) by {
        if s1.consistent(g) {
            lemma_refined_consistent(s0, s1, g);
            if s0.fresh_for(k0) {
                assert forall|m: int| 0 <= m < k0.len() implies g[(#[trigger] k0[m]).cell as int]
                    == k0[m].num by {
                    assert(k0[m].wf());
                    assert(s1.allows(k0[m].cell as int, g[k0[m].cell as int]));
                }
            } else {
                assert(s0.forces(k0));
            }
        }
    }
    lemma_refined_candidates(s0, s1);
    if !any {
        assert(!s0.has_live(k0));
    }
}

/// A filled cell has no candidates to bring up to date.
pub proof fn lemma_recount_skip(
    s0: Board,
    k0: Seq<Entry>,
    s1: Board,
    any: bool,
    cell: int,
    cur: Board,
    stack: Seq<Entry>,
)
    requires
        recounting(s0, k0, s1, any, cell, cur, stack),
        cell < 81,
        cur.grid[cell] != 0,
    ensures
        recounting(s0, k0, s1, any, cell + 1, cur, stack),
{
    assert forall|a: int, b: int|
        0 <= a < cell + 1 && 0 <= b < 81 && #[trigger] sees(a, b) && cur.grid[b]
            != 0 implies !cur.masks[a].contains(cur.grid[b] as int) by {
        if a == cell {
            assert((cur.grid[a] != 0) <==> cur.masks[a] == Set::<int>::empty());
        }
    }
}

/// An open cell whose candidates are all placed in its zones shows that
/// nothing was admitted.
pub proof fn lemma_recount_fail(
    s0: Board,
    k0: Seq<Entry>,
    s1: Board,
    any: bool,
    cell: int,
    cur: Board,
    stack: Seq<Entry>,
)
    requires
        recounting(s0, k0, s1, any, cell, cur, stack),
        cell < 81,
        cur.grid[cell] == 0,
        cur.masks[cell].difference(zone_union(cur, cell)) == Set::<int>::empty(),
    ensures
        admits_none(s0, k0),
{
    let next = cur.prune(cell, zone_union(cur, cell));
    lemma_prune_zones(cur, cell);
    assert forall|g: Seq<u8>| !#[trigger] s0.admits(k0, g) by {
        if s0.admits(k0, g) {
            assert(cur.consistent(g));
            assert(next.consistent(g));
            assert(next.allows(cell, g[cell]));
        }
    }
}

/// An open cell loses the digits placed in its zones; if one candidate is
/// left, it is pushed.
pub proof fn lemma_recount_prune(
    s0: Board,
    k0: Seq<Entry>,
    s1: Board,
    any: bool,
    cell: int,
    cur: Board,
    stack: Seq<Entry>,
    next: Board,
    next_stack: Seq<Entry>,
)
    requires
        recounting(s0, k0, s1, any, cell, cur, stack),
        cell < 81,
        cur.grid[cell] == 0,
        next == cur.prune(cell, zone_union(cur, cell)),
        next.masks[cell].len() > 0,
        single_pushed(stack, next_stack, cell as u8, next.masks[cell]),
    ensures
        recounting(s0, k0, s1, any, cell + 1, next, next_stack),
{
    let gone = zone_union(cur, cell);
    let left = next.masks[cell];
    assert(cur.masks[cell].subset_of(all_digits()));
    lemma_digit_set_finite(left);
    assert(left != Set::<int>::empty());
    lemma_prune_zones(cur, cell);
    lemma_prune_wf(cur, cell, gone);
    lemma_refined_trans(s1, cur, next);
    lemma_batch_pushed(cur, stack, cell, gone, next, next_stack);
    assert forall|a: int, b: int|
        0 <= a < cell + 1 && 0 <= b < 81 && #[trigger] sees(a, b) && next.grid[b]
            != 0 implies !next.masks[a].contains(next.grid[b] as int) by {
        if a < cell {
            assert(!cur.masks[a].contains(cur.grid[b] as int));
        }
    }
    lemma_refined_candidates(cur, next);
    if left == cur.masks[cell] {
        assert(next.masks =~= cur.masks);
    } else {
        assert(next.masks[cell] != cur.masks[cell]);
    }
    if !any {
        lemma_refined_trans(s0, s1, cur);
        lemma_refined_candidates(s0, cur);
    }
}

/// Once every cell is up to date, the batch is inserted.
pub proof fn lemma_recount_end(
    s0: Board,
    k0: Seq<Entry>,
    s1: Board,
    any: bool,
    cur: Board,
    stack: Seq<Entry>,
)
    requires
        recounting(s0, k0, s1, any, 81, cur, stack),
    ensures
        cur.pruned(),
        inserted(s0, k0, cur, stack),
        only_entries(s0.grid, k0, cur.grid),
{
    lemma_refined_trans(s0, s1, cur);
    assert forall|g: Seq<u8>|
        #![trigger cur.admits(stack, g)]
        #![trigger s0.admits(k0, g)]
        cur.admits(stack, g) <==> s0.admits(k0, g) by {
        if s0.admits(k0, g) {
            assert(cur.consistent(g));
        }
    }
}

/// The first cell that keeps no candidate is `c`, if every cell from
/// `from` up to `c` keeps one or is filled, and `c` is such a cell or the
/// end.
pub proof fn lemma_first_starved(b: Board, from: int, c: int)
    requires
        0 <= from <= c <= 81,
        forall|x: int| from <= x < c ==> #[trigger] b.grid[x] != 0 || kept(b, x) != Set::<int>::empty(),
        c == 81 || (b.grid[c] == 0 && kept(b, c) == Set::<int>::empty()),
    ensures
        first_starved(b, from) == c,
    decreases c - from,
{
    if from < c {
        assert(b.grid[from] != 0 || kept(b, from) != Set::<int>::empty());
        lemma_first_starved(b, from + 1, c);
    }
}

/// Bringing one more cell up to date: the board, and the entries for the
/// cells with one candidate.
pub proof fn lemma_recounted_step(
    s1: Board,
    cell: int,
    cur: Board,
    stack: Seq<Entry>,
    next: Board,
    next_stack: Seq<Entry>,
)
    requires
        s1.wf(),
        0 <= cell < 81,
        cur == recounted(s1, cell),
        stack == naked_singles(recounted(s1, 81), cell),
        s1.grid[cell] == 0 ==> next == cur.prune(cell, zone_union(cur, cell)) && (kept(s1, cell)
            != Set::<int>::empty() ==> single_pushed(stack, next_stack, cell as u8, next.masks[cell])),
        s1.grid[cell] != 0 ==> next == cur && next_stack == stack,
    ensures
        next == recounted(s1, cell + 1),
        s1.grid[cell] != 0 || kept(s1, cell) != Set::<int>::empty() ==> next_stack == naked_singles(
            recounted(s1, 81),
            cell + 1,
        ),
{
    let want = recounted(s1, cell + 1);
    let full = recounted(s1, 81);
    assert(zone_union(cur, cell) == zone_union(s1, cell));
    assert(full.masks[cell] == kept(s1, cell));
    if s1.grid[cell] == 0 {
        assert(next.masks =~= want.masks);
        if kept(s1, cell) != Set::<int>::empty() {
            let left = next.masks[cell];
            assert(left == kept(s1, cell));
            if left.len() == 1 {
                let e = next_stack.last();
                assert(left.contains(left.choose())) by {
                    assert(left.contains(e.num as int));
                }
                assert(left.choose() == e.num as int);
                assert(next_stack =~= stack.push(e));
                assert(e == Entry { cell: cell as u8, num: left.choose() as u8 });
            }
        }
    } else {
        assert((s1.grid[cell] != 0) <==> s1.masks[cell] == Set::<int>::empty());
        assert(kept(s1, cell) =~= s1.masks[cell]);
        assert(cur.masks =~= want.masks);
        assert(full.masks[cell].len() == 0);
    }
}

/// Taking candidates from a cell refines the board.
pub proof fn lemma_prune_refines(b: Board, cell: int, gone: Set<int>)
    requires
        b.shape(),
        0 <= cell < 81,
    ensures
        b.refined_by(b.prune(cell, gone)),
{
    let n = b.prune(cell, gone);
    assert forall|c: int| 0 <= c < 81 implies #[trigger] b.refined_at(n, c) by {}
}

} // verus!
