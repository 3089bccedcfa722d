//! Eager insertion: the facts about placing one entry and pruning its
//! digit from the neighbours of its cell.

use vstd::prelude::*;
use crate::board::{
    admits_none, agrees, all_live, distinct_cells, draining, eager_steps, entries_wf, inserted,
    placed, same_admits, single_pushed, spread_from, spreading, Board, EAGER_LIMIT,
};
use crate::deduce::{
    lemma_place_candidate, lemma_place_consistent, lemma_pop, lemma_pop_keeps, lemma_prune_seen,
    lemma_prune_wf, lemma_refined_candidates, lemma_refined_consistent, lemma_refined_holds,
    lemma_refined_trans, lemma_shared_zone_conflict, lemma_single_pushed_keeps,
};
use crate::mask::{all_digits, lemma_digit_set_finite};
use crate::topology::{
    col_zone_of, field_zone_of, lemma_neighbour, lemma_neighbour_index, lemma_sees_zone,
    lemma_zones_of_cell, neighbour, neighbour_index, row_zone_of, sees,
};
use crate::types::Entry;

verus! {

/// A board that was pruned but for the neighbours of `cell` is pruned once
/// all twenty have been visited.
pub proof fn lemma_pruned_but_done(b: Board, cell: int)
    requires
        0 <= cell < 81,
        b.pruned_but(cell, 20),
    ensures
        b.pruned(),
{
    assert forall|x: int, y: int|
        0 <= x < 81 && 0 <= y < 81 && #[trigger] sees(x, y) && b.grid[y]
            != 0 implies !b.masks[x].contains(b.grid[y] as int) by {
        if b.masks[x].contains(b.grid[y] as int) {
            lemma_sees_zone(x, y);
            lemma_neighbour_index(cell, x);
        }
    }
}

/// Losing at most one digit leaves a cell at most one candidate poorer.
pub proof fn lemma_lost_only_roomy(b: Board, base: Board, d: int, n: int)
    requires
        base.shape(),
        b.grid == base.grid,
        b.masks.len() == 81,
        b.lost_only(base, d),
        base.roomy(n + 1),
    ensures
        b.roomy(n),
{
    assert forall|c: int| 0 <= c < 81 && #[trigger] b.grid[c] == 0 implies b.masks[c].len()
        >= n by {
        assert(base.masks[c].subset_of(all_digits()));
        lemma_digit_set_finite(base.masks[c]);
        assert(b.masks[c] == base.masks[c] || b.masks[c] == base.masks[c].remove(d));
    }
}

/// A neighbour that does not hold the placed digit needs no visit.
pub proof fn lemma_spread_skip(
    base: Board,
    rest: Seq<Entry>,
    entry: Entry,
    j: int,
    cur: Board,
    stack: Seq<Entry>,
    pending: bool,
)
    requires
        spreading(base, rest, entry, j, cur, stack, pending),
        0 <= j < 20,
        !cur.masks[neighbour(entry.cell as int, j)].contains(entry.num as int),
    ensures
        spreading(base, rest, entry, j + 1, cur, stack, pending),
{
    let c0 = entry.cell as int;
    assert forall|a: int, b: int|
        0 <= a < 81 && 0 <= b < 81 && #[trigger] sees(a, b) && cur.grid[b] != 0
            && cur.masks[a].contains(cur.grid[b] as int) implies b == c0 && neighbour_index(c0, a)
        >= j + 1 by {
        if neighbour_index(c0, a) == j {
            lemma_sees_zone(a, b);
            lemma_neighbour_index(c0, a);
        }
    }
}

/// The solutions admitted before and after the placed digit is pruned from
/// one neighbour are the same.
pub proof fn lemma_spread_same(entry: Entry, j: int, cur: Board, next: Board)
    requires
        entry.wf(),
        cur.shape(),
        cur.grid[entry.cell as int] == entry.num,
        0 <= j < 20,
        cur.grid[neighbour(entry.cell as int, j)] == 0,
        next == cur.prune(neighbour(entry.cell as int, j), set![entry.num as int]),
    ensures
        forall|g: Seq<u8>| #![trigger next.consistent(g)] next.consistent(g) <==> cur.consistent(g),
{
    let n = neighbour(entry.cell as int, j);
    lemma_neighbour(entry.cell as int, j);
    assert forall|g: Seq<u8>| #![trigger next.consistent(g)] next.consistent(g) <==> cur.consistent(
        g,
    ) by {
        lemma_prune_seen(cur, entry.cell as int, n, g);
    }
}

/// A neighbour left without a candidate shows that nothing was admitted.
pub proof fn lemma_spread_fail(
    base: Board,
    rest: Seq<Entry>,
    entry: Entry,
    j: int,
    cur: Board,
    stack: Seq<Entry>,
    pending: bool,
)
    requires
        spreading(base, rest, entry, j, cur, stack, pending),
        0 <= j < 20,
        cur.masks[neighbour(entry.cell as int, j)].contains(entry.num as int),
        cur.masks[neighbour(entry.cell as int, j)].remove(entry.num as int) == Set::<int>::empty(),
    ensures
        admits_none(base, rest),
{
    let n = neighbour(entry.cell as int, j);
    lemma_neighbour(entry.cell as int, j);
    let next = cur.prune(n, set![entry.num as int]);
    assert(cur.grid[n] == 0);
    lemma_spread_same(entry, j, cur, next);
    assert(next.masks[n] =~= Set::<int>::empty());
    assert forall|g: Seq<u8>| !#[trigger] base.admits(rest, g) by {
        if base.admits(rest, g) {
            assert(cur.admits(stack, g));
            assert(next.consistent(g));
            assert(next.allows(n, g[n]));
        }
    }
}

/// Board part of one pruning step of the spreading.
proof fn lemma_spread_prune_board(base: Board, entry: Entry, j: int, cur: Board, next: Board)
    requires
        entry.wf(),
        0 <= j < 20,
        cur.wf(),
        cur.pruned_but(entry.cell as int, j),
        cur.grid == base.grid,
        base.grid[entry.cell as int] == entry.num,
        base.shape(),
        base.refined_by(cur),
        cur.lost_only(base, entry.num as int),
        cur.masks[neighbour(entry.cell as int, j)].contains(entry.num as int),
        next == cur.prune(neighbour(entry.cell as int, j), set![entry.num as int]),
        next.masks[neighbour(entry.cell as int, j)].len() > 0,
    ensures
        next.wf(),
        next.pruned_but(entry.cell as int, j + 1),
        base.refined_by(next),
        next.lost_only(base, entry.num as int),
        cur.grid[neighbour(entry.cell as int, j)] == 0,
{
    let c0 = entry.cell as int;
    let d = entry.num as int;
    let n = neighbour(c0, j);
    lemma_neighbour(c0, j);
    lemma_sees_zone(c0, n);
    let left = next.masks[n];
    assert(cur.grid[n] == 0);
    assert(left != Set::<int>::empty());
    lemma_prune_wf(cur, n, set![d]);
    lemma_refined_trans(base, cur, next);
    assert(next.lost_only(base, d)) by {
        assert forall|c: int| 0 <= c < 81 implies #[trigger] next.masks[c] == base.masks[c]
            || next.masks[c] == base.masks[c].remove(d) by {
            assert(cur.masks[c] == base.masks[c] || cur.masks[c] == base.masks[c].remove(d));
            if c == n {
                assert(left =~= base.masks[c].remove(d));
            }
        }
    }
    assert(next.pruned_but(c0, j + 1)) by {
        assert forall|a: int, b: int|
            0 <= a < 81 && 0 <= b < 81 && #[trigger] sees(a, b) && next.grid[b] != 0
                && next.masks[a].contains(next.grid[b] as int) implies b == c0 && neighbour_index(
            c0,
            a,
        ) >= j + 1 by {
            assert(cur.masks[a].contains(cur.grid[b] as int));
            lemma_sees_zone(a, b);
            lemma_neighbour_index(c0, a);
        }
    }
}

/// Entries that were in order stay so when a cell that sees the placed
/// digit loses it, and when the single candidate of that cell is pushed.
proof fn lemma_spread_prune_live(
    entry: Entry,
    j: int,
    cur: Board,
    stack: Seq<Entry>,
    next: Board,
    next_stack: Seq<Entry>,
)
    requires
        entry.wf(),
        0 <= j < 20,
        cur.wf(),
        next.wf(),
        cur.grid[entry.cell as int] == entry.num,
        entries_wf(stack),
        cur.live_or_blocked(stack),
        next == cur.prune(neighbour(entry.cell as int, j), set![entry.num as int]),
        single_pushed(
            stack,
            next_stack,
            neighbour(entry.cell as int, j) as u8,
            next.masks[neighbour(entry.cell as int, j)],
        ),
    ensures
        entries_wf(next_stack),
        next.live_or_blocked(next_stack),
{
    let c0 = entry.cell as int;
    let d = entry.num as int;
    let n = neighbour(c0, j);
    lemma_neighbour(c0, j);
    lemma_sees_zone(c0, n);
    let left = next.masks[n];
    lemma_single_pushed_keeps(stack, next_stack, n as u8, left);
    assert forall|i: int| 0 <= i < next_stack.len() implies (#[trigger] next_stack[i]).wf() by {
        if i < stack.len() {
            assert(next_stack[i] == stack[i]);
        }
    }
    assert forall|i: int|
        0 <= i < next_stack.len() && next.grid[(#[trigger] next_stack[i]).cell as int]
            == 0 implies next.masks[next_stack[i].cell as int].contains(next_stack[i].num as int)
        || next.zone_conflict(next_stack[i].cell as int, next_stack[i].num as int) by {
        let e = next_stack[i];
        if i < stack.len() {
            assert(next_stack[i] == stack[i]);
            if e.cell == n && e.num == entry.num {
                lemma_shared_zone_conflict(next, n, c0, d);
            }
        } else {
            assert(left.contains(e.num as int));
        }
    }
}

/// What is admitted stays the same over one pruning step of the spreading,
/// and a pushed entry is forced.
proof fn lemma_spread_prune_admits(
    base: Board,
    rest: Seq<Entry>,
    entry: Entry,
    j: int,
    cur: Board,
    stack: Seq<Entry>,
    next: Board,
    next_stack: Seq<Entry>,
)
    requires
        entry.wf(),
        0 <= j < 20,
        cur.shape(),
        cur.grid[entry.cell as int] == entry.num,
        cur.grid[neighbour(entry.cell as int, j)] == 0,
        same_admits(cur, stack, base, rest),
        next == cur.prune(neighbour(entry.cell as int, j), set![entry.num as int]),
        single_pushed(
            stack,
            next_stack,
            neighbour(entry.cell as int, j) as u8,
            next.masks[neighbour(entry.cell as int, j)],
        ),
    ensures
        same_admits(next, next_stack, base, rest),
        cur.forces(stack) ==> next.forces(next_stack),
{
    let c0 = entry.cell as int;
    let n = neighbour(c0, j);
    lemma_neighbour(c0, j);
    let left = next.masks[n];
    lemma_single_pushed_keeps(stack, next_stack, n as u8, left);
    lemma_spread_same(entry, j, cur, next);
    assert forall|g: Seq<u8>| #[trigger] next.consistent(g) && agrees(g, stack) implies agrees(
        g,
        next_stack,
    ) by {
        assert(next.allows(n, g[n]));
        assert forall|i: int| 0 <= i < next_stack.len() implies g[(
        #[trigger] next_stack[i]).cell as int] == next_stack[i].num by {
            if i < stack.len() {
                assert(next_stack[i] == stack[i]);
            } else {
                assert(left.contains(next_stack[i].num as int));
                assert(left.contains(g[n] as int));
            }
        }
    }
    assert forall|g: Seq<u8>| agrees(g, next_stack) implies agrees(g, stack) by {
        assert forall|i: int| 0 <= i < stack.len() implies g[(#[trigger] stack[i]).cell as int]
            == stack[i].num by {
            assert(next_stack[i] == stack[i]);
        }
    }
    assert forall|g: Seq<u8>|
        #![trigger next.admits(next_stack, g)]
        #![trigger base.admits(rest, g)]
        next.admits(next_stack, g) <==> base.admits(rest, g) by {
        if next.admits(next_stack, g) {
            assert(cur.consistent(g));
            assert(agrees(g, stack));
            assert(cur.admits(stack, g));
        }
        if base.admits(rest, g) {
            assert(cur.admits(stack, g));
            assert(next.consistent(g));
        }
    }
    if cur.forces(stack) {
        assert forall|g: Seq<u8>| #[trigger] next.consistent(g) implies agrees(g, next_stack) by {
            assert(cur.consistent(g));
        }
    }
}

/// Pruning the placed digit from the next neighbour, which keeps a
/// candidate, leads to the next state of the spreading.
pub proof fn lemma_spread_prune(
    base: Board,
    rest: Seq<Entry>,
    entry: Entry,
    j: int,
    cur: Board,
    stack: Seq<Entry>,
    pending: bool,
    next: Board,
    next_stack: Seq<Entry>,
)
    requires
        spreading(base, rest, entry, j, cur, stack, pending),
        0 <= j < 20,
        cur.masks[neighbour(entry.cell as int, j)].contains(entry.num as int),
        next == cur.prune(neighbour(entry.cell as int, j), set![entry.num as int]),
        next.masks[neighbour(entry.cell as int, j)].len() > 0,
        single_pushed(
            stack,
            next_stack,
            neighbour(entry.cell as int, j) as u8,
            next.masks[neighbour(entry.cell as int, j)],
        ),
    ensures
        spreading(base, rest, entry, j + 1, next, next_stack, pending),
{
    let n = neighbour(entry.cell as int, j);
    lemma_neighbour(entry.cell as int, j);
    lemma_spread_prune_board(base, entry, j, cur, next);
    lemma_spread_prune_live(entry, j, cur, stack, next, next_stack);
    lemma_spread_prune_admits(base, rest, entry, j, cur, stack, next, next_stack);
    if pending && next.masks[n].len() == 1 {
        lemma_lost_only_roomy(next, base, entry.num as int, rest.len() as int + 1);
        assert(next.grid[n] == 0);
    }
}

/// Eager insertion begins in a draining state.
pub proof fn lemma_drain_start(s0: Board, k0: Seq<Entry>)
    requires
        s0.wf(),
        s0.pruned(),
        s0.stack_ok(k0),
        k0.len() <= EAGER_LIMIT,
    ensures
        draining(s0, k0, s0, k0, s0.fresh_for(k0)),
{
    assert forall|c: int| 0 <= c < 81 implies #[trigger] s0.refined_at(s0, c) by {}
    assert(k0.take(k0.len() as int) =~= k0);
}

/// Eager insertion may end when nothing is pending, or when more is
/// pending than it is meant for.
pub proof fn lemma_drain_end(s0: Board, k0: Seq<Entry>, cur: Board, stack: Seq<Entry>, fresh: bool)
    requires
        draining(s0, k0, cur, stack, fresh),
        stack.len() == 0 || stack.len() > EAGER_LIMIT,
    ensures
        inserted(s0, k0, cur, stack),
{
    if !(cur.candidates() < s0.candidates()) {
        assert(stack.len() == 0);
        assert forall|i: int| 0 <= i < k0.len() implies s0.grid[(#[trigger] k0[i]).cell as int]
            != 0 by {}
    }
}

/// An entry for a filled cell is skipped. That cannot happen to a first
/// placement; of a forced entry nothing is lost.
pub proof fn lemma_drain_skip(s0: Board, k0: Seq<Entry>, cur: Board, before: Seq<Entry>, fresh: bool)
    requires
        draining(s0, k0, cur, before, fresh),
        before.len() > 0,
        cur.grid[before.last().cell as int] != 0,
    ensures
        !fresh,
        draining(s0, k0, cur, before.drop_last(), false),
{
    let rest = before.drop_last();
    let entry = before.last();
    if fresh {
        assert(cur.grid[before[before.len() - 1].cell as int] == 0);
    }
    lemma_pop_keeps(cur, before);
    assert forall|g: Seq<u8>|
        #![trigger cur.admits(rest, g)]
        #![trigger s0.admits(k0, g)]
        cur.admits(rest, g) <==> s0.admits(k0, g) by {
        lemma_pop(cur, before, g);
        if cur.admits(rest, g) {
            assert(agrees(g, before));
        }
        if s0.admits(k0, g) {
            assert(cur.admits(before, g));
        }
    }
    if !(cur.candidates() < s0.candidates()) {
        assert(rest =~= k0.take(rest.len() as int));
        assert forall|i: int| rest.len() <= i < k0.len() implies s0.grid[(
        #[trigger] k0[i]).cell as int] != 0 by {
            if i == rest.len() {
                assert(k0[i] == before[before.len() - 1]);
            }
        }
    }
}

/// An entry whose digit is no candidate of its open cell shows that
/// nothing was admitted.
pub proof fn lemma_drain_fail(s0: Board, k0: Seq<Entry>, cur: Board, before: Seq<Entry>, fresh: bool)
    requires
        draining(s0, k0, cur, before, fresh),
        before.len() > 0,
        cur.grid[before.last().cell as int] == 0,
        !cur.masks[before.last().cell as int].contains(before.last().num as int),
    ensures
        admits_none(s0, k0),
{
    let entry = before.last();
    lemma_pop_keeps(cur, before);
    assert forall|g: Seq<u8>| !#[trigger] s0.admits(k0, g) by {
        if s0.admits(k0, g) {
            assert(cur.admits(before, g));
            lemma_pop(cur, before, g);
            assert(cur.allows(entry.cell as int, g[entry.cell as int]));
        }
    }
}

/// An entry whose digit is a candidate of its open cell is placed. The
/// digit then has to be pruned from the neighbours of the cell.
pub proof fn lemma_drain_place(s0: Board, k0: Seq<Entry>, cur: Board, before: Seq<Entry>, fresh: bool)
    requires
        draining(s0, k0, cur, before, fresh),
        before.len() > 0,
        cur.grid[before.last().cell as int] == 0,
        cur.masks[before.last().cell as int].contains(before.last().num as int),
    ensures
        before.last().wf(),
        !cur.zone_conflict(before.last().cell as int, before.last().num as int),
        spreading(
            cur.place(before.last().cell as int, before.last().num),
            before.drop_last(),
            before.last(),
            0,
            cur.place(before.last().cell as int, before.last().num),
            before.drop_last(),
            fresh && before.len() >= 2,
        ),
        placed(
            s0,
            k0,
            cur.place(before.last().cell as int, before.last().num),
            before.drop_last(),
            fresh && before.len() >= 2,
        ),
{
    let rest = before.drop_last();
    let entry = before.last();
    let cell = entry.cell as int;
    let b1 = cur.place(cell, entry.num);
    let pending = fresh && rest.len() >= 1;
    lemma_pop_keeps(cur, before);
    assert(entry == before[before.len() - 1]);
    assert forall|i: int| 0 <= i < rest.len() implies #[trigger] rest[i] == before[i] by {}
    lemma_place_candidate(cur, cell, entry.num);
    assert forall|g: Seq<u8>|
        #![trigger b1.admits(rest, g)]
        #![trigger s0.admits(k0, g)]
        b1.admits(rest, g) <==> s0.admits(k0, g) by {
        lemma_place_consistent(cur, cell, entry.num, g);
        lemma_pop(cur, before, g);
        if b1.admits(rest, g) {
            assert(cur.admits(before, g));
        }
        if s0.admits(k0, g) {
            assert(cur.admits(before, g));
        }
    }
    assert(b1.live_or_blocked(rest)) by {
        assert forall|i: int|
            0 <= i < rest.len() && b1.grid[(#[trigger] rest[i]).cell as int]
                == 0 implies b1.masks[rest[i].cell as int].contains(rest[i].num as int)
            || b1.zone_conflict(rest[i].cell as int, rest[i].num as int) by {
            let c = rest[i].cell as int;
            assert(rest[i].wf());
            lemma_zones_of_cell(c);
            assert(cur.zones[row_zone_of(c)].subset_of(b1.zones[row_zone_of(c)]));
            assert(cur.zones[col_zone_of(c)].subset_of(b1.zones[col_zone_of(c)]));
            assert(cur.zones[field_zone_of(c)].subset_of(b1.zones[field_zone_of(c)]));
        }
    }
    assert(b1.lost_only(b1, entry.num as int));
    assert forall|c: int| 0 <= c < 81 implies #[trigger] b1.refined_at(b1, c) by {}
    lemma_refined_trans(s0, cur, b1);
    lemma_refined_candidates(s0, cur);
    if fresh {
        assert(rest =~= k0.take(rest.len() as int));
        assert(entry == k0[rest.len() as int]);
    }
    if pending {
        assert(all_live(b1, rest)) by {
            assert forall|i: int| 0 <= i < rest.len() implies b1.grid[(
            #[trigger] rest[i]).cell as int] == 0 by {
                assert(before[i].cell != before[before.len() - 1].cell);
            }
        }
        assert(distinct_cells(rest)) by {
            assert forall|i: int, k: int| 0 <= i < k < rest.len() implies (#[trigger] rest[i]).cell
                != (#[trigger] rest[k]).cell by {
                assert(rest[i] == before[i]);
                assert(rest[k] == before[k]);
            }
        }
        assert forall|i: int| rest.len() <= i < k0.len() implies b1.grid[(
        #[trigger] k0[i]).cell as int] == k0[i].num by {
            if i > rest.len() {
                assert(cur.grid[k0[i].cell as int] == k0[i].num);
            }
        }
        assert(cur.roomy(rest.len() as int + 2));
        assert(b1.roomy(rest.len() as int + 2)) by {
            assert forall|c: int| 0 <= c < 81 && #[trigger] b1.grid[c]
                == 0 implies b1.masks[c].len() >= rest.len() as int + 2 by {
                assert(cur.grid[c] == 0);
            }
        }
    } else {
        if s0.fresh_for(k0) {
            if fresh {
                assert forall|i: int| 0 <= i < k0.len() implies b1.grid[(
                #[trigger] k0[i]).cell as int] == k0[i].num by {
                    if i > 0 {
                        assert(cur.grid[k0[i].cell as int] == k0[i].num);
                    }
                }
            } else {
                lemma_refined_holds(cur, b1, k0);
            }
        }
        assert forall|g: Seq<u8>| #[trigger] b1.consistent(g) implies agrees(g, rest) by {
            lemma_refined_consistent(cur, b1, g);
            if !fresh {
                assert(cur.admits(before, g));
                lemma_pop(cur, before, g);
            }
        }
    }
}

/// A neighbour left without a candidate shows that nothing was admitted at
/// the start of the insertion either.
pub proof fn lemma_drain_spread_fail(
    s0: Board,
    k0: Seq<Entry>,
    base: Board,
    rest: Seq<Entry>,
    entry: Entry,
    j: int,
    cur: Board,
    stack: Seq<Entry>,
    pending: bool,
)
    requires
        placed(s0, k0, base, rest, pending),
        spreading(base, rest, entry, j, cur, stack, pending),
        0 <= j < 20,
        cur.masks[neighbour(entry.cell as int, j)].contains(entry.num as int),
        cur.masks[neighbour(entry.cell as int, j)].remove(entry.num as int) == Set::<int>::empty(),
    ensures
        admits_none(s0, k0),
{
    lemma_spread_fail(base, rest, entry, j, cur, stack, pending);
    assert forall|g: Seq<u8>| !#[trigger] s0.admits(k0, g) by {
        assert(!base.admits(rest, g));
    }
}

/// Once the placed digit is pruned from all neighbours, eager insertion is
/// in a draining state again.
pub proof fn lemma_drain_spread(
    s0: Board,
    k0: Seq<Entry>,
    base: Board,
    rest: Seq<Entry>,
    entry: Entry,
    cur: Board,
    stack: Seq<Entry>,
    pending: bool,
)
    requires
        placed(s0, k0, base, rest, pending),
        spreading(base, rest, entry, 20, cur, stack, pending),
    ensures
        draining(s0, k0, cur, stack, pending),
{
    lemma_pruned_but_done(cur, entry.cell as int);
    lemma_refined_trans(s0, base, cur);
    lemma_refined_candidates(base, cur);
    assert forall|g: Seq<u8>|
        #![trigger cur.admits(stack, g)]
        #![trigger s0.admits(k0, g)]
        cur.admits(stack, g) <==> s0.admits(k0, g) by {
        if cur.admits(stack, g) {
            assert(base.admits(rest, g));
        }
        if s0.admits(k0, g) {
            assert(base.admits(rest, g));
        }
    }
    if pending {
        if rest.len() >= 2 {
            lemma_lost_only_roomy(cur, base, entry.num as int, rest.len() as int + 1);
        }
        assert(cur.fresh_for(stack));
    } else if s0.fresh_for(k0) {
        lemma_refined_holds(base, cur, k0);
    }
}

/// Visiting one neighbour: what the visit leaves is what the pruning goes
/// on from, unless the neighbour is left without a candidate.
pub proof fn lemma_spread_step(
    e: Entry,
    j: int,
    cur: Board,
    stack: Seq<Entry>,
    next: Board,
    next_stack: Seq<Entry>,
)
    requires
        0 <= j < 20,
        0 <= neighbour(e.cell as int, j) < 81,
        cur.masks[neighbour(e.cell as int, j)].contains(e.num as int) ==> next == cur.prune(
            neighbour(e.cell as int, j),
            set![e.num as int],
        ) && if next.masks[neighbour(e.cell as int, j)].len() == 0 {
            next_stack == stack
        } else {
            single_pushed(
                stack,
                next_stack,
                neighbour(e.cell as int, j) as u8,
                next.masks[neighbour(e.cell as int, j)],
            )
        },
        !cur.masks[neighbour(e.cell as int, j)].contains(e.num as int) ==> next == cur
            && next_stack == stack,
    ensures
        spread_from(cur, stack, e, j) == if cur.masks[neighbour(e.cell as int, j)].contains(
            e.num as int,
        ) && next.masks[neighbour(e.cell as int, j)].len() == 0 {
            (next, next_stack, false)
        } else {
            spread_from(next, next_stack, e, j + 1)
        },
{
    let n = neighbour(e.cell as int, j);
    if cur.masks[n].contains(e.num as int) {
        let left = next.masks[n];
        if left.len() == 1 {
            let pushed = next_stack.last();
            assert(left.contains(pushed.num as int));
            assert(left.contains(left.choose()));
            assert(left.choose() == pushed.num as int);
            assert(next_stack =~= stack.push(pushed));
            assert(pushed == Entry { cell: n as u8, num: left.choose() as u8 });
        }
    }
}

/// After a step that placed an entry and left at most `EAGER_LIMIT`
/// pending, fewer steps are left than before.
pub proof fn lemma_eager_steps(cur: Board, before: Seq<Entry>, next: Board, stack: Seq<Entry>)
    requires
        next.candidates() < cur.candidates(),
        stack.len() <= EAGER_LIMIT,
    ensures
        eager_steps(next, stack) < eager_steps(cur, before),
{
    let width = (EAGER_LIMIT + 1) as nat;
    assert(width == 5);
    assert(eager_steps(next, stack) == next.candidates() * width + stack.len());
    assert(eager_steps(cur, before) == cur.candidates() * width + before.len());
    assert((next.candidates() + 1) * width <= cur.candidates() * width) by (nonlinear_arith)
        requires
            next.candidates() + 1 <= cur.candidates(),
    ;
    assert((next.candidates() + 1) * width == next.candidates() * width + width)
        by (nonlinear_arith);
}

} // verus!
