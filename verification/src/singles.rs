//! Hidden singles: the facts about digits that only one cell of a zone
//! can still take.

use vstd::prelude::*;
use crate::board::{
    distinct_cells, double_at, first_double, first_loud, has_single, hidden_conflict, hidden_found,
    placed, placed_at, quiet, resolving, scanned, single_digit, singles_of, singles_pushed,
    zone_singles, Board,
};
use crate::deduce::lemma_two_of;
use crate::mask::all_digits;
use crate::rules::{lemma_zone_cells_see, lemma_zone_has_digit};
use crate::topology::{lemma_zone_cell, sees, zone_cell};
use crate::types::Entry;

verus! {

/// A hidden single is forced: every admitted solution holds the digit in
/// the cell.
pub proof fn lemma_hidden_single_forced(b: Board, zone: int, k: int, d: int, g: Seq<u8>)
    requires
        b.wf(),
        b.pruned(),
        0 <= zone < 27,
        0 <= k < 9,
        1 <= d <= 9,
        b.single_at(zone, k, d),
        b.consistent(g),
    ensures
        g[zone_cell(zone, k)] == d,
        b.grid[zone_cell(zone, k)] == 0,
{
    let cell = zone_cell(zone, k);
    lemma_zone_cell(zone, k);
    assert((b.grid[cell] != 0) <==> b.masks[cell] == Set::<int>::empty());
    let at = lemma_zone_has_digit(g, zone, d);
    if at != k {
        let other = zone_cell(zone, at);
        lemma_zone_cell(zone, at);
        lemma_zone_cells_see(zone, k, at);
        assert(b.allows(other, g[other]));
        assert(!b.holds_cand(zone, at, d));
        assert(sees(cell, other));
    }
}

/// A zone that has no place left for some digit admits no solution.
pub proof fn lemma_zone_uncovered(b: Board, zone: int, d: int, g: Seq<u8>)
    requires
        b.wf(),
        0 <= zone < 27,
        1 <= d <= 9,
        !b.zones[zone].contains(d),
        forall|k: int| 0 <= k < 9 ==> !#[trigger] b.holds_cand(zone, k, d),
    ensures
        !b.consistent(g),
{
    if b.consistent(g) {
        let at = lemma_zone_has_digit(g, zone, d);
        let cell = zone_cell(zone, at);
        lemma_zone_cell(zone, at);
        assert(b.allows(cell, g[cell]));
        assert(!b.holds_cand(zone, at, d));
        assert(placed_at(b.grid, zone, b.grid[cell] as int, cell));
    }
}

/// Scanning one more cell of the zone.
pub proof fn lemma_scan_step(b: Board, zone: int, k: int, unsolved: Set<int>, multiple: Set<int>)
    requires
        scanned(b, zone, k, unsolved, multiple),
        0 <= k,
    ensures
        scanned(
            b,
            zone,
            k + 1,
            unsolved.union(b.masks[zone_cell(zone, k)]),
            multiple.union(unsolved.intersect(b.masks[zone_cell(zone, k)])),
        ),
{
    let m = b.masks[zone_cell(zone, k)];
    let u2 = unsolved.union(m);
    let m2 = multiple.union(unsolved.intersect(m));
    assert forall|d: int| u2.contains(d) <==> exists|j: int|
        0 <= j < k + 1 && #[trigger] b.holds_cand(zone, j, d) by {
        if u2.contains(d) {
            if unsolved.contains(d) {
                let j = choose|j: int| 0 <= j < k && #[trigger] b.holds_cand(zone, j, d);
                assert(b.holds_cand(zone, j, d));
            } else {
                assert(b.holds_cand(zone, k, d));
            }
        }
        if exists|j: int| 0 <= j < k + 1 && #[trigger] b.holds_cand(zone, j, d) {
            let j = choose|j: int| 0 <= j < k + 1 && #[trigger] b.holds_cand(zone, j, d);
            if j < k {
                assert(unsolved.contains(d));
            }
        }
    }
    assert forall|d: int| m2.contains(d) <==> exists|i: int, j: int|
        0 <= i < j < k + 1 && #[trigger] b.holds_cand(zone, i, d) && #[trigger] b.holds_cand(
            zone,
            j,
            d,
        ) by {
        if m2.contains(d) {
            if multiple.contains(d) {
                let (i, j) = choose|i: int, j: int|
                    0 <= i < j < k && #[trigger] b.holds_cand(zone, i, d) && #[trigger] b.holds_cand(
                        zone,
                        j,
                        d,
                    );
                assert(b.holds_cand(zone, i, d) && b.holds_cand(zone, j, d));
            } else {
                let i = choose|i: int| 0 <= i < k && #[trigger] b.holds_cand(zone, i, d);
                assert(b.holds_cand(zone, i, d) && b.holds_cand(zone, k, d));
            }
        }
        if exists|i: int, j: int|
            0 <= i < j < k + 1 && #[trigger] b.holds_cand(zone, i, d) && #[trigger] b.holds_cand(
                zone,
                j,
                d,
            ) {
            let (i, j) = choose|i: int, j: int|
                0 <= i < j < k + 1 && #[trigger] b.holds_cand(zone, i, d) && #[trigger] b.holds_cand(
                    zone,
                    j,
                    d,
                );
            if j < k {
                assert(multiple.contains(d));
            } else {
                assert(unsolved.contains(d));
            }
        }
    }
}

/// Once the nine cells are scanned, the digits in `unsolved` and not in
/// `multiple` are the hidden singles of the zone.
pub proof fn lemma_scan_singles(b: Board, zone: int, unsolved: Set<int>, multiple: Set<int>)
    requires
        scanned(b, zone, 9, unsolved, multiple),
    ensures
        forall|k: int, d: int|
            0 <= k < 9 && #[trigger] b.single_at(zone, k, d) ==> unsolved.difference(
                multiple,
            ).contains(d),
        forall|k: int, d: int|
            0 <= k < 9 && unsolved.difference(multiple).contains(d) && #[trigger] b.holds_cand(
                zone,
                k,
                d,
            ) ==> b.single_at(zone, k, d),
        forall|d: int|
            unsolved.difference(multiple).contains(d) ==> exists|k: int|
                0 <= k < 9 && #[trigger] b.holds_cand(zone, k, d),
{
    assert forall|k: int, d: int| 0 <= k < 9 && #[trigger] b.single_at(zone, k, d) implies (
    unsolved.difference(multiple).contains(d)) by {
        assert(b.holds_cand(zone, k, d));
        if multiple.contains(d) {
            let (i, j) = choose|i: int, j: int|
                0 <= i < j < 9 && #[trigger] b.holds_cand(zone, i, d) && #[trigger] b.holds_cand(
                    zone,
                    j,
                    d,
                );
            assert(i != k || j != k);
        }
    }
    assert forall|k: int, d: int|
        0 <= k < 9 && unsolved.difference(multiple).contains(d) && #[trigger] b.holds_cand(
            zone,
            k,
            d,
        ) implies b.single_at(zone, k, d) by {
        assert forall|j: int| 0 <= j < 9 && j != k implies !#[trigger] b.holds_cand(
            zone,
            j,
            d,
        ) by {
            if b.holds_cand(zone, j, d) {
                if j < k {
                    assert(b.holds_cand(zone, j, d) && b.holds_cand(zone, k, d));
                } else {
                    assert(b.holds_cand(zone, k, d) && b.holds_cand(zone, j, d));
                }
            }
        }
    }
}

/// What the scan of a zone tells: if some digit is neither placed in the
/// zone nor a candidate there, nothing is admitted; else the zone is
/// covered, and the digits in `unsolved` and not in `multiple` are its hidden
/// singles.
pub proof fn lemma_zone_scanned(b: Board, zone: int, unsolved: Set<int>, multiple: Set<int>)
    requires
        b.wf(),
        0 <= zone < 27,
        scanned(b, zone, 9, unsolved, multiple),
        unsolved.subset_of(all_digits()),
    ensures
        unsolved.union(b.zones[zone]) != all_digits() ==> forall|g: Seq<u8>| !#[trigger]
            b.consistent(g),
        unsolved.union(b.zones[zone]) == all_digits() <==> b.covered(zone),
        singles_of(b, zone, unsolved.difference(multiple)),
        unsolved.difference(multiple) == Set::<int>::empty() ==> b.no_single(zone),
{
    let have = unsolved.union(b.zones[zone]);
    assert(b.zones[zone].subset_of(all_digits()));
    if have != all_digits() {
        assert(exists|d: int| 1 <= d <= 9 && !have.contains(d)) by {
            if forall|d: int| 1 <= d <= 9 ==> have.contains(d) {
                assert(have =~= all_digits());
            }
        }
        let d = choose|d: int| 1 <= d <= 9 && !have.contains(d);
        assert forall|g: Seq<u8>| !#[trigger] b.consistent(g) by {
            lemma_zone_uncovered(b, zone, d, g);
        }
        assert(!b.covered(zone)) by {
            assert(!b.zones[zone].contains(d));
            assert(!unsolved.contains(d));
        }
    } else {
        assert forall|d: int| 1 <= d <= 9 implies #[trigger] b.zones[zone].contains(d)
            || exists|k: int| 0 <= k < 9 && #[trigger] b.holds_cand(zone, k, d) by {
            assert(have.contains(d));
        }
    }
    lemma_scan_singles(b, zone, unsolved, multiple);
}

/// A cell of a zone has at most one hidden single unless it is a cell
/// that would have to take two digits.
pub proof fn lemma_single_digit(b: Board, zone: int, k: int, d: int)
    requires
        b.single_at(zone, k, d),
        !double_at(b, zone, k),
    ensures
        has_single(b, zone, k),
        single_digit(b, zone, k) == d,
{
    let c = single_digit(b, zone, k);
    assert(b.single_at(zone, k, c));
    if c != d {
        assert(b.single_at(zone, k, c) && b.single_at(zone, k, d));
    }
}

/// The first cell that would have to take two digits is `k`, if no cell
/// from `from` up to `k` would and `k` is such a cell or the end.
pub proof fn lemma_first_double(b: Board, zone: int, from: int, k: int)
    requires
        0 <= from <= k <= 9,
        forall|j: int| from <= j < k ==> !#[trigger] double_at(b, zone, j),
        k == 9 || double_at(b, zone, k),
    ensures
        first_double(b, zone, from) == k,
    decreases k - from,
{
    if from < k {
        assert(!double_at(b, zone, from));
        lemma_first_double(b, zone, from + 1, k);
    }
}

/// Cells without a hidden single add nothing to the entries of a zone.
pub proof fn lemma_zone_singles_rest(b: Board, zone: int, k: int, n: int)
    requires
        0 <= k <= n,
        forall|j: int| k <= j < n ==> !#[trigger] has_single(b, zone, j),
    ensures
        zone_singles(b, zone, n) == zone_singles(b, zone, k),
    decreases n - k,
{
    if k < n {
        assert(!has_single(b, zone, n - 1));
        lemma_zone_singles_rest(b, zone, k, n - 1);
    }
}

/// The entries of a zone are hidden singles of the board, for cells of
/// their own.
pub proof fn lemma_zone_singles(b: Board, zone: int, n: int)
    requires
        b.wf(),
        0 <= zone < 27,
        0 <= n <= 9,
    ensures
        zone_singles(b, zone, n).len() <= n,
        forall|i: int|
            0 <= i < zone_singles(b, zone, n).len() ==> b.hidden_single(
                #[trigger] zone_singles(b, zone, n)[i],
            ),
        forall|i: int|
            0 <= i < zone_singles(b, zone, n).len() ==> exists|k: int|
                0 <= k < n && (#[trigger] zone_singles(b, zone, n)[i]).cell == zone_cell(zone, k),
        distinct_cells(zone_singles(b, zone, n)),
    decreases n,
{
    if n > 0 {
        lemma_zone_singles(b, zone, n - 1);
        let rest = zone_singles(b, zone, n - 1);
        let all = zone_singles(b, zone, n);
        lemma_zone_cell(zone, n - 1);
        if has_single(b, zone, n - 1) {
            let d = single_digit(b, zone, n - 1);
            let e = all[all.len() - 1];
            assert(b.single_at(zone, n - 1, d));
            assert(b.holds_cand(zone, n - 1, d));
            assert(b.masks[zone_cell(zone, n - 1)].subset_of(all_digits()));
            assert(all_digits().contains(d));
            assert(e.wf());
            assert(b.single_at(zone, n - 1, e.num as int));
            assert(b.hidden_single(e));
        }
        assert forall|i: int| 0 <= i < all.len() implies b.hidden_single(#[trigger] all[i])
            && exists|k: int| 0 <= k < n && all[i].cell == zone_cell(zone, k) by {
            if i < rest.len() {
                assert(all[i] == rest[i]);
                let k = choose|k: int| 0 <= k < n - 1 && rest[i].cell == zone_cell(zone, k);
                assert(all[i].cell == zone_cell(zone, k));
            } else {
                assert(all[i].cell == zone_cell(zone, n - 1));
            }
        }
        assert forall|i: int, j: int| 0 <= i < j < all.len() implies (#[trigger] all[i]).cell != (
        #[trigger] all[j]).cell by {
            assert(all[i] == rest[i]);
            if j < rest.len() {
                assert(all[j] == rest[j]);
            } else {
                let k = choose|k: int| 0 <= k < n - 1 && rest[i].cell == zone_cell(zone, k);
                lemma_zone_cell(zone, k);
            }
        }
    }
}

/// There is one first zone that is not quiet.
pub proof fn lemma_first_loud(b: Board, zone: int, other: int)
    requires
        first_loud(b, zone),
        first_loud(b, other),
    ensures
        zone == other,
{
    if zone < other {
        assert(b.covered(zone) && b.no_single(zone));
    }
    if other < zone {
        assert(b.covered(other) && b.no_single(other));
    }
}

/// A zone on which the search fails is the first zone that is not quiet.
pub proof fn lemma_conflict_loud(b: Board, zone: int)
    requires
        0 <= zone < 27,
        quiet(b, zone),
        !b.covered(zone) || exists|k: int| 0 <= k < 9 && #[trigger] double_at(b, zone, k),
    ensures
        first_loud(b, zone),
{
    if b.covered(zone) {
        let k = choose|k: int| 0 <= k < 9 && #[trigger] double_at(b, zone, k);
        let (x, y) = choose|x: int, y: int|
            x != y && #[trigger] b.single_at(zone, k, x) && #[trigger] b.single_at(zone, k, y);
        assert(b.single_at(zone, k, x));
    }
}

/// A board with all zones quiet has no first zone that is not.
pub proof fn lemma_all_quiet(b: Board, zone: int)
    requires
        quiet(b, 27),
    ensures
        !first_loud(b, zone),
{
    if 0 <= zone < 27 {
        assert(b.covered(zone) && b.no_single(zone));
    }
}

/// The search through the cells of a zone begins.
pub proof fn lemma_resolve_start(b: Board, zone: int, all: Set<int>, before: Seq<Entry>)
    requires
        b.wf(),
        b.pruned(),
        0 <= zone < 27,
        quiet(b, zone),
        b.covered(zone),
        singles_of(b, zone, all),
        all != Set::<int>::empty(),
    ensures
        resolving(b, zone, 0, all, all, before, before),
{
    assert(before + zone_singles(b, zone, 0) =~= before);
    assert(exists|d: int| all.contains(d)) by {
        if forall|x: int| !all.contains(x) {
            assert(all =~= Set::<int>::empty());
        }
    }
    let d = choose|d: int| all.contains(d);
    let k = choose|k: int| 0 <= k < 9 && #[trigger] b.holds_cand(zone, k, d);
    assert(b.single_at(zone, k, d));
}

/// A cell that holds none of the hidden singles left has none.
pub proof fn lemma_resolve_none(
    b: Board,
    zone: int,
    k: int,
    all: Set<int>,
    left: Set<int>,
    before: Seq<Entry>,
    stack: Seq<Entry>,
)
    requires
        resolving(b, zone, k, all, left, before, stack),
        k < 9,
        b.masks[zone_cell(zone, k)].intersect(left) == Set::<int>::empty(),
    ensures
        resolving(b, zone, k + 1, all, left, before, stack),
{
    assert forall|d: int| !#[trigger] b.single_at(zone, k, d) by {
        if b.single_at(zone, k, d) {
            assert(all.contains(d));
            assert(left.contains(d));
            assert(b.holds_cand(zone, k, d));
            assert(b.masks[zone_cell(zone, k)].intersect(left).contains(d));
        }
    }
    assert(!has_single(b, zone, k));
    assert(!double_at(b, zone, k));
    assert forall|d: int| left.contains(d) implies (forall|j: int|
        0 <= j < k + 1 ==> !#[trigger] b.holds_cand(zone, j, d)) by {
        if b.holds_cand(zone, k, d) {
            assert(b.masks[zone_cell(zone, k)].intersect(left).contains(d));
        }
    }
}

/// A cell that holds two of the hidden singles left is the first that
/// would have to take two digits: the search fails there, and nothing is
/// admitted.
pub proof fn lemma_resolve_two(
    b: Board,
    zone: int,
    k: int,
    all: Set<int>,
    left: Set<int>,
    before: Seq<Entry>,
    stack: Seq<Entry>,
)
    requires
        resolving(b, zone, k, all, left, before, stack),
        k < 9,
        b.masks[zone_cell(zone, k)].intersect(left).finite(),
        b.masks[zone_cell(zone, k)].intersect(left).len() >= 2,
    ensures
        forall|g: Seq<u8>| !#[trigger] b.consistent(g),
        hidden_conflict(b),
        hidden_found(b, before, stack),
        singles_pushed(b, before, stack),
{
    let (d1, d2) = lemma_two_of(b.masks[zone_cell(zone, k)].intersect(left));
    assert(b.holds_cand(zone, k, d1));
    assert(b.holds_cand(zone, k, d2));
    assert(b.single_at(zone, k, d1));
    assert(b.single_at(zone, k, d2));
    assert(double_at(b, zone, k));
    assert(all_digits().contains(d1) && all_digits().contains(d2));
    assert forall|g: Seq<u8>| !#[trigger] b.consistent(g) by {
        if b.consistent(g) {
            lemma_hidden_single_forced(b, zone, k, d1, g);
            lemma_hidden_single_forced(b, zone, k, d2, g);
        }
    }
    lemma_first_double(b, zone, 0, k);
    assert(first_loud(b, zone));
    lemma_pushed(b, zone, k, before, stack);
}

/// Entries of a zone pushed after the pending ones are hidden singles
/// pushed.
pub proof fn lemma_pushed(b: Board, zone: int, n: int, before: Seq<Entry>, after: Seq<Entry>)
    requires
        b.wf(),
        0 <= zone < 27,
        0 <= n <= 9,
        after == before + zone_singles(b, zone, n),
    ensures
        singles_pushed(b, before, after),
        distinct_cells(after.skip(before.len() as int)),
{
    lemma_zone_singles(b, zone, n);
    let pushed = zone_singles(b, zone, n);
    assert(after.take(before.len() as int) =~= before);
    assert(after.skip(before.len() as int) =~= pushed);
    assert forall|i: int| before.len() <= i < after.len() implies b.hidden_single(
        #[trigger] after[i],
    ) by {
        assert(after[i] == pushed[i - before.len()]);
    }
}

/// A cell that holds one of the hidden singles left gets it as an entry.
/// With the last of them the zone is resolved.
pub proof fn lemma_resolve_push(
    b: Board,
    zone: int,
    k: int,
    all: Set<int>,
    left: Set<int>,
    before: Seq<Entry>,
    stack: Seq<Entry>,
    entry: Entry,
)
    requires
        resolving(b, zone, k, all, left, before, stack),
        k < 9,
        entry.cell == zone_cell(zone, k),
        b.masks[zone_cell(zone, k)].intersect(left) == set![entry.num as int],
    ensures
        left.difference(set![entry.num as int]) != Set::<int>::empty() ==> resolving(
            b,
            zone,
            k + 1,
            all,
            left.difference(set![entry.num as int]),
            before,
            stack.push(entry),
        ),
        left.difference(set![entry.num as int]) == Set::<int>::empty() ==> hidden_found(
            b,
            before,
            stack.push(entry),
        ) && !hidden_conflict(b) && singles_pushed(b, before, stack.push(entry)),
        stack.push(entry).len() > before.len(),
{
    let next = stack.push(entry);
    let rest = left.difference(set![entry.num as int]);
    let d = entry.num as int;
    let found = b.masks[zone_cell(zone, k)].intersect(left);
    lemma_zone_cell(zone, k);
    assert(found.contains(d));
    assert(b.holds_cand(zone, k, d));
    assert(b.single_at(zone, k, d));
    assert(all_digits().contains(d));
    assert(!double_at(b, zone, k)) by {
        if double_at(b, zone, k) {
            let (x, y) = choose|x: int, y: int|
                x != y && #[trigger] b.single_at(zone, k, x) && #[trigger] b.single_at(zone, k, y);
            assert(all.contains(x) && all.contains(y));
            assert(b.holds_cand(zone, k, x) && b.holds_cand(zone, k, y));
            assert(left.contains(x) && left.contains(y));
            assert(found.contains(x) && found.contains(y));
        }
    }
    lemma_single_digit(b, zone, k, d);
    assert(entry == Entry { cell: zone_cell(zone, k) as u8, num: single_digit(b, zone, k) as u8 });
    assert(next =~= before + zone_singles(b, zone, k + 1));
    assert forall|x: int| rest.contains(x) <==> all.contains(x) && forall|j: int|
        0 <= j < k + 1 ==> !#[trigger] b.holds_cand(zone, j, x) by {
        if rest.contains(x) {
            if b.holds_cand(zone, k, x) {
                assert(found.contains(x));
            }
        }
        if all.contains(x) && (forall|j: int|
            0 <= j < k + 1 ==> !#[trigger] b.holds_cand(zone, j, x)) {
            assert(left.contains(x));
            assert(!b.holds_cand(zone, k, x));
        }
    }
    if rest == Set::<int>::empty() {
        assert forall|j: int| k + 1 <= j < 9 implies !#[trigger] has_single(b, zone, j) by {
            if has_single(b, zone, j) {
                let x = single_digit(b, zone, j);
                assert(b.single_at(zone, j, x));
                assert(all.contains(x));
                assert(rest.contains(x));
            }
        }
        assert forall|j: int| 0 <= j < 9 implies !#[trigger] double_at(b, zone, j) by {
            if j > k && double_at(b, zone, j) {
                let (x, y) = choose|x: int, y: int|
                    x != y && #[trigger] b.single_at(zone, j, x) && #[trigger] b.single_at(
                        zone,
                        j,
                        y,
                    );
                assert(has_single(b, zone, j));
            }
        }
        lemma_zone_singles_rest(b, zone, k + 1, 9);
        lemma_first_double(b, zone, 0, 9);
        assert(first_loud(b, zone));
        lemma_pushed(b, zone, 9, before, next);
        assert forall|z: int|
            0 <= z < 27 && #[trigger] quiet(b, z) implies !(!b.covered(z) || exists|j: int|
            0 <= j < 9 && #[trigger] double_at(b, z, j)) by {
            if !b.covered(z) || exists|j: int| 0 <= j < 9 && #[trigger] double_at(b, z, j) {
                lemma_conflict_loud(b, z);
                lemma_first_loud(b, zone, z);
            }
        }
    }
}

/// Once `k` cells of the zone have been reached, no hidden single is left
/// whose cell is among them; so the search never gets to the end of a zone.
pub proof fn lemma_resolve_end(
    b: Board,
    zone: int,
    k: int,
    all: Set<int>,
    left: Set<int>,
    before: Seq<Entry>,
    stack: Seq<Entry>,
)
    requires
        resolving(b, zone, k, all, left, before, stack),
    ensures
        k < 9,
{
    assert(exists|d: int| left.contains(d)) by {
        if forall|x: int| !left.contains(x) {
            assert(left =~= Set::<int>::empty());
        }
    }
    let d = choose|d: int| left.contains(d);
    assert(all.contains(d));
    let j = choose|j: int| 0 <= j < 9 && #[trigger] b.holds_cand(zone, j, d);
    assert(b.holds_cand(zone, j, d));
}

/// A zone that has no place left for some digit, all zones before it
/// being quiet, makes the search fail with nothing pushed.
pub proof fn lemma_uncovered(b: Board, zone: int, before: Seq<Entry>)
    requires
        0 <= zone < 27,
        quiet(b, zone),
        !b.covered(zone),
    ensures
        hidden_conflict(b),
        hidden_found(b, before, before),
        singles_pushed(b, before, before),
{
    assert(first_loud(b, zone));
    assert(before + zone_singles(b, zone, 0) =~= before);
    assert(before.take(before.len() as int) =~= before);
    assert(before.skip(before.len() as int) =~= Seq::<Entry>::empty());
}

/// When all zones are quiet, the search ends with nothing pushed.
pub proof fn lemma_quiet(b: Board, before: Seq<Entry>)
    requires
        quiet(b, 27),
    ensures
        !hidden_conflict(b),
        hidden_found(b, before, before),
        singles_pushed(b, before, before),
{
    assert forall|z: int|
        0 <= z < 27 && #[trigger] quiet(b, z) implies !(!b.covered(z) || exists|j: int|
        0 <= j < 9 && #[trigger] double_at(b, z, j)) by {
        if !b.covered(z) || exists|j: int| 0 <= j < 9 && #[trigger] double_at(b, z, j) {
            lemma_conflict_loud(b, z);
            lemma_all_quiet(b, z);
        }
    }
    assert(before.take(before.len() as int) =~= before);
    assert(before.skip(before.len() as int) =~= Seq::<Entry>::empty());
}

} // verus!
