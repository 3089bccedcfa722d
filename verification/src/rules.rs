//! What a solved grid is, stated over plain sequences of 81 bytes.
//!
//! A grid holds 0 for an empty cell and 1..=9 for a digit. These definitions
//! are the vocabulary of every contract in the crate.

use vstd::prelude::*;
use vstd::set_lib::*;
use crate::mask::{all_digits, lemma_digit_set_finite};
use crate::topology::{
    in_zone, lemma_pattern, lemma_sees_zone, lemma_zone_cell, pattern, sees, zone_cell,
};

verus! {

/// 81 cells, each empty or a digit.
pub open spec fn is_grid(g: Seq<u8>) -> bool {
    g.len() == 81 && forall|c: int| 0 <= c < 81 ==> #[trigger] g[c] <= 9
}

/// 81 cells, each a digit.
pub open spec fn is_filled(g: Seq<u8>) -> bool {
    g.len() == 81 && forall|c: int| 0 <= c < 81 ==> 1 <= #[trigger] g[c] <= 9
}

/// No digit stands twice in a row, a column or a box.
pub open spec fn no_conflict(g: Seq<u8>) -> bool {
    forall|a: int, b: int|
        0 <= a < 81 && 0 <= b < 81 && #[trigger] sees(a, b) && g[a] != 0 ==> g[a] != g[b]
}

/// A complete grid without a conflict.
pub open spec fn is_solution(g: Seq<u8>) -> bool {
    is_filled(g) && no_conflict(g)
}

/// `g` keeps every digit that `clues` gives.
pub open spec fn extends(g: Seq<u8>, clues: Seq<u8>) -> bool {
    g.len() == clues.len() && forall|c: int|
        0 <= c < clues.len() && #[trigger] clues[c] != 0 ==> g[c] == clues[c]
}

/// `g` is a solution that keeps the clues.
pub open spec fn is_completion(g: Seq<u8>, clues: Seq<u8>) -> bool {
    is_solution(g) && extends(g, clues)
}

/// All solutions that keep the clues.
pub open spec fn completions(clues: Seq<u8>) -> Set<Seq<u8>> {
    Set::new(|g: Seq<u8>| is_completion(g, clues))
}

/// Digit `d` stands in exactly one of the nine cells of `zone`.
pub open spec fn zone_has_once(g: Seq<u8>, zone: int, d: int) -> bool {
    exists|k: int|
        0 <= k < 9 && #[trigger] g[zone_cell(zone, k)] == d && forall|j: int|
            0 <= j < 9 && j != k ==> #[trigger] g[zone_cell(zone, j)] != d
}

/// Every row, column and box holds each of the nine digits exactly once.
pub open spec fn zones_complete(g: Seq<u8>) -> bool {
    g.len() == 81 && forall|zone: int, d: int|
        0 <= zone < 27 && 1 <= d <= 9 ==> #[trigger] zone_has_once(g, zone, d)
}

/// Number of cells among the first `n` that hold a digit.
pub open spec fn filled_upto(g: Seq<u8>, n: int) -> int
    decreases n,
{
    if n <= 0 {
        0
    } else {
        filled_upto(g, n - 1) + if g[n - 1] != 0 {
            1int
        } else {
            0int
        }
    }
}

/// Number of clues of a grid.
pub open spec fn n_clues(g: Seq<u8>) -> int {
    filled_upto(g, 81)
}

/// The digits that occur among the first `n` cells.
pub open spec fn digits_upto(g: Seq<u8>, n: int) -> Set<int> {
    Set::new(|d: int| 1 <= d <= 9 && exists|c: int| 0 <= c < n && #[trigger] g[c] == d)
}

/// The digits that occur in a grid.
pub open spec fn digits_used(g: Seq<u8>) -> Set<int> {
    digits_upto(g, 81)
}

/// The digits among the first `n + 1` cells are those among the first `n`
/// and the digit of cell `n`, if it holds one.
pub proof fn lemma_digits_step(g: Seq<u8>, n: int)
    requires
        0 <= n,
    ensures
        digits_upto(g, n + 1) == if 1 <= g[n] <= 9 {
            digits_upto(g, n).insert(g[n] as int)
        } else {
            digits_upto(g, n)
        },
        digits_upto(g, 0) == Set::<int>::empty(),
{
    let next = digits_upto(g, n + 1);
    let prev = digits_upto(g, n);
    let want = if 1 <= g[n] <= 9 {
        prev.insert(g[n] as int)
    } else {
        prev
    };
    assert forall|d: int| next.contains(d) <==> want.contains(d) by {
        if next.contains(d) {
            let c = choose|c: int| 0 <= c < n + 1 && #[trigger] g[c] == d;
            if c < n {
                assert(prev.contains(d));
            }
        }
        if prev.contains(d) {
            let c = choose|c: int| 0 <= c < n && #[trigger] g[c] == d;
            assert(g[c] == d);
        }
        if 1 <= g[n] <= 9 && d == g[n] {
            assert(g[n] == d);
        }
    }
    assert(next =~= want);
    assert(digits_upto(g, 0) =~= Set::<int>::empty());
}

/// The count of filled cells lies between nothing and the cells counted.
pub proof fn lemma_filled_bounds(g: Seq<u8>, n: int)
    requires
        0 <= n,
    ensures
        0 <= filled_upto(g, n) <= n,
        filled_upto(g, n) == n <==> forall|c: int| 0 <= c < n ==> #[trigger] g[c] != 0,
        filled_upto(g, n) == 0 <==> forall|c: int| 0 <= c < n ==> #[trigger] g[c] == 0,
    decreases n,
{
    if n > 0 {
        lemma_filled_bounds(g, n - 1);
    }
}

/// Filling one empty cell raises the count by one; nothing else changes it.
pub proof fn lemma_filled_update(g: Seq<u8>, n: int, cell: int, v: u8)
    requires
        0 <= n <= g.len(),
        0 <= cell < g.len(),
        g[cell] == 0,
        v != 0,
    ensures
        filled_upto(g.update(cell, v), n) == filled_upto(g, n) + if cell < n {
            1int
        } else {
            0int
        },
    decreases n,
{
    if n > 0 {
        lemma_filled_update(g, n - 1, cell, v);
    }
}

/// Two different positions of a zone are two cells that see each other.
pub proof fn lemma_zone_cells_see(zone: int, j: int, k: int)
    requires
        0 <= zone < 27,
        0 <= j < 9,
        0 <= k < 9,
        j != k,
    ensures
        sees(zone_cell(zone, j), zone_cell(zone, k)),
{
    lemma_zone_cell(zone, j);
    lemma_zone_cell(zone, k);
    lemma_sees_zone(zone_cell(zone, j), zone_cell(zone, k));
    assert(in_zone(zone_cell(zone, k), zone));
}

/// In a solution every zone holds every digit: nine different digits fill
/// nine cells. Returns the position of `d` in `zone`.
pub proof fn lemma_zone_has_digit(g: Seq<u8>, zone: int, d: int) -> (k: int)
    requires
        is_solution(g),
        0 <= zone < 27,
        1 <= d <= 9,
    ensures
        0 <= k < 9,
        g[zone_cell(zone, k)] == d,
{
    let vals = Seq::new(9, |k: int| g[zone_cell(zone, k)] as int);
    assert forall|i: int, j: int| 0 <= i < 9 && 0 <= j < 9 && i != j implies vals[i] != vals[j] by {
        lemma_zone_cell(zone, i);
        lemma_zone_cell(zone, j);
        lemma_zone_cells_see(zone, i, j);
    }
    assert(vals.no_duplicates());
    vals.unique_seq_to_set();
    let held = vals.to_set();
    assert forall|x: int| held.contains(x) implies all_digits().contains(x) by {
        let i = choose|i: int| 0 <= i < 9 && vals[i] == x;
        lemma_zone_cell(zone, i);
    }
    lemma_int_range(1, 10);
    assert(all_digits() =~= set_int_range(1, 10));
    lemma_digit_set_finite(held);
    lemma_subset_equality(held, all_digits());
    assert(held.contains(d));
    let k = choose|k: int| 0 <= k < 9 && vals[k] == d;
    k
}

/// A solution holds each digit exactly once in every row, column and box.
pub proof fn lemma_solution_zones(g: Seq<u8>)
    requires
        is_solution(g),
    ensures
        zones_complete(g),
{
    assert forall|zone: int, d: int| 0 <= zone < 27 && 1 <= d <= 9 implies #[trigger] zone_has_once(
        g,
        zone,
        d,
    ) by {
        let k = lemma_zone_has_digit(g, zone, d);
        assert forall|j: int| 0 <= j < 9 && j != k implies #[trigger] g[zone_cell(zone, j)]
            != d by {
            lemma_zone_cell(zone, j);
            lemma_zone_cell(zone, k);
            lemma_zone_cells_see(zone, k, j);
        }
    }
}

/// A complete grid has itself as its only completion.
pub proof fn lemma_own_completion(s: Seq<u8>, g: Seq<u8>)
    requires
        is_filled(s),
        is_completion(g, s),
    ensures
        g == s,
{
    assert forall|c: int| 0 <= c < 81 implies g[c] == s[c] by {
        assert(s[c] != 0);
    }
    assert(g =~= s);
}

/// A grid that holds one digit in two cells of a row, a column or a box
/// has no completion.
pub proof fn lemma_conflict_no_completion(s: Seq<u8>, a: int, b: int, g: Seq<u8>)
    requires
        0 <= a < 81,
        0 <= b < 81,
        sees(a, b),
        s.len() == 81,
        s[a] != 0,
        s[a] == s[b],
    ensures
        !is_completion(g, s),
{
    if is_completion(g, s) {
        assert(s[a] != 0 && s[b] != 0);
        assert(g[a] == s[a] && g[b] == s[b]);
    }
}

/// Nine different digits in the first row can be completed to a solution:
/// the grid that repeats them by the shifting pattern is one.
pub proof fn lemma_first_row_solvable(perm: Seq<u8>) -> (g: Seq<u8>)
    requires
        perm.len() == 9,
        forall|k: int| 0 <= k < 9 ==> 1 <= #[trigger] perm[k] <= 9,
        perm.no_duplicates(),
    ensures
        is_solution(g),
        forall|k: int| 0 <= k < 9 ==> g[k] == perm[k],
{
    let g = Seq::new(81, |c: int| perm[pattern(c)]);
    assert forall|c: int| 0 <= c < 81 implies 1 <= #[trigger] g[c] <= 9 by {
        lemma_pattern(c, c);
    }
    assert forall|a: int, b: int|
        0 <= a < 81 && 0 <= b < 81 && #[trigger] sees(a, b) && g[a] != 0 implies g[a] != g[b] by {
        lemma_pattern(a, b);
        lemma_pattern(b, a);
    }
    assert forall|k: int| 0 <= k < 9 implies g[k] == perm[k] by {
        lemma_pattern(k, k);
    }
    g
}

/// A rearrangement of the digits 1 to 9 holds nine different digits.
pub proof fn lemma_rearranged_digits(before: Seq<u8>, after: Seq<u8>)
    requires
        before == seq![1u8, 2u8, 3u8, 4u8, 5u8, 6u8, 7u8, 8u8, 9u8],
        after.to_multiset() == before.to_multiset(),
    ensures
        after.len() == 9,
        forall|k: int| 0 <= k < 9 ==> 1 <= #[trigger] after[k] <= 9,
        after.no_duplicates(),
{
    before.to_multiset_ensures();
    after.to_multiset_ensures();
    assert(before.no_duplicates());
    before.lemma_multiset_has_no_duplicates();
    after.lemma_multiset_has_no_duplicates_conv();
    assert forall|k: int| 0 <= k < 9 implies 1 <= #[trigger] after[k] <= 9 by {
        assert(after.contains(after[k]));
        assert(after.to_multiset().count(after[k]) > 0);
        assert(before.to_multiset().count(after[k]) > 0);
        assert(before.contains(after[k]));
        let i = choose|i: int| 0 <= i < before.len() && before[i] == after[k];
        assert(1 <= before[i] <= 9);
    }
}

} // verus!
