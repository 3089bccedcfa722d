//! Laws that relate the operations of the crate to each other.
//!
//! Each is a proof function: its `requires` and `ensures` state the law over
//! the same spec functions that the contracts of the operations use.

use vstd::prelude::*;
use vstd::set_lib::{lemma_int_range, lemma_len_subset, lemma_subset_equality, set_int_range};
use crate::rules::{
    completions, is_completion, is_grid, is_solution, lemma_conflict_no_completion,
    lemma_own_completion, lemma_solution_zones, zone_has_once, zones_complete,
};
use crate::search::grids;
use crate::sudoku::{found_list, only_completion, solvable, solved_up_to, Sudoku};
use crate::topology::{
    in_zone, lemma_sees_zone, lemma_zone_pos, lemma_zones_of_cell, row_zone_of, sees, zone_cell,
    zone_pos,
};

verus! {

/// The position at which digit `d` stands in `zone`.
spec fn place_of(g: Seq<u8>, zone: int, d: int) -> int {
    choose|k: int|
        0 <= k < 9 && #[trigger] g[zone_cell(zone, k)] == d && forall|j: int|
            0 <= j < 9 && j != k ==> #[trigger] g[zone_cell(zone, j)] != d
}

/// If every zone of a grid holds each digit exactly once, every cell holds
/// a digit: the nine digits of a row take nine different places, which are
/// all there are.
proof fn lemma_zones_filled(g: Seq<u8>, c: int)
    requires
        zones_complete(g),
        0 <= c < 81,
    ensures
        1 <= g[c] <= 9,
{
    let zone = row_zone_of(c);
    lemma_zones_of_cell(c);
    assert(in_zone(c, zone));
    lemma_zone_pos(c, zone);
    let at = zone_pos(c, zone);
    let places = Seq::new(9, |i: int| place_of(g, zone, i + 1));
    assert forall|i: int| 0 <= i < 9 implies 0 <= #[trigger] places[i] < 9 && g[zone_cell(
        zone,
        places[i],
    )] == i + 1 by {
        assert(zone_has_once(g, zone, i + 1));
    }
    assert forall|i: int, j: int| 0 <= i < 9 && 0 <= j < 9 && i != j implies places[i]
        != places[j] by {
        assert(g[zone_cell(zone, places[i])] == i + 1);
        assert(g[zone_cell(zone, places[j])] == j + 1);
    }
    assert(places.no_duplicates());
    places.unique_seq_to_set();
    let taken = places.to_set();
    lemma_int_range(0, 9);
    assert forall|k: int| taken.contains(k) implies set_int_range(0, 9).contains(k) by {
        let i = choose|i: int| 0 <= i < 9 && places[i] == k;
        assert(0 <= places[i] < 9);
    }
    lemma_len_subset(taken, set_int_range(0, 9));
    lemma_subset_equality(taken, set_int_range(0, 9));
    assert(taken.contains(at));
    let i = choose|i: int| 0 <= i < 9 && places[i] == at;
    assert(g[zone_cell(zone, places[i])] == i + 1);
}

/// A grid is a solution exactly when each of its rows, columns and boxes
/// holds every digit exactly once.
pub proof fn law_solution_iff_zones(g: Seq<u8>)
    requires
        g.len() == 81,
    ensures
        is_solution(g) <==> zones_complete(g),
{
    if is_solution(g) {
        lemma_solution_zones(g);
    }
    if zones_complete(g) {
        assert forall|c: int| 0 <= c < 81 implies 1 <= #[trigger] g[c] <= 9 by {
            lemma_zones_filled(g, c);
        }
        assert forall|a: int, b: int|
            0 <= a < 81 && 0 <= b < 81 && #[trigger] sees(a, b) && g[a] != 0 implies g[a]
            != g[b] by {
            if g[a] == g[b] {
                lemma_sees_zone(a, b);
                let zone = choose|z: int| 0 <= z < 27 && in_zone(a, z) && #[trigger] in_zone(b, z);
                lemma_zone_pos(a, zone);
                lemma_zone_pos(b, zone);
                let d = g[a] as int;
                assert(1 <= g[a] <= 9);
                assert(zone_has_once(g, zone, d));
                let k = place_of(g, zone, d);
                assert(g[zone_cell(zone, zone_pos(a, zone))] == d);
                assert(g[zone_cell(zone, zone_pos(b, zone))] == d);
                assert(zone_pos(a, zone) == k);
                assert(zone_pos(b, zone) == k);
            }
        }
    }
}

/// A complete, valid grid has one completion: itself. So every way of
/// solving it gives it back unchanged.
pub proof fn law_solved_grid_is_fixed(s: Seq<u8>)
    requires
        is_solution(s),
    ensures
        only_completion(s, s),
        solvable(s),
{
    assert(is_completion(s, s));
    assert forall|h: Seq<u8>| #[trigger] is_completion(h, s) implies h == s by {
        lemma_own_completion(s, h);
    }
}

/// A search with limit 0 returns nothing, whatever the grid.
pub proof fn law_limit_zero(clues: Seq<u8>, sols: Seq<Sudoku>)
    requires
        solved_up_to(clues, sols, 0),
    ensures
        sols.len() == 0,
{
}

/// A grid that holds one digit twice in a row, a column or a box has no
/// completion, so no search for completions finds any.
pub proof fn law_conflict_unsolvable(clues: Seq<u8>, a: int, b: int, sols: Seq<Sudoku>, limit: int)
    requires
        clues.len() == 81,
        0 <= a < 81,
        0 <= b < 81,
        sees(a, b),
        clues[a] != 0,
        clues[a] == clues[b],
        solved_up_to(clues, sols, limit),
    ensures
        !solvable(clues),
        sols.len() == 0,
        forall|g: Seq<u8>| !only_completion(g, clues),
{
    assert forall|g: Seq<u8>| !#[trigger] is_completion(g, clues) by {
        lemma_conflict_no_completion(clues, a, b, g);
    }
    if sols.len() > 0 {
        assert(is_completion(sols[0]@, clues));
    }
}

/// Two different cells of one row see each other.
pub proof fn law_same_row_sees(a: int, b: int)
    requires
        0 <= a < 81,
        0 <= b < 81,
        a != b,
        a / 9 == b / 9,
    ensures
        sees(a, b),
{
    crate::topology::lemma_coordinates(a);
    crate::topology::lemma_coordinates(b);
}

/// A grid that holds one digit twice in one row has no completion: every
/// way of solving it finds nothing, each time it is asked.
pub proof fn law_row_duplicate_unsolvable(
    clues: Seq<u8>,
    a: int,
    b: int,
    sols: Seq<Sudoku>,
    limit: int,
)
    requires
        clues.len() == 81,
        0 <= a < 81,
        0 <= b < 81,
        a != b,
        a / 9 == b / 9,
        clues[a] != 0,
        clues[a] == clues[b],
        solved_up_to(clues, sols, limit),
    ensures
        !solvable(clues),
        sols.len() == 0,
        forall|g: Seq<u8>| !only_completion(g, clues),
{
    law_same_row_sees(a, b);
    law_conflict_unsolvable(clues, a, b, sols, limit);
}

/// The grids of `n` cells that hold a digit in every cell.
spec fn filled_seqs(n: nat) -> Set<Seq<u8>> {
    Set::new(|g: Seq<u8>| g.len() == n && forall|c: int| 0 <= c < n ==> 1 <= #[trigger] g[c] <= 9)
}

/// The grids of `n + 1` cells that hold a digit in every cell and one of
/// the digits up to `top` in the last.
spec fn filled_upto_digit(n: nat, top: int) -> Set<Seq<u8>> {
    Set::new(|g: Seq<u8>| filled_seqs(n + 1).contains(g) && g.last() <= top)
}

/// For every number of cells there are finitely many ways to fill them.
proof fn lemma_filled_seqs_finite(n: nat)
    ensures
        filled_seqs(n).finite(),
    decreases n, 10int,
{
    if n == 0 {
        assert(filled_seqs(0) =~= set![Seq::<u8>::empty()]) by {
            assert forall|g: Seq<u8>| filled_seqs(0).contains(g) implies g
                == Seq::<u8>::empty() by {
                assert(g =~= Seq::<u8>::empty());
            }
        }
    } else {
        lemma_filled_upto_digit_finite((n - 1) as nat, 9);
        assert(filled_seqs(n) =~= filled_upto_digit((n - 1) as nat, 9));
    }
}

/// Finitely many ways to fill `n + 1` cells with the last cell limited.
proof fn lemma_filled_upto_digit_finite(n: nat, top: int)
    requires
        0 <= top <= 9,
    ensures
        filled_upto_digit(n, top).finite(),
    decreases n + 1, top,
{
    if top == 0 {
        assert(filled_upto_digit(n, 0) =~= Set::<Seq<u8>>::empty()) by {
            assert forall|g: Seq<u8>| !filled_upto_digit(n, 0).contains(g) by {
                if filled_upto_digit(n, 0).contains(g) {
                    assert(1 <= g[n as int] <= 9);
                }
            }
        }
    } else {
        lemma_filled_upto_digit_finite(n, top - 1);
        lemma_filled_seqs_finite(n);
        let push = |g: Seq<u8>| g.push(top as u8);
        filled_seqs(n).lemma_map_finite(push);
        let with_top = filled_seqs(n).map(push);
        let below = filled_upto_digit(n, top - 1);
        assert(filled_upto_digit(n, top) =~= below.union(with_top)) by {
            assert forall|g: Seq<u8>| filled_upto_digit(n, top).contains(g) implies below.union(
                with_top,
            ).contains(g) by {
                if g.last() == top {
                    let front = g.drop_last();
                    assert(filled_seqs(n).contains(front)) by {
                        assert forall|c: int| 0 <= c < n implies 1 <= #[trigger] front[c] <= 9 by {
                            assert(front[c] == g[c]);
                        }
                    }
                    assert(push(front) =~= g);
                    assert(with_top.contains(g));
                } else {
                    assert(below.contains(g));
                }
            }
            assert forall|g: Seq<u8>| below.union(with_top).contains(
                g,
            ) implies filled_upto_digit(n, top).contains(g) by {
                if with_top.contains(g) {
                    let front = choose|front: Seq<u8>|
                        filled_seqs(n).contains(front) && g == push(front);
                    assert forall|c: int| 0 <= c < n + 1 implies 1 <= #[trigger] g[c] <= 9 by {
                        if c < n {
                            assert(g[c] == front[c]);
                        }
                    }
                }
            }
        }
    }
}

/// A grid has finitely many completions.
pub proof fn law_completions_finite(clues: Seq<u8>)
    ensures
        completions(clues).finite(),
{
    lemma_filled_seqs_finite(81);
    assert(completions(clues).subset_of(filled_seqs(81)));
    vstd::set_lib::lemma_set_subset_finite(filled_seqs(81), completions(clues));
}

/// A search with limit `limit` never returns more than `limit` solutions;
/// it returns as many as there are when those are fewer than the limit,
/// and `limit` of them otherwise.
pub proof fn law_counting(clues: Seq<u8>, sols: Seq<Sudoku>, limit: int)
    requires
        solved_up_to(clues, sols, limit),
    ensures
        completions(clues).finite(),
        sols.len() <= limit,
        sols.len() <= completions(clues).len(),
        completions(clues).len() < limit ==> sols.len() == completions(clues).len(),
        completions(clues).len() >= limit ==> sols.len() == limit,
{
    law_completions_finite(clues);
    let all = completions(clues);
    let grids = Seq::new(sols.len(), |i: int| sols[i]@);
    assert(grids.no_duplicates());
    grids.unique_seq_to_set();
    let got = grids.to_set();
    assert forall|g: Seq<u8>| got.contains(g) implies all.contains(g) by {
        let i = choose|i: int| 0 <= i < grids.len() && grids[i] == g;
        assert(is_completion(sols[i]@, clues));
    }
    lemma_len_subset(got, all);
    if sols.len() < limit {
        assert forall|g: Seq<u8>| all.contains(g) implies got.contains(g) by {
            assert(is_completion(g, clues));
            let i = choose|i: int| 0 <= i < sols.len() && (#[trigger] sols[i])@ == g;
            assert(grids[i] == g);
        }
        assert(got =~= all);
    }
}

/// Two searches for the completions of one grid with one limit return the
/// same grids in the same order.
pub proof fn law_search_repeats(clues: Seq<u8>, limit: int, first: Seq<Sudoku>, second: Seq<Sudoku>)
    requires
        grids(first) == found_list(clues, limit),
        grids(second) == found_list(clues, limit),
    ensures
        first.len() == second.len(),
        forall|i: int| 0 <= i < first.len() ==> (#[trigger] first[i])@ == second[i]@,
{
    assert(grids(first).len() == first.len());
    assert(grids(second).len() == second.len());
    assert forall|i: int| 0 <= i < first.len() implies (#[trigger] first[i])@ == second[i]@ by {
        assert(grids(first)[i] == first[i]@);
        assert(grids(second)[i] == second[i]@);
    }
}

/// A grid given as bytes and taken back as bytes is unchanged.
pub proof fn law_bytes_round_trip(bytes: [u8; 81])
    requires
        is_grid(bytes@),
    ensures
        Sudoku::from_bytes_spec(bytes) is Ok,
        Sudoku::from_bytes_spec(bytes)->Ok_0.to_bytes_spec() == bytes,
{
}

} // verus!
