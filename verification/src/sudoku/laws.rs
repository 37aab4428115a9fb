//! What holds of the grid, of its candidates and of the three searches taken
//! together, stated over the model and proved.

use super::candidates::{
    consistent, fillable, first_filling, first_visited, fixed, is_filling,
    lemma_filling_is_solution, lemma_fixed_board, lemma_fixed_consistent, lemma_lowered_lifted,
    lemma_next_cell_fixed, lemma_pruned_idempotent, lifted, lowered, marks_wf, next_cell,
    open_digits, pruned, taken, visits_before, CellState, Marks,
};
use super::rules::{
    before, blanks, box_side, conflict, first_solution, inside, is_solution,
    lemma_put_well_formed, lemma_valid_below, precedes, precedes_at, put, same_unit, solvable,
    solved, square, valid, well_formed, Board,
};
use vstd::prelude::*;

verus! {

/// Turning a grid into a grid with candidates and back gives the grid again:
/// a digit becomes a decided cell and that digit again, an empty cell
/// becomes an undecided cell and an empty cell again.
pub proof fn lemma_round_trip(g: Board)
    requires
        square(g),
    ensures
        lowered(lifted(g)) == g,
{
    lemma_lowered_lifted(g);
}

/// The plain search and the two searches over candidates agree on whether a
/// grid can be completed: the grid has a solution exactly when it has a
/// filling. This holds of every grid but one that is not valid and still has
/// a filling, such as a grid without an empty cell that holds a digit twice
/// in a row: the searches over candidates do not look at the digits they are
/// given.
pub proof fn lemma_strategies_agree(g: Board)
    requires
        well_formed(g),
        valid(g) || !fillable(g),
    ensures
        solvable(g) <==> fillable(g),
{
    if valid(g) {
        if solvable(g) {
            let s = choose|s: Board| is_solution(g, s);
            lemma_filling_is_solution(g, s);
        }
        if fillable(g) {
            let s = choose|s: Board| is_filling(g, s);
            lemma_filling_is_solution(g, s);
        }
    } else {
        lemma_invalid_has_no_solution(g);
    }
}

/// On a valid grid the three searches return solved grids, and the plain
/// search and the search over candidates in reading order return the same
/// grid: every filling is a solution and solved, and the first filling is
/// the first solution.
pub proof fn lemma_results_are_solved(g: Board)
    requires
        well_formed(g),
        valid(g),
    ensures
        forall|s: Board| is_filling(g, s) <==> is_solution(g, s),
        forall|s: Board| is_filling(g, s) ==> solved(s),
        forall|s: Board| first_filling(g, s) <==> first_solution(g, s),
{
    assert forall|s: Board| is_filling(g, s) <==> is_solution(g, s) by {
        lemma_filling_is_solution(g, s);
    }
}

/// A grid that is not valid has no solution, so the plain search fails on
/// it.
pub proof fn lemma_invalid_has_no_solution(g: Board)
    requires
        well_formed(g),
        !valid(g),
    ensures
        !solvable(g),
{
    assert forall|s: Board| !is_solution(g, s) by {
        if is_solution(g, s) {
            lemma_valid_below(g, s);
        }
    }
}

/// Writing into an empty cell of a valid grid a digit that its row, column
/// and box leave open gives a valid grid.
pub proof fn lemma_open_digit_keeps_valid(g: Board, r: int, c: int, d: u8)
    requires
        well_formed(g),
        valid(g),
        inside(g, r, c),
        g[r][c] is None,
        open_digits(g, r, c).contains(d),
    ensures
        valid(put(g, r, c, Some(d))),
{
    let h = put(g, r, c, Some(d));
    let k = box_side(g.len() as int);
    lemma_put_well_formed(g, r, c, Some(d));
    assert forall|r1: int, c1: int, r2: int, c2: int| !#[trigger] conflict(h, r1, c1, r2, c2) by {
        if conflict(h, r1, c1, r2, c2) {
            if r1 == r && c1 == c {
                assert(h[r2][c2] == g[r2][c2]);
                assert(same_unit(k, r, c, r2, c2));
                assert(taken(g, r, c, d));
            } else if r2 == r && c2 == c {
                assert(h[r1][c1] == g[r1][c1]);
                assert(same_unit(k, r, c, r1, c1));
                assert(taken(g, r, c, d));
            } else {
                assert(h[r1][c1] == g[r1][c1]);
                assert(h[r2][c2] == g[r2][c2]);
                assert(conflict(g, r1, c1, r2, c2));
            }
        }
    }
}

/// The grids that the searches over candidates produce stay valid: deciding
/// an undecided cell as one of its candidates keeps the board valid and the
/// candidate sets exact.
pub proof fn lemma_fix_keeps_valid(a: Marks, r: int, c: int, d: u8)
    requires
        marks_wf(a),
        consistent(a),
        valid(lowered(a)),
        inside(lowered(a), r, c),
        a[r][c] matches CellState::Possible(s) && s.contains(d),
    ensures
        marks_wf(fixed(a, r, c, d)),
        consistent(fixed(a, r, c, d)),
        valid(lowered(fixed(a, r, c, d))),
{
    assert(lowered(a)[r].len() == a.len());
    lemma_fixed_board(a, r, c, d);
    lemma_fixed_consistent(a, r, c, d);
    lemma_open_digit_keeps_valid(lowered(a), r, c, d);
}

/// Pruning a second time changes nothing.
pub proof fn lemma_prune_twice(a: Marks)
    requires
        marks_wf(a),
    ensures
        pruned(pruned(a)) == pruned(a),
{
    lemma_pruned_idempotent(a);
}

/// Of two boards at most one comes before the other in reading order.
pub proof fn lemma_precedes_one_way(s: Board, t: Board)
    requires
        s.len() == t.len(),
        precedes(s, t),
    ensures
        !precedes(t, s),
        s != t,
{
    let (r1, c1) = choose|r: int, c: int| precedes_at(s, t, r, c);
    if precedes(t, s) {
        let (r2, c2) = choose|r: int, c: int| precedes_at(t, s, r, c);
        if before(r1, c1, r2, c2) {
            assert(t[r1][c1] == s[r1][c1]);
        } else if before(r2, c2, r1, c1) {
            assert(s[r2][c2] == t[r2][c2]);
        }
    }
}

/// A grid has at most one first solution: the contract of the plain search
/// leaves no choice of the grid it returns.
pub proof fn lemma_first_solution_unique(g: Board, s: Board, t: Board)
    requires
        first_solution(g, s),
        first_solution(g, t),
    ensures
        s == t,
{
    if s != t {
        assert(is_solution(g, t));
        assert(is_solution(g, s));
        lemma_precedes_one_way(s, t);
    }
}

/// A grid has at most one first filling: the contract of the search over
/// candidates in reading order leaves no choice of the grid it returns.
pub proof fn lemma_first_filling_unique(g: Board, s: Board, t: Board)
    requires
        first_filling(g, s),
        first_filling(g, t),
    ensures
        s == t,
{
    if s != t {
        assert(is_filling(g, t));
        assert(is_filling(g, s));
        lemma_precedes_one_way(s, t);
    }
}

/// A search by fewest candidates comes to at most one of two boards before
/// the other, and never to a board before itself.
pub proof fn lemma_visits_one_way(a: Marks, s: Board, t: Board)
    requires
        visits_before(a, s, t),
    ensures
        !visits_before(a, t, s),
        s != t,
    decreases blanks(lowered(a)),
{
    let (r, c) = next_cell(a).unwrap();
    if s[r][c] == t[r][c] {
        lemma_next_cell_fixed(a, s[r][c].unwrap());
        lemma_visits_one_way(fixed(a, r, c, s[r][c].unwrap()), s, t);
    }
}

/// A grid with candidates has at most one filling that a search by fewest
/// candidates comes to first: the contract of that search leaves no choice of
/// the grid it returns.
pub proof fn lemma_first_visited_unique(a: Marks, s: Board, t: Board)
    requires
        first_visited(a, s),
        first_visited(a, t),
    ensures
        s == t,
{
    if s != t {
        assert(is_filling(lowered(a), t));
        assert(is_filling(lowered(a), s));
        lemma_visits_one_way(a, s, t);
    }
}

/// A grid with exactly one solution: the three searches return that
/// solution.
pub proof fn lemma_one_solution(g: Board, only: Board, a: Marks, s: Board)
    requires
        well_formed(g),
        valid(g),
        is_solution(g, only),
        forall|t: Board| is_solution(g, t) ==> t == only,
        lowered(a) == g,
        first_solution(g, s) || first_filling(g, s) || first_visited(a, s),
    ensures
        s == only,
{
    lemma_filling_is_solution(g, s);
}

} // verus!
