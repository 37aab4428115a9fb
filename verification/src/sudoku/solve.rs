//! The three search strategies.

use super::augmented::AugmentedSudoku;
use super::candidates;
use super::rules;
use super::rules::Board;
use super::{Sudoku, SudokuValue};
use std::ops::ControlFlow;
use vstd::prelude::*;

verus! {

/// What a search hands back: the completed grid, or the grid it gave up on.
pub type SudokuResult = Result<Sudoku, Sudoku>;

/// Plain backtracking. Fills the first empty cell in reading order with each
/// digit in turn, keeps a digit only if the whole grid stays valid, and
/// descends.
///
/// Returns `Ok` exactly when `sudoku` has a solution, with the solution that
/// comes first when solutions are read row by row; otherwise `Err` with the
/// grid as it was given. A grid that is not valid has no solution.
pub fn naive_dfs(sudoku: Sudoku) -> (result: SudokuResult)
    requires
        sudoku.wf(),
    ensures
        match result {
            Ok(done) => done.wf() && rules::first_solution(sudoku@, done@),
            Err(left) => left.wf() && left@ == sudoku@ && !rules::solvable(sudoku@),
        },
        rules::solved(sudoku@) ==> (result matches Ok(done) && done@ == sudoku@),
        candidates::dead_end(sudoku@) ==> result is Err,
    decreases rules::blanks(sudoku@),
{
    let ghost start = sudoku@;
    let mut grid = sudoku;
    proof {
        if candidates::dead_end(start) {
            candidates::lemma_dead_end(start);
        }
    }
    let order = grid.order();
    let (r, c) = match grid.first_empty() {
        Some(at) => at,
        None => {
            if grid.solved() {
                proof {
                    rules::lemma_filled_completes_itself(start);
                    assert forall|t: Board| #[trigger] rules::is_solution(start, t) implies t
                        == start by {
                        rules::lemma_completes_filled(start, t);
                    }
                }
                return Ok(grid);
            } else {
                proof {
                    assert forall|s: Board| !rules::is_solution(start, s) by {
                        if rules::is_solution(start, s) {
                            rules::lemma_completes_filled(start, s);
                        }
                    }
                }
                return Err(grid);
            }
        },
    };
    proof {
        super::lemma_order_bounds(order as int);
        assert(start =~~= rules::put(start, r as int, c as int, start[r as int][c as int]));
    }
    let mut value: u8 = 1;
    while value as usize <= order
        invariant
            rules::well_formed(start),
            grid.wf(),
            start == sudoku@,
            candidates::dead_end(start) ==> !rules::solvable(start),
            order == start.len(),
            order <= 225,
            rules::inside(start, r as int, c as int),
            start[r as int][c as int] is None,
            forall|i: int, j: int|
                rules::inside(start, i, j) && rules::before(i, j, r as int, c as int) ==> (
                #[trigger] start[i][j]) is Some,
            grid@ == rules::put(start, r as int, c as int, grid@[r as int][c as int]),
            1 <= value <= order + 1,
            forall|d: u8|
                1 <= d < value ==> !#[trigger] rules::solvable_with(start, r as int, c as int, d),
        decreases order + 1 - value,
    {
        let ghost trial = rules::put(start, r as int, c as int, Some(value));
        grid.set(r, c, SudokuValue(Some(value)));
        proof {
            rules::lemma_put_well_formed(start, r as int, c as int, Some(value));
            assert(grid@ =~~= trial);
            rules::lemma_blanks_fill(start, r as int, c as int, Some(value));
        }
        if grid.valid() {
            match naive_dfs(grid) {
                Ok(done) => {
                    proof {
                        rules::lemma_solution_of_less(start, r as int, c as int, value, done@);
                        assert(rules::solvable(start));
                        assert forall|t: Board| #[trigger] rules::is_solution(start, t) implies t
                            == done@ || rules::precedes(done@, t) by {
                            rules::lemma_solution_of_more(start, r as int, c as int, t);
                            let d = t[r as int][c as int].unwrap();
                            assert(rules::solvable_with(start, r as int, c as int, d));
                            if d == value {
                                assert(rules::is_solution(trial, t));
                            } else {
                                rules::lemma_precedes_at_first_empty(
                                    start,
                                    r as int,
                                    c as int,
                                    done@,
                                    t,
                                );
                            }
                        }
                    }
                    return Ok(done);
                },
                Err(left) => {
                    grid = left;
                },
            }
        }
        proof {
            if rules::solvable_with(start, r as int, c as int, value) {
                let s = choose|s: Board| #[trigger]
                    rules::is_solution(start, s) && s[r as int][c as int] == Some(value);
                rules::lemma_solution_of_more(start, r as int, c as int, s);
                assert(rules::is_solution(trial, s));
                rules::lemma_valid_below(trial, s);
                assert(false);
            }
            assert(grid@ =~~= rules::put(start, r as int, c as int, grid@[r as int][c as int]));
        }
        value += 1;
    }
    grid.set(r, c, SudokuValue(None));
    proof {
        assert(grid@ =~~= start);
        assert forall|s: Board| !rules::is_solution(start, s) by {
            if rules::is_solution(start, s) {
                let d = s[r as int][c as int].unwrap();
                assert(rules::is_digit(s[r as int][c as int], start.len() as int));
                assert(rules::solvable_with(start, r as int, c as int, d));
            }
        }
    }
    Err(grid)
}

/// Backtracking over candidates. Strikes the given digits from the
/// candidates of their peers once, then decides the first undecided cell in
/// reading order as each of its candidates in ascending order, and descends.
///
/// A filling completes the grid so that every digit it adds differs from all
/// digits in the row, the column and the box of its cell; the digits that
/// were given are not looked at. On a valid grid the fillings are the
/// solutions.
///
/// Returns `Ok` exactly when `sudoku` has a filling, with the filling that
/// comes first when fillings are read row by row; otherwise `Err` with the
/// grid as it was given.
pub fn dfs(sudoku: Sudoku) -> (result: SudokuResult)
    requires
        sudoku.wf(),
    ensures
        match result {
            Ok(done) => done.wf() && candidates::first_filling(sudoku@, done@),
            Err(left) => left.wf() && left@ == sudoku@ && !candidates::fillable(sudoku@),
        },
        rules::filled(sudoku@) ==> (result matches Ok(done) && done@ == sudoku@),
        candidates::dead_end(sudoku@) ==> result is Err,
{
    proof {
        if candidates::dead_end(sudoku@) {
            candidates::lemma_dead_end(sudoku@);
        }
        if rules::filled(sudoku@) {
            candidates::lemma_filled_one_filling(sudoku@);
        }
    }
    let given = sudoku.clone();
    let mut augmented = AugmentedSudoku::from(sudoku);
    augmented.prune_possible();
    proof {
        candidates::lemma_pruned_lifted_consistent(sudoku@);
    }
    match dfs_impl(augmented) {
        ControlFlow::Continue(_) => Err(given),
        ControlFlow::Break(solved) => Ok(solved),
    }
}

/// The search of `dfs` from a grid with candidates: breaks exactly when its
/// board has a filling, with the first one in reading order.
fn dfs_impl(sudoku: AugmentedSudoku) -> (flow: ControlFlow<Sudoku, ()>)
    requires
        sudoku.wf(),
        candidates::consistent(sudoku@),
    ensures
        match flow {
            ControlFlow::Break(done) => done.wf() && candidates::first_filling(
                candidates::lowered(sudoku@),
                done@,
            ),
            ControlFlow::Continue(_) => !candidates::fillable(candidates::lowered(sudoku@)),
        },
    decreases rules::blanks(candidates::lowered(sudoku@)),
{
    let ghost a = sudoku@;
    let ghost g = candidates::lowered(a);
    proof {
        sudoku.lemma_wf();
    }
    let (r, c) = match sudoku.first_possible() {
        Some(at) => at,
        None => {
            proof {
                candidates::lemma_filled_one_filling(g);
            }
            return ControlFlow::Break(Sudoku::from(sudoku));
        },
    };
    proof {
        assert forall|i: int, j: int|
            rules::inside(g, i, j) && rules::before(i, j, r as int, c as int) implies (
        #[trigger] g[i][j]) is Some by {
            assert(g[i].len() == g.len());
            assert(a[i][j] is Fixed);
        }
    }
    let order = sudoku.order();
    proof {
        assert(g[r as int].len() == g.len());
    }
    let mut value: u8 = 1;
    while value as usize <= order
        invariant
            sudoku.wf(),
            a == sudoku@,
            g == candidates::lowered(a),
            rules::well_formed(g),
            candidates::marks_wf(a),
            candidates::consistent(a),
            order == g.len(),
            order <= 225,
            rules::inside(g, r as int, c as int),
            a[r as int][c as int] is Possible,
            g[r as int][c as int] is None,
            forall|i: int, j: int|
                rules::inside(g, i, j) && rules::before(i, j, r as int, c as int) ==> (
                #[trigger] g[i][j]) is Some,
            1 <= value <= order + 1,
            forall|d: u8|
                1 <= d < value ==> !#[trigger] candidates::fillable_with(g, r as int, c as int, d),
        decreases order + 1 - value,
    {
        if sudoku.allows(r, c, value) {
            proof {
                candidates::lemma_fixed_consistent(a, r as int, c as int, value);
                rules::lemma_blanks_fill(g, r as int, c as int, Some(value));
            }
            match dfs_impl(sudoku.fix_value((r, c), value)) {
                ControlFlow::Break(done) => {
                    proof {
                        let trial = rules::put(g, r as int, c as int, Some(value));
                        candidates::lemma_filling_of_less(g, r as int, c as int, value, done@);
                        assert forall|t: Board| #[trigger] candidates::is_filling(g, t) implies t
                            == done@ || rules::precedes(done@, t) by {
                            candidates::lemma_filling_of_more(g, r as int, c as int, t);
                            let d = t[r as int][c as int].unwrap();
                            assert(candidates::fillable_with(g, r as int, c as int, d));
                            if d == value {
                                assert(candidates::is_filling(trial, t));
                            } else {
                                rules::lemma_precedes_at_first_empty(
                                    g,
                                    r as int,
                                    c as int,
                                    done@,
                                    t,
                                );
                            }
                        }
                    }
                    return ControlFlow::Break(done);
                },
                ControlFlow::Continue(_) => {},
            }
        }
        proof {
            if candidates::fillable_with(g, r as int, c as int, value) {
                let s = choose|s: Board| #[trigger]
                    candidates::is_filling(g, s) && s[r as int][c as int] == Some(value);
                candidates::lemma_filling_of_more(g, r as int, c as int, s);
                assert(false);
            }
        }
        value += 1;
    }
    proof {
        assert forall|s: Board| !candidates::is_filling(g, s) by {
            if candidates::is_filling(g, s) {
                candidates::lemma_filling_of_more(g, r as int, c as int, s);
                let d = s[r as int][c as int].unwrap();
                assert(candidates::fillable_with(g, r as int, c as int, d));
            }
        }
    }
    ControlFlow::Continue(())
}

/// Backtracking over candidates, most constrained cell first. Strikes the
/// given digits from the candidates of their peers once; then, again and
/// again, takes the undecided cell with the fewest candidates, decides it on
/// the spot if it has exactly one, and otherwise tries each of its candidates
/// in ascending order on a copy.
///
/// Returns `Ok` exactly when `sudoku` has a filling, with the filling that
/// this order of trying comes to first; otherwise `Err` with `sudoku` and the
/// digits that were decided on the spot.
pub fn sorted_dfs(sudoku: Sudoku) -> (result: SudokuResult)
    requires
        sudoku.wf(),
    ensures
        match result {
            Ok(done) => {
                &&& done.wf()
                &&& candidates::is_filling(sudoku@, done@)
                &&& candidates::first_visited(candidates::pruned(candidates::lifted(sudoku@)), done@)
            },
            Err(left) => {
                &&& left.wf()
                &&& left@ == candidates::lowered(
                    candidates::settled(candidates::pruned(candidates::lifted(sudoku@))),
                )
                &&& rules::extends(sudoku@, left@)
                &&& !candidates::fillable(sudoku@)
            },
        },
        rules::filled(sudoku@) ==> (result matches Ok(done) && done@ == sudoku@),
        candidates::dead_end(sudoku@) ==> result is Err,
{
    proof {
        if candidates::dead_end(sudoku@) {
            candidates::lemma_dead_end(sudoku@);
        }
        if rules::filled(sudoku@) {
            candidates::lemma_filled_one_filling(sudoku@);
        }
    }
    let mut augmented = AugmentedSudoku::from(sudoku);
    augmented.prune_possible();
    proof {
        candidates::lemma_pruned_lifted_consistent(sudoku@);
    }
    match sorted_dfs_impl(&mut augmented) {
        ControlFlow::Continue(_) => Err(Sudoku::from(augmented)),
        ControlFlow::Break(solved) => Ok(solved),
    }
}

/// The search of `sorted_dfs` from a grid with candidates: breaks exactly
/// when its board has a filling, with the filling that it comes to first.
/// The grid is left with the digits that were decided on the spot.
fn sorted_dfs_impl(sudoku: &mut AugmentedSudoku) -> (flow: ControlFlow<Sudoku, ()>)
    requires
        old(sudoku).wf(),
        candidates::consistent(old(sudoku)@),
    ensures
        final(sudoku).wf(),
        final(sudoku)@ == candidates::settled(old(sudoku)@),
        rules::extends(candidates::lowered(old(sudoku)@), candidates::lowered(final(sudoku)@)),
        match flow {
            ControlFlow::Break(done) => done.wf() && candidates::first_visited(
                old(sudoku)@,
                done@,
            ),
            ControlFlow::Continue(_) => !candidates::fillable(candidates::lowered(old(sudoku)@)),
        },
    decreases rules::blanks(candidates::lowered(old(sudoku)@)),
{
    let ghost a = sudoku@;
    let ghost g = candidates::lowered(a);
    proof {
        sudoku.lemma_wf();
    }
    let (r, c) = match sudoku.most_constrained() {
        Some(at) => at,
        None => {
            proof {
                candidates::lemma_filled_one_filling(g);
                candidates::lemma_no_next_cell(a);
            }
            return ControlFlow::Break(Sudoku::from(sudoku.clone()));
        },
    };
    let order = sudoku.order();
    proof {
        assert(g[r as int].len() == g.len());
        candidates::lemma_next_cell(a, r as int, c as int);
    }

    // If it is the only possibility then just fix it
    if sudoku.count(r, c) == 1 {
        let value = sudoku.only_candidate(r, c);
        let ghost next = candidates::fixed(a, r as int, c as int, value);
        proof {
            candidates::lemma_forced_is(a, r as int, c as int, value);
            candidates::lemma_fixed_consistent(a, r as int, c as int, value);
            rules::lemma_blanks_fill(g, r as int, c as int, Some(value));
        }
        sudoku.fix_value_inplace((r, c), value);
        let flow = sorted_dfs_impl(sudoku);
        proof {
            candidates::lemma_put_extends(
                g,
                r as int,
                c as int,
                value,
                candidates::lowered(sudoku@),
            );
            assert forall|t: Board| #[trigger] candidates::is_filling(g, t) implies t[r as int][c as int]
                == Some(value) && candidates::is_filling(candidates::lowered(next), t) by {
                candidates::lemma_filling_of_more(g, r as int, c as int, t);
            }
            if let ControlFlow::Break(done) = &flow {
                candidates::lemma_filling_of_less(g, r as int, c as int, value, done@);
                assert forall|t: Board| #[trigger] candidates::is_filling(g, t) implies t == done@
                    || candidates::visits_before(a, done@, t) by {
                    assert(candidates::is_filling(candidates::lowered(next), t));
                }
            } else {
                assert forall|t: Board| !candidates::is_filling(g, t) by {
                    if candidates::is_filling(g, t) {
                        assert(candidates::is_filling(candidates::lowered(next), t));
                    }
                }
            }
        }
        return flow;
    }
    // Clone for each possible value otherwise

    proof {
        assert(candidates::forced_digit(a, r as int, c as int) is None);
        assert(candidates::settled(a) == a);
    }
    let mut value: u8 = 1;
    while value as usize <= order
        invariant
            sudoku.wf(),
            a == sudoku@,
            a == old(sudoku)@,
            g == candidates::lowered(a),
            rules::well_formed(g),
            candidates::marks_wf(a),
            candidates::consistent(a),
            candidates::next_cell(a) == Some((r as int, c as int)),
            candidates::settled(a) == a,
            order == g.len(),
            order <= 225,
            rules::inside(g, r as int, c as int),
            a[r as int][c as int] is Possible,
            g[r as int][c as int] is None,
            1 <= value <= order + 1,
            forall|d: u8|
                1 <= d < value ==> !#[trigger] candidates::fillable_with(g, r as int, c as int, d),
        decreases order + 1 - value,
    {
        if sudoku.allows(r, c, value) {
            proof {
                candidates::lemma_fixed_consistent(a, r as int, c as int, value);
                rules::lemma_blanks_fill(g, r as int, c as int, Some(value));
            }
            let mut next = sudoku.fix_value((r, c), value);
            let ghost tried = next@;
            match sorted_dfs_impl(&mut next) {
                ControlFlow::Break(done) => {
                    proof {
                        candidates::lemma_filling_of_less(g, r as int, c as int, value, done@);
                        assert forall|t: Board| #[trigger] candidates::is_filling(g, t) implies t
                            == done@ || candidates::visits_before(a, done@, t) by {
                            candidates::lemma_filling_of_more(g, r as int, c as int, t);
                            let d = t[r as int][c as int].unwrap();
                            assert(candidates::fillable_with(g, r as int, c as int, d));
                            if d == value {
                                assert(candidates::is_filling(candidates::lowered(tried), t));
                            }
                        }
                    }
                    return ControlFlow::Break(done);
                },
                ControlFlow::Continue(_) => {},
            }
        }
        proof {
            if candidates::fillable_with(g, r as int, c as int, value) {
                let s = choose|s: Board| #[trigger]
                    candidates::is_filling(g, s) && s[r as int][c as int] == Some(value);
                candidates::lemma_filling_of_more(g, r as int, c as int, s);
                assert(false);
            }
        }
        value += 1;
    }
    proof {
        assert forall|s: Board| !candidates::is_filling(g, s) by {
            if candidates::is_filling(g, s) {
                candidates::lemma_filling_of_more(g, r as int, c as int, s);
                let d = s[r as int][c as int].unwrap();
                assert(candidates::fillable_with(g, r as int, c as int, d));
            }
        }
    }
    ControlFlow::Continue(())
}

} // verus!
