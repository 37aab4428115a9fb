//! The mathematical model of a grid with candidate sets: what each cell
//! still allows, how fixing a digit narrows its peers, and why a search that
//! only ever fixes candidates finds a filling exactly when there is one.

use super::rules::{
    before, blanks, box_side, completes, conflict, extends, filled, inside, is_digit, is_solution,
    lemma_blanks_fill, peers, precedes, put, same_unit, solvable, square, valid, well_formed,
    Board,
};
use vstd::prelude::*;

verus! {

/// What a cell of a grid with candidates holds: a digit that is decided, or
/// the set of digits that are still possible.
pub enum CellState {
    Fixed(u8),
    Possible(Set<u8>),
}

/// A grid with candidates, as a sequence of rows.
pub type Marks = Seq<Seq<CellState>>;

/// The digits of a board of side `n`.
pub open spec fn all_digits(n: int) -> Set<u8> {
    Set::new(|d: u8| 1 <= d <= n)
}

/// The cell with `d` struck from its candidates; a decided cell stays as it
/// is.
pub open spec fn without(cell: CellState, d: u8) -> CellState {
    match cell {
        CellState::Fixed(x) => CellState::Fixed(x),
        CellState::Possible(s) => CellState::Possible(s.remove(d)),
    }
}

/// The grid cell that stands for a cell with candidates: its digit if it is
/// decided, else nothing.
pub open spec fn lower_cell(cell: CellState) -> Option<u8> {
    match cell {
        CellState::Fixed(x) => Some(x),
        CellState::Possible(_) => None,
    }
}

/// The cell with candidates that a grid cell starts as: decided if it holds a
/// digit, else with every digit of the board possible.
pub open spec fn lift_cell(v: Option<u8>, n: int) -> CellState {
    match v {
        Some(x) => CellState::Fixed(x),
        None => CellState::Possible(all_digits(n)),
    }
}

/// The board that `a` stands for.
pub open spec fn lowered(a: Marks) -> Board {
    Seq::new(a.len(), |r: int| Seq::new(a[r].len(), |c: int| lower_cell(a[r][c])))
}

/// The grid with candidates that `g` starts as.
pub open spec fn lifted(g: Board) -> Marks {
    Seq::new(g.len(), |r: int| Seq::new(g[r].len(), |c: int| lift_cell(g[r][c], g.len() as int)))
}

/// The board of `a` is well formed, and every candidate set is a finite set
/// of digits of the board.
pub open spec fn marks_wf(a: Marks) -> bool {
    &&& well_formed(lowered(a))
    &&& forall|r: int, c: int|
        inside(lowered(a), r, c) ==> (#[trigger] a[r][c] matches CellState::Possible(s) ==> s.finite()
            && s.subset_of(all_digits(a.len() as int)))
}

/// `a` with `d` struck from the candidates of every cell that `hit` picks.
pub open spec fn strike(a: Marks, hit: spec_fn(int, int) -> bool, d: u8) -> Marks {
    Seq::new(
        a.len(),
        |r: int|
            Seq::new(
                a[r].len(),
                |c: int|
                    if hit(r, c) {
                        without(a[r][c], d)
                    } else {
                        a[r][c]
                    },
            ),
    )
}

/// `a` with cell `(r, c)` replaced by `cell`.
pub open spec fn mark(a: Marks, r: int, c: int, cell: CellState) -> Marks {
    a.update(r, a[r].update(c, cell))
}

/// `a` with `d` struck from the row, the column and the box of `(r, c)`.
pub open spec fn removed(a: Marks, r: int, c: int, d: u8) -> Marks {
    strike(a, |i: int, j: int| same_unit(box_side(a.len() as int), r, c, i, j), d)
}

/// `a` with `(r, c)` decided as `d` and `d` struck from its row, column and
/// box.
pub open spec fn fixed(a: Marks, r: int, c: int, d: u8) -> Marks {
    removed(mark(a, r, c, CellState::Fixed(d)), r, c, d)
}

/// Some cell in the row, column or box of `(r, c)` holds `d`.
pub open spec fn taken(g: Board, r: int, c: int, d: u8) -> bool {
    exists|i: int, j: int|
        inside(g, i, j) && same_unit(box_side(g.len() as int), r, c, i, j) && (#[trigger] g[i][j])
            == Some(d)
}

/// The digits of the board that no cell in the row, column or box of
/// `(r, c)` holds.
pub open spec fn open_digits(g: Board, r: int, c: int) -> Set<u8> {
    Set::new(|d: u8| 1 <= d <= g.len() && !taken(g, r, c, d))
}

/// Every candidate set is exactly the set of digits that the cell's row,
/// column and box leave open.
pub open spec fn consistent(a: Marks) -> bool {
    forall|r: int, c: int|
        inside(lowered(a), r, c) ==> (#[trigger] a[r][c] matches CellState::Possible(s) ==> s
            == open_digits(lowered(a), r, c))
}

/// `a` with, in every undecided cell, the digits struck that a decided cell
/// of its row, column or box holds.
pub open spec fn pruned(a: Marks) -> Marks {
    Seq::new(
        a.len(),
        |r: int|
            Seq::new(
                a[r].len(),
                |c: int|
                    match a[r][c] {
                        CellState::Fixed(x) => CellState::Fixed(x),
                        CellState::Possible(s) => CellState::Possible(
                            s.difference(Set::new(|d: u8| taken(lowered(a), r, c, d))),
                        ),
                    },
            ),
    )
}

/// `d` is a candidate of the undecided cell `(r, c)`.
pub open spec fn is_candidate(a: Marks, r: int, c: int, d: u8) -> bool {
    a[r][c] matches CellState::Possible(s) && s.contains(d)
}

/// The number of candidates of a cell; a decided cell counts as none.
pub open spec fn count_at(a: Marks, r: int, c: int) -> nat {
    match a[r][c] {
        CellState::Fixed(_) => 0,
        CellState::Possible(s) => s.len(),
    }
}

/// `(r, c)` is undecided, no undecided cell has fewer candidates, and every
/// undecided cell before it in reading order has more.
pub open spec fn fewest_at(a: Marks, r: int, c: int) -> bool {
    &&& inside(lowered(a), r, c)
    &&& a[r][c] is Possible
    &&& forall|i: int, j: int|
        inside(lowered(a), i, j) && (#[trigger] a[i][j]) is Possible ==> count_at(a, r, c)
            <= count_at(a, i, j) && (before(i, j, r, c) ==> count_at(a, r, c) < count_at(a, i, j))
}

/// `best` is what a scan for the cell with the fewest candidates has found
/// among the cells before `(pr, pc)`, and `len` is its number of candidates.
pub open spec fn fewest_before(
    a: Marks,
    best: Option<(usize, usize)>,
    len: int,
    pr: int,
    pc: int,
) -> bool {
    match best {
        None => forall|i: int, j: int|
            inside(lowered(a), i, j) && before(i, j, pr, pc) ==> (#[trigger] a[i][j]) is Fixed,
        Some(at) => {
            &&& inside(lowered(a), at.0 as int, at.1 as int)
            &&& before(at.0 as int, at.1 as int, pr, pc)
            &&& a[at.0 as int][at.1 as int] is Possible
            &&& len == count_at(a, at.0 as int, at.1 as int)
            &&& forall|i: int, j: int|
                inside(lowered(a), i, j) && before(i, j, pr, pc) && (#[trigger] a[i][j])
                    is Possible ==> len <= count_at(a, i, j) && (before(
                    i,
                    j,
                    at.0 as int,
                    at.1 as int,
                ) ==> len < count_at(a, i, j))
        },
    }
}

/// A cell that was empty in `g` holds in `s` the digit of one of its peers.
pub open spec fn clash(g: Board, s: Board, r: int, c: int, i: int, j: int) -> bool {
    &&& inside(g, r, c)
    &&& inside(g, i, j)
    &&& g[r][c] is None
    &&& peers(box_side(g.len() as int), r, c, i, j)
    &&& s[r][c] == s[i][j]
}

/// `s` completes `g`, and every digit it adds differs from the digits of all
/// peers of its cell.
pub open spec fn is_filling(g: Board, s: Board) -> bool {
    &&& completes(g, s)
    &&& forall|r: int, c: int, i: int, j: int| !#[trigger] clash(g, s, r, c, i, j)
}

/// `s` is a filling of `g`, and every other filling of `g` comes after it in
/// reading order.
pub open spec fn first_filling(g: Board, s: Board) -> bool {
    &&& is_filling(g, s)
    &&& forall|t: Board| #[trigger] is_filling(g, t) ==> t == s || precedes(s, t)
}

/// Some board is a filling of `g`.
pub open spec fn fillable(g: Board) -> bool {
    exists|s: Board| is_filling(g, s)
}

/// Some filling of `g` holds `d` at `(r, c)`.
pub open spec fn fillable_with(g: Board, r: int, c: int, d: u8) -> bool {
    exists|s: Board| #[trigger] is_filling(g, s) && s[r][c] == Some(d)
}

/// A filling of the board with one more digit is a filling of the board, if
/// that digit was open at its cell.
pub proof fn lemma_filling_of_less(g: Board, r: int, c: int, d: u8, s: Board)
    requires
        well_formed(g),
        inside(g, r, c),
        g[r][c] is None,
        open_digits(g, r, c).contains(d),
        is_filling(put(g, r, c, Some(d)), s),
    ensures
        is_filling(g, s),
        s[r][c] == Some(d),
{
    let h = put(g, r, c, Some(d));
    let k = box_side(g.len() as int);
    super::rules::lemma_put_well_formed(g, r, c, Some(d));
    assert(s[r][c] == h[r][c]);
    assert forall|i: int, j: int| inside(g, i, j) && g[i][j] is Some implies (#[trigger] s[i][j])
        == g[i][j] by {
        assert(h[i][j] == g[i][j]);
    }
    assert forall|i: int, j: int| inside(g, i, j) && g[i][j] is None implies is_digit(
        #[trigger] s[i][j],
        g.len() as int,
    ) by {
        if i == r && j == c {
        } else {
            assert(h[i][j] is None);
        }
    }
    assert forall|p: int, q: int, i: int, j: int| !#[trigger] clash(g, s, p, q, i, j) by {
        if clash(g, s, p, q, i, j) {
            if p == r && q == c {
                if g[i][j] is Some {
                    assert(s[i][j] == g[i][j]);
                    assert(taken(g, r, c, d));
                } else {
                    assert(h[i][j] == g[i][j]);
                    assert(clash(h, s, i, j, p, q));
                }
            } else {
                assert(h[p][q] == g[p][q]);
                assert(clash(h, s, p, q, i, j));
            }
        }
    }
}

/// A filling of the board holds at each empty cell a digit that is open
/// there, and is a filling of the board with that digit written in.
pub proof fn lemma_filling_of_more(g: Board, r: int, c: int, s: Board)
    requires
        well_formed(g),
        inside(g, r, c),
        g[r][c] is None,
        is_filling(g, s),
    ensures
        s[r][c] is Some,
        open_digits(g, r, c).contains(s[r][c].unwrap()),
        is_filling(put(g, r, c, s[r][c]), s),
{
    let h = put(g, r, c, s[r][c]);
    let d = s[r][c].unwrap();
    assert(is_digit(s[r][c], g.len() as int));
    super::rules::lemma_put_well_formed(g, r, c, s[r][c]);
    if taken(g, r, c, d) {
        let (i, j) = choose|i: int, j: int|
            inside(g, i, j) && same_unit(box_side(g.len() as int), r, c, i, j) && (
            #[trigger] g[i][j]) == Some(d);
        assert(s[i][j] == g[i][j]);
        assert(clash(g, s, r, c, i, j));
    }
    assert forall|i: int, j: int| inside(h, i, j) && h[i][j] is Some implies (#[trigger] s[i][j])
        == h[i][j] by {
        if i == r && j == c {
        } else {
            assert(h[i][j] == g[i][j]);
        }
    }
    assert forall|i: int, j: int| inside(h, i, j) && h[i][j] is None implies is_digit(
        #[trigger] s[i][j],
        h.len() as int,
    ) by {
        assert(h[i][j] == g[i][j]);
    }
    assert forall|p: int, q: int, i: int, j: int| !#[trigger] clash(h, s, p, q, i, j) by {
        if clash(h, s, p, q, i, j) {
            assert(h[p][q] == g[p][q]);
            assert(clash(g, s, p, q, i, j));
        }
    }
}

/// A filled board is a filling of itself.
pub proof fn lemma_filled_fills_itself(g: Board)
    requires
        well_formed(g),
        filled(g),
    ensures
        is_filling(g, g),
{
}

/// On a valid board the fillings are the solutions.
pub proof fn lemma_filling_is_solution(g: Board, s: Board)
    requires
        well_formed(g),
        valid(g),
    ensures
        is_filling(g, s) <==> is_solution(g, s),
{
    if is_filling(g, s) {
        assert forall|r1: int, c1: int, r2: int, c2: int| !#[trigger] conflict(
            s,
            r1,
            c1,
            r2,
            c2,
        ) by {
            if conflict(s, r1, c1, r2, c2) {
                if g[r1][c1] is None {
                    assert(clash(g, s, r1, c1, r2, c2));
                } else if g[r2][c2] is None {
                    assert(clash(g, s, r2, c2, r1, c1));
                } else {
                    assert(s[r1][c1] == g[r1][c1]);
                    assert(s[r2][c2] == g[r2][c2]);
                    assert(conflict(g, r1, c1, r2, c2));
                }
            }
        }
    }
    if is_solution(g, s) {
        assert forall|r: int, c: int, i: int, j: int| !#[trigger] clash(g, s, r, c, i, j) by {
            if clash(g, s, r, c, i, j) {
                assert(s[r][c] is Some);
                assert(conflict(s, r, c, i, j));
            }
        }
    }
}

/// Striking a digit twice is striking it once.
pub proof fn lemma_without_twice(cell: CellState, d: u8)
    ensures
        without(without(cell, d), d) == without(cell, d),
        lower_cell(without(cell, d)) == lower_cell(cell),
{
    match cell {
        CellState::Fixed(_) => {},
        CellState::Possible(s) => {
            assert(s.remove(d).remove(d) =~= s.remove(d));
        },
    }
}

/// Striking a digit changes no decided cell, so the board stays the same and
/// the grid stays well formed.
pub proof fn lemma_strike_keeps_board(a: Marks, hit: spec_fn(int, int) -> bool, d: u8)
    requires
        marks_wf(a),
    ensures
        marks_wf(strike(a, hit, d)),
        lowered(strike(a, hit, d)) == lowered(a),
        strike(a, hit, d).len() == a.len(),
{
    let b = strike(a, hit, d);
    assert forall|r: int| 0 <= r < a.len() implies #[trigger] lowered(b)[r] == lowered(a)[r] by {
        assert(lowered(a)[r].len() == a.len());
        assert(lowered(b)[r] =~= lowered(a)[r]);
    }
    assert(lowered(b) =~= lowered(a));
    assert forall|r: int, c: int| inside(lowered(b), r, c) implies (#[trigger] b[r][c] matches CellState::Possible(
        s,
    ) ==> s.finite() && s.subset_of(all_digits(b.len() as int))) by {
        assert(lowered(a)[r].len() == a.len());
        assert(inside(lowered(a), r, c));
    }
}

/// Striking along the row, then the column, then the block of a cell is
/// striking along its units.
pub proof fn lemma_removed_in_steps(a: Marks, r: int, c: int, d: u8, a1: Marks, a2: Marks, a3: Marks)
    requires
        marks_wf(a),
        inside(lowered(a), r, c),
        a1 == strike(a, |i: int, j: int| i == r, d),
        a2 == strike(a1, |i: int, j: int| j == c, d),
        forall|i: int, j: int|
            inside(lowered(a), i, j) ==> (#[trigger] a3[i][j]) == if super::rules::same_box(
                box_side(a.len() as int),
                r,
                c,
                i,
                j,
            ) {
                without(a2[i][j], d)
            } else {
                a2[i][j]
            },
        a3.len() == a.len(),
        forall|i: int| 0 <= i < a.len() ==> (#[trigger] a3[i]).len() == a.len(),
    ensures
        a3 == removed(a, r, c, d),
{
    let k = box_side(a.len() as int);
    let target = removed(a, r, c, d);
    assert forall|i: int| 0 <= i < a.len() implies #[trigger] a3[i] == target[i] by {
        assert(lowered(a)[i].len() == a.len());
        assert forall|j: int| 0 <= j < a.len() implies #[trigger] a3[i][j] == target[i][j] by {
            assert(inside(lowered(a), i, j));
            lemma_without_twice(a[i][j], d);
            lemma_without_twice(without(a[i][j], d), d);
        }
        assert(a3[i] =~= target[i]);
    }
    assert(a3 =~= target);
}

/// Deciding a cell writes its digit on the board and keeps the grid well
/// formed.
pub proof fn lemma_fixed_board(a: Marks, r: int, c: int, d: u8)
    requires
        marks_wf(a),
        inside(lowered(a), r, c),
        d != 0,
    ensures
        marks_wf(fixed(a, r, c, d)),
        lowered(fixed(a, r, c, d)) == put(lowered(a), r, c, Some(d)),
{
    let m = mark(a, r, c, CellState::Fixed(d));
    lemma_marked_wf(a, r, c, d);
    lemma_strike_keeps_board(
        m,
        |i: int, j: int| same_unit(box_side(m.len() as int), r, c, i, j),
        d,
    );
}

/// Writing a decided digit into a cell keeps the grid well formed.
pub proof fn lemma_marked_wf(a: Marks, r: int, c: int, d: u8)
    requires
        marks_wf(a),
        inside(lowered(a), r, c),
        d != 0,
    ensures
        marks_wf(mark(a, r, c, CellState::Fixed(d))),
        mark(a, r, c, CellState::Fixed(d)).len() == a.len(),
        lowered(mark(a, r, c, CellState::Fixed(d))) == put(lowered(a), r, c, Some(d)),
{
    let m = mark(a, r, c, CellState::Fixed(d));
    let h = put(lowered(a), r, c, Some(d));
    super::rules::lemma_put_well_formed(lowered(a), r, c, Some(d));
    assert forall|i: int| 0 <= i < a.len() implies #[trigger] lowered(m)[i] == h[i] by {
        assert(lowered(a)[i].len() == a.len());
        assert(lowered(m)[i] =~= h[i]);
    }
    assert(lowered(m) =~= h);
    assert forall|i: int, j: int| inside(lowered(m), i, j) implies (#[trigger] m[i][j] matches CellState::Possible(
        s,
    ) ==> s.finite() && s.subset_of(all_digits(m.len() as int))) by {
        assert(lowered(a)[i].len() == a.len());
        assert(inside(lowered(a), i, j));
        if i == r && j == c {
        } else {
            assert(m[i][j] == a[i][j]);
        }
    }
}

/// Deciding an undecided cell keeps every candidate set equal to what the
/// cell's units leave open.
pub proof fn lemma_fixed_consistent(a: Marks, r: int, c: int, d: u8)
    requires
        marks_wf(a),
        consistent(a),
        inside(lowered(a), r, c),
        a[r][c] is Possible,
        d != 0,
    ensures
        consistent(fixed(a, r, c, d)),
{
    let b = fixed(a, r, c, d);
    let g = lowered(a);
    let h = lowered(b);
    let k = box_side(a.len() as int);
    lemma_fixed_board(a, r, c, d);
    assert forall|i: int, j: int| inside(h, i, j) implies (#[trigger] b[i][j] matches CellState::Possible(
        s,
    ) ==> s == open_digits(h, i, j)) by {
        assert(g[i].len() == a.len());
        assert(inside(g, i, j));
        if let CellState::Possible(s) = b[i][j] {
            assert(!(i == r && j == c));
            let before = a[i][j]->Possible_0;
            assert(before == open_digits(g, i, j));
            assert forall|x: u8| s.contains(x) <==> open_digits(h, i, j).contains(x) by {
                if taken(g, i, j, x) {
                    let (p, q) = choose|p: int, q: int|
                        inside(g, p, q) && same_unit(k, i, j, p, q) && (#[trigger] g[p][q])
                            == Some(x);
                    assert(h[p][q] == Some(x));
                    assert(taken(h, i, j, x));
                }
                if taken(h, i, j, x) {
                    let (p, q) = choose|p: int, q: int|
                        inside(h, p, q) && same_unit(k, i, j, p, q) && (#[trigger] h[p][q])
                            == Some(x);
                    if p == r && q == c {
                    } else {
                        assert(g[p][q] == Some(x));
                        assert(taken(g, i, j, x));
                    }
                }
                if x == d && same_unit(k, r, c, i, j) {
                    assert(h[r][c] == Some(d));
                    assert(taken(h, i, j, x));
                }
            }
            assert(s =~= open_digits(h, i, j));
        }
    }
}

/// Some cell before `(pr, pc)` in reading order, in the row, column or box
/// of `(r, c)`, holds `d`.
pub open spec fn taken_before(g: Board, r: int, c: int, d: u8, pr: int, pc: int) -> bool {
    exists|i: int, j: int|
        inside(g, i, j) && before(i, j, pr, pc) && same_unit(box_side(g.len() as int), r, c, i, j)
            && (#[trigger] g[i][j]) == Some(d)
}

/// `a` with, in every undecided cell, the digits struck that a decided cell
/// of its row, column or box holds, as far as that cell comes before
/// `(pr, pc)` in reading order.
pub open spec fn pruned_before(a: Marks, pr: int, pc: int) -> Marks {
    Seq::new(
        a.len(),
        |r: int|
            Seq::new(
                a[r].len(),
                |c: int|
                    match a[r][c] {
                        CellState::Fixed(x) => CellState::Fixed(x),
                        CellState::Possible(s) => CellState::Possible(
                            s.difference(
                                Set::new(|d: u8| taken_before(lowered(a), r, c, d, pr, pc)),
                            ),
                        ),
                    },
            ),
    )
}

/// The digits of a board form a finite set.
pub proof fn lemma_all_digits_finite(n: int)
    ensures
        all_digits(n).finite(),
    decreases n,
{
    if n <= 0 {
        assert(all_digits(n) =~= Set::empty());
    } else if n > 255 {
        lemma_all_digits_finite(n - 1);
        assert(all_digits(n) =~= all_digits(n - 1));
    } else {
        lemma_all_digits_finite(n - 1);
        assert(all_digits(n) =~= all_digits(n - 1).insert(n as u8));
    }
}

/// The grid with candidates that a board starts as stands for that board.
pub proof fn lemma_lowered_lifted(g: Board)
    requires
        square(g),
    ensures
        lowered(lifted(g)) == g,
{
    assert forall|r: int| 0 <= r < g.len() implies #[trigger] lowered(lifted(g))[r] == g[r] by {
        assert(lowered(lifted(g))[r] =~= g[r]);
    }
    assert(lowered(lifted(g)) =~= g);
}

/// The grid with candidates that a well-formed board starts as is well
/// formed.
pub proof fn lemma_lifted_wf(g: Board)
    requires
        well_formed(g),
    ensures
        marks_wf(lifted(g)),
        lifted(g).len() == g.len(),
{
    lemma_lowered_lifted(g);
    lemma_all_digits_finite(g.len() as int);
}

/// Before any cell was looked at nothing is struck.
pub proof fn lemma_pruned_before_start(a: Marks)
    requires
        marks_wf(a),
    ensures
        pruned_before(a, 0, 0) == a,
{
    let b = pruned_before(a, 0, 0);
    assert forall|r: int| 0 <= r < a.len() implies #[trigger] b[r] == a[r] by {
        assert(lowered(a)[r].len() == a.len());
        assert forall|c: int| 0 <= c < a[r].len() implies #[trigger] b[r][c] == a[r][c] by {
            if let CellState::Possible(s) = a[r][c] {
                assert(s.difference(Set::new(|d: u8| taken_before(lowered(a), r, c, d, 0, 0)))
                    =~= s);
            }
        }
        assert(b[r] =~= a[r]);
    }
    assert(b =~= a);
}

/// The end of one row is the start of the next.
pub proof fn lemma_pruned_before_next_row(a: Marks, pr: int)
    requires
        marks_wf(a),
        0 <= pr < a.len(),
    ensures
        pruned_before(a, pr, a.len() as int) == pruned_before(a, pr + 1, 0),
{
    let n = a.len() as int;
    let g = lowered(a);
    let x = pruned_before(a, pr, n);
    let y = pruned_before(a, pr + 1, 0);
    assert forall|r: int| 0 <= r < a.len() implies #[trigger] x[r] == y[r] by {
        assert forall|c: int| 0 <= c < a[r].len() implies #[trigger] x[r][c] == y[r][c] by {
            if let CellState::Possible(s) = a[r][c] {
                assert forall|d: u8|
                    taken_before(g, r, c, d, pr, n) <==> taken_before(g, r, c, d, pr + 1, 0) by {
                    if taken_before(g, r, c, d, pr, n) {
                        let (i, j) = choose|i: int, j: int|
                            inside(g, i, j) && before(i, j, pr, n) && same_unit(
                                box_side(g.len() as int),
                                r,
                                c,
                                i,
                                j,
                            ) && (#[trigger] g[i][j]) == Some(d);
                        assert(before(i, j, pr + 1, 0));
                    }
                    if taken_before(g, r, c, d, pr + 1, 0) {
                        let (i, j) = choose|i: int, j: int|
                            inside(g, i, j) && before(i, j, pr + 1, 0) && same_unit(
                                box_side(g.len() as int),
                                r,
                                c,
                                i,
                                j,
                            ) && (#[trigger] g[i][j]) == Some(d);
                        assert(before(i, j, pr, n));
                    }
                }
                assert(Set::new(|d: u8| taken_before(g, r, c, d, pr, n)) =~= Set::new(
                    |d: u8| taken_before(g, r, c, d, pr + 1, 0),
                ));
            }
        }
        assert(x[r] =~= y[r]);
    }
    assert(x =~= y);
}

/// After the last row everything is struck that `pruned` strikes.
pub proof fn lemma_pruned_before_end(a: Marks)
    requires
        marks_wf(a),
    ensures
        pruned_before(a, a.len() as int, 0) == pruned(a),
{
    let n = a.len() as int;
    let g = lowered(a);
    let x = pruned_before(a, n, 0);
    let y = pruned(a);
    assert forall|r: int| 0 <= r < a.len() implies #[trigger] x[r] == y[r] by {
        assert forall|c: int| 0 <= c < a[r].len() implies #[trigger] x[r][c] == y[r][c] by {
            if let CellState::Possible(s) = a[r][c] {
                assert forall|d: u8| taken_before(g, r, c, d, n, 0) <==> taken(g, r, c, d) by {
                    if taken_before(g, r, c, d, n, 0) {
                        let (i, j) = choose|i: int, j: int|
                            inside(g, i, j) && before(i, j, n, 0) && same_unit(
                                box_side(g.len() as int),
                                r,
                                c,
                                i,
                                j,
                            ) && (#[trigger] g[i][j]) == Some(d);
                        assert(taken(g, r, c, d));
                    }
                    if taken(g, r, c, d) {
                        let (i, j) = choose|i: int, j: int|
                            inside(g, i, j) && same_unit(box_side(g.len() as int), r, c, i, j) && (
                            #[trigger] g[i][j]) == Some(d);
                        assert(before(i, j, n, 0));
                    }
                }
                assert(Set::new(|d: u8| taken_before(g, r, c, d, n, 0)) =~= Set::new(
                    |d: u8| taken(g, r, c, d),
                ));
            }
        }
        assert(x[r] =~= y[r]);
    }
    assert(x =~= y);
}

/// What has been struck before a cell stands for the same board and is well
/// formed.
pub proof fn lemma_pruned_before_board(a: Marks, pr: int, pc: int)
    requires
        marks_wf(a),
    ensures
        marks_wf(pruned_before(a, pr, pc)),
        lowered(pruned_before(a, pr, pc)) == lowered(a),
        pruned_before(a, pr, pc).len() == a.len(),
{
    let b = pruned_before(a, pr, pc);
    assert forall|r: int| 0 <= r < a.len() implies #[trigger] lowered(b)[r] == lowered(a)[r] by {
        assert(lowered(b)[r] =~= lowered(a)[r]);
    }
    assert(lowered(b) =~= lowered(a));
    assert forall|r: int, c: int| inside(lowered(b), r, c) implies (#[trigger] b[r][c] matches CellState::Possible(
        s,
    ) ==> s.finite() && s.subset_of(all_digits(b.len() as int))) by {
        assert(lowered(a)[r].len() == a.len());
        assert(inside(lowered(a), r, c));
    }
}

/// Looking at one more cell: if it is decided, its digit is struck from its
/// row, column and box; if not, nothing changes.
pub proof fn lemma_pruned_before_step(a: Marks, pr: int, pc: int)
    requires
        marks_wf(a),
        inside(lowered(a), pr, pc),
    ensures
        pruned_before(a, pr, pc + 1) == match a[pr][pc] {
            CellState::Fixed(d) => removed(pruned_before(a, pr, pc), pr, pc, d),
            CellState::Possible(_) => pruned_before(a, pr, pc),
        },
{
    let g = lowered(a);
    let k = box_side(g.len() as int);
    let x = pruned_before(a, pr, pc);
    let y = pruned_before(a, pr, pc + 1);
    let z = match a[pr][pc] {
        CellState::Fixed(d) => removed(x, pr, pc, d),
        CellState::Possible(_) => x,
    };
    assert(g[pr].len() == a.len());
    assert forall|r: int| 0 <= r < a.len() implies #[trigger] y[r] == z[r] by {
        assert(g[r].len() == a.len());
        assert forall|c: int| 0 <= c < a[r].len() implies #[trigger] y[r][c] == z[r][c] by {
            if let CellState::Possible(s) = a[r][c] {
                let old_struck = Set::new(|d: u8| taken_before(g, r, c, d, pr, pc));
                let new_struck = Set::new(|d: u8| taken_before(g, r, c, d, pr, pc + 1));
                assert forall|d: u8|
                    new_struck.contains(d) <==> (old_struck.contains(d) || (same_unit(
                        k,
                        pr,
                        pc,
                        r,
                        c,
                    ) && g[pr][pc] == Some(d))) by {
                    if taken_before(g, r, c, d, pr, pc + 1) {
                        let (i, j) = choose|i: int, j: int|
                            inside(g, i, j) && before(i, j, pr, pc + 1) && same_unit(k, r, c, i, j)
                                && (#[trigger] g[i][j]) == Some(d);
                        if i == pr && j == pc {
                        } else {
                            assert(before(i, j, pr, pc));
                            assert(taken_before(g, r, c, d, pr, pc));
                        }
                    }
                    if taken_before(g, r, c, d, pr, pc) {
                        let (i, j) = choose|i: int, j: int|
                            inside(g, i, j) && before(i, j, pr, pc) && same_unit(k, r, c, i, j) && (
                            #[trigger] g[i][j]) == Some(d);
                        assert(before(i, j, pr, pc + 1));
                        assert(taken_before(g, r, c, d, pr, pc + 1));
                    }
                    if same_unit(k, pr, pc, r, c) && g[pr][pc] == Some(d) {
                        assert(before(pr, pc, pr, pc + 1));
                        assert(taken_before(g, r, c, d, pr, pc + 1));
                    }
                }
                match a[pr][pc] {
                    CellState::Fixed(d) => {
                        if same_unit(k, pr, pc, r, c) {
                            assert(s.difference(new_struck) =~= s.difference(old_struck).remove(d));
                        } else {
                            assert(new_struck =~= old_struck);
                        }
                    },
                    CellState::Possible(_) => {
                        assert(new_struck =~= old_struck);
                    },
                }
            }
        }
        assert(y[r] =~= z[r]);
    }
    assert(y =~= z);
}

/// Pruning the grid that a board starts as leaves every candidate set equal
/// to what the cell's units leave open.
pub proof fn lemma_pruned_lifted_consistent(g: Board)
    requires
        well_formed(g),
    ensures
        marks_wf(pruned(lifted(g))),
        consistent(pruned(lifted(g))),
        lowered(pruned(lifted(g))) == g,
{
    let a = lifted(g);
    let b = pruned(a);
    lemma_lifted_wf(g);
    lemma_lowered_lifted(g);
    lemma_pruned_before_end(a);
    lemma_pruned_before_board(a, a.len() as int, 0);
    assert forall|r: int, c: int| inside(lowered(b), r, c) implies (#[trigger] b[r][c] matches CellState::Possible(
        s,
    ) ==> s == open_digits(lowered(b), r, c)) by {
        assert(g[r].len() == g.len());
        if let CellState::Possible(s) = b[r][c] {
            assert(s =~= open_digits(g, r, c));
        }
    }
}

/// Pruning twice gives what pruning once gives.
pub proof fn lemma_pruned_idempotent(a: Marks)
    requires
        marks_wf(a),
    ensures
        pruned(pruned(a)) == pruned(a),
{
    let b = pruned(a);
    let x = pruned(b);
    lemma_pruned_before_end(a);
    lemma_pruned_before_board(a, a.len() as int, 0);
    assert forall|r: int| 0 <= r < a.len() implies #[trigger] x[r] == b[r] by {
        assert forall|c: int| 0 <= c < a[r].len() implies #[trigger] x[r][c] == b[r][c] by {
            if let CellState::Possible(s) = b[r][c] {
                assert(s.difference(Set::new(|d: u8| taken(lowered(a), r, c, d))) =~= s);
            }
        }
        assert(x[r] =~= b[r]);
    }
    assert(x =~= b);
}

/// Some empty cell of `g` has no digit left: every digit of the board is
/// held by a cell of its row, column or box.
pub open spec fn dead_end(g: Board) -> bool {
    exists|r: int, c: int|
        inside(g, r, c) && (#[trigger] g[r][c]) is None && open_digits(g, r, c) == Set::<
            u8,
        >::empty()
}

/// A board with an empty cell that has no digit left has no filling and no
/// solution.
pub proof fn lemma_dead_end(g: Board)
    requires
        well_formed(g),
        dead_end(g),
    ensures
        !fillable(g),
        !solvable(g),
{
    let (r, c) = choose|r: int, c: int|
        inside(g, r, c) && (#[trigger] g[r][c]) is None && open_digits(g, r, c) == Set::<
            u8,
        >::empty();
    assert forall|s: Board| !is_filling(g, s) by {
        if is_filling(g, s) {
            lemma_filling_of_more(g, r, c, s);
        }
    }
    assert forall|s: Board| !is_solution(g, s) by {
        if is_solution(g, s) {
            super::rules::lemma_valid_below(g, s);
            lemma_filling_is_solution(g, s);
            lemma_filling_of_more(g, r, c, s);
        }
    }
}

/// The only filling of a filled board is that board.
pub proof fn lemma_filled_one_filling(g: Board)
    requires
        well_formed(g),
        filled(g),
    ensures
        fillable(g),
        first_filling(g, g),
        forall|s: Board| is_filling(g, s) ==> s == g,
{
    lemma_filled_fills_itself(g);
    assert forall|s: Board| is_filling(g, s) implies s == g by {
        super::rules::lemma_completes_filled(g, s);
    }
}

/// A board with one more digit extends the board.
pub proof fn lemma_put_extends(g: Board, r: int, c: int, d: u8, h: Board)
    requires
        well_formed(g),
        inside(g, r, c),
        g[r][c] is None,
        extends(put(g, r, c, Some(d)), h),
    ensures
        extends(g, h),
{
    let p = put(g, r, c, Some(d));
    assert forall|i: int, j: int| inside(g, i, j) && g[i][j] is Some implies (#[trigger] h[i][j])
        == g[i][j] by {
        assert(p[i][j] == g[i][j]);
    }
}

/// The cell that a search by fewest candidates takes next: the undecided
/// cell with the fewest candidates, the first in reading order among
/// several; none if every cell is decided.
pub open spec fn next_cell(a: Marks) -> Option<(int, int)> {
    if exists|r: int, c: int| fewest_at(a, r, c) {
        Some(choose|r: int, c: int| fewest_at(a, r, c))
    } else {
        None
    }
}

/// At most one cell has the fewest candidates and comes first among its
/// equals.
pub proof fn lemma_fewest_unique(a: Marks, r1: int, c1: int, r2: int, c2: int)
    requires
        fewest_at(a, r1, c1),
        fewest_at(a, r2, c2),
    ensures
        r1 == r2,
        c1 == c2,
{
    if before(r1, c1, r2, c2) {
        assert(a[r1][c1] is Possible);
        assert(count_at(a, r2, c2) < count_at(a, r1, c1));
        assert(a[r2][c2] is Possible);
        assert(count_at(a, r1, c1) <= count_at(a, r2, c2));
    } else if before(r2, c2, r1, c1) {
        assert(a[r2][c2] is Possible);
        assert(count_at(a, r1, c1) < count_at(a, r2, c2));
        assert(a[r1][c1] is Possible);
        assert(count_at(a, r2, c2) <= count_at(a, r1, c1));
    }
}

/// The cell with the fewest candidates is the next cell.
pub proof fn lemma_next_cell(a: Marks, r: int, c: int)
    requires
        fewest_at(a, r, c),
    ensures
        next_cell(a) == Some((r, c)),
{
    let (i, j) = choose|i: int, j: int| fewest_at(a, i, j);
    lemma_fewest_unique(a, r, c, i, j);
}

/// A grid in which every cell is decided has no next cell.
pub proof fn lemma_no_next_cell(a: Marks)
    requires
        filled(lowered(a)),
        marks_wf(a),
    ensures
        next_cell(a) is None,
{
    assert forall|r: int, c: int| !fewest_at(a, r, c) by {
        if fewest_at(a, r, c) {
            assert(lowered(a)[r].len() == a.len());
            assert(lowered(a)[r][c] is Some);
        }
    }
}

/// Deciding the next cell leaves fewer empty cells.
pub proof fn lemma_next_cell_fixed(a: Marks, d: u8)
    requires
        marks_wf(a),
        next_cell(a) is Some,
        d != 0,
    ensures
        ({
            let (r, c) = next_cell(a).unwrap();
            &&& inside(lowered(a), r, c)
            &&& a[r][c] is Possible
            &&& marks_wf(fixed(a, r, c, d))
            &&& blanks(lowered(fixed(a, r, c, d))) < blanks(lowered(a))
        }),
{
    let (r, c) = next_cell(a).unwrap();
    assert(fewest_at(a, r, c));
    assert(lowered(a)[r].len() == a.len());
    lemma_fixed_board(a, r, c, d);
    lemma_blanks_fill(lowered(a), r, c, Some(d));
}

/// A search by fewest candidates that tries the candidates of each cell in
/// ascending order comes to `s` before it comes to `t`: the two hold the same
/// digits in the cells that the search decides first, and in the next one the
/// digit of `s` is the smaller one.
pub open spec fn visits_before(a: Marks, s: Board, t: Board) -> bool
    decreases blanks(lowered(a)),
    via visits_before_decreases
{
    match next_cell(a) {
        None => false,
        Some((r, c)) => {
            &&& marks_wf(a)
            &&& s[r][c] is Some
            &&& t[r][c] is Some
            &&& s[r][c].unwrap() != 0
            &&& (s[r][c].unwrap() < t[r][c].unwrap() || (s[r][c] == t[r][c] && visits_before(
                fixed(a, r, c, s[r][c].unwrap()),
                s,
                t,
            )))
        },
    }
}

#[via_fn]
proof fn visits_before_decreases(a: Marks, s: Board, t: Board) {
    if next_cell(a) is Some {
        let (r, c) = next_cell(a).unwrap();
        if marks_wf(a) && s[r][c] is Some && s[r][c].unwrap() != 0 {
            lemma_next_cell_fixed(a, s[r][c].unwrap());
        }
    }
}

/// `s` is a filling of the board of `a`, and a search by fewest candidates
/// comes to every other filling after it.
pub open spec fn first_visited(a: Marks, s: Board) -> bool {
    &&& is_filling(lowered(a), s)
    &&& forall|t: Board| #[trigger] is_filling(lowered(a), t) ==> t == s || visits_before(a, s, t)
}

/// The candidate of a cell that has exactly one.
pub open spec fn forced_digit(a: Marks, r: int, c: int) -> Option<u8> {
    match a[r][c] {
        CellState::Fixed(_) => None,
        CellState::Possible(only) => if only.len() == 1 {
            Some(only.choose())
        } else {
            None
        },
    }
}

/// `a` after every decision that is forced: as long as the next cell has
/// exactly one candidate, it is decided as that candidate.
pub open spec fn settled(a: Marks) -> Marks
    decreases blanks(lowered(a)),
    via settled_decreases
{
    match next_cell(a) {
        None => a,
        Some((r, c)) => if marks_wf(a) && forced_digit(a, r, c) is Some {
            settled(fixed(a, r, c, forced_digit(a, r, c).unwrap()))
        } else {
            a
        },
    }
}

#[via_fn]
proof fn settled_decreases(a: Marks) {
    if next_cell(a) is Some {
        let (r, c) = next_cell(a).unwrap();
        if marks_wf(a) && forced_digit(a, r, c) is Some {
            lemma_forced_digit(a, r, c);
            lemma_next_cell_fixed(a, forced_digit(a, r, c).unwrap());
        }
    }
}

/// The forced digit of a cell is its one candidate, and a digit of the
/// board.
pub proof fn lemma_forced_digit(a: Marks, r: int, c: int)
    requires
        marks_wf(a),
        inside(lowered(a), r, c) || next_cell(a) == Some((r, c)),
        forced_digit(a, r, c) is Some,
    ensures
        a[r][c] == CellState::Possible(set![forced_digit(a, r, c).unwrap()]),
        1 <= forced_digit(a, r, c).unwrap() <= a.len(),
{
    if next_cell(a) == Some((r, c)) {
        assert(fewest_at(a, r, c));
    }
    assert(lowered(a)[r].len() == a.len());
    let only = a[r][c]->Possible_0;
    let d = only.choose();
    assert(only.contains(d));
    assert(only.remove(d).len() == 0);
    only.remove(d).lemma_len0_is_empty();
    assert(only =~= set![d]);
}

/// A cell whose candidates are one digit alone is forced to it.
pub proof fn lemma_forced_is(a: Marks, r: int, c: int, d: u8)
    requires
        a[r][c] == CellState::Possible(set![d]),
    ensures
        forced_digit(a, r, c) == Some(d),
{
    let only = set![d];
    assert(only.len() == 1) by {
        assert(only =~= Set::<u8>::empty().insert(d));
    }
    assert(only.contains(only.choose())) by {
        assert(only.contains(d));
    }
}

} // verus!
