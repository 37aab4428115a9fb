//! The mathematical model of a board: its shape, the peer relation, validity,
//! and what it means for one board to complete another.

use vstd::arithmetic::div_mod::{
    lemma_div_multiples_vanish, lemma_fundamental_div_mod, lemma_fundamental_div_mod_converse,
    lemma_mod_bound,
};
use vstd::prelude::*;

verus! {

/// A board as a sequence of rows, each a sequence of cells; `None` is an
/// empty cell.
pub type Board = Seq<Seq<Option<u8>>>;

/// `k` is the side of a box of a board of side `n`.
pub open spec fn is_box_side(k: int, n: int) -> bool {
    2 <= k < 16 && k * k == n
}

/// The board sides this library works with: the squares 4, 9, ..., 225.
pub open spec fn supported_order(n: int) -> bool {
    exists|k: int| is_box_side(k, n)
}

/// The side of a box of a board of side `n`.
pub open spec fn box_side(n: int) -> int {
    choose|k: int| is_box_side(k, n)
}

/// The board has a supported side and every row is as long as the board is
/// high.
pub open spec fn square(g: Board) -> bool {
    &&& supported_order(g.len() as int)
    &&& forall|r: int| 0 <= r < g.len() ==> (#[trigger] g[r]).len() == g.len()
}

/// `(r, c)` names a cell of `g`.
pub open spec fn inside(g: Board, r: int, c: int) -> bool {
    0 <= r < g.len() && 0 <= c < g.len()
}

/// A square board on which no cell holds the digit zero.
pub open spec fn well_formed(g: Board) -> bool {
    &&& square(g)
    &&& forall|r: int, c: int| inside(g, r, c) ==> (#[trigger] g[r][c]) != Some(0u8)
}

/// Two cells lie in the same box, for boxes of side `k`.
pub open spec fn same_box(k: int, r1: int, c1: int, r2: int, c2: int) -> bool {
    r1 / k == r2 / k && c1 / k == c2 / k
}

/// Two cells share a row, a column or a box.
pub open spec fn same_unit(k: int, r1: int, c1: int, r2: int, c2: int) -> bool {
    r1 == r2 || c1 == c2 || same_box(k, r1, c1, r2, c2)
}

/// Two distinct cells that share a row, a column or a box.
pub open spec fn peers(k: int, r1: int, c1: int, r2: int, c2: int) -> bool {
    (r1 != r2 || c1 != c2) && same_unit(k, r1, c1, r2, c2)
}

/// Two peer cells of `g` hold the same digit.
pub open spec fn conflict(g: Board, r1: int, c1: int, r2: int, c2: int) -> bool {
    &&& inside(g, r1, c1)
    &&& inside(g, r2, c2)
    &&& peers(box_side(g.len() as int), r1, c1, r2, c2)
    &&& g[r1][c1] is Some
    &&& g[r1][c1] == g[r2][c2]
}

/// No row, column or box of `g` holds a digit twice.
pub open spec fn valid(g: Board) -> bool {
    forall|r1: int, c1: int, r2: int, c2: int| !#[trigger] conflict(g, r1, c1, r2, c2)
}

/// No cell of `g` is empty.
pub open spec fn filled(g: Board) -> bool {
    forall|r: int, c: int| inside(g, r, c) ==> (#[trigger] g[r][c]) is Some
}

/// Every cell holds a digit and no unit holds one twice.
pub open spec fn solved(g: Board) -> bool {
    filled(g) && valid(g)
}

/// `(r1, c1)` comes before `(r2, c2)` in reading order.
pub open spec fn before(r1: int, c1: int, r2: int, c2: int) -> bool {
    r1 < r2 || (r1 == r2 && c1 < c2)
}

/// The board `g` with cell `(r, c)` replaced by `v`.
pub open spec fn put(g: Board, r: int, c: int, v: Option<u8>) -> Board {
    g.update(r, g[r].update(c, v))
}

/// The side of a box is determined by the side of the board.
pub proof fn lemma_box_side(n: int, k: int)
    requires
        is_box_side(k, n),
    ensures
        supported_order(n),
        box_side(n) == k,
{
    let j = box_side(n);
    assert(is_box_side(j, n));
    assert(j == k) by (nonlinear_arith)
        requires
            j * j == k * k,
            2 <= j,
            2 <= k,
    ;
}

/// Some list in `groups` holds the digit of its position `i` again at a later
/// position `j`.
pub open spec fn repeat_at(groups: Board, g: int, i: int, j: int) -> bool {
    &&& 0 <= g < groups.len()
    &&& 0 <= i < j < groups[g].len()
    &&& groups[g][i] is Some
    &&& groups[g][i] == groups[g][j]
}

/// No list in `groups` holds a digit twice.
pub open spec fn no_repeats(groups: Board) -> bool {
    forall|g: int, i: int, j: int| !#[trigger] repeat_at(groups, g, i, j)
}

/// The columns of `m`, left to right, each with its cells top to bottom.
pub open spec fn transposed(m: Board) -> Board {
    Seq::new(m[0].len(), |c: int| Seq::new(m.len(), |r: int| m[r][c]))
}

/// The whole `k` by `k` blocks of `m`, block rows top to bottom and within one
/// left to right; each block lists its cells row by row.
pub open spec fn blocks(m: Board, k: int) -> Board {
    let across = m[0].len() as int / k;
    let down = m.len() as int / k;
    Seq::new(
        (down * across) as nat,
        |b: int|
            Seq::new(
                (k * k) as nat,
                |p: int| m[(b / across) * k + p / k][(b % across) * k + p % k],
            ),
    )
}

/// The index, among the blocks, of the box that holds `(r, c)`.
pub open spec fn block_of(k: int, r: int, c: int) -> int {
    (r / k) * k + c / k
}

/// The position of `(r, c)` inside its box.
pub open spec fn slot_of(k: int, r: int, c: int) -> int {
    (r % k) * k + c % k
}

/// A number below `k * k` is determined by its quotient and remainder by `k`.
pub proof fn lemma_compose(k: int, q: int, a: int)
    requires
        0 < k,
        0 <= q < k,
        0 <= a < k,
    ensures
        (q * k + a) / k == q,
        (q * k + a) % k == a,
        0 <= q * k + a < k * k,
{
    lemma_fundamental_div_mod_converse(q * k + a, k, q, a);
    assert(0 <= q * k + a < k * k) by (nonlinear_arith)
        requires
            0 < k,
            0 <= q < k,
            0 <= a < k,
    ;
}

/// Quotient and remainder by `k` of a number below `k * k` are below `k` and
/// give the number back.
pub proof fn lemma_split(k: int, x: int)
    requires
        0 < k,
        0 <= x < k * k,
    ensures
        0 <= x / k < k,
        0 <= x % k < k,
        x == (x / k) * k + x % k,
{
    lemma_fundamental_div_mod(x, k);
    lemma_mod_bound(x, k);
    assert(k * (x / k) == (x / k) * k) by (nonlinear_arith);
    assert(0 <= x / k < k) by (nonlinear_arith)
        requires
            0 < k,
            0 <= x < k * k,
            x == (x / k) * k + x % k,
            0 <= x % k < k,
    ;
}

/// A board of side `k * k` has `k * k` blocks of `k * k` cells.
pub proof fn lemma_blocks_shape(m: Board, k: int)
    requires
        square(m),
        k == box_side(m.len() as int),
    ensures
        2 <= k < 16,
        m.len() == k * k,
        m[0].len() as int / k == k,
        m.len() as int / k == k,
        blocks(m, k).len() == k * k,
        transposed(m).len() == m.len(),
{
    assert(is_box_side(k, m.len() as int));
    assert(k * k >= 4) by (nonlinear_arith)
        requires
            2 <= k,
    ;
    assert(m[0].len() == m.len());
    lemma_div_multiples_vanish(k, k);
}

/// The cell `(r, c)` is found in the blocks at its block index and slot.
pub proof fn lemma_cell_in_blocks(m: Board, k: int, r: int, c: int)
    requires
        square(m),
        k == box_side(m.len() as int),
        inside(m, r, c),
    ensures
        0 <= block_of(k, r, c) < k * k,
        0 <= slot_of(k, r, c) < k * k,
        blocks(m, k)[block_of(k, r, c)].len() == k * k,
        blocks(m, k)[block_of(k, r, c)][slot_of(k, r, c)] == m[r][c],
{
    lemma_blocks_shape(m, k);
    lemma_split(k, r);
    lemma_split(k, c);
    lemma_compose(k, r / k, c / k);
    lemma_compose(k, r % k, c % k);
}

/// Slot `p` of block `b` is a cell of the board, in the box that `b` names.
pub proof fn lemma_blocks_cell(m: Board, k: int, b: int, p: int) -> (cell: (int, int))
    requires
        square(m),
        k == box_side(m.len() as int),
        0 <= b < k * k,
        0 <= p < k * k,
    ensures
        cell == ((b / k) * k + p / k, (b % k) * k + p % k),
        inside(m, cell.0, cell.1),
        blocks(m, k)[b][p] == m[cell.0][cell.1],
        cell.0 / k == b / k,
        cell.1 / k == b % k,
        slot_of(k, cell.0, cell.1) == p,
{
    lemma_blocks_shape(m, k);
    lemma_split(k, b);
    lemma_split(k, p);
    lemma_compose(k, b / k, p / k);
    lemma_compose(k, b % k, p % k);
    ((b / k) * k + p / k, (b % k) * k + p % k)
}

/// Two cells of one box that sit at the same slot are the same cell.
pub proof fn lemma_slot_injective(k: int, r1: int, c1: int, r2: int, c2: int)
    requires
        0 < k,
        0 <= r1 < k * k,
        0 <= c1 < k * k,
        0 <= r2 < k * k,
        0 <= c2 < k * k,
        same_box(k, r1, c1, r2, c2),
        slot_of(k, r1, c1) == slot_of(k, r2, c2),
    ensures
        r1 == r2,
        c1 == c2,
{
    lemma_split(k, r1);
    lemma_split(k, c1);
    lemma_split(k, r2);
    lemma_split(k, c2);
    lemma_compose(k, r1 % k, c1 % k);
    lemma_compose(k, r2 % k, c2 % k);
}

/// Two cells have the same block index exactly when they lie in the same
/// box.
pub proof fn lemma_block_of_same_box(k: int, r1: int, c1: int, r2: int, c2: int)
    requires
        0 < k,
        0 <= r1 < k * k,
        0 <= c1 < k * k,
        0 <= r2 < k * k,
        0 <= c2 < k * k,
    ensures
        block_of(k, r1, c1) == block_of(k, r2, c2) <==> same_box(k, r1, c1, r2, c2),
        0 <= block_of(k, r1, c1) < k * k,
{
    lemma_split(k, r1);
    lemma_split(k, c1);
    lemma_split(k, r2);
    lemma_split(k, c2);
    lemma_compose(k, r1 / k, c1 / k);
    lemma_compose(k, r2 / k, c2 / k);
}

/// A board is valid exactly when no row, no column and no box holds a digit
/// twice.
pub proof fn lemma_valid_by_units(m: Board)
    requires
        square(m),
    ensures
        valid(m) <==> no_repeats(m) && no_repeats(transposed(m)) && no_repeats(
            blocks(m, box_side(m.len() as int)),
        ),
{
    let k = box_side(m.len() as int);
    let n = m.len() as int;
    lemma_blocks_shape(m, k);
    if valid(m) {
        assert forall|g: int, i: int, j: int| !#[trigger] repeat_at(m, g, i, j) by {
            if repeat_at(m, g, i, j) {
                assert(conflict(m, g, i, g, j));
            }
        }
        assert forall|g: int, i: int, j: int| !#[trigger] repeat_at(transposed(m), g, i, j) by {
            if repeat_at(transposed(m), g, i, j) {
                assert(conflict(m, i, g, j, g));
            }
        }
        assert forall|g: int, i: int, j: int| !#[trigger] repeat_at(blocks(m, k), g, i, j) by {
            if repeat_at(blocks(m, k), g, i, j) {
                let a = lemma_blocks_cell(m, k, g, i);
                let b = lemma_blocks_cell(m, k, g, j);
                assert(conflict(m, a.0, a.1, b.0, b.1));
            }
        }
    }
    if no_repeats(m) && no_repeats(transposed(m)) && no_repeats(blocks(m, k)) {
        assert forall|r1: int, c1: int, r2: int, c2: int| !#[trigger] conflict(
            m,
            r1,
            c1,
            r2,
            c2,
        ) by {
            if conflict(m, r1, c1, r2, c2) {
                if r1 == r2 {
                    assert(repeat_at(m, r1, c1, c2) || repeat_at(m, r1, c2, c1));
                } else if c1 == c2 {
                    assert(repeat_at(transposed(m), c1, r1, r2) || repeat_at(
                        transposed(m),
                        c1,
                        r2,
                        r1,
                    ));
                } else {
                    lemma_cell_in_blocks(m, k, r1, c1);
                    lemma_cell_in_blocks(m, k, r2, c2);
                    let b = block_of(k, r1, c1);
                    assert(block_of(k, r2, c2) == b);
                    let first = slot_of(k, r1, c1);
                    let second = slot_of(k, r2, c2);
                    if first == second {
                        lemma_slot_injective(k, r1, c1, r2, c2);
                    }
                    assert(repeat_at(blocks(m, k), b, first, second) || repeat_at(
                        blocks(m, k),
                        b,
                        second,
                        first,
                    ));
                }
            }
        }
    }
}

/// `v` is a digit of a board of side `n`.
pub open spec fn is_digit(v: Option<u8>, n: int) -> bool {
    v matches Some(d) && 1 <= d <= n
}

/// `s` has the side of `g` and keeps every digit that `g` holds.
pub open spec fn extends(g: Board, s: Board) -> bool {
    &&& s.len() == g.len()
    &&& forall|r: int, c: int| inside(g, r, c) && g[r][c] is Some ==> (#[trigger] s[r][c]) == g[r][c]
}

/// `s` fills every empty cell of `g` with a digit of the board and changes
/// nothing else.
pub open spec fn completes(g: Board, s: Board) -> bool {
    &&& well_formed(s)
    &&& filled(s)
    &&& extends(g, s)
    &&& forall|r: int, c: int|
        inside(g, r, c) && g[r][c] is None ==> is_digit(#[trigger] s[r][c], g.len() as int)
}

/// `s` completes `g` and is valid.
pub open spec fn is_solution(g: Board, s: Board) -> bool {
    completes(g, s) && valid(s)
}

/// Some board completes `g` and is valid.
pub open spec fn solvable(g: Board) -> bool {
    exists|s: Board| is_solution(g, s)
}

/// Some solution of `g` holds `d` at `(r, c)`.
pub open spec fn solvable_with(g: Board, r: int, c: int, d: u8) -> bool {
    exists|s: Board| #[trigger] is_solution(g, s) && s[r][c] == Some(d)
}

/// The number of empty cells in a row.
pub open spec fn blanks_in(row: Seq<Option<u8>>) -> nat
    decreases row.len(),
{
    if row.len() == 0 {
        0
    } else {
        blanks_in(row.drop_last()) + if row.last() is None {
            1nat
        } else {
            0nat
        }
    }
}

/// The number of empty cells on a board.
pub open spec fn blanks(g: Board) -> nat
    decreases g.len(),
{
    if g.len() == 0 {
        0
    } else {
        blanks(g.drop_last()) + blanks_in(g.last())
    }
}

/// Filling an empty cell of a row leaves one empty cell fewer.
pub proof fn lemma_blanks_in_fill(row: Seq<Option<u8>>, c: int, v: Option<u8>)
    requires
        0 <= c < row.len(),
        row[c] is None,
        v is Some,
    ensures
        blanks_in(row.update(c, v)) + 1 == blanks_in(row),
    decreases row.len(),
{
    let filled_row = row.update(c, v);
    if c == row.len() - 1 {
        assert(filled_row.drop_last() =~= row.drop_last());
    } else {
        assert(filled_row.drop_last() =~= row.drop_last().update(c, v));
        lemma_blanks_in_fill(row.drop_last(), c, v);
    }
}

/// Filling an empty cell of a board leaves one empty cell fewer.
pub proof fn lemma_blanks_fill(g: Board, r: int, c: int, v: Option<u8>)
    requires
        0 <= r < g.len(),
        0 <= c < g[r].len(),
        g[r][c] is None,
        v is Some,
    ensures
        blanks(put(g, r, c, v)) + 1 == blanks(g),
    decreases g.len(),
{
    let h = put(g, r, c, v);
    if r == g.len() - 1 {
        assert(h.drop_last() =~= g.drop_last());
        lemma_blanks_in_fill(g[r], c, v);
    } else {
        assert(h.drop_last() =~= put(g.drop_last(), r, c, v));
        lemma_blanks_fill(g.drop_last(), r, c, v);
    }
}

/// Writing into a cell keeps the board well formed, as long as it is no zero.
pub proof fn lemma_put_well_formed(g: Board, r: int, c: int, v: Option<u8>)
    requires
        well_formed(g),
        inside(g, r, c),
        v != Some(0u8),
    ensures
        well_formed(put(g, r, c, v)),
        put(g, r, c, v).len() == g.len(),
        forall|i: int, j: int|
            inside(g, i, j) ==> #[trigger] put(g, r, c, v)[i][j] == if i == r && j == c {
                v
            } else {
                g[i][j]
            },
{
}

/// A board that a valid board extends is valid.
pub proof fn lemma_valid_below(g: Board, s: Board)
    requires
        extends(g, s),
        valid(s),
    ensures
        valid(g),
{
    assert forall|r1: int, c1: int, r2: int, c2: int| !#[trigger] conflict(g, r1, c1, r2, c2) by {
        if conflict(g, r1, c1, r2, c2) {
            assert(s[r1][c1] == g[r1][c1]);
            assert(s[r2][c2] == g[r2][c2]);
            assert(conflict(s, r1, c1, r2, c2));
        }
    }
}

/// A solution of the board with one more digit is a solution of the board.
pub proof fn lemma_solution_of_less(g: Board, r: int, c: int, d: u8, s: Board)
    requires
        well_formed(g),
        inside(g, r, c),
        g[r][c] is None,
        1 <= d <= g.len(),
        is_solution(put(g, r, c, Some(d)), s),
    ensures
        is_solution(g, s),
        s[r][c] == Some(d),
{
    let h = put(g, r, c, Some(d));
    lemma_put_well_formed(g, r, c, Some(d));
    assert(s[r][c] == h[r][c]);
    assert forall|i: int, j: int| inside(g, i, j) && g[i][j] is Some implies (#[trigger] s[i][j])
        == g[i][j] by {
        assert(h[i][j] == g[i][j]);
    }
    assert forall|i: int, j: int| inside(g, i, j) && g[i][j] is None implies is_digit(
        #[trigger] s[i][j],
        g.len() as int,
    ) by {
        if i == r && j == c {
        } else {
            assert(h[i][j] is None);
        }
    }
}

/// A solution of the board is a solution of the board with one of the
/// solution's digits written in.
pub proof fn lemma_solution_of_more(g: Board, r: int, c: int, s: Board)
    requires
        well_formed(g),
        inside(g, r, c),
        g[r][c] is None,
        is_solution(g, s),
    ensures
        is_digit(s[r][c], g.len() as int),
        is_solution(put(g, r, c, s[r][c]), s),
{
    let h = put(g, r, c, s[r][c]);
    lemma_put_well_formed(g, r, c, s[r][c]);
    assert forall|i: int, j: int| inside(h, i, j) && h[i][j] is Some implies (#[trigger] s[i][j])
        == h[i][j] by {
        if i == r && j == c {
        } else {
            assert(h[i][j] == g[i][j]);
        }
    }
    assert forall|i: int, j: int| inside(h, i, j) && h[i][j] is None implies is_digit(
        #[trigger] s[i][j],
        h.len() as int,
    ) by {
        assert(h[i][j] == g[i][j]);
    }
}

/// The only board that completes a filled board is that board.
pub proof fn lemma_completes_filled(g: Board, s: Board)
    requires
        well_formed(g),
        filled(g),
        completes(g, s),
    ensures
        s == g,
{
    assert forall|r: int| 0 <= r < g.len() implies #[trigger] s[r] == g[r] by {
        assert forall|c: int| 0 <= c < g[r].len() implies #[trigger] s[r][c] == g[r][c] by {
            assert(inside(g, r, c));
            assert(g[r][c] is Some);
        }
        assert(s[r] =~= g[r]);
    }
    assert(s =~= g);
}

/// A filled board completes itself.
pub proof fn lemma_filled_completes_itself(g: Board)
    requires
        well_formed(g),
        filled(g),
    ensures
        completes(g, g),
{
}

/// `s` and `t` hold the same digits before `(r, c)` in reading order, and
/// at `(r, c)` the digit of `s` is the smaller one.
pub open spec fn precedes_at(s: Board, t: Board, r: int, c: int) -> bool {
    &&& inside(s, r, c)
    &&& forall|i: int, j: int|
        inside(s, i, j) && before(i, j, r, c) ==> (#[trigger] s[i][j]) == t[i][j]
    &&& s[r][c] is Some
    &&& t[r][c] is Some
    &&& s[r][c].unwrap() < t[r][c].unwrap()
}

/// `s` comes before `t` when the two are read row by row and compared at the
/// first cell in which they differ.
pub open spec fn precedes(s: Board, t: Board) -> bool {
    exists|r: int, c: int| precedes_at(s, t, r, c)
}

/// `s` is a solution of `g`, and every other solution of `g` comes after it
/// in reading order.
pub open spec fn first_solution(g: Board, s: Board) -> bool {
    &&& is_solution(g, s)
    &&& forall|t: Board| #[trigger] is_solution(g, t) ==> t == s || precedes(s, t)
}

/// Two boards that complete `g` agree up to the first empty cell of `g`; the
/// one with the smaller digit there comes first.
pub proof fn lemma_precedes_at_first_empty(g: Board, r: int, c: int, s: Board, t: Board)
    requires
        well_formed(g),
        inside(g, r, c),
        g[r][c] is None,
        forall|i: int, j: int| inside(g, i, j) && before(i, j, r, c) ==> (#[trigger] g[i][j]) is Some,
        completes(g, s),
        completes(g, t),
        s[r][c].unwrap() < t[r][c].unwrap(),
    ensures
        precedes(s, t),
{
    assert forall|i: int, j: int| inside(s, i, j) && before(i, j, r, c) implies (#[trigger] s[i][j])
        == t[i][j] by {
        assert(g[i][j] is Some);
        assert(s[i][j] == g[i][j]);
        assert(t[i][j] == g[i][j]);
    }
    assert(s[r][c] is Some);
    assert(t[r][c] is Some);
    assert(precedes_at(s, t, r, c));
}

} // verus!
