//! The grid with candidates: every cell is either decided or carries the set
//! of digits that are still possible for it.

use super::candidates;
use super::candidates::{CellState, Marks};
use super::rules;
use super::storage;
use super::storage::CandidateArray;
use super::{Sudoku, SudokuValue};
use std::collections::HashSet;
use vstd::prelude::*;
use vstd::std_specs::hash::group_hash_axioms;

verus! {

broadcast use group_hash_axioms;

/// One cell of a grid with candidates.
#[derive(Debug)]
pub enum AugmentedValue {
    Fixed(u8),
    Possible(HashSet<u8>),
}

impl View for AugmentedValue {
    type V = CellState;

    open spec fn view(&self) -> CellState {
        match self {
            AugmentedValue::Fixed(d) => CellState::Fixed(*d),
            AugmentedValue::Possible(s) => CellState::Possible(s@),
        }
    }
}

impl Clone for AugmentedValue {
    fn clone(&self) -> (copy: Self)
        ensures
            copy@ == self@,
    {
        match self {
            AugmentedValue::Fixed(d) => AugmentedValue::Fixed(*d),
            AugmentedValue::Possible(s) => AugmentedValue::Possible(storage::digits_clone(s)),
        }
    }
}

impl AugmentedValue {
    /// Whether the cell is decided.
    pub fn is_fixed(&self) -> (b: bool)
        ensures
            b == (self@ is Fixed),
    {
        match self {
            AugmentedValue::Fixed(_) => true,
            AugmentedValue::Possible(_) => false,
        }
    }

    /// Strikes `value` from the candidates of an undecided cell, and says
    /// whether it was one. A decided cell is left alone.
    pub fn remove(&mut self, value: u8) -> (was_candidate: bool)
        ensures
            final(self)@ == candidates::without(old(self)@, value),
            was_candidate == (old(self)@ matches CellState::Possible(s) && s.contains(value)),
    {
        match self {
            AugmentedValue::Fixed(_) => false,
            AugmentedValue::Possible(possible) => possible.remove(&value),
        }
    }

    /// The decided cell that holds `value`.
    pub fn from(value: u8) -> (cell: Self)
        ensures
            cell@ == CellState::Fixed(value),
    {
        AugmentedValue::Fixed(value)
    }

    /// The undecided cell whose candidates are the digits in `iter`.
    pub fn from_iter(iter: Vec<u8>) -> (cell: Self)
        ensures
            cell@ == CellState::Possible(iter@.to_set()),
            iter@.to_set().finite(),
    {
        let mut possible: HashSet<u8> = HashSet::new();
        let mut i: usize = 0;
        while i < iter.len()
            invariant
                i <= iter@.len(),
                possible@.finite(),
                possible@ == iter@.take(i as int).to_set(),
            decreases iter@.len() - i,
        {
            possible.insert(iter[i]);
            i += 1;
            assert(possible@ =~= iter@.take(i as int).to_set()) by {
                let now = iter@.take(i as int);
                let was = iter@.take(i - 1);
                assert(now =~= was.push(iter@[i - 1]));
                assert forall|d: u8| now.to_set().contains(d) <==> was.to_set().insert(
                    iter@[i - 1],
                ).contains(d) by {
                    if now.contains(d) {
                        let j = choose|j: int| 0 <= j < now.len() && now[j] == d;
                        if j < was.len() {
                            assert(was[j] == d);
                        }
                    }
                    if was.contains(d) {
                        let j = choose|j: int| 0 <= j < was.len() && was[j] == d;
                        assert(now[j] == d);
                    }
                    if d == iter@[i - 1] {
                        assert(now[i - 1] == d);
                    }
                }
            }
        }
        assert(iter@.take(iter@.len() as int) =~= iter@);
        AugmentedValue::Possible(possible)
    }

    /// The undecided cell for which every digit of a board of side `order`
    /// is possible.
    pub fn any_digit(order: usize) -> (cell: Self)
        requires
            order <= 225,
        ensures
            cell@ == CellState::Possible(candidates::all_digits(order as int)),
            candidates::all_digits(order as int).finite(),
    {
        let mut digits: Vec<u8> = Vec::new();
        let mut digit: u8 = 1;
        while digit as usize <= order
            invariant
                order <= 225,
                1 <= digit <= order + 1,
                digits@.len() == digit - 1,
                forall|i: int| 0 <= i < digits@.len() ==> #[trigger] digits@[i] == i + 1,
            decreases order + 1 - digit,
        {
            digits.push(digit);
            digit += 1;
        }
        proof {
            assert forall|d: u8|
                digits@.to_set().contains(d) <==> candidates::all_digits(order as int).contains(
                    d,
                ) by {
                if 1 <= d <= order {
                    assert(digits@[d - 1] == d);
                }
            }
            assert(digits@.to_set() =~= candidates::all_digits(order as int));
        }
        Self::from_iter(digits)
    }
}

impl SudokuValue {
    /// The grid cell that stands for a cell with candidates.
    pub fn from(value: AugmentedValue) -> (cell: Self)
        ensures
            cell@ == candidates::lower_cell(value@),
    {
        SudokuValue(
            match value {
                AugmentedValue::Fixed(val) => Some(val),
                AugmentedValue::Possible(_) => None,
            },
        )
    }
}

/// A grid with candidates, with the side of the grid and of its boxes kept
/// beside the cells.
#[derive(Debug)]
pub struct AugmentedSudoku {
    cell_size: usize,
    order: usize,
    data: CandidateArray,
}

impl View for AugmentedSudoku {
    type V = Marks;

    closed spec fn view(&self) -> Marks {
        storage::candidate_rows(self.data)
    }
}

impl Clone for AugmentedSudoku {
    fn clone(&self) -> (copy: Self)
        ensures
            copy@ == self@,
            self.wf() ==> copy.wf(),
    {
        AugmentedSudoku {
            cell_size: self.cell_size,
            order: self.order,
            data: storage::marks_clone(&self.data),
        }
    }
}

impl AugmentedSudoku {
    /// The cells form a well-formed grid with candidates, and the two sides
    /// kept beside them are those of the grid and of its boxes.
    pub closed spec fn wf(&self) -> bool {
        &&& candidates::marks_wf(self@)
        &&& self.order == self@.len()
        &&& rules::is_box_side(self.cell_size as int, self.order as int)
    }

    /// What `wf` says of the cells.
    pub proof fn lemma_wf(&self)
        requires
            self.wf(),
        ensures
            candidates::marks_wf(self@),
            rules::well_formed(candidates::lowered(self@)),
            candidates::lowered(self@).len() == self@.len(),
            4 <= self@.len() <= 225,
    {
        super::lemma_order_bounds(self@.len() as int);
    }

    /// The side of the grid.
    pub fn order(&self) -> (n: usize)
        requires
            self.wf(),
        ensures
            n == self@.len(),
    {
        self.order
    }

    /// The side of a box.
    pub fn cell_size(&self) -> (k: usize)
        requires
            self.wf(),
        ensures
            k == rules::box_side(self@.len() as int),
            rules::is_box_side(k as int, self@.len() as int),
    {
        proof {
            rules::lemma_box_side(self.order as int, self.cell_size as int);
        }
        self.cell_size
    }

    /// The cell at row `r`, column `c`.
    pub fn get(&self, r: usize, c: usize) -> (cell: &AugmentedValue)
        requires
            self.wf(),
            rules::inside(candidates::lowered(self@), r as int, c as int),
        ensures
            cell@ == self@[r as int][c as int],
    {
        proof {
            assert(candidates::lowered(self@)[r as int].len() == self@.len());
        }
        storage::marks_get(&self.data, r, c)
    }

    /// Strikes `value` from the candidates of every cell in the row, the
    /// column and the box of `ix`.
    pub fn remove_value(&mut self, ix: (usize, usize), value: u8)
        requires
            old(self).wf(),
            rules::inside(candidates::lowered(old(self)@), ix.0 as int, ix.1 as int),
        ensures
            final(self).wf(),
            final(self)@ == candidates::removed(old(self)@, ix.0 as int, ix.1 as int, value),
            candidates::lowered(final(self)@) == candidates::lowered(old(self)@),
    {
        let (row, col) = ix;
        let ghost a = self@;
        let ghost k = self.cell_size as int;
        proof {
            rules::lemma_box_side(self.order as int, k);
            rules::lemma_blocks_shape(candidates::lowered(a), k);
            rules::lemma_split(k, row as int);
            rules::lemma_split(k, col as int);
            rules::lemma_compose(k, row as int / k, col as int / k);
            assert(candidates::lowered(a)[0].len() == a.len());
            assert(candidates::lowered(a)[row as int].len() == a.len());
        }
        let chunk = (row / self.cell_size) * self.cell_size + col / self.cell_size;
        storage::marks_remove_in_row(&mut self.data, row, value);
        let ghost a1 = self@;
        proof {
            candidates::lemma_strike_keeps_board(a, |r: int, c: int| r == row, value);
            assert(candidates::lowered(a1)[0].len() == a.len());
        }
        storage::marks_remove_in_column(&mut self.data, col, value);
        let ghost a2 = self@;
        proof {
            candidates::lemma_strike_keeps_board(a1, |r: int, c: int| c == col, value);
            assert(candidates::lowered(a2)[0].len() == a.len());
        }
        storage::marks_remove_in_chunk(&mut self.data, self.cell_size, chunk, value);
        proof {
            let a3 = self@;
            let hit = |r: int, c: int| storage::in_block(a2, k, chunk as int, r, c);
            candidates::lemma_strike_keeps_board(a2, hit, value);
            assert forall|i: int, j: int| rules::inside(candidates::lowered(a), i, j) implies (
            #[trigger] a3[i][j]) == if rules::same_box(k, row as int, col as int, i, j) {
                candidates::without(a2[i][j], value)
            } else {
                a2[i][j]
            } by {
                assert(candidates::lowered(a2)[i].len() == a.len());
                rules::lemma_block_of_same_box(k, row as int, col as int, i, j);
                assert(hit(i, j) == rules::same_box(k, row as int, col as int, i, j));
            }
            assert forall|i: int| 0 <= i < a.len() implies (#[trigger] a3[i]).len() == a.len() by {
                assert(candidates::lowered(a3)[i].len() == a.len());
            }
            candidates::lemma_removed_in_steps(a, row as int, col as int, value, a1, a2, a3);
            candidates::lemma_strike_keeps_board(
                a,
                |i: int, j: int| rules::same_unit(rules::box_side(a.len() as int), row as int, col as int, i, j),
                value,
            );
        }
    }

    /// Decides the cell `ix` as `value`, in place, and strikes `value` from
    /// the candidates of its row, column and box.
    pub fn fix_value_inplace(&mut self, ix: (usize, usize), value: u8)
        requires
            old(self).wf(),
            rules::inside(candidates::lowered(old(self)@), ix.0 as int, ix.1 as int),
            value != 0,
        ensures
            final(self).wf(),
            final(self)@ == candidates::fixed(old(self)@, ix.0 as int, ix.1 as int, value),
            candidates::lowered(final(self)@) == rules::put(
                candidates::lowered(old(self)@),
                ix.0 as int,
                ix.1 as int,
                Some(value),
            ),
            candidates::is_candidate(old(self)@, ix.0 as int, ix.1 as int, value)
                && candidates::consistent(old(self)@) ==> candidates::consistent(final(self)@) && (
            rules::valid(candidates::lowered(old(self)@)) ==> rules::valid(
                candidates::lowered(final(self)@),
            )),
    {
        let ghost a = self@;
        proof {
            assert(candidates::lowered(a)[ix.0 as int].len() == a.len());
            candidates::lemma_fixed_board(a, ix.0 as int, ix.1 as int, value);
            candidates::lemma_marked_wf(a, ix.0 as int, ix.1 as int, value);
            if candidates::is_candidate(a, ix.0 as int, ix.1 as int, value) && candidates::consistent(a) {
                candidates::lemma_fixed_consistent(a, ix.0 as int, ix.1 as int, value);
                if rules::valid(candidates::lowered(a)) {
                    super::laws::lemma_fix_keeps_valid(a, ix.0 as int, ix.1 as int, value);
                }
            }
        }
        storage::marks_set(&mut self.data, ix.0, ix.1, AugmentedValue::from(value));
        self.remove_value(ix, value);
    }

    /// A copy of the grid with the cell `ix` decided as `value` and `value`
    /// struck from the candidates of its row, column and box.
    pub fn fix_value(&self, ix: (usize, usize), value: u8) -> (next: Self)
        requires
            self.wf(),
            rules::inside(candidates::lowered(self@), ix.0 as int, ix.1 as int),
            value != 0,
        ensures
            next.wf(),
            next@ == candidates::fixed(self@, ix.0 as int, ix.1 as int, value),
            candidates::lowered(next@) == rules::put(
                candidates::lowered(self@),
                ix.0 as int,
                ix.1 as int,
                Some(value),
            ),
            candidates::is_candidate(self@, ix.0 as int, ix.1 as int, value)
                && candidates::consistent(self@) ==> candidates::consistent(next@) && (rules::valid(
                candidates::lowered(self@),
            ) ==> rules::valid(candidates::lowered(next@))),
    {
        let mut new = self.clone();
        new.fix_value_inplace(ix, value);
        new
    }

    /// The grid with candidates that `value` starts as: a decided cell for
    /// each digit, and every digit possible in each empty cell.
    pub fn from(value: Sudoku) -> (aug: Self)
        requires
            value.wf(),
        ensures
            aug.wf(),
            aug@ == candidates::lifted(value@),
    {
        let order = value.order();
        let cell_size = value.cell_size();
        let ghost g = value@;
        let ghost n = order as int;
        proof {
            super::lemma_order_bounds(n);
            candidates::lemma_lifted_wf(g);
        }
        let mut cells: Vec<AugmentedValue> = Vec::new();
        let mut r: usize = 0;
        while r < order
            invariant
                value.wf(),
                g == value@,
                n == order,
                n == g.len(),
                4 <= n <= 225,
                r <= order,
                cells@.len() == r * n,
                forall|i: int, j: int|
                    rules::inside(g, i, j) && i < r ==> cells@[i * n + j]@ == candidates::lift_cell(
                        #[trigger] g[i][j],
                        n,
                    ),
            decreases order - r,
        {
            let mut c: usize = 0;
            while c < order
                invariant
                    value.wf(),
                    g == value@,
                    n == order,
                    n == g.len(),
                    4 <= n <= 225,
                    r < order,
                    c <= order,
                    cells@.len() == r * n + c,
                    forall|i: int, j: int|
                        rules::inside(g, i, j) && rules::before(i, j, r as int, c as int)
                            ==> cells@[i * n + j]@ == candidates::lift_cell(#[trigger] g[i][j], n),
                decreases order - c,
            {
                let cell = match value.get(r, c).0 {
                    Some(val) => AugmentedValue::from(val),
                    None => AugmentedValue::any_digit(order),
                };
                let ghost earlier = cells@;
                cells.push(cell);
                proof {
                    assert forall|i: int, j: int|
                        rules::inside(g, i, j) && rules::before(
                            i,
                            j,
                            r as int,
                            c as int + 1,
                        ) implies cells@[i * n + j]@ == candidates::lift_cell(
                        #[trigger] g[i][j],
                        n,
                    ) by {
                        if i == r && j == c {
                        } else {
                            lemma_reading_index(n, i, j, r as int, c as int);
                            assert(cells@[i * n + j] == earlier[i * n + j]);
                        }
                    }
                }
                c += 1;
            }
            proof {
                assert(r * n + n == (r + 1) * n) by (nonlinear_arith);
            }
            r += 1;
        }
        match storage::marks_from_vec(order, cells) {
            Ok(data) => {
                let aug = AugmentedSudoku { cell_size, order, data };
                proof {
                    let a = aug@;
                    let b = candidates::lifted(g);
                    assert forall|i: int| 0 <= i < n implies #[trigger] a[i] == b[i] by {
                        assert(g[i].len() == n);
                        assert forall|j: int| 0 <= j < n implies #[trigger] a[i][j] == b[i][j] by {
                            assert(rules::inside(g, i, j));
                        }
                        assert(a[i] =~= b[i]);
                    }
                    assert(a =~= b);
                }
                aug
            },
            Err(_) => vstd::pervasive::unreached(),
        }
    }

    /// Strikes from every undecided cell the digits that a decided cell of
    /// its row, column or box holds.
    pub fn prune_possible(&mut self)
        requires
            old(self).wf(),
        ensures
            final(self).wf(),
            final(self)@ == candidates::pruned(old(self)@),
            candidates::lowered(final(self)@) == candidates::lowered(old(self)@),
    {
        let ghost a = self@;
        let ghost g = candidates::lowered(a);
        let order = self.order;
        proof {
            self.lemma_wf();
            candidates::lemma_pruned_before_start(a);
        }
        let mut r: usize = 0;
        while r < order
            invariant
                self.wf(),
                candidates::marks_wf(a),
                g == candidates::lowered(a),
                order == a.len(),
                r <= order,
                self@ == candidates::pruned_before(a, r as int, 0),
            decreases order - r,
        {
            let mut c: usize = 0;
            while c < order
                invariant
                    self.wf(),
                    candidates::marks_wf(a),
                    g == candidates::lowered(a),
                    order == a.len(),
                    r < order,
                    c <= order,
                    self@ == candidates::pruned_before(a, r as int, c as int),
                decreases order - c,
            {
                proof {
                    candidates::lemma_pruned_before_board(a, r as int, c as int);
                    candidates::lemma_pruned_before_step(a, r as int, c as int);
                    assert(g[r as int].len() == a.len());
                }
                let fixed = match self.get(r, c) {
                    AugmentedValue::Fixed(value) => Some(*value),
                    AugmentedValue::Possible(_) => None,
                };
                if let Some(value) = fixed {
                    self.remove_value((r, c), value);
                }
                c += 1;
            }
            proof {
                candidates::lemma_pruned_before_next_row(a, r as int);
            }
            r += 1;
        }
        proof {
            candidates::lemma_pruned_before_end(a);
            candidates::lemma_pruned_before_board(a, order as int, 0);
        }
    }

    /// The first undecided cell in reading order, if there is one.
    pub fn first_possible(&self) -> (found: Option<(usize, usize)>)
        requires
            self.wf(),
        ensures
            found is None <==> rules::filled(candidates::lowered(self@)),
            found matches Some(at) ==> {
                &&& rules::inside(candidates::lowered(self@), at.0 as int, at.1 as int)
                &&& self@[at.0 as int][at.1 as int] is Possible
                &&& forall|r: int, c: int|
                    rules::inside(candidates::lowered(self@), r, c) && rules::before(
                        r,
                        c,
                        at.0 as int,
                        at.1 as int,
                    ) ==> (#[trigger] self@[r][c]) is Fixed
            },
    {
        let ghost g = candidates::lowered(self@);
        let order = self.order;
        let mut r: usize = 0;
        while r < order
            invariant
                self.wf(),
                g == candidates::lowered(self@),
                order == g.len(),
                r <= order,
                forall|i: int, j: int|
                    rules::inside(g, i, j) && i < r ==> (#[trigger] self@[i][j]) is Fixed,
            decreases order - r,
        {
            let mut c: usize = 0;
            while c < order
                invariant
                    self.wf(),
                    g == candidates::lowered(self@),
                    order == g.len(),
                    r < order,
                    c <= order,
                    forall|i: int, j: int|
                        rules::inside(g, i, j) && rules::before(i, j, r as int, c as int)
                            ==> (#[trigger] self@[i][j]) is Fixed,
                decreases order - c,
            {
                if !self.get(r, c).is_fixed() {
                    proof {
                        assert(g[r as int].len() == g.len());
                        assert(g[r as int][c as int] is None);
                    }
                    return Some((r, c));
                }
                c += 1;
            }
            r += 1;
        }
        proof {
            assert forall|i: int, j: int| rules::inside(g, i, j) implies (#[trigger] g[i][j])
                is Some by {
                assert(g[i].len() == g.len());
                assert(self@[i][j] is Fixed);
            }
        }
        None
    }

    /// The undecided cell with the fewest candidates, and among several the
    /// first in reading order; `None` if every cell is decided.
    pub fn most_constrained(&self) -> (found: Option<(usize, usize)>)
        requires
            self.wf(),
        ensures
            found is None <==> rules::filled(candidates::lowered(self@)),
            found matches Some(at) ==> candidates::fewest_at(self@, at.0 as int, at.1 as int),
    {
        let ghost a = self@;
        let ghost g = candidates::lowered(a);
        let order = self.order;
        let mut best: Option<(usize, usize)> = None;
        let mut best_len: usize = 0;
        let mut r: usize = 0;
        while r < order
            invariant
                self.wf(),
                a == self@,
                g == candidates::lowered(a),
                order == g.len(),
                r <= order,
                candidates::fewest_before(a, best, best_len as int, r as int, 0),
            decreases order - r,
        {
            let mut c: usize = 0;
            while c < order
                invariant
                    self.wf(),
                    a == self@,
                    g == candidates::lowered(a),
                    order == g.len(),
                    r < order,
                    c <= order,
                    candidates::fewest_before(a, best, best_len as int, r as int, c as int),
                decreases order - c,
            {
                proof {
                    assert(g[r as int].len() == g.len());
                }
                match self.get(r, c) {
                    AugmentedValue::Fixed(_) => {},
                    AugmentedValue::Possible(possible) => {
                        let len = possible.len();
                        if best.is_none() || len < best_len {
                            best = Some((r, c));
                            best_len = len;
                        }
                    },
                }
                c += 1;
            }
            r += 1;
        }
        proof {
            if best is None {
                assert forall|i: int, j: int| rules::inside(g, i, j) implies (#[trigger] g[i][j])
                    is Some by {
                    assert(g[i].len() == g.len());
                    assert(a[i][j] is Fixed);
                }
            } else {
                let at = best.unwrap();
                assert(g[at.0 as int].len() == g.len());
                assert(g[at.0 as int][at.1 as int] is None);
            }
        }
        best
    }

    /// The one candidate of an undecided cell that has exactly one.
    pub fn only_candidate(&self, r: usize, c: usize) -> (value: u8)
        requires
            self.wf(),
            rules::inside(candidates::lowered(self@), r as int, c as int),
            self@[r as int][c as int] matches CellState::Possible(s) && s.len() == 1,
        ensures
            self@[r as int][c as int] == CellState::Possible(set![value]),
            1 <= value <= self@.len(),
    {
        let order = self.order;
        let ghost s = self@[r as int][c as int]->Possible_0;
        proof {
            self.lemma_wf();
            assert(candidates::lowered(self@)[r as int].len() == self@.len());
        }
        match self.get(r, c) {
            AugmentedValue::Possible(possible) => {
                let mut value: u8 = 1;
                while !possible.contains(&value)
                    invariant
                        possible@ == s,
                        s.finite(),
                        s.len() == 1,
                        s.subset_of(candidates::all_digits(order as int)),
                        order <= 225,
                        1 <= value <= order,
                        forall|d: u8| 1 <= d < value ==> !s.contains(d),
                    decreases order - value,
                {
                    proof {
                        if value as int == order {
                            assert(s =~= Set::empty());
                        }
                    }
                    value += 1;
                }
                proof {
                    assert(s.remove(value).len() == 0);
                    s.remove(value).lemma_len0_is_empty();
                    assert(s =~= set![value]);
                }
                value
            },
            AugmentedValue::Fixed(_) => vstd::pervasive::unreached(),
        }
    }

    /// Whether `value` is a candidate of the cell at row `r`, column `c`.
    pub fn allows(&self, r: usize, c: usize, value: u8) -> (b: bool)
        requires
            self.wf(),
            rules::inside(candidates::lowered(self@), r as int, c as int),
        ensures
            b == (self@[r as int][c as int] matches CellState::Possible(s) && s.contains(value)),
    {
        match self.get(r, c) {
            AugmentedValue::Fixed(_) => false,
            AugmentedValue::Possible(possible) => possible.contains(&value),
        }
    }

    /// The number of candidates of the cell at row `r`, column `c`; none for
    /// a decided cell.
    pub fn count(&self, r: usize, c: usize) -> (n: usize)
        requires
            self.wf(),
            rules::inside(candidates::lowered(self@), r as int, c as int),
        ensures
            n == candidates::count_at(self@, r as int, c as int),
    {
        match self.get(r, c) {
            AugmentedValue::Fixed(_) => 0,
            AugmentedValue::Possible(possible) => possible.len(),
        }
    }

    /// The cells as a plain array: each decided digit, and nothing where a
    /// cell is undecided.
    pub fn into_values(self) -> (cells: storage::ValueArray)
        ensures
            storage::value_rows(cells) == candidates::lowered(self@),
    {
        storage::marks_into_values(self.data)
    }
}

/// A cell that comes earlier in reading order has a smaller index in the
/// row-by-row list of cells.
pub proof fn lemma_reading_index(n: int, i: int, j: int, r: int, c: int)
    requires
        0 <= i,
        0 <= j < n,
        0 <= r,
        0 <= c,
        rules::before(i, j, r, c),
    ensures
        0 <= i * n + j < r * n + c,
{
    assert(0 <= i * n + j < r * n + c) by (nonlinear_arith)
        requires
            0 <= i,
            0 <= j < n,
            0 <= r,
            0 <= c,
            i < r || (i == r && j < c),
    ;
}

} // verus!
