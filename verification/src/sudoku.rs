//! The grid: a square array of optional digits.

pub mod augmented;
pub mod candidates;
pub mod laws;
pub mod rules;
pub mod solve;
pub mod storage;
pub mod text;

use augmented::AugmentedSudoku;
use rules::Board;
use storage::ValueArray;
use vstd::prelude::*;
use vstd::string::*;

verus! {

/// One cell of a grid: a digit, or nothing.
#[derive(Debug, Clone, Copy, PartialEq, Eq)]
pub struct SudokuValue(pub Option<u8>);

impl View for SudokuValue {
    type V = Option<u8>;

    open spec fn view(&self) -> Option<u8> {
        self.0
    }
}

impl Default for SudokuValue {
    fn default() -> (v: Self)
        ensures
            v@ is None,
    {
        SudokuValue(None)
    }
}

/// Why a text is no grid.
#[derive(Debug, Clone, Copy, PartialEq, Eq)]
pub enum ParseError {
    /// The text has neither 16 nor 81 characters.
    WrongLength,
    /// Some character is neither `.` nor one of `1` to `9`.
    InvalidCell,
}

/// What a character stands for in the text form of a grid: `.` for an empty
/// cell, `1` to `9` for that digit, and nothing else for anything.
pub open spec fn cell_of(c: char) -> Option<Option<u8>> {
    if c == '.' {
        Some(None)
    } else if '1' <= c <= '9' {
        Some(Some((c as int - '0' as int) as u8))
    } else {
        None
    }
}

/// The side of the grid that a text of `len` characters describes.
pub open spec fn side_of_text(len: int) -> Option<int> {
    if len == 16 {
        Some(4)
    } else if len == 81 {
        Some(9)
    } else {
        None
    }
}

/// The board that `text` describes row by row, for a grid of side `n`.
pub open spec fn board_of_text(text: Seq<char>, n: int) -> Board {
    Seq::new(n as nat, |r: int| Seq::new(n as nat, |c: int| cell_of(text[r * n + c]).unwrap()))
}

impl SudokuValue {
    /// Reads one cell from a text of one character.
    pub fn from_str(s: &str) -> (cell: Result<Self, ParseError>)
        requires
            s@.len() == 1,
        ensures
            match cell {
                Ok(v) => cell_of(s@[0]) == Some(v@),
                Err(e) => cell_of(s@[0]) is None && e == ParseError::InvalidCell,
            },
    {
        let c = s.get_char(0);
        if c == '.' {
            Ok(SudokuValue(None))
        } else if c == '1' {
            Ok(SudokuValue(Some(1)))
        } else if c == '2' {
            Ok(SudokuValue(Some(2)))
        } else if c == '3' {
            Ok(SudokuValue(Some(3)))
        } else if c == '4' {
            Ok(SudokuValue(Some(4)))
        } else if c == '5' {
            Ok(SudokuValue(Some(5)))
        } else if c == '6' {
            Ok(SudokuValue(Some(6)))
        } else if c == '7' {
            Ok(SudokuValue(Some(7)))
        } else if c == '8' {
            Ok(SudokuValue(Some(8)))
        } else if c == '9' {
            Ok(SudokuValue(Some(9)))
        } else {
            Err(ParseError::InvalidCell)
        }
    }
}

/// A square grid of cells.
#[derive(Debug)]
pub struct Sudoku(ValueArray);

impl Clone for Sudoku {
    fn clone(&self) -> (copy: Self)
        ensures
            copy@ == self@,
    {
        Sudoku(storage::values_clone(&self.0))
    }
}

impl View for Sudoku {
    type V = Board;

    closed spec fn view(&self) -> Board {
        storage::value_rows(self.0)
    }
}

impl Sudoku {
    /// The grid is square, of a supported side, and holds no zero.
    pub open spec fn wf(&self) -> bool {
        rules::well_formed(self@)
    }

    /// A new empty 9 by 9 grid.
    pub fn new() -> (grid: Self)
        ensures
            grid.wf(),
            grid@.len() == 9,
            forall|r: int, c: int| rules::inside(grid@, r, c) ==> (#[trigger] grid@[r][c]) is None,
    {
        proof {
            rules::lemma_box_side(9, 3);
        }
        Self::from_order(9)
    }

    /// A new empty grid of side `order`.
    pub fn from_order(order: usize) -> (grid: Self)
        requires
            rules::supported_order(order as int),
        ensures
            grid.wf(),
            grid@.len() == order,
            forall|r: int, c: int| rules::inside(grid@, r, c) ==> (#[trigger] grid@[r][c]) is None,
    {
        proof {
            lemma_order_bounds(order as int);
        }
        let total: usize = order * order;
        let mut values: Vec<SudokuValue> = Vec::new();
        while values.len() < total
            invariant
                values@.len() <= total,
                forall|i: int| 0 <= i < values@.len() ==> (#[trigger] values@[i])@ is None,
            decreases total - values@.len(),
        {
            values.push(SudokuValue::default());
        }
        let grid = Self::from_order_vec(order, values);
        assert forall|r: int, c: int| rules::inside(grid@, r, c) implies (#[trigger] grid@[r][c])
            is None by {
            lemma_index_bounds(order as int, r, c);
        }
        grid
    }

    /// The grid of side `order` whose cells are `values`, row by row.
    pub fn from_order_vec(order: usize, values: Vec<SudokuValue>) -> (grid: Self)
        requires
            rules::supported_order(order as int),
            values@.len() == order * order,
            forall|i: int| 0 <= i < values@.len() ==> (#[trigger] values@[i])@ != Some(0u8),
        ensures
            grid.wf(),
            grid@ == storage::row_major(values@, order as int),
    {
        let made = storage::values_from_vec(order, values);
        match made {
            Ok(cells) => {
                let grid = Sudoku(cells);
                proof {
                    assert forall|r: int, c: int| rules::inside(grid@, r, c) implies (
                    #[trigger] grid@[r][c]) != Some(0u8) by {
                        lemma_index_bounds(order as int, r, c);
                    }
                }
                grid
            },
            Err(_) => vstd::pervasive::unreached(),
        }
    }

    /// Reads a grid from its text form: one character per cell, row by row,
    /// `.` for an empty cell and `1` to `9` for a digit; 16 characters make a
    /// grid of side 4 and 81 one of side 9.
    pub fn from_str(s: &str) -> (parsed: Result<Self, ParseError>)
        ensures
            match parsed {
                Ok(grid) => {
                    &&& grid.wf()
                    &&& side_of_text(s@.len() as int) == Some(grid@.len() as int)
                    &&& forall|i: int| 0 <= i < s@.len() ==> cell_of(#[trigger] s@[i]) is Some
                    &&& grid@ == board_of_text(s@, grid@.len() as int)
                },
                Err(ParseError::WrongLength) => side_of_text(s@.len() as int) is None,
                Err(ParseError::InvalidCell) => {
                    &&& side_of_text(s@.len() as int) is Some
                    &&& exists|i: int| 0 <= i < s@.len() && cell_of(#[trigger] s@[i]) is None
                },
            },
    {
        let len = s.unicode_len();
        let order: usize = if len == 16 {
            4
        } else if len == 81 {
            9
        } else {
            return Err(ParseError::WrongLength);
        };
        let mut vals: Vec<SudokuValue> = Vec::new();
        let mut i: usize = 0;
        while i < len
            invariant
                len == s@.len(),
                side_of_text(len as int) == Some(order as int),
                i <= len,
                vals@.len() == i,
                forall|j: int| 0 <= j < i ==> cell_of(s@[j]) == Some((#[trigger] vals@[j])@),
            decreases len - i,
        {
            let one = s.substring_char(i, i + 1);
            match SudokuValue::from_str(one) {
                Ok(v) => {
                    vals.push(v);
                },
                Err(e) => {
                    assert(cell_of(s@[i as int]) is None);
                    return Err(e);
                },
            }
            i += 1;
        }
        proof {
            if order == 4 {
                rules::lemma_box_side(4, 2);
            } else {
                rules::lemma_box_side(9, 3);
            }
        }
        let ghost cells = vals@;
        let grid = Self::from_order_vec(order, vals);
        proof {
            let b = board_of_text(s@, order as int);
            assert forall|i: int| 0 <= i < s@.len() implies cell_of(#[trigger] s@[i]) is Some by {
                assert(cell_of(s@[i]) == Some(cells[i]@));
            }
            assert forall|r: int| 0 <= r < order implies #[trigger] grid@[r] == b[r] by {
                assert forall|c: int| 0 <= c < order implies #[trigger] grid@[r][c] == b[r][c] by {
                    lemma_index_bounds(order as int, r, c);
                    assert(cell_of(s@[r * order + c]) == Some(cells[r * order + c]@));
                }
                assert(grid@[r] =~= b[r]);
            }
            assert(grid@ =~= b);
        }
        Ok(grid)
    }

    /// The grid that a grid with candidates stands for: each decided digit,
    /// and an empty cell where a cell is undecided.
    pub fn from(value: AugmentedSudoku) -> (grid: Self)
        requires
            value.wf(),
        ensures
            grid.wf(),
            grid@ == candidates::lowered(value@),
    {
        proof {
            value.lemma_wf();
        }
        Sudoku(value.into_values())
    }

    /// Every cell holds a digit and no row, column or box holds one twice.
    pub fn solved(&self) -> (b: bool)
        requires
            self.wf(),
        ensures
            b == rules::solved(self@),
    {
        self.filled() && self.valid()
    }

    /// No cell is empty.
    pub fn filled(&self) -> (b: bool)
        requires
            self.wf(),
        ensures
            b == rules::filled(self@),
    {
        self.first_empty().is_none()
    }

    /// The first empty cell in reading order, if there is one.
    pub fn first_empty(&self) -> (found: Option<(usize, usize)>)
        requires
            self.wf(),
        ensures
            found is None <==> rules::filled(self@),
            found matches Some(at) ==> {
                &&& rules::inside(self@, at.0 as int, at.1 as int)
                &&& self@[at.0 as int][at.1 as int] is None
                &&& forall|r: int, c: int|
                    rules::inside(self@, r, c) && rules::before(r, c, at.0 as int, at.1 as int)
                        ==> (#[trigger] self@[r][c]) is Some
            },
    {
        let order = self.order();
        let mut r: usize = 0;
        while r < order
            invariant
                self.wf(),
                order == self@.len(),
                r <= order,
                forall|i: int, j: int|
                    rules::inside(self@, i, j) && i < r ==> (#[trigger] self@[i][j]) is Some,
            decreases order - r,
        {
            let mut c: usize = 0;
            while c < order
                invariant
                    self.wf(),
                    order == self@.len(),
                    r < order,
                    c <= order,
                    forall|i: int, j: int|
                        rules::inside(self@, i, j) && rules::before(i, j, r as int, c as int)
                            ==> (#[trigger] self@[i][j]) is Some,
                decreases order - c,
            {
                if self.get(r, c).0.is_none() {
                    return Some((r, c));
                }
                c += 1;
            }
            r += 1;
        }
        None
    }

    /// The cell at row `r`, column `c`.
    pub fn get(&self, r: usize, c: usize) -> (v: SudokuValue)
        requires
            self.wf(),
            rules::inside(self@, r as int, c as int),
        ensures
            v@ == self@[r as int][c as int],
    {
        storage::values_get(&self.0, r, c)
    }

    /// Writes `v` into the cell at row `r`, column `c`.
    pub fn set(&mut self, r: usize, c: usize, v: SudokuValue)
        requires
            old(self).wf(),
            rules::inside(old(self)@, r as int, c as int),
            v@ != Some(0u8),
        ensures
            final(self).wf(),
            final(self)@ == rules::put(old(self)@, r as int, c as int, v@),
    {
        storage::values_set(&mut self.0, r, c, v);
    }

    /// No row, column or box holds a digit twice.
    pub fn valid(&self) -> (b: bool)
        requires
            self.wf(),
        ensures
            b == rules::valid(self@),
    {
        let cell_size = self.cell_size();
        proof {
            rules::lemma_valid_by_units(self@);
            rules::lemma_blocks_shape(self@, cell_size as int);
        }
        let rows = storage::values_rows(&self.0);
        let columns = storage::values_columns(&self.0);
        let chunks = storage::values_chunks(&self.0, cell_size);
        Self::valid_set(&rows) && Self::valid_set(&columns) && Self::valid_set(&chunks)
    }

    /// The side of the grid.
    pub fn order(&self) -> (n: usize)
        ensures
            n == self@.len(),
    {
        storage::values_dim(&self.0).0
    }

    /// The side of a box.
    pub fn cell_size(&self) -> (k: usize)
        requires
            self.wf(),
        ensures
            k == rules::box_side(self@.len() as int),
            rules::is_box_side(k as int, self@.len() as int),
    {
        let order = self.order();
        let mut k: usize = 2;
        loop
            invariant_except_break
                2 <= k < 16,
                rules::supported_order(order as int),
                forall|j: int| 2 <= j < k ==> !rules::is_box_side(j, order as int),
            ensures
                rules::is_box_side(k as int, order as int),
            decreases 16 - k,
        {
            assert(k * k <= 225) by (nonlinear_arith)
                requires
                    k < 16,
            ;
            if k * k == order {
                break ;
            }
            proof {
                let w = rules::box_side(order as int);
                assert(rules::is_box_side(w, order as int));
            }
            k += 1;
        }
        proof {
            rules::lemma_box_side(order as int, k as int);
        }
        k
    }

    /// No list in `set` holds a digit twice.
    pub fn valid_set(set: &Vec<Vec<SudokuValue>>) -> (b: bool)
        ensures
            b == rules::no_repeats(storage::nested(set@)),
    {
        let ghost groups = storage::nested(set@);
        let mut g: usize = 0;
        while g < set.len()
            invariant
                groups == storage::nested(set@),
                g <= set@.len(),
                forall|h: int, i: int, j: int| h < g ==> !#[trigger] rules::repeat_at(groups, h, i, j),
            decreases set@.len() - g,
        {
            let subset = &set[g];
            let mut ix: usize = 0;
            while ix < subset.len()
                invariant
                    groups == storage::nested(set@),
                    g < set@.len(),
                    subset == &set@[g as int],
                    ix <= subset@.len(),
                    forall|h: int, i: int, j: int|
                        h < g ==> !#[trigger] rules::repeat_at(groups, h, i, j),
                    forall|i: int, j: int| i < ix ==> !#[trigger] rules::repeat_at(groups, g as int, i, j),
                decreases subset@.len() - ix,
            {
                let value = subset[ix];
                if let Some(digit) = value.0 {
                    let mut iy: usize = ix + 1;
                    while iy < subset.len()
                        invariant
                            groups == storage::nested(set@),
                            g < set@.len(),
                            subset == &set@[g as int],
                            ix < iy <= subset@.len(),
                            value == subset@[ix as int],
                            value.0 == Some(digit),
                            forall|j: int|
                                j < iy ==> !#[trigger] rules::repeat_at(groups, g as int, ix as int, j),
                        decreases subset@.len() - iy,
                    {
                        let other = subset[iy];
                        let same = match other.0 {
                            Some(d) => d == digit,
                            None => false,
                        };
                        if same {
                            assert(rules::repeat_at(groups, g as int, ix as int, iy as int));
                            return false;
                        }
                        iy += 1;
                    }
                }
                ix += 1;
            }
            g += 1;
        }
        true
    }

    /// The width, in characters, that the text form gives one cell and the
    /// space before it.
    pub fn required_padding(&self) -> (width: usize)
        ensures
            width == padding_for(self@.len() as int),
    {
        let order = self.order();
        if order < 10 {
            3
        } else if order < 100 {
            4
        } else {
            5
        }
    }
}

/// The cell width chosen for a grid of side `n`.
pub open spec fn padding_for(n: int) -> int {
    if n < 10 {
        3
    } else if n < 100 {
        4
    } else {
        5
    }
}

/// A supported side is between 4 and 225, so its square fits any `usize`.
pub proof fn lemma_order_bounds(n: int)
    requires
        rules::supported_order(n),
    ensures
        4 <= n <= 225,
        n * n <= 50625,
{
    let k = rules::box_side(n);
    assert(rules::is_box_side(k, n));
    assert(4 <= k * k <= 225) by (nonlinear_arith)
        requires
            2 <= k < 16,
    ;
    assert(n * n <= 50625) by (nonlinear_arith)
        requires
            4 <= n <= 225,
    ;
}

/// Reading order puts cell `(r, c)` of a board of side `n` at `r * n + c`.
pub proof fn lemma_index_bounds(n: int, r: int, c: int)
    requires
        0 <= r < n,
        0 <= c < n,
    ensures
        0 <= r * n + c < n * n,
{
    assert(0 <= r * n + c < n * n) by (nonlinear_arith)
        requires
            0 <= r < n,
            0 <= c < n,
    ;
}

impl std::str::FromStr for Sudoku {
    type Err = ParseError;

    /// Reads a grid from its text form, as `Sudoku::from_str` does: 16 or 81
    /// characters, one per cell and row by row, `.` for an empty cell and `1`
    /// to `9` for a digit.
    fn from_str(s: &str) -> (parsed: Result<Self, ParseError>)
        ensures
            match parsed {
                Ok(grid) => {
                    &&& grid.wf()
                    &&& side_of_text(s@.len() as int) == Some(grid@.len() as int)
                    &&& forall|i: int| 0 <= i < s@.len() ==> cell_of(#[trigger] s@[i]) is Some
                    &&& grid@ == board_of_text(s@, grid@.len() as int)
                },
                Err(ParseError::WrongLength) => side_of_text(s@.len() as int) is None,
                Err(ParseError::InvalidCell) => {
                    &&& side_of_text(s@.len() as int) is Some
                    &&& exists|i: int| 0 <= i < s@.len() && cell_of(#[trigger] s@[i]) is None
                },
            },
    {
        Sudoku::from_str(s)
    }
}

} // verus!
