//! The text form of a grid for display: a bordered table with a rule above
//! each band of boxes and a bar after each box.

use super::augmented::{AugmentedSudoku, AugmentedValue};
use super::candidates;
use super::candidates::{CellState, Marks};
use super::rules;
use super::rules::Board;
use super::{Sudoku, SudokuValue};
use vstd::prelude::*;
use vstd::std_specs::hash::group_hash_axioms;
use vstd::string::*;

verus! {

broadcast use group_hash_axioms;

/// `piece` written `times` times.
pub open spec fn repeated(piece: Seq<char>, times: nat) -> Seq<char>
    decreases times,
{
    if times == 0 {
        Seq::empty()
    } else {
        repeated(piece, (times - 1) as nat) + piece
    }
}

/// The character of a decimal digit.
pub open spec fn digit_char(x: int) -> char {
    ('0' as int + x) as char
}

/// A number below 256 in decimal, without leading zeros.
pub open spec fn decimal(d: u8) -> Seq<char> {
    if d >= 100 {
        seq![digit_char(d as int / 100), digit_char(d as int / 10 % 10), digit_char(d as int % 10)]
    } else if d >= 10 {
        seq![digit_char(d as int / 10), digit_char(d as int % 10)]
    } else {
        seq![digit_char(d as int)]
    }
}

/// A cell as text: its digit in decimal, or `.` if it is empty.
pub open spec fn cell_text(v: Option<u8>) -> Seq<char> {
    match v {
        Some(d) => decimal(d),
        None => seq!['.'],
    }
}

/// `t` with spaces in front of it up to the width `w`; a longer text stays as
/// it is.
pub open spec fn right_aligned(t: Seq<char>, w: int) -> Seq<char> {
    repeated(
        seq![' '],
        if w > t.len() {
            (w - t.len()) as nat
        } else {
            0
        },
    ) + t
}

/// The rule drawn above each band of boxes and below the grid, for boxes of
/// side `k` and cells `w` wide.
pub open spec fn rule_line(k: int, w: int) -> Seq<char> {
    repeated(seq!['+'] + repeated(seq!['-'], (k * w + 1) as nat), k as nat) + seq!['+']
}

/// The first `upto` cells of a row, each right-aligned in `w` characters,
/// with a bar after the last cell of each box.
pub open spec fn cells_text(row: Seq<Option<u8>>, upto: int, k: int, w: int) -> Seq<char>
    decreases upto,
{
    if upto <= 0 {
        Seq::empty()
    } else {
        cells_text(row, upto - 1, k, w) + right_aligned(cell_text(row[upto - 1]), w) + if (upto
            - 1) % k == k - 1 {
            seq![' ', '|']
        } else {
            Seq::empty()
        }
    }
}

/// The first `upto` rows of a board, each a line that starts with a bar, with
/// the rule on a line of its own above the first row of each band.
pub open spec fn rows_text(g: Board, upto: int, k: int, w: int) -> Seq<char>
    decreases upto,
{
    if upto <= 0 {
        Seq::empty()
    } else {
        rows_text(g, upto - 1, k, w) + if (upto - 1) % k == 0 {
            rule_line(k, w) + seq!['\n']
        } else {
            Seq::empty()
        } + seq!['|'] + cells_text(g[upto - 1], g[upto - 1].len() as int, k, w) + seq!['\n']
    }
}

/// The text form of a board: its rows, and the rule once more below them.
pub open spec fn rendered(g: Board) -> Seq<char> {
    let k = rules::box_side(g.len() as int);
    let w = super::padding_for(g.len() as int) - 1;
    rows_text(g, g.len() as int, k, w) + rule_line(k, w)
}

/// Appends `piece` to `out`, `times` times.
pub fn push_repeated(out: &mut String, piece: &str, times: usize)
    ensures
        final(out)@ == old(out)@ + repeated(piece@, times as nat),
{
    let mut done: usize = 0;
    while done < times
        invariant
            done <= times,
            out@ == old(out)@ + repeated(piece@, done as nat),
        decreases times - done,
    {
        out.append(piece);
        done += 1;
        assert(out@ =~= old(out)@ + repeated(piece@, done as nat));
    }
}

/// The text of a decimal digit.
pub fn digit_str(x: u8) -> (t: &'static str)
    requires
        x < 10,
    ensures
        t@ == seq![digit_char(x as int)],
{
    proof {
        reveal_strlit("0");
        reveal_strlit("1");
        reveal_strlit("2");
        reveal_strlit("3");
        reveal_strlit("4");
        reveal_strlit("5");
        reveal_strlit("6");
        reveal_strlit("7");
        reveal_strlit("8");
        reveal_strlit("9");
    }
    let t = if x == 0 {
        "0"
    } else if x == 1 {
        "1"
    } else if x == 2 {
        "2"
    } else if x == 3 {
        "3"
    } else if x == 4 {
        "4"
    } else if x == 5 {
        "5"
    } else if x == 6 {
        "6"
    } else if x == 7 {
        "7"
    } else if x == 8 {
        "8"
    } else {
        "9"
    };
    assert(t@ =~= seq![digit_char(x as int)]);
    t
}

impl SudokuValue {
    /// The cell as text: its digit in decimal, or `.` if it is empty.
    pub fn format(&self) -> (text: String)
        ensures
            text@ == cell_text(self@),
            1 <= text@.len() <= 3,
    {
        let mut text = String::new();
        match self.0 {
            Some(d) => {
                push_decimal(&mut text, d);
                assert(text@ =~= decimal(d));
            },
            None => {
                proof {
                    reveal_strlit(".");
                }
                text.append(".");
                assert(text@ =~= seq!['.']);
            },
        }
        text
    }
}

impl Sudoku {
    /// The grid as text for display: a bordered table, each cell
    /// right-aligned in a width chosen by the side of the grid, with a rule
    /// above each band of boxes and below the grid, and a bar after each box.
    pub fn format(&self) -> (text: String)
        requires
            self.wf(),
        ensures
            text@ == rendered(self@),
    {
        let order = self.order();
        let cell_size = self.cell_size();
        let padding = self.required_padding() - 1;
        let ghost g = self@;
        let ghost k = cell_size as int;
        let ghost w = padding as int;
        proof {
            reveal_strlit("+");
            reveal_strlit("-");
            reveal_strlit("|");
            reveal_strlit(" |");
            reveal_strlit(" ");
            reveal_strlit("\n");
            assert(k * w + 1 <= 61) by (nonlinear_arith)
                requires
                    2 <= k < 16,
                    2 <= w <= 4,
            ;
        }
        let mut horizontal_line = String::new();
        let mut box_ix: usize = 0;
        while box_ix < cell_size
            invariant
                box_ix <= cell_size,
                k == cell_size,
                w == padding,
                k * w + 1 <= 61,
                "+"@ == seq!['+'],
                "-"@ == seq!['-'],
                horizontal_line@ == repeated(
                    seq!['+'] + repeated(seq!['-'], (k * w + 1) as nat),
                    box_ix as nat,
                ),
            decreases cell_size - box_ix,
        {
            let ghost before = horizontal_line@;
            horizontal_line.append("+");
            push_repeated(&mut horizontal_line, "-", cell_size * padding + 1);
            box_ix += 1;
            assert(horizontal_line@ =~= before + (seq!['+'] + repeated(
                seq!['-'],
                (k * w + 1) as nat,
            )));
        }
        horizontal_line.append("+");
        assert(horizontal_line@ == rule_line(k, w));

        let mut text = String::new();
        let mut r: usize = 0;
        while r < order
            invariant
                self.wf(),
                g == self@,
                order == g.len(),
                r <= order,
                k == cell_size,
                k > 0,
                w == padding,
                2 <= w <= 4,
                "|"@ == seq!['|'],
                " |"@ == seq![' ', '|'],
                " "@ == seq![' '],
                "\n"@ == seq!['\n'],
                horizontal_line@ == rule_line(k, w),
                text@ == rows_text(g, r as int, k, w),
            decreases order - r,
        {
            if r % cell_size == 0 {
                text.append(horizontal_line.as_str());
                text.append("\n");
            }
            text.append("|");
            let ghost start = text@;
            let mut c: usize = 0;
            while c < order
                invariant
                    self.wf(),
                    g == self@,
                    order == g.len(),
                    r < order,
                    c <= order,
                    k == cell_size,
                    k > 0,
                    w == padding,
                    2 <= w <= 4,
                    " |"@ == seq![' ', '|'],
                    " "@ == seq![' '],
                    text@ == start + cells_text(g[r as int], c as int, k, w),
                decreases order - c,
            {
                let ele = self.get(r, c).format();
                let len = ele.as_str().unicode_len();
                let fill = if padding > len {
                    padding - len
                } else {
                    0
                };
                push_repeated(&mut text, " ", fill);
                text.append(ele.as_str());
                if c % cell_size == cell_size - 1 {
                    text.append(" |");
                }
                c += 1;
                assert(text@ =~= start + cells_text(g[r as int], c as int, k, w));
            }
            text.append("\n");
            r += 1;
            assert(g[r - 1].len() == order);
            assert(text@ =~= rows_text(g, r as int, k, w));
        }
        text.append(horizontal_line.as_str());
        text
    }
}

/// The candidates in `set` up to `upto`, in ascending order, each with a
/// space in front of it.
pub open spec fn candidates_text(set: Set<u8>, upto: int) -> Seq<char>
    decreases upto,
{
    if upto <= 0 {
        Seq::empty()
    } else {
        candidates_text(set, upto - 1) + if 0 < upto < 256 && set.contains(upto as u8) {
            seq![' '] + decimal(upto as u8)
        } else {
            Seq::empty()
        }
    }
}

/// A cell with candidates as text: its digit if it is decided, else its
/// candidates in ascending order between square brackets.
pub open spec fn state_text(cell: CellState) -> Seq<char> {
    match cell {
        CellState::Fixed(d) => decimal(d),
        CellState::Possible(set) => seq!['['] + candidates_text(set, 255) + seq![' ', ']'],
    }
}

/// `t` in the middle of the width `w`, with the odd space after it; a longer
/// text stays as it is.
pub open spec fn centered(t: Seq<char>, w: int) -> Seq<char> {
    let fill = if w > t.len() {
        w - t.len()
    } else {
        0
    };
    repeated(seq![' '], (fill / 2) as nat) + t + repeated(seq![' '], (fill - fill / 2) as nat)
}

/// The rule drawn above each band of boxes and below the grid, for boxes of
/// side `k` and cells `w` wide.
pub open spec fn marks_rule_line(k: int, w: int) -> Seq<char> {
    seq!['+'] + repeated(repeated(seq!['-'], (k * (w + 1) + 1) as nat) + seq!['+'], k as nat)
}

/// The first `upto` cells of a row, each after a space and centered in `w`
/// characters, with a bar after the last cell of each box.
pub open spec fn marks_cells_text(row: Seq<CellState>, upto: int, k: int, w: int) -> Seq<char>
    decreases upto,
{
    if upto <= 0 {
        Seq::empty()
    } else {
        marks_cells_text(row, upto - 1, k, w) + seq![' '] + centered(state_text(row[upto - 1]), w)
            + if (upto - 1) % k == k - 1 {
            seq![' ', '|']
        } else {
            Seq::empty()
        }
    }
}

/// The first `upto` rows of a grid with candidates, each a line that starts
/// with a bar, with the rule on a line of its own above the first row of each
/// band.
pub open spec fn marks_rows_text(a: Marks, upto: int, k: int, w: int) -> Seq<char>
    decreases upto,
{
    if upto <= 0 {
        Seq::empty()
    } else {
        marks_rows_text(a, upto - 1, k, w) + if (upto - 1) % k == 0 {
            marks_rule_line(k, w) + seq!['\n']
        } else {
            Seq::empty()
        } + seq!['|'] + marks_cells_text(a[upto - 1], a[upto - 1].len() as int, k, w) + seq!['\n']
    }
}

/// The text form of a grid with candidates: its rows, and the rule once more
/// below them. A cell is wide enough for every digit of a board up to side
/// nine to stand between the brackets.
pub open spec fn marks_rendered(a: Marks) -> Seq<char> {
    let k = rules::box_side(a.len() as int);
    let w = a.len() as int * 2 + 3;
    marks_rows_text(a, a.len() as int, k, w) + marks_rule_line(k, w)
}

/// Appends the decimal form of `d` to `out`.
pub fn push_decimal(out: &mut String, d: u8)
    ensures
        final(out)@ == old(out)@ + decimal(d),
{
    if d >= 100 {
        out.append(digit_str(d / 100));
        out.append(digit_str(d / 10 % 10));
        out.append(digit_str(d % 10));
    } else if d >= 10 {
        out.append(digit_str(d / 10));
        out.append(digit_str(d % 10));
    } else {
        out.append(digit_str(d));
    }
    assert(out@ =~= old(out)@ + decimal(d));
}

/// Appends `t` to `out`, in the middle of the width `w`.
pub fn push_centered(out: &mut String, t: &str, w: usize)
    ensures
        final(out)@ == old(out)@ + centered(t@, w as int),
{
    proof {
        reveal_strlit(" ");
    }
    let len = t.unicode_len();
    let fill = if w > len {
        w - len
    } else {
        0
    };
    push_repeated(out, " ", fill / 2);
    let ghost one = out@;
    out.append(t);
    let ghost two = out@;
    push_repeated(out, " ", fill - fill / 2);
    proof {
        let left = repeated(seq![' '], (fill / 2) as nat);
        let right = repeated(seq![' '], (fill - fill / 2) as nat);
        assert(" "@ == seq![' ']);
        assert(one == old(out)@ + left);
        assert(two == one + t@);
        assert(out@ =~= old(out)@ + (left + t@ + right));
    }
}

impl AugmentedValue {
    /// The cell as text: its digit if it is decided, else its candidates in
    /// ascending order between square brackets.
    pub fn format(&self) -> (text: String)
        ensures
            text@ == state_text(self@),
    {
        let mut text = String::new();
        match self {
            AugmentedValue::Fixed(val) => {
                push_decimal(&mut text, *val);
                assert(text@ =~= decimal(*val));
            },
            AugmentedValue::Possible(possible) => {
                proof {
                    reveal_strlit("[");
                    reveal_strlit(" ");
                    reveal_strlit(" ]");
                }
                text.append("[");
                let mut ele: u8 = 0;
                while ele < 255
                    invariant
                        " "@ == seq![' '],
                        text@ == seq!['['] + candidates_text(possible@, ele as int),
                    decreases 255 - ele,
                {
                    ele += 1;
                    if possible.contains(&ele) {
                        text.append(" ");
                        push_decimal(&mut text, ele);
                    }
                    assert(text@ =~= seq!['['] + candidates_text(possible@, ele as int));
                }
                text.append(" ]");
                assert(text@ =~= state_text(self@));
            },
        }
        text
    }
}

impl AugmentedSudoku {
    /// The grid with candidates as text for display: a bordered table, each
    /// cell centered in a width chosen by the side of the grid, with a rule
    /// above each band of boxes and below the grid, and a bar after each box.
    pub fn format(&self) -> (text: String)
        requires
            self.wf(),
        ensures
            text@ == marks_rendered(self@),
    {
        let order = self.order();
        let cell_size = self.cell_size();
        let ghost a = self@;
        let ghost k = cell_size as int;
        proof {
            self.lemma_wf();
            reveal_strlit("+");
            reveal_strlit("-");
            reveal_strlit("|");
            reveal_strlit(" |");
            reveal_strlit(" ");
            reveal_strlit("\n");
        }
        let width = order * 2 + 3;
        let ghost w = width as int;
        proof {
            assert(k * (w + 1) + 1 <= 6931) by (nonlinear_arith)
                requires
                    2 <= k < 16,
                    0 <= w <= 453,
            ;
        }
        let mut horizontal_line = String::new();
        horizontal_line.append("+");
        let mut box_ix: usize = 0;
        while box_ix < cell_size
            invariant
                box_ix <= cell_size,
                k == cell_size,
                w == width,
                0 <= w <= 453,
                k * (w + 1) + 1 <= 6931,
                "+"@ == seq!['+'],
                "-"@ == seq!['-'],
                horizontal_line@ == seq!['+'] + repeated(
                    repeated(seq!['-'], (k * (w + 1) + 1) as nat) + seq!['+'],
                    box_ix as nat,
                ),
            decreases cell_size - box_ix,
        {
            push_repeated(&mut horizontal_line, "-", cell_size * (width + 1) + 1);
            horizontal_line.append("+");
            box_ix += 1;
            assert(horizontal_line@ =~= seq!['+'] + repeated(
                repeated(seq!['-'], (k * (w + 1) + 1) as nat) + seq!['+'],
                box_ix as nat,
            ));
        }
        assert(horizontal_line@ == marks_rule_line(k, w));

        let mut text = String::new();
        let mut r: usize = 0;
        while r < order
            invariant
                self.wf(),
                a == self@,
                candidates::marks_wf(a),
                order == a.len(),
                order == candidates::lowered(a).len(),
                r <= order,
                k == cell_size,
                k > 0,
                w == width,
                "|"@ == seq!['|'],
                " |"@ == seq![' ', '|'],
                " "@ == seq![' '],
                "\n"@ == seq!['\n'],
                horizontal_line@ == marks_rule_line(k, w),
                text@ == marks_rows_text(a, r as int, k, w),
            decreases order - r,
        {
            if r % cell_size == 0 {
                text.append(horizontal_line.as_str());
                text.append("\n");
            }
            text.append("|");
            let ghost start = text@;
            let mut c: usize = 0;
            while c < order
                invariant
                    self.wf(),
                    a == self@,
                    candidates::marks_wf(a),
                    order == a.len(),
                    order == candidates::lowered(a).len(),
                    r < order,
                    c <= order,
                    k == cell_size,
                    k > 0,
                    w == width,
                    " |"@ == seq![' ', '|'],
                    " "@ == seq![' '],
                    text@ == start + marks_cells_text(a[r as int], c as int, k, w),
                decreases order - c,
            {
                proof {
                    assert(candidates::lowered(a)[r as int].len() == order);
                }
                let ele = self.get(r, c).format();
                text.append(" ");
                push_centered(&mut text, ele.as_str(), width);
                if c % cell_size == cell_size - 1 {
                    text.append(" |");
                }
                c += 1;
                assert(text@ =~= start + marks_cells_text(a[r as int], c as int, k, w));
            }
            text.append("\n");
            r += 1;
            proof {
                assert(candidates::lowered(a)[r - 1].len() == order);
                assert(a[r - 1].len() == order);
                assert(text@ =~= marks_rows_text(a, r as int, k, w));
            }
        }
        text.append(horizontal_line.as_str());
        text
    }
}

} // verus!
