//! The two-dimensional arrays that hold the cells. They are `ndarray` arrays;
//! this module is the only place that touches them, and every function here
//! is a thin call into `ndarray` whose contract is taken on trust.

use super::augmented::AugmentedValue;
use super::candidates::{lowered, strike, Marks};
use super::rules::{blocks, transposed, Board};
use super::SudokuValue;
use std::collections::HashSet;
use vstd::prelude::*;

verus! {

#[verifier::external_type_specification]
#[verifier::external_body]
pub struct ExShapeError(ndarray::ShapeError);

/// An `ndarray::Array2` of grid cells.
#[derive(Debug)]
#[verifier::external_body]
pub struct ValueArray {
    inner: ndarray::Array2<SudokuValue>,
}

/// The rows of the array, top to bottom, each with its cells left to right.
pub uninterp spec fn value_rows(a: ValueArray) -> Board;

/// The cells of `values`, read as `n` rows of `n` cells.
pub open spec fn row_major(values: Seq<SudokuValue>, n: int) -> Board {
    Seq::new(n as nat, |r: int| Seq::new(n as nat, |c: int| values[r * n + c]@))
}

/// The cells of a list of lists.
pub open spec fn nested(groups: Seq<Vec<SudokuValue>>) -> Board {
    Seq::new(groups.len(), |g: int| Seq::new(groups[g]@.len(), |i: int| groups[g]@[i]@))
}

/// `Array2::from_shape_vec` with the shape `(order, order)`: succeeds exactly
/// when `values` has `order * order` elements, and then lays them out row by
/// row.
#[verifier::external_body]
pub(crate) fn values_from_vec(order: usize, values: Vec<SudokuValue>) -> (made: Result<
    ValueArray,
    ndarray::ShapeError,
>)
    ensures
        made is Ok <==> values@.len() == order * order,
        made matches Ok(a) ==> value_rows(a) == row_major(values@, order as int),
{
    ndarray::Array2::from_shape_vec((order, order), values).map(|inner| ValueArray { inner })
}

/// `ArrayBase::dim`: the number of rows and the length of every row.
#[verifier::external_body]
pub(crate) fn values_dim(a: &ValueArray) -> (d: (usize, usize))
    ensures
        d.0 == value_rows(*a).len(),
        forall|r: int| 0 <= r < value_rows(*a).len() ==> (#[trigger] value_rows(*a)[r]).len() == d.1,
{
    a.inner.dim()
}

/// `ArrayBase::get` at an index inside the array.
#[verifier::external_body]
pub(crate) fn values_get(a: &ValueArray, r: usize, c: usize) -> (v: SudokuValue)
    requires
        r < value_rows(*a).len(),
        c < value_rows(*a)[r as int].len(),
    ensures
        v@ == value_rows(*a)[r as int][c as int],
{
    *a.inner.get((r, c)).unwrap()
}

/// `ArrayBase::get_mut` at an index inside the array, assigned through: that
/// one cell changes and nothing else.
#[verifier::external_body]
pub(crate) fn values_set(a: &mut ValueArray, r: usize, c: usize, v: SudokuValue)
    requires
        r < value_rows(*old(a)).len(),
        c < value_rows(*old(a))[r as int].len(),
    ensures
        value_rows(*final(a)) == value_rows(*old(a)).update(
            r as int,
            value_rows(*old(a))[r as int].update(c as int, v@),
        ),
{
    *a.inner.get_mut((r, c)).unwrap() = v;
}

/// `ArrayBase::rows`, each lane copied out: the rows in order.
#[verifier::external_body]
pub(crate) fn values_rows(a: &ValueArray) -> (out: Vec<Vec<SudokuValue>>)
    ensures
        nested(out@) == value_rows(*a),
{
    a.inner.rows().into_iter().map(|lane| lane.iter().copied().collect()).collect()
}

/// `ArrayBase::columns`, each lane copied out: the columns in order.
#[verifier::external_body]
pub(crate) fn values_columns(a: &ValueArray) -> (out: Vec<Vec<SudokuValue>>)
    requires
        value_rows(*a).len() > 0,
    ensures
        nested(out@) == transposed(value_rows(*a)),
{
    a.inner.columns().into_iter().map(|lane| lane.iter().copied().collect()).collect()
}

/// `ArrayBase::exact_chunks` with the chunk shape `(k, k)`, each chunk copied
/// out: the whole blocks in row-major order of blocks, each block row by row.
#[verifier::external_body]
pub(crate) fn values_chunks(a: &ValueArray, k: usize) -> (out: Vec<Vec<SudokuValue>>)
    requires
        k > 0,
        value_rows(*a).len() > 0,
    ensures
        nested(out@) == blocks(value_rows(*a), k as int),
{
    a.inner.exact_chunks((k, k)).into_iter().map(|chunk| chunk.iter().copied().collect()).collect()
}

/// `Clone::clone` of the array: the same cells.
#[verifier::external_body]
pub(crate) fn values_clone(a: &ValueArray) -> (copy: ValueArray)
    ensures
        value_rows(copy) == value_rows(*a),
{
    ValueArray { inner: a.inner.clone() }
}

/// `Clone::clone` of a `HashSet`: a set with the same elements.
#[verifier::external_body]
pub(crate) fn digits_clone(set: &HashSet<u8>) -> (copy: HashSet<u8>)
    ensures
        copy@ == set@,
{
    set.clone()
}

/// An `ndarray::Array2` of cells with candidates.
#[derive(Debug)]
#[verifier::external_body]
pub struct CandidateArray {
    inner: ndarray::Array2<AugmentedValue>,
}

/// The rows of the array, top to bottom, each with what its cells hold left
/// to right.
pub uninterp spec fn candidate_rows(a: CandidateArray) -> Marks;

/// The cells of `values`, read as `n` rows of `n` cells.
pub open spec fn marks_row_major(values: Seq<AugmentedValue>, n: int) -> Marks {
    Seq::new(n as nat, |r: int| Seq::new(n as nat, |c: int| values[r * n + c]@))
}

/// The cell `(r, c)` lies in the whole `k` by `k` block number `block`,
/// counting the blocks of `a` in row-major order.
pub open spec fn in_block(a: Marks, k: int, block: int, r: int, c: int) -> bool {
    let across = a[0].len() as int / k;
    let down = a.len() as int / k;
    r < down * k && c < across * k && (r / k) * across + c / k == block
}

/// `Array2::from_shape_vec` with the shape `(order, order)`: succeeds exactly
/// when `values` has `order * order` elements, and then lays them out row by
/// row.
#[verifier::external_body]
pub(crate) fn marks_from_vec(order: usize, values: Vec<AugmentedValue>) -> (made: Result<
    CandidateArray,
    ndarray::ShapeError,
>)
    ensures
        made is Ok <==> values@.len() == order * order,
        made matches Ok(a) ==> candidate_rows(a) == marks_row_major(values@, order as int),
{
    ndarray::Array2::from_shape_vec((order, order), values).map(|inner| CandidateArray { inner })
}

/// `ArrayBase::get` at an index inside the array.
#[verifier::external_body]
pub(crate) fn marks_get(a: &CandidateArray, r: usize, c: usize) -> (v: &AugmentedValue)
    requires
        r < candidate_rows(*a).len(),
        c < candidate_rows(*a)[r as int].len(),
    ensures
        v@ == candidate_rows(*a)[r as int][c as int],
{
    a.inner.get((r, c)).unwrap()
}

/// `ArrayBase::get_mut` at an index inside the array, assigned through: that
/// one cell changes and nothing else.
#[verifier::external_body]
pub(crate) fn marks_set(a: &mut CandidateArray, r: usize, c: usize, v: AugmentedValue)
    requires
        r < candidate_rows(*old(a)).len(),
        c < candidate_rows(*old(a))[r as int].len(),
    ensures
        candidate_rows(*final(a)) == candidate_rows(*old(a)).update(
            r as int,
            candidate_rows(*old(a))[r as int].update(c as int, v@),
        ),
{
    *a.inner.get_mut((r, c)).unwrap() = v;
}

/// `ArrayBase::row_mut` and `map_inplace` with `AugmentedValue::remove`:
/// `value` leaves the candidates of every cell of row `row`.
#[verifier::external_body]
pub(crate) fn marks_remove_in_row(a: &mut CandidateArray, row: usize, value: u8)
    requires
        row < candidate_rows(*old(a)).len(),
    ensures
        candidate_rows(*final(a)) == strike(
            candidate_rows(*old(a)),
            |r: int, c: int| r == row,
            value,
        ),
{
    a.inner.row_mut(row).map_inplace(
        |val| {
            val.remove(value);
        },
    );
}

/// `ArrayBase::column_mut` and `map_inplace` with `AugmentedValue::remove`:
/// `value` leaves the candidates of every cell of column `col`.
#[verifier::external_body]
pub(crate) fn marks_remove_in_column(a: &mut CandidateArray, col: usize, value: u8)
    requires
        candidate_rows(*old(a)).len() > 0,
        col < candidate_rows(*old(a))[0].len(),
    ensures
        candidate_rows(*final(a)) == strike(
            candidate_rows(*old(a)),
            |r: int, c: int| c == col,
            value,
        ),
{
    a.inner.column_mut(col).map_inplace(
        |val| {
            val.remove(value);
        },
    );
}

/// `ArrayBase::exact_chunks_mut` with the chunk shape `(k, k)`, its chunk
/// number `chunk` in iteration order, and `map_inplace` with
/// `AugmentedValue::remove`: `value` leaves the candidates of every cell of
/// that block.
#[verifier::external_body]
pub(crate) fn marks_remove_in_chunk(a: &mut CandidateArray, k: usize, chunk: usize, value: u8)
    requires
        k > 0,
        candidate_rows(*old(a)).len() > 0,
        chunk < (candidate_rows(*old(a)).len() as int / k as int) * (candidate_rows(
            *old(a),
        )[0].len() as int / k as int),
    ensures
        candidate_rows(*final(a)) == strike(
            candidate_rows(*old(a)),
            |r: int, c: int| in_block(candidate_rows(*old(a)), k as int, chunk as int, r, c),
            value,
        ),
{
    a.inner.exact_chunks_mut((k, k)).into_iter().nth(chunk).unwrap().map_inplace(
        |val| {
            val.remove(value);
        },
    );
}

/// `Clone::clone` of the array: the same cells.
#[verifier::external_body]
pub(crate) fn marks_clone(a: &CandidateArray) -> (copy: CandidateArray)
    ensures
        candidate_rows(copy) == candidate_rows(*a),
{
    CandidateArray { inner: a.inner.clone() }
}

/// `ArrayBase::mapv_into_any` with `SudokuValue::from`: the array of the
/// digits that are decided, with nothing where a cell is undecided.
#[verifier::external_body]
pub(crate) fn marks_into_values(a: CandidateArray) -> (out: ValueArray)
    ensures
        value_rows(out) == lowered(candidate_rows(a)),
{
    ValueArray { inner: a.inner.mapv_into_any(|val| SudokuValue::from(val)) }
}

} // verus!
