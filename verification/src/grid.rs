//! Flat row-major tables.

use vstd::prelude::*;

verus! {

/// A cell of a flat table lies inside it.
pub proof fn lemma_cell(row: int, column: int, rows: int, width: int)
    requires
        0 <= row < rows,
        0 <= column < width,
    ensures
        0 <= row * width + column < rows * width,
        0 <= row * width,
        row * width + width <= rows * width,
{
    assert(0 <= row * width && row * width + width <= rows * width) by (nonlinear_arith)
        requires
            0 <= row < rows,
            0 <= width,
    ;
}

/// A row of a flat table lies inside it.
pub proof fn lemma_row_start(row: int, rows: int, width: int)
    requires
        0 <= row < rows,
        0 <= width,
    ensures
        0 <= row * width,
        row * width + width <= rows * width,
        (row + 1) * width == row * width + width,
{
    assert(0 <= row * width && row * width + width <= rows * width && (row + 1) * width == row
        * width + width) by (nonlinear_arith)
        requires
            0 <= row < rows,
            0 <= width,
    ;
}

/// Row and column of a cell follow from its position.
pub proof fn lemma_position(row: int, column: int, width: int)
    requires
        0 <= row,
        0 <= column < width,
    ensures
        (row * width + column) / width == row,
        (row * width + column) % width == column,
{
    vstd::arithmetic::div_mod::lemma_fundamental_div_mod_converse(
        row * width + column,
        width,
        row,
        column,
    );
}

/// A position belongs to a row and a column of the table.
pub proof fn lemma_row_column(position: int, rows: int, width: int)
    requires
        0 <= position < rows * width,
        0 <= rows,
        0 <= width,
    ensures
        width > 0,
        0 <= position / width < rows,
        0 <= position % width < width,
        position == (position / width) * width + position % width,
{
    assert(width > 0) by (nonlinear_arith)
        requires
            0 <= position < rows * width,
            0 <= width,
    ;
    vstd::arithmetic::div_mod::lemma_fundamental_div_mod(position, width);
    let q = position / width;
    assert(q < rows) by (nonlinear_arith)
        requires
            position == width * q + position % width,
            0 <= position % width,
            position < rows * width,
            width > 0,
    ;
    assert(q >= 0) by (nonlinear_arith)
        requires
            position == width * q + position % width,
            position % width < width,
            position >= 0,
            width > 0,
    ;
    vstd::arithmetic::mul::lemma_mul_is_commutative(width, q);
}

/// One row of a flat table.
pub open spec fn row_of<T>(table: Seq<T>, row: int, width: int) -> Seq<T> {
    table.subrange(row * width, row * width + width)
}

} // verus!
