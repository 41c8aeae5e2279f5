//! References as they stand in formulas: in square brackets.

use crate::grammar::{bracketed, cellrange_text, cellref_text};
use crate::refs::{relative_cell, relative_range, CellRange, CellRef};
use crate::ucell;
use vstd::prelude::*;

verus! {

/// The reference to the cell in `row` and `col`, for a formula.
pub fn fcellref(row: ucell, col: ucell) -> (text: String)
    ensures
        text@ == bracketed(cellref_text(relative_cell(None, row, col))),
{
    CellRef::simple(row, col).to_formula()
}

/// The reference to the cell in `row` and `col` of the sheet `table`, for a
/// formula.
pub fn fcellref_table(table: &str, row: ucell, col: ucell) -> (text: String)
    ensures
        text@ == bracketed(cellref_text(relative_cell(Some(table@), row, col))),
{
    CellRef::table(table, row, col).to_formula()
}

/// The reference to the range from the cell in `row` and `col` to the cell in
/// `row_to` and `col_to`, for a formula.
pub fn frangeref(row: ucell, col: ucell, row_to: ucell, col_to: ucell) -> (text: String)
    requires
        row <= row_to,
        col <= col_to,
    ensures
        text@ == bracketed(cellrange_text(relative_range(None, row, col, row_to, col_to))),
{
    CellRange::simple(row, col, row_to, col_to).to_formula()
}

/// The reference to the range from the cell in `row` and `col` to the cell in
/// `row_to` and `col_to` of the sheet `table`, for a formula.
pub fn frangeref_table(table: &str, row: ucell, col: ucell, row_to: ucell, col_to: ucell) -> (text:
    String)
    requires
        row <= row_to,
        col <= col_to,
    ensures
        text@ == bracketed(
            cellrange_text(relative_range(Some(table@), row, col, row_to, col_to)),
        ),
{
    CellRange::table(table, row, col, row_to, col_to).to_formula()
}

} // verus!
