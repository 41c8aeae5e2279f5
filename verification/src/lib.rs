//! Cell references of spreadsheets, between numbers and text.
//!
//! A cell is named by a sheet, a row and a column. In a document and in a
//! formula it is written as in `Sheet1.A1`: the sheet, a `.`, the column in
//! letters and the row in digits, each after a `$` where it is absolute. This
//! crate reads such text into values and writes values as such text, for
//! cells, for ranges of cells (`Sheet1.A1:Sheet1.B2`) and for lists of ranges.
//!
//! - [`refs`] holds the values and the functions that read and write them.
//! - [`grammar`] says what the notation is: what each rule reads at the start
//!   of a text, and what the text of a value is.
//! - [`numeral`] is about the names of columns and rows.
//! - [`laws`] proves that what is written is read back as it was.
//! - [`formula`] writes references as they stand in formulas.
//! - [`text`] is the ground the readers stand on: bytes and positions.
//! - [`xmltree`] is a tree of tags for parts of a document that are carried
//!   along unread; [`atom`] interns the names of its attributes.

use vstd::prelude::*;

pub mod atom;
pub mod error;
pub mod formula;
pub mod grammar;
pub mod laws;
pub mod numeral;
pub mod refs;
pub mod text;
pub mod xmltree;

pub use error::OdsError;

verus! {

/// Index of a row or a column, counted from zero.
#[allow(non_camel_case_types)]
pub type ucell = u32;

} // verus!
