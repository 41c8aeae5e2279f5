//! The notation of cell references, as a grammar over bytes.
//!
//! ```text
//! cellref   := [ sheetname ] "." [ "$" ] column [ "$" ] row
//! sheetname := plain-text | "'" quoted-text "'"      ; "''" inside quoted-text = "'"
//! column    := letter+                                ; bijective base 26, 'A'..'Z'
//! row       := digit+                                 ; decimal, counted from 1
//! rangeref  := cellref ":" cellref
//! rangelist := rangeref ( " " rangeref )*
//! ```
//!
//! Each rule is a function from the text that a scanner has before it to what
//! it reads there: a value and the number of bytes it takes, or a fault and
//! the number of bytes after which the scanner gives up. The other direction,
//! from a value to its text, is here too.

use crate::numeral::{
    colname_text, column_index, decimal, digits_len, lemma_digits_len_bounds,
    lemma_letters_len_bounds, letters_len, row_index, rowname_text,
};
use crate::text::{BLANK, COLON, DOLLAR, DOT, QUOTE};
use vstd::prelude::*;
use vstd::utf8::decode_utf8;

verus! {

/// What a cell reference says: a sheet, if it names one, the indices of row
/// and column, and for each of the two whether it is marked absolute.
pub struct CellRefView {
    pub table: Option<Seq<char>>,
    pub row: u32,
    pub col: u32,
    pub abs_row: bool,
    pub abs_col: bool,
}

/// What a range says: its first and its last cell.
pub struct CellRangeView {
    pub from: CellRefView,
    pub to: CellRefView,
}

/// The ways in which a text fails to be a reference.
#[derive(Debug, Clone, Copy, PartialEq, Eq, Structural)]
pub enum Fault {
    /// There is no `.` outside quotes.
    MissingSeparator,
    /// No column stands after the `.`.
    MissingColumn,
    /// No row stands after the column.
    MissingRow,
    /// No `:` stands after the first cell of a range.
    MissingRangeColon,
    /// Something other than a single blank stands after a range of a list.
    MissingListSeparator,
}

/// What a rule reads at the start of a text.
pub enum Parsed<T> {
    /// The text starts with `value`, written in `used` bytes.
    Done { value: T, used: nat },
    /// The text does not start as the rule asks; the scanner stops `used`
    /// bytes into it.
    Failed { fault: Fault, used: nat },
}

/// Whether the scanner of a sheet name is inside a quoted stretch.
#[derive(Debug, Clone, Copy, PartialEq, Eq, Structural)]
pub enum QuoteState {
    Outside,
    Inside,
}

impl QuoteState {
    /// The state after the byte `b`: a quote enters or leaves a quoted
    /// stretch. A quote written twice inside one leaves and enters it again.
    pub open spec fn after(self, b: u8) -> QuoteState {
        if b != QUOTE {
            self
        } else if self == QuoteState::Outside {
            QuoteState::Inside
        } else {
            QuoteState::Outside
        }
    }

    /// The state after the byte `b`.
    pub fn step(self, b: u8) -> (next: QuoteState)
        ensures
            next == self.after(b),
    {
        if b != QUOTE {
            self
        } else {
            match self {
                QuoteState::Outside => QuoteState::Inside,
                QuoteState::Inside => QuoteState::Outside,
            }
        }
    }
}

/// How many bytes stand before the first `.` that is outside quotes, for a
/// scanner that starts in `state`.
pub open spec fn separator_offset(t: Seq<u8>, state: QuoteState) -> Option<nat>
    decreases t.len(),
{
    if t.len() == 0 {
        None
    } else if state == QuoteState::Outside && t[0] == DOT {
        Some(0)
    } else {
        match separator_offset(t.drop_first(), state.after(t[0])) {
            Some(k) => Some(k + 1),
            None => None,
        }
    }
}

/// `t` without the quotes it starts with.
pub open spec fn trim_start_quotes(t: Seq<char>) -> Seq<char>
    decreases t.len(),
{
    if t.len() > 0 && t[0] == '\'' {
        trim_start_quotes(t.drop_first())
    } else {
        t
    }
}

/// `t` without the quotes it ends with.
pub open spec fn trim_end_quotes(t: Seq<char>) -> Seq<char>
    decreases t.len(),
{
    if t.len() > 0 && t.last() == '\'' {
        trim_end_quotes(t.drop_last())
    } else {
        t
    }
}

/// `t` with each pair of quotes, taken from the left, replaced by one quote.
pub open spec fn collapse_quotes(t: Seq<char>) -> Seq<char>
    decreases t.len(),
{
    if t.len() == 0 {
        t
    } else if t.len() >= 2 && t[0] == '\'' && t[1] == '\'' {
        seq!['\''] + collapse_quotes(t.skip(2))
    } else {
        seq![t[0]] + collapse_quotes(t.drop_first())
    }
}

/// The sheet name that the text `t` before a `.` stands for: the quotes around
/// it are dropped, and a doubled quote inside it is a quote.
pub open spec fn unquoted(t: Seq<char>) -> Seq<char> {
    collapse_quotes(trim_end_quotes(trim_start_quotes(t)))
}

/// The sheet that the `dot` bytes before the separator name: none where
/// nothing stands there.
pub open spec fn sheet_name(t: Seq<u8>, dot: nat) -> Option<Seq<char>> {
    if dot > 0 {
        Some(unquoted(decode_utf8(t.take(dot as int))))
    } else {
        None
    }
}

/// The number of bytes that the marker `$` takes at the start of `t`: 1 where
/// it stands there, else 0.
pub open spec fn dollar_len(t: Seq<u8>) -> nat {
    if t.len() > 0 && t[0] == DOLLAR {
        1
    } else {
        0
    }
}

/// The cell at the start of `t`, as it stands after the separator of a
/// reference: column and row, each with the marker `$` before it or without.
/// The value names no sheet. The rule is opaque, so that the rules built on
/// it stay small: proofs that look into it reveal it.
#[verifier::opaque]
pub open spec fn cell_syntax(t: Seq<u8>) -> Parsed<CellRefView> {
    let letters = t.skip(dollar_len(t) as int);
    let at_row = letters.skip(letters_len(letters) as int);
    let digits = at_row.skip(dollar_len(at_row) as int);
    let col_end = dollar_len(t) + letters_len(letters);
    let row_end = col_end + dollar_len(at_row) + digits_len(digits);
    match column_index(letters) {
        None => Parsed::Failed { fault: Fault::MissingColumn, used: col_end },
        Some(col) => match row_index(digits) {
            None => Parsed::Failed { fault: Fault::MissingRow, used: row_end },
            Some(row) => Parsed::Done {
                value: CellRefView {
                    table: None,
                    row,
                    col,
                    abs_row: dollar_len(at_row) == 1,
                    abs_col: dollar_len(t) == 1,
                },
                used: row_end,
            },
        },
    }
}

/// The cell `cell` in the sheet `table`.
pub open spec fn in_sheet(table: Option<Seq<char>>, cell: CellRefView) -> CellRefView {
    CellRefView {
        table,
        row: cell.row,
        col: cell.col,
        abs_row: cell.abs_row,
        abs_col: cell.abs_col,
    }
}

/// The cell reference at the start of `t`: a sheet name or none, the
/// separator, and the cell.
pub open spec fn cellref_syntax(t: Seq<u8>) -> Parsed<CellRefView> {
    match separator_offset(t, QuoteState::Outside) {
        None => Parsed::Failed { fault: Fault::MissingSeparator, used: 0 },
        Some(dot) => match cell_syntax(t.skip((dot + 1) as int)) {
            Parsed::Failed { fault, used } => Parsed::Failed { fault, used: dot + 1 + used },
            Parsed::Done { value, used } => Parsed::Done {
                value: in_sheet(sheet_name(t, dot), value),
                used: dot + 1 + used,
            },
        },
    }
}

/// The range at the start of `t`: two cell references with a `:` between
/// them. Nothing is asked of how the two cells lie to each other.
pub open spec fn cellrange_syntax(t: Seq<u8>) -> Parsed<CellRangeView> {
    match cellref_syntax(t) {
        Parsed::Failed { fault, used } => Parsed::Failed { fault, used },
        Parsed::Done { value: from, used: a } => {
            if a < t.len() && t[a as int] == COLON {
                match cellref_syntax(t.skip((a + 1) as int)) {
                    Parsed::Failed { fault, used } => Parsed::Failed { fault, used: a + 1 + used },
                    Parsed::Done { value: to, used } => Parsed::Done {
                        value: CellRangeView { from, to },
                        used: a + 1 + used,
                    },
                }
            } else {
                Parsed::Failed { fault: Fault::MissingRangeColon, used: a }
            }
        },
    }
}

/// The list of ranges that `t` is: one range or more, with a single blank
/// between each two, up to the end of the text.
pub open spec fn cellranges_syntax(t: Seq<u8>) -> Parsed<Seq<CellRangeView>>
    decreases t.len(),
{
    match cellrange_syntax(t) {
        Parsed::Failed { fault, used } => Parsed::Failed { fault, used },
        Parsed::Done { value: first, used: a } => {
            if a >= t.len() {
                Parsed::Done { value: seq![first], used: a }
            } else if t[a as int] == BLANK {
                match cellranges_syntax(t.skip((a + 1) as int)) {
                    Parsed::Failed { fault, used } => Parsed::Failed { fault, used: a + 1 + used },
                    Parsed::Done { value: more, used } => Parsed::Done {
                        value: seq![first] + more,
                        used: a + 1 + used,
                    },
                }
            } else {
                Parsed::Failed { fault: Fault::MissingListSeparator, used: a }
            }
        },
    }
}

/// The text of the marker `$`: there where `absolute` holds.
pub open spec fn dollar_text(absolute: bool) -> Seq<char> {
    if absolute {
        seq!['$']
    } else {
        Seq::empty()
    }
}

/// The text of a sheet name: the name as it is, without quotes added.
pub open spec fn sheet_text(table: Option<Seq<char>>) -> Seq<char> {
    match table {
        Some(name) => name,
        None => Seq::empty(),
    }
}

/// The text of a cell, without sheet and separator: column and row, each
/// after a `$` where it is marked absolute.
pub open spec fn cell_text(c: CellRefView) -> Seq<char> {
    dollar_text(c.abs_col) + colname_text(c.col) + dollar_text(c.abs_row) + rowname_text(c.row)
}

/// The text of a cell reference: the sheet, the separator, the cell.
pub open spec fn cellref_text(c: CellRefView) -> Seq<char> {
    sheet_text(c.table) + seq!['.'] + cell_text(c)
}

/// The text of a range.
pub open spec fn cellrange_text(r: CellRangeView) -> Seq<char> {
    cellref_text(r.from) + seq![':'] + cellref_text(r.to)
}

/// A text as it stands in a formula: in square brackets.
pub open spec fn bracketed(t: Seq<char>) -> Seq<char> {
    seq!['['] + t + seq![']']
}

/// The decimal digits of `n`: `0` for zero.
pub open spec fn number_text(n: u32) -> Seq<char> {
    if n == 0 {
        seq!['0']
    } else {
        decimal(n as nat)
    }
}

/// The text of a row or a column in numbers: the letter `axis` with the
/// index, after a `$` where it is marked absolute.
pub open spec fn axis_text(absolute: bool, axis: char, n: u32) -> Seq<char> {
    dollar_text(absolute) + seq![axis] + number_text(n)
}

/// The text of a cell reference in numbers: the sheet, a `.`, then `R` with
/// the row's index and `C` with the column's, each after a `$` where it is
/// marked absolute. This is for a reader; no rule here reads it back.
pub open spec fn cellref_rc_text(c: CellRefView) -> Seq<char> {
    sheet_text(c.table) + seq!['.'] + axis_text(c.abs_row, 'R', c.row) + axis_text(
        c.abs_col,
        'C',
        c.col,
    )
}

/// The text of a range in numbers.
pub open spec fn cellrange_rc_text(r: CellRangeView) -> Seq<char> {
    cellref_rc_text(r.from) + seq![':'] + cellref_rc_text(r.to)
}

/// The text of a list of ranges: the ranges in their order, with a blank
/// between each two.
pub open spec fn cellranges_text(rs: Seq<CellRangeView>) -> Seq<char>
    decreases rs.len(),
{
    if rs.len() == 0 {
        Seq::empty()
    } else if rs.len() == 1 {
        cellrange_text(rs[0])
    } else {
        cellranges_text(rs.drop_last()) + seq![' '] + cellrange_text(rs.last())
    }
}

} // verus!

verus! {

/// `found`, moved `by` bytes to the right.
pub open spec fn shifted(found: Option<nat>, by: nat) -> Option<nat> {
    match found {
        Some(k) => Some(k + by),
        None => None,
    }
}

/// The separator lies inside the text, and a `.` stands there.
pub proof fn lemma_separator_offset_bounds(t: Seq<u8>, state: QuoteState)
    ensures
        separator_offset(t, state) matches Some(k) ==> k < t.len() && t[k as int] == DOT,
    decreases t.len(),
{
    if t.len() > 0 && !(state == QuoteState::Outside && t[0] == DOT) {
        lemma_separator_offset_bounds(t.drop_first(), state.after(t[0]));
    }
}

/// A text without quotes stands for itself as a sheet name.
pub proof fn lemma_unquoted_plain(t: Seq<char>)
    requires
        !t.contains('\''),
    ensures
        unquoted(t) == t,
{
    if t.len() > 0 {
        assert(t.contains(t[0]));
        assert(t.contains(t.last()));
    }
    lemma_collapse_plain(t);
}

/// A text without quotes has no pair of quotes to replace.
pub proof fn lemma_collapse_plain(t: Seq<char>)
    requires
        !t.contains('\''),
    ensures
        collapse_quotes(t) == t,
    decreases t.len(),
{
    if t.len() > 0 {
        assert(t.contains(t[0]));
        let rest = t.drop_first();
        assert forall|i: int| 0 <= i < rest.len() implies rest[i] != '\'' by {
            assert(rest[i] == t[i + 1]);
            assert(t.contains(t[i + 1]));
        }
        lemma_collapse_plain(rest);
        assert(seq![t[0]] + rest =~= t);
    }
}

} // verus!

verus! {

/// What a rule reads, seen from `by` bytes further left, where the ranges
/// `done` stand before it.
pub open spec fn prepended(
    done: Seq<CellRangeView>,
    by: nat,
    then: Parsed<Seq<CellRangeView>>,
) -> Parsed<Seq<CellRangeView>> {
    match then {
        Parsed::Done { value, used } => Parsed::Done { value: done + value, used: by + used },
        Parsed::Failed { fault, used } => Parsed::Failed { fault, used: by + used },
    }
}

/// The rule for a cell, step by step: with what is left after the first
/// marker, after the letters, and after the second marker, the cell is what
/// the letters and the digits stand for.
pub proof fn lemma_cell_syntax_steps(
    t: Seq<u8>,
    letters: Seq<u8>,
    at_row: Seq<u8>,
    digits: Seq<u8>,
)
    requires
        letters == t.skip(dollar_len(t) as int),
        at_row == letters.skip(letters_len(letters) as int),
        digits == at_row.skip(dollar_len(at_row) as int),
    ensures
        column_index(letters) is None ==> cell_syntax(t) == (Parsed::<CellRefView>::Failed {
            fault: Fault::MissingColumn,
            used: dollar_len(t) + letters_len(letters),
        }),
        column_index(letters) is Some && row_index(digits) is None ==> cell_syntax(t) == (Parsed::<
            CellRefView,
        >::Failed {
            fault: Fault::MissingRow,
            used: dollar_len(t) + letters_len(letters) + dollar_len(at_row) + digits_len(digits),
        }),
        column_index(letters) is Some && row_index(digits) is Some ==> cell_syntax(t)
            == (Parsed::Done {
            value: CellRefView {
                table: None,
                row: row_index(digits)->0,
                col: column_index(letters)->0,
                abs_row: dollar_len(at_row) == 1,
                abs_col: dollar_len(t) == 1,
            },
            used: dollar_len(t) + letters_len(letters) + dollar_len(at_row) + digits_len(digits),
        }),
{
    reveal(cell_syntax);
}

/// A cell takes no more bytes than there are.
pub proof fn lemma_cell_syntax_used(t: Seq<u8>)
    ensures
        cell_syntax(t) matches Parsed::Done { used, .. } ==> used <= t.len(),
        cell_syntax(t) matches Parsed::Failed { used, .. } ==> used <= t.len(),
{
    reveal(cell_syntax);
    let letters = t.skip(dollar_len(t) as int);
    lemma_letters_len_bounds(letters);
    let at_row = letters.skip(letters_len(letters) as int);
    let digits = at_row.skip(dollar_len(at_row) as int);
    lemma_digits_len_bounds(digits);
}

/// A cell reference takes at least its separator, and no more bytes than
/// there are.
pub proof fn lemma_cellref_syntax_used(t: Seq<u8>)
    ensures
        cellref_syntax(t) matches Parsed::Done { used, .. } ==> 0 < used <= t.len(),
        cellref_syntax(t) matches Parsed::Failed { used, .. } ==> used <= t.len(),
{
    lemma_separator_offset_bounds(t, QuoteState::Outside);
    if let Some(dot) = separator_offset(t, QuoteState::Outside) {
        lemma_cell_syntax_used(t.skip((dot + 1) as int));
    }
}

/// A range takes at least one byte, and no more than there are.
pub proof fn lemma_cellrange_syntax_used(t: Seq<u8>)
    ensures
        cellrange_syntax(t) matches Parsed::Done { used, .. } ==> 0 < used <= t.len(),
        cellrange_syntax(t) matches Parsed::Failed { used, .. } ==> used <= t.len(),
{
    lemma_cellref_syntax_used(t);
    if let Parsed::Done { value, used: a } = cellref_syntax(t) {
        if a < t.len() {
            lemma_cellref_syntax_used(t.skip((a + 1) as int));
        }
    }
}

/// A list that is read takes the whole text, and holds at least one range.
pub proof fn lemma_cellranges_syntax_whole(t: Seq<u8>)
    ensures
        cellranges_syntax(t) matches Parsed::Done { value, used } ==> used == t.len()
            && value.len() > 0,
        cellranges_syntax(t) matches Parsed::Failed { used, .. } ==> used <= t.len(),
    decreases t.len(),
{
    lemma_cellrange_syntax_used(t);
    if let Parsed::Done { value: first, used: a } = cellrange_syntax(t) {
        if a < t.len() && t[a as int] == BLANK {
            lemma_cellranges_syntax_whole(t.skip((a + 1) as int));
        }
    }
}

/// Reading a list goes range by range: with the ranges `done` read and the
/// scanner `by` bytes into the list, before the text `t`, the whole list is
/// what is read from here on, after what has been read.
pub proof fn lemma_cellranges_step(done: Seq<CellRangeView>, by: nat, t: Seq<u8>)
    ensures
        match cellrange_syntax(t) {
            Parsed::Failed { fault, used } => prepended(done, by, cellranges_syntax(t))
                == Parsed::<Seq<CellRangeView>>::Failed { fault, used: by + used },
            Parsed::Done { value: first, used: a } => {
                if a >= t.len() {
                    prepended(done, by, cellranges_syntax(t)) == Parsed::Done {
                        value: done.push(first),
                        used: by + a,
                    }
                } else if t[a as int] == BLANK {
                    prepended(done, by, cellranges_syntax(t)) == prepended(
                        done.push(first),
                        by + a + 1,
                        cellranges_syntax(t.skip((a + 1) as int)),
                    )
                } else {
                    prepended(done, by, cellranges_syntax(t)) == Parsed::<
                        Seq<CellRangeView>,
                    >::Failed { fault: Fault::MissingListSeparator, used: by + a }
                }
            },
        },
{
    if let Parsed::Done { value: first, used: a } = cellrange_syntax(t) {
        assert(done + seq![first] =~= done.push(first));
        if a < t.len() && t[a as int] == BLANK {
            if let Parsed::Done { value: more, used } = cellranges_syntax(t.skip((a + 1) as int)) {
                assert(done + (seq![first] + more) =~= done.push(first) + more);
            }
        }
    }
}

} // verus!
