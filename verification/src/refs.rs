//! Cell references and ranges, and their texts.
//!
//! A reference is read from a string at a scan position, which is a byte
//! offset that the parser moves past what it has read. What is read, and how
//! far, is what the rules of [`crate::grammar`] say of the bytes at that
//! position.

use crate::error::OdsError;
use crate::grammar::{
    axis_text, bracketed, cell_syntax, lemma_cell_syntax_steps, cell_text, cellrange_rc_text, cellrange_syntax,
    cellrange_text, cellranges_syntax, cellranges_text, cellref_rc_text, cellref_syntax,
    cellref_text, collapse_quotes, dollar_len, lemma_cellrange_syntax_used,
    lemma_cellranges_step, lemma_cellranges_syntax_whole, lemma_unquoted_plain, number_text,
    prepended, separator_offset, sheet_name, sheet_text, shifted, trim_end_quotes,
    trim_start_quotes, unquoted, CellRangeView, CellRefView, Parsed, QuoteState,
};
use crate::numeral::{
    bijective26, capped, colname_text, column_index, decimal, digits_left, digits_len,
    digits_value, figure, lemma_digits_len_is, lemma_digits_value_push, lemma_letters_len_is,
    lemma_letters_value_push, letter, letters_left, letters_len, letters_value, row_index,
    rowname_text, INDEX_COUNT,
};
use crate::text::{
    head, is_digit, is_position, is_upper, lemma_ascii_byte_occurs, lemma_ascii_is_boundary,
    lemma_boundary_after_ascii, lemma_position_in_range,
    lemma_position_splits, lemma_remaining_skip, remaining, tail, BLANK, COLON, DOLLAR, DOT,
    QUOTE,
};
use crate::ucell;
use vstd::prelude::*;
use vstd::string::{StringExecFns, StringSliceAdditionalSpecFns};
use vstd::utf8::{decode_utf8, is_char_boundary, valid_utf8};

verus! {

/// Reads the name of a column at `pos`: the letters `A` to `Z` that stand
/// there. The position moves past them. The result is the column's index, or
/// `None` where no letter stands at `pos` or the index does not fit.
pub fn parse_colname(buf: &str, pos: &mut usize) -> (col: Option<ucell>)
    requires
        is_position(buf, *old(pos)),
    ensures
        *final(pos) == *old(pos) + letters_len(remaining(buf, *old(pos))),
        col == column_index(remaining(buf, *old(pos))),
        is_position(buf, *final(pos)),
{
    let bytes = buf.as_bytes();
    let start: usize = *pos;
    let mut p: usize = start;
    let mut count: u64 = 0;
    proof {
        lemma_position_splits(buf, start);
        assert(bytes@.subrange(start as int, p as int) =~= Seq::<u8>::empty());
    }
    while p < bytes.len() && 0x41 <= bytes[p] && bytes[p] <= 0x5a
        invariant
            bytes@ == buf.spec_bytes(),
            valid_utf8(bytes@),
            start <= p <= bytes@.len(),
            is_char_boundary(bytes@, p as int),
            forall|i: int| start <= i < p ==> is_upper(#[trigger] bytes@[i]),
            count == capped(letters_value(bytes@.subrange(start as int, p as int))),
        decreases bytes@.len() - p,
    {
        let b: u8 = bytes[p];
        proof {
            lemma_letters_value_push(bytes@.subrange(start as int, p as int), b);
            assert(bytes@.subrange(start as int, p + 1) =~= bytes@.subrange(
                start as int,
                p as int,
            ).push(b));
            lemma_boundary_after_ascii(bytes@, p as int);
        }
        count = count * 26 + (b - 0x40) as u64;
        if count > INDEX_COUNT {
            count = INDEX_COUNT + 1;
        }
        p += 1;
    }
    *pos = p;
    proof {
        let t = remaining(buf, start);
        assert forall|i: int| 0 <= i < p - start implies is_upper(#[trigger] t[i]) by {
            assert(t[i] == bytes@[start + i]);
        }
        lemma_letters_len_is(t, p - start);
        assert(t.take(p - start) =~= bytes@.subrange(start as int, p as int));
    }
    if count == 0 || count > INDEX_COUNT {
        None
    } else {
        Some((count - 1) as u32)
    }
}

/// Reads the name of a row at `pos`: the decimal digits that stand there. The
/// position moves past them. The result is the row's index, or `None` where no
/// digit stands at `pos`, the digits are all `0`, or the index does not fit.
pub fn parse_rowname(buf: &str, pos: &mut usize) -> (row: Option<ucell>)
    requires
        is_position(buf, *old(pos)),
    ensures
        *final(pos) == *old(pos) + digits_len(remaining(buf, *old(pos))),
        row == row_index(remaining(buf, *old(pos))),
        is_position(buf, *final(pos)),
{
    let bytes = buf.as_bytes();
    let start: usize = *pos;
    let mut p: usize = start;
    let mut count: u64 = 0;
    proof {
        lemma_position_splits(buf, start);
        assert(bytes@.subrange(start as int, p as int) =~= Seq::<u8>::empty());
    }
    while p < bytes.len() && 0x30 <= bytes[p] && bytes[p] <= 0x39
        invariant
            bytes@ == buf.spec_bytes(),
            valid_utf8(bytes@),
            start <= p <= bytes@.len(),
            is_char_boundary(bytes@, p as int),
            forall|i: int| start <= i < p ==> is_digit(#[trigger] bytes@[i]),
            count == capped(digits_value(bytes@.subrange(start as int, p as int))),
        decreases bytes@.len() - p,
    {
        let b: u8 = bytes[p];
        proof {
            lemma_digits_value_push(bytes@.subrange(start as int, p as int), b);
            assert(bytes@.subrange(start as int, p + 1) =~= bytes@.subrange(
                start as int,
                p as int,
            ).push(b));
            lemma_boundary_after_ascii(bytes@, p as int);
        }
        count = count * 10 + (b - 0x30) as u64;
        if count > INDEX_COUNT {
            count = INDEX_COUNT + 1;
        }
        p += 1;
    }
    *pos = p;
    proof {
        let t = remaining(buf, start);
        assert forall|i: int| 0 <= i < p - start implies is_digit(#[trigger] t[i]) by {
            assert(t[i] == bytes@[start + i]);
        }
        lemma_digits_len_is(t, p - start);
        assert(t.take(p - start) =~= bytes@.subrange(start as int, p as int));
    }
    if count == 0 || count > INDEX_COUNT {
        None
    } else {
        Some((count - 1) as u32)
    }
}

/// Appends the name of the column `col` to `buf`.
pub fn push_colname(buf: &mut String, col: ucell)
    ensures
        final(buf)@ == old(buf)@ + colname_text(col),
{
    let ghost before = buf@;
    let ghost text = colname_text(col);
    let mut dbuf = [0u8; 7];
    let mut i: usize = 0;
    let mut n: u64 = col as u64 + 1;
    while n > 0
        invariant
            i <= 7,
            n <= letters_left(i as nat),
            forall|k: int| 0 <= k < i ==> dbuf@[k] < 26,
            text =~= bijective26(n as nat) + Seq::new(
                i as nat,
                |k: int| letter(dbuf@[i - 1 - k] as int),
            ),
        decreases n,
    {
        let ghost lower = Seq::new(i as nat, |k: int| letter(dbuf@[i - 1 - k] as int));
        let ghost whole = n;
        let m: u64 = n % 26;
        if m == 0 {
            dbuf[i] = 25;
            n = n / 26 - 1;
        } else {
            dbuf[i] = (m - 1) as u8;
            n = n / 26;
        }
        i += 1;
        proof {
            assert(n == (whole - 1) / 26);
            assert(dbuf@[i - 1] == (whole - 1) % 26);
            assert(Seq::new(i as nat, |k: int| letter(dbuf@[i - 1 - k] as int)) =~= seq![
                letter(dbuf@[i - 1] as int),
            ] + lower);
        }
    }
    let mut j: usize = i;
    while j > 0
        invariant
            j <= i <= 7,
            forall|k: int| 0 <= k < i ==> dbuf@[k] < 26,
            text =~= Seq::new(i as nat, |k: int| letter(dbuf@[i - 1 - k] as int)),
            buf@ =~= before + text.take(i - j),
        decreases j,
    {
        buf.push((0x41 + dbuf[j - 1]) as char);
        j -= 1;
        proof {
            assert(text.take(i - j) =~= text.take(i - j - 1).push(text[i - j - 1]));
        }
    }
    proof {
        assert(text.take(i as int) =~= text);
    }
}

/// Appends the name of the row `row` to `buf`.
pub fn push_rowname(buf: &mut String, row: ucell)
    ensures
        final(buf)@ == old(buf)@ + rowname_text(row),
{
    let ghost before = buf@;
    let ghost text = rowname_text(row);
    let mut dbuf = [0u8; 10];
    let mut i: usize = 0;
    let mut n: u64 = row as u64 + 1;
    while n > 0
        invariant
            i <= 10,
            n <= digits_left(i as nat),
            forall|k: int| 0 <= k < i ==> dbuf@[k] < 10,
            text =~= decimal(n as nat) + Seq::new(
                i as nat,
                |k: int| figure(dbuf@[i - 1 - k] as int),
            ),
        decreases n,
    {
        let ghost lower = Seq::new(i as nat, |k: int| figure(dbuf@[i - 1 - k] as int));
        dbuf[i] = (n % 10) as u8;
        n = n / 10;
        i += 1;
        proof {
            assert(Seq::new(i as nat, |k: int| figure(dbuf@[i - 1 - k] as int)) =~= seq![
                figure(dbuf@[i - 1] as int),
            ] + lower);
        }
    }
    let mut j: usize = i;
    while j > 0
        invariant
            j <= i <= 10,
            forall|k: int| 0 <= k < i ==> dbuf@[k] < 10,
            text =~= Seq::new(i as nat, |k: int| figure(dbuf@[i - 1 - k] as int)),
            buf@ =~= before + text.take(i - j),
        decreases j,
    {
        buf.push((0x30 + dbuf[j - 1]) as char);
        j -= 1;
        proof {
            assert(text.take(i - j) =~= text.take(i - j - 1).push(text[i - j - 1]));
        }
    }
    proof {
        assert(text.take(i as int) =~= text);
    }
}

/// The name of the column `col`.
pub fn colname(col: ucell) -> (name: String)
    ensures
        name@ == colname_text(col),
{
    let mut col_str = String::new();
    push_colname(&mut col_str, col);
    col_str
}

/// The name of the row `row`.
pub fn rowname(row: ucell) -> (name: String)
    ensures
        name@ == rowname_text(row),
{
    let mut row_str = String::new();
    push_rowname(&mut row_str, row);
    row_str
}

/// A reference to a cell.
#[derive(Debug, Clone, PartialEq, Eq)]
pub struct CellRef {
    /// The sheet, where the reference names one.
    pub table: Option<String>,
    /// The row, counted from zero.
    pub row: ucell,
    /// The column, counted from zero.
    pub col: ucell,
    /// The row is marked absolute (`$`).
    pub abs_row: bool,
    /// The column is marked absolute (`$`).
    pub abs_col: bool,
}

/// The sheet of a reference, as contracts speak of it.
pub open spec fn table_view(table: Option<String>) -> Option<Seq<char>> {
    match table {
        Some(name) => Some(name@),
        None => None,
    }
}

impl View for CellRef {
    type V = CellRefView;

    open spec fn view(&self) -> CellRefView {
        CellRefView {
            table: table_view(self.table),
            row: self.row,
            col: self.col,
            abs_row: self.abs_row,
            abs_col: self.abs_col,
        }
    }
}

/// The reference to the cell in `row` and `col` of the sheet `table`, with
/// nothing marked absolute.
pub open spec fn relative_cell(table: Option<Seq<char>>, row: u32, col: u32) -> CellRefView {
    CellRefView { table, row, col, abs_row: false, abs_col: false }
}

impl Default for CellRef {
    fn default() -> (r: CellRef)
        ensures
            r@ == relative_cell(None, 0, 0),
    {
        CellRef { table: None, row: 0, col: 0, abs_row: false, abs_col: false }
    }
}

/// The position at which a scanner that started at 0 stands after a rule has
/// read `parsed`.
pub open spec fn stop<T>(parsed: Parsed<T>) -> usize {
    match parsed {
        Parsed::Done { used, .. } => used as usize,
        Parsed::Failed { used, .. } => used as usize,
    }
}

/// Whether `r` and the position `end` are what the rule for a cell reference
/// reads in `buf` at `start`: the value with the position after it, or the
/// fault with the position at which the scanner gave up and the input that was
/// left there.
pub open spec fn reads_cellref(
    buf: &str,
    start: usize,
    end: usize,
    r: Result<CellRef, OdsError>,
) -> bool {
    match cellref_syntax(remaining(buf, start)) {
        Parsed::Done { value, used } => end == start + used && (r matches Ok(c) && c@ == value),
        Parsed::Failed { fault, used } => end == start + used && (r matches Err(e) && e.fault()
            == fault && e.rest() == decode_utf8(remaining(buf, end))),
    }
}

/// Looks for the `.` that ends the sheet name: the first one at or after
/// `start` that is not inside quotes. The result is its index, and whether a
/// quote stands before it.
fn find_separator(buf: &str, start: usize) -> (found: Option<(usize, bool)>)
    requires
        is_position(buf, start),
    ensures
        found is Some <==> separator_offset(remaining(buf, start), QuoteState::Outside) is Some,
        found matches Some(at) ==> {
            &&& at.0 == start + separator_offset(remaining(buf, start), QuoteState::Outside)->0
            &&& at.0 < buf.spec_bytes().len()
            &&& at.0 < usize::MAX
            &&& buf.spec_bytes()[at.0 as int] == DOT
            &&& is_position(buf, (at.0 + 1) as usize)
            &&& at.1 == buf.spec_bytes().subrange(start as int, at.0 as int).contains(QUOTE)
        },
{
    let bytes = buf.as_bytes();
    let len: usize = bytes.len();
    let ghost whole = separator_offset(remaining(buf, start), QuoteState::Outside);
    let mut state = QuoteState::Outside;
    let mut any_quote = false;
    let mut p: usize = start;
    proof {
        lemma_position_splits(buf, start);
        assert(bytes@.subrange(start as int, p as int) =~= Seq::<u8>::empty());
    }
    while p < len
        invariant
            len == bytes@.len(),
            bytes@ == buf.spec_bytes(),
            valid_utf8(bytes@),
            start <= p <= len,
            whole == separator_offset(remaining(buf, start), QuoteState::Outside),
            whole == shifted(separator_offset(bytes@.skip(p as int), state), (p - start) as nat),
            any_quote == bytes@.subrange(start as int, p as int).contains(QUOTE),
        decreases len - p,
    {
        let b: u8 = bytes[p];
        proof {
            assert(bytes@.skip(p as int)[0] == b);
            assert(bytes@.skip(p as int).drop_first() =~= bytes@.skip(p + 1));
        }
        if b == DOT {
            match state {
                QuoteState::Outside => {
                    proof {
                        lemma_ascii_is_boundary(bytes@, p as int);
                        lemma_boundary_after_ascii(bytes@, p as int);
                    }
                    return Some((p, any_quote));
                },
                QuoteState::Inside => {},
            }
        }
        proof {
            let before = bytes@.subrange(start as int, p as int);
            let now = bytes@.subrange(start as int, p + 1);
            assert(now =~= before.push(b));
            if before.contains(QUOTE) {
                let i = choose|i: int| 0 <= i < before.len() && before[i] == QUOTE;
                assert(now[i] == QUOTE);
            }
            if b == QUOTE {
                assert(now[now.len() - 1] == QUOTE);
            }
            if now.contains(QUOTE) {
                let i = choose|i: int| 0 <= i < now.len() && now[i] == QUOTE;
                if i < before.len() {
                    assert(before[i] == QUOTE);
                }
            }
        }
        if b == QUOTE {
            any_quote = true;
        }
        state = state.step(b);
        p += 1;
    }
    None
}

/// The sheet that the text from `start` to the separator at `dot` names.
fn read_sheet_name(buf: &str, start: usize, dot: usize, any_quote: bool) -> (table: Option<
    String,
>)
    requires
        is_position(buf, start),
        start <= dot < buf.spec_bytes().len(),
        buf.spec_bytes()[dot as int] == DOT,
        any_quote == buf.spec_bytes().subrange(start as int, dot as int).contains(QUOTE),
    ensures
        table_view(table) == sheet_name(remaining(buf, start), (dot - start) as nat),
{
    if dot > start {
        let rest = tail(buf, start);
        proof {
            lemma_position_splits(buf, start);
            assert(remaining(buf, start)[dot - start] == DOT);
            lemma_ascii_is_boundary(remaining(buf, start), dot - start);
        }
        let name = head(rest, dot - start);
        proof {
            assert(name.spec_bytes() =~= buf.spec_bytes().subrange(start as int, dot as int));
        }
        if any_quote {
            Some(unquote(name))
        } else {
            proof {
                lemma_ascii_byte_occurs(name@, QUOTE);
                lemma_unquoted_plain(name@);
            }
            Some(name.to_owned())
        }
    } else {
        None
    }
}

/// Steps over the marker `$` where it stands at `pos`, and says whether it
/// does.
fn skip_dollar(buf: &str, pos: &mut usize) -> (found: bool)
    requires
        is_position(buf, *old(pos)),
    ensures
        *final(pos) == *old(pos) + dollar_len(remaining(buf, *old(pos))),
        found == (dollar_len(remaining(buf, *old(pos))) == 1),
        is_position(buf, *final(pos)),
{
    let bytes = buf.as_bytes();
    proof {
        lemma_position_splits(buf, *pos);
    }
    if *pos < bytes.len() && bytes[*pos] == DOLLAR {
        proof {
            lemma_boundary_after_ascii(bytes@, *pos as int);
        }
        *pos += 1;
        true
    } else {
        false
    }
}

/// The sheet name that `name` stands for where it is written with quotes: the
/// quotes at both ends are dropped, and each doubled quote is a quote.
pub fn unquote(name: &str) -> (plain: String)
    ensures
        plain@ == unquoted(name@),
{
    let mut chars: Vec<char> = Vec::new();
    for c in it: name.chars()
        invariant
            it.seq() == name@,
            chars@ == name@.take(it.index() as int),
    {
        chars.push(c);
        proof {
            assert(name@.take(it.index() + 1) =~= name@.take(it.index() as int).push(c));
        }
    }
    proof {
        assert(name@.take(name@.len() as int) =~= name@);
        assert(chars@.skip(0) =~= chars@);
    }
    let mut from: usize = 0;
    while from < chars.len() && chars[from] == '\''
        invariant
            from <= chars.len(),
            trim_start_quotes(chars@) == trim_start_quotes(chars@.skip(from as int)),
        decreases chars.len() - from,
    {
        proof {
            assert(chars@.skip(from as int).drop_first() =~= chars@.skip(from + 1));
        }
        from += 1;
    }
    let mut to: usize = chars.len();
    proof {
        assert(chars@.skip(from as int) =~= chars@.subrange(from as int, to as int));
    }
    while to > from && chars[to - 1] == '\''
        invariant
            from <= to <= chars.len(),
            trim_end_quotes(trim_start_quotes(chars@)) == trim_end_quotes(
                chars@.subrange(from as int, to as int),
            ),
        decreases to,
    {
        proof {
            assert(chars@.subrange(from as int, to as int).drop_last() =~= chars@.subrange(
                from as int,
                to - 1,
            ));
        }
        to -= 1;
    }
    let ghost core = chars@.subrange(from as int, to as int);
    let mut plain = String::new();
    let mut k: usize = from;
    proof {
        assert(core.skip(0) =~= core);
        assert(plain@ + collapse_quotes(core) =~= collapse_quotes(core));
    }
    while k < to
        invariant
            from <= k <= to <= chars.len(),
            core == chars@.subrange(from as int, to as int),
            collapse_quotes(core) == plain@ + collapse_quotes(core.skip(k - from)),
        decreases to - k,
    {
        let ghost here = core.skip(k - from);
        proof {
            assert(here[0] == chars@[k as int]);
        }
        if chars[k] == '\'' && k + 1 < to && chars[k + 1] == '\'' {
            proof {
                assert(here[1] == chars@[k + 1]);
                assert(here.skip(2) =~= core.skip(k + 2 - from));
            }
            plain.push('\'');
            k += 2;
        } else {
            proof {
                assert(here.len() >= 2 ==> here[1] == chars@[k + 1]);
                assert(here.drop_first() =~= core.skip(k + 1 - from));
            }
            plain.push(chars[k]);
            k += 1;
        }
        proof {
            assert(collapse_quotes(core) =~= plain@ + collapse_quotes(core.skip(k - from)));
        }
    }
    proof {
        assert(core.skip(to - from) =~= Seq::<char>::empty());
        assert(plain@ + Seq::<char>::empty() =~= plain@);
    }
    plain
}

/// Whether `r` and the position `end` are what the rule for a cell reads in
/// `buf` at `start`.
spec fn reads_cell(
    buf: &str,
    start: usize,
    end: usize,
    r: Result<CellRef, OdsError>,
) -> bool {
    match cell_syntax(remaining(buf, start)) {
        Parsed::Done { value, used } => end == start + used && (r matches Ok(c) && c@ == value),
        Parsed::Failed { fault, used } => end == start + used && (r matches Err(e) && e.fault()
            == fault && e.rest() == decode_utf8(remaining(buf, end))),
    }
}

/// Reads a cell at `pos`, as it stands after the separator of a reference:
/// column and row, each with the marker `$` before it or without.
fn parse_cell(buf: &str, pos: &mut usize) -> (r: Result<CellRef, OdsError>)
    requires
        is_position(buf, *old(pos)),
    ensures
        reads_cell(buf, *old(pos), *final(pos), r),
        is_position(buf, *final(pos)),
{
    let ghost at_col = *pos;
    let abs_col = skip_dollar(buf, pos);
    proof {
        lemma_position_in_range(buf, *pos);
        lemma_remaining_skip(buf, at_col, (*pos - at_col) as nat);
    }
    let ghost at_letters = *pos;
    let col = parse_colname(buf, pos);
    proof {
        lemma_position_in_range(buf, *pos);
        lemma_remaining_skip(buf, at_letters, (*pos - at_letters) as nat);
    }
    let ghost at_row = *pos;
    let col = match col {
        Some(col) => col,
        None => {
            proof {
                lemma_cell_syntax_steps(
                    remaining(buf, at_col),
                    remaining(buf, at_letters),
                    remaining(buf, at_row),
                    remaining(buf, at_row).skip(dollar_len(remaining(buf, at_row)) as int),
                );
            }
            return Err(OdsError::MissingColumn(tail(buf, *pos).to_owned()));
        },
    };
    let abs_row = skip_dollar(buf, pos);
    proof {
        lemma_position_in_range(buf, *pos);
        lemma_remaining_skip(buf, at_row, (*pos - at_row) as nat);
    }
    let ghost at_digits = *pos;
    proof {
        lemma_cell_syntax_steps(
            remaining(buf, at_col),
            remaining(buf, at_letters),
            remaining(buf, at_row),
            remaining(buf, at_digits),
        );
    }
    let row = match parse_rowname(buf, pos) {
        Some(row) => row,
        None => {
            return Err(OdsError::MissingRow(tail(buf, *pos).to_owned()));
        },
    };
    Ok(CellRef { table: None, row, abs_row, col, abs_col })
}

/// Reads a cell reference at `pos`. The position moves past it, or, where the
/// text is no reference, to the place where that showed.
pub fn parse_cellref(buf: &str, pos: &mut usize) -> (r: Result<CellRef, OdsError>)
    requires
        is_position(buf, *old(pos)),
    ensures
        reads_cellref(buf, *old(pos), *final(pos), r),
        is_position(buf, *final(pos)),
{
    let start: usize = *pos;
    let (dot, any_quote) = match find_separator(buf, start) {
        Some(found) => found,
        None => {
            return Err(OdsError::MissingSeparator(tail(buf, start).to_owned()));
        },
    };
    let table = read_sheet_name(buf, start, dot, any_quote);
    *pos = dot + 1;
    proof {
        lemma_remaining_skip(buf, start, (dot + 1 - start) as nat);
    }
    match parse_cell(buf, pos) {
        Ok(cell) => Ok(
            CellRef {
                table,
                row: cell.row,
                abs_row: cell.abs_row,
                col: cell.col,
                abs_col: cell.abs_col,
            },
        ),
        Err(e) => Err(e),
    }
}

/// A range of cells: the cells of a rectangle, its corners `from` and `to`
/// included.
#[derive(Debug, Clone, PartialEq, Eq)]
pub struct CellRange {
    /// The first cell: the corner with the lowest row and column.
    pub from: CellRef,
    /// The last cell: the corner with the highest row and column.
    pub to: CellRef,
}

impl View for CellRange {
    type V = CellRangeView;

    open spec fn view(&self) -> CellRangeView {
        CellRangeView { from: self.from@, to: self.to@ }
    }
}

/// The range from one cell to another of the sheet `table`, with nothing
/// marked absolute.
pub open spec fn relative_range(
    table: Option<Seq<char>>,
    row: u32,
    col: u32,
    row_to: u32,
    col_to: u32,
) -> CellRangeView {
    CellRangeView {
        from: relative_cell(table, row, col),
        to: relative_cell(table, row_to, col_to),
    }
}

/// What a list of ranges says, range by range.
pub open spec fn range_views(v: Seq<CellRange>) -> Seq<CellRangeView> {
    Seq::new(v.len(), |i: int| v[i]@)
}

impl Default for CellRange {
    fn default() -> (r: CellRange)
        ensures
            r@ == relative_range(None, 0, 0, 0, 0),
            r.is_ordered(),
    {
        CellRange { from: CellRef::default(), to: CellRef::default() }
    }
}

/// Whether `r` and the position `end` are what the rule for a range reads in
/// `buf` at `start`.
pub open spec fn reads_cellrange(
    buf: &str,
    start: usize,
    end: usize,
    r: Result<CellRange, OdsError>,
) -> bool {
    match cellrange_syntax(remaining(buf, start)) {
        Parsed::Done { value, used } => end == start + used && (r matches Ok(c) && c@ == value),
        Parsed::Failed { fault, used } => end == start + used && (r matches Err(e) && e.fault()
            == fault && e.rest() == decode_utf8(remaining(buf, end))),
    }
}

/// Whether `r` and the position `end` are what the rule for a list of ranges
/// reads in `buf` at `start`.
pub open spec fn reads_cellranges(
    buf: &str,
    start: usize,
    end: usize,
    r: Result<Vec<CellRange>, OdsError>,
) -> bool {
    match cellranges_syntax(remaining(buf, start)) {
        Parsed::Done { value, used } => end == start + used && (r matches Ok(v) && range_views(v@)
            == value),
        Parsed::Failed { fault, used } => end == start + used && (r matches Err(e) && e.fault()
            == fault && e.rest() == decode_utf8(remaining(buf, end))),
    }
}

/// Reads a range at `pos`: a cell reference, a `:`, and a cell reference. The
/// position moves past it, or, where the text is no range, to the place where
/// that showed. The two cells may lie in any way to each other.
pub fn parse_cellrange(buf: &str, pos: &mut usize) -> (r: Result<CellRange, OdsError>)
    requires
        is_position(buf, *old(pos)),
    ensures
        reads_cellrange(buf, *old(pos), *final(pos), r),
        is_position(buf, *final(pos)),
{
    let bytes = buf.as_bytes();
    let start: usize = *pos;
    let from = match parse_cellref(buf, pos) {
        Ok(from) => from,
        Err(e) => {
            return Err(e);
        },
    };
    proof {
        lemma_position_splits(buf, *pos);
    }
    if *pos < bytes.len() && bytes[*pos] == COLON {
        proof {
            lemma_boundary_after_ascii(bytes@, *pos as int);
            lemma_remaining_skip(buf, start, (*pos + 1 - start) as nat);
        }
        *pos += 1;
    } else {
        return Err(OdsError::MissingRangeColon(tail(buf, *pos).to_owned()));
    }
    let to = match parse_cellref(buf, pos) {
        Ok(to) => to,
        Err(e) => {
            return Err(e);
        },
    };
    Ok(CellRange { from, to })
}

/// Reads a list of ranges at `pos`, up to the end of `buf`: one range or more,
/// with a single blank between each two. The position moves to the end, or,
/// where the text is no list, to the place where that showed.
pub fn parse_cellranges(buf: &str, pos: &mut usize) -> (r: Result<Vec<CellRange>, OdsError>)
    requires
        is_position(buf, *old(pos)),
    ensures
        reads_cellranges(buf, *old(pos), *final(pos), r),
        is_position(buf, *final(pos)),
        r matches Ok(v) ==> v@.len() > 0 && *final(pos) == buf.spec_bytes().len(),
{
    proof {
        lemma_position_in_range(buf, *pos);
        lemma_cellranges_syntax_whole(remaining(buf, *pos));
    }
    read_cellranges(buf, pos)
}

/// Reads a list of ranges at `pos`, range by range.
fn read_cellranges(buf: &str, pos: &mut usize) -> (r: Result<Vec<CellRange>, OdsError>)
    requires
        is_position(buf, *old(pos)),
    ensures
        reads_cellranges(buf, *old(pos), *final(pos), r),
        is_position(buf, *final(pos)),
{
    let bytes = buf.as_bytes();
    let len: usize = bytes.len();
    let start: usize = *pos;
    let mut v: Vec<CellRange> = Vec::new();
    proof {
        lemma_position_splits(buf, start);
        assert(range_views(v@) =~= Seq::<CellRangeView>::empty());
        assert(prepended(range_views(v@), 0, cellranges_syntax(remaining(buf, start)))
            =~= cellranges_syntax(remaining(buf, start))) by {
            let whole = cellranges_syntax(remaining(buf, start));
            if let Parsed::Done { value, used } = whole {
                assert(range_views(v@) + value =~= value);
            }
        }
    }
    loop
        invariant
            len == bytes@.len(),
            bytes@ == buf.spec_bytes(),
            valid_utf8(bytes@),
            start == *old(pos),
            start <= *pos <= len,
            is_position(buf, *pos),
            cellranges_syntax(remaining(buf, start)) == prepended(
                range_views(v@),
                (*pos - start) as nat,
                cellranges_syntax(remaining(buf, *pos)),
            ),
        decreases len - *pos,
    {
        let ghost here = *pos;
        let ghost done = range_views(v@);
        proof {
            lemma_cellranges_step(done, (here - start) as nat, remaining(buf, here));
            lemma_cellrange_syntax_used(remaining(buf, here));
        }
        let range = match parse_cellrange(buf, pos) {
            Ok(range) => range,
            Err(e) => {
                return Err(e);
            },
        };
        v.push(range);
        proof {
            assert(range_views(v@) =~= done.push(range@));
        }
        if *pos == len {
            return Ok(v);
        }
        if bytes[*pos] == BLANK {
            proof {
                lemma_position_splits(buf, *pos);
                lemma_boundary_after_ascii(bytes@, *pos as int);
                lemma_remaining_skip(buf, here, (*pos + 1 - here) as nat);
            }
            *pos += 1;
        } else {
            return Err(OdsError::MissingListSeparator(tail(buf, *pos).to_owned()));
        }
    }
}

/// Appends the text of the cell reference `cell` to `buf`.
fn push_cellref(buf: &mut String, cell: &CellRef)
    ensures
        final(buf)@ == old(buf)@ + cellref_text(cell@),
{
    let ghost before = buf@;
    if let Some(table) = &cell.table {
        buf.append(table.as_str());
    }
    buf.push('.');
    if cell.abs_col {
        buf.push('$');
    }
    push_colname(buf, cell.col);
    if cell.abs_row {
        buf.push('$');
    }
    push_rowname(buf, cell.row);
    proof {
        assert(buf@ =~= before + (sheet_text(cell@.table) + seq!['.'] + cell_text(cell@)));
    }
}

/// Appends the decimal digits of `n` to `buf`.
fn push_number(buf: &mut String, n: u32)
    ensures
        final(buf)@ == old(buf)@ + number_text(n),
{
    if n == 0 {
        buf.push('0');
        proof {
            assert(buf@ =~= old(buf)@ + number_text(n));
        }
    } else {
        push_rowname(buf, n - 1);
    }
}

/// Appends the text of a row or a column in numbers to `buf`.
fn push_axis(buf: &mut String, absolute: bool, axis: char, n: u32)
    ensures
        final(buf)@ == old(buf)@ + axis_text(absolute, axis, n),
{
    let ghost before = buf@;
    if absolute {
        buf.push('$');
    }
    buf.push(axis);
    push_number(buf, n);
    proof {
        assert(buf@ =~= before + axis_text(absolute, axis, n));
    }
}

/// Appends the text of the cell reference `cell` in numbers to `buf`.
fn push_cellref_rc(buf: &mut String, cell: &CellRef)
    ensures
        final(buf)@ == old(buf)@ + cellref_rc_text(cell@),
{
    let ghost before = buf@;
    if let Some(table) = &cell.table {
        buf.append(table.as_str());
    }
    buf.push('.');
    push_axis(buf, cell.abs_row, 'R', cell.row);
    push_axis(buf, cell.abs_col, 'C', cell.col);
    proof {
        assert(buf@ =~= before + cellref_rc_text(cell@));
    }
}

impl CellRef {
    /// The reference to the cell in `row` and `col`, without a sheet.
    pub fn simple(row: ucell, col: ucell) -> (r: CellRef)
        ensures
            r@ == relative_cell(None, row, col),
    {
        CellRef { table: None, row, abs_row: false, col, abs_col: false }
    }

    /// The reference to the cell in `row` and `col` of the sheet `table`.
    pub fn table(table: &str, row: ucell, col: ucell) -> (r: CellRef)
        ensures
            r@ == relative_cell(Some(table@), row, col),
    {
        CellRef { table: Some(table.to_owned()), row, abs_row: false, col, abs_col: false }
    }

    /// Reads a cell reference at the start of `s`. What follows it in `s` is
    /// not looked at.
    pub fn try_from(s: &str) -> (r: Result<CellRef, OdsError>)
        ensures
            reads_cellref(s, 0, stop(cellref_syntax(s.spec_bytes())), r),
    {
        let mut pos: usize = 0;
        proof {
            assert(remaining(s, 0) =~= s.spec_bytes());
        }
        parse_cellref(s, &mut pos)
    }

    /// The name of the column.
    pub fn colname(&self) -> (name: String)
        ensures
            name@ == colname_text(self.col),
    {
        colname(self.col)
    }

    /// The name of the row.
    pub fn rowname(&self) -> (name: String)
        ensures
            name@ == rowname_text(self.row),
    {
        rowname(self.row)
    }

    /// The text of the reference. The sheet name is written as it is, without
    /// quotes added.
    pub fn to_string(&self) -> (text: String)
        ensures
            text@ == cellref_text(self@),
    {
        let mut refstr = String::new();
        push_cellref(&mut refstr, self);
        proof {
            assert(Seq::<char>::empty() + cellref_text(self@) =~= cellref_text(self@));
        }
        refstr
    }

    /// The text of the reference as it stands in a formula: in square
    /// brackets.
    pub fn to_formula(&self) -> (text: String)
        ensures
            text@ == bracketed(cellref_text(self@)),
    {
        let mut refstr = String::new();
        refstr.push('[');
        push_cellref(&mut refstr, self);
        refstr.push(']');
        proof {
            assert(refstr@ =~= bracketed(cellref_text(self@)));
        }
        refstr
    }

    /// The reference in numbers, as it is shown to a reader: the sheet, a
    /// `.`, then `R` with the row's index and `C` with the column's, each
    /// after a `$` where it is marked absolute.
    pub fn to_rc_string(&self) -> (text: String)
        ensures
            text@ == cellref_rc_text(self@),
    {
        let mut text = String::new();
        push_cellref_rc(&mut text, self);
        proof {
            assert(Seq::<char>::empty() + cellref_rc_text(self@) =~= cellref_rc_text(self@));
        }
        text
    }
}

impl CellRange {
    /// The first cell lies in no higher a row and in no higher a column than
    /// the last one. The constructors give ranges of which this holds; of a
    /// range that was read from text it may not.
    pub open spec fn is_ordered(&self) -> bool {
        self.from.row <= self.to.row && self.from.col <= self.to.col
    }

    /// The cell in `row` and `col` lies in the range.
    pub open spec fn holds(&self, row: u32, col: u32) -> bool {
        self.from.row <= row <= self.to.row && self.from.col <= col <= self.to.col
    }

    /// The cell in `row` and `col` lies after the last cell of the range, for
    /// one who goes through the cells row by row, and through each row column
    /// by column.
    pub open spec fn is_past(&self, row: u32, col: u32) -> bool {
        row > self.to.row || (row == self.to.row && col > self.to.col)
    }

    /// The range from the cell in `row` and `col` to the cell in `row_to` and
    /// `col_to`, without a sheet.
    pub fn simple(row: ucell, col: ucell, row_to: ucell, col_to: ucell) -> (r: CellRange)
        requires
            row <= row_to,
            col <= col_to,
        ensures
            r@ == relative_range(None, row, col, row_to, col_to),
            r.is_ordered(),
    {
        CellRange { from: CellRef::simple(row, col), to: CellRef::simple(row_to, col_to) }
    }

    /// The range from the cell in `row` and `col` to the cell in `row_to` and
    /// `col_to` of the sheet `table`.
    pub fn table(table: &str, row: ucell, col: ucell, row_to: ucell, col_to: ucell) -> (r:
        CellRange)
        requires
            row <= row_to,
            col <= col_to,
        ensures
            r@ == relative_range(Some(table@), row, col, row_to, col_to),
            r.is_ordered(),
    {
        CellRange {
            from: CellRef::table(table, row, col),
            to: CellRef::table(table, row_to, col_to),
        }
    }

    /// The range of `span.0` rows and `span.1` columns whose first cell is the
    /// one in `row` and `col`.
    pub fn origin_span(row: ucell, col: ucell, span: (ucell, ucell)) -> (r: CellRange)
        requires
            span.0 > 0,
            span.1 > 0,
            row + span.0 - 1 <= u32::MAX,
            col + span.1 - 1 <= u32::MAX,
        ensures
            r@ == relative_range(
                None,
                row,
                col,
                (row + span.0 - 1) as u32,
                (col + span.1 - 1) as u32,
            ),
            r.is_ordered(),
    {
        CellRange {
            from: CellRef::simple(row, col),
            to: CellRef::simple(row + (span.0 - 1), col + (span.1 - 1)),
        }
    }

    /// Reads a range at the start of `s`. What follows it in `s` is not looked
    /// at.
    pub fn try_from(s: &str) -> (r: Result<CellRange, OdsError>)
        ensures
            reads_cellrange(s, 0, stop(cellrange_syntax(s.spec_bytes())), r),
    {
        let mut pos: usize = 0;
        proof {
            assert(remaining(s, 0) =~= s.spec_bytes());
        }
        parse_cellrange(s, &mut pos)
    }

    /// The text of the range.
    pub fn to_string(&self) -> (text: String)
        ensures
            text@ == cellrange_text(self@),
    {
        let mut refstr = String::new();
        push_cellref(&mut refstr, &self.from);
        refstr.push(':');
        push_cellref(&mut refstr, &self.to);
        proof {
            assert(refstr@ =~= cellrange_text(self@));
        }
        refstr
    }

    /// The text of the range as it stands in a formula: in square brackets.
    pub fn to_formula(&self) -> (text: String)
        ensures
            text@ == bracketed(cellrange_text(self@)),
    {
        let mut refstr = String::new();
        refstr.push('[');
        push_cellref(&mut refstr, &self.from);
        refstr.push(':');
        push_cellref(&mut refstr, &self.to);
        refstr.push(']');
        proof {
            assert(refstr@ =~= bracketed(cellrange_text(self@)));
        }
        refstr
    }

    /// The range in numbers, as it is shown to a reader: its two cells in
    /// numbers, with a `:` between them.
    pub fn to_rc_string(&self) -> (text: String)
        ensures
            text@ == cellrange_rc_text(self@),
    {
        let mut text = String::new();
        push_cellref_rc(&mut text, &self.from);
        text.push(':');
        push_cellref_rc(&mut text, &self.to);
        proof {
            assert(text@ =~= cellrange_rc_text(self@));
        }
        text
    }

    /// Does the range hold the cell in `row` and `col`? The sheet plays no
    /// part in this.
    pub fn contains(&self, row: ucell, col: ucell) -> (inside: bool)
        ensures
            inside == self.holds(row, col),
    {
        row >= self.from.row && row <= self.to.row && col >= self.from.col && col <= self.to.col
    }

    /// Has one who goes through the cells row by row, and through each row
    /// column by column, left the range behind at the cell in `row` and `col`?
    pub fn out_looped(&self, row: ucell, col: ucell) -> (past: bool)
        ensures
            past == self.is_past(row, col),
    {
        row > self.to.row || row == self.to.row && col > self.to.col
    }
}

/// The text of a list of ranges: the ranges in their order, with a blank
/// between each two.
pub fn cellranges_to_string(v: &Vec<CellRange>) -> (text: String)
    ensures
        text@ == cellranges_text(range_views(v@)),
{
    let mut buf = String::new();
    let mut i: usize = 0;
    while i < v.len()
        invariant
            i <= v.len(),
            buf@ == cellranges_text(range_views(v@).take(i as int)),
        decreases v.len() - i,
    {
        let ghost so_far = range_views(v@).take(i as int);
        let ghost next = range_views(v@).take(i + 1);
        if i > 0 {
            buf.push(' ');
        }
        push_cellref(&mut buf, &v[i].from);
        buf.push(':');
        push_cellref(&mut buf, &v[i].to);
        proof {
            assert(next.drop_last() =~= so_far);
            assert(next.last() == v@[i as int]@);
            assert(buf@ =~= cellranges_text(next));
        }
        i += 1;
    }
    proof {
        assert(range_views(v@).take(v@.len() as int) =~= range_views(v@));
    }
    buf
}

/// A range of columns, `from` and `to` included.
#[derive(Debug, Clone, PartialEq, Eq)]
pub struct ColRange {
    pub from: ucell,
    pub to: ucell,
}

impl Default for ColRange {
    fn default() -> (r: ColRange)
        ensures
            r.from == 0,
            r.to == 0,
            r.is_ordered(),
    {
        ColRange { from: 0, to: 0 }
    }
}

impl ColRange {
    /// The range is not empty: `from` is no higher than `to`. The
    /// constructors give ranges of which this holds.
    pub open spec fn is_ordered(&self) -> bool {
        self.from <= self.to
    }

    /// The range of the columns `from` to `to`.
    pub fn new(from: ucell, to: ucell) -> (r: ColRange)
        requires
            from <= to,
        ensures
            r.from == from,
            r.to == to,
            r.is_ordered(),
    {
        ColRange { from, to }
    }

    /// Does the range hold the column `col`?
    pub fn contains(&self, col: ucell) -> (inside: bool)
        ensures
            inside == (self.from <= col <= self.to),
    {
        col >= self.from && col <= self.to
    }
}

/// A range of rows, `from` and `to` included.
#[derive(Debug, Clone, PartialEq, Eq)]
pub struct RowRange {
    pub from: ucell,
    pub to: ucell,
}

impl Default for RowRange {
    fn default() -> (r: RowRange)
        ensures
            r.from == 0,
            r.to == 0,
            r.is_ordered(),
    {
        RowRange { from: 0, to: 0 }
    }
}

impl RowRange {
    /// The range is not empty: `from` is no higher than `to`. The
    /// constructors give ranges of which this holds.
    pub open spec fn is_ordered(&self) -> bool {
        self.from <= self.to
    }

    /// The range of the rows `from` to `to`.
    pub fn new(from: ucell, to: ucell) -> (r: RowRange)
        requires
            from <= to,
        ensures
            r.from == from,
            r.to == to,
            r.is_ordered(),
    {
        RowRange { from, to }
    }

    /// Does the range hold the row `row`?
    pub fn contains(&self, row: ucell) -> (inside: bool)
        ensures
            inside == (self.from <= row <= self.to),
    {
        row >= self.from && row <= self.to
    }
}

} // verus!
