//! What holds between writing and reading, and of a walk through the cells.
//!
//! The text of a reference, read back, gives the reference: for cells, ranges
//! and lists of ranges whose sheet names are plain, that is, not empty and
//! free of `.` and `'`. Such a name needs no quotes, and the text is written
//! without any. A name that holds a `.` is read back where it is put in
//! quotes.

use crate::grammar::{
    cell_syntax, cell_text, cellrange_syntax, cellrange_text, cellranges_syntax, cellranges_text,
    cellref_syntax, cellref_text, dollar_len, dollar_text, in_sheet, lemma_collapse_plain,
    lemma_unquoted_plain, separator_offset, sheet_name, sheet_text, trim_end_quotes,
    trim_start_quotes, unquoted, CellRangeView, CellRefView, Parsed, QuoteState,
};
use crate::numeral::{
    colname_text, column_index, digits_len, lemma_colname_then, lemma_rowname_then, letters_len,
    row_index, rowname_text,
};
use crate::refs::CellRange;
use crate::text::{
    is_digit, is_upper, lemma_ascii_byte_occurs, lemma_encode_ascii, lemma_encode_concat,
    lemma_encode_scalar_bytes, BLANK, COLON, DOLLAR, DOT, QUOTE,
};
use vstd::prelude::*;
use vstd::utf8::{encode_utf8, encode_utf8_decode_utf8};

verus! {

/// A sheet name that can be written without quotes: it is not empty, and
/// holds neither `.` nor `'`.
pub open spec fn is_plain_name(name: Seq<char>) -> bool {
    name.len() > 0 && !name.contains('.') && !name.contains('\'')
}

/// The reference names no sheet, or one with a plain name.
pub open spec fn has_plain_sheet(c: CellRefView) -> bool {
    c.table matches Some(name) ==> is_plain_name(name)
}

/// Both corners of the range name no sheet, or one with a plain name.
pub open spec fn has_plain_sheets(r: CellRangeView) -> bool {
    has_plain_sheet(r.from) && has_plain_sheet(r.to)
}

/// The bytes of the marker `$`: there where `absolute` holds.
spec fn dollar_bytes(absolute: bool) -> Seq<u8> {
    if absolute {
        seq![DOLLAR]
    } else {
        Seq::empty()
    }
}

/// A `.` that follows bytes among which there is neither `.` nor `'` is the
/// separator.
proof fn lemma_separator_after_plain(before: Seq<u8>, after: Seq<u8>)
    requires
        forall|i: int| 0 <= i < before.len() ==> before[i] != DOT && before[i] != QUOTE,
        after.len() > 0,
        after[0] == DOT,
    ensures
        separator_offset(before + after, QuoteState::Outside) == Some(before.len()),
    decreases before.len(),
{
    let t = before + after;
    if before.len() == 0 {
        assert(t[0] == after[0]);
    } else {
        assert(t[0] == before[0]);
        let shorter = before.drop_first();
        assert forall|i: int| 0 <= i < shorter.len() implies shorter[i] != DOT && shorter[i]
            != QUOTE by {
            assert(shorter[i] == before[i + 1]);
        }
        lemma_separator_after_plain(shorter, after);
        assert(t.drop_first() =~= shorter + after);
    }
}

/// The bytes of a sheet's text hold neither `.` nor `'` where its name is
/// plain, and at least one byte where there is a name.
proof fn lemma_sheet_bytes(table: Option<Seq<char>>)
    requires
        table matches Some(name) ==> is_plain_name(name),
    ensures
        forall|i: int|
            0 <= i < encode_utf8(sheet_text(table)).len() ==> encode_utf8(sheet_text(table))[i]
                != DOT && encode_utf8(sheet_text(table))[i] != QUOTE,
        table is Some <==> encode_utf8(sheet_text(table)).len() > 0,
{
    let name = sheet_text(table);
    lemma_ascii_byte_occurs(name, DOT);
    lemma_ascii_byte_occurs(name, QUOTE);
    assert(DOT as char == '.');
    assert(QUOTE as char == '\'');
    if table is Some {
        lemma_encode_scalar_bytes(name[0]);
    }
}

/// The bytes of a cell's text, part by part.
proof fn lemma_cell_bytes(c: CellRefView)
    ensures
        encode_utf8(cell_text(c)) == dollar_bytes(c.abs_col) + encode_utf8(colname_text(c.col))
            + dollar_bytes(c.abs_row) + encode_utf8(rowname_text(c.row)),
{
    let col_mark = dollar_text(c.abs_col);
    let letters = colname_text(c.col);
    let row_mark = dollar_text(c.abs_row);
    let digits = rowname_text(c.row);
    lemma_encode_concat(col_mark + letters + row_mark, digits);
    lemma_encode_concat(col_mark + letters, row_mark);
    lemma_encode_concat(col_mark, letters);
    lemma_encode_ascii(col_mark);
    lemma_encode_ascii(row_mark);
    assert(encode_utf8(col_mark) =~= dollar_bytes(c.abs_col));
    assert(encode_utf8(row_mark) =~= dollar_bytes(c.abs_row));
}

/// The bytes of a cell reference's text: the sheet, the separator, the cell.
proof fn lemma_cellref_bytes(c: CellRefView)
    ensures
        encode_utf8(cellref_text(c)) == encode_utf8(sheet_text(c.table)) + seq![DOT] + encode_utf8(
            cell_text(c),
        ),
{
    let sheet = sheet_text(c.table);
    let dot = seq!['.'];
    lemma_encode_concat(sheet + dot, cell_text(c));
    lemma_encode_concat(sheet, dot);
    lemma_encode_ascii(dot);
    assert(encode_utf8(dot) =~= seq![DOT]);
}

/// The text of a column starts with a letter, and the text of a row with a
/// digit.
proof fn lemma_name_starts(row: u32, col: u32)
    ensures
        encode_utf8(colname_text(col)).len() > 0,
        is_upper(encode_utf8(colname_text(col))[0]),
        encode_utf8(rowname_text(row)).len() > 0,
        is_digit(encode_utf8(rowname_text(row))[0]),
{
    let none = Seq::<u8>::empty();
    lemma_colname_then(col, none);
    lemma_rowname_then(row, none);
    let t = encode_utf8(colname_text(col)) + none;
    assert(letters_len(t) > 0);
    assert(t[0] == encode_utf8(colname_text(col))[0]);
}

/// The marker `$`, where it is followed by a byte that is no `$`, takes one
/// byte where it stands and none where it does not.
proof fn lemma_dollar_then(absolute: bool, after: Seq<u8>)
    requires
        after.len() > 0,
        after[0] != DOLLAR,
    ensures
        dollar_len(dollar_bytes(absolute) + after) == dollar_bytes(absolute).len(),
        dollar_bytes(absolute).len() == 1 <==> absolute,
        (dollar_bytes(absolute) + after).skip(dollar_bytes(absolute).len() as int) == after,
{
    let t = dollar_bytes(absolute) + after;
    if absolute {
        assert(t[0] == DOLLAR);
    } else {
        assert(t[0] == after[0]);
    }
    assert(t.skip(dollar_bytes(absolute).len() as int) =~= after);
}

/// A cell in bytes: the rule for a cell reads a column and a row where each
/// is written as a run that ends where it should, with the markers between.
proof fn lemma_cell_parts_then(
    c: CellRefView,
    letters: Seq<u8>,
    digits: Seq<u8>,
    rest: Seq<u8>,
)
    requires
        letters.len() > 0,
        is_upper(letters[0]),
        digits.len() > 0,
        is_digit(digits[0]),
        letters_len(letters + (dollar_bytes(c.abs_row) + (digits + rest))) == letters.len(),
        column_index(letters + (dollar_bytes(c.abs_row) + (digits + rest))) == Some(c.col),
        digits_len(digits + rest) == digits.len(),
        row_index(digits + rest) == Some(c.row),
    ensures
        cell_syntax(
            dollar_bytes(c.abs_col) + (letters + (dollar_bytes(c.abs_row) + (digits + rest))),
        ) == (Parsed::Done {
            value: in_sheet(None, c),
            used: dollar_bytes(c.abs_col).len() + letters.len() + dollar_bytes(c.abs_row).len()
                + digits.len(),
        }),
{
    let at_digits = digits + rest;
    let at_row = dollar_bytes(c.abs_row) + at_digits;
    let at_letters = letters + at_row;
    let t = dollar_bytes(c.abs_col) + at_letters;
    assert(at_digits[0] == digits[0]);
    assert(at_letters[0] == letters[0]);
    lemma_dollar_then(c.abs_col, at_letters);
    lemma_dollar_then(c.abs_row, at_digits);
    assert(at_letters.skip(letters.len() as int) =~= at_row);
    reveal(cell_syntax);
}

/// Where the text of a cell is followed by anything but a digit, the rule for
/// a cell reads that cell there, and takes exactly its text.
proof fn lemma_cell_then(c: CellRefView, rest: Seq<u8>)
    requires
        rest.len() == 0 || !is_digit(rest[0]),
    ensures
        cell_syntax(encode_utf8(cell_text(c)) + rest) == (Parsed::Done {
            value: in_sheet(None, c),
            used: encode_utf8(cell_text(c)).len(),
        }),
{
    let letters = encode_utf8(colname_text(c.col));
    let digits = encode_utf8(rowname_text(c.row));
    let at_row = dollar_bytes(c.abs_row) + (digits + rest);
    lemma_cell_bytes(c);
    lemma_name_starts(c.row, c.col);
    lemma_rowname_then(c.row, rest);
    assert(!is_upper(at_row[0])) by {
        if c.abs_row {
            assert(at_row[0] == DOLLAR);
        } else {
            assert(at_row[0] == digits[0]);
        }
    }
    lemma_colname_then(c.col, at_row);
    lemma_cell_parts_then(c, letters, digits, rest);
    assert(encode_utf8(cell_text(c)) + rest =~= dollar_bytes(c.abs_col) + (letters + at_row));
}

/// Where the text of a cell reference with a plain sheet name is followed by
/// anything but a digit, the rule for a cell reference reads that reference
/// there, and takes exactly its text.
pub proof fn lemma_cellref_then(c: CellRefView, rest: Seq<u8>)
    requires
        has_plain_sheet(c),
        rest.len() == 0 || !is_digit(rest[0]),
    ensures
        cellref_syntax(encode_utf8(cellref_text(c)) + rest) == (Parsed::Done {
            value: c,
            used: encode_utf8(cellref_text(c)).len(),
        }),
{
    let sheet = encode_utf8(sheet_text(c.table));
    let cell = encode_utf8(cell_text(c));
    let t = encode_utf8(cellref_text(c)) + rest;
    lemma_cellref_bytes(c);
    lemma_sheet_bytes(c.table);
    let after_sheet = seq![DOT] + (cell + rest);
    assert(t =~= sheet + after_sheet);
    lemma_separator_after_plain(sheet, after_sheet);
    let dot = sheet.len();
    assert(sheet_name(t, dot) == c.table) by {
        if c.table is Some {
            let name = c.table->0;
            assert(t.take(dot as int) =~= sheet);
            encode_utf8_decode_utf8(name);
            lemma_unquoted_plain(name);
        }
    }
    assert(t.skip((dot + 1) as int) =~= cell + rest);
    lemma_cell_then(c, rest);
}

/// The text of a cell reference with a plain sheet name, read back, gives the
/// reference, and the reading takes the whole text.
pub proof fn lemma_cellref_round_trip(c: CellRefView)
    requires
        has_plain_sheet(c),
    ensures
        cellref_syntax(encode_utf8(cellref_text(c))) == (Parsed::Done {
            value: c,
            used: encode_utf8(cellref_text(c)).len(),
        }),
{
    lemma_cellref_then(c, Seq::empty());
    assert(encode_utf8(cellref_text(c)) + Seq::<u8>::empty() =~= encode_utf8(cellref_text(c)));
}

/// A name in quotes.
pub open spec fn in_quotes(name: Seq<char>) -> Seq<char> {
    seq!['\''] + name + seq!['\'']
}

/// The text of a cell reference whose sheet name is written in quotes.
pub open spec fn quoted_cellref_text(c: CellRefView) -> Seq<char>
    recommends
        c.table is Some,
{
    in_quotes(sheet_text(c.table)) + seq!['.'] + cell_text(c)
}

/// Inside quotes, a `.` is no separator: the separator is the `.` after the
/// closing quote.
proof fn lemma_separator_after_quoted(inside: Seq<u8>, after: Seq<u8>)
    requires
        forall|i: int| 0 <= i < inside.len() ==> inside[i] != QUOTE,
        after.len() >= 2,
        after[0] == QUOTE,
        after[1] == DOT,
    ensures
        separator_offset(inside + after, QuoteState::Inside) == Some(inside.len() + 1),
    decreases inside.len(),
{
    let t = inside + after;
    if inside.len() == 0 {
        assert(t =~= after);
        let closed = t.drop_first();
        assert(closed[0] == DOT);
        assert(separator_offset(closed, QuoteState::Outside) == Some(0nat));
    } else {
        assert(t[0] == inside[0]);
        let shorter = inside.drop_first();
        assert forall|i: int| 0 <= i < shorter.len() implies shorter[i] != QUOTE by {
            assert(shorter[i] == inside[i + 1]);
        }
        lemma_separator_after_quoted(shorter, after);
        assert(t.drop_first() =~= shorter + after);
    }
}

/// A name without quotes, written in quotes, stands for itself.
proof fn lemma_unquoted_in_quotes(name: Seq<char>)
    requires
        !name.contains('\''),
    ensures
        unquoted(in_quotes(name)) == name,
{
    let q = in_quotes(name);
    let opened = q.drop_first();
    assert(q[0] == '\'');
    assert(opened =~= name + seq!['\'']);
    assert(trim_start_quotes(q) == trim_start_quotes(opened));
    if name.len() == 0 {
        assert(opened[0] == '\'');
        assert(opened.drop_first() =~= name);
        assert(trim_start_quotes(opened) == trim_start_quotes(name));
        assert(trim_start_quotes(name) == name);
        assert(trim_end_quotes(name) == name);
    } else {
        assert(name.contains(name[0]));
        assert(name.contains(name.last()));
        assert(opened[0] == name[0]);
        assert(trim_start_quotes(opened) == opened);
        assert(opened.last() == '\'');
        assert(opened.drop_last() =~= name);
        assert(trim_end_quotes(opened) == trim_end_quotes(name));
        assert(trim_end_quotes(name) == name);
    }
    lemma_collapse_plain(name);
}

/// Where the text of a cell reference whose sheet name holds no quote is
/// written with that name in quotes, and is followed by anything but a digit,
/// the rule for a cell reference reads that reference there, and takes exactly
/// its text. The name may hold a `.`, and may be empty.
pub proof fn lemma_quoted_cellref_then(c: CellRefView, rest: Seq<u8>)
    requires
        c.table matches Some(name) && !name.contains('\''),
        rest.len() == 0 || !is_digit(rest[0]),
    ensures
        cellref_syntax(encode_utf8(quoted_cellref_text(c)) + rest) == (Parsed::Done {
            value: c,
            used: encode_utf8(quoted_cellref_text(c)).len(),
        }),
{
    let name = c.table->0;
    let quote = seq!['\''];
    let dot = seq!['.'];
    let inside = encode_utf8(name);
    let cell = encode_utf8(cell_text(c));
    let t = encode_utf8(quoted_cellref_text(c)) + rest;

    lemma_encode_concat(in_quotes(name) + dot, cell_text(c));
    lemma_encode_concat(in_quotes(name), dot);
    lemma_encode_concat(quote + name, quote);
    lemma_encode_concat(quote, name);
    lemma_encode_ascii(quote);
    lemma_encode_ascii(dot);
    assert(encode_utf8(quote) =~= seq![QUOTE]);
    assert(encode_utf8(dot) =~= seq![DOT]);
    let sheet = seq![QUOTE] + inside + seq![QUOTE];
    assert(encode_utf8(in_quotes(name)) == sheet);

    lemma_ascii_byte_occurs(name, QUOTE);
    assert(QUOTE as char == '\'');
    let after = seq![QUOTE] + (seq![DOT] + (cell + rest));
    lemma_separator_after_quoted(inside, after);
    assert(t =~= seq![QUOTE] + (inside + after));
    assert(t.drop_first() =~= inside + after);
    let at = (inside.len() + 2) as nat;
    assert(separator_offset(t, QuoteState::Outside) == Some(at));

    assert(sheet_name(t, at) == c.table) by {
        assert(t.take(at as int) =~= sheet);
        encode_utf8_decode_utf8(in_quotes(name));
        lemma_unquoted_in_quotes(name);
    }
    assert(t.skip((at + 1) as int) =~= cell + rest);
    lemma_cell_then(c, rest);
}

/// The bytes of a range's text, part by part.
proof fn lemma_cellrange_bytes(r: CellRangeView)
    ensures
        encode_utf8(cellrange_text(r)) == encode_utf8(cellref_text(r.from)) + seq![COLON]
            + encode_utf8(cellref_text(r.to)),
{
    let colon = seq![':'];
    lemma_encode_concat(cellref_text(r.from) + colon, cellref_text(r.to));
    lemma_encode_concat(cellref_text(r.from), colon);
    lemma_encode_ascii(colon);
    assert(encode_utf8(colon) =~= seq![COLON]);
}

/// Where the text of a range with plain sheet names is followed by anything
/// but a digit, the rule for a range reads that range there, and takes exactly
/// its text.
pub proof fn lemma_cellrange_then(r: CellRangeView, rest: Seq<u8>)
    requires
        has_plain_sheets(r),
        rest.len() == 0 || !is_digit(rest[0]),
    ensures
        cellrange_syntax(encode_utf8(cellrange_text(r)) + rest) == (Parsed::Done {
            value: r,
            used: encode_utf8(cellrange_text(r)).len(),
        }),
{
    let from = encode_utf8(cellref_text(r.from));
    let to = encode_utf8(cellref_text(r.to));
    let t = encode_utf8(cellrange_text(r)) + rest;
    lemma_cellrange_bytes(r);
    let after_from = seq![COLON] + to + rest;
    assert(t =~= from + after_from);
    lemma_cellref_then(r.from, after_from);
    assert(t[from.len() as int] == COLON);
    assert(t.skip((from.len() + 1) as int) =~= to + rest);
    lemma_cellref_then(r.to, rest);
}

/// The text of a range with plain sheet names, read back, gives the range,
/// and the reading takes the whole text.
pub proof fn lemma_cellrange_round_trip(r: CellRangeView)
    requires
        has_plain_sheets(r),
    ensures
        cellrange_syntax(encode_utf8(cellrange_text(r))) == (Parsed::Done {
            value: r,
            used: encode_utf8(cellrange_text(r)).len(),
        }),
{
    lemma_cellrange_then(r, Seq::empty());
    assert(encode_utf8(cellrange_text(r)) + Seq::<u8>::empty() =~= encode_utf8(cellrange_text(r)));
}

/// The text of a list, seen from its first range: that range's text, and
/// after a blank the text of the others, where there are any.
proof fn lemma_cellranges_text_front(rs: Seq<CellRangeView>)
    requires
        rs.len() >= 2,
    ensures
        cellranges_text(rs) == cellrange_text(rs[0]) + seq![' '] + cellranges_text(
            rs.drop_first(),
        ),
    decreases rs.len(),
{
    let init = rs.drop_last();
    let tail = rs.drop_first();
    if rs.len() == 2 {
        assert(init[0] == rs[0]);
        assert(tail[0] == rs[1]);
        assert(rs.last() == rs[1]);
        assert(cellranges_text(init) == cellrange_text(rs[0]));
        assert(cellranges_text(tail) == cellrange_text(rs[1]));
    } else {
        lemma_cellranges_text_front(init);
        assert(init[0] == rs[0]);
        assert(init.drop_first() =~= tail.drop_last());
        assert(tail.last() == rs.last());
        assert(cellranges_text(rs) =~= cellrange_text(rs[0]) + seq![' '] + cellranges_text(tail));
    }
}

/// The text of a list of one range or more, all with plain sheet names, read
/// back, gives the list, and the reading takes the whole text.
pub proof fn lemma_cellranges_round_trip(rs: Seq<CellRangeView>)
    requires
        rs.len() > 0,
        forall|i: int| 0 <= i < rs.len() ==> has_plain_sheets(#[trigger] rs[i]),
    ensures
        cellranges_syntax(encode_utf8(cellranges_text(rs))) == (Parsed::Done {
            value: rs,
            used: encode_utf8(cellranges_text(rs)).len(),
        }),
    decreases rs.len(),
{
    let first = encode_utf8(cellrange_text(rs[0]));
    let t = encode_utf8(cellranges_text(rs));
    if rs.len() == 1 {
        lemma_cellrange_round_trip(rs[0]);
        assert(seq![rs[0]] =~= rs);
    } else {
        let others = rs.drop_first();
        let blank = seq![' '];
        lemma_cellranges_text_front(rs);
        lemma_encode_concat(cellrange_text(rs[0]) + blank, cellranges_text(others));
        lemma_encode_concat(cellrange_text(rs[0]), blank);
        lemma_encode_ascii(blank);
        assert(encode_utf8(blank) =~= seq![BLANK]);
        let after_first = seq![BLANK] + encode_utf8(cellranges_text(others));
        assert(t =~= first + after_first);
        lemma_cellrange_then(rs[0], after_first);
        assert(t[first.len() as int] == BLANK);
        assert(t.skip((first.len() + 1) as int) =~= encode_utf8(cellranges_text(others)));
        assert forall|i: int| 0 <= i < others.len() implies has_plain_sheets(
            #[trigger] others[i],
        ) by {
            assert(others[i] == rs[i + 1]);
        }
        lemma_cellranges_round_trip(others);
        assert(seq![rs[0]] + others =~= rs);
    }
}

/// The cell in `row2` and `col2` comes no earlier than the cell in `row` and
/// `col`, for one who goes through the cells row by row, and through each
/// row column by column.
pub open spec fn comes_no_earlier(row: u32, col: u32, row2: u32, col2: u32) -> bool {
    row2 > row || (row2 == row && col2 >= col)
}

/// One who goes through the cells row by row, and has left a range behind,
/// has it behind at every later cell, and meets no cell of the range again.
pub proof fn lemma_out_looped_stays(range: CellRange, row: u32, col: u32, row2: u32, col2: u32)
    requires
        range.is_past(row, col),
        comes_no_earlier(row, col, row2, col2),
    ensures
        range.is_past(row2, col2),
        !range.holds(row2, col2),
{
}

/// A cell of a range does not lie after the range's last cell.
pub proof fn lemma_inside_is_not_past(range: CellRange, row: u32, col: u32)
    requires
        range.holds(row, col),
    ensures
        !range.is_past(row, col),
{
}

} // verus!
