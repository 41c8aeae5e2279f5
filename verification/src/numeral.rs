//! The numerals of the notation.
//!
//! A column is written in letters, in the bijective numeral system of base 26:
//! its digits `A` to `Z` stand for 1 to 26, and there is no digit for zero. A
//! row is written in decimal. Both are counted from one in text and from zero
//! in an index, so that the index `0` is written `A` as a column and `1` as a
//! row.
//!
//! This module says what the text of an index is, what index a run of letters
//! or digits stands for, and proves that the second undoes the first.

use crate::text::{ascii_bytes, is_digit, is_upper, lemma_encode_ascii};
use vstd::prelude::*;
use vstd::utf8::{encode_utf8, is_ascii_chars};

verus! {

/// The number of indices: an index is below it, and a count of rows or columns
/// is at most it.
pub const INDEX_COUNT: u64 = 0x1_0000_0000;

/// The letter that stands for the digit `d + 1` of a column.
pub open spec fn letter(d: int) -> char
    recommends
        0 <= d < 26,
{
    ((0x41 + d) as u8) as char
}

/// The character of the decimal digit `d`.
pub open spec fn figure(d: int) -> char
    recommends
        0 <= d < 10,
{
    ((0x30 + d) as u8) as char
}

/// The letters of `n` in the bijective numeral system of base 26; none for 0.
pub open spec fn bijective26(n: nat) -> Seq<char>
    decreases n,
{
    if n == 0 {
        Seq::empty()
    } else {
        bijective26(((n - 1) / 26) as nat).push(letter((n - 1) % 26))
    }
}

/// The decimal digits of `n`; none for 0.
pub open spec fn decimal(n: nat) -> Seq<char>
    decreases n,
{
    if n == 0 {
        Seq::empty()
    } else {
        decimal(n / 10).push(figure((n % 10) as int))
    }
}

/// The text of the column with index `col`.
pub open spec fn colname_text(col: u32) -> Seq<char> {
    bijective26(col as nat + 1)
}

/// The text of the row with index `row`.
pub open spec fn rowname_text(row: u32) -> Seq<char> {
    decimal(row as nat + 1)
}

/// The number of letters `A` to `Z` that `t` starts with.
pub open spec fn letters_len(t: Seq<u8>) -> nat
    decreases t.len(),
{
    if t.len() > 0 && is_upper(t[0]) {
        1 + letters_len(t.drop_first())
    } else {
        0
    }
}

/// The number of decimal digits that `t` starts with.
pub open spec fn digits_len(t: Seq<u8>) -> nat
    decreases t.len(),
{
    if t.len() > 0 && is_digit(t[0]) {
        1 + digits_len(t.drop_first())
    } else {
        0
    }
}

/// The number that a run of letters stands for.
pub open spec fn letters_value(run: Seq<u8>) -> nat
    recommends
        forall|i: int| 0 <= i < run.len() ==> is_upper(run[i]),
    decreases run.len(),
{
    if run.len() == 0 {
        0
    } else {
        (letters_value(run.drop_last()) * 26 + (run.last() - 0x40)) as nat
    }
}

/// The number that a run of decimal digits stands for.
pub open spec fn digits_value(run: Seq<u8>) -> nat
    recommends
        forall|i: int| 0 <= i < run.len() ==> is_digit(run[i]),
    decreases run.len(),
{
    if run.len() == 0 {
        0
    } else {
        (digits_value(run.drop_last()) * 10 + (run.last() - 0x30)) as nat
    }
}

/// The index that the one-based number `count` stands for. There is none where
/// the number is zero, as it is for an empty run and for a run of zeros, nor
/// where the index would not fit.
pub open spec fn index_of(count: nat) -> Option<u32> {
    if 1 <= count <= INDEX_COUNT {
        Some((count - 1) as u32)
    } else {
        None
    }
}

/// The column that the letters at the start of `t` stand for.
pub open spec fn column_index(t: Seq<u8>) -> Option<u32> {
    index_of(letters_value(t.take(letters_len(t) as int)))
}

/// The row that the digits at the start of `t` stand for.
pub open spec fn row_index(t: Seq<u8>) -> Option<u32> {
    index_of(digits_value(t.take(digits_len(t) as int)))
}

/// A count as a scanner keeps it: exact up to `INDEX_COUNT`, and one more than
/// that for every larger one.
pub open spec fn capped(count: nat) -> nat {
    if count > INDEX_COUNT {
        (INDEX_COUNT + 1) as nat
    } else {
        count
    }
}

/// The largest number that is left to write after `i` letters of a column.
pub open spec fn letters_left(i: nat) -> nat {
    if i == 0 {
        4294967296
    } else if i == 1 {
        165191049
    } else if i == 2 {
        6353501
    } else if i == 3 {
        244365
    } else if i == 4 {
        9398
    } else if i == 5 {
        361
    } else if i == 6 {
        13
    } else {
        0
    }
}

/// The largest number that is left to write after `i` digits of a row.
pub open spec fn digits_left(i: nat) -> nat {
    if i == 0 {
        4294967296
    } else if i == 1 {
        429496729
    } else if i == 2 {
        42949672
    } else if i == 3 {
        4294967
    } else if i == 4 {
        429496
    } else if i == 5 {
        42949
    } else if i == 6 {
        4294
    } else if i == 7 {
        429
    } else if i == 8 {
        42
    } else if i == 9 {
        4
    } else {
        0
    }
}

/// A run of letters ends where the first byte that is no letter stands.
pub proof fn lemma_letters_len_is(t: Seq<u8>, k: int)
    requires
        0 <= k <= t.len(),
        forall|i: int| 0 <= i < k ==> is_upper(#[trigger] t[i]),
        k == t.len() || !is_upper(t[k]),
    ensures
        letters_len(t) == k,
    decreases k,
{
    if k > 0 {
        let rest = t.drop_first();
        assert forall|i: int| 0 <= i < k - 1 implies is_upper(#[trigger] rest[i]) by {
            assert(rest[i] == t[i + 1]);
        }
        lemma_letters_len_is(rest, k - 1);
    }
}

/// A run of digits ends where the first byte that is no digit stands.
pub proof fn lemma_digits_len_is(t: Seq<u8>, k: int)
    requires
        0 <= k <= t.len(),
        forall|i: int| 0 <= i < k ==> is_digit(#[trigger] t[i]),
        k == t.len() || !is_digit(t[k]),
    ensures
        digits_len(t) == k,
    decreases k,
{
    if k > 0 {
        let rest = t.drop_first();
        assert forall|i: int| 0 <= i < k - 1 implies is_digit(#[trigger] rest[i]) by {
            assert(rest[i] == t[i + 1]);
        }
        lemma_digits_len_is(rest, k - 1);
    }
}

/// The leading run of letters lies inside the text, holds letters only, and
/// ends at the end of the text or before a byte that is no letter.
pub proof fn lemma_letters_len_bounds(t: Seq<u8>)
    ensures
        letters_len(t) <= t.len(),
        forall|i: int| 0 <= i < letters_len(t) ==> is_upper(#[trigger] t[i]),
        letters_len(t) == t.len() || !is_upper(t[letters_len(t) as int]),
    decreases t.len(),
{
    if t.len() > 0 && is_upper(t[0]) {
        let rest = t.drop_first();
        lemma_letters_len_bounds(rest);
        assert forall|i: int| 0 <= i < letters_len(t) implies is_upper(#[trigger] t[i]) by {
            if i > 0 {
                assert(t[i] == rest[i - 1]);
            }
        }
        if letters_len(t) < t.len() {
            assert(t[letters_len(t) as int] == rest[letters_len(rest) as int]);
        }
    }
}

/// The leading run of digits lies inside the text, holds digits only, and ends
/// at the end of the text or before a byte that is no digit.
pub proof fn lemma_digits_len_bounds(t: Seq<u8>)
    ensures
        digits_len(t) <= t.len(),
        forall|i: int| 0 <= i < digits_len(t) ==> is_digit(#[trigger] t[i]),
        digits_len(t) == t.len() || !is_digit(t[digits_len(t) as int]),
    decreases t.len(),
{
    if t.len() > 0 && is_digit(t[0]) {
        let rest = t.drop_first();
        lemma_digits_len_bounds(rest);
        assert forall|i: int| 0 <= i < digits_len(t) implies is_digit(#[trigger] t[i]) by {
            if i > 0 {
                assert(t[i] == rest[i - 1]);
            }
        }
        if digits_len(t) < t.len() {
            assert(t[digits_len(t) as int] == rest[digits_len(rest) as int]);
        }
    }
}

/// One more letter multiplies the number by 26 and adds the letter's digit.
pub proof fn lemma_letters_value_push(run: Seq<u8>, b: u8)
    requires
        is_upper(b),
    ensures
        letters_value(run.push(b)) == letters_value(run) * 26 + (b - 0x40),
        capped(letters_value(run.push(b))) == capped(
            (capped(letters_value(run)) * 26 + (b - 0x40)) as nat,
        ),
{
    assert(run.push(b).drop_last() =~= run);
}

/// One more digit multiplies the number by 10 and adds the digit.
pub proof fn lemma_digits_value_push(run: Seq<u8>, b: u8)
    requires
        is_digit(b),
    ensures
        digits_value(run.push(b)) == digits_value(run) * 10 + (b - 0x30),
        capped(digits_value(run.push(b))) == capped(
            (capped(digits_value(run)) * 10 + (b - 0x30)) as nat,
        ),
{
    assert(run.push(b).drop_last() =~= run);
}

/// The letters of a number are letters, and stand for that number.
pub proof fn lemma_bijective26_value(n: nat)
    ensures
        is_ascii_chars(bijective26(n)),
        forall|i: int|
            0 <= i < bijective26(n).len() ==> is_upper(#[trigger] ascii_bytes(bijective26(n))[i]),
        letters_value(ascii_bytes(bijective26(n))) == n,
        n > 0 ==> bijective26(n).len() > 0,
    decreases n,
{
    if n > 0 {
        let higher = ((n - 1) / 26) as nat;
        let d = (n - 1) % 26;
        lemma_bijective26_value(higher);
        let text = bijective26(n);
        assert(text == bijective26(higher).push(letter(d)));
        assert(letter(d) as u8 == 0x41 + d);
        assert(ascii_bytes(text) =~= ascii_bytes(bijective26(higher)).push((0x41 + d) as u8));
        lemma_letters_value_push(ascii_bytes(bijective26(higher)), (0x41 + d) as u8);
        assert forall|i: int| 0 <= i < text.len() implies is_upper(
            #[trigger] ascii_bytes(text)[i],
        ) by {
            if i < text.len() - 1 {
                assert(ascii_bytes(text)[i] == ascii_bytes(bijective26(higher))[i]);
            }
        }
    }
}

/// The digits of a number are digits, the first of them is not `0`, and they
/// stand for that number.
pub proof fn lemma_decimal_value(n: nat)
    ensures
        is_ascii_chars(decimal(n)),
        forall|i: int| 0 <= i < decimal(n).len() ==> is_digit(#[trigger] ascii_bytes(decimal(n))[i]),
        digits_value(ascii_bytes(decimal(n))) == n,
        n > 0 ==> decimal(n).len() > 0 && ascii_bytes(decimal(n))[0] != 0x30,
    decreases n,
{
    if n > 0 {
        let higher = n / 10;
        let d = (n % 10) as int;
        lemma_decimal_value(higher);
        let text = decimal(n);
        assert(text == decimal(higher).push(figure(d)));
        assert(figure(d) as u8 == 0x30 + d);
        assert(ascii_bytes(text) =~= ascii_bytes(decimal(higher)).push((0x30 + d) as u8));
        lemma_digits_value_push(ascii_bytes(decimal(higher)), (0x30 + d) as u8);
        assert forall|i: int| 0 <= i < text.len() implies is_digit(
            #[trigger] ascii_bytes(text)[i],
        ) by {
            if i < text.len() - 1 {
                assert(ascii_bytes(text)[i] == ascii_bytes(decimal(higher))[i]);
            }
        }
        if higher > 0 {
            assert(ascii_bytes(text)[0] == ascii_bytes(decimal(higher))[0]);
        }
    }
}

/// Where the text of a column is followed by anything but a letter, the
/// letters at the start are that text, and they stand for the column.
pub proof fn lemma_colname_then(col: u32, rest: Seq<u8>)
    requires
        rest.len() == 0 || !is_upper(rest[0]),
    ensures
        letters_len(encode_utf8(colname_text(col)) + rest) == colname_text(col).len(),
        encode_utf8(colname_text(col)).len() == colname_text(col).len(),
        colname_text(col).len() > 0,
        column_index(encode_utf8(colname_text(col)) + rest) == Some(col),
{
    let n = col as nat + 1;
    let text = colname_text(col);
    lemma_bijective26_value(n);
    lemma_encode_ascii(text);
    let run = ascii_bytes(text);
    let t = run + rest;
    assert forall|i: int| 0 <= i < run.len() implies is_upper(#[trigger] t[i]) by {
        assert(t[i] == run[i]);
    }
    lemma_letters_len_is(t, run.len() as int);
    assert(t.take(run.len() as int) =~= run);
}

/// Where the text of a row is followed by anything but a digit, the digits at
/// the start are that text, and they stand for the row.
pub proof fn lemma_rowname_then(row: u32, rest: Seq<u8>)
    requires
        rest.len() == 0 || !is_digit(rest[0]),
    ensures
        digits_len(encode_utf8(rowname_text(row)) + rest) == rowname_text(row).len(),
        encode_utf8(rowname_text(row)).len() == rowname_text(row).len(),
        rowname_text(row).len() > 0,
        is_digit(encode_utf8(rowname_text(row))[0]),
        row_index(encode_utf8(rowname_text(row)) + rest) == Some(row),
{
    let n = row as nat + 1;
    let text = rowname_text(row);
    lemma_decimal_value(n);
    lemma_encode_ascii(text);
    let run = ascii_bytes(text);
    let t = run + rest;
    assert forall|i: int| 0 <= i < run.len() implies is_digit(#[trigger] t[i]) by {
        assert(t[i] == run[i]);
    }
    lemma_digits_len_is(t, run.len() as int);
    assert(t.take(run.len() as int) =~= run);
}

/// Reading the text of a column gives the column back, and reading the text
/// of a row gives the row back; each reading takes the whole text.
pub proof fn lemma_name_round_trip(row: u32, col: u32)
    ensures
        column_index(encode_utf8(colname_text(col))) == Some(col),
        letters_len(encode_utf8(colname_text(col))) == encode_utf8(colname_text(col)).len(),
        row_index(encode_utf8(rowname_text(row))) == Some(row),
        digits_len(encode_utf8(rowname_text(row))) == encode_utf8(rowname_text(row)).len(),
{
    lemma_colname_then(col, Seq::empty());
    lemma_rowname_then(row, Seq::empty());
    assert(encode_utf8(colname_text(col)) + Seq::<u8>::empty() =~= encode_utf8(colname_text(col)));
    assert(encode_utf8(rowname_text(row)) + Seq::<u8>::empty() =~= encode_utf8(rowname_text(row)));
}

} // verus!
