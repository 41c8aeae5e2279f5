//! Text as bytes.
//!
//! The reference notation is made of ASCII characters, so it is scanned byte
//! by byte over the UTF-8 encoding of a string, and a scan position is a byte
//! offset. This module holds the byte classes of the notation, the facts about
//! UTF-8 that let a scanner cut a string at the positions it reaches, and the
//! few string operations the rest of the crate builds on.

use vstd::prelude::*;
use vstd::string::*;
use vstd::utf8::*;

verus! {

/// The separator between the sheet name and the cell: `.`
pub const DOT: u8 = 0x2e;

/// The quote character of sheet names: `'`
pub const QUOTE: u8 = 0x27;

/// The marker of an absolute row or column: `$`
pub const DOLLAR: u8 = 0x24;

/// The separator between the two corners of a range: `:`
pub const COLON: u8 = 0x3a;

/// The separator between the ranges of a list: a single blank.
pub const BLANK: u8 = 0x20;

/// `b` is one of `A` to `Z`.
pub open spec fn is_upper(b: u8) -> bool {
    0x41 <= b <= 0x5a
}

/// `b` is one of `0` to `9`.
pub open spec fn is_digit(b: u8) -> bool {
    0x30 <= b <= 0x39
}

/// `b` is an ASCII character, encoded in UTF-8 by itself.
pub open spec fn is_ascii_byte(b: u8) -> bool {
    b <= 0x7f
}

/// `pos` is a position in `s`: the start of the text, the start of a
/// character, or the end of the text. A scanner stands at positions only.
pub open spec fn is_position(s: &str, pos: usize) -> bool {
    pos == 0 || is_char_boundary(s.spec_bytes(), pos as int)
}

/// The bytes of `s` from `pos` on: what a scanner at `pos` still has before it.
pub open spec fn remaining(s: &str, pos: usize) -> Seq<u8> {
    s.spec_bytes().skip(pos as int)
}

/// A position lies inside the text or at its end.
pub proof fn lemma_position_in_range(s: &str, pos: usize)
    requires
        is_position(s, pos),
    ensures
        pos <= s.spec_bytes().len(),
{
    encode_utf8_valid_utf8(s@);
}

/// A position is a character boundary of the text, which is valid UTF-8, and
/// so is what is left of it at the position.
pub proof fn lemma_position_splits(s: &str, pos: usize)
    requires
        is_position(s, pos),
    ensures
        pos <= s.spec_bytes().len(),
        is_char_boundary(s.spec_bytes(), pos as int),
        valid_utf8(s.spec_bytes()),
        valid_utf8(remaining(s, pos)),
{
    let bytes = s.spec_bytes();
    encode_utf8_valid_utf8(s@);
    valid_utf8_split(bytes, pos as int);
}

/// What is left after `more` bytes of what was left at `pos`.
pub proof fn lemma_remaining_skip(s: &str, pos: usize, more: nat)
    requires
        pos + more <= s.spec_bytes().len(),
        pos + more <= usize::MAX,
    ensures
        remaining(s, pos).skip(more as int) == remaining(s, (pos + more) as usize),
{
    assert(remaining(s, pos).skip(more as int) =~= remaining(s, (pos + more) as usize));
}

/// Every index at which a valid text holds an ASCII byte is a position.
pub proof fn lemma_ascii_is_boundary(bytes: Seq<u8>, i: int)
    requires
        valid_utf8(bytes),
        0 <= i < bytes.len(),
        is_ascii_byte(bytes[i]),
    ensures
        is_char_boundary(bytes, i),
{
    is_char_boundary_iff_not_is_continuation_byte(bytes, i);
}

/// The index after an ASCII byte that starts at a position is a position too.
pub proof fn lemma_boundary_after_ascii(bytes: Seq<u8>, i: int)
    requires
        valid_utf8(bytes),
        is_char_boundary(bytes, i),
        0 <= i < bytes.len(),
        is_ascii_byte(bytes[i]),
    ensures
        is_char_boundary(bytes, i + 1),
{
    valid_utf8_split(bytes, i);
    let tail = bytes.subrange(i, bytes.len() as int);
    assert(tail[0] == bytes[i]);
    assert(length_of_first_scalar(tail) == 1);
    let after = pop_first_scalar(tail);
    assert(valid_utf8(after));
    if i + 1 == bytes.len() {
        is_char_boundary_start_end_of_seq(bytes);
    } else {
        assert(after.len() > 0);
        assert(after[0] == bytes[i + 1]);
        assert(valid_first_scalar(after));
        is_char_boundary_iff_is_leading_byte(bytes, i + 1);
    }
}

/// Encoding distributes over concatenation.
pub proof fn lemma_encode_concat(a: Seq<char>, b: Seq<char>)
    ensures
        encode_utf8(a + b) == encode_utf8(a) + encode_utf8(b),
    decreases a.len(),
{
    if a.len() == 0 {
        assert(a + b =~= b);
        assert(encode_utf8(a) + encode_utf8(b) =~= encode_utf8(b));
    } else {
        assert((a + b).drop_first() =~= a.drop_first() + b);
        lemma_encode_concat(a.drop_first(), b);
        assert(encode_utf8(a + b) =~= encode_utf8(a) + encode_utf8(b));
    }
}

/// An ASCII text is encoded character by character, each as its own byte.
pub open spec fn ascii_bytes(t: Seq<char>) -> Seq<u8> {
    Seq::new(t.len(), |i: int| t[i] as u8)
}

/// The encoding of an ASCII text is its characters taken as bytes.
pub proof fn lemma_encode_ascii(t: Seq<char>)
    requires
        is_ascii_chars(t),
    ensures
        encode_utf8(t) == ascii_bytes(t),
{
    is_ascii_chars_encode_utf8(t);
    assert(encode_utf8(t) =~= ascii_bytes(t));
}

/// The encoding of a character is the character itself where it is ASCII, and
/// holds no ASCII byte where it is not.
pub proof fn lemma_encode_scalar_bytes(c: char)
    ensures
        (c as u32) <= 0x7f ==> encode_scalar(c as u32) == seq![c as u8],
        (c as u32) > 0x7f ==> forall|k: int|
            0 <= k < encode_scalar(c as u32).len() ==> !is_ascii_byte(
                #[trigger] encode_scalar(c as u32)[k],
            ),
        1 <= encode_scalar(c as u32).len() <= 4,
{
    let v = c as u32;
    if v <= 0x7f {
        assert((v & 0x7f) as u8 == v as u8) by (bit_vector)
            requires
                v <= 0x7f,
        ;
        assert(encode_scalar(v) =~= seq![c as u8]);
    } else {
        assert((0xC0u8 | ((v >> 6) & 0x1F) as u8) > 0x7f) by (bit_vector);
        assert((0xE0u8 | ((v >> 12) & 0x0F) as u8) > 0x7f) by (bit_vector);
        assert((0xF0u8 | ((v >> 18) & 0x7) as u8) > 0x7f) by (bit_vector);
        assert((0x80u8 | (v & 0x3F) as u8) > 0x7f) by (bit_vector);
        assert((0x80u8 | ((v >> 6) & 0x3F) as u8) > 0x7f) by (bit_vector);
        assert((0x80u8 | ((v >> 12) & 0x3F) as u8) > 0x7f) by (bit_vector);
    }
}

/// An ASCII byte occurs in the encoding of a text exactly where the text holds
/// that character.
pub proof fn lemma_ascii_byte_occurs(t: Seq<char>, b: u8)
    requires
        is_ascii_byte(b),
    ensures
        encode_utf8(t).contains(b) <==> t.contains(b as char),
    decreases t.len(),
{
    let enc = encode_utf8(t);
    if t.len() == 0 {
        assert(!enc.contains(b));
        assert(!t.contains(b as char));
    } else {
        let first = encode_scalar(t[0] as u32);
        let rest = encode_utf8(t.drop_first());
        lemma_encode_scalar_bytes(t[0]);
        lemma_ascii_byte_occurs(t.drop_first(), b);
        assert(enc == first + rest);
        if t.contains(b as char) {
            let i = choose|i: int| 0 <= i < t.len() && t[i] == b as char;
            if i == 0 {
                assert((b as char) as u8 == b);
                assert(enc[0] == b);
            } else {
                assert(t.drop_first()[i - 1] == b as char);
                assert(t.drop_first().contains(b as char));
                let k = choose|k: int| 0 <= k < rest.len() && rest[k] == b;
                assert(enc[first.len() + k] == b);
            }
        }
        if enc.contains(b) {
            let k = choose|k: int| 0 <= k < enc.len() && enc[k] == b;
            if k < first.len() {
                assert(first[k] == b);
                assert((t[0] as u32) <= 0x7f);
                assert(t[0] as u8 == b);
                let u = t[0] as u32;
                char_u32_cast(t[0], u);
                assert(u == b as u32);
                assert(t[0] == b as char);
            } else {
                assert(rest[k - first.len()] == b);
                assert(rest.contains(b));
                let i = choose|i: int|
                    0 <= i < t.drop_first().len() && t.drop_first()[i] == b as char;
                assert(t[i + 1] == b as char);
            }
        }
    }
}

/// `String::push`: the character is appended to the string, which is
/// otherwise unchanged. This is what the documentation of `std` says of it;
/// it is stated here and not proved.
pub assume_specification[ String::push ](s: &mut String, c: char)
    ensures
        final(s)@ == old(s)@.push(c),
;

/// The part of `s` from the position `from` to its end.
pub(crate) fn tail<'a>(s: &'a str, from: usize) -> (r: &'a str)
    requires
        is_position(s, from),
    ensures
        r.spec_bytes() == remaining(s, from),
        r@ == decode_utf8(remaining(s, from)),
{
    proof {
        lemma_position_splits(s, from);
    }
    let (_, r) = s.split_at(from);
    proof {
        assert(r.spec_bytes() =~= remaining(s, from));
        encode_utf8_decode_utf8(r@);
    }
    r
}

/// The part of `s` before the position `to`.
pub(crate) fn head<'a>(s: &'a str, to: usize) -> (r: &'a str)
    requires
        is_position(s, to),
    ensures
        r.spec_bytes() == s.spec_bytes().take(to as int),
        r@ == decode_utf8(s.spec_bytes().take(to as int)),
{
    proof {
        lemma_position_splits(s, to);
    }
    let (r, _) = s.split_at(to);
    proof {
        assert(r.spec_bytes() =~= s.spec_bytes().take(to as int));
        encode_utf8_decode_utf8(r@);
    }
    r
}

} // verus!

verus! {

/// Do `a` and `b` hold the same text?
pub fn same_text(a: &str, b: &str) -> (same: bool)
    ensures
        same == (a@ == b@),
{
    let x = a.as_bytes();
    let y = b.as_bytes();
    proof {
        encode_utf8_decode_utf8(a@);
        encode_utf8_decode_utf8(b@);
    }
    if x.len() != y.len() {
        return false;
    }
    let mut i: usize = 0;
    while i < x.len()
        invariant
            x@ == a.spec_bytes(),
            y@ == b.spec_bytes(),
            x@.len() == y@.len(),
            i <= x@.len(),
            forall|k: int| 0 <= k < i ==> x@[k] == y@[k],
            decode_utf8(a.spec_bytes()) == a@,
            decode_utf8(b.spec_bytes()) == b@,
        decreases x@.len() - i,
    {
        if x[i] != y[i] {
            return false;
        }
        i += 1;
    }
    proof {
        assert(x@ =~= y@);
    }
    true
}

} // verus!
