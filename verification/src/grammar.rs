//! The record grammar as pure functions over a byte window.
//!
//! Every scanner takes the window and a start offset and yields a [`Step`]:
//! what was decoded (or which error stopped it) together with the offset at
//! which the cursor rests afterwards.

use crate::parser::ParseError;
use vstd::prelude::*;
use vstd::utf8::valid_utf8;

verus! {

/// `,` separates fields.
pub const COMMA: u8 = 0x2c;

/// `{` opens a record or a nested object.
pub const OPEN: u8 = 0x7b;

/// `}` closes a record or a nested object.
pub const CLOSE: u8 = 0x7d;

/// `"` delimits a quoted string.
pub const QUOTE: u8 = 0x22;

/// Carriage return, first byte of an insignificant line break.
pub const CR: u8 = 0x0d;

/// `0`, the origin of decimal digits.
pub const ZERO: u8 = 0x30;

/// Outcome of one scan: the value or error, and where the cursor ends up.
pub struct Step<T> {
    pub result: Result<T, ParseError>,
    pub pos: int,
}

/// A scan that yielded `value` and left the cursor at `pos`.
pub open spec fn done<T>(value: T, pos: int) -> Step<T> {
    Step { result: Ok(value), pos }
}

/// A scan that stopped with `error` and left the cursor at `pos`.
pub open spec fn fail<T>(error: ParseError, pos: int) -> Step<T> {
    Step { result: Err(error), pos }
}

/// The same outcome with the value forgotten.
pub open spec fn discard<T>(step: Step<T>) -> Step<()> {
    match step.result {
        Ok(_) => done((), step.pos),
        Err(e) => fail(e, step.pos),
    }
}

/// A field ends at `,` or `}`.
pub open spec fn is_terminator(b: u8) -> bool {
    b == COMMA || b == CLOSE
}

/// Offset of the first byte at or after `from` equal to `a` or `b`;
/// the window's length when there is none.
pub open spec fn find_either(s: Seq<u8>, from: int, a: u8, b: u8) -> int
    decreases s.len() - from,
{
    if from < 0 || from >= s.len() {
        s.len() as int
    } else if s[from] == a || s[from] == b {
        from
    } else {
        find_either(s, from + 1, a, b)
    }
}

/// Offset of the first `b` at or after `from`; the window's length when there is none.
pub open spec fn find_byte(s: Seq<u8>, from: int, b: u8) -> int {
    find_either(s, from, b, b)
}

/// Offset of the terminator that ends the field starting at `from`.
pub open spec fn field_end(s: Seq<u8>, from: int) -> int {
    find_either(s, from, COMMA, CLOSE)
}

/// What `find_either` returns, stated without recursion: it lies between
/// `from` and the length, nothing before it matches, and it matches unless
/// it is the length.
pub proof fn lemma_find_either(s: Seq<u8>, from: int, a: u8, b: u8)
    requires
        0 <= from <= s.len(),
    ensures
        from <= find_either(s, from, a, b) <= s.len(),
        find_either(s, from, a, b) < s.len() ==> {
            let k = find_either(s, from, a, b);
            s[k] == a || s[k] == b
        },
        forall|j: int| from <= j < find_either(s, from, a, b) ==> s[j] != a && s[j] != b,
    decreases s.len() - from,
{
    if from < s.len() && !(s[from] == a || s[from] == b) {
        lemma_find_either(s, from + 1, a, b);
    }
}

/// The first match is the only offset with a match and none before it.
pub proof fn lemma_find_either_at(s: Seq<u8>, from: int, a: u8, b: u8, k: int)
    requires
        0 <= from <= k < s.len(),
        s[k] == a || s[k] == b,
        forall|j: int| from <= j < k ==> s[j] != a && s[j] != b,
    ensures
        find_either(s, from, a, b) == k,
    decreases k - from,
{
    if from < k {
        lemma_find_either_at(s, from + 1, a, b, k);
    }
}

/// With no match from `from` on, the search yields the length.
pub proof fn lemma_find_either_none(s: Seq<u8>, from: int, a: u8, b: u8)
    requires
        0 <= from <= s.len(),
        forall|j: int| from <= j < s.len() ==> s[j] != a && s[j] != b,
    ensures
        find_either(s, from, a, b) == s.len(),
    decreases s.len() - from,
{
    if from < s.len() {
        lemma_find_either_none(s, from + 1, a, b);
    }
}

/// One accumulation step of the unsigned integer decoder. No byte is
/// rejected: each is taken as `byte - '0'`, wrapping, and folded in base ten.
pub open spec fn fold_digit(acc: usize, b: u8) -> usize {
    acc.wrapping_mul(10).wrapping_add(b.wrapping_sub(ZERO) as usize)
}

/// The number a field's bytes fold to, left to right.
pub open spec fn folded_number(field: Seq<u8>) -> usize
    decreases field.len(),
{
    if field.len() == 0 {
        0
    } else {
        fold_digit(folded_number(field.drop_last()), field.last())
    }
}

/// `0`-`9`.
pub open spec fn is_digit(b: u8) -> bool {
    0x30 <= b <= 0x39
}

/// The number that a run of decimal digits spells.
pub open spec fn decimal_value(field: Seq<u8>) -> nat
    decreases field.len(),
{
    if field.len() == 0 {
        0
    } else {
        10 * decimal_value(field.drop_last()) + (field.last() - ZERO) as nat
    }
}

/// A field of decimal digits folds to the number it spells, as long as that
/// number fits the machine word.
pub proof fn lemma_folded_decimal(field: Seq<u8>)
    requires
        forall|i: int| 0 <= i < field.len() ==> is_digit(field[i]),
        decimal_value(field) <= usize::MAX,
    ensures
        folded_number(field) == decimal_value(field),
    decreases field.len(),
{
    if field.len() > 0 {
        let front = field.drop_last();
        assert forall|i: int| 0 <= i < front.len() implies is_digit(front[i]) by {
            assert(front[i] == field[i]);
        }
        assert(is_digit(field.last()));
        lemma_folded_decimal(front);
        let acc = folded_number(front);
        assert(acc as nat * 10 <= usize::MAX);
        let range = (usize::MAX - usize::MIN + 1) as nat;
        assert((acc as nat * 10nat) % range == acc as nat * 10) by {
            vstd::arithmetic::div_mod::lemma_small_mod(acc as nat * 10, range);
        }
    }
}

/// Unsigned integer field: the bytes up to the terminator, folded. The
/// terminator is consumed. Without a terminator the whole window is consumed.
pub open spec fn scan_number(s: Seq<u8>, pos: int) -> Step<usize> {
    let end = field_end(s, pos);
    if end >= s.len() {
        fail(ParseError::End, s.len() as int)
    } else {
        done(folded_number(s.subrange(pos, end)), end + 1)
    }
}

/// Raw field: the bytes up to the terminator, which is consumed. Without a
/// terminator the cursor stays where it was.
pub open spec fn scan_raw(s: Seq<u8>, pos: int) -> Step<Seq<u8>> {
    let end = field_end(s, pos);
    if end >= s.len() {
        fail(ParseError::End, pos)
    } else {
        done(s.subrange(pos, end), end + 1)
    }
}

/// Content of a quoted string and whether it holds a doubled quote.
pub struct Quoted {
    pub content: Seq<u8>,
    pub doubled: bool,
}

/// Searches for the closing quote of a string whose content is scanned from
/// `from`. A quote followed by a terminator closes the string; a quote
/// followed by anything else is skipped together with that byte, and counts
/// as an escape when that byte is a quote too.
pub open spec fn quoted_close(s: Seq<u8>, from: int, doubled: bool) -> Step<(int, bool)>
    decreases s.len() - from,
{
    let q = find_byte(s, from, QUOTE);
    if from < 0 || q < from || q >= s.len() {
        fail(ParseError::End, from)
    } else if q + 1 >= s.len() {
        fail(ParseError::End, q + 1)
    } else if is_terminator(s[q + 1]) {
        done((q, doubled), q + 2)
    } else {
        quoted_close(s, q + 2, doubled || s[q + 1] == QUOTE)
    }
}

/// Quoted string field: an opening quote, the content, the closing quote and
/// the terminator after it.
pub open spec fn scan_quoted(s: Seq<u8>, pos: int) -> Step<Quoted> {
    if pos >= s.len() {
        fail(ParseError::End, pos)
    } else if s[pos] != QUOTE {
        fail(ParseError::InvalidFormat, pos + 1)
    } else {
        let close = quoted_close(s, pos + 1, false);
        match close.result {
            Err(e) => fail(e, close.pos),
            Ok((q, doubled)) => done(
                Quoted { content: s.subrange(pos + 1, q), doubled },
                close.pos,
            ),
        }
    }
}

/// What follows an object's closing brace: an optional two-byte line break,
/// then exactly one terminator.
pub open spec fn object_tail(s: Seq<u8>, p: int) -> Step<()> {
    if p >= s.len() {
        fail(ParseError::End, p)
    } else if s[p] == CR {
        if p + 2 > s.len() {
            fail(ParseError::End, p + 1)
        } else if p + 2 >= s.len() {
            fail(ParseError::End, p + 2)
        } else if is_terminator(s[p + 2]) {
            done((), p + 3)
        } else {
            fail(ParseError::InvalidFormat, p + 3)
        }
    } else if is_terminator(s[p]) {
        done((), p + 1)
    } else {
        fail(ParseError::InvalidFormat, p + 1)
    }
}

/// The field of an object that starts at offset `i`, told by its first
/// byte: a quoted string, a nested object, a line break (two bytes, no
/// value) or a raw token.
pub open spec fn object_field(s: Seq<u8>, i: int) -> Step<()>
    decreases s.len() - i, 0nat, 1nat,
{
    if i < 0 || i >= s.len() {
        fail(ParseError::End, i)
    } else if s[i] == QUOTE {
        discard(scan_quoted(s, i))
    } else if s[i] == OPEN {
        discard(scan_object(s, i))
    } else if s[i] == CR {
        if i + 2 <= s.len() {
            done((), i + 2)
        } else {
            fail(ParseError::End, i)
        }
    } else {
        discard(scan_raw(s, i))
    }
}

/// The fields of an object from offset `i` up to and including the brace
/// that closes it: the object is closed once the last byte consumed is `}`.
pub open spec fn object_body(s: Seq<u8>, i: int) -> Step<()>
    decreases s.len() - i, 1nat, 0nat,
{
    if i < 0 || i >= s.len() {
        fail(ParseError::End, i)
    } else {
        let field = object_field(s, i);
        if field.result is Err || field.pos <= i || field.pos > s.len() {
            field
        } else if s[field.pos - 1] == CLOSE {
            field
        } else {
            object_body(s, field.pos)
        }
    }
}

/// The rest of an object once its fields have been scanned: the tail, then
/// the text from the opening brace at `open` to just before the terminator,
/// which must be valid UTF-8.
pub open spec fn object_finish(s: Seq<u8>, open: int, body: Step<()>) -> Step<Seq<u8>> {
    match body.result {
        Err(e) => fail(e, body.pos),
        Ok(_) => {
            let tail = object_tail(s, body.pos);
            match tail.result {
                Err(e) => fail(e, tail.pos),
                Ok(_) => {
                    let text = s.subrange(open, tail.pos - 1);
                    if valid_utf8(text) {
                        done(text, tail.pos)
                    } else {
                        fail(ParseError::InvalidFormat, tail.pos)
                    }
                },
            }
        },
    }
}

/// Object field: bytes before the first `{` are skipped, then the object is
/// scanned to its end. The value is the object's text, braces included.
pub open spec fn scan_object(s: Seq<u8>, pos: int) -> Step<Seq<u8>>
    decreases s.len() - pos, 0nat, 0nat,
{
    let open = find_byte(s, pos, OPEN);
    if pos < 0 || open < pos || open >= s.len() {
        fail(ParseError::End, s.len() as int)
    } else {
        object_finish(s, open, object_body(s, open + 1))
    }
}

/// Where a number scan leaves the cursor.
pub proof fn lemma_number_bounds(s: Seq<u8>, pos: int)
    requires
        0 <= pos <= s.len(),
    ensures
        pos <= scan_number(s, pos).pos <= s.len(),
        scan_number(s, pos).result is Ok ==> pos < scan_number(s, pos).pos,
{
    lemma_find_either(s, pos, COMMA, CLOSE);
}

/// Where a raw scan leaves the cursor.
pub proof fn lemma_raw_bounds(s: Seq<u8>, pos: int)
    requires
        0 <= pos <= s.len(),
    ensures
        pos <= scan_raw(s, pos).pos <= s.len(),
        scan_raw(s, pos).result is Ok ==> pos < scan_raw(s, pos).pos,
{
    lemma_find_either(s, pos, COMMA, CLOSE);
}

/// The closing quote that `quoted_close` finds is a quote followed by a
/// terminator, and the cursor rests just after that terminator.
pub proof fn lemma_quoted_close_bounds(s: Seq<u8>, from: int, doubled: bool)
    requires
        0 <= from <= s.len(),
    ensures
        from <= quoted_close(s, from, doubled).pos <= s.len(),
        quoted_close(s, from, doubled).result matches Ok((q, _)) ==> {
            &&& from <= q
            &&& q + 2 == quoted_close(s, from, doubled).pos
            &&& s[q] == QUOTE
            &&& is_terminator(s[q + 1])
        },
    decreases s.len() - from,
{
    lemma_find_either(s, from, QUOTE, QUOTE);
    let q = find_byte(s, from, QUOTE);
    if q < s.len() && q + 1 < s.len() && !is_terminator(s[q + 1]) {
        lemma_quoted_close_bounds(s, q + 2, doubled || s[q + 1] == QUOTE);
    }
}

/// Where a quoted-string scan leaves the cursor.
pub proof fn lemma_quoted_bounds(s: Seq<u8>, pos: int)
    requires
        0 <= pos <= s.len(),
    ensures
        pos <= scan_quoted(s, pos).pos <= s.len(),
        scan_quoted(s, pos).result is Ok ==> pos < scan_quoted(s, pos).pos,
{
    if pos < s.len() && s[pos] == QUOTE {
        lemma_quoted_close_bounds(s, pos + 1, false);
    }
}

/// Where the scan of an object's fields leaves the cursor: inside the
/// window, and on success just after a closing brace.
pub proof fn lemma_object_body_bounds(s: Seq<u8>, i: int)
    requires
        0 <= i <= s.len(),
    ensures
        i <= object_body(s, i).pos <= s.len(),
        object_body(s, i).result is Ok ==> i < object_body(s, i).pos && s[object_body(s, i).pos
            - 1] == CLOSE,
    decreases s.len() - i, 1nat,
{
    if i < s.len() {
        if s[i] == QUOTE {
            lemma_quoted_bounds(s, i);
        } else if s[i] == OPEN {
            lemma_object_bounds(s, i);
        } else if s[i] == CR {
        } else {
            lemma_raw_bounds(s, i);
        }
        let field = object_field(s, i);
        if field.result is Ok && s[field.pos - 1] != CLOSE {
            lemma_object_body_bounds(s, field.pos);
        }
    }
}

/// Where an object scan leaves the cursor.
pub proof fn lemma_object_bounds(s: Seq<u8>, pos: int)
    requires
        0 <= pos <= s.len(),
    ensures
        pos <= scan_object(s, pos).pos <= s.len(),
        scan_object(s, pos).result is Ok ==> pos < scan_object(s, pos).pos,
    decreases s.len() - pos, 0nat,
{
    lemma_find_either(s, pos, OPEN, OPEN);
    let open = find_byte(s, pos, OPEN);
    if open < s.len() {
        lemma_object_body_bounds(s, open + 1);
    }
}

/// True when `text` is a contiguous run of bytes of the window `s`.
pub open spec fn is_window_range(s: Seq<u8>, text: Seq<u8>) -> bool {
    exists|a: int, b: int| 0 <= a <= b <= s.len() && text == #[trigger] s.subrange(a, b)
}

/// The text of a decoded object is the window's own bytes, untouched: it
/// runs from the opening brace to just before the terminator that ends the
/// field.
pub proof fn lemma_object_text(s: Seq<u8>, pos: int)
    requires
        0 <= pos <= s.len(),
    ensures
        scan_object(s, pos).result matches Ok(text) ==> {
            let open = find_byte(s, pos, OPEN);
            let end = scan_object(s, pos).pos;
            &&& pos <= open < end - 1
            &&& end <= s.len()
            &&& text == s.subrange(open, end - 1)
            &&& text[0] == OPEN
            &&& is_terminator(s[end - 1])
            &&& is_window_range(s, text)
        },
{
    lemma_find_either(s, pos, OPEN, OPEN);
    let open = find_byte(s, pos, OPEN);
    if open < s.len() {
        lemma_object_body_bounds(s, open + 1);
        if scan_object(s, pos).result is Ok {
            let end = scan_object(s, pos).pos;
            assert(s.subrange(open, end - 1)[0] == s[open]);
        }
    }
}

/// The content of a decoded quoted string is the window's own bytes between
/// the opening and the closing quote.
pub proof fn lemma_quoted_content(s: Seq<u8>, pos: int)
    requires
        0 <= pos <= s.len(),
    ensures
        scan_quoted(s, pos).result matches Ok(q) ==> {
            let end = scan_quoted(s, pos).pos;
            &&& pos + 3 <= end <= s.len()
            &&& q.content == s.subrange(pos + 1, end - 2)
            &&& s[pos] == QUOTE
            &&& s[end - 2] == QUOTE
            &&& is_terminator(s[end - 1])
            &&& is_window_range(s, q.content)
        },
{
    if pos < s.len() && s[pos] == QUOTE {
        lemma_quoted_close_bounds(s, pos + 1, false);
    }
}

} // verus!
