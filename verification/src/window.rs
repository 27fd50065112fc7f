//! How scans behave when the window changes under them.
//!
//! Two things happen to a window between fills: bytes are added at its end,
//! and bytes already consumed are dropped from its front. A scan that did
//! not run out of input is unmoved by the first, and every scan follows the
//! second by the number of bytes dropped. Together they make decoding
//! independent of where the input was cut into chunks.

use crate::grammar::{
    done, fail, field_end, find_byte, find_either, is_terminator, lemma_find_either,
    lemma_object_body_bounds, lemma_object_bounds, lemma_quoted_bounds, lemma_quoted_close_bounds,
    lemma_raw_bounds, object_body, object_field, object_tail, quoted_close, scan_number,
    scan_object, scan_quoted, scan_raw, Step, CLOSE, COMMA, CR, OPEN, QUOTE,
};
use crate::ident::scan_uuid;
use crate::parser::ParseError;
use crate::schema::{scan_field, scan_fields, timestamp_at, two_digits, FieldKind, FieldValue};
use vstd::prelude::*;

verus! {

/// True when the window `t` starts with the bytes of `s`.
pub open spec fn begins_with(t: Seq<u8>, s: Seq<u8>) -> bool {
    &&& s.len() <= t.len()
    &&& forall|i: int| 0 <= i < s.len() ==> s[i] == t[i]
}

/// True when a scan stopped for any reason but want of input.
pub open spec fn settled<T>(step: Step<T>) -> bool {
    step.result != Err::<T, ParseError>(ParseError::End)
}

/// A search that found its byte finds it again in a longer window.
pub proof fn lemma_find_grows(s: Seq<u8>, t: Seq<u8>, from: int, a: u8, b: u8)
    requires
        begins_with(t, s),
        0 <= from <= s.len(),
        find_either(s, from, a, b) < s.len(),
    ensures
        find_either(t, from, a, b) == find_either(s, from, a, b),
    decreases s.len() - from,
{
    if from < s.len() {
        assert(s[from] == t[from]);
        if !(s[from] == a || s[from] == b) {
            lemma_find_grows(s, t, from + 1, a, b);
        }
    }
}

/// A range of the shorter window is the same range of the longer one.
pub proof fn lemma_range_grows(s: Seq<u8>, t: Seq<u8>, from: int, to: int)
    requires
        begins_with(t, s),
        0 <= from <= to <= s.len(),
    ensures
        t.subrange(from, to) == s.subrange(from, to),
{
    assert(t.subrange(from, to) =~= s.subrange(from, to));
}

/// A number that was decoded is decoded alike from a longer window.
pub proof fn lemma_number_grows(s: Seq<u8>, t: Seq<u8>, pos: int)
    requires
        begins_with(t, s),
        0 <= pos <= s.len(),
        settled(scan_number(s, pos)),
    ensures
        scan_number(t, pos) == scan_number(s, pos),
{
    lemma_find_either(s, pos, COMMA, CLOSE);
    lemma_find_grows(s, t, pos, COMMA, CLOSE);
    lemma_range_grows(s, t, pos, field_end(s, pos));
}

/// A raw field that was decoded is decoded alike from a longer window.
pub proof fn lemma_raw_grows(s: Seq<u8>, t: Seq<u8>, pos: int)
    requires
        begins_with(t, s),
        0 <= pos <= s.len(),
        settled(scan_raw(s, pos)),
    ensures
        scan_raw(t, pos) == scan_raw(s, pos),
{
    lemma_find_either(s, pos, COMMA, CLOSE);
    lemma_find_grows(s, t, pos, COMMA, CLOSE);
    lemma_range_grows(s, t, pos, field_end(s, pos));
}

/// A closing quote that was found is found again in a longer window.
pub proof fn lemma_quoted_close_grows(s: Seq<u8>, t: Seq<u8>, from: int, doubled: bool)
    requires
        begins_with(t, s),
        0 <= from <= s.len(),
        settled(quoted_close(s, from, doubled)),
    ensures
        quoted_close(t, from, doubled) == quoted_close(s, from, doubled),
    decreases s.len() - from,
{
    lemma_find_either(s, from, QUOTE, QUOTE);
    let q = find_byte(s, from, QUOTE);
    if q < s.len() {
        lemma_find_grows(s, t, from, QUOTE, QUOTE);
        if q + 1 < s.len() {
            assert(s[q + 1] == t[q + 1]);
            if !is_terminator(s[q + 1]) {
                lemma_quoted_close_grows(s, t, q + 2, doubled || s[q + 1] == QUOTE);
            }
        }
    }
}

/// A quoted string that was decoded or refused is decoded or refused alike
/// in a longer window.
pub proof fn lemma_quoted_grows(s: Seq<u8>, t: Seq<u8>, pos: int)
    requires
        begins_with(t, s),
        0 <= pos <= s.len(),
        settled(scan_quoted(s, pos)),
    ensures
        scan_quoted(t, pos) == scan_quoted(s, pos),
{
    if pos < s.len() {
        assert(s[pos] == t[pos]);
        if s[pos] == QUOTE {
            lemma_quoted_close_grows(s, t, pos + 1, false);
            lemma_quoted_close_bounds(s, pos + 1, false);
            if let Ok((q, doubled)) = quoted_close(s, pos + 1, false).result {
                lemma_range_grows(s, t, pos + 1, q);
            }
        }
    }
}

/// The tail of an object, once judged, is judged alike in a longer window.
pub proof fn lemma_object_tail_grows(s: Seq<u8>, t: Seq<u8>, p: int)
    requires
        begins_with(t, s),
        0 <= p <= s.len(),
        settled(object_tail(s, p)),
    ensures
        object_tail(t, p) == object_tail(s, p),
{
    if p < s.len() {
        assert(s[p] == t[p]);
        if s[p] == CR && p + 2 < s.len() {
            assert(s[p + 2] == t[p + 2]);
        }
    }
}

/// The fields of an object, once scanned to their end or refused, are
/// scanned alike in a longer window.
pub proof fn lemma_object_body_grows(s: Seq<u8>, t: Seq<u8>, i: int)
    requires
        begins_with(t, s),
        0 <= i <= s.len(),
        settled(object_body(s, i)),
    ensures
        object_body(t, i) == object_body(s, i),
    decreases s.len() - i, 1nat,
{
    if i < s.len() {
        assert(s[i] == t[i]);
        let field = object_field(s, i);
        if s[i] == QUOTE {
            lemma_quoted_bounds(s, i);
            if settled(scan_quoted(s, i)) {
                lemma_quoted_grows(s, t, i);
            }
        } else if s[i] == OPEN {
            lemma_object_bounds(s, i);
            if settled(scan_object(s, i)) {
                lemma_object_grows(s, t, i);
            }
        } else if s[i] == CR {
        } else {
            lemma_raw_bounds(s, i);
            if settled(scan_raw(s, i)) {
                lemma_raw_grows(s, t, i);
            }
        }
        assert(object_field(t, i) == field);
        if field.result is Ok && i < field.pos <= s.len() {
            assert(s[field.pos - 1] == t[field.pos - 1]);
            if s[field.pos - 1] != CLOSE {
                lemma_object_body_grows(s, t, field.pos);
            }
        }
    }
}

/// An object that was decoded or refused is decoded or refused alike in a
/// longer window.
pub proof fn lemma_object_grows(s: Seq<u8>, t: Seq<u8>, pos: int)
    requires
        begins_with(t, s),
        0 <= pos <= s.len(),
        settled(scan_object(s, pos)),
    ensures
        scan_object(t, pos) == scan_object(s, pos),
    decreases s.len() - pos, 0nat,
{
    lemma_find_either(s, pos, OPEN, OPEN);
    let open = find_byte(s, pos, OPEN);
    if open < s.len() {
        lemma_find_grows(s, t, pos, OPEN, OPEN);
        let body = object_body(s, open + 1);
        lemma_object_body_bounds(s, open + 1);
        if settled(body) {
            lemma_object_body_grows(s, t, open + 1);
            if body.result is Ok {
                let tail = object_tail(s, body.pos);
                if settled(tail) {
                    lemma_object_tail_grows(s, t, body.pos);
                    if tail.result is Ok {
                        lemma_range_grows(s, t, open, tail.pos - 1);
                    }
                }
            }
        }
    }
}

/// An identifier that was decoded or refused is decoded or refused alike in
/// a longer window.
pub proof fn lemma_uuid_grows(s: Seq<u8>, t: Seq<u8>, pos: int)
    requires
        begins_with(t, s),
        0 <= pos <= s.len(),
        settled(scan_uuid(s, pos)),
    ensures
        scan_uuid(t, pos) == scan_uuid(s, pos),
{
    lemma_raw_grows(s, t, pos);
}

/// The fourteen digits of a timestamp read the same in a longer window.
pub proof fn lemma_timestamp_at_grows(s: Seq<u8>, t: Seq<u8>, pos: int)
    requires
        begins_with(t, s),
        0 <= pos,
        pos + 14 <= s.len(),
    ensures
        timestamp_at(t, pos) == timestamp_at(s, pos),
{
    assert forall|j: int| pos <= j < pos + 14 implies s[j] == t[j] by {}
    assert(two_digits(t, pos) == two_digits(s, pos));
    assert(two_digits(t, pos + 2) == two_digits(s, pos + 2));
    assert(two_digits(t, pos + 4) == two_digits(s, pos + 4));
    assert(two_digits(t, pos + 6) == two_digits(s, pos + 6));
    assert(two_digits(t, pos + 8) == two_digits(s, pos + 8));
    assert(two_digits(t, pos + 10) == two_digits(s, pos + 10));
    assert(two_digits(t, pos + 12) == two_digits(s, pos + 12));
}

/// A field that was decoded or refused is decoded or refused alike in a
/// longer window.
pub proof fn lemma_field_grows(kind: FieldKind, s: Seq<u8>, t: Seq<u8>, pos: int)
    requires
        begins_with(t, s),
        0 <= pos <= s.len(),
        settled(scan_field(kind, s, pos)),
    ensures
        scan_field(kind, t, pos) == scan_field(kind, s, pos),
{
    match kind {
        FieldKind::Timestamp => {
            if pos + 15 <= s.len() {
                lemma_timestamp_at_grows(s, t, pos);
            }
        },
        FieldKind::Status => {
            if pos < s.len() {
                assert(s[pos] == t[pos]);
            }
        },
        FieldKind::Level => {
            if pos < s.len() {
                assert(s[pos] == t[pos]);
            }
        },
        FieldKind::Number => {
            lemma_number_grows(s, t, pos);
        },
        FieldKind::Uuid => {
            lemma_uuid_grows(s, t, pos);
        },
        FieldKind::Text => {
            lemma_quoted_grows(s, t, pos);
        },
        FieldKind::Object => {
            lemma_object_grows(s, t, pos);
        },
    }
}

/// A run of fields that was decoded or refused is decoded or refused alike
/// in a longer window.
pub proof fn lemma_fields_grow(
    s: Seq<u8>,
    t: Seq<u8>,
    pos: int,
    kinds: Seq<FieldKind>,
    k: int,
    acc: Seq<FieldValue>,
)
    requires
        begins_with(t, s),
        0 <= pos <= s.len(),
        settled(scan_fields(s, pos, kinds, k, acc)),
    ensures
        scan_fields(t, pos, kinds, k, acc) == scan_fields(s, pos, kinds, k, acc),
    decreases kinds.len() - k,
{
    reveal(scan_fields);
    if 0 <= k < kinds.len() {
        let r = scan_field(kinds[k], s, pos);
        crate::schema::lemma_field_bounds(kinds[k], s, pos);
        if settled(r) {
            lemma_field_grows(kinds[k], s, t, pos);
            if let Ok(v) = r.result {
                lemma_fields_grow(s, t, r.pos, kinds, k + 1, acc.push(v));
            }
        }
    }
}

/// `step`, seen from a window that holds `k` more bytes in front.
pub open spec fn moved<T>(step: Step<T>, k: int) -> Step<T> {
    Step { result: step.result, pos: step.pos + k }
}

/// The outcome of a search for a closing quote, seen from a window that
/// holds `k` more bytes in front.
pub open spec fn moved_close(step: Step<(int, bool)>, k: int) -> Step<(int, bool)> {
    match step.result {
        Ok((q, doubled)) => done((q + k, doubled), step.pos + k),
        Err(e) => fail(e, step.pos + k),
    }
}

/// A search in a window with its first `k` bytes dropped finds what the
/// search in the whole window finds, `k` bytes earlier.
pub proof fn lemma_find_slides(t: Seq<u8>, k: int, from: int, a: u8, b: u8)
    requires
        0 <= k <= from <= t.len(),
    ensures
        find_either(t, from, a, b) == find_either(t.skip(k), from - k, a, b) + k,
    decreases t.len() - from,
{
    if from < t.len() {
        assert(t.skip(k)[from - k] == t[from]);
        if !(t[from] == a || t[from] == b) {
            lemma_find_slides(t, k, from + 1, a, b);
        }
    }
}

/// A range of a window is the range `k` bytes earlier of the window with
/// its first `k` bytes dropped.
pub proof fn lemma_range_slides(t: Seq<u8>, k: int, from: int, to: int)
    requires
        0 <= k <= from <= to <= t.len(),
    ensures
        t.subrange(from, to) == t.skip(k).subrange(from - k, to - k),
{
    assert(t.subrange(from, to) =~= t.skip(k).subrange(from - k, to - k));
}

/// Decoding a number follows the window when bytes are dropped in front.
pub proof fn lemma_number_slides(t: Seq<u8>, k: int, pos: int)
    requires
        0 <= k <= pos <= t.len(),
    ensures
        scan_number(t, pos) == moved(scan_number(t.skip(k), pos - k), k),
{
    lemma_find_either(t, pos, COMMA, CLOSE);
    lemma_find_slides(t, k, pos, COMMA, CLOSE);
    if field_end(t, pos) < t.len() {
        lemma_range_slides(t, k, pos, field_end(t, pos));
    }
}

/// Decoding a raw field follows the window when bytes are dropped in front.
pub proof fn lemma_raw_slides(t: Seq<u8>, k: int, pos: int)
    requires
        0 <= k <= pos <= t.len(),
    ensures
        scan_raw(t, pos) == moved(scan_raw(t.skip(k), pos - k), k),
{
    lemma_find_either(t, pos, COMMA, CLOSE);
    lemma_find_slides(t, k, pos, COMMA, CLOSE);
    if field_end(t, pos) < t.len() {
        lemma_range_slides(t, k, pos, field_end(t, pos));
    }
}

/// The search for a closing quote follows the window when bytes are dropped
/// in front.
pub proof fn lemma_quoted_close_slides(t: Seq<u8>, k: int, from: int, doubled: bool)
    requires
        0 <= k <= from <= t.len(),
    ensures
        quoted_close(t, from, doubled) == moved_close(
            quoted_close(t.skip(k), from - k, doubled),
            k,
        ),
    decreases t.len() - from,
{
    let u = t.skip(k);
    lemma_find_either(t, from, QUOTE, QUOTE);
    lemma_find_slides(t, k, from, QUOTE, QUOTE);
    let q = find_byte(t, from, QUOTE);
    if q < t.len() && q + 1 < t.len() {
        assert(u[q + 1 - k] == t[q + 1]);
        if !is_terminator(t[q + 1]) {
            lemma_quoted_close_slides(t, k, q + 2, doubled || t[q + 1] == QUOTE);
        }
    }
}

/// Decoding a quoted string follows the window when bytes are dropped in
/// front.
pub proof fn lemma_quoted_slides(t: Seq<u8>, k: int, pos: int)
    requires
        0 <= k <= pos <= t.len(),
    ensures
        scan_quoted(t, pos) == moved(scan_quoted(t.skip(k), pos - k), k),
{
    let u = t.skip(k);
    if pos < t.len() {
        assert(u[pos - k] == t[pos]);
        if t[pos] == QUOTE {
            lemma_quoted_close_slides(t, k, pos + 1, false);
            lemma_quoted_close_bounds(t, pos + 1, false);
            if let Ok((q, doubled)) = quoted_close(t, pos + 1, false).result {
                lemma_range_slides(t, k, pos + 1, q);
            }
        }
    }
}

/// Judging the tail of an object follows the window when bytes are dropped
/// in front.
pub proof fn lemma_object_tail_slides(t: Seq<u8>, k: int, p: int)
    requires
        0 <= k <= p <= t.len(),
    ensures
        object_tail(t, p) == moved(object_tail(t.skip(k), p - k), k),
{
    let u = t.skip(k);
    if p < t.len() {
        assert(u[p - k] == t[p]);
        if t[p] == CR && p + 2 < t.len() {
            assert(u[p + 2 - k] == t[p + 2]);
        }
    }
}

/// Scanning the fields of an object follows the window when bytes are
/// dropped in front.
pub proof fn lemma_object_body_slides(t: Seq<u8>, k: int, i: int)
    requires
        0 <= k <= i <= t.len(),
    ensures
        object_body(t, i) == moved(object_body(t.skip(k), i - k), k),
    decreases t.len() - i, 1nat,
{
    let u = t.skip(k);
    if i < t.len() {
        assert(u[i - k] == t[i]);
        let field = object_field(t, i);
        if t[i] == QUOTE {
            lemma_quoted_bounds(t, i);
            lemma_quoted_slides(t, k, i);
        } else if t[i] == OPEN {
            lemma_object_bounds(t, i);
            lemma_object_slides(t, k, i);
        } else if t[i] == CR {
        } else {
            lemma_raw_bounds(t, i);
            lemma_raw_slides(t, k, i);
        }
        assert(field == moved(object_field(u, i - k), k));
        if field.result is Ok && i < field.pos <= t.len() {
            assert(u[field.pos - 1 - k] == t[field.pos - 1]);
            if t[field.pos - 1] != CLOSE {
                lemma_object_body_slides(t, k, field.pos);
            }
        }
    }
}

/// Decoding an object follows the window when bytes are dropped in front.
pub proof fn lemma_object_slides(t: Seq<u8>, k: int, pos: int)
    requires
        0 <= k <= pos <= t.len(),
    ensures
        scan_object(t, pos) == moved(scan_object(t.skip(k), pos - k), k),
    decreases t.len() - pos, 0nat,
{
    let u = t.skip(k);
    lemma_find_either(t, pos, OPEN, OPEN);
    lemma_find_slides(t, k, pos, OPEN, OPEN);
    let open = find_byte(t, pos, OPEN);
    if open < t.len() {
        let body = object_body(t, open + 1);
        lemma_object_body_bounds(t, open + 1);
        lemma_object_body_slides(t, k, open + 1);
        if body.result is Ok {
            let tail = object_tail(t, body.pos);
            lemma_object_tail_slides(t, k, body.pos);
            if tail.result is Ok {
                lemma_range_slides(t, k, open, tail.pos - 1);
            }
        }
    }
}

/// Decoding an identifier follows the window when bytes are dropped in
/// front.
pub proof fn lemma_uuid_slides(t: Seq<u8>, k: int, pos: int)
    requires
        0 <= k <= pos <= t.len(),
    ensures
        scan_uuid(t, pos) == moved(scan_uuid(t.skip(k), pos - k), k),
{
    lemma_raw_slides(t, k, pos);
}

/// The fourteen digits of a timestamp read the same when bytes are dropped
/// in front.
pub proof fn lemma_timestamp_at_slides(t: Seq<u8>, k: int, pos: int)
    requires
        0 <= k <= pos,
        pos + 14 <= t.len(),
    ensures
        timestamp_at(t, pos) == timestamp_at(t.skip(k), pos - k),
{
    let u = t.skip(k);
    assert forall|j: int| pos <= j < pos + 14 implies u[j - k] == t[j] by {}
    assert(two_digits(t, pos) == two_digits(u, pos - k));
    assert(two_digits(t, pos + 2) == two_digits(u, pos - k + 2));
    assert(two_digits(t, pos + 4) == two_digits(u, pos - k + 4));
    assert(two_digits(t, pos + 6) == two_digits(u, pos - k + 6));
    assert(two_digits(t, pos + 8) == two_digits(u, pos - k + 8));
    assert(two_digits(t, pos + 10) == two_digits(u, pos - k + 10));
    assert(two_digits(t, pos + 12) == two_digits(u, pos - k + 12));
}

/// Decoding a field follows the window when bytes are dropped in front.
pub proof fn lemma_field_slides(kind: FieldKind, t: Seq<u8>, k: int, pos: int)
    requires
        0 <= k <= pos <= t.len(),
    ensures
        scan_field(kind, t, pos) == moved(scan_field(kind, t.skip(k), pos - k), k),
{
    let u = t.skip(k);
    match kind {
        FieldKind::Timestamp => {
            if pos + 15 <= t.len() {
                lemma_timestamp_at_slides(t, k, pos);
            }
        },
        FieldKind::Status => {
            if pos < t.len() {
                assert(u[pos - k] == t[pos]);
            }
        },
        FieldKind::Level => {
            if pos < t.len() {
                assert(u[pos - k] == t[pos]);
            }
        },
        FieldKind::Number => {
            lemma_number_slides(t, k, pos);
        },
        FieldKind::Uuid => {
            lemma_uuid_slides(t, k, pos);
        },
        FieldKind::Text => {
            lemma_quoted_slides(t, k, pos);
        },
        FieldKind::Object => {
            lemma_object_slides(t, k, pos);
        },
    }
}

/// Decoding a run of fields follows the window when bytes are dropped in
/// front.
pub proof fn lemma_fields_slide(
    t: Seq<u8>,
    k: int,
    pos: int,
    kinds: Seq<FieldKind>,
    j: int,
    acc: Seq<FieldValue>,
)
    requires
        0 <= k <= pos <= t.len(),
    ensures
        scan_fields(t, pos, kinds, j, acc) == moved(
            scan_fields(t.skip(k), pos - k, kinds, j, acc),
            k,
        ),
    decreases kinds.len() - j,
{
    reveal(scan_fields);
    if 0 <= j < kinds.len() {
        let r = scan_field(kinds[j], t, pos);
        crate::schema::lemma_field_bounds(kinds[j], t, pos);
        lemma_field_slides(kinds[j], t, k, pos);
        if let Ok(v) = r.result {
            lemma_fields_slide(t, k, r.pos, kinds, j + 1, acc.push(v));
        }
    }
}

} // verus!
