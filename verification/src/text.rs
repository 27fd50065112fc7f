//! From field bytes to text: quote unescaping and UTF-8 decoding.

use crate::grammar::{
    find_byte, is_terminator, lemma_find_either, lemma_quoted_close_bounds, quoted_close,
    scan_quoted, Quoted, QUOTE,
};
use std::borrow::Cow;
use vstd::prelude::*;
use vstd::string::StringSliceAdditionalSpecFns;
use vstd::utf8::{
    decode_utf8, encode_utf8, encode_utf8_decode_utf8, encode_utf8_valid_utf8, is_ascii_chars,
    is_ascii_chars_encode_utf8, valid_utf8,
};

verus! {

/// True when two quotes stand side by side somewhere in `s`.
pub open spec fn has_doubled_quote(s: Seq<u8>) -> bool {
    exists|i: int| 0 <= i && i + 1 < s.len() && #[trigger] s[i] == QUOTE && s[i + 1] == QUOTE
}

/// `s` with every doubled quote collapsed to a single one, pairs taken from
/// the left.
pub open spec fn collapse_quotes(s: Seq<u8>) -> Seq<u8>
    decreases s.len(),
{
    if s.len() == 0 {
        s
    } else if s.len() >= 2 && s[0] == QUOTE && s[1] == QUOTE {
        seq![QUOTE] + collapse_quotes(s.skip(2))
    } else {
        seq![s[0]] + collapse_quotes(s.skip(1))
    }
}

/// Unescaping leaves text without doubled quotes exactly as it is.
pub proof fn lemma_collapse_plain(s: Seq<u8>)
    requires
        !has_doubled_quote(s),
    ensures
        collapse_quotes(s) == s,
    decreases s.len(),
{
    if s.len() > 0 {
        if s.len() >= 2 && s[0] == QUOTE {
            assert(s[1] != QUOTE);
        }
        let rest = s.skip(1);
        if has_doubled_quote(rest) {
            let i = choose|i: int|
                0 <= i && i + 1 < rest.len() && #[trigger] rest[i] == QUOTE && rest[i + 1] == QUOTE;
            assert(s[i + 1] == QUOTE && s[i + 2] == QUOTE);
        }
        lemma_collapse_plain(rest);
        assert(seq![s[0]] + rest == s);
    }
}

/// True when two quotes stand side by side in `s` at offsets `i` and
/// `i + 1`, with `from <= i` and `i + 1 < to`.
pub open spec fn has_pair_within(s: Seq<u8>, from: int, to: int) -> bool {
    exists|i: int| from <= i && i + 1 < to && #[trigger] s[i] == QUOTE && s[i + 1] == QUOTE
}

/// The flag that the search for the closing quote arrives at tells whether
/// the content scanned so far holds a doubled quote.
proof fn lemma_quoted_close_flag(s: Seq<u8>, start: int, from: int, doubled: bool)
    requires
        0 <= start <= from <= s.len(),
        doubled <==> has_pair_within(s, start, from),
        from > start && s[from - 1] == QUOTE ==> doubled,
    ensures
        quoted_close(s, from, doubled).result matches Ok((q, flag)) ==> (flag <==> has_pair_within(
            s,
            start,
            q,
        )),
    decreases s.len() - from,
{
    lemma_find_either(s, from, QUOTE, QUOTE);
    let q = find_byte(s, from, QUOTE);
    if q < s.len() && q + 1 < s.len() {
        if is_terminator(s[q + 1]) {
            if has_pair_within(s, start, q) {
                let i = choose|i: int|
                    start <= i && i + 1 < q && #[trigger] s[i] == QUOTE && s[i + 1] == QUOTE;
                if i + 1 >= from {
                    assert(s[i + 1] != QUOTE);
                }
                assert(has_pair_within(s, start, from));
            }
            if doubled {
                let i = choose|i: int|
                    start <= i && i + 1 < from && #[trigger] s[i] == QUOTE && s[i + 1] == QUOTE;
                assert(has_pair_within(s, start, q));
            }
        } else {
            let next = doubled || s[q + 1] == QUOTE;
            if has_pair_within(s, start, q + 2) {
                let i = choose|i: int|
                    start <= i && i + 1 < q + 2 && #[trigger] s[i] == QUOTE && s[i + 1] == QUOTE;
                if i + 1 < from {
                    assert(has_pair_within(s, start, from));
                } else if i + 1 < q {
                    assert(s[i + 1] != QUOTE);
                } else if i + 1 == q {
                    if i >= from {
                        assert(s[i] != QUOTE);
                    }
                }
                assert(next);
            }
            if next {
                if doubled {
                    let i = choose|i: int|
                        start <= i && i + 1 < from && #[trigger] s[i] == QUOTE && s[i + 1]
                            == QUOTE;
                    assert(has_pair_within(s, start, q + 2));
                } else {
                    assert(s[q] == QUOTE && s[q + 1] == QUOTE);
                    assert(has_pair_within(s, start, q + 2));
                }
            }
            lemma_quoted_close_flag(s, start, q + 2, next);
        }
    }
}

/// A decoded quoted string carries the flag exactly when its content holds a
/// doubled quote.
pub proof fn lemma_quoted_flag(s: Seq<u8>, pos: int)
    requires
        0 <= pos <= s.len(),
    ensures
        scan_quoted(s, pos).result matches Ok(q) ==> (q.doubled <==> has_doubled_quote(q.content)),
{
    if pos < s.len() && s[pos] == QUOTE {
        assert(!has_pair_within(s, pos + 1, pos + 1));
        lemma_quoted_close_flag(s, pos + 1, pos + 1, false);
        lemma_quoted_close_bounds(s, pos + 1, false);
        if let Ok((q, flag)) = quoted_close(s, pos + 1, false).result {
            let content = s.subrange(pos + 1, q);
            if has_pair_within(s, pos + 1, q) {
                let i = choose|i: int|
                    pos + 1 <= i && i + 1 < q && #[trigger] s[i] == QUOTE && s[i + 1] == QUOTE;
                assert(content[i - pos - 1] == QUOTE && content[i - pos - 1 + 1] == QUOTE);
                assert(has_doubled_quote(content));
            }
            if has_doubled_quote(content) {
                let i = choose|i: int|
                    0 <= i && i + 1 < content.len() && #[trigger] content[i] == QUOTE && content[i
                        + 1] == QUOTE;
                assert(s[i + pos + 1] == QUOTE && s[i + pos + 1 + 1] == QUOTE);
                assert(has_pair_within(s, pos + 1, q));
            }
        }
    }
}

/// Collapses every doubled quote of `bytes` into a single one.
pub fn unescape_quotes(bytes: &[u8]) -> (out: Vec<u8>)
    ensures
        out@ == collapse_quotes(bytes@),
{
    let mut out: Vec<u8> = Vec::new();
    let mut i: usize = 0;
    proof {
        assert(bytes@.skip(0) == bytes@);
        assert(out@ + collapse_quotes(bytes@) == collapse_quotes(bytes@));
    }
    while i < bytes.len()
        invariant
            i <= bytes.len(),
            out@ + collapse_quotes(bytes@.skip(i as int)) == collapse_quotes(bytes@),
        decreases bytes.len() - i,
    {
        let ghost rest = bytes@.skip(i as int);
        let ghost before = out@;
        if bytes[i] == QUOTE && i + 1 < bytes.len() && bytes[i + 1] == QUOTE {
            out.push(QUOTE);
            i = i + 2;
            proof {
                assert(rest.skip(2) == bytes@.skip(i as int));
                assert(out@ + collapse_quotes(bytes@.skip(i as int)) == before + (seq![QUOTE]
                    + collapse_quotes(rest.skip(2))));
            }
        } else {
            out.push(bytes[i]);
            i = i + 1;
            proof {
                assert(rest.skip(1) == bytes@.skip(i as int));
                assert(out@ + collapse_quotes(bytes@.skip(i as int)) == before + (seq![rest[0]]
                    + collapse_quotes(rest.skip(1))));
            }
        }
    }
    proof {
        assert(bytes@.skip(i as int).len() == 0);
        assert(out@ + collapse_quotes(bytes@.skip(i as int)) == out@);
    }
    out
}

/// The text that lossy UTF-8 decoding makes of `bytes`: valid sequences
/// decoded, each invalid one replaced by U+FFFD.
pub uninterp spec fn lossy_text(bytes: Seq<u8>) -> Seq<char>;

/// The text that `bytes` decode to: what they encode where they are valid
/// UTF-8, and the lossy decoding otherwise.
pub open spec fn decoded_text(bytes: Seq<u8>) -> Seq<char> {
    if valid_utf8(bytes) {
        decode_utf8(bytes)
    } else {
        lossy_text(bytes)
    }
}

/// The characters that ASCII bytes spell, one for each byte.
pub open spec fn ascii_text(bytes: Seq<u8>) -> Seq<char> {
    Seq::new(bytes.len(), |i: int| bytes[i] as char)
}

/// ASCII bytes decode to themselves, character for byte.
pub proof fn lemma_ascii_text(bytes: Seq<u8>)
    requires
        forall|i: int| 0 <= i < bytes.len() ==> bytes[i] < 128,
    ensures
        valid_utf8(bytes),
        decoded_text(bytes) == ascii_text(bytes),
{
    let chars = ascii_text(bytes);
    assert forall|i: int| 0 <= i < chars.len() implies (chars[i] as u32) < 128 by {
        assert(chars[i] == bytes[i] as char);
    }
    assert(is_ascii_chars(chars));
    is_ascii_chars_encode_utf8(chars);
    assert(encode_utf8(chars) =~= bytes) by {
        assert forall|i: int| 0 <= i < bytes.len() implies chars[i] as u8 == bytes[i] by {
            assert(chars[i] == bytes[i] as char);
        }
    }
    encode_utf8_valid_utf8(chars);
    encode_utf8_decode_utf8(chars);
}

/// The text a quoted string stands for: doubled quotes collapsed when the
/// flag says there are any, then decoded as UTF-8.
pub open spec fn quoted_text(q: Quoted) -> Seq<char> {
    if q.doubled {
        decoded_text(collapse_quotes(q.content))
    } else {
        decoded_text(q.content)
    }
}

/// A quoted field without doubled quotes stands for its content as it is:
/// the flag is off, unescaping would change nothing, and the text is the
/// decoding of the very bytes between the quotes.
pub proof fn lemma_plain_field_unmodified(s: Seq<u8>, pos: int)
    requires
        0 <= pos <= s.len(),
    ensures
        scan_quoted(s, pos).result matches Ok(q) ==> (!has_doubled_quote(q.content) ==> {
            &&& !q.doubled
            &&& collapse_quotes(q.content) == q.content
            &&& quoted_text(q) == decoded_text(q.content)
        }),
{
    lemma_quoted_flag(s, pos);
    if let Ok(q) = scan_quoted(s, pos).result {
        if !has_doubled_quote(q.content) {
            lemma_collapse_plain(q.content);
        }
    }
}

/// `String::from_utf8_lossy`: the result is a function of the bytes alone,
/// and for valid UTF-8 it is the text those bytes encode.
#[verifier::external_body]
pub(crate) fn decode_lossy<'a>(bytes: &'a [u8]) -> (text: Cow<'a, str>)
    ensures
        text@ == lossy_text(bytes@),
        valid_utf8(bytes@) ==> text@ == decode_utf8(bytes@),
{
    String::from_utf8_lossy(bytes)
}

/// `std::str::from_utf8`: succeeds exactly on valid UTF-8, and the string
/// slice it returns is made of the very bytes given.
#[verifier::external_body]
pub(crate) fn checked_utf8<'a>(bytes: &'a [u8]) -> (text: Option<&'a str>)
    ensures
        text.is_some() == valid_utf8(bytes@),
        text matches Some(t) ==> t.spec_bytes() == bytes@,
{
    std::str::from_utf8(bytes).ok()
}

/// The text as an owned string.
pub fn into_string(text: Cow<'_, str>) -> (owned: String)
    ensures
        owned@ == text@,
{
    match text {
        Cow::Borrowed(b) => b.to_owned(),
        Cow::Owned(o) => o,
    }
}

/// Lossy decoding into an owned string.
pub fn decode_owned(bytes: &[u8]) -> (text: String)
    ensures
        text@ == decoded_text(bytes@),
{
    into_string(decode_lossy(bytes))
}

} // verus!
