//! The cursor and the field decoders built on it.
//!
//! A [`Parser`] is a forward-only cursor over a borrowed byte window. It owns
//! nothing: every slice it hands out borrows from the window itself.

use crate::grammar::{
    done, field_end, find_byte, find_either, folded_number, lemma_find_either,
    lemma_find_either_at, lemma_find_either_none, lemma_object_body_bounds,
    lemma_object_bounds, lemma_quoted_bounds,
    lemma_raw_bounds, object_body, object_field, quoted_close, scan_number, scan_object,
    scan_quoted, scan_raw, Quoted, Step, CLOSE, COMMA, CR, OPEN, QUOTE, ZERO,
};
use crate::ident::{hyphenated_bits, is_hyphenated, scan_uuid};
use crate::text::{checked_utf8, decode_lossy, decode_owned, quoted_text, unescape_quotes};
use std::borrow::Cow;
use vstd::prelude::*;
use vstd::slice::slice_subrange;
use vstd::string::StringSliceAdditionalSpecFns;

verus! {

/// The two ways a scan can stop short of a value.
#[derive(Debug, PartialEq, Eq, Clone, Copy, Structural)]
pub enum ParseError {
    /// The window ran out: more bytes are needed.
    End,
    /// The bytes present do not match the grammar.
    InvalidFormat,
}

/// A decoded value, or the reason there is none.
pub type ParseResult<T> = Result<T, ParseError>;

/// A quoted string as it stands in the window: the bytes between the quotes,
/// still escaped, and whether any quote in them is doubled.
pub struct LogStr<'a> {
    str: &'a [u8],
    need_replace_quotes: bool,
}

impl<'a> View for LogStr<'a> {
    type V = Quoted;

    closed spec fn view(&self) -> Quoted {
        Quoted { content: self.str@, doubled: self.need_replace_quotes }
    }
}

impl<'a> LogStr<'a> {
    /// Wraps the content of a quoted string.
    pub fn new(str: &'a [u8], need_replace_quotes: bool) -> (s: LogStr<'a>)
        ensures
            s@ == (Quoted { content: str@, doubled: need_replace_quotes }),
    {
        LogStr { str, need_replace_quotes }
    }

    /// The decoded text. Borrowed from the window where no unescaping is
    /// needed and the bytes are valid UTF-8.
    pub fn str(&self) -> (text: Cow<'a, str>)
        ensures
            text@ == quoted_text(self@),
    {
        if self.need_replace_quotes {
            let plain = unescape_quotes(self.str);
            Cow::Owned(decode_owned(plain.as_slice()))
        } else {
            decode_lossy(self.str)
        }
    }
}

/// True when `i` is the first offset of `haystack` holding `a` or `b`.
pub open spec fn first_of(haystack: Seq<u8>, a: u8, b: u8, i: int) -> bool {
    &&& 0 <= i < haystack.len()
    &&& (haystack[i] == a || haystack[i] == b)
    &&& forall|j: int| 0 <= j < i ==> haystack[j] != a && haystack[j] != b
}

/// True when neither `a` nor `b` occurs in `haystack`.
pub open spec fn none_of(haystack: Seq<u8>, a: u8, b: u8) -> bool {
    forall|j: int| 0 <= j < haystack.len() ==> haystack[j] != a && haystack[j] != b
}

/// `memchr::memchr` returns the offset of the first occurrence of `needle`
/// in `haystack`, and `None` exactly when the byte does not occur.
pub assume_specification[ memchr::memchr ](needle: u8, haystack: &[u8]) -> (found: Option<usize>)
    ensures
        match found {
            Some(i) => first_of(haystack@, needle, needle, i as int),
            None => none_of(haystack@, needle, needle),
        },
;

/// `memchr::memchr2` returns the offset of the first occurrence of either
/// needle in `haystack`, and `None` exactly when neither byte occurs.
pub assume_specification[ memchr::memchr2 ](needle1: u8, needle2: u8, haystack: &[u8]) -> (found:
    Option<usize>)
    ensures
        match found {
            Some(i) => first_of(haystack@, needle1, needle2, i as int),
            None => none_of(haystack@, needle1, needle2),
        },
;

/// A forward-only cursor over an immutable byte window.
pub struct Parser<'a> {
    buffer: &'a [u8],
    pos: usize,
}

impl<'a> Parser<'a> {
    /// The bytes the cursor runs over.
    pub closed spec fn window(&self) -> Seq<u8> {
        self.buffer@
    }

    /// Offset of the next unconsumed byte.
    pub closed spec fn cursor(&self) -> int {
        self.pos as int
    }

    /// The cursor never leaves the window.
    #[verifier::type_invariant]
    pub open spec fn in_bounds(&self) -> bool {
        0 <= self.cursor() <= self.window().len()
    }

    /// True when `self` is `before` moved to the end of `step`.
    pub open spec fn follows<T>(&self, before: &Self, step: Step<T>) -> bool {
        &&& self.window() == before.window()
        &&& self.cursor() == step.pos
    }

    /// A cursor at the start of `buffer`.
    pub fn new(buffer: &'a [u8]) -> (parser: Parser<'a>)
        ensures
            parser.window() == buffer@,
            parser.cursor() == 0,
    {
        Parser { buffer, pos: 0 }
    }

    /// Offset of the cursor from the start of the window.
    pub fn position(&self) -> (offset: usize)
        ensures
            offset == self.cursor(),
            offset <= self.window().len(),
    {
        proof {
            use_type_invariant(self);
        }
        self.pos
    }

    /// Consumes and returns the next byte; `End` at the end of the window,
    /// where the cursor stays.
    pub fn next(&mut self) -> (r: ParseResult<u8>)
        ensures
            final(self).window() == old(self).window(),
            old(self).cursor() < old(self).window().len() ==> r == Ok::<u8, ParseError>(
                old(self).window()[old(self).cursor()],
            ) && final(self).cursor() == old(self).cursor() + 1,
            old(self).cursor() >= old(self).window().len() ==> r == Err::<u8, ParseError>(
                ParseError::End,
            ) && final(self).cursor() == old(self).cursor(),
    {
        proof {
            use_type_invariant(&*self);
        }
        if self.pos == self.buffer.len() {
            Err(ParseError::End)
        } else {
            let v: u8 = self.buffer[self.pos];
            self.pos = self.pos + 1;
            Ok(v)
        }
    }

    /// Returns the next byte without consuming it; `End` at the end of the window.
    pub fn peek(&self) -> (r: ParseResult<u8>)
        ensures
            self.cursor() < self.window().len() ==> r == Ok::<u8, ParseError>(
                self.window()[self.cursor()],
            ),
            self.cursor() >= self.window().len() ==> r == Err::<u8, ParseError>(ParseError::End),
    {
        proof {
            use_type_invariant(self);
        }
        if self.pos == self.buffer.len() {
            Err(ParseError::End)
        } else {
            let v: u8 = self.buffer[self.pos];
            Ok(v)
        }
    }

    /// Advances by `count` bytes, or leaves the cursor alone and returns
    /// `None` when fewer than `count` bytes remain.
    pub fn skip(&mut self, count: usize) -> (r: Option<()>)
        ensures
            final(self).window() == old(self).window(),
            r.is_some() <==> old(self).cursor() + count <= old(self).window().len(),
            r.is_some() ==> final(self).cursor() == old(self).cursor() + count,
            r.is_none() ==> final(self).cursor() == old(self).cursor(),
    {
        proof {
            use_type_invariant(&*self);
        }
        if count > self.buffer.len() - self.pos {
            None
        } else {
            self.pos = self.pos + count;
            Some(())
        }
    }

    /// Advances past the first occurrence of `ch`, or leaves the cursor alone
    /// and returns `None` when `ch` does not occur in the rest of the window.
    pub fn skip_to(&mut self, ch: u8) -> (r: Option<()>)
        ensures
            final(self).window() == old(self).window(),
            r.is_some() <==> find_byte(old(self).window(), old(self).cursor(), ch) < old(
                self,
            ).window().len(),
            r.is_some() ==> final(self).cursor() == find_byte(
                old(self).window(),
                old(self).cursor(),
                ch,
            ) + 1,
            r.is_none() ==> final(self).cursor() == old(self).cursor(),
    {
        proof {
            use_type_invariant(&*self);
        }
        let rest = slice_subrange(self.buffer, self.pos, self.buffer.len());
        match memchr::memchr(ch, rest) {
            Some(i) => {
                proof {
                    assert forall|j: int| self.pos <= j < self.pos + i implies self.buffer@[j]
                        != ch by {
                        assert(rest@[j - self.pos] == self.buffer@[j]);
                    }
                    assert(rest@[i as int] == self.buffer@[self.pos + i]);
                    lemma_find_either_at(self.buffer@, self.pos as int, ch, ch, self.pos + i);
                }
                self.skip(i + 1)
            },
            None => {
                proof {
                    assert forall|j: int| self.pos <= j < self.buffer@.len() implies self.buffer@[j]
                        != ch by {
                        assert(rest@[j - self.pos] == self.buffer@[j]);
                    }
                    lemma_find_either_none(self.buffer@, self.pos as int, ch, ch);
                }
                None
            },
        }
    }

    /// Advances past the first occurrence of `ch1` or `ch2`, or leaves the
    /// cursor alone and returns `None` when neither occurs in the rest of the
    /// window.
    pub fn skip_to2(&mut self, ch1: u8, ch2: u8) -> (r: Option<()>)
        ensures
            final(self).window() == old(self).window(),
            r.is_some() <==> find_either(old(self).window(), old(self).cursor(), ch1, ch2) < old(
                self,
            ).window().len(),
            r.is_some() ==> final(self).cursor() == find_either(
                old(self).window(),
                old(self).cursor(),
                ch1,
                ch2,
            ) + 1,
            r.is_none() ==> final(self).cursor() == old(self).cursor(),
    {
        proof {
            use_type_invariant(&*self);
        }
        let rest = slice_subrange(self.buffer, self.pos, self.buffer.len());
        match memchr::memchr2(ch1, ch2, rest) {
            Some(i) => {
                proof {
                    assert forall|j: int| self.pos <= j < self.pos + i implies self.buffer@[j]
                        != ch1 && self.buffer@[j] != ch2 by {
                        assert(rest@[j - self.pos] == self.buffer@[j]);
                    }
                    assert(rest@[i as int] == self.buffer@[self.pos + i]);
                    lemma_find_either_at(self.buffer@, self.pos as int, ch1, ch2, self.pos + i);
                }
                self.skip(i + 1)
            },
            None => {
                proof {
                    assert forall|j: int| self.pos <= j < self.buffer@.len() implies self.buffer@[j]
                        != ch1 && self.buffer@[j] != ch2 by {
                        assert(rest@[j - self.pos] == self.buffer@[j]);
                    }
                    lemma_find_either_none(self.buffer@, self.pos as int, ch1, ch2);
                }
                None
            },
        }
    }

    /// Consumes bytes up to and including the first occurrence of `ch`.
    /// Without one the whole window is consumed and the result is `End`.
    pub fn seek(&mut self, ch: u8) -> (r: ParseResult<()>)
        ensures
            final(self).window() == old(self).window(),
            r is Ok <==> find_byte(old(self).window(), old(self).cursor(), ch) < old(
                self,
            ).window().len(),
            r is Ok ==> final(self).cursor() == find_byte(
                old(self).window(),
                old(self).cursor(),
                ch,
            ) + 1,
            r is Err ==> r == Err::<(), ParseError>(ParseError::End) && final(self).cursor() == old(
                self,
            ).window().len(),
    {
        proof {
            use_type_invariant(&*self);
        }
        let ghost s = self.buffer@;
        let ghost start = self.pos as int;
        loop
            invariant_except_break
                start <= self.pos <= s.len(),
                find_byte(s, start, ch) == find_byte(s, self.pos as int, ch),
            invariant
                self.buffer@ == s,
                s == old(self).window(),
                start == old(self).cursor(),
            ensures
                start < self.pos <= s.len(),
                find_byte(s, start, ch) == self.pos - 1,
            decreases s.len() - self.pos,
        {
            proof {
                lemma_find_either_none(s, s.len() as int, ch, ch);
            }
            let b = self.next()?;
            if b == ch {
                break ;
            }
        }
        Ok(())
    }

    /// The byte consumed last. Defined only once the cursor has moved.
    pub fn current(&self) -> (b: u8)
        requires
            self.cursor() > 0,
        ensures
            b == self.window()[self.cursor() - 1],
    {
        proof {
            use_type_invariant(self);
        }
        self.buffer[self.pos - 1]
    }

    /// Decodes an unsigned integer field.
    pub fn parse_usize(&mut self) -> (r: ParseResult<usize>)
        ensures
            final(self).follows(old(self), scan_number(old(self).window(), old(self).cursor())),
            r == scan_number(old(self).window(), old(self).cursor()).result,
    {
        proof {
            use_type_invariant(&*self);
        }
        let ghost s = self.buffer@;
        let ghost start = self.pos as int;
        let mut number: usize = 0;
        loop
            invariant_except_break
                0 <= start <= self.pos <= s.len(),
                number == folded_number(s.subrange(start, self.pos as int)),
                field_end(s, start) == field_end(s, self.pos as int),
            invariant
                self.buffer@ == s,
                s == old(self).window(),
                start == old(self).cursor(),
            ensures
                self.buffer@ == s,
                0 <= start < self.pos <= s.len(),
                field_end(s, start) == self.pos - 1,
                number == folded_number(s.subrange(start, self.pos - 1)),
            decreases s.len() - self.pos,
        {
            proof {
                lemma_find_either_none(s, s.len() as int, COMMA, CLOSE);
            }
            let next = self.next()?;
            if next == COMMA || next == CLOSE {
                break ;
            }
            proof {
                assert(s.subrange(start, self.pos as int).drop_last() == s.subrange(
                    start,
                    self.pos - 1,
                ));
            }
            number = number.wrapping_mul(10).wrapping_add(next.wrapping_sub(ZERO) as usize);
        }
        Ok(number)
    }

    /// Decodes a raw field: the bytes before the next terminator.
    pub fn parse_raw(&mut self) -> (r: ParseResult<&'a [u8]>)
        ensures
            final(self).follows(old(self), scan_raw(old(self).window(), old(self).cursor())),
            match r {
                Ok(raw) => scan_raw(old(self).window(), old(self).cursor()).result == Ok::<
                    Seq<u8>,
                    ParseError,
                >(raw@),
                Err(e) => scan_raw(old(self).window(), old(self).cursor()).result == Err::<
                    Seq<u8>,
                    ParseError,
                >(e),
            },
    {
        proof {
            use_type_invariant(&*self);
            lemma_find_either(self.buffer@, self.pos as int, COMMA, CLOSE);
        }
        let start = self.pos;
        match self.skip_to2(COMMA, CLOSE) {
            None => Err(ParseError::End),
            Some(_) => Ok(slice_subrange(self.buffer, start, self.pos - 1)),
        }
    }

    /// Decodes an identifier field: a raw field that must be 36 hyphenated
    /// hexadecimal characters.
    pub fn parse_uuid(&mut self) -> (r: ParseResult<u128>)
        ensures
            final(self).follows(old(self), scan_uuid(old(self).window(), old(self).cursor())),
            r == scan_uuid(old(self).window(), old(self).cursor()).result,
    {
        let raw = self.parse_raw()?;
        if !is_hyphenated(raw) {
            return Err(ParseError::InvalidFormat);
        }
        match hyphenated_bits(raw) {
            Some(bits) => Ok(bits),
            None => Err(ParseError::InvalidFormat),
        }
    }

    /// Decodes a quoted string field.
    pub fn parse_str(&mut self) -> (r: ParseResult<LogStr<'a>>)
        ensures
            final(self).follows(old(self), scan_quoted(old(self).window(), old(self).cursor())),
            match r {
                Ok(text) => scan_quoted(old(self).window(), old(self).cursor()).result == Ok::<
                    Quoted,
                    ParseError,
                >(text@),
                Err(e) => scan_quoted(old(self).window(), old(self).cursor()).result == Err::<
                    Quoted,
                    ParseError,
                >(e),
            },
    {
        proof {
            use_type_invariant(&*self);
        }
        let ghost s = self.buffer@;
        let ch = self.next()?;
        if ch != QUOTE {
            return Err(ParseError::InvalidFormat);
        }
        let start = self.pos;
        let mut need_replace_quotes = false;
        loop
            invariant_except_break
                quoted_close(s, start as int, false) == quoted_close(
                    s,
                    self.pos as int,
                    need_replace_quotes,
                ),
            invariant
                self.buffer@ == s,
                s == old(self).window(),
                start == old(self).cursor() + 1,
                start <= self.pos <= s.len(),
                s[start - 1] == QUOTE,
            ensures
                start + 2 <= self.pos <= s.len(),
                quoted_close(s, start as int, false) == done(
                    (self.pos - 2, need_replace_quotes),
                    self.pos as int,
                ),
            decreases s.len() - self.pos,
        {
            proof {
                lemma_find_either(s, self.pos as int, QUOTE, QUOTE);
            }
            match self.skip_to(QUOTE) {
                None => {
                    return Err(ParseError::End);
                },
                Some(_) => {},
            }
            let next = self.next()?;
            if next == COMMA || next == CLOSE {
                break ;
            } else if next == QUOTE {
                need_replace_quotes = true;
            }
        }
        let content = slice_subrange(self.buffer, start, self.pos - 2);
        Ok(LogStr::new(content, need_replace_quotes))
    }

    /// Scans the fields of an object from the cursor on, up to and including
    /// the brace that closes it. Each field is told by its first byte: a
    /// quoted string, a nested object, a line break or a raw token.
    pub fn skip_fields(&mut self) -> (r: ParseResult<()>)
        ensures
            final(self).follows(old(self), object_body(old(self).window(), old(self).cursor())),
            r == object_body(old(self).window(), old(self).cursor()).result,
        decreases old(self).window().len() - old(self).cursor(), 1nat,
    {
        proof {
            use_type_invariant(&*self);
        }
        let ghost s = self.buffer@;
        let ghost start = self.pos as int;
        let mut end_of_record = false;
        while !end_of_record
            invariant
                self.buffer@ == s,
                s == old(self).window(),
                start == old(self).cursor(),
                0 <= start <= self.pos <= s.len(),
                end_of_record ==> object_body(s, start) == done((), self.pos as int),
                !end_of_record ==> object_body(s, start) == object_body(s, self.pos as int),
            decreases s.len() - self.pos, (if end_of_record { 0nat } else { 1nat }),
        {
            proof {
                let field = object_field(s, self.pos as int);
                lemma_quoted_bounds(s, self.pos as int);
                lemma_object_bounds(s, self.pos as int);
                lemma_raw_bounds(s, self.pos as int);
            }
            let peek = self.peek()?;
            if peek == QUOTE {
                self.parse_str()?;
            } else if peek == OPEN {
                self.parse_object()?;
            } else if peek == CR {
                match self.skip(2) {
                    None => {
                        return Err(ParseError::End);
                    },
                    Some(_) => {},
                }
            } else {
                self.parse_raw()?;
            }
            proof {
                use_type_invariant(&*self);
            }
            end_of_record = self.current() == CLOSE;
        }
        Ok(())
    }

    /// Decodes an object field: skips to the next `{`, scans the object to
    /// its end and returns its text, braces included.
    pub fn parse_object(&mut self) -> (r: ParseResult<&'a str>)
        ensures
            final(self).follows(old(self), scan_object(old(self).window(), old(self).cursor())),
            match r {
                Ok(text) => scan_object(old(self).window(), old(self).cursor()).result == Ok::<
                    Seq<u8>,
                    ParseError,
                >(text.spec_bytes()),
                Err(e) => scan_object(old(self).window(), old(self).cursor()).result == Err::<
                    Seq<u8>,
                    ParseError,
                >(e),
            },
        decreases old(self).window().len() - old(self).cursor(), 0nat,
    {
        proof {
            use_type_invariant(&*self);
        }
        let ghost s = self.buffer@;
        let ghost start = self.pos as int;
        proof {
            lemma_find_either(s, start, OPEN, OPEN);
        }
        self.seek(OPEN)?;
        proof {
            use_type_invariant(&*self);
            lemma_object_body_bounds(s, self.pos as int);
        }
        let open: usize = self.pos - 1;
        self.skip_fields()?;
        proof {
            use_type_invariant(&*self);
        }
        let mut last = self.next()?;
        if last == CR {
            match self.skip(1) {
                None => {
                    return Err(ParseError::End);
                },
                Some(_) => {},
            }
            last = self.next()?;
        }
        if last != COMMA && last != CLOSE {
            return Err(ParseError::InvalidFormat);
        }
        let bytes = slice_subrange(self.buffer, open, self.pos - 1);
        match checked_utf8(bytes) {
            Some(text) => Ok(text),
            None => Err(ParseError::InvalidFormat),
        }
    }
}

} // verus!
