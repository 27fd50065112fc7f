use event_log_parser::parser::{LogStr, ParseError, Parser};
use event_log_parser::ident::is_hyphenated;
use event_log_parser::text::{decode_owned, into_string, unescape_quotes};
use std::borrow::Cow;

#[test]
fn next_walks_the_window_and_then_reports_end() {
    let mut parser = Parser::new(b"ab");
    assert_eq!(parser.position(), 0);
    assert_eq!(parser.next(), Ok(b'a'));
    assert_eq!(parser.current(), b'a');
    assert_eq!(parser.next(), Ok(b'b'));
    assert_eq!(parser.current(), b'b');
    assert_eq!(parser.position(), 2);
    assert_eq!(parser.next(), Err(ParseError::End));
    assert_eq!(parser.position(), 2);
}

#[test]
fn peek_does_not_advance() {
    let mut parser = Parser::new(b"x");
    assert_eq!(parser.peek(), Ok(b'x'));
    assert_eq!(parser.position(), 0);
    assert_eq!(parser.next(), Ok(b'x'));
    assert_eq!(parser.peek(), Err(ParseError::End));
}

#[test]
fn skip_stops_at_the_end_of_the_window() {
    let mut parser = Parser::new(b"abcd");
    assert_eq!(parser.skip(3), Some(()));
    assert_eq!(parser.position(), 3);
    assert_eq!(parser.skip(2), None);
    assert_eq!(parser.position(), 3);
    assert_eq!(parser.skip(1), Some(()));
    assert_eq!(parser.position(), 4);
    assert_eq!(parser.skip(0), Some(()));
    assert_eq!(parser.skip(usize::MAX), None);
}

#[test]
fn skip_to_lands_after_the_first_occurrence() {
    let mut parser = Parser::new(b"ab;cd;ef");
    assert_eq!(parser.skip_to(b';'), Some(()));
    assert_eq!(parser.position(), 3);
    assert_eq!(parser.skip_to(b';'), Some(()));
    assert_eq!(parser.position(), 6);
    assert_eq!(parser.skip_to(b';'), None);
    assert_eq!(parser.position(), 6);
}

#[test]
fn skip_to2_lands_after_whichever_byte_comes_first() {
    let mut parser = Parser::new(b"the quick brown fox");
    assert_eq!(parser.skip_to2(b'k', b'q'), Some(()));
    assert_eq!(parser.position(), 5);
    assert_eq!(parser.skip_to2(b'k', b'q'), Some(()));
    assert_eq!(parser.position(), 9);
    assert_eq!(parser.skip_to2(b'k', b'q'), None);
    assert_eq!(parser.position(), 9);
}

#[test]
fn seek_consumes_everything_when_the_byte_is_absent() {
    let mut parser = Parser::new(b"  {x");
    assert_eq!(parser.seek(b'{'), Ok(()));
    assert_eq!(parser.position(), 3);
    assert_eq!(parser.seek(b'{'), Err(ParseError::End));
    assert_eq!(parser.position(), 4);
}

#[test]
fn number_consumes_its_terminator() {
    let mut parser = Parser::new(b"907}12,");
    assert_eq!(parser.parse_usize(), Ok(907));
    assert_eq!(parser.position(), 4);
    assert_eq!(parser.parse_usize(), Ok(12));
    assert_eq!(parser.position(), 7);
}

#[test]
fn empty_number_is_zero() {
    let mut parser = Parser::new(b",");
    assert_eq!(parser.parse_usize(), Ok(0));
}

#[test]
fn number_without_terminator_is_incomplete() {
    let mut parser = Parser::new(b"12345");
    assert_eq!(parser.parse_usize(), Err(ParseError::End));
    assert_eq!(parser.position(), 5);
}

#[test]
fn number_folds_any_byte_without_complaint() {
    // ':' is one past '9', so it counts as ten.
    let mut parser = Parser::new(b"1:,");
    assert_eq!(parser.parse_usize(), Ok(20));
    // '/' is one before '0': 255 after wrapping in a byte.
    let mut parser = Parser::new(b"/,");
    assert_eq!(parser.parse_usize(), Ok(255));
}

#[test]
fn number_wraps_on_overflow() {
    let mut parser = Parser::new(b"99999999999999999999999999,");
    let expected = "99999999999999999999999999"
        .bytes()
        .fold(0usize, |acc, b| acc.wrapping_mul(10).wrapping_add((b - b'0') as usize));
    assert_eq!(parser.parse_usize(), Ok(expected));
}

#[test]
fn raw_field_excludes_its_terminator() {
    let mut parser = Parser::new(b"abc}def,");
    assert_eq!(parser.parse_raw(), Ok(&b"abc"[..]));
    assert_eq!(parser.position(), 4);
    assert_eq!(parser.parse_raw(), Ok(&b"def"[..]));
    assert_eq!(parser.parse_raw(), Err(ParseError::End));
    assert_eq!(parser.position(), 8);
}

#[test]
fn raw_field_without_terminator_leaves_the_cursor() {
    let mut parser = Parser::new(b"abc");
    assert_eq!(parser.parse_raw(), Err(ParseError::End));
    assert_eq!(parser.position(), 0);
}

#[test]
fn uuid_value_is_what_its_digits_spell() {
    let mut parser = Parser::new(b"a1a2a3a4-b1b2-c1c2-d1d2-d3d4d5d6d7d8,");
    assert_eq!(parser.parse_uuid(), Ok(0xa1a2a3a4b1b2c1c2d1d2d3d4d5d6d7d8u128));
    assert_eq!(parser.position(), 37);
}

#[test]
fn uuid_accepts_upper_case() {
    let mut parser = Parser::new(b"F9168C5E-CEB2-4faa-B6BF-329BF39FA1E4}");
    assert_eq!(parser.parse_uuid(), Ok(0xF9168C5ECEB24faaB6BF329BF39FA1E4u128));
}

#[test]
fn uuid_must_be_hyphenated() {
    // 32 digits without hyphens.
    let mut parser = Parser::new(b"67e5504410b1426f9247bb680e5fe0c8,");
    assert_eq!(parser.parse_uuid(), Err(ParseError::InvalidFormat));
    assert_eq!(parser.position(), 33);
    // The prefixed form.
    let mut parser = Parser::new(b"urn:uuid:67e55044-10b1-426f-9247-bb680e5fe0c8,");
    assert_eq!(parser.parse_uuid(), Err(ParseError::InvalidFormat));
    // A hyphen out of place.
    let mut parser = Parser::new(b"67e550441-0b1-426f-9247-bb680e5fe0c8,");
    assert_eq!(parser.parse_uuid(), Err(ParseError::InvalidFormat));
    // A letter that is no digit.
    let mut parser = Parser::new(b"67e55044-10b1-426f-9247-bb680e5fe0cg,");
    assert_eq!(parser.parse_uuid(), Err(ParseError::InvalidFormat));
    // Too short.
    let mut parser = Parser::new(b"1,");
    assert_eq!(parser.parse_uuid(), Err(ParseError::InvalidFormat));
}

#[test]
fn uuid_without_terminator_is_incomplete() {
    let mut parser = Parser::new(b"67e55044-10b1-426f-9247-bb680e5fe0c8");
    assert_eq!(parser.parse_uuid(), Err(ParseError::End));
}

#[test]
fn quoted_string_must_start_with_a_quote() {
    let mut parser = Parser::new(b"abc\",");
    assert!(matches!(parser.parse_str(), Err(ParseError::InvalidFormat)));
    assert_eq!(parser.position(), 1);
}

#[test]
fn quoted_string_needs_its_closing_quote_and_terminator() {
    let mut parser = Parser::new(b"");
    assert!(matches!(parser.parse_str(), Err(ParseError::End)));
    let mut parser = Parser::new(b"\"abc");
    assert!(matches!(parser.parse_str(), Err(ParseError::End)));
    let mut parser = Parser::new(b"\"abc\"");
    assert!(matches!(parser.parse_str(), Err(ParseError::End)));
    // A doubled quote at the very end is an escaped quote, not the end.
    let mut parser = Parser::new(b"\"abc\"\",");
    assert!(matches!(parser.parse_str(), Err(ParseError::End)));
}

#[test]
fn quoted_string_without_doubled_quotes_is_borrowed_unmodified() {
    let buf = b"\"plain text\",rest";
    let mut parser = Parser::new(buf);
    let text = parser.parse_str().unwrap();
    assert_eq!(parser.position(), 13);
    match text.str() {
        Cow::Borrowed(s) => {
            assert_eq!(s, "plain text");
            assert_eq!(s.as_ptr(), buf[1..].as_ptr());
        }
        Cow::Owned(_) => panic!("a plain string needs no copy"),
    }
}

#[test]
fn quoted_string_keeps_commas_and_braces() {
    let mut parser = Parser::new(b"\"a,b}c\"}");
    assert_eq!(parser.parse_str().unwrap().str(), "a,b}c");
    assert_eq!(parser.position(), 8);
}

#[test]
fn quoted_string_collapses_every_doubled_quote() {
    let mut parser = Parser::new(br#""say ""hi"" twice """"","#);
    assert_eq!(parser.parse_str().unwrap().str(), r#"say "hi" twice """#);
}

#[test]
fn quoted_string_keeps_a_lone_quote() {
    let mut parser = Parser::new(br#""a"b","#);
    assert_eq!(parser.parse_str().unwrap().str(), r#"a"b"#);
}

#[test]
fn quoted_string_replaces_invalid_utf8() {
    let mut parser = Parser::new(b"\"a\xffb\",");
    assert_eq!(parser.parse_str().unwrap().str(), "a\u{fffd}b");
    let mut parser = Parser::new(b"\"a\xff\"\"b\",");
    assert_eq!(parser.parse_str().unwrap().str(), "a\u{fffd}\"b");
}

#[test]
fn quoted_string_decodes_utf8() {
    let mut parser = Parser::new("\"Андрей\",".as_bytes());
    assert_eq!(parser.parse_str().unwrap().str(), "Андрей");
}

#[test]
fn log_str_text_depends_on_the_flag_alone() {
    assert_eq!(LogStr::new(br#"a""b"#, true).str(), r#"a"b"#);
    assert_eq!(LogStr::new(br#"a""b"#, false).str(), r#"a""b"#);
    assert_eq!(LogStr::new(b"plain", true).str(), "plain");
    assert_eq!(LogStr::new(b"plain", false).str(), "plain");
    assert_eq!(LogStr::new(b"", false).str(), "");
}

#[test]
fn unescape_takes_pairs_from_the_left() {
    assert_eq!(unescape_quotes(b""), b"");
    assert_eq!(unescape_quotes(b"abc"), b"abc");
    assert_eq!(unescape_quotes(b"\""), b"\"");
    assert_eq!(unescape_quotes(b"\"\""), b"\"");
    assert_eq!(unescape_quotes(b"\"\"\""), b"\"\"");
    assert_eq!(unescape_quotes(b"\"\"\"\""), b"\"\"");
    assert_eq!(unescape_quotes(b"a\"\"b\"c"), b"a\"b\"c");
}

#[test]
fn unescape_is_the_identity_on_unescaped_text() {
    let plain = b"no \" doubled \" quotes";
    let once = unescape_quotes(plain);
    assert_eq!(once, plain);
    assert_eq!(unescape_quotes(&once), once);
}

#[test]
fn object_leaves_the_cursor_after_the_comma() {
    let buf = br#"{1,2,3,"123",{1,"N"}}, 321"#;
    let mut parser = Parser::new(buf);
    assert_eq!(parser.parse_object(), Ok(r#"{1,2,3,"123",{1,"N"}}"#));
    assert_eq!(parser.position(), 22);
    assert_eq!(parser.current(), b',');
    assert_eq!(parser.peek(), Ok(b' '));
}

#[test]
fn object_text_is_the_window_itself() {
    let buf = b"xx{a,{b},\"c\"},";
    let mut parser = Parser::new(buf);
    let text = parser.parse_object().unwrap();
    assert_eq!(text.as_bytes(), &buf[2..13]);
    assert_eq!(text.as_ptr(), buf[2..].as_ptr());
}

#[test]
fn object_passes_over_line_breaks_between_fields() {
    let mut parser = Parser::new(b"{1,\r\n2,\r\n\"x\"},");
    assert_eq!(parser.parse_object(), Ok("{1,\r\n2,\r\n\"x\"}"));
}

#[test]
fn object_keeps_a_line_break_before_its_terminator() {
    let mut parser = Parser::new(b"{1}\r\n,next");
    assert_eq!(parser.parse_object(), Ok("{1}\r\n"));
    assert_eq!(parser.position(), 6);
}

#[test]
fn object_must_be_followed_by_a_terminator() {
    let mut parser = Parser::new(b"{1}x");
    assert_eq!(parser.parse_object(), Err(ParseError::InvalidFormat));
    assert_eq!(parser.position(), 4);
    let mut parser = Parser::new(b"{1}\r\nx");
    assert_eq!(parser.parse_object(), Err(ParseError::InvalidFormat));
    assert_eq!(parser.position(), 6);
}

#[test]
fn object_that_runs_out_is_incomplete() {
    for cut in [&b""[..], b"no brace", b"{", b"{1,", b"{1,\"ab", b"{1,{2}", b"{1}", b"{1}\r", b"{1}\r\n", b"{1,\r"] {
        let mut parser = Parser::new(cut);
        assert_eq!(parser.parse_object(), Err(ParseError::End));
    }
}

#[test]
fn object_with_a_bad_string_inside_is_malformed() {
    // After the closing quote of a string inside, anything but a terminator
    // keeps the string open; here the window then runs out.
    let mut parser = Parser::new(b"{\"a\"x},");
    assert_eq!(parser.parse_object(), Err(ParseError::End));
    // A nested object followed by garbage is malformed.
    let mut parser = Parser::new(b"{{1}x},");
    assert_eq!(parser.parse_object(), Err(ParseError::InvalidFormat));
}

#[test]
fn object_text_must_be_utf8() {
    let mut parser = Parser::new(b"{a\xffb},");
    assert_eq!(parser.parse_object(), Err(ParseError::InvalidFormat));
    assert_eq!(parser.position(), 6);
    let mut parser = Parser::new("{\"Полнотекстовое\"},".as_bytes());
    assert_eq!(parser.parse_object(), Ok("{\"Полнотекстовое\"}"));
}

#[test]
fn empty_object_is_an_object() {
    let mut parser = Parser::new(b"{},");
    assert_eq!(parser.parse_object(), Ok("{}"));
}

#[test]
fn hyphenated_form_is_told_apart() {
    assert!(is_hyphenated(b"00000000-0000-0000-0000-000000000000"));
    assert!(is_hyphenated(b"abcdefAB-CDEF-0123-4567-89abcdefABCD"));
    assert!(!is_hyphenated(b""));
    assert!(!is_hyphenated(b"00000000-0000-0000-0000-00000000000"));
    assert!(!is_hyphenated(b"00000000-0000-0000-0000-0000000000000"));
    assert!(!is_hyphenated(b"00000000+0000-0000-0000-000000000000"));
    assert!(!is_hyphenated(b"0000000-00000-0000-0000-000000000000"));
    assert!(!is_hyphenated(b"{0000000-0000-0000-0000-00000000000}"));
    assert!(!is_hyphenated(b"0000000g-0000-0000-0000-000000000000"));
    assert!(!is_hyphenated(b"00000000-0000-0000-0000-00000000000/"));
    assert!(!is_hyphenated(b"00000000-0000-0000-0000-00000000000:"));
    assert!(!is_hyphenated(b"00000000-0000-0000-0000-00000000000@"));
    assert!(!is_hyphenated(b"00000000-0000-0000-0000-00000000000G"));
    assert!(!is_hyphenated(b"00000000-0000-0000-0000-00000000000`"));
}

#[test]
fn owned_text_is_the_lossy_decoding() {
    assert_eq!(decode_owned(b"plain"), "plain");
    assert_eq!(decode_owned("Кудрявцев".as_bytes()), "Кудрявцев");
    assert_eq!(decode_owned(b"\xf0\x9f\x92"), "\u{fffd}");
    assert_eq!(into_string(Cow::Borrowed("a")), "a");
    assert_eq!(into_string(Cow::Owned("b".to_string())), "b");
}

#[test]
fn fields_are_scanned_to_the_closing_brace() {
    let mut parser = Parser::new(b"1,\"a}\",\r\n{2,{3}},x},rest");
    assert_eq!(parser.skip_fields(), Ok(()));
    assert_eq!(parser.position(), 19);
    assert_eq!(parser.current(), b'}');
    let mut parser = Parser::new(b"}");
    assert_eq!(parser.skip_fields(), Ok(()));
    assert_eq!(parser.position(), 1);
}

#[test]
fn fields_that_run_out_or_go_wrong_say_so() {
    let mut parser = Parser::new(b"");
    assert_eq!(parser.skip_fields(), Err(ParseError::End));
    let mut parser = Parser::new(b"1,2,");
    assert_eq!(parser.skip_fields(), Err(ParseError::End));
    let mut parser = Parser::new(b"1,\r");
    assert_eq!(parser.skip_fields(), Err(ParseError::End));
    assert_eq!(parser.position(), 2);
    let mut parser = Parser::new(b"1,{2}x}");
    assert_eq!(parser.skip_fields(), Err(ParseError::InvalidFormat));
}

#[test]
fn ascii_text_decodes_to_itself() {
    assert_eq!(LogStr::new(b"a", false).str(), "a");
    assert_eq!(decode_owned(b"a"), "a");
    let all: Vec<u8> = (0u8..128).collect();
    let text = decode_owned(&all);
    assert_eq!(text.as_bytes(), &all[..]);
}
