use event_log_parser::calendar::Timestamp;
use event_log_parser::events::{
    decode_buffer, next_event, parse_buffer, parse_datetime, parse_log_level, parse_record,
    parse_transaction_status, EventLogLevel, Pulled, TransactionStatus,
};
use event_log_parser::parser::{ParseError, Parser};
use event_log_parser::references::References;

const RECORD_1: &str = "{20221212101530,N,\r\n{0,0},1,2,3,4,5,I,\"first \"\"one\"\"\",6,\r\n{\"U\"},\"pres\",7,8,9,10,11,\r\n{0}\r\n}";
const MALFORMED: &str = "{20221212101530,Z,{0}}";
const RECORD_2: &str = "{20230228235959,C,\r\n{2439d0a97d0c0,35bd},0,1,0,77,3,E,\"second\",2,\r\n{\"S\",\"x,y\"},\"\",1,1,0,5,0,\r\n{1,{2}}\r\n}";

fn stamp(year: i32, month: u32, day: u32, hour: u32, minute: u32, second: u32) -> Timestamp {
    Timestamp { year, month, day, hour, minute, second }
}

#[test]
fn timestamp_validity_follows_the_calendar() {
    assert!(stamp(2022, 12, 12, 0, 0, 0).is_valid());
    assert!(stamp(2024, 2, 29, 23, 59, 59).is_valid());
    assert!(stamp(2000, 2, 29, 0, 0, 0).is_valid());
    assert!(stamp(0, 1, 1, 0, 0, 0).is_valid());
    assert!(stamp(262142, 12, 31, 0, 0, 0).is_valid());
    assert!(!stamp(262143, 1, 1, 0, 0, 0).is_valid());
    assert!(!stamp(2023, 2, 29, 0, 0, 0).is_valid());
    assert!(!stamp(1900, 2, 29, 0, 0, 0).is_valid());
    assert!(!stamp(2023, 4, 31, 0, 0, 0).is_valid());
    assert!(!stamp(2023, 0, 1, 0, 0, 0).is_valid());
    assert!(!stamp(2023, 13, 1, 0, 0, 0).is_valid());
    assert!(!stamp(2023, 1, 0, 0, 0, 0).is_valid());
    assert!(!stamp(2023, 1, 32, 0, 0, 0).is_valid());
    assert!(!stamp(2023, 1, 1, 24, 0, 0).is_valid());
    assert!(!stamp(2023, 1, 1, 0, 60, 0).is_valid());
    assert!(!stamp(2023, 1, 1, 0, 0, 60).is_valid());
    assert!(!stamp(-1, 1, 1, 0, 0, 0).is_valid());
}

#[test]
fn timestamp_agrees_with_the_calendar_library() {
    let t = stamp(2022, 12, 12, 10, 15, 30);
    let moment = chrono::NaiveDate::from_ymd_opt(t.year, t.month, t.day)
        .unwrap()
        .and_hms_opt(t.hour, t.minute, t.second)
        .unwrap();
    assert_eq!(moment.to_string(), "2022-12-12 10:15:30");
}

#[test]
fn datetime_reads_fourteen_digits_and_a_separator() {
    let mut parser = Parser::new(b"20221212101530,N");
    assert_eq!(parse_datetime(&mut parser), Ok(stamp(2022, 12, 12, 10, 15, 30)));
    assert_eq!(parser.position(), 15);
}

#[test]
fn datetime_rejects_what_the_calendar_lacks() {
    let mut parser = Parser::new(b"20230230000000,");
    assert_eq!(parse_datetime(&mut parser), Err(ParseError::InvalidFormat));
    assert_eq!(parser.position(), 15);
    let mut parser = Parser::new(b"20230101250000,");
    assert_eq!(parse_datetime(&mut parser), Err(ParseError::InvalidFormat));
    let mut parser = Parser::new(b"2023ab01000000,");
    assert_eq!(parse_datetime(&mut parser), Err(ParseError::InvalidFormat));
}

#[test]
fn datetime_folds_bytes_like_digits() {
    // ':' counts as ten, so "0:" is month ten.
    let mut parser = Parser::new(b"20220:12101530,");
    assert_eq!(parse_datetime(&mut parser), Ok(stamp(2022, 10, 12, 10, 15, 30)));
}

#[test]
fn datetime_that_runs_out_is_incomplete() {
    let mut parser = Parser::new(b"2022121210153");
    assert_eq!(parse_datetime(&mut parser), Err(ParseError::End));
    assert_eq!(parser.position(), 13);
    let mut parser = Parser::new(b"20221212101530");
    assert_eq!(parse_datetime(&mut parser), Err(ParseError::End));
    assert_eq!(parser.position(), 14);
}

#[test]
fn transaction_status_letters() {
    for (text, status) in [
        (b"R,", TransactionStatus::RolledBack),
        (b"N,", TransactionStatus::NotApplicable),
        (b"U,", TransactionStatus::Unfinished),
        (b"C,", TransactionStatus::Committed),
    ] {
        let mut parser = Parser::new(text);
        assert_eq!(parse_transaction_status(&mut parser), Ok(status));
        assert_eq!(parser.position(), 2);
    }
    let mut parser = Parser::new(b"X,");
    assert_eq!(parse_transaction_status(&mut parser), Err(ParseError::InvalidFormat));
    assert_eq!(parser.position(), 2);
    let mut parser = Parser::new(b"R");
    assert_eq!(parse_transaction_status(&mut parser), Err(ParseError::End));
    let mut parser = Parser::new(b"");
    assert_eq!(parse_transaction_status(&mut parser), Err(ParseError::End));
}

#[test]
fn log_level_letters() {
    for (text, level) in [
        (b"E,", EventLogLevel::Error),
        (b"I,", EventLogLevel::Information),
        (b"N,", EventLogLevel::Note),
        (b"W,", EventLogLevel::Warning),
    ] {
        let mut parser = Parser::new(text);
        assert_eq!(parse_log_level(&mut parser), Ok(level));
        assert_eq!(parser.position(), 2);
    }
    let mut parser = Parser::new(b"R,");
    assert_eq!(parse_log_level(&mut parser), Err(ParseError::InvalidFormat));
    let mut parser = Parser::new(b"E");
    assert_eq!(parse_log_level(&mut parser), Err(ParseError::End));
}

#[test]
fn record_decodes_every_field_in_order() {
    let text = format!("garbage {},\r\n", RECORD_1);
    let mut parser = Parser::new(text.as_bytes());
    let event = match parse_record(&mut parser) {
        Ok(event) => event,
        Err(e) => panic!("{:?}", e),
    };
    assert_eq!(parser.position(), 8 + RECORD_1.len());
    assert_eq!(event.date(), stamp(2022, 12, 12, 10, 15, 30));
    assert_eq!(*event.transaction_status(), TransactionStatus::NotApplicable);
    assert_eq!(event.transaction_data(), "{0,0}");
    assert_eq!(event.user_id(), 1);
    assert_eq!(event.computer_id(), 2);
    assert_eq!(event.application_id(), 3);
    assert_eq!(event.connection(), 4);
    assert_eq!(event.event_id(), 5);
    assert_eq!(*event.log_level(), EventLogLevel::Information);
    assert_eq!(event.comment(), "first \"one\"");
    assert_eq!(event.metadata_id(), 6);
    assert_eq!(event.data(), "{\"U\"}");
    assert_eq!(event.data_presentation(), "pres");
    assert_eq!(event.worker_server_id(), 7);
    assert_eq!(event.port_id(), 8);
    assert_eq!(event.sync_port_id(), 9);
    assert_eq!(event.session(), 10);
    assert_eq!(event.unknown1(), 11);
    assert_eq!(event.unknown2(), "{0}\r\n");
}

#[test]
fn record_objects_are_slices_of_the_window() {
    let text = RECORD_2.as_bytes();
    let mut parser = Parser::new(text);
    let event = match parse_record(&mut parser) {
        Ok(event) => event,
        Err(e) => panic!("{:?}", e),
    };
    for object in [event.transaction_data(), event.data(), event.unknown2()] {
        let start = object.as_ptr() as usize - text.as_ptr() as usize;
        assert_eq!(&text[start..start + object.len()], object.as_bytes());
    }
    assert_eq!(event.transaction_data(), "{2439d0a97d0c0,35bd}");
    assert_eq!(event.data(), "{\"S\",\"x,y\"}");
    assert_eq!(event.unknown2(), "{1,{2}}\r\n");
}

#[test]
fn record_that_runs_out_is_incomplete_wherever_it_is_cut() {
    let text = RECORD_1.as_bytes();
    for cut in 0..text.len() {
        let mut parser = Parser::new(&text[..cut]);
        assert!(matches!(parse_record(&mut parser), Err(ParseError::End)), "cut at {}", cut);
    }
}

#[test]
fn record_with_a_bad_field_is_malformed() {
    let bad_status = RECORD_1.replace(",N,", ",Z,");
    let mut parser = Parser::new(bad_status.as_bytes());
    assert!(matches!(parse_record(&mut parser), Err(ParseError::InvalidFormat)));
    let bad_level = RECORD_1.replace(",I,", ",Q,");
    let mut parser = Parser::new(bad_level.as_bytes());
    assert!(matches!(parse_record(&mut parser), Err(ParseError::InvalidFormat)));
    let bad_comment = RECORD_1.replace(",\"first", ",first");
    let mut parser = Parser::new(bad_comment.as_bytes());
    assert!(matches!(parse_record(&mut parser), Err(ParseError::InvalidFormat)));
    let bad_date = RECORD_1.replace("20221212", "20221312");
    let mut parser = Parser::new(bad_date.as_bytes());
    assert!(matches!(parse_record(&mut parser), Err(ParseError::InvalidFormat)));
}

#[test]
fn ids_resolve_against_the_dictionary() {
    let mut refs = References::default();
    let dictionary = [
        "{1,d303f30c-9e76-412f-95d2-3c3622e6b6e1,\"Executor\",1},\r\n",
        "{2,\"computer1\",2},\r\n",
        "{3,\"Designer\",3},\r\n",
        "{4,\"_$Data$_.Update\",5},\r\n",
        "{5,71ada582-5c75-466a-b17c-7b9a48af5f0b,\"Constant.Id\",6},\r\n",
        "{6,\"server1\",7},\r\n",
        "{7,1541,8},\r\n",
        "{8,1560,9},\r\n",
    ].concat();
    assert_eq!(refs.parse_buffer(dictionary.as_bytes()), dictionary.len() - 3);
    let mut parser = Parser::new(RECORD_1.as_bytes());
    let event = match parse_record(&mut parser) {
        Ok(event) => event,
        Err(e) => panic!("{:?}", e),
    };
    assert_eq!(event.user(&refs).unwrap().name(), "Executor");
    assert_eq!(event.user(&refs).unwrap().id(), 0xd303f30c9e76412f95d23c3622e6b6e1u128);
    assert_eq!(event.computer(&refs), Some("computer1"));
    assert_eq!(event.application(&refs), Some("Designer"));
    assert_eq!(event.event(&refs), Some("_$Data$_.Update"));
    assert_eq!(event.metadata(&refs).unwrap().name(), "Constant.Id");
    assert_eq!(event.metadata(&refs).unwrap().id(), 0x71ada5825c75466ab17c7b9a48af5f0bu128);
    assert_eq!(event.worker_server(&refs), Some("server1"));
    assert_eq!(event.port(&refs), Some(1541));
    assert_eq!(event.sync_port(&refs), Some(1560));
}

#[test]
fn ids_the_dictionary_lacks_resolve_to_nothing() {
    let refs = References::default();
    let mut parser = Parser::new(RECORD_1.as_bytes());
    let event = match parse_record(&mut parser) {
        Ok(event) => event,
        Err(e) => panic!("{:?}", e),
    };
    assert!(event.user(&refs).is_none());
    assert_eq!(event.computer(&refs), None);
    assert_eq!(event.application(&refs), None);
    assert_eq!(event.event(&refs), None);
    assert!(event.metadata(&refs).is_none());
    assert_eq!(event.worker_server(&refs), None);
    assert_eq!(event.port(&refs), None);
    assert_eq!(event.sync_port(&refs), None);
}

fn comments(buffer: &[u8]) -> (Vec<String>, usize) {
    let mut seen = Vec::new();
    let consumed = parse_buffer(buffer, &mut |event| seen.push(event.comment().into_owned()));
    (seen, consumed)
}

#[test]
fn pass_decodes_all_complete_records() {
    let text = format!("{},\r\n{},\r\n", RECORD_1, RECORD_2);
    let (seen, consumed) = comments(text.as_bytes());
    assert_eq!(seen, vec!["first \"one\"".to_string(), "second".to_string()]);
    assert_eq!(consumed, text.len() - 3);
    let (events, resume) = decode_buffer(text.as_bytes());
    assert_eq!(events.len(), 2);
    assert_eq!(events[0].comment(), "first \"one\"");
    assert_eq!(events[1].session(), 5);
    assert_eq!(resume, consumed);
}

#[test]
fn pass_over_an_empty_window_consumes_nothing() {
    assert_eq!(comments(b""), (Vec::new(), 0));
    assert_eq!(comments(b"no record here"), (Vec::new(), 0));
}

#[test]
fn pass_stops_at_the_start_of_an_incomplete_record() {
    let text = format!("{},\r\n{}", RECORD_1, &RECORD_2[..40]);
    let (seen, consumed) = comments(text.as_bytes());
    assert_eq!(seen, vec!["first \"one\"".to_string()]);
    assert_eq!(consumed, RECORD_1.len());
}

#[test]
fn pass_skips_a_malformed_record_between_two_good_ones() {
    let text = format!("{},\r\n{},\r\n{},\r\n", RECORD_1, MALFORMED, RECORD_2);
    let (seen, consumed) = comments(text.as_bytes());
    assert_eq!(seen, vec!["first \"one\"".to_string(), "second".to_string()]);
    assert_eq!(consumed, text.len() - 3);
}

#[test]
fn resynchronizing_inside_a_record_can_cost_the_next_one() {
    // The malformed record holds line breaks of its own: decoding starts
    // again inside it, and the attempt made at its last object runs into the
    // record that follows.
    let bad = RECORD_1.replace(",I,", ",Q,");
    let text = format!("{},\r\n{},\r\n{},\r\n", RECORD_1, bad, RECORD_2);
    let (seen, _) = comments(text.as_bytes());
    assert_eq!(seen, vec!["first \"one\"".to_string()]);
}

#[test]
fn pass_skips_garbage_without_a_brace() {
    let text = format!("{},\r\nthis is not a record\r\n{},\r\n", RECORD_1, RECORD_2);
    let (seen, consumed) = comments(text.as_bytes());
    assert_eq!(seen, vec!["first \"one\"".to_string(), "second".to_string()]);
    assert_eq!(consumed, text.len() - 3);
}

#[test]
fn pass_keeps_a_malformed_record_that_no_line_break_follows() {
    let bad = "{20221212101530,Z,{0}";
    let text = format!("{},{}", RECORD_1, bad);
    let (seen, consumed) = comments(text.as_bytes());
    assert_eq!(seen, vec!["first \"one\"".to_string()]);
    assert_eq!(consumed, RECORD_1.len());
}

#[test]
fn pulling_yields_one_record_at_a_time() {
    let bad = MALFORMED;
    let text = format!("{},\r\n{},\r\n{},\r\n", bad, RECORD_1, RECORD_2);
    let mut parser = Parser::new(text.as_bytes());
    match next_event(&mut parser) {
        Pulled::Record(event) => assert_eq!(event.comment(), "first \"one\""),
        Pulled::Stop(_) => panic!("a record was expected"),
    }
    assert_eq!(parser.position(), bad.len() + 3 + RECORD_1.len());
    match next_event(&mut parser) {
        Pulled::Record(event) => assert_eq!(event.comment(), "second"),
        Pulled::Stop(_) => panic!("a record was expected"),
    }
    match next_event(&mut parser) {
        Pulled::Record(_) => panic!("no record was expected"),
        Pulled::Stop(resume) => assert_eq!(resume, text.len() - 3),
    }
}

#[test]
fn splitting_the_input_in_two_changes_nothing() {
    let text = format!("{},\r\n{},\r\n{},\r\n{},\r\n", RECORD_1, MALFORMED, RECORD_2, RECORD_1);
    let whole = text.as_bytes();
    let (expected, expected_consumed) = comments(whole);
    assert_eq!(expected.len(), 3);
    for cut in 0..=whole.len() {
        let (mut seen, consumed) = comments(&whole[..cut]);
        let mut second = whole[consumed..cut].to_vec();
        second.extend_from_slice(&whole[cut..]);
        let (rest, consumed_again) = comments(&second);
        seen.extend(rest);
        assert_eq!(seen, expected, "cut at {}", cut);
        assert_eq!(consumed + consumed_again, expected_consumed, "cut at {}", cut);
    }
}
