use event_log_parser::parser::{ParseError, ParseResult, Parser};

#[test]
fn test_parse_u32() -> ParseResult<()> {
    let buf = b"12345,";
    let mut parser = Parser::new(buf);
    let n = parser.parse_usize()?;
    assert_eq!(n, 12345);
    Ok(())
}

#[test]
fn test_parse_raw() -> ParseResult<()> {
    let buf = b"12345,";
    let mut parser = Parser::new(buf);
    let r = parser.parse_raw()?;
    assert_eq!(r, b"12345");
    Ok(())
}

#[test]
fn test_parse_error_end() -> ParseResult<()> {
    let buf = b"1111,12345";
    let mut parser = Parser::new(buf);
    parser.skip(5).ok_or(ParseError::End)?;
    let r = parser.parse_raw();
    assert_eq!(r, Err(ParseError::End));
    Ok(())
}

#[test]
fn test_parse_uuid() -> ParseResult<()> {
    let buf = b"71ada582-5c75-466a-b17c-7b9a48af5f0b}";
    let mut parser = Parser::new(buf);
    let uuid = parser.parse_uuid()?;
    assert_eq!(
        uuid::Uuid::from_u128(uuid),
        uuid::Uuid::parse_str("71ada582-5c75-466a-b17c-7b9a48af5f0b").unwrap()
    );
    Ok(())
}

#[test]
fn test_parse_str_1() -> ParseResult<()> {
    let buf = b"\"12345\"}";
    let mut parser = Parser::new(buf);
    let str = parser.parse_str()?;
    assert_eq!(str.str(), "12345");
    Ok(())
}

#[test]
fn test_parse_str_2() -> ParseResult<()> {
    let buf = br#""123""45"}"#;
    let mut parser = Parser::new(buf);
    let str = parser.parse_str()?;

    assert_eq!(str.str(), r#"123"45"#);
    Ok(())
}

#[test]
fn test_parse_object_1() -> ParseResult<()> {
    let buf = br#"   {1,"N"}, 321"#;
    let mut parser = Parser::new(buf);
    let res = parser.parse_object()?;
    assert_eq!(res, r#"{1,"N"}"#);
    Ok(())
}

#[test]
fn test_parse_object_2() -> ParseResult<()> {
    let buf = br#"   {1,2,3,"123",{1,"N"}}, 321"#;
    let mut parser = Parser::new(buf);
    let res = parser.parse_object()?;
    assert_eq!(res, r#"{1,2,3,"123",{1,"N"}}"#);
    Ok(())
}
