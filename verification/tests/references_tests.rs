use event_log_parser::parser::{ParseResult, Parser};
use event_log_parser::references::References;

#[test]
fn test_parse_record_1() -> ParseResult<()> {
    let mut references = References::default();
    let buf = br#" {1,d303f30c-9e76-412f-95d2-3c3622e6b6e1,"Executor",1}"#;
    let mut parser = Parser::new(buf);

    references.parser_record(&mut parser)?;
    let user = &references.users()[1];

    assert_eq!(
        uuid::Uuid::from_u128(user.id()),
        uuid::Uuid::parse_str("d303f30c-9e76-412f-95d2-3c3622e6b6e1").unwrap()
    );
    assert_eq!(user.name(), "Executor");
    Ok(())
}
