use silly_rusty_kv::command::{Command, DeleteCommand, GetCommand, PutCommand};
use silly_rusty_kv::parse::{parse_command, Keyword, ParseError};

#[test]
fn parses_each_command() {
    assert_eq!(parse_command("GET key1"), Ok(Command::Get(GetCommand("key1".into()))));
    assert_eq!(
        parse_command("PUT MY_KEY \"MY_VALUE\""),
        Ok(Command::Put(PutCommand("MY_KEY".into(), "MY_VALUE".into())))
    );
    assert_eq!(parse_command("delete k"), Ok(Command::Delete(DeleteCommand("k".into()))));
    assert_eq!(parse_command("  BEGIN  "), Ok(Command::Begin));
    assert_eq!(parse_command("commit"), Ok(Command::Commit));
    assert_eq!(parse_command("ROLLBACK"), Ok(Command::Rollback));
    assert_eq!(parse_command("EXIT"), Ok(Command::Exit));
}

#[test]
fn literals_keep_spaces_and_escapes() {
    assert_eq!(
        parse_command("put k \"a \\\"quoted\\\" \\\\ value\\n\\tend\""),
        Ok(Command::Put(PutCommand("k".into(), "a \"quoted\" \\ value\n\tend".into())))
    );
    assert_eq!(parse_command("PUT k \"\""), Ok(Command::Put(PutCommand("k".into(), "".into()))));
}

#[test]
fn malformed_lines_are_refused() {
    assert_eq!(parse_command(""), Err(ParseError::UnexpectedEnd));
    assert_eq!(parse_command("GET"), Err(ParseError::ExpectedIdentifier(Keyword::Get)));
    assert_eq!(parse_command("PUT k"), Err(ParseError::ExpectedLiteral));
    assert_eq!(parse_command("PUT k \"v\" x"), Err(ParseError::UnexpectedToken));
    assert_eq!(parse_command("GET a b"), Err(ParseError::UnexpectedToken));
    assert_eq!(parse_command("key GET"), Err(ParseError::ExpectedKeyword));
    assert_eq!(parse_command("GET a-b"), Err(ParseError::UnexpectedCharacter('-')));
    assert_eq!(parse_command("PUT k \"open"), Err(ParseError::UnterminatedLiteral));
    assert_eq!(parse_command("PUT k \"bad \\q\""), Err(ParseError::InvalidEscape('q')));
    assert_eq!(parse_command("BEGIN now"), Err(ParseError::UnexpectedToken));
    assert_eq!(parse_command("!"), Err(ParseError::UnexpectedCharacter('!')));
}

#[test]
fn commands_parse_through_from_str() {
    let c: Command = "GET k".parse().unwrap();
    assert_eq!(c, Command::Get(GetCommand("k".into())));
    assert_eq!("PUT".parse::<Command>(), Err(ParseError::ExpectedIdentifier(Keyword::Put)));
}

#[test]
fn unicode_white_space_separates_tokens() {
    assert_eq!(parse_command("GET\u{3000}k\u{a0}"), Ok(Command::Get(GetCommand("k".into()))));
    assert_eq!(parse_command("GET\tk"), Ok(Command::Get(GetCommand("k".into()))));
}
