use wormhole_handshake::code::{parse_code, CodeFormatError, ParsedCode};
use wormhole_handshake::error::ErrorKind;
use wormhole_handshake::handshake::plan_connect_with_code;

#[test]
fn parses_nameplate_and_words() {
    let c = parse_code("7-crossover-clockwork").unwrap();
    assert_eq!(c.nameplate(), "7");
    assert_eq!(c.words(), &vec!["crossover".to_string(), "clockwork".to_string()]);
}

#[test]
fn non_numeric_nameplate_is_rejected() {
    assert!(matches!(parse_code("abc-word"), Err(CodeFormatError::InvalidNameplate)));
}

#[test]
fn parse_then_format_gives_back_the_code() {
    for text in ["7-crossover-clockwork", "0-a", "123-x-y-z-w", "42-purple-sausages"] {
        let c = parse_code(text).unwrap();
        assert_eq!(c.format(), text);
        let again = parse_code(&c.format()).unwrap();
        assert_eq!(again.nameplate(), c.nameplate());
        assert_eq!(again.words(), c.words());
    }
}

#[test]
fn each_format_error_has_its_input() {
    assert!(matches!(parse_code(""), Err(CodeFormatError::Empty)));
    assert!(matches!(parse_code("-word"), Err(CodeFormatError::InvalidNameplate)));
    assert!(matches!(parse_code("7a-word"), Err(CodeFormatError::InvalidNameplate)));
    assert!(matches!(parse_code("7"), Err(CodeFormatError::MissingWords)));
    assert!(matches!(parse_code("7-"), Err(CodeFormatError::EmptyWord)));
    assert!(matches!(parse_code("7--word"), Err(CodeFormatError::EmptyWord)));
    assert!(matches!(parse_code("7-word-"), Err(CodeFormatError::EmptyWord)));
}

#[test]
fn error_texts() {
    assert_eq!(CodeFormatError::Empty.describe(), "the code is empty");
    assert_eq!(CodeFormatError::EmptyWord.describe(), "the code has an empty word");
}

#[test]
fn from_parts_checks_and_formats() {
    let c = ParsedCode::from_parts("15".to_string(), vec!["foo".to_string(), "bar".to_string()])
        .unwrap();
    assert_eq!(c.format(), "15-foo-bar");
    assert!(ParsedCode::from_parts("x".to_string(), vec!["foo".to_string()]).is_none());
    assert!(ParsedCode::from_parts("1".to_string(), vec![]).is_none());
    assert!(ParsedCode::from_parts("1".to_string(), vec!["a-b".to_string()]).is_none());
    assert!(ParsedCode::from_parts("1".to_string(), vec!["".to_string()]).is_none());
}

#[test]
fn plan_keeps_a_valid_code_and_sets_the_policy() {
    let p = plan_connect_with_code("7-crossover-clockwork", None).unwrap();
    assert_eq!(p.code, "7-crossover-clockwork");
    assert!(p.allocate);
    let p = plan_connect_with_code("7-crossover-clockwork", Some(false)).unwrap();
    assert!(p.allocate);
    let p = plan_connect_with_code("7-crossover-clockwork", Some(true)).unwrap();
    assert!(!p.allocate);
}

#[test]
fn plan_rejects_a_malformed_code() {
    let e = plan_connect_with_code("abc-word", Some(true)).err().unwrap();
    assert_eq!(e.kind(), ErrorKind::CodeFormat(CodeFormatError::InvalidNameplate));
    assert_eq!(e.message(), "the nameplate of the code is not a number");
}
