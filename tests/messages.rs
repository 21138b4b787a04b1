use regex_parser::{parse, ParserError};

#[test]
fn error_messages_name_the_position() {
    assert_eq!(
        ParserError::InvalidEscape(1, 'n').message(),
        "Invalid escape sequence at position 1: 'n'"
    );
    assert_eq!(
        ParserError::InvalidRightParen(0).message(),
        "Invalid right parenthesis at position 0"
    );
    assert_eq!(ParserError::NoPrev(1234).message(), "No previous character at position 1234");
}

#[test]
fn error_messages_without_position() {
    assert_eq!(ParserError::NoRightParen.message(), "No right parenthesis");
    assert_eq!(ParserError::Empty.message(), "Empty pattern");
}

#[test]
fn error_message_of_largest_position() {
    let expected = format!("No previous character at position {}", usize::MAX);
    assert_eq!(ParserError::NoPrev(usize::MAX).message(), expected);
}

#[test]
fn error_message_of_parse_failure() {
    let err = parse("ab\\é").unwrap_err();
    assert_eq!(err.message(), "Invalid escape sequence at position 3: 'é'");
}
