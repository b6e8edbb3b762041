use diamond::error::{FindError, ParseError, ResponseError};
use diamond::number::IntErrorKind;

#[test]
fn parse_error_messages() {
    assert_eq!(ParseError::RenderFormat.message(), "Format cannot be parsed");
    assert_eq!(ParseError::Time.message(), "Time cannot be parsed");
    assert_eq!(ParseError::EmptyString.message(), "Cannot parse empty string");
    assert_eq!(ParseError::Unknown.message(), "Unknown parse error");
    assert_eq!(ParseError::Query("bad".to_string()).message(), "bad");
    assert_eq!(ParseError::Pattern(3, "oops".to_string()).message(), "Pattern syntax error near position 3: oops");
    assert_eq!(
        ParseError::ParseIntError(IntErrorKind::PosOverflow).message(),
        "number too large to fit in target type"
    );
    assert_eq!(
        ParseError::SystemTimeError(1, 500_000_000).message(),
        "Second time provided was later than self in duration 1.5s"
    );
    assert_eq!(ParseError::ParseIntError(IntErrorKind::Empty).source(), Some(IntErrorKind::Empty));
    assert_eq!(ParseError::Time.source(), None);
}

#[test]
fn response_and_find_error_messages() {
    assert_eq!(ResponseError::NotFound.message(), "NotFound");
    assert_eq!(ResponseError::Path.message(), "PathError");
    assert_eq!(ResponseError::Kind("io".to_string()).message(), "io");
    assert_eq!(ResponseError::SystemTime(0, 10).message(), "Second time provided was later than self in duration 10ns");
    assert_eq!(FindError::Unknown.message(), "Unknown error");
    assert_eq!(FindError::UnknownParse.message(), "Unknown parse error");
}
