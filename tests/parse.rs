use motd::parse::{parse_message, EntryParser, ParseError, Token};

fn text(s: &str) -> Token {
    Token::Text(s.to_string())
}

fn resource(s: &str) -> Token {
    Token::Resource(s.to_string())
}

#[test]
fn resource_then_text() {
    assert_eq!(parse_message("[img.png]hello").unwrap(), vec![resource("img.png"), text("hello")]);
}

#[test]
fn escaped_bracket_in_text() {
    assert_eq!(parse_message("a\\[b").unwrap(), vec![text("a[b")]);
}

#[test]
fn unterminated_reference() {
    assert_eq!(parse_message("[abc").unwrap_err(), ParseError::UnexpectedEnd);
}

#[test]
fn unescaped_closing_bracket() {
    assert_eq!(parse_message("a]b").unwrap_err(), ParseError::UnescapedChar(']'));
}

#[test]
fn unescaped_opening_bracket_in_reference() {
    assert_eq!(parse_message("[a[b]").unwrap_err(), ParseError::UnescapedChar('['));
}

#[test]
fn invalid_escape() {
    assert_eq!(parse_message("a\\qb").unwrap_err(), ParseError::InvalidEscape('q'));
}

#[test]
fn trailing_backslash() {
    assert_eq!(parse_message("abc\\").unwrap_err(), ParseError::UnexpectedEnd);
}

#[test]
fn empty_message_has_no_tokens() {
    assert_eq!(parse_message("").unwrap(), Vec::<Token>::new());
}

#[test]
fn text_around_reference() {
    assert_eq!(
        parse_message("a[b]c").unwrap(),
        vec![text("a"), resource("b"), text("c")]
    );
}

#[test]
fn empty_reference() {
    assert_eq!(parse_message("[]").unwrap(), vec![resource("")]);
}

#[test]
fn escapes_inside_reference() {
    assert_eq!(
        parse_message("[a\\]b\\\\c\\%d]").unwrap(),
        vec![resource("a]b\\c%d")]
    );
}

#[test]
fn escaped_delimiter_in_text() {
    assert_eq!(parse_message("100\\% sure").unwrap(), vec![text("100% sure")]);
}

#[test]
fn parser_value_parses() {
    let parser = EntryParser::new();
    assert_eq!(parser.parse("x[y]").unwrap(), vec![text("x"), resource("y")]);
}

#[test]
fn error_messages() {
    assert_eq!(ParseError::InvalidEscape('q').message(), "Invalid escape sequence '\\q'");
    assert_eq!(ParseError::UnescapedChar(']').message(), "Unescaped ']' character");
    assert_eq!(
        ParseError::UnexpectedEnd.message(),
        "Unexpected end of message, ensure references are closed"
    );
}

#[test]
fn rendered_tokens_parse_back() {
    // Text "[a]", resource "p]q", text "x%" written with every special character escaped.
    assert_eq!(
        parse_message("\\[a\\][p\\]q]x\\%").unwrap(),
        vec![text("[a]"), resource("p]q"), text("x%")]
    );
}
