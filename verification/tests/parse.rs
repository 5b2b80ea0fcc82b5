use jsonparse::ast::Node;
use jsonparse::parser::{parse, ParseError, ParseErrorKind};
use jsonparse::token::{Span, StrError, TokenKind};

#[test]
fn it_parses() {
    let input = "{\"root\":{\"children\":[{\"children\":[{\"children\":[{\"detail\":0,\"format\":0,\"mode\":\"normal\",\"style\":\"\",\"text\":\"One\",\"type\":\"text\",\"version\":1}],\"direction\":\"ltr\",\"format\":\"\",\"indent\":0,\"type\":\"listitem\",\"version\":1,\"value\":1},{\"children\":[{\"children\":[{\"children\":[{\"children\":[{\"children\":[{\"detail\":0,\"format\":0,\"mode\":\"normal\",\"style\":\"\",\"text\":\"Two\",\"type\":\"text\",\"version\":1}],\"direction\":\"ltr\",\"format\":\"\",\"indent\":2,\"type\":\"listitem\",\"version\":1,\"value\":1}],\"direction\":\"ltr\",\"format\":\"\",\"indent\":0,\"type\":\"list\",\"version\":1,\"listType\":\"bullet\",\"start\":1,\"tag\":\"ul\"}],\"direction\":\"ltr\",\"format\":\"\",\"indent\":1,\"type\":\"listitem\",\"version\":1,\"value\":1},{\"children\":[{\"detail\":0,\"format\":0,\"mode\":\"normal\",\"style\":\"\",\"text\":\"Haha\",\"type\":\"text\",\"version\":1}],\"direction\":\"ltr\",\"format\":\"\",\"indent\":1,\"type\":\"listitem\",\"version\":1,\"value\":1}],\"direction\":\"ltr\",\"format\":\"\",\"indent\":0,\"type\":\"list\",\"version\":1,\"listType\":\"number\",\"start\":1,\"tag\":\"ol\"}],\"direction\":\"ltr\",\"format\":\"\",\"indent\":0,\"type\":\"listitem\",\"version\":1,\"value\":2}],\"direction\":\"ltr\",\"format\":\"\",\"indent\":0,\"type\":\"list\",\"version\":1,\"listType\":\"bullet\",\"start\":1,\"tag\":\"ul\"}],\"direction\":\"ltr\",\"format\":\"\",\"indent\":0,\"type\":\"root\",\"version\":1}}";
    let node = parse(input);
    assert!(node.is_ok());
}

#[test]
fn it_fails_on_empty_input_at_the_empty_span() {
    assert_eq!(
        parse(""),
        Err(ParseError {
            kind: ParseErrorKind::UnexpectedEof,
            span: Span { base: 0, len: 0 },
        })
    );
}

#[test]
fn it_parses_an_object_inside_an_array() {
    assert_eq!(parse("[{}]"), Ok(Node::Array(vec![Node::Object(vec![])])));
}

#[test]
fn it_parses_an_empty_array() {
    assert_eq!(parse("[]"), Ok(Node::Array(vec![])));
}

#[test]
fn it_parses_an_escaped_quote_string() {
    assert_eq!(parse("\"\\\"\""), Ok(Node::Str("\"".to_string())));
}

#[test]
fn it_rejects_two_zeros_as_trailing_content() {
    assert_eq!(
        parse("00"),
        Err(ParseError {
            kind: ParseErrorKind::UnexpectedContinuation(TokenKind::Int(0)),
            span: Span { base: 1, len: 1 },
        })
    );
}

#[test]
fn it_rejects_a_lone_exponent_marker_as_trailing_content() {
    assert_eq!(
        parse("-0.12E"),
        Err(ParseError {
            kind: ParseErrorKind::UnexpectedContinuation(TokenKind::InvalidIdent(
                "E".to_string()
            )),
            span: Span { base: 5, len: 1 },
        })
    );
}

#[test]
fn it_rejects_a_lone_surrogate_escape_over_its_whole_span() {
    assert_eq!(
        parse("\"\\uDFFF\""),
        Err(ParseError {
            kind: ParseErrorKind::InvalidStr(StrError::LoneSurrogateUnicodeEscape),
            span: Span { base: 1, len: 6 },
        })
    );
}

#[test]
fn it_parses_the_same_input_to_the_same_result() {
    let input = "{\"a\": [1, 2.5, null], \"b\": \"x\"}";
    assert_eq!(parse(input), parse(input));
    let bad = "{\"a\": }";
    assert_eq!(parse(bad), parse(bad));
}

#[test]
fn it_reports_unterminated_for_any_unterminated_string() {
    // End of input inside ordinary characters.
    assert_eq!(
        parse("\"abc"),
        Err(ParseError {
            kind: ParseErrorKind::InvalidStr(StrError::Unterminated),
            span: Span { base: 4, len: 0 },
        })
    );
    // End of input in the middle of a unicode escape: still unterminated,
    // never a unicode-escape error.
    assert_eq!(
        parse("\"\\uDF"),
        Err(ParseError {
            kind: ParseErrorKind::InvalidStr(StrError::Unterminated),
            span: Span { base: 5, len: 0 },
        })
    );
    // End of input right after a backslash.
    assert_eq!(
        parse("\"x\\"),
        Err(ParseError {
            kind: ParseErrorKind::InvalidStr(StrError::Unterminated),
            span: Span { base: 3, len: 0 },
        })
    );
}

#[test]
fn it_parses_scalars() {
    assert_eq!(parse("true"), Ok(Node::True));
    assert_eq!(parse("false"), Ok(Node::False));
    assert_eq!(parse("null"), Ok(Node::Null));
    assert_eq!(parse("42"), Ok(Node::Int(42)));
    assert_eq!(parse("-7"), Ok(Node::Int(-7)));
    assert_eq!(parse("0"), Ok(Node::Int(0)));
}

#[test]
fn it_parses_floats_as_their_exact_text() {
    assert_eq!(parse("3.5e2"), Ok(Node::Float("3.5e2".to_string())));
    match parse("3.5e2") {
        Ok(Node::Float(text)) => {
            assert_eq!(text.parse::<f64>().unwrap(), 350.0f64);
        }
        other => panic!("expected a float node, got {:?}", other),
    }
    match parse("-0.618") {
        Ok(Node::Float(text)) => {
            assert_eq!(text.parse::<f64>().unwrap(), -0.618f64);
        }
        other => panic!("expected a float node, got {:?}", other),
    }
}

#[test]
fn it_parses_a_nested_document() {
    assert_eq!(
        parse("{\"a\": [1, 2.5, null], \"a\": true}"),
        Ok(Node::Object(vec![
            (
                "a".to_string(),
                Node::Array(vec![
                    Node::Int(1),
                    Node::Float("2.5".to_string()),
                    Node::Null
                ])
            ),
            ("a".to_string(), Node::True),
        ]))
    );
}

#[test]
fn it_saturates_integers_beyond_the_machine_range() {
    assert_eq!(
        parse("99999999999999999999999"),
        Ok(Node::Int(isize::MAX))
    );
    assert_eq!(
        parse("-99999999999999999999999"),
        Ok(Node::Int(isize::MIN))
    );
}

#[test]
fn it_rejects_unusable_tokens() {
    assert_eq!(
        parse(","),
        Err(ParseError {
            kind: ParseErrorKind::UnexpectedToken(TokenKind::Comma),
            span: Span { base: 0, len: 1 },
        })
    );
    assert_eq!(
        parse("potato"),
        Err(ParseError {
            kind: ParseErrorKind::InvalidIdent("potato".to_string()),
            span: Span { base: 0, len: 6 },
        })
    );
    assert_eq!(
        parse("@"),
        Err(ParseError {
            kind: ParseErrorKind::UnknownToken("@".to_string()),
            span: Span { base: 0, len: 1 },
        })
    );
    assert_eq!(
        parse("{"),
        Err(ParseError {
            kind: ParseErrorKind::UnexpectedEof,
            span: Span { base: 1, len: 0 },
        })
    );
}

#[test]
fn it_rejects_bad_string_contents() {
    assert_eq!(
        parse("\"\\x\""),
        Err(ParseError {
            kind: ParseErrorKind::InvalidStr(StrError::InvalidEscape),
            span: Span { base: 1, len: 2 },
        })
    );
    assert_eq!(
        parse("\"\u{0001}\""),
        Err(ParseError {
            kind: ParseErrorKind::InvalidStr(StrError::BadControlChar),
            span: Span { base: 1, len: 1 },
        })
    );
    assert_eq!(
        parse("\"\\u12G4\""),
        Err(ParseError {
            kind: ParseErrorKind::InvalidStr(StrError::BadUnicodeEscape),
            span: Span { base: 1, len: 5 },
        })
    );
}

#[test]
fn it_rejects_trailing_commas() {
    assert_eq!(
        parse("[1,]"),
        Err(ParseError {
            kind: ParseErrorKind::UnexpectedToken(TokenKind::CloseSquare),
            span: Span { base: 3, len: 1 },
        })
    );
    assert_eq!(
        parse("{\"a\":1,}"),
        Err(ParseError {
            kind: ParseErrorKind::UnexpectedToken(TokenKind::CloseBracket),
            span: Span { base: 7, len: 1 },
        })
    );
}
