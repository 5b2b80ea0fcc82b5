use jsonparse::chars::{is_id_continue, is_id_start};
use jsonparse::lexer::{skip_whitespace, tokenize};
use jsonparse::token::{Span, StrError, Token, TokenKind};

fn tok(kind: TokenKind, lo: usize, hi: usize) -> (Token, bool) {
    (Token { kind, span: Span { base: lo, len: hi - lo } }, false)
}

fn tok_ws(kind: TokenKind, lo: usize, hi: usize) -> (Token, bool) {
    (Token { kind, span: Span { base: lo, len: hi - lo } }, true)
}

#[test]
fn it_skips_past_several_whitespace_chars() {
    let data = " \t\n\r123";
    let should_be = 4;
    let num_skipped = skip_whitespace(data);
    assert_eq!(num_skipped, should_be);
}

#[test]
fn it_does_not_skip_when_first_is_not_whitespace() {
    let data = "Hello World";
    let should_be = 0;
    let num_skipped = skip_whitespace(data);
    assert_eq!(num_skipped, should_be);
}

#[test]
fn it_skips_multibyte_whitespace() {
    // The line separator is whitespace and three bytes wide in UTF-8.
    assert_eq!(skip_whitespace("\u{2028}x"), 3);
}

#[test]
fn it_tokenizes_true() {
    assert_eq!(tokenize("true"), vec![tok(TokenKind::True, 0, 4)]);
}

#[test]
fn it_tokenizes_false() {
    assert_eq!(tokenize("false"), vec![tok(TokenKind::False, 0, 5)]);
}

#[test]
fn it_tokenizes_null() {
    assert_eq!(tokenize("null"), vec![tok(TokenKind::Null, 0, 4)]);
}

#[test]
fn it_tokenizes_invalid_ident() {
    assert_eq!(
        tokenize("potato"),
        vec![tok(TokenKind::InvalidIdent("potato".to_string()), 0, 6)]
    );
}

#[test]
fn it_tokenizes_an_integer() {
    assert_eq!(tokenize("420"), vec![tok(TokenKind::Int(420), 0, 3)]);
}

#[test]
fn it_tokenizes_an_integer_with_space_around() {
    assert_eq!(
        tokenize(" 69\n \r"),
        vec![tok_ws(TokenKind::Int(69), 1, 3)]
    );
}

#[test]
fn it_tokenizes_a_decimal() {
    assert_eq!(
        tokenize("3.14"),
        vec![tok(TokenKind::Float("3.14".to_string()), 0, 4)]
    );
}

#[test]
fn it_tokenizes_a_negative_decimal() {
    assert_eq!(
        tokenize("-0.618"),
        vec![tok(TokenKind::Float("-0.618".to_string()), 0, 6)]
    );
}

#[test]
fn it_tokenizes_two_zeros() {
    assert_eq!(
        tokenize("00"),
        vec![tok(TokenKind::Int(0), 0, 1), tok(TokenKind::Int(0), 1, 2)]
    );
}

#[test]
fn it_tokenizes_a_integer_with_lone_period() {
    assert_eq!(
        tokenize("1."),
        vec![
            tok(TokenKind::Int(1), 0, 1),
            tok(TokenKind::Unknown(".".to_string()), 1, 2)
        ]
    );
}

#[test]
fn it_tokenizes_a_number_with_expontent() {
    assert_eq!(
        tokenize("0E000"),
        vec![tok(TokenKind::Float("0E000".to_string()), 0, 5)]
    );
}

#[test]
fn it_tokenizes_a_number_with_negative_expontent() {
    assert_eq!(
        tokenize("1.125e-5"),
        vec![tok(TokenKind::Float("1.125e-5".to_string()), 0, 8)]
    );
}

#[test]
fn it_tokenizes_a_number_with_positive_expontent() {
    assert_eq!(
        tokenize("-5e+20"),
        vec![tok(TokenKind::Float("-5e+20".to_string()), 0, 6)]
    );
}

#[test]
fn it_tokenizes_a_number_with_lone_expontent() {
    assert_eq!(
        tokenize("-0.12E"),
        vec![
            tok(TokenKind::Float("-0.12".to_string()), 0, 5),
            tok(TokenKind::InvalidIdent("E".to_string()), 5, 6)
        ]
    );
}

#[test]
fn it_tokenizes_a_number_with_decimal_expontent() {
    assert_eq!(
        tokenize("12.0e1.0"),
        vec![
            tok(TokenKind::Float("12.0e1".to_string()), 0, 6),
            tok(TokenKind::Unknown(".".to_string()), 6, 7),
            tok(TokenKind::Int(0), 7, 8)
        ]
    );
}

#[test]
fn it_tokenizes_the_empty_string() {
    assert_eq!(
        tokenize("\"\""),
        vec![tok(TokenKind::Str("".to_string()), 0, 2)]
    );
}

#[test]
fn it_tokenizes_a_string_with_an_escaped_quote() {
    assert_eq!(
        tokenize("\"\\\"\""),
        vec![tok(TokenKind::Str("\"".to_string()), 0, 4)]
    );
}

#[test]
fn it_tokenizes_an_unterminated_string() {
    assert_eq!(
        tokenize("\""),
        vec![tok(TokenKind::InvalidStr(StrError::Unterminated, 1, 0), 0, 1)]
    );
}

#[test]
fn it_tokenizes_another_unterminated_string() {
    assert_eq!(
        tokenize("\"\\\""),
        vec![tok(TokenKind::InvalidStr(StrError::Unterminated, 3, 0), 0, 3)]
    );
}

#[test]
fn it_tokenizes_a_string_with_bare_line_feed() {
    assert_eq!(
        tokenize("\"\n\""),
        vec![tok(TokenKind::InvalidStr(StrError::BareLineFeed, 1, 1), 0, 3)]
    );
}

#[test]
fn it_tokenizes_an_array_of_objects() {
    let input = "[{ \"name\": \"Adrien\", \"age\": 23, \"hungry\": true, \"health\": 0.9, \"girlfriend\": null }]";
    assert_eq!(
        tokenize(input),
        vec![
            tok(TokenKind::OpenSquare, 0, 1),
            tok(TokenKind::OpenBracket, 1, 2),
            tok_ws(TokenKind::Str("name".to_string()), 3, 9),
            tok(TokenKind::Colon, 9, 10),
            tok_ws(TokenKind::Str("Adrien".to_string()), 11, 19),
            tok(TokenKind::Comma, 19, 20),
            tok_ws(TokenKind::Str("age".to_string()), 21, 26),
            tok(TokenKind::Colon, 26, 27),
            tok_ws(TokenKind::Int(23), 28, 30),
            tok(TokenKind::Comma, 30, 31),
            tok_ws(TokenKind::Str("hungry".to_string()), 32, 40),
            tok(TokenKind::Colon, 40, 41),
            tok_ws(TokenKind::True, 42, 46),
            tok(TokenKind::Comma, 46, 47),
            tok_ws(TokenKind::Str("health".to_string()), 48, 56),
            tok(TokenKind::Colon, 56, 57),
            tok_ws(TokenKind::Float("0.9".to_string()), 58, 61),
            tok(TokenKind::Comma, 61, 62),
            tok_ws(TokenKind::Str("girlfriend".to_string()), 63, 75),
            tok(TokenKind::Colon, 75, 76),
            tok_ws(TokenKind::Null, 77, 81),
            tok_ws(TokenKind::CloseBracket, 82, 83),
            tok(TokenKind::CloseSquare, 83, 84),
        ]
    );
}

#[test]
fn it_reports_identifier_classes_from_the_unicode_tables() {
    assert!(is_id_start('a'));
    assert!(is_id_start('Z'));
    assert!(!is_id_start('1'));
    assert!(!is_id_start('{'));
    assert!(is_id_continue('1'));
    assert!(is_id_continue('_'));
    assert!(!is_id_continue('-'));
}
