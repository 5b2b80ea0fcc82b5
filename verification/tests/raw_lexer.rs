use jsonparse::cursor::{Cursor, Token, TokenKind};
use jsonparse::token::{Span, StrError, Token as CookedToken, TokenKind as CookedKind};
use jsonparse::unescape::EscapeError;

fn raw_tokens(input: &str) -> Vec<Token> {
    let mut cursor = Cursor::new(input);
    let mut out = Vec::new();
    loop {
        let token = cursor.advance_token();
        if token.kind == TokenKind::Eof {
            return out;
        }
        out.push(token);
    }
}

#[test]
fn raw_it_tokenizes_true() {
    assert_eq!(
        raw_tokens("true"),
        vec![Token { kind: TokenKind::Ident, len: 4 }]
    );
}

#[test]
fn raw_it_tokenizes_invalid_ident() {
    assert_eq!(
        raw_tokens("potato"),
        vec![Token { kind: TokenKind::Ident, len: 6 }]
    );
}

#[test]
fn raw_it_tokenizes_a_negative_integer() {
    assert_eq!(
        raw_tokens("-1600"),
        vec![Token { kind: TokenKind::Int, len: 5 }]
    );
}

#[test]
fn raw_it_tokenizes_an_integer_with_space_around() {
    assert_eq!(
        raw_tokens(" 69\n \r"),
        vec![
            Token { kind: TokenKind::Whitespace, len: 1 },
            Token { kind: TokenKind::Int, len: 2 },
            Token { kind: TokenKind::Whitespace, len: 3 },
        ]
    );
}

#[test]
fn raw_it_tokenizes_a_decimal() {
    assert_eq!(
        raw_tokens("3.14"),
        vec![Token { kind: TokenKind::Float, len: 4 }]
    );
}

#[test]
fn raw_it_tokenizes_two_zeros() {
    assert_eq!(
        raw_tokens("00"),
        vec![
            Token { kind: TokenKind::Int, len: 1 },
            Token { kind: TokenKind::Int, len: 1 },
        ]
    );
}

#[test]
fn raw_it_tokenizes_a_string_with_linefeed() {
    assert_eq!(
        raw_tokens("\"\n\""),
        vec![Token { kind: TokenKind::Str { terminated: true }, len: 3 }]
    );
}

#[test]
fn raw_it_tokenizes_a_string_with_an_unescaped_quote() {
    assert_eq!(
        raw_tokens("\"\"\""),
        vec![
            Token { kind: TokenKind::Str { terminated: true }, len: 2 },
            Token { kind: TokenKind::Str { terminated: false }, len: 1 },
        ]
    );
}

#[test]
fn raw_it_tokenizes_a_luxembourgish_flag() {
    // Two regional-indicator characters, each four bytes wide in UTF-8.
    assert_eq!(
        raw_tokens("\u{1F1F1}\u{1F1FA}"),
        vec![
            Token { kind: TokenKind::Unknown, len: 4 },
            Token { kind: TokenKind::Unknown, len: 4 },
        ]
    );
}

#[test]
fn raw_it_keeps_punctuation_single_width() {
    assert_eq!(
        raw_tokens("{}[]:,"),
        vec![
            Token { kind: TokenKind::OpenBracket, len: 1 },
            Token { kind: TokenKind::CloseBracket, len: 1 },
            Token { kind: TokenKind::OpenSquare, len: 1 },
            Token { kind: TokenKind::CloseSquare, len: 1 },
            Token { kind: TokenKind::Colon, len: 1 },
            Token { kind: TokenKind::Comma, len: 1 },
        ]
    );
}

#[test]
fn raw_it_returns_eof_idempotently() {
    let mut cursor = Cursor::new("1");
    assert_eq!(
        cursor.advance_token(),
        Token { kind: TokenKind::Int, len: 1 }
    );
    assert_eq!(cursor.advance_token(), Token { kind: TokenKind::Eof, len: 0 });
    assert_eq!(cursor.advance_token(), Token { kind: TokenKind::Eof, len: 0 });
}

#[test]
fn raw_it_gives_a_lone_minus_a_single_unknown() {
    assert_eq!(
        raw_tokens("-x"),
        vec![
            Token { kind: TokenKind::Unknown, len: 1 },
            Token { kind: TokenKind::Ident, len: 1 },
        ]
    );
}

#[test]
fn it_builds_tokens_and_spans() {
    let span = Span::new(3, 9);
    assert_eq!(span, Span { base: 3, len: 6 });
    let token = CookedToken::new(CookedKind::Colon, span);
    assert_eq!(token.kind, CookedKind::Colon);
    assert_eq!(token.span, Span { base: 3, len: 6 });
    let dummy = CookedToken::dummy();
    assert_eq!(dummy.kind, CookedKind::Unknown("".to_string()));
    assert_eq!(dummy.span, Span { base: 0, len: 0 });
}

#[test]
fn it_maps_unescape_errors_to_string_errors() {
    assert_eq!(StrError::from(EscapeError::LoneSlash), StrError::Unterminated);
    assert_eq!(
        StrError::from(EscapeError::BareLineFeed),
        StrError::BareLineFeed
    );
    assert_eq!(
        StrError::from(EscapeError::LoneSurrogateUnicodeEscape),
        StrError::LoneSurrogateUnicodeEscape
    );
}
