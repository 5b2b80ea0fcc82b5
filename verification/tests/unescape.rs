use jsonparse::unescape::{unescape_string, EscapeError};

#[test]
fn it_unescapes_empty_string() {
    assert_eq!(unescape_string(""), Ok("".to_string()));
}

#[test]
fn it_unescapes_string_without_escapes() {
    assert_eq!(unescape_string("transformer"), Ok("transformer".to_string()));
}

#[test]
fn it_unescapes_string_with_escaped_double_quote() {
    assert_eq!(unescape_string("\\\""), Ok("\"".to_string()));
}

#[test]
fn it_unescapes_string_with_escaped_backspace() {
    assert_eq!(unescape_string("\\b"), Ok("\u{0008}".to_string()));
}

#[test]
fn it_unescapes_string_with_escaped_form_feed() {
    assert_eq!(unescape_string("\\f"), Ok("\u{000C}".to_string()));
}

#[test]
fn it_unescapes_string_with_escaped_line_feed() {
    assert_eq!(unescape_string("\\n"), Ok("\n".to_string()));
}

#[test]
fn it_unescapes_string_with_escaped_carriage_return() {
    assert_eq!(unescape_string("\\r"), Ok("\r".to_string()));
}

#[test]
fn it_unescapes_string_with_escaped_horizontal_tab() {
    assert_eq!(unescape_string("\\t"), Ok("\t".to_string()));
}

#[test]
fn it_unescapes_string_with_single_quote() {
    assert_eq!(unescape_string("\'"), Ok("'".to_string()));
}

#[test]
fn it_unescapes_string_with_emojis() {
    assert_eq!(
        unescape_string("\u{1F600}\u{2764}\u{FE0F}\u{200D}\u{1F525}\u{1F46C}"),
        Ok("\u{1F600}\u{2764}\u{FE0F}\u{200D}\u{1F525}\u{1F46C}".to_string())
    );
}

#[test]
fn it_unescapes_string_with_encoded_unicodes() {
    assert_eq!(
        unescape_string("\\u2665\\uFE0F"),
        Ok("\u{2665}\u{FE0F}".to_string())
    );
}

#[test]
fn it_fails_unescape_with_bare_backspace() {
    assert_eq!(
        unescape_string("\u{0008}"),
        Err((EscapeError::BareBackspace, 0..1))
    );
}

#[test]
fn it_fails_unescape_with_bare_form_feed() {
    assert_eq!(
        unescape_string("\u{000C}"),
        Err((EscapeError::BareFormFeed, 0..1))
    );
}

#[test]
fn it_fails_unescape_with_bare_line_feed() {
    assert_eq!(
        unescape_string("\n"),
        Err((EscapeError::BareLineFeed, 0..1))
    );
}

#[test]
fn it_fails_unescape_with_bare_carriage_return() {
    assert_eq!(
        unescape_string("\r"),
        Err((EscapeError::BareCarriageReturn, 0..1))
    );
}

#[test]
fn it_fails_unescape_with_bare_horizontal_tab() {
    assert_eq!(
        unescape_string("\t"),
        Err((EscapeError::BareHorizontalTab, 0..1))
    );
}

#[test]
fn it_fails_unescape_with_bare_double_quote() {
    assert_eq!(
        unescape_string("\""),
        Err((EscapeError::EscapeOnlyChar, 0..1))
    );
}

#[test]
fn it_fails_unescape_with_escaped_single_quote() {
    assert_eq!(
        unescape_string("\\\'"),
        Err((EscapeError::InvalidEscape, 0..2))
    );
}

#[test]
fn it_fails_unescape_with_bad_control_char() {
    assert_eq!(
        unescape_string("\0"),
        Err((EscapeError::BadControlChar, 0..1))
    );
}

#[test]
fn it_fails_unescape_with_lone_slash() {
    assert_eq!(
        unescape_string("hello\\"),
        Err((EscapeError::LoneSlash, 5..6))
    );
}

#[test]
fn it_fails_unescape_with_bad_unicode_escape() {
    assert_eq!(
        unescape_string("\\u"),
        Err((EscapeError::BadUnicodeEscape, 0..2))
    );
}

#[test]
fn it_fails_unescape_with_lone_surrogate_unicode_escape() {
    assert_eq!(
        unescape_string("\\uDFFF"),
        Err((EscapeError::LoneSurrogateUnicodeEscape, 0..6))
    );
}

#[test]
fn it_reports_byte_ranges_past_multibyte_characters() {
    // The heart is three bytes wide; the bad escape letter follows it.
    assert_eq!(
        unescape_string("\u{2665}\\z"),
        Err((EscapeError::InvalidEscape, 3..5))
    );
}
