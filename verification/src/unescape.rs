//! The unescape engine: given the text between the quotes of a string lexeme,
//! decodes backslash escapes and rejects bare control characters, yielding
//! either the decoded characters or the first error with its byte range
//! relative to the start of that text.
//!
//! The spec functions [`esc_scan`] and [`un_scan`] are the engine's model
//! over character indices; [`unescape_model`] turns the model's error
//! positions into byte offsets, as reported.

use vstd::prelude::*;

use core::ops::Range;

use crate::chars::{
    byte_len, char_len, char_of_scalar, char_utf8_len, control_char, hex_digit_val, hex_val,
    is_hex_char, lemma_byte_len_mono, lemma_byte_len_take_all, lemma_byte_len_take_step,
    str_to_chars, chars_to_string,
};

verus! {

/// Errors that can occur during string unescaping.
#[derive(Debug, Clone, Copy, PartialEq, Eq)]
pub enum EscapeError {
    /// A `\` at the end of the text, with nothing following it.
    LoneSlash,
    /// An unrecognized escape letter.
    InvalidEscape,
    /// A raw backspace character.
    BareBackspace,
    /// A raw form feed character.
    BareFormFeed,
    /// A raw line feed character.
    BareLineFeed,
    /// A raw carriage return character.
    BareCarriageReturn,
    /// A raw horizontal tab character.
    BareHorizontalTab,
    /// Any other raw control character.
    BadControlChar,
    /// A raw character that must always be escaped: the double quote.
    EscapeOnlyChar,
    /// A `\u` escape without four hexadecimal digits after it.
    BadUnicodeEscape,
    /// A `\u` escape whose value falls in the surrogate range.
    LoneSurrogateUnicodeEscape,
    /// A `\u` escape whose value lies beyond the last scalar value.
    OutOfRangeUnicodeEscape,
}

/// Scan of one backslash escape: `i` points at the backslash. On success,
/// the decoded character and the index just after the escape; on failure,
/// the error and the index just after what the scan consumed.
pub open spec fn esc_scan(s: Seq<char>, i: int, hi: int) -> Result<
    (char, int),
    (EscapeError, int),
>
    recommends
        0 <= i < hi <= s.len(),
        s[i] == '\\',
{
    if i + 1 >= hi {
        Err((EscapeError::LoneSlash, i + 1))
    } else {
        let c = s[i + 1];
        if c == '"' {
            Ok(('"', i + 2))
        } else if c == '\\' {
            Ok(('\\', i + 2))
        } else if c == '/' {
            Ok(('/', i + 2))
        } else if c == 'b' {
            Ok(('\u{0008}', i + 2))
        } else if c == 'f' {
            Ok(('\u{000C}', i + 2))
        } else if c == 'n' {
            Ok(('\n', i + 2))
        } else if c == 'r' {
            Ok(('\r', i + 2))
        } else if c == 't' {
            Ok(('\t', i + 2))
        } else if c == 'u' {
            if i + 2 >= hi {
                Err((EscapeError::BadUnicodeEscape, i + 2))
            } else if !is_hex_char(s[i + 2]) {
                Err((EscapeError::BadUnicodeEscape, i + 3))
            } else if i + 3 >= hi {
                Err((EscapeError::BadUnicodeEscape, i + 3))
            } else if !is_hex_char(s[i + 3]) {
                Err((EscapeError::BadUnicodeEscape, i + 4))
            } else if i + 4 >= hi {
                Err((EscapeError::BadUnicodeEscape, i + 4))
            } else if !is_hex_char(s[i + 4]) {
                Err((EscapeError::BadUnicodeEscape, i + 5))
            } else if i + 5 >= hi {
                Err((EscapeError::BadUnicodeEscape, i + 5))
            } else if !is_hex_char(s[i + 5]) {
                Err((EscapeError::BadUnicodeEscape, i + 6))
            } else {
                let v = hex_val(s[i + 2]) * 4096 + hex_val(s[i + 3]) * 256 + hex_val(s[i + 4]) * 16
                    + hex_val(s[i + 5]);
                if 0xD800 <= v <= 0xDFFF {
                    Err((EscapeError::LoneSurrogateUnicodeEscape, i + 6))
                } else {
                    Ok((((v as u32) as char), i + 6))
                }
            }
        } else {
            Err((EscapeError::InvalidEscape, i + 2))
        }
    }
}

/// Scan of the string text `s[i..hi]`, one scalar at a time: the decoded
/// characters, or the first error with the character range it covers.
pub open spec fn un_scan(s: Seq<char>, i: int, hi: int) -> Result<
    Seq<char>,
    (EscapeError, int, int),
>
    recommends
        0 <= i <= hi <= s.len(),
    decreases hi - i,
{
    if i < 0 || i >= hi {
        Ok(Seq::empty())
    } else {
        let c = s[i];
        if c == '\\' {
            match esc_scan(s, i, hi) {
                Ok((d, j)) => match un_scan(s, j, hi) {
                    Ok(rest) => Ok(seq![d] + rest),
                    Err(e) => Err(e),
                },
                Err((e, ce)) => Err((e, i, ce)),
            }
        } else if c == '"' {
            Err((EscapeError::EscapeOnlyChar, i, i + 1))
        } else if c == '\u{0008}' {
            Err((EscapeError::BareBackspace, i, i + 1))
        } else if c == '\u{000C}' {
            Err((EscapeError::BareFormFeed, i, i + 1))
        } else if c == '\n' {
            Err((EscapeError::BareLineFeed, i, i + 1))
        } else if c == '\r' {
            Err((EscapeError::BareCarriageReturn, i, i + 1))
        } else if c == '\t' {
            Err((EscapeError::BareHorizontalTab, i, i + 1))
        } else if control_char(c) {
            Err((EscapeError::BadControlChar, i, i + 1))
        } else {
            match un_scan(s, i + 1, hi) {
                Ok(rest) => Ok(seq![c] + rest),
                Err(e) => Err(e),
            }
        }
    }
}

/// The engine's result over the window `s[from..hi]`, with the error's
/// character range turned into byte offsets relative to the window start.
pub open spec fn unescape_model(s: Seq<char>, from: int, hi: int) -> Result<
    Seq<char>,
    (EscapeError, int, int),
> {
    match un_scan(s, from, hi) {
        Ok(d) => Ok(d),
        Err((e, cs, ce)) => Err(
            (
                e,
                byte_len(s.take(cs)) - byte_len(s.take(from)),
                byte_len(s.take(ce)) - byte_len(s.take(from)),
            ),
        ),
    }
}

/// Prepending already-decoded characters to the outcome of the rest of a scan.
pub open spec fn un_prepend(p: Seq<char>, r: Result<Seq<char>, (EscapeError, int, int)>) -> Result<
    Seq<char>,
    (EscapeError, int, int),
> {
    match r {
        Ok(d) => Ok(p + d),
        Err(e) => Err(e),
    }
}

/// A failed scan reports a non-empty character range inside the window.
pub proof fn lemma_un_scan_err_bounds(s: Seq<char>, i: int, hi: int)
    requires
        0 <= i <= hi <= s.len(),
    ensures
        un_scan(s, i, hi) matches Err((e, cs, ce)) ==> i <= cs < ce <= hi,
    decreases hi - i,
{
    if i < hi {
        let c = s[i];
        if c == '\\' {
            match esc_scan(s, i, hi) {
                Ok((d, j)) => {
                    lemma_un_scan_err_bounds(s, j, hi);
                },
                Err((e, ce)) => {},
            }
        } else {
            lemma_un_scan_err_bounds(s, i + 1, hi);
        }
    }
}

/// Scan one backslash escape starting at character index `i`. Returns the
/// outcome in character indices, paired with the byte width of what the scan
/// consumed.
pub fn scan_escape(v: &Vec<char>, i: usize, to: usize) -> (r: (
    Result<(char, usize), (EscapeError, usize)>,
    usize,
))
    requires
        i < to <= v@.len(),
        v@[i as int] == '\\',
        byte_len(v@) <= usize::MAX,
    ensures
        ({
            let m = esc_scan(v@, i as int, to as int);
            match m {
                Ok((mc, mj)) => r.0 == Ok::<(char, usize), (EscapeError, usize)>(
                    (mc, mj as usize),
                ) && r.1 == byte_len(v@.take(mj)) - byte_len(v@.take(i as int)),
                Err((me, mce)) => r.0 == Err::<(char, usize), (EscapeError, usize)>(
                    (me, mce as usize),
                ) && r.1 == byte_len(v@.take(mce)) - byte_len(v@.take(i as int)),
            }
        }),
{
    let ghost s = v@;
    proof {
        lemma_byte_len_take_step(s, i as int);
        assert(char_len('\\') == 1);
    }
    if i + 1 >= to {
        return (Err((EscapeError::LoneSlash, i + 1)), 1);
    }
    let c = v[i + 1];
    proof {
        lemma_byte_len_take_step(s, i as int + 1);
    }
    if c == '"' {
        (Ok(('"', i + 2)), 2)
    } else if c == '\\' {
        (Ok(('\\', i + 2)), 2)
    } else if c == '/' {
        (Ok(('/', i + 2)), 2)
    } else if c == 'b' {
        (Ok(('\u{0008}', i + 2)), 2)
    } else if c == 'f' {
        (Ok(('\u{000C}', i + 2)), 2)
    } else if c == 'n' {
        (Ok(('\n', i + 2)), 2)
    } else if c == 'r' {
        (Ok(('\r', i + 2)), 2)
    } else if c == 't' {
        (Ok(('\t', i + 2)), 2)
    } else if c == 'u' {
        if i + 2 >= to {
            return (Err((EscapeError::BadUnicodeEscape, i + 2)), 2);
        }
        let h0 = v[i + 2];
        proof {
            lemma_byte_len_take_step(s, i as int + 2);
        }
        let d0 = match hex_digit_val(h0) {
            Some(d) => d,
            None => {
                return (Err((EscapeError::BadUnicodeEscape, i + 3)), 2 + char_utf8_len(h0));
            },
        };
        if i + 3 >= to {
            return (Err((EscapeError::BadUnicodeEscape, i + 3)), 3);
        }
        let h1 = v[i + 3];
        proof {
            lemma_byte_len_take_step(s, i as int + 3);
        }
        let d1 = match hex_digit_val(h1) {
            Some(d) => d,
            None => {
                return (Err((EscapeError::BadUnicodeEscape, i + 4)), 3 + char_utf8_len(h1));
            },
        };
        if i + 4 >= to {
            return (Err((EscapeError::BadUnicodeEscape, i + 4)), 4);
        }
        let h2 = v[i + 4];
        proof {
            lemma_byte_len_take_step(s, i as int + 4);
        }
        let d2 = match hex_digit_val(h2) {
            Some(d) => d,
            None => {
                return (Err((EscapeError::BadUnicodeEscape, i + 5)), 4 + char_utf8_len(h2));
            },
        };
        if i + 5 >= to {
            return (Err((EscapeError::BadUnicodeEscape, i + 5)), 5);
        }
        let h3 = v[i + 5];
        proof {
            lemma_byte_len_take_step(s, i as int + 5);
        }
        let d3 = match hex_digit_val(h3) {
            Some(d) => d,
            None => {
                return (Err((EscapeError::BadUnicodeEscape, i + 6)), 5 + char_utf8_len(h3));
            },
        };
        let val: u32 = d0 * 4096 + d1 * 256 + d2 * 16 + d3;
        if 0xD800 <= val && val <= 0xDFFF {
            return (Err((EscapeError::LoneSurrogateUnicodeEscape, i + 6)), 6);
        }
        let dc = char_of_scalar(val);
        proof {
            vstd::utf8::char_u32_cast(dc, val);
        }
        (Ok((dc, i + 6)), 6)
    } else {
        (Err((EscapeError::InvalidEscape, i + 2)), 1 + char_utf8_len(c))
    }
}

/// Scan the window `v[from..to]`, decoding escapes; errors carry byte offsets
/// relative to the window start.
#[verifier::rlimit(50)]
pub fn unescape_range(v: &Vec<char>, from: usize, to: usize) -> (r: Result<
    Vec<char>,
    (EscapeError, usize, usize),
>)
    requires
        from <= to <= v@.len(),
        byte_len(v@) <= usize::MAX,
    ensures
        ({
            let m = unescape_model(v@, from as int, to as int);
            match m {
                Ok(d) => r matches Ok(out) && out@ == d,
                Err((me, mbs, mbe)) => r == Err::<Vec<char>, (EscapeError, usize, usize)>(
                    (me, mbs as usize, mbe as usize),
                ),
            }
        }),
{
    let ghost s = v@;
    let mut out: Vec<char> = Vec::new();
    let mut i: usize = from;
    let mut b: usize = 0;
    proof {
        lemma_byte_len_mono(s, 0, from as int);
        lemma_byte_len_mono(s, from as int, to as int);
        lemma_byte_len_mono(s, to as int, s.len() as int);
        lemma_byte_len_take_all(s);
        assert(s.take(0) =~= Seq::empty());
        assert(un_prepend(out@, un_scan(s, from as int, to as int)) == un_scan(
            s,
            from as int,
            to as int,
        )) by {
            match un_scan(s, from as int, to as int) {
                Ok(d) => {
                    assert(out@ + d =~= d);
                },
                Err(e) => {},
            }
        }
    }
    loop
        invariant
            from <= i <= to <= s.len(),
            v@ == s,
            byte_len(s) <= usize::MAX,
            b == byte_len(s.take(i as int)) - byte_len(s.take(from as int)),
            un_prepend(out@, un_scan(s, i as int, to as int)) == un_scan(s, from as int, to as int),
        decreases to - i,
    {
        proof {
            lemma_byte_len_mono(s, 0, from as int);
            lemma_byte_len_mono(s, from as int, i as int);
            lemma_byte_len_mono(s, i as int, to as int);
            lemma_byte_len_mono(s, to as int, s.len() as int);
            lemma_byte_len_take_all(s);
            assert(s.take(0) =~= Seq::empty());
        }
        if i >= to {
            proof {
                assert(un_scan(s, i as int, to as int) == Ok::<
                    Seq<char>,
                    (EscapeError, int, int),
                >(Seq::empty()));
                assert(out@ + Seq::<char>::empty() =~= out@);
            }
            return Ok(out);
        }
        let c = v[i];
        proof {
            lemma_byte_len_take_step(s, i as int);
            lemma_byte_len_mono(s, i as int + 1, to as int);
        }
        if c == '\\' {
            let (res, nb) = scan_escape(v, i, to);
            proof {
                let m = esc_scan(s, i as int, to as int);
                let me: int = match m {
                    Ok((_, mj)) => mj,
                    Err((_, mce)) => mce,
                };
                assert(i < me <= to);
                lemma_byte_len_mono(s, i as int, me);
                lemma_byte_len_mono(s, me, to as int);
            }
            match res {
                Ok((d, j)) => {
                    proof {
                        let m = esc_scan(s, i as int, to as int);
                        assert(m == Ok::<(char, int), (EscapeError, int)>((d, j as int)));
                        assert(i <= j <= to);
                        lemma_byte_len_mono(s, i as int, j as int);
                        let rest = un_scan(s, j as int, to as int);
                        assert(un_scan(s, i as int, to as int) == (match rest {
                            Ok(rd) => Ok::<Seq<char>, (EscapeError, int, int)>(seq![d] + rd),
                            Err(e) => Err::<Seq<char>, (EscapeError, int, int)>(e),
                        }));
                        match rest {
                            Ok(rd) => {
                                assert((out@ + seq![d]) + rd =~= out@ + (seq![d] + rd));
                                assert(un_prepend(out@ + seq![d], rest) == un_prepend(
                                    out@,
                                    un_scan(s, i as int, to as int),
                                ));
                            },
                            Err(e) => {},
                        }
                        assert(out@.push(d) =~= out@ + seq![d]);
                    }
                    out.push(d);
                    i = j;
                    b = b + nb;
                },
                Err((e, ce)) => {
                    return Err((e, b, b + nb));
                },
            }
        } else if c == '"' {
            return Err((EscapeError::EscapeOnlyChar, b, b + 1));
        } else if c == '\u{0008}' {
            return Err((EscapeError::BareBackspace, b, b + 1));
        } else if c == '\u{000C}' {
            return Err((EscapeError::BareFormFeed, b, b + 1));
        } else if c == '\n' {
            return Err((EscapeError::BareLineFeed, b, b + 1));
        } else if c == '\r' {
            return Err((EscapeError::BareCarriageReturn, b, b + 1));
        } else if c == '\t' {
            return Err((EscapeError::BareHorizontalTab, b, b + 1));
        } else if crate::chars::is_control_char(c) {
            return Err((EscapeError::BadControlChar, b, b + char_utf8_len(c)));
        } else {
            proof {
                lemma_byte_len_mono(s, i as int + 1, to as int);
                let rest = un_scan(s, i as int + 1, to as int);
                assert(un_scan(s, i as int, to as int) == (match rest {
                    Ok(rd) => Ok::<Seq<char>, (EscapeError, int, int)>(seq![c] + rd),
                    Err(e) => Err::<Seq<char>, (EscapeError, int, int)>(e),
                }));
                match rest {
                    Ok(rd) => {
                        assert((out@ + seq![c]) + rd =~= out@ + (seq![c] + rd));
                    },
                    Err(e) => {},
                }
                assert(out@.push(c) =~= out@ + seq![c]);
            }
            out.push(c);
            b = b + char_utf8_len(c);
            i = i + 1;
        }
    }
}

/// Decode the escapes of a string body, or report the first error and the
/// byte range it covers within the given text.
pub fn unescape_string(input: &str) -> (r: Result<String, (EscapeError, Range<usize>)>)
    ensures
        ({
            let m = unescape_model(input@, 0, input@.len() as int);
            match m {
                Ok(d) => r matches Ok(out) && out@ == d,
                Err((me, mbs, mbe)) => r matches Err((e, rng)) && e == me && rng.start == mbs
                    && rng.end == mbe,
            }
        }),
{
    let v = str_to_chars(input);
    let n = v.len();
    proof {
        lemma_un_scan_err_bounds(v@, 0, n as int);
        match un_scan(v@, 0, n as int) {
            Err((e, cs, ce)) => {
                lemma_byte_len_mono(v@, 0, cs);
                lemma_byte_len_mono(v@, cs, ce);
                lemma_byte_len_mono(v@, ce, n as int);
                lemma_byte_len_take_all(v@);
                assert(v@.take(0) =~= Seq::empty());
            },
            Ok(d) => {},
        }
    }
    match unescape_range(&v, 0, n) {
        Ok(out) => {
            let decoded = chars_to_string(&out, 0, out.len());
            proof {
                assert(out@.subrange(0, out@.len() as int) =~= out@);
            }
            Ok(decoded)
        },
        Err((e, bs, be)) => Err((e, Range { start: bs, end: be })),
    }
}

} // verus!
