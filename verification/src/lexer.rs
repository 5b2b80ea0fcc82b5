//! The token cooker: consumes raw lexemes, applies the unescape engine to
//! strings, parses numeric text to machine values, validates identifiers
//! against the literal keywords, and assigns an absolute byte span to each
//! resulting token, discarding whitespace while recording that it was seen.

use vstd::prelude::*;

use crate::chars::{
    byte_len, digit_val, is_digit_char, lemma_byte_len_mono, lemma_byte_len_take_all,
    lemma_byte_len_take_step,
};
use crate::cursor::{
    digits_end, lemma_digits_end_bounds, lemma_digits_end_run, lemma_raw_scan_bounds,
    lemma_str_scan_bounds, num_scan, raw_scan, ws_end, Cursor, TokenKind as RawTokenKind,
};
use crate::token::{str_error_of, Span, StrError, Token, TokenKind, TokenModel, TokenKindModel};
use crate::unescape::{
    lemma_un_scan_err_bounds, un_scan, unescape_model, unescape_range, EscapeError,
};
use crate::chars::{char_utf8_len, chars_to_string, is_whitespace_char, str_to_chars, ws_char};

verus! {

/// Value of the decimal digits `s[i..j]`.
pub open spec fn dec_val(s: Seq<char>, i: int, j: int) -> int
    decreases j - i,
{
    if j <= i {
        0
    } else {
        dec_val(s, i, j - 1) * 10 + digit_val(s[j - 1])
    }
}

/// Value of an integer lexeme `s[i..j]`: decimal digits with an optional
/// leading minus sign.
pub open spec fn int_text_val(s: Seq<char>, i: int, j: int) -> int {
    if i < j && s[i] == '-' {
        -dec_val(s, i + 1, j)
    } else {
        dec_val(s, i, j)
    }
}

/// A value clamped to the machine integer range.
pub open spec fn clamp_isize(v: int) -> int {
    if v > isize::MAX as int {
        isize::MAX as int
    } else if v < isize::MIN as int {
        isize::MIN as int
    } else {
        v
    }
}

pub proof fn lemma_dec_val_nonneg(s: Seq<char>, i: int, j: int)
    requires
        forall|k: int| i <= k < j ==> is_digit_char(#[trigger] s[k]),
    ensures
        dec_val(s, i, j) >= 0,
    decreases j - i,
{
    if j > i {
        lemma_dec_val_nonneg(s, i, j - 1);
    }
}

/// Parse the digits `v[from..to]`, with an optional leading minus sign, to a
/// machine integer; a value beyond the machine range saturates at the bound.
pub fn parse_int(v: &Vec<char>, from: usize, to: usize) -> (r: isize)
    requires
        from < to <= v@.len(),
        v@[from as int] == '-' ==> from + 1 < to,
        forall|k: int|
            (if v@[from as int] == '-' {
                from + 1
            } else {
                from as int
            }) <= k < to ==> is_digit_char(#[trigger] v@[k]),
    ensures
        r as int == clamp_isize(int_text_val(v@, from as int, to as int)),
{
    let ghost s = v@;
    let neg = v[from] == '-';
    let start: usize = if neg {
        from + 1
    } else {
        from
    };
    let mut acc: isize = 0;
    let mut i: usize = start;
    proof {
        assert(dec_val(s, start as int, start as int) == 0);
    }
    while i < to
        invariant
            from as int <= start as int <= i <= to <= s.len(),
            v@ == s,
            neg == (s[from as int] == '-'),
            start as int == if neg {
                from + 1
            } else {
                from as int
            },
            forall|k: int| start <= k < to ==> is_digit_char(#[trigger] s[k]),
            acc as int == (if -dec_val(s, start as int, i as int) >= isize::MIN as int {
                -dec_val(s, start as int, i as int)
            } else {
                isize::MIN as int
            }),
        decreases to - i,
    {
        let c = v[i];
        proof {
            assert(is_digit_char(s[i as int]));
            lemma_dec_val_nonneg(s, start as int, i as int);
            lemma_dec_val_nonneg(s, start as int, i as int + 1);
            assert(dec_val(s, start as int, i as int + 1) == dec_val(s, start as int, i as int)
                * 10 + digit_val(s[i as int]));
        }
        let d: u32 = c as u32 - 0x30;
        let t: i128 = (acc as i128) * 10 - (d as i128);
        acc = if t < (isize::MIN as i128) {
            isize::MIN
        } else {
            t as isize
        };
        i = i + 1;
    }
    proof {
        lemma_dec_val_nonneg(s, start as int, to as int);
    }
    if neg {
        acc
    } else {
        if acc == isize::MIN {
            isize::MAX
        } else {
            -acc
        }
    }
}

/// Digits `t[p..]` reaching exactly to the end of the text.
pub open spec fn digits_to_end(t: Seq<char>, p: int) -> bool {
    p < t.len() && is_digit_char(t[p]) && digits_end(t, p) == t.len()
}

/// An exponent part filling `t[p..]`: a marker, an optional sign, and digits.
pub open spec fn exp_text_from(t: Seq<char>, p: int) -> bool {
    &&& p < t.len()
    &&& (t[p] == 'e' || t[p] == 'E')
    &&& ({
        let q = if p + 1 < t.len() && (t[p + 1] == '+' || t[p + 1] == '-') {
            p + 2
        } else {
            p + 1
        };
        digits_to_end(t, q)
    })
}

/// What may follow the integer part of a numeric text: nothing, an exponent,
/// or a fraction followed by nothing or an exponent.
pub open spec fn num_tail_from(t: Seq<char>, p: int) -> bool {
    ||| p == t.len()
    ||| exp_text_from(t, p)
    ||| (p + 1 < t.len() && t[p] == '.' && is_digit_char(t[p + 1]) && {
        let q = digits_end(t, p + 1);
        q == t.len() || exp_text_from(t, q)
    })
}

/// The whole text is one number: an optional minus sign, an integer part,
/// and a tail as above. Every such text is accepted by the standard
/// double-precision parser.
pub open spec fn number_text(t: Seq<char>) -> bool {
    let b: int = if t.len() > 0 && t[0] == '-' {
        1
    } else {
        0
    };
    &&& b < t.len()
    &&& is_digit_char(t[b])
    &&& num_tail_from(t, digits_end(t, b))
}

/// A digit run within a window of the text, seen from inside the window.
pub proof fn lemma_digits_end_subrange(s: Seq<char>, a: int, b: int, i: int)
    requires
        0 <= a <= i <= b <= s.len(),
    ensures
        digits_end(s.subrange(a, b), i - a) == (if digits_end(s, i) <= b {
            digits_end(s, i)
        } else {
            b
        }) - a,
    decreases b - i,
{
    let t = s.subrange(a, b);
    lemma_digits_end_bounds(s, i);
    if i < b && is_digit_char(s[i]) {
        assert(t[i - a] == s[i]);
        lemma_digits_end_subrange(s, a, b, i + 1);
    } else if i == b {
        assert(digits_end(t, i - a) == i - a);
    } else {
        assert(t[i - a] == s[i]);
        assert(digits_end(t, i - a) == i - a);
    }
}

/// An integer lexeme consists of its first digit and the digit run after it.
pub proof fn lemma_int_lexeme_digits(s: Seq<char>, i: int)
    requires
        0 <= i < s.len(),
        is_digit_char(s[i]),
        !num_scan(s, i).0,
    ensures
        i < num_scan(s, i).1 <= s.len(),
        forall|k: int| i <= k < num_scan(s, i).1 ==> is_digit_char(#[trigger] s[k]),
{
    lemma_digits_end_run(s, i + 1);
}

/// A float lexeme, taken with its optional minus sign, is a number text.
pub proof fn lemma_float_lexeme_text(s: Seq<char>, start: int, i: int)
    requires
        0 <= start <= i < s.len(),
        i == start || (i == start + 1 && s[start] == '-'),
        is_digit_char(s[i]),
        num_scan(s, i).0,
    ensures
        number_text(s.subrange(start, num_scan(s, i).1)),
{
    let e = num_scan(s, i).1;
    lemma_digits_end_bounds(s, i + 1);
    crate::cursor::lemma_num_scan_bounds(s, i);
    let t = s.subrange(start, e);
    let e0 = if s[i] == '0' {
        i + 1
    } else {
        digits_end(s, i + 1)
    };
    // The integer part's digit run, seen from inside the lexeme.
    assert(digits_end(s, i) == digits_end(s, i + 1));
    let b: int = i - start;
    assert(t[0] == s[start]);
    assert(t[b] == s[i]);
    if s[i] == '0' {
        // A float lexeme's zero integer part is followed by `.`, `e` or `E`,
        // so the digit run from the zero is that single digit.
        assert(e0 < s.len() && !is_digit_char(s[e0]));
        assert(digits_end(s, i + 1) == i + 1);
    }
    assert(digits_end(s, i) == e0);
    if e0 < s.len() && s[e0] == '.' && e0 + 1 < s.len() && is_digit_char(s[e0 + 1]) {
        let f = digits_end(s, e0 + 1);
        lemma_digits_end_bounds(s, e0 + 2);
        assert(f == digits_end(s, e0 + 2));
        assert(f >= e0 + 2);
        let efin = crate::cursor::exp_end_after_frac(s, f);
        assert(e == efin);
        assert(f <= e) by {
            if f < s.len() && (s[f] == 'e' || s[f] == 'E') {
                if f + 1 < s.len() && is_digit_char(s[f + 1]) {
                    lemma_digits_end_bounds(s, f + 1);
                } else if f + 2 < s.len() && (s[f + 1] == '+' || s[f + 1] == '-') && is_digit_char(
                    s[f + 2],
                ) {
                    lemma_digits_end_bounds(s, f + 2);
                }
            }
        }
        lemma_digits_end_subrange(s, start, e, i);
        assert(digits_end(t, b) == e0 - start);
        assert(t[e0 - start] == s[e0]);
        assert(t[e0 - start + 1] == s[e0 + 1]);
        lemma_digits_end_subrange(s, start, e, e0 + 1);
        if f < s.len() && (s[f] == 'e' || s[f] == 'E') {
            if f + 1 < s.len() && is_digit_char(s[f + 1]) {
                assert(e == digits_end(s, f + 1));
                lemma_digits_end_bounds(s, f + 2);
                assert(digits_end(s, f + 1) == digits_end(s, f + 2));
                assert(e >= f + 2);
                assert(t[f - start] == s[f]);
                assert(t[f - start + 1] == s[f + 1]);
                lemma_digits_end_subrange(s, start, e, f + 1);
                assert(exp_text_from(t, f - start));
            } else if f + 2 < s.len() && (s[f + 1] == '+' || s[f + 1] == '-') && is_digit_char(
                s[f + 2],
            ) {
                assert(e == digits_end(s, f + 2));
                lemma_digits_end_bounds(s, f + 3);
                assert(digits_end(s, f + 2) == digits_end(s, f + 3));
                assert(e >= f + 3);
                assert(t[f - start] == s[f]);
                assert(t[f - start + 1] == s[f + 1]);
                assert(t[f - start + 2] == s[f + 2]);
                lemma_digits_end_subrange(s, start, e, f + 2);
                assert(exp_text_from(t, f - start));
            } else {
                assert(e == f);
                assert(digits_end(t, e0 - start + 1) == t.len());
            }
        } else {
            assert(e == f);
            assert(digits_end(t, e0 - start + 1) == t.len());
        }
        assert(num_tail_from(t, digits_end(t, b)));
    } else {
        // Integer part followed directly by an exponent.
        assert(e0 < s.len() && (s[e0] == 'e' || s[e0] == 'E'));
        lemma_digits_end_subrange(s, start, e, i);
        if e0 + 1 < s.len() && is_digit_char(s[e0 + 1]) {
            assert(e == digits_end(s, e0 + 1));
            lemma_digits_end_bounds(s, e0 + 2);
            assert(digits_end(s, e0 + 1) == digits_end(s, e0 + 2));
            assert(e >= e0 + 2);
            assert(t[e0 - start] == s[e0]);
            assert(t[e0 - start + 1] == s[e0 + 1]);
            lemma_digits_end_subrange(s, start, e, e0 + 1);
            assert(digits_end(t, b) == e0 - start);
            assert(exp_text_from(t, e0 - start));
        } else {
            assert(e0 + 2 < s.len() && (s[e0 + 1] == '+' || s[e0 + 1] == '-') && is_digit_char(
                s[e0 + 2],
            ));
            assert(e == digits_end(s, e0 + 2));
            lemma_digits_end_bounds(s, e0 + 3);
            assert(digits_end(s, e0 + 2) == digits_end(s, e0 + 3));
            assert(e >= e0 + 3);
            assert(t[e0 - start] == s[e0]);
            assert(t[e0 - start + 1] == s[e0 + 1]);
            assert(t[e0 - start + 2] == s[e0 + 2]);
            lemma_digits_end_subrange(s, start, e, e0 + 2);
            assert(digits_end(t, b) == e0 - start);
            assert(exp_text_from(t, e0 - start));
        }
        assert(num_tail_from(t, digits_end(t, b)));
    }
}

/// The cooked token and the position just after it, for the lexeme starting
/// at or after `i`: leading whitespace is discarded, and the third component
/// records whether any was seen. The span is the lexeme's absolute byte
/// range; `Int` values saturate at the machine bounds; `Float` carries the
/// lexeme text; a string lexeme is unescaped, errors carrying the byte range
/// of the offending element within the lexeme.
#[verifier::opaque]
pub open spec fn cook_at(s: Seq<char>, i: int) -> (TokenModel, int, bool) {
    let j = ws_end(s, i);
    let ws = j > i;
    let (k, e) = raw_scan(s, j);
    let base = byte_len(s.take(j));
    let blen = byte_len(s.take(e)) - base;
    let kind = match k {
        RawTokenKind::Int => TokenKindModel::Int(clamp_isize(int_text_val(s, j, e))),
        RawTokenKind::Float => TokenKindModel::Float(s.subrange(j, e)),
        RawTokenKind::Str { terminated } => if !terminated {
            TokenKindModel::InvalidStr(StrError::Unterminated, blen, 0)
        } else {
            match unescape_model(s, j + 1, e - 1) {
                Ok(d) => TokenKindModel::Str(d),
                Err((er, bs, be)) => TokenKindModel::InvalidStr(str_error_of(er), 1 + bs, be - bs),
            }
        },
        RawTokenKind::Ident => {
            let text = s.subrange(j, e);
            if text == "true"@ {
                TokenKindModel::True
            } else if text == "false"@ {
                TokenKindModel::False
            } else if text == "null"@ {
                TokenKindModel::Null
            } else {
                TokenKindModel::InvalidIdent(text)
            }
        },
        RawTokenKind::OpenBracket => TokenKindModel::OpenBracket,
        RawTokenKind::CloseBracket => TokenKindModel::CloseBracket,
        RawTokenKind::OpenSquare => TokenKindModel::OpenSquare,
        RawTokenKind::CloseSquare => TokenKindModel::CloseSquare,
        RawTokenKind::Colon => TokenKindModel::Colon,
        RawTokenKind::Comma => TokenKindModel::Comma,
        RawTokenKind::Whitespace => TokenKindModel::Whitespace,
        RawTokenKind::Eof => TokenKindModel::Eof,
        RawTokenKind::Unknown => TokenKindModel::Unknown(s.subrange(j, e)),
    };
    (TokenModel { kind, base, len: blen }, e, ws)
}

/// The token cooker: drives the raw scanner and interprets its lexemes.
pub struct Tokenizer {
    pub cursor: Cursor,
}

impl Tokenizer {
    pub open spec fn wf(&self) -> bool {
        self.cursor.wf()
    }

    pub fn new(input: &str) -> (t: Tokenizer)
        ensures
            t.wf(),
            t.cursor.chars@ == input@,
            t.cursor.pos == 0,
    {
        Tokenizer { cursor: Cursor::new(input) }
    }

    /// The source text from `start` to `end`, as character indices.
    pub fn str_from_to(&self, start: usize, end: usize) -> (r: String)
        requires
            start <= end <= self.cursor.chars@.len(),
        ensures
            r@ == self.cursor.chars@.subrange(start as int, end as int),
    {
        chars_to_string(&self.cursor.chars, start, end)
    }

    /// The source text from `start` to the current position.
    pub fn str_from(&self, start: usize) -> (r: String)
        requires
            self.wf(),
            start <= self.cursor.pos,
        ensures
            r@ == self.cursor.chars@.subrange(start as int, self.cursor.pos as int),
    {
        self.str_from_to(start, self.cursor.pos)
    }

    /// Returns the next token, paired with a bool indicating if the token was
    /// preceded by whitespace.
    pub fn next_token(&mut self) -> (r: (Token, bool))
        requires
            old(self).wf(),
        ensures
            final(self).wf(),
            final(self).cursor.chars == old(self).cursor.chars,
            ({
                let (tm, e, w) = cook_at(old(self).cursor.chars@, old(self).cursor.pos as int);
                &&& r.0@ == tm
                &&& r.1 == w
                &&& final(self).cursor.pos == e
            }),
    {
        proof {
            reveal(cook_at);
        }
        let ghost s = self.cursor.chars@;
        let ghost i0 = self.cursor.pos as int;
        let mut preceded_by_whitespace = false;
        loop
            invariant
                self.wf(),
                self.cursor.chars == old(self).cursor.chars,
                self.cursor.chars@ == s,
                i0 == old(self).cursor.pos,
                i0 <= self.cursor.pos <= s.len(),
                ws_end(s, i0) == ws_end(s, self.cursor.pos as int),
                preceded_by_whitespace == (self.cursor.pos > i0),
            decreases s.len() - self.cursor.pos,
        {
            proof {
                reveal(cook_at);
            }
            let start = self.cursor.pos;
            let start_byte = self.cursor.byte_pos;
            let rt = self.cursor.advance_token();
            proof {
                lemma_raw_scan_bounds(s, start as int);
                lemma_byte_len_mono(s, start as int, self.cursor.pos as int);
            }
            if rt.kind == RawTokenKind::Whitespace {
                proof {
                    assert(start < s.len() && ws_char(s[start as int]));
                    assert(ws_end(s, start as int) == ws_end(s, start as int + 1));
                    crate::cursor::lemma_ws_end_max(s, start as int + 1);
                    let j = ws_end(s, start as int + 1);
                    assert(ws_end(s, j) == j);
                }
                preceded_by_whitespace = true;
            } else {
                let ghost e = raw_scan(s, start as int).1;
                proof {
                    // The whitespace run before this lexeme was maximal, so
                    // the lexeme starts exactly where the model's does.
                    assert(ws_end(s, start as int) == start as int);
                }
                let span = Span::new(start_byte, self.cursor.byte_pos);
                let kind: TokenKind = match rt.kind {
                    RawTokenKind::Ident => {
                        let text = self.str_from(start);
                        if text == "true".to_owned() {
                            TokenKind::True
                        } else if text == "false".to_owned() {
                            TokenKind::False
                        } else if text == "null".to_owned() {
                            TokenKind::Null
                        } else {
                            TokenKind::InvalidIdent(text)
                        }
                    },
                    RawTokenKind::Int => {
                        proof {
                            if is_digit_char(s[start as int]) {
                                lemma_int_lexeme_digits(s, start as int);
                            } else {
                                lemma_int_lexeme_digits(s, start as int + 1);
                            }
                        }
                        let value = parse_int(&self.cursor.chars, start, self.cursor.pos);
                        TokenKind::Int(value)
                    },
                    RawTokenKind::Float => TokenKind::Float(self.str_from(start)),
                    RawTokenKind::Str { terminated } => {
                        if !terminated {
                            TokenKind::InvalidStr(StrError::Unterminated, rt.len, 0)
                        } else {
                            proof {
                                lemma_str_scan_bounds(s, start as int + 1);
                            }
                            let res = unescape_range(
                                &self.cursor.chars,
                                start + 1,
                                self.cursor.pos - 1,
                            );
                            match res {
                                Ok(out) => {
                                    let decoded = chars_to_string(&out, 0, out.len());
                                    proof {
                                        assert(out@.subrange(0, out@.len() as int) =~= out@);
                                    }
                                    TokenKind::Str(decoded)
                                },
                                Err((er, bs, be)) => {
                                    proof {
                                        lemma_un_scan_err_bounds(
                                            s,
                                            start as int + 1,
                                            self.cursor.pos as int - 1,
                                        );
                                        match un_scan(
                                            s,
                                            start as int + 1,
                                            self.cursor.pos as int - 1,
                                        ) {
                                            Err((me, cs, ce)) => {
                                                lemma_byte_len_take_step(s, start as int);
                                                lemma_byte_len_mono(s, start as int + 1, cs);
                                                lemma_byte_len_mono(s, cs, ce);
                                                lemma_byte_len_mono(s, ce, s.len() as int);
                                                lemma_byte_len_take_all(s);
                                                lemma_byte_len_mono(s, 0, start as int);
                                                assert(s.take(0) =~= Seq::empty());
                                            },
                                            Ok(d) => {},
                                        }
                                    }
                                    let se = StrError::from(er);
                                    TokenKind::InvalidStr(se, 1 + bs, be - bs)
                                },
                            }
                        }
                    },
                    RawTokenKind::OpenBracket => TokenKind::OpenBracket,
                    RawTokenKind::CloseBracket => TokenKind::CloseBracket,
                    RawTokenKind::OpenSquare => TokenKind::OpenSquare,
                    RawTokenKind::CloseSquare => TokenKind::CloseSquare,
                    RawTokenKind::Colon => TokenKind::Colon,
                    RawTokenKind::Comma => TokenKind::Comma,
                    RawTokenKind::Whitespace => TokenKind::Whitespace,
                    RawTokenKind::Eof => TokenKind::Eof,
                    RawTokenKind::Unknown => TokenKind::Unknown(self.str_from(start)),
                };
                return (Token::new(kind, span), preceded_by_whitespace);
            }
        }
    }
}

/// A cooked token consumes text exactly when it is not the end-of-input
/// token.
pub proof fn lemma_cook_at_bounds(s: Seq<char>, i: int)
    requires
        0 <= i <= s.len(),
    ensures
        i <= cook_at(s, i).1 <= s.len(),
        !(cook_at(s, i).0.kind is Eof) ==> cook_at(s, i).1 > i,
{
    reveal(cook_at);
    crate::cursor::lemma_ws_end_bounds(s, i);
    lemma_raw_scan_bounds(s, ws_end(s, i));
}

/// A cooked token's span lies within the text's byte length, and an invalid
/// string lexeme's offending range lies within the lexeme.
pub proof fn lemma_cook_token_fits(s: Seq<char>, i: int)
    requires
        0 <= i <= s.len(),
    ensures
        ({
            let (tm, e, w) = cook_at(s, i);
            &&& 0 <= tm.base
            &&& 0 <= tm.len
            &&& tm.base + tm.len <= byte_len(s)
            &&& (tm.kind matches TokenKindModel::InvalidStr(er, off, l) ==> 0 <= off && 0 <= l
                && off + l <= tm.len)
        }),
{
    reveal(cook_at);
    crate::cursor::lemma_ws_end_bounds(s, i);
    let j = ws_end(s, i);
    lemma_raw_scan_bounds(s, j);
    let (k, e) = raw_scan(s, j);
    lemma_byte_len_mono(s, 0, j);
    lemma_byte_len_mono(s, j, e);
    lemma_byte_len_mono(s, e, s.len() as int);
    lemma_byte_len_take_all(s);
    assert(s.take(0) =~= Seq::empty());
    match k {
        RawTokenKind::Str { terminated } => {
            if terminated {
                lemma_str_scan_bounds(s, j + 1);
                lemma_un_scan_err_bounds(s, j + 1, e - 1);
                match un_scan(s, j + 1, e - 1) {
                    Err((me, cs, ce)) => {
                        lemma_byte_len_take_step(s, j);
                        lemma_byte_len_mono(s, j + 1, cs);
                        lemma_byte_len_mono(s, cs, ce);
                        lemma_byte_len_mono(s, ce, e - 1);
                        lemma_byte_len_mono(s, e - 1, e);
                    },
                    Ok(d) => {},
                }
            }
        },
        _ => {},
    }
}

/// A string lexeme that reaches end of input without a closing quote always
/// cooks to an unterminated-string token, never to a different string error,
/// whatever escapes its content holds; the reported offset is the whole
/// lexeme's byte length.
pub proof fn lemma_unterminated_string_cooks_unterminated(s: Seq<char>, i: int)
    requires
        0 <= i <= s.len(),
        raw_scan(s, ws_end(s, i)).0 == (RawTokenKind::Str { terminated: false }),
    ensures
        ({
            let (tm, e, w) = cook_at(s, i);
            &&& tm.kind matches TokenKindModel::InvalidStr(reason, off, l)
            &&& reason == StrError::Unterminated
            &&& off == tm.len
            &&& l == 0
        }),
{
    reveal(cook_at);
}

/// Every float token carries text of the number shape, which the standard
/// double-precision parser accepts.
pub proof fn lemma_float_token_text(s: Seq<char>, i: int)
    requires
        0 <= i <= s.len(),
    ensures
        ({
            let (tm, e, w) = cook_at(s, i);
            tm.kind matches TokenKindModel::Float(text) ==> number_text(text)
        }),
{
    reveal(cook_at);
    crate::cursor::lemma_ws_end_bounds(s, i);
    let j = ws_end(s, i);
    lemma_raw_scan_bounds(s, j);
    let (k, e) = raw_scan(s, j);
    if k == RawTokenKind::Float {
        if j < s.len() && is_digit_char(s[j]) {
            lemma_float_lexeme_text(s, j, j);
        } else {
            lemma_float_lexeme_text(s, j, j + 1);
        }
    }
}

/// The whole stream of cooked tokens from position `i`, each with its
/// preceded-by-whitespace flag, up to but not including end of input.
pub open spec fn token_stream(s: Seq<char>, i: int) -> Seq<(TokenModel, bool)>
    decreases s.len() - i
        when 0 <= i <= s.len()
        via token_stream_decreases
{
    let (tm, e, w) = cook_at(s, i);
    if tm.kind is Eof {
        seq![]
    } else {
        seq![(tm, w)] + token_stream(s, e)
    }
}

#[via_fn]
proof fn token_stream_decreases(s: Seq<char>, i: int) {
    lemma_cook_at_bounds(s, i);
}

/// Cook the whole input eagerly: every token before end of input, in order,
/// each with its preceded-by-whitespace flag.
pub fn tokenize(input: &str) -> (r: Vec<(Token, bool)>)
    ensures
        ({
            let m = token_stream(input@, 0);
            &&& r@.len() == m.len()
            &&& forall|k: int|
                0 <= k < m.len() ==> (#[trigger] r@[k]).0@ == m[k].0 && r@[k].1 == m[k].1
        }),
{
    let ghost m0 = token_stream(input@, 0);
    let mut tokenizer = Tokenizer::new(input);
    let mut out: Vec<(Token, bool)> = Vec::new();
    proof {
        assert(m0.skip(0) =~= m0);
    }
    loop
        invariant
            tokenizer.wf(),
            tokenizer.cursor.chars@ == input@,
            m0 == token_stream(input@, 0),
            out@.len() <= m0.len(),
            token_stream(input@, tokenizer.cursor.pos as int) == m0.skip(out@.len() as int),
            forall|k: int|
                0 <= k < out@.len() ==> (#[trigger] out@[k]).0@ == m0[k].0 && out@[k].1 == m0[k].1,
        decreases input@.len() - tokenizer.cursor.pos,
    {
        let ghost pos0 = tokenizer.cursor.pos as int;
        let ghost n = out@.len() as int;
        proof {
            lemma_cook_at_bounds(input@, pos0);
        }
        let (tok, w) = tokenizer.next_token();
        if matches!(tok.kind, TokenKind::Eof) {
            proof {
                assert(token_stream(input@, pos0) =~= Seq::<(TokenModel, bool)>::empty());
                assert(m0.skip(n).len() == m0.len() - n);
            }
            return out;
        }
        proof {
            let (tm, e, ws) = cook_at(input@, pos0);
            assert(token_stream(input@, pos0) == seq![(tm, ws)] + token_stream(input@, e));
            assert(m0.skip(n).len() == m0.len() - n);
            assert(m0[n] == m0.skip(n)[0]);
            assert((seq![(tm, ws)] + token_stream(input@, e))[0] == (tm, ws));
            assert(token_stream(input@, e) =~= m0.skip(n + 1)) by {
                assert(forall|k: int|
                    0 <= k < token_stream(input@, e).len() ==> token_stream(input@, e)[k] == (
                    seq![(tm, ws)] + token_stream(input@, e))[k + 1]);
            }
        }
        out.push((tok, w));
    }
}

/// Byte length of the maximal whitespace run at the start of the text.
pub fn skip_whitespace(data: &str) -> (n: usize)
    ensures
        n == byte_len(data@.take(ws_end(data@, 0))),
{
    let v = str_to_chars(data);
    let len = v.len();
    let mut i: usize = 0;
    let mut b: usize = 0;
    proof {
        assert(v@.take(0) =~= Seq::empty());
    }
    while i < len && is_whitespace_char(v[i])
        invariant
            0 <= i <= len,
            len == v@.len(),
            v@ == data@,
            byte_len(v@) <= usize::MAX,
            ws_end(v@, 0) == ws_end(v@, i as int),
            b == byte_len(v@.take(i as int)),
        decreases len - i,
    {
        proof {
            lemma_byte_len_take_step(v@, i as int);
            lemma_byte_len_mono(v@, i as int + 1, v@.len() as int);
            lemma_byte_len_take_all(v@);
        }
        b = b + char_utf8_len(v[i]);
        i = i + 1;
    }
    b
}

} // verus!
