//! The raw scanner: walks the input as a sequence of Unicode scalar values
//! and classifies the next maximal lexeme without interpreting its content.
//!
//! The spec functions [`ws_end`], [`id_end`], [`digits_end`], [`num_scan`],
//! [`str_scan`] and [`raw_scan`] are the mathematical model of the scanner;
//! [`Cursor::advance_token`] is proved to follow [`raw_scan`] exactly.

use vstd::prelude::*;

use crate::chars::{
    byte_len, char_len, char_utf8_len, digit_char, is_digit_char, is_id_continue, is_id_start,
    is_whitespace_char, lemma_byte_len_mono, lemma_byte_len_take_all, lemma_byte_len_take_step,
    str_to_chars, ws_char, xid_continue, xid_start,
};

verus! {

/// Raw lexeme classes, prior to any semantic interpretation.
#[derive(Debug, Clone, Copy, PartialEq, Eq, Structural)]
pub enum TokenKind {
    Int,
    Float,
    Str { terminated: bool },
    OpenBracket,
    CloseBracket,
    OpenSquare,
    CloseSquare,
    Colon,
    Comma,
    Ident,
    Whitespace,
    Eof,
    Unknown,
}

/// A raw lexeme: its class and its length in bytes.
#[derive(Debug, Clone, Copy, PartialEq, Eq, Structural)]
pub struct Token {
    pub kind: TokenKind,
    pub len: usize,
}

/// End of the maximal run of whitespace characters starting at `i`.
pub open spec fn ws_end(s: Seq<char>, i: int) -> int
    decreases s.len() - i,
{
    if 0 <= i < s.len() && ws_char(s[i]) {
        ws_end(s, i + 1)
    } else {
        i
    }
}

/// End of the maximal run of identifier-continue characters starting at `i`.
pub open spec fn id_end(s: Seq<char>, i: int) -> int
    decreases s.len() - i,
{
    if 0 <= i < s.len() && xid_continue(s[i]) {
        id_end(s, i + 1)
    } else {
        i
    }
}

/// End of the maximal run of decimal digits starting at `i`.
pub open spec fn digits_end(s: Seq<char>, i: int) -> int
    decreases s.len() - i,
{
    if 0 <= i < s.len() && is_digit_char(s[i]) {
        digits_end(s, i + 1)
    } else {
        i
    }
}

pub proof fn lemma_ws_end_bounds(s: Seq<char>, i: int)
    requires
        0 <= i <= s.len(),
    ensures
        i <= ws_end(s, i) <= s.len(),
    decreases s.len() - i,
{
    if i < s.len() && ws_char(s[i]) {
        lemma_ws_end_bounds(s, i + 1);
    }
}

/// The whitespace run is maximal: no whitespace follows it.
pub proof fn lemma_ws_end_max(s: Seq<char>, i: int)
    requires
        0 <= i <= s.len(),
    ensures
        i <= ws_end(s, i) <= s.len(),
        ws_end(s, i) < s.len() ==> !ws_char(s[ws_end(s, i)]),
    decreases s.len() - i,
{
    if i < s.len() && ws_char(s[i]) {
        lemma_ws_end_max(s, i + 1);
    }
}

pub proof fn lemma_id_end_bounds(s: Seq<char>, i: int)
    requires
        0 <= i <= s.len(),
    ensures
        i <= id_end(s, i) <= s.len(),
    decreases s.len() - i,
{
    if i < s.len() && xid_continue(s[i]) {
        lemma_id_end_bounds(s, i + 1);
    }
}

pub proof fn lemma_digits_end_bounds(s: Seq<char>, i: int)
    requires
        0 <= i <= s.len(),
    ensures
        i <= digits_end(s, i) <= s.len(),
    decreases s.len() - i,
{
    if i < s.len() && is_digit_char(s[i]) {
        lemma_digits_end_bounds(s, i + 1);
    }
}

/// The characters of a digit run are digits, and the run is maximal.
pub proof fn lemma_digits_end_run(s: Seq<char>, i: int)
    requires
        0 <= i <= s.len(),
    ensures
        i <= digits_end(s, i) <= s.len(),
        forall|j: int| i <= j < digits_end(s, i) ==> is_digit_char(#[trigger] s[j]),
        digits_end(s, i) < s.len() ==> !is_digit_char(s[digits_end(s, i)]),
    decreases s.len() - i,
{
    if i < s.len() && is_digit_char(s[i]) {
        lemma_digits_end_run(s, i + 1);
    }
}

/// Optional exponent after a fractional part: if no well-formed exponent
/// follows, the lexeme ends at `f` and stays a float.
pub open spec fn exp_end_after_frac(s: Seq<char>, f: int) -> int {
    if f < s.len() && (s[f] == 'e' || s[f] == 'E') {
        if f + 1 < s.len() && is_digit_char(s[f + 1]) {
            digits_end(s, f + 1)
        } else if f + 2 < s.len() && (s[f + 1] == '+' || s[f + 1] == '-') && is_digit_char(
            s[f + 2],
        ) {
            digits_end(s, f + 2)
        } else {
            f
        }
    } else {
        f
    }
}

/// Scan of a numeric lexeme whose first digit stands at `i`: yields whether
/// the lexeme is a float and the position just after it. A leading `0` is not
/// extended by further digits; a `.` or exponent marker not followed by a
/// digit is left for the next lexeme.
pub open spec fn num_scan(s: Seq<char>, i: int) -> (bool, int)
    recommends
        0 <= i < s.len(),
        is_digit_char(s[i]),
{
    let e0 = if s[i] == '0' {
        i + 1
    } else {
        digits_end(s, i + 1)
    };
    if e0 < s.len() && s[e0] == '.' && e0 + 1 < s.len() && is_digit_char(s[e0 + 1]) {
        let f = digits_end(s, e0 + 1);
        (true, exp_end_after_frac(s, f))
    } else if e0 < s.len() && (s[e0] == 'e' || s[e0] == 'E') {
        if e0 + 1 < s.len() && is_digit_char(s[e0 + 1]) {
            (true, digits_end(s, e0 + 1))
        } else if e0 + 2 < s.len() && (s[e0 + 1] == '+' || s[e0 + 1] == '-') && is_digit_char(
            s[e0 + 2],
        ) {
            (true, digits_end(s, e0 + 2))
        } else {
            (false, e0)
        }
    } else {
        (false, e0)
    }
}

pub proof fn lemma_num_scan_bounds(s: Seq<char>, i: int)
    requires
        0 <= i < s.len(),
    ensures
        i + 1 <= num_scan(s, i).1 <= s.len(),
{
    lemma_digits_end_bounds(s, i + 1);
    let e0 = if s[i] == '0' {
        i + 1
    } else {
        digits_end(s, i + 1)
    };
    if e0 < s.len() {
        lemma_digits_end_bounds(s, e0 + 1);
        if e0 + 1 < s.len() {
            lemma_digits_end_bounds(s, e0 + 2);
            let f = digits_end(s, e0 + 1);
            if f < s.len() {
                lemma_digits_end_bounds(s, f + 1);
                if f + 1 < s.len() {
                    lemma_digits_end_bounds(s, f + 2);
                }
            }
        }
    }
}

/// Scan of a quoted string lexeme, starting just after the opening quote:
/// yields whether a closing unescaped quote was found, and the position just
/// after the lexeme. An escaped `\"` or `\\` does not terminate the string.
pub open spec fn str_scan(s: Seq<char>, i: int) -> (bool, int)
    decreases s.len() - i,
{
    if i < 0 || i >= s.len() {
        (false, if i < 0 { i } else { s.len() as int })
    } else if s[i] == '"' {
        (true, i + 1)
    } else if s[i] == '\\' && i + 1 < s.len() && (s[i + 1] == '\\' || s[i + 1] == '"') {
        str_scan(s, i + 2)
    } else {
        str_scan(s, i + 1)
    }
}

pub proof fn lemma_str_scan_bounds(s: Seq<char>, i: int)
    requires
        0 <= i <= s.len(),
    ensures
        i <= str_scan(s, i).1 <= s.len(),
        str_scan(s, i).0 ==> str_scan(s, i).1 >= i + 1,
    decreases s.len() - i,
{
    if i < s.len() && s[i] != '"' {
        if s[i] == '\\' && i + 1 < s.len() && (s[i + 1] == '\\' || s[i + 1] == '"') {
            lemma_str_scan_bounds(s, i + 2);
        } else {
            lemma_str_scan_bounds(s, i + 1);
        }
    }
}

/// The raw scanner's model: classification of the lexeme starting at `i`,
/// with the position just after it. Classification rules apply in priority
/// order from the first character: whitespace, identifier start, digit or
/// minus-digit, punctuation, quoted string, unknown.
pub open spec fn raw_scan(s: Seq<char>, i: int) -> (TokenKind, int)
    recommends
        0 <= i <= s.len(),
{
    if i >= s.len() {
        (TokenKind::Eof, i)
    } else {
        let c = s[i];
        if ws_char(c) {
            (TokenKind::Whitespace, ws_end(s, i + 1))
        } else if xid_start(c) {
            (TokenKind::Ident, id_end(s, i + 1))
        } else if is_digit_char(c) {
            let (fl, e) = num_scan(s, i);
            (if fl {
                TokenKind::Float
            } else {
                TokenKind::Int
            }, e)
        } else if c == '-' {
            if i + 1 < s.len() && is_digit_char(s[i + 1]) {
                let (fl, e) = num_scan(s, i + 1);
                (if fl {
                    TokenKind::Float
                } else {
                    TokenKind::Int
                }, e)
            } else {
                (TokenKind::Unknown, i + 1)
            }
        } else if c == '{' {
            (TokenKind::OpenBracket, i + 1)
        } else if c == '}' {
            (TokenKind::CloseBracket, i + 1)
        } else if c == '[' {
            (TokenKind::OpenSquare, i + 1)
        } else if c == ']' {
            (TokenKind::CloseSquare, i + 1)
        } else if c == ':' {
            (TokenKind::Colon, i + 1)
        } else if c == ',' {
            (TokenKind::Comma, i + 1)
        } else if c == '"' {
            let (t, e) = str_scan(s, i + 1);
            (TokenKind::Str { terminated: t }, e)
        } else {
            (TokenKind::Unknown, i + 1)
        }
    }
}

/// Every lexeme ends within the input; every lexeme but end-of-input consumes
/// at least one character; end-of-input consumes none and repeats.
pub proof fn lemma_raw_scan_bounds(s: Seq<char>, i: int)
    requires
        0 <= i <= s.len(),
    ensures
        i <= raw_scan(s, i).1 <= s.len(),
        raw_scan(s, i).0 != TokenKind::Eof ==> raw_scan(s, i).1 > i,
        raw_scan(s, i).0 == TokenKind::Eof ==> raw_scan(s, i).1 == i && i == s.len(),
{
    if i < s.len() {
        lemma_ws_end_bounds(s, i + 1);
        lemma_id_end_bounds(s, i + 1);
        if is_digit_char(s[i]) {
            lemma_num_scan_bounds(s, i);
        }
        if s[i] == '-' && i + 1 < s.len() && is_digit_char(s[i + 1]) {
            lemma_num_scan_bounds(s, i + 1);
        }
        lemma_str_scan_bounds(s, i + 1);
    }
}

/// The raw scanner: owns the decoded input and a position in it, both as a
/// character index and as a byte offset.
pub struct Cursor {
    pub chars: Vec<char>,
    pub pos: usize,
    pub byte_pos: usize,
}

impl Cursor {
    /// The byte offset always matches the UTF-8 width of the consumed prefix,
    /// whose total width fits in `usize`.
    pub open spec fn wf(&self) -> bool {
        &&& self.pos <= self.chars@.len()
        &&& self.byte_pos == byte_len(self.chars@.take(self.pos as int))
        &&& byte_len(self.chars@) <= usize::MAX
    }

    pub fn new(input: &str) -> (c: Cursor)
        ensures
            c.wf(),
            c.chars@ == input@,
            c.pos == 0,
            c.byte_pos == 0,
    {
        let chars = str_to_chars(input);
        Cursor { chars, pos: 0, byte_pos: 0 }
    }

    /// Consume one character, advancing the byte offset by its UTF-8 width.
    fn bump(&mut self)
        requires
            old(self).wf(),
            old(self).pos < old(self).chars@.len(),
        ensures
            final(self).wf(),
            final(self).chars == old(self).chars,
            final(self).pos == old(self).pos + 1,
            final(self).byte_pos == old(self).byte_pos + char_len(
                old(self).chars@[old(self).pos as int],
            ),
    {
        let c = self.chars[self.pos];
        proof {
            lemma_byte_len_take_step(self.chars@, self.pos as int);
            lemma_byte_len_mono(self.chars@, self.pos as int + 1, self.chars@.len() as int);
            lemma_byte_len_mono(self.chars@, 0, self.chars@.len() as int);
            lemma_byte_len_take_all(self.chars@);
            assert(self.chars@.take(0) =~= Seq::empty());
        }
        self.byte_pos = self.byte_pos + char_utf8_len(c);
        self.pos = self.pos + 1;
    }

    /// Look `k` characters past the current position, without consuming;
    /// a null character stands for end of input.
    fn peek_at(&self, k: usize) -> (r: char)
        requires
            self.wf(),
        ensures
            r == (if self.pos + k < self.chars@.len() {
                self.chars@[self.pos as int + k]
            } else {
                '\0'
            }),
    {
        if self.chars.len() - self.pos > k {
            self.chars[self.pos + k]
        } else {
            '\0'
        }
    }

    /// Consume the maximal whitespace run from the current position.
    fn eat_ws(&mut self)
        requires
            old(self).wf(),
        ensures
            final(self).wf(),
            final(self).chars == old(self).chars,
            final(self).pos == ws_end(old(self).chars@, old(self).pos as int),
    {
        let n = self.chars.len();
        let ghost s = self.chars@;
        let ghost i0 = self.pos as int;
        while self.pos < n && is_whitespace_char(self.chars[self.pos])
            invariant
                self.wf(),
                self.chars == old(self).chars,
                self.chars@ == s,
                n == s.len(),
                i0 <= self.pos,
                ws_end(s, i0) == ws_end(s, self.pos as int),
            decreases n - self.pos,
        {
            self.bump();
        }
    }

    /// Consume the maximal identifier-continue run from the current position.
    fn eat_id(&mut self)
        requires
            old(self).wf(),
        ensures
            final(self).wf(),
            final(self).chars == old(self).chars,
            final(self).pos == id_end(old(self).chars@, old(self).pos as int),
    {
        let n = self.chars.len();
        let ghost s = self.chars@;
        let ghost i0 = self.pos as int;
        while self.pos < n && is_id_continue(self.chars[self.pos])
            invariant
                self.wf(),
                self.chars == old(self).chars,
                self.chars@ == s,
                n == s.len(),
                i0 <= self.pos,
                id_end(s, i0) == id_end(s, self.pos as int),
            decreases n - self.pos,
        {
            self.bump();
        }
    }

    /// Consume the maximal decimal-digit run from the current position.
    fn eat_decimal_digits(&mut self)
        requires
            old(self).wf(),
        ensures
            final(self).wf(),
            final(self).chars == old(self).chars,
            final(self).pos == digits_end(old(self).chars@, old(self).pos as int),
    {
        let n = self.chars.len();
        let ghost s = self.chars@;
        let ghost i0 = self.pos as int;
        while self.pos < n && digit_char(self.chars[self.pos])
            invariant
                self.wf(),
                self.chars == old(self).chars,
                self.chars@ == s,
                n == s.len(),
                i0 <= self.pos,
                digits_end(s, i0) == digits_end(s, self.pos as int),
            decreases n - self.pos,
        {
            self.bump();
        }
    }

    /// Consume a numeric lexeme whose first digit stands at the current
    /// position; true means the lexeme is a float.
    fn number(&mut self) -> (is_float: bool)
        requires
            old(self).wf(),
            old(self).pos < old(self).chars@.len(),
            is_digit_char(old(self).chars@[old(self).pos as int]),
        ensures
            final(self).wf(),
            final(self).chars == old(self).chars,
            is_float == num_scan(old(self).chars@, old(self).pos as int).0,
            final(self).pos == num_scan(old(self).chars@, old(self).pos as int).1,
    {
        let ghost s = self.chars@;
        let ghost i = self.pos as int;
        let c0 = self.chars[self.pos];
        self.bump();
        if c0 != '0' {
            self.eat_decimal_digits();
        }
        // The current position is now just after the integer part.
        let c1 = self.peek_at(0);
        let c2 = self.peek_at(1);
        if c1 == '.' && digit_char(c2) {
            self.bump();
            self.eat_decimal_digits();
            let d1 = self.peek_at(0);
            let d2 = self.peek_at(1);
            if d1 == 'e' || d1 == 'E' {
                if digit_char(d2) {
                    self.bump();
                    self.eat_decimal_digits();
                } else {
                    let d3 = self.peek_at(2);
                    if (d2 == '+' || d2 == '-') && digit_char(d3) {
                        self.bump();
                        self.bump();
                        self.eat_decimal_digits();
                    }
                }
            }
            true
        } else if c1 == 'e' || c1 == 'E' {
            if digit_char(c2) {
                self.bump();
                self.eat_decimal_digits();
                true
            } else {
                let c3 = self.peek_at(2);
                if (c2 == '+' || c2 == '-') && digit_char(c3) {
                    self.bump();
                    self.bump();
                    self.eat_decimal_digits();
                    true
                } else {
                    false
                }
            }
        } else {
            false
        }
    }

    /// Consume a quoted string lexeme, starting just after the opening quote;
    /// true means a closing unescaped quote was found before end of input.
    fn double_quoted_string(&mut self) -> (terminated: bool)
        requires
            old(self).wf(),
        ensures
            final(self).wf(),
            final(self).chars == old(self).chars,
            terminated == str_scan(old(self).chars@, old(self).pos as int).0,
            final(self).pos == str_scan(old(self).chars@, old(self).pos as int).1,
    {
        let n = self.chars.len();
        let ghost s = self.chars@;
        let ghost i0 = self.pos as int;
        loop
            invariant
                self.wf(),
                self.chars == old(self).chars,
                self.chars@ == s,
                n == s.len(),
                i0 == old(self).pos,
                i0 <= self.pos,
                str_scan(s, i0) == str_scan(s, self.pos as int),
            decreases n - self.pos,
        {
            if self.pos >= n {
                return false;
            }
            let c = self.chars[self.pos];
            self.bump();
            if c == '"' {
                return true;
            }
            if c == '\\' {
                let c1 = self.peek_at(0);
                if c1 == '\\' || c1 == '"' {
                    self.bump();
                }
            }
        }
    }

    /// Classify and consume the next maximal lexeme, returning its class and
    /// byte length. At end of input, an empty end-of-input lexeme is returned,
    /// idempotently.
    pub fn advance_token(&mut self) -> (t: Token)
        requires
            old(self).wf(),
        ensures
            final(self).wf(),
            final(self).chars == old(self).chars,
            t.kind == raw_scan(old(self).chars@, old(self).pos as int).0,
            final(self).pos == raw_scan(old(self).chars@, old(self).pos as int).1,
            t.len == final(self).byte_pos - old(self).byte_pos,
    {
        let ghost s = self.chars@;
        let ghost i = self.pos as int;
        if self.pos == self.chars.len() {
            return Token { kind: TokenKind::Eof, len: 0 };
        }
        let start_byte = self.byte_pos;
        let c = self.chars[self.pos];
        let kind: TokenKind = if is_whitespace_char(c) {
            self.bump();
            self.eat_ws();
            TokenKind::Whitespace
        } else if is_id_start(c) {
            self.bump();
            self.eat_id();
            TokenKind::Ident
        } else if digit_char(c) {
            let fl = self.number();
            if fl {
                TokenKind::Float
            } else {
                TokenKind::Int
            }
        } else if c == '-' {
            let c1 = self.peek_at(1);
            if digit_char(c1) {
                self.bump();
                let fl = self.number();
                if fl {
                    TokenKind::Float
                } else {
                    TokenKind::Int
                }
            } else {
                self.bump();
                TokenKind::Unknown
            }
        } else if c == '{' {
            self.bump();
            TokenKind::OpenBracket
        } else if c == '}' {
            self.bump();
            TokenKind::CloseBracket
        } else if c == '[' {
            self.bump();
            TokenKind::OpenSquare
        } else if c == ']' {
            self.bump();
            TokenKind::CloseSquare
        } else if c == ':' {
            self.bump();
            TokenKind::Colon
        } else if c == ',' {
            self.bump();
            TokenKind::Comma
        } else if c == '"' {
            self.bump();
            let t = self.double_quoted_string();
            TokenKind::Str { terminated: t }
        } else {
            self.bump();
            TokenKind::Unknown
        };
        proof {
            lemma_raw_scan_bounds(s, i);
            lemma_byte_len_mono(s, i, self.pos as int);
        }
        Token { kind, len: self.byte_pos - start_byte }
    }
}

} // verus!
