//! The recursive-descent parser: a one-token-lookahead consumer of the cooked
//! token stream that builds the tree value per the grammar, or reports the
//! first error with an exact byte span.
//!
//! The spec functions [`sp_value`], [`sp_object`], [`sp_members`],
//! [`sp_member`], [`sp_array`], [`sp_elements`] and [`sp_parse`] are the
//! parser's model; [`parse`] is proved to return exactly [`sp_parse`] of its
//! input.

use vstd::prelude::*;

use crate::ast::{entries_view, lemma_array_view, lemma_object_view, nodes_view, Node, NodeModel};
use crate::lexer::{
    cook_at, lemma_cook_at_bounds, lemma_cook_token_fits, lemma_float_token_text, number_text,
    Tokenizer,
};
use crate::token::{Span, StrError, Token, TokenKind, TokenKindModel, TokenModel};

verus! {

/// The ways a parse can fail.
#[derive(Debug, PartialEq)]
pub enum ParseErrorKind {
    /// A complete value was parsed, but this token followed it.
    UnexpectedContinuation(TokenKind),
    /// A token was required and the input was exhausted.
    UnexpectedEof,
    /// A token that no production could use.
    UnexpectedToken(TokenKind),
    /// A string lexeme whose content could not be cooked.
    InvalidStr(StrError),
    /// A letter run that is not exactly one of the literal keywords.
    InvalidIdent(String),
    /// A character that starts no lexeme.
    UnknownToken(String),
}

/// Model of a parse failure's kind.
pub enum ParseErrorKindModel {
    UnexpectedContinuation(TokenKindModel),
    UnexpectedEof,
    UnexpectedToken(TokenKindModel),
    InvalidStr(StrError),
    InvalidIdent(Seq<char>),
    UnknownToken(Seq<char>),
}

impl View for ParseErrorKind {
    type V = ParseErrorKindModel;

    open spec fn view(&self) -> ParseErrorKindModel {
        match self {
            ParseErrorKind::UnexpectedContinuation(k) => ParseErrorKindModel::UnexpectedContinuation(
                k@,
            ),
            ParseErrorKind::UnexpectedEof => ParseErrorKindModel::UnexpectedEof,
            ParseErrorKind::UnexpectedToken(k) => ParseErrorKindModel::UnexpectedToken(k@),
            ParseErrorKind::InvalidStr(e) => ParseErrorKindModel::InvalidStr(*e),
            ParseErrorKind::InvalidIdent(s) => ParseErrorKindModel::InvalidIdent(s@),
            ParseErrorKind::UnknownToken(s) => ParseErrorKindModel::UnknownToken(s@),
        }
    }
}

/// The single error a failed parse reports: its kind and its byte span.
#[derive(Debug, PartialEq)]
pub struct ParseError {
    pub kind: ParseErrorKind,
    pub span: Span,
}

/// Model of a parse failure: the kind's model with the span as integers.
pub struct ParseErrorModel {
    pub kind: ParseErrorKindModel,
    pub base: int,
    pub len: int,
}

impl View for ParseError {
    type V = ParseErrorModel;

    open spec fn view(&self) -> ParseErrorModel {
        ParseErrorModel { kind: self.kind@, base: self.span.base as int, len: self.span.len as int }
    }
}

/// The error built from a token that no production could use. An invalid
/// string reports the offending range inside the lexeme; an exhausted input
/// reports the empty span at its end; everything else reports the token's own
/// span.
pub open spec fn error_from_token(t: TokenModel) -> ParseErrorModel {
    match t.kind {
        TokenKindModel::InvalidStr(err, off, l) => ParseErrorModel {
            kind: ParseErrorKindModel::InvalidStr(err),
            base: t.base + off,
            len: l,
        },
        TokenKindModel::InvalidIdent(text) => ParseErrorModel {
            kind: ParseErrorKindModel::InvalidIdent(text),
            base: t.base,
            len: t.len,
        },
        TokenKindModel::Unknown(text) => ParseErrorModel {
            kind: ParseErrorKindModel::UnknownToken(text),
            base: t.base,
            len: t.len,
        },
        TokenKindModel::Eof => ParseErrorModel {
            kind: ParseErrorKindModel::UnexpectedEof,
            base: t.base,
            len: t.len,
        },
        _ => ParseErrorModel { kind: ParseErrorKindModel::UnexpectedToken(t.kind), base: t.base, len: t.len },
    }
}

impl ParseError {
    fn new(kind: ParseErrorKind, span: Span) -> (r: ParseError)
        ensures
            r.kind == kind,
            r.span == span,
    {
        ParseError { kind, span }
    }

    fn unexpected_continuation(token: Token) -> (r: ParseError)
        ensures
            r@ == (ParseErrorModel {
                kind: ParseErrorKindModel::UnexpectedContinuation(token@.kind),
                base: token@.base,
                len: token@.len,
            }),
    {
        let span = token.span;
        ParseError::new(ParseErrorKind::UnexpectedContinuation(token.kind), span)
    }

    fn from_token(token: Token) -> (r: ParseError)
        requires
            token@.kind matches TokenKindModel::InvalidStr(e, off, l) ==> token@.base + off + l
                <= usize::MAX,
        ensures
            r@ == error_from_token(token@),
    {
        match token.kind {
            TokenKind::InvalidStr(err, offset, l) => {
                let loc = token.span.base + offset;
                ParseError::new(ParseErrorKind::InvalidStr(err), Span { base: loc, len: l })
            },
            TokenKind::InvalidIdent(ident) => ParseError::new(
                ParseErrorKind::InvalidIdent(ident),
                token.span,
            ),
            TokenKind::Unknown(unk) => ParseError::new(
                ParseErrorKind::UnknownToken(unk),
                token.span,
            ),
            TokenKind::Eof => ParseError::new(ParseErrorKind::UnexpectedEof, token.span),
            _ => {
                let span = token.span;
                ParseError::new(ParseErrorKind::UnexpectedToken(token.kind), span)
            },
        }
    }
}

/// Guard for the termination measure of the recursive descent: the position
/// `q` reached by a sub-production, clamped into `(p, hi]` so that the
/// measure plainly shrinks. It never binds, since every production consumes
/// input, as [`lemma_sp_value_advances`] shows.
pub open spec fn step(p: int, q: int, hi: int) -> int {
    if p < q <= hi {
        q
    } else if p < hi {
        p + 1
    } else {
        hi
    }
}

/// Parse one value at position `p`: the token there decides the production.
pub open spec fn sp_value(s: Seq<char>, p: int) -> Result<(NodeModel, int), ParseErrorModel>
    decreases s.len() - p, 1int
        when 0 <= p <= s.len()
        via sp_value_dec
{
    let (t, e, w) = cook_at(s, p);
    match t.kind {
        TokenKindModel::OpenBracket => sp_object(s, p),
        TokenKindModel::OpenSquare => sp_array(s, p),
        TokenKindModel::Str(v) => Ok((NodeModel::Str(v), e)),
        TokenKindModel::Int(v) => Ok((NodeModel::Int(v), e)),
        TokenKindModel::Float(text) => Ok((NodeModel::Float(text), e)),
        TokenKindModel::True => Ok((NodeModel::True, e)),
        TokenKindModel::False => Ok((NodeModel::False, e)),
        TokenKindModel::Null => Ok((NodeModel::Null, e)),
        _ => Err(error_from_token(t)),
    }
}

#[via_fn]
proof fn sp_value_dec(s: Seq<char>, p: int) {
    lemma_cook_at_bounds(s, p);
}

/// Parse an object at `p`: an opening brace, then either an immediate closing
/// brace or a member list, then a closing brace.
pub open spec fn sp_object(s: Seq<char>, p: int) -> Result<(NodeModel, int), ParseErrorModel>
    decreases s.len() - p, 0int
        when 0 <= p <= s.len()
        via sp_object_dec
{
    let (t1, p1, w1) = cook_at(s, p);
    if !(t1.kind is OpenBracket) {
        Err(error_from_token(t1))
    } else {
        let (t2, p2, w2) = cook_at(s, p1);
        if t2.kind is CloseBracket {
            Ok((NodeModel::Object(Seq::empty()), p2))
        } else {
            match sp_members(s, p1) {
                Ok((items, q)) => {
                    let (t3, q1, w3) = cook_at(s, q);
                    if t3.kind is CloseBracket {
                        Ok((NodeModel::Object(items), q1))
                    } else {
                        Err(error_from_token(t3))
                    }
                },
                Err(em) => Err(em),
            }
        }
    }
}

#[via_fn]
proof fn sp_object_dec(s: Seq<char>, p: int) {
    lemma_cook_at_bounds(s, p);
}

/// Parse a non-empty member list at `p`.
pub open spec fn sp_members(s: Seq<char>, p: int) -> Result<
    (Seq<(Seq<char>, NodeModel)>, int),
    ParseErrorModel,
>
    decreases s.len() - p, 5int
        when 0 <= p <= s.len()
        via sp_members_dec
{
    match sp_member(s, p) {
        Ok((kv, q)) => match sp_members_rest(s, step(p, q, s.len() as int)) {
            Ok((rest, r)) => Ok((seq![kv] + rest, r)),
            Err(em) => Err(em),
        },
        Err(em) => Err(em),
    }
}

#[via_fn]
proof fn sp_members_dec(s: Seq<char>, p: int) {
    lemma_cook_at_bounds(s, p);
}

/// Parse the continuation of a member list at `p`: stop before a closing
/// brace, else require a comma and a further member.
pub open spec fn sp_members_rest(s: Seq<char>, p: int) -> Result<
    (Seq<(Seq<char>, NodeModel)>, int),
    ParseErrorModel,
>
    decreases s.len() - p, 4int
        when 0 <= p <= s.len()
        via sp_members_rest_dec
{
    let (t, p1, w) = cook_at(s, p);
    if t.kind is CloseBracket {
        Ok((Seq::empty(), p))
    } else if t.kind is Comma {
        match sp_member(s, p1) {
            Ok((kv, q)) => match sp_members_rest(s, step(p1, q, s.len() as int)) {
                Ok((rest, r)) => Ok((seq![kv] + rest, r)),
                Err(em) => Err(em),
            },
            Err(em) => Err(em),
        }
    } else {
        Err(error_from_token(t))
    }
}

#[via_fn]
proof fn sp_members_rest_dec(s: Seq<char>, p: int) {
    lemma_cook_at_bounds(s, p);
}

/// Parse one member at `p`: a string key, a colon, and a value.
pub open spec fn sp_member(s: Seq<char>, p: int) -> Result<
    ((Seq<char>, NodeModel), int),
    ParseErrorModel,
>
    decreases s.len() - p, 2int
        when 0 <= p <= s.len()
        via sp_member_dec
{
    let (t, p1, w) = cook_at(s, p);
    match t.kind {
        TokenKindModel::Str(key) => {
            let (t2, p2, w2) = cook_at(s, p1);
            if t2.kind is Colon {
                match sp_value(s, p2) {
                    Ok((v, p3)) => Ok(((key, v), p3)),
                    Err(em) => Err(em),
                }
            } else {
                Err(error_from_token(t2))
            }
        },
        _ => Err(error_from_token(t)),
    }
}

#[via_fn]
proof fn sp_member_dec(s: Seq<char>, p: int) {
    lemma_cook_at_bounds(s, p);
    let (t, p1, w) = cook_at(s, p);
    if 0 <= p <= s.len() {
        lemma_cook_at_bounds(s, p1);
    }
}

/// Parse an array at `p`: an opening square bracket, then either an immediate
/// closing one or an element list, then a closing square bracket.
pub open spec fn sp_array(s: Seq<char>, p: int) -> Result<(NodeModel, int), ParseErrorModel>
    decreases s.len() - p, 0int
        when 0 <= p <= s.len()
        via sp_array_dec
{
    let (t1, p1, w1) = cook_at(s, p);
    if !(t1.kind is OpenSquare) {
        Err(error_from_token(t1))
    } else {
        let (t2, p2, w2) = cook_at(s, p1);
        if t2.kind is CloseSquare {
            Ok((NodeModel::Array(Seq::empty()), p2))
        } else {
            match sp_elements(s, p1) {
                Ok((items, q)) => {
                    let (t3, q1, w3) = cook_at(s, q);
                    if t3.kind is CloseSquare {
                        Ok((NodeModel::Array(items), q1))
                    } else {
                        Err(error_from_token(t3))
                    }
                },
                Err(em) => Err(em),
            }
        }
    }
}

#[via_fn]
proof fn sp_array_dec(s: Seq<char>, p: int) {
    lemma_cook_at_bounds(s, p);
}

/// Parse a non-empty element list at `p`.
pub open spec fn sp_elements(s: Seq<char>, p: int) -> Result<
    (Seq<NodeModel>, int),
    ParseErrorModel,
>
    decreases s.len() - p, 5int
        when 0 <= p <= s.len()
        via sp_elements_dec
{
    match sp_value(s, p) {
        Ok((v, q)) => match sp_elements_rest(s, step(p, q, s.len() as int)) {
            Ok((rest, r)) => Ok((seq![v] + rest, r)),
            Err(em) => Err(em),
        },
        Err(em) => Err(em),
    }
}

#[via_fn]
proof fn sp_elements_dec(s: Seq<char>, p: int) {
}

/// Parse the continuation of an element list at `p`: stop before a closing
/// square bracket, else require a comma and a further element.
pub open spec fn sp_elements_rest(s: Seq<char>, p: int) -> Result<
    (Seq<NodeModel>, int),
    ParseErrorModel,
>
    decreases s.len() - p, 4int
        when 0 <= p <= s.len()
        via sp_elements_rest_dec
{
    let (t, p1, w) = cook_at(s, p);
    if t.kind is CloseSquare {
        Ok((Seq::empty(), p))
    } else if t.kind is Comma {
        match sp_value(s, p1) {
            Ok((v, q)) => match sp_elements_rest(s, step(p1, q, s.len() as int)) {
                Ok((rest, r)) => Ok((seq![v] + rest, r)),
                Err(em) => Err(em),
            },
            Err(em) => Err(em),
        }
    } else {
        Err(error_from_token(t))
    }
}

#[via_fn]
proof fn sp_elements_rest_dec(s: Seq<char>, p: int) {
    lemma_cook_at_bounds(s, p);
}

proof fn lemma_sp_object_bounded(s: Seq<char>, p: int)
    requires
        0 <= p <= s.len(),
    ensures
        sp_object(s, p) matches Ok((v, q)) ==> p < q <= s.len(),
    decreases s.len() - p, 0int,
{
    lemma_cook_at_bounds(s, p);
    let (t1, p1, w1) = cook_at(s, p);
    lemma_cook_at_bounds(s, p1);
    if t1.kind is OpenBracket {
        lemma_sp_members_bounded(s, p1);
        match sp_members(s, p1) {
            Ok((items, q)) => {
                lemma_cook_at_bounds(s, q);
            },
            Err(em) => {},
        }
    }
}

proof fn lemma_sp_array_bounded(s: Seq<char>, p: int)
    requires
        0 <= p <= s.len(),
    ensures
        sp_array(s, p) matches Ok((v, q)) ==> p < q <= s.len(),
    decreases s.len() - p, 0int,
{
    lemma_cook_at_bounds(s, p);
    let (t1, p1, w1) = cook_at(s, p);
    lemma_cook_at_bounds(s, p1);
    if t1.kind is OpenSquare {
        lemma_sp_elements_bounded(s, p1);
        match sp_elements(s, p1) {
            Ok((items, q)) => {
                lemma_cook_at_bounds(s, q);
            },
            Err(em) => {},
        }
    }
}

proof fn lemma_sp_members_bounded(s: Seq<char>, p: int)
    requires
        0 <= p <= s.len(),
    ensures
        sp_members(s, p) matches Ok((items, q)) ==> p < q <= s.len(),
    decreases s.len() - p, 5int,
{
    lemma_sp_member_bounded(s, p);
    match sp_member(s, p) {
        Ok((kv, q)) => {
            lemma_sp_members_rest_bounded(s, step(p, q, s.len() as int));
        },
        Err(em) => {},
    }
}

proof fn lemma_sp_members_rest_bounded(s: Seq<char>, p: int)
    requires
        0 <= p <= s.len(),
    ensures
        sp_members_rest(s, p) matches Ok((items, q)) ==> p <= q <= s.len(),
    decreases s.len() - p, 4int,
{
    lemma_cook_at_bounds(s, p);
    let (t, p1, w) = cook_at(s, p);
    if t.kind is Comma {
        lemma_sp_member_bounded(s, p1);
        match sp_member(s, p1) {
            Ok((kv, q)) => {
                lemma_sp_members_rest_bounded(s, step(p1, q, s.len() as int));
            },
            Err(em) => {},
        }
    }
}

proof fn lemma_sp_member_bounded(s: Seq<char>, p: int)
    requires
        0 <= p <= s.len(),
    ensures
        sp_member(s, p) matches Ok((kv, q)) ==> p < q <= s.len(),
    decreases s.len() - p, 2int,
{
    lemma_cook_at_bounds(s, p);
    let (t, p1, w) = cook_at(s, p);
    lemma_cook_at_bounds(s, p1);
    let (t2, p2, w2) = cook_at(s, p1);
    if t.kind matches TokenKindModel::Str(key) && t2.kind is Colon {
        lemma_sp_value_bounded(s, p2);
    }
}

proof fn lemma_sp_value_bounded(s: Seq<char>, p: int)
    requires
        0 <= p <= s.len(),
    ensures
        sp_value(s, p) matches Ok((v, q)) ==> p < q <= s.len(),
    decreases s.len() - p, 1int,
{
    lemma_cook_at_bounds(s, p);
    let (t, e, w) = cook_at(s, p);
    match t.kind {
        TokenKindModel::OpenBracket => {
            lemma_sp_object_bounded(s, p);
        },
        TokenKindModel::OpenSquare => {
            lemma_sp_array_bounded(s, p);
        },
        _ => {},
    }
}

proof fn lemma_sp_elements_bounded(s: Seq<char>, p: int)
    requires
        0 <= p <= s.len(),
    ensures
        sp_elements(s, p) matches Ok((items, q)) ==> p < q <= s.len(),
    decreases s.len() - p, 5int,
{
    lemma_sp_value_bounded(s, p);
    match sp_value(s, p) {
        Ok((v, q)) => {
            lemma_sp_elements_rest_bounded(s, step(p, q, s.len() as int));
        },
        Err(em) => {},
    }
}

proof fn lemma_sp_elements_rest_bounded(s: Seq<char>, p: int)
    requires
        0 <= p <= s.len(),
    ensures
        sp_elements_rest(s, p) matches Ok((items, q)) ==> p <= q <= s.len(),
    decreases s.len() - p, 4int,
{
    lemma_cook_at_bounds(s, p);
    let (t, p1, w) = cook_at(s, p);
    if t.kind is Comma {
        lemma_sp_value_bounded(s, p1);
        match sp_value(s, p1) {
            Ok((v, q)) => {
                lemma_sp_elements_rest_bounded(s, step(p1, q, s.len() as int));
            },
            Err(em) => {},
        }
    }
}

/// Every production that succeeds consumes at least one token, so the
/// termination guard [`step`] never binds on a reachable position.
pub proof fn lemma_sp_value_advances(s: Seq<char>, p: int)
    requires
        0 <= p <= s.len(),
    ensures
        sp_value(s, p) matches Ok((v, q)) ==> p < q <= s.len() && step(p, q, s.len() as int) == q,
        sp_member(s, p) matches Ok((kv, q)) ==> p < q <= s.len() && step(p, q, s.len() as int)
            == q,
{
    lemma_sp_value_bounded(s, p);
    lemma_sp_member_bounded(s, p);
}

/// Parse one value and then require end of input; any leftover token is an
/// unexpected continuation.
pub open spec fn sp_parse(s: Seq<char>) -> Result<NodeModel, ParseErrorModel> {
    match sp_value(s, 0) {
        Ok((n, p)) => {
            let (t, e, w) = cook_at(s, p);
            if t.kind is Eof {
                Ok(n)
            } else {
                Err(
                    ParseErrorModel {
                        kind: ParseErrorKindModel::UnexpectedContinuation(t.kind),
                        base: t.base,
                        len: t.len,
                    },
                )
            }
        },
        Err(em) => Err(em),
    }
}

/// Prepending already-parsed members to the outcome of the rest of the list.
spec fn members_prepend(
    acc: Seq<(Seq<char>, NodeModel)>,
    r: Result<(Seq<(Seq<char>, NodeModel)>, int), ParseErrorModel>,
) -> Result<(Seq<(Seq<char>, NodeModel)>, int), ParseErrorModel> {
    match r {
        Ok((rest, e)) => Ok((acc + rest, e)),
        Err(em) => Err(em),
    }
}

/// Prepending already-parsed elements to the outcome of the rest of the list.
spec fn elements_prepend(
    acc: Seq<NodeModel>,
    r: Result<(Seq<NodeModel>, int), ParseErrorModel>,
) -> Result<(Seq<NodeModel>, int), ParseErrorModel> {
    match r {
        Ok((rest, e)) => Ok((acc + rest, e)),
        Err(em) => Err(em),
    }
}

/// The recursive-descent parser: a token cooker and a one-token lookahead.
pub struct Parser {
    tokenizer: Tokenizer,
    peeked: Option<(Token, bool)>,
    peek_start: Ghost<int>,
}

impl Parser {
    /// The source text.
    spec fn src(&self) -> Seq<char> {
        self.tokenizer.cursor.chars@
    }

    /// The position of the next token to hand out: where the lookahead token
    /// was cooked if one is held, else the cooker's own position.
    spec fn cur(&self) -> int {
        if self.peeked is Some {
            self.peek_start@
        } else {
            self.tokenizer.cursor.pos as int
        }
    }

    /// The held lookahead token, if any, is exactly the cooked token at its
    /// recorded position, and the cooker stands just after it.
    spec fn wf(&self) -> bool {
        &&& self.tokenizer.wf()
        &&& match self.peeked {
            Some(tw) => {
                let (tm, e, w) = cook_at(self.src(), self.peek_start@);
                &&& 0 <= self.peek_start@ <= self.src().len()
                &&& tw.0@ == tm
                &&& tw.1 == w
                &&& self.tokenizer.cursor.pos == e
            },
            None => true,
        }
    }

    /// Create a new parser.
    fn new(input: &str) -> (p: Parser)
        ensures
            p.wf(),
            p.src() == input@,
            p.cur() == 0,
    {
        Parser { tokenizer: Tokenizer::new(input), peeked: None, peek_start: Ghost(0) }
    }

    /// Make sure a lookahead token is held.
    fn fill_peek(&mut self)
        requires
            old(self).wf(),
        ensures
            final(self).wf(),
            final(self).src() == old(self).src(),
            final(self).cur() == old(self).cur(),
            ({
                let (tm, e, w) = cook_at(old(self).src(), old(self).cur());
                &&& final(self).peeked matches Some(tw) && tw.0@ == tm && tw.1 == w
            }),
    {
        if self.peeked.is_none() {
            let ghost p0 = self.tokenizer.cursor.pos as int;
            let tw = self.tokenizer.next_token();
            self.peeked = Some(tw);
            self.peek_start = Ghost(p0);
        }
    }

    /// Get the next token, moving the position along one token.
    fn next(&mut self) -> (r: (Token, bool))
        requires
            old(self).wf(),
        ensures
            final(self).wf(),
            final(self).src() == old(self).src(),
            final(self).peeked is None,
            ({
                let (tm, e, w) = cook_at(old(self).src(), old(self).cur());
                &&& r.0@ == tm
                &&& r.1 == w
                &&& final(self).cur() == e
            }),
    {
        self.fill_peek();
        self.peeked.take().unwrap()
    }

    fn eat_open_bracket(&mut self) -> (r: Result<(), ParseError>)
        requires
            old(self).wf(),
        ensures
            final(self).wf(),
            final(self).src() == old(self).src(),
            ({
                let (tm, e, w) = cook_at(old(self).src(), old(self).cur());
                &&& (tm.kind is OpenBracket ==> r is Ok && final(self).cur() == e)
                &&& (!(tm.kind is OpenBracket) ==> (r matches Err(pe) && pe@ == error_from_token(
                    tm,
                )))
            }),
    {
        proof {
            lemma_cook_token_fits(self.src(), self.cur());
        }
        let (tok, _) = self.next();
        match tok.kind {
            TokenKind::OpenBracket => Ok(()),
            _ => Err(ParseError::from_token(tok)),
        }
    }

    fn eat_close_bracket(&mut self) -> (r: Result<(), ParseError>)
        requires
            old(self).wf(),
        ensures
            final(self).wf(),
            final(self).src() == old(self).src(),
            ({
                let (tm, e, w) = cook_at(old(self).src(), old(self).cur());
                &&& (tm.kind is CloseBracket ==> r is Ok && final(self).cur() == e)
                &&& (!(tm.kind is CloseBracket) ==> (r matches Err(pe) && pe@ == error_from_token(
                    tm,
                )))
            }),
    {
        proof {
            lemma_cook_token_fits(self.src(), self.cur());
        }
        let (tok, _) = self.next();
        match tok.kind {
            TokenKind::CloseBracket => Ok(()),
            _ => Err(ParseError::from_token(tok)),
        }
    }

    fn eat_open_square(&mut self) -> (r: Result<(), ParseError>)
        requires
            old(self).wf(),
        ensures
            final(self).wf(),
            final(self).src() == old(self).src(),
            ({
                let (tm, e, w) = cook_at(old(self).src(), old(self).cur());
                &&& (tm.kind is OpenSquare ==> r is Ok && final(self).cur() == e)
                &&& (!(tm.kind is OpenSquare) ==> (r matches Err(pe) && pe@ == error_from_token(
                    tm,
                )))
            }),
    {
        proof {
            lemma_cook_token_fits(self.src(), self.cur());
        }
        let (tok, _) = self.next();
        match tok.kind {
            TokenKind::OpenSquare => Ok(()),
            _ => Err(ParseError::from_token(tok)),
        }
    }

    fn eat_close_square(&mut self) -> (r: Result<(), ParseError>)
        requires
            old(self).wf(),
        ensures
            final(self).wf(),
            final(self).src() == old(self).src(),
            ({
                let (tm, e, w) = cook_at(old(self).src(), old(self).cur());
                &&& (tm.kind is CloseSquare ==> r is Ok && final(self).cur() == e)
                &&& (!(tm.kind is CloseSquare) ==> (r matches Err(pe) && pe@ == error_from_token(
                    tm,
                )))
            }),
    {
        proof {
            lemma_cook_token_fits(self.src(), self.cur());
        }
        let (tok, _) = self.next();
        match tok.kind {
            TokenKind::CloseSquare => Ok(()),
            _ => Err(ParseError::from_token(tok)),
        }
    }

    fn eat_colon(&mut self) -> (r: Result<(), ParseError>)
        requires
            old(self).wf(),
        ensures
            final(self).wf(),
            final(self).src() == old(self).src(),
            ({
                let (tm, e, w) = cook_at(old(self).src(), old(self).cur());
                &&& (tm.kind is Colon ==> r is Ok && final(self).cur() == e)
                &&& (!(tm.kind is Colon) ==> (r matches Err(pe) && pe@ == error_from_token(tm)))
            }),
    {
        proof {
            lemma_cook_token_fits(self.src(), self.cur());
        }
        let (tok, _) = self.next();
        match tok.kind {
            TokenKind::Colon => Ok(()),
            _ => Err(ParseError::from_token(tok)),
        }
    }

    fn eat_comma(&mut self) -> (r: Result<(), ParseError>)
        requires
            old(self).wf(),
        ensures
            final(self).wf(),
            final(self).src() == old(self).src(),
            ({
                let (tm, e, w) = cook_at(old(self).src(), old(self).cur());
                &&& (tm.kind is Comma ==> r is Ok && final(self).cur() == e)
                &&& (!(tm.kind is Comma) ==> (r matches Err(pe) && pe@ == error_from_token(tm)))
            }),
    {
        proof {
            lemma_cook_token_fits(self.src(), self.cur());
        }
        let (tok, _) = self.next();
        match tok.kind {
            TokenKind::Comma => Ok(()),
            _ => Err(ParseError::from_token(tok)),
        }
    }

    fn string(&mut self) -> (r: Result<Node, ParseError>)
        requires
            old(self).wf(),
        ensures
            final(self).wf(),
            final(self).src() == old(self).src(),
            ({
                let (tm, e, w) = cook_at(old(self).src(), old(self).cur());
                &&& (tm.kind matches TokenKindModel::Str(v) ==> (r matches Ok(n) && n@
                    == NodeModel::Str(v) && final(self).cur() == e))
                &&& (!(tm.kind is Str) ==> (r matches Err(pe) && pe@ == error_from_token(tm)))
            }),
    {
        proof {
            lemma_cook_token_fits(self.src(), self.cur());
        }
        let (tok, _) = self.next();
        match tok.kind {
            TokenKind::Str(sv) => Ok(Node::Str(sv)),
            _ => Err(ParseError::from_token(tok)),
        }
    }

    fn integer(&mut self) -> (r: Result<Node, ParseError>)
        requires
            old(self).wf(),
        ensures
            final(self).wf(),
            final(self).src() == old(self).src(),
            ({
                let (tm, e, w) = cook_at(old(self).src(), old(self).cur());
                &&& (tm.kind matches TokenKindModel::Int(v) ==> (r matches Ok(n) && n@
                    == NodeModel::Int(v) && final(self).cur() == e))
                &&& (!(tm.kind is Int) ==> (r matches Err(pe) && pe@ == error_from_token(tm)))
            }),
    {
        proof {
            lemma_cook_token_fits(self.src(), self.cur());
        }
        let (tok, _) = self.next();
        match tok.kind {
            TokenKind::Int(i) => Ok(Node::Int(i)),
            _ => Err(ParseError::from_token(tok)),
        }
    }

    fn float(&mut self) -> (r: Result<Node, ParseError>)
        requires
            old(self).wf(),
        ensures
            final(self).wf(),
            final(self).src() == old(self).src(),
            ({
                let (tm, e, w) = cook_at(old(self).src(), old(self).cur());
                &&& (tm.kind matches TokenKindModel::Float(v) ==> (r matches Ok(n) && n@
                    == NodeModel::Float(v) && final(self).cur() == e))
                &&& (!(tm.kind is Float) ==> (r matches Err(pe) && pe@ == error_from_token(tm)))
            }),
    {
        proof {
            lemma_cook_token_fits(self.src(), self.cur());
        }
        let (tok, _) = self.next();
        match tok.kind {
            TokenKind::Float(text) => Ok(Node::Float(text)),
            _ => Err(ParseError::from_token(tok)),
        }
    }

    fn ident_true(&mut self) -> (r: Result<Node, ParseError>)
        requires
            old(self).wf(),
        ensures
            final(self).wf(),
            final(self).src() == old(self).src(),
            ({
                let (tm, e, w) = cook_at(old(self).src(), old(self).cur());
                &&& (tm.kind is True ==> (r matches Ok(n) && n@ == NodeModel::True && final(self).cur() == e))
                &&& (!(tm.kind is True) ==> (r matches Err(pe) && pe@ == error_from_token(tm)))
            }),
    {
        proof {
            lemma_cook_token_fits(self.src(), self.cur());
        }
        let (tok, _) = self.next();
        match tok.kind {
            TokenKind::True => Ok(Node::True),
            _ => Err(ParseError::from_token(tok)),
        }
    }

    fn ident_false(&mut self) -> (r: Result<Node, ParseError>)
        requires
            old(self).wf(),
        ensures
            final(self).wf(),
            final(self).src() == old(self).src(),
            ({
                let (tm, e, w) = cook_at(old(self).src(), old(self).cur());
                &&& (tm.kind is False ==> (r matches Ok(n) && n@ == NodeModel::False && final(self).cur() == e))
                &&& (!(tm.kind is False) ==> (r matches Err(pe) && pe@ == error_from_token(tm)))
            }),
    {
        proof {
            lemma_cook_token_fits(self.src(), self.cur());
        }
        let (tok, _) = self.next();
        match tok.kind {
            TokenKind::False => Ok(Node::False),
            _ => Err(ParseError::from_token(tok)),
        }
    }

    fn ident_null(&mut self) -> (r: Result<Node, ParseError>)
        requires
            old(self).wf(),
        ensures
            final(self).wf(),
            final(self).src() == old(self).src(),
            ({
                let (tm, e, w) = cook_at(old(self).src(), old(self).cur());
                &&& (tm.kind is Null ==> (r matches Ok(n) && n@ == NodeModel::Null && final(self).cur() == e))
                &&& (!(tm.kind is Null) ==> (r matches Err(pe) && pe@ == error_from_token(tm)))
            }),
    {
        proof {
            lemma_cook_token_fits(self.src(), self.cur());
        }
        let (tok, _) = self.next();
        match tok.kind {
            TokenKind::Null => Ok(Node::Null),
            _ => Err(ParseError::from_token(tok)),
        }
    }

    fn value(&mut self) -> (r: Result<Node, ParseError>)
        requires
            old(self).wf(),
        ensures
            final(self).wf(),
            final(self).src() == old(self).src(),
            ({
                match sp_value(old(self).src(), old(self).cur()) {
                    Ok((nm, e)) => r matches Ok(n) && n@ == nm && final(self).cur() == e,
                    Err(em) => r matches Err(pe) && pe@ == em,
                }
            }),
        decreases self.src().len() - self.cur(), 1int,
    {
        self.fill_peek();
        proof {
            lemma_cook_token_fits(self.src(), self.cur());
        }
        let node = match self.peeked {
            Some((Token { kind: TokenKind::OpenBracket, .. }, _)) => self.object()?,
            Some((Token { kind: TokenKind::OpenSquare, .. }, _)) => self.array()?,
            Some((Token { kind: TokenKind::Str(_), .. }, _)) => self.string()?,
            Some((Token { kind: TokenKind::Int(_), .. }, _)) => self.integer()?,
            Some((Token { kind: TokenKind::Float(_), .. }, _)) => self.float()?,
            Some((Token { kind: TokenKind::True, .. }, _)) => self.ident_true()?,
            Some((Token { kind: TokenKind::False, .. }, _)) => self.ident_false()?,
            Some((Token { kind: TokenKind::Null, .. }, _)) => self.ident_null()?,
            _ => {
                let (tok, _) = self.next();
                return Err(ParseError::from_token(tok));
            },
        };
        Ok(node)
    }

    fn object(&mut self) -> (r: Result<Node, ParseError>)
        requires
            old(self).wf(),
        ensures
            final(self).wf(),
            final(self).src() == old(self).src(),
            ({
                match sp_object(old(self).src(), old(self).cur()) {
                    Ok((nm, e)) => r matches Ok(n) && n@ == nm && final(self).cur() == e,
                    Err(em) => r matches Err(pe) && pe@ == em,
                }
            }),
        decreases self.src().len() - self.cur(), 0int,
    {
        let ghost s = self.src();
        let ghost p0 = self.cur();
        proof {
            lemma_cook_at_bounds(s, p0);
        }
        self.eat_open_bracket()?;
        self.fill_peek();
        let items: Vec<(String, Node)> = match self.peeked {
            Some((Token { kind: TokenKind::CloseBracket, .. }, _)) => Vec::new(),
            _ => self.members()?,
        };
        self.eat_close_bracket()?;
        proof {
            lemma_object_view(items);
            assert(entries_view(Seq::<(String, Node)>::empty()) =~= Seq::<(
                Seq<char>,
                NodeModel,
            )>::empty());
        }
        Ok(Node::Object(items))
    }

    #[verifier::rlimit(100)]
    fn members(&mut self) -> (r: Result<Vec<(String, Node)>, ParseError>)
        requires
            old(self).wf(),
        ensures
            final(self).wf(),
            final(self).src() == old(self).src(),
            ({
                match sp_members(old(self).src(), old(self).cur()) {
                    Ok((ms, e)) => r matches Ok(v) && entries_view(v@) == ms && final(self).cur()
                        == e,
                    Err(em) => r matches Err(pe) && pe@ == em,
                }
            }),
        decreases self.src().len() - self.cur(), 3int,
    {
        let ghost s = self.src();
        let ghost p0 = self.cur();
        let kv = match self.member() {
            Ok(kv) => kv,
            Err(e) => {
                return Err(e);
            },
        };
        proof {
            lemma_sp_value_advances(s, p0);
        }
        let mut members: Vec<(String, Node)> = Vec::new();
        members.push(kv);
        proof {
            match sp_member(s, p0) {
                Ok((kvm, q)) => {
                    assert(entries_view(members@) =~= seq![kvm]);
                },
                Err(em) => {},
            }
        }
        loop
            invariant
                self.wf(),
                self.src() == s,
                s == old(self).src(),
                p0 == old(self).cur(),
                0 <= p0 <= self.cur() <= s.len(),
                members_prepend(entries_view(members@), sp_members_rest(s, self.cur()))
                    == sp_members(s, p0),
            decreases s.len() - self.cur(),
        {
            self.fill_peek();
            proof {
                lemma_cook_token_fits(s, self.cur());
                lemma_cook_at_bounds(s, self.cur());
            }
            let ghost q = self.cur();
            match self.peeked {
                Some((Token { kind: TokenKind::CloseBracket, .. }, _)) => {
                    proof {
                        assert(entries_view(members@) + Seq::<(Seq<char>, NodeModel)>::empty()
                            =~= entries_view(members@));
                    }
                    return Ok(members);
                },
                _ => {
                    match self.eat_comma() {
                        Ok(()) => {},
                        Err(e) => {
                            return Err(e);
                        },
                    }
                    let ghost q1 = self.cur();
                    let kv2 = match self.member() {
                        Ok(kv) => kv,
                        Err(e) => {
                            return Err(e);
                        },
                    };
                    proof {
                        lemma_sp_value_advances(s, q1);
                        match sp_member(s, q1) {
                            Ok((kvm2, q2)) => {
                                assert(entries_view(members@.push(kv2)) =~= entries_view(
                                    members@,
                                ) + seq![kvm2]);
                                match sp_members_rest(s, q2) {
                                    Ok((rest2, rr)) => {
                                        assert((entries_view(members@) + seq![kvm2]) + rest2
                                            =~= entries_view(members@) + (seq![kvm2] + rest2));
                                    },
                                    Err(em) => {},
                                }
                            },
                            Err(em) => {},
                        }
                    }
                    members.push(kv2);
                },
            }
        }
    }

    fn member(&mut self) -> (r: Result<(String, Node), ParseError>)
        requires
            old(self).wf(),
        ensures
            final(self).wf(),
            final(self).src() == old(self).src(),
            ({
                match sp_member(old(self).src(), old(self).cur()) {
                    Ok((kvm, e)) => r matches Ok(kv) && kv.0@ == kvm.0 && kv.1@ == kvm.1
                        && final(self).cur() == e,
                    Err(em) => r matches Err(pe) && pe@ == em,
                }
            }),
        decreases self.src().len() - self.cur(), 2int,
    {
        let ghost s = self.src();
        let ghost p0 = self.cur();
        proof {
            lemma_cook_token_fits(s, p0);
            lemma_cook_at_bounds(s, p0);
        }
        let (tok, _) = self.next();
        let key = match tok.kind {
            TokenKind::Str(sv) => sv,
            _ => {
                return Err(ParseError::from_token(tok));
            },
        };
        proof {
            lemma_cook_at_bounds(s, self.cur());
        }
        self.eat_colon()?;
        let value = self.value()?;
        Ok((key, value))
    }

    fn array(&mut self) -> (r: Result<Node, ParseError>)
        requires
            old(self).wf(),
        ensures
            final(self).wf(),
            final(self).src() == old(self).src(),
            ({
                match sp_array(old(self).src(), old(self).cur()) {
                    Ok((nm, e)) => r matches Ok(n) && n@ == nm && final(self).cur() == e,
                    Err(em) => r matches Err(pe) && pe@ == em,
                }
            }),
        decreases self.src().len() - self.cur(), 0int,
    {
        let ghost s = self.src();
        let ghost p0 = self.cur();
        proof {
            lemma_cook_at_bounds(s, p0);
        }
        self.eat_open_square()?;
        self.fill_peek();
        let items: Vec<Node> = match self.peeked {
            Some((Token { kind: TokenKind::CloseSquare, .. }, _)) => Vec::new(),
            _ => self.elements()?,
        };
        self.eat_close_square()?;
        proof {
            lemma_array_view(items);
            assert(nodes_view(Seq::<Node>::empty()) =~= Seq::<NodeModel>::empty());
        }
        Ok(Node::Array(items))
    }

    #[verifier::rlimit(100)]
    fn elements(&mut self) -> (r: Result<Vec<Node>, ParseError>)
        requires
            old(self).wf(),
        ensures
            final(self).wf(),
            final(self).src() == old(self).src(),
            ({
                match sp_elements(old(self).src(), old(self).cur()) {
                    Ok((ms, e)) => r matches Ok(v) && nodes_view(v@) == ms && final(self).cur()
                        == e,
                    Err(em) => r matches Err(pe) && pe@ == em,
                }
            }),
        decreases self.src().len() - self.cur(), 3int,
    {
        let ghost s = self.src();
        let ghost p0 = self.cur();
        let first = match self.value() {
            Ok(n) => n,
            Err(e) => {
                return Err(e);
            },
        };
        proof {
            lemma_sp_value_advances(s, p0);
        }
        let mut elements: Vec<Node> = Vec::new();
        elements.push(first);
        proof {
            match sp_value(s, p0) {
                Ok((nm, q)) => {
                    assert(nodes_view(elements@) =~= seq![nm]);
                },
                Err(em) => {},
            }
        }
        loop
            invariant
                self.wf(),
                self.src() == s,
                s == old(self).src(),
                p0 == old(self).cur(),
                0 <= p0 <= self.cur() <= s.len(),
                elements_prepend(nodes_view(elements@), sp_elements_rest(s, self.cur()))
                    == sp_elements(s, p0),
            decreases s.len() - self.cur(),
        {
            self.fill_peek();
            proof {
                lemma_cook_token_fits(s, self.cur());
                lemma_cook_at_bounds(s, self.cur());
            }
            match self.peeked {
                Some((Token { kind: TokenKind::CloseSquare, .. }, _)) => {
                    proof {
                        assert(nodes_view(elements@) + Seq::<NodeModel>::empty() =~= nodes_view(
                            elements@,
                        ));
                    }
                    return Ok(elements);
                },
                _ => {
                    match self.eat_comma() {
                        Ok(()) => {},
                        Err(e) => {
                            return Err(e);
                        },
                    }
                    let ghost q1 = self.cur();
                    let next_element = match self.value() {
                        Ok(n) => n,
                        Err(e) => {
                            return Err(e);
                        },
                    };
                    proof {
                        lemma_sp_value_advances(s, q1);
                        match sp_value(s, q1) {
                            Ok((nm2, q2)) => {
                                assert(nodes_view(elements@.push(next_element)) =~= nodes_view(
                                    elements@,
                                ) + seq![nm2]);
                                match sp_elements_rest(s, q2) {
                                    Ok((rest2, rr)) => {
                                        assert((nodes_view(elements@) + seq![nm2]) + rest2
                                            =~= nodes_view(elements@) + (seq![nm2] + rest2));
                                    },
                                    Err(em) => {},
                                }
                            },
                            Err(em) => {},
                        }
                    }
                    elements.push(next_element);
                },
            }
        }
    }

    /// Consume the end of input; any leftover token is an unexpected
    /// continuation.
    fn end(&mut self) -> (r: Result<(), ParseError>)
        requires
            old(self).wf(),
        ensures
            final(self).wf(),
            final(self).src() == old(self).src(),
            ({
                let (tm, e, w) = cook_at(old(self).src(), old(self).cur());
                &&& (tm.kind is Eof ==> r is Ok)
                &&& (!(tm.kind is Eof) ==> (r matches Err(pe) && pe@ == (ParseErrorModel {
                    kind: ParseErrorKindModel::UnexpectedContinuation(tm.kind),
                    base: tm.base,
                    len: tm.len,
                })))
            }),
    {
        let (tok, _) = self.next();
        match tok.kind {
            TokenKind::Eof => Ok(()),
            _ => Err(ParseError::unexpected_continuation(tok)),
        }
    }

    fn json(&mut self) -> (r: Result<Node, ParseError>)
        requires
            old(self).wf(),
        ensures
            final(self).wf(),
            final(self).src() == old(self).src(),
            ({
                match sp_value(old(self).src(), old(self).cur()) {
                    Ok((nm, e)) => r matches Ok(n) && n@ == nm && final(self).cur() == e,
                    Err(em) => r matches Err(pe) && pe@ == em,
                }
            }),
    {
        self.value()
    }

    fn parse(&mut self) -> (r: Result<Node, ParseError>)
        requires
            old(self).wf(),
            old(self).cur() == 0,
        ensures
            ({
                match sp_parse(old(self).src()) {
                    Ok(nm) => r matches Ok(n) && n@ == nm,
                    Err(em) => r matches Err(pe) && pe@ == em,
                }
            }),
    {
        let node = self.json()?;
        self.end()?;
        Ok(node)
    }
}

/// A parse outcome agrees with a model outcome: success with the modelled
/// tree, or failure with the modelled error.
pub open spec fn parse_result_matches(
    r: Result<Node, ParseError>,
    m: Result<NodeModel, ParseErrorModel>,
) -> bool {
    match m {
        Ok(nm) => r matches Ok(n) && n@ == nm,
        Err(em) => r matches Err(pe) && pe@ == em,
    }
}

/// Parse a JSON text to its tree value, or report the first error with its
/// byte span: exactly the outcome that [`sp_parse`] assigns to the input.
pub fn parse(input: &str) -> (r: Result<Node, ParseError>)
    ensures
        parse_result_matches(r, sp_parse(input@)),
{
    let mut parser = Parser::new(input);
    let res = parser.parse();
    res
}

/// Parsing is free of hidden state: the outcome is a function of the text
/// alone, so two parses of the same text yield identical results, success
/// for success, tree for tree, error for error.
pub proof fn lemma_parse_idempotent(
    s: Seq<char>,
    r1: Result<Node, ParseError>,
    r2: Result<Node, ParseError>,
)
    requires
        parse_result_matches(r1, sp_parse(s)),
        parse_result_matches(r2, sp_parse(s)),
    ensures
        r1 is Ok <==> r2 is Ok,
        r1 matches Ok(n1) ==> (r2 matches Ok(n2) && n1@ == n2@),
        r1 matches Err(e1) ==> (r2 matches Err(e2) && e1@ == e2@),
{
}

/// The canonical token spelling of one member: a string key, a colon, and the
/// value's spelling. Yields the position just after it, when the tokens at
/// `i` spell exactly this member.
pub open spec fn spell_member(kv: (Seq<char>, NodeModel), s: Seq<char>, i: int) -> Option<int>
    decreases kv,
{
    let (t, p1, w) = cook_at(s, i);
    if t.kind == TokenKindModel::Str(kv.0) {
        let (t2, p2, w2) = cook_at(s, p1);
        if t2.kind is Colon {
            spell_value(kv.1, s, p2)
        } else {
            None
        }
    } else {
        None
    }
}

/// The spelling of a member list's continuation: for each further member a
/// comma and the member's spelling.
pub open spec fn spell_members_rest(
    items: Seq<(Seq<char>, NodeModel)>,
    s: Seq<char>,
    i: int,
) -> Option<int>
    decreases items,
{
    if items.len() == 0 {
        Some(i)
    } else {
        let (t, p1, w) = cook_at(s, i);
        if t.kind is Comma {
            match spell_member(items[0], s, p1) {
                Some(q) => spell_members_rest(items.subrange(1, items.len() as int), s, q),
                None => None,
            }
        } else {
            None
        }
    }
}

/// The spelling of a non-empty member list.
pub open spec fn spell_members(
    items: Seq<(Seq<char>, NodeModel)>,
    s: Seq<char>,
    i: int,
) -> Option<int>
    decreases items,
{
    if items.len() == 0 {
        None
    } else {
        match spell_member(items[0], s, i) {
            Some(q) => spell_members_rest(items.subrange(1, items.len() as int), s, q),
            None => None,
        }
    }
}

/// The spelling of an element list's continuation.
pub open spec fn spell_elements_rest(items: Seq<NodeModel>, s: Seq<char>, i: int) -> Option<int>
    decreases items,
{
    if items.len() == 0 {
        Some(i)
    } else {
        let (t, p1, w) = cook_at(s, i);
        if t.kind is Comma {
            match spell_value(items[0], s, p1) {
                Some(q) => spell_elements_rest(items.subrange(1, items.len() as int), s, q),
                None => None,
            }
        } else {
            None
        }
    }
}

/// The spelling of a non-empty element list.
pub open spec fn spell_elements(items: Seq<NodeModel>, s: Seq<char>, i: int) -> Option<int>
    decreases items,
{
    if items.len() == 0 {
        None
    } else {
        match spell_value(items[0], s, i) {
            Some(q) => spell_elements_rest(items.subrange(1, items.len() as int), s, q),
            None => None,
        }
    }
}

/// The canonical token spelling of a tree value, per the grammar: yields the
/// position just after it, when the cooked tokens at `i` spell exactly this
/// tree. This is what a conformant encoder of the tree emits.
pub open spec fn spell_value(n: NodeModel, s: Seq<char>, i: int) -> Option<int>
    decreases n,
{
    let (t, e, w) = cook_at(s, i);
    match n {
        NodeModel::Str(v) => if t.kind == TokenKindModel::Str(v) {
            Some(e)
        } else {
            None
        },
        NodeModel::Int(v) => if t.kind == TokenKindModel::Int(v) {
            Some(e)
        } else {
            None
        },
        NodeModel::Float(text) => if t.kind == TokenKindModel::Float(text) {
            Some(e)
        } else {
            None
        },
        NodeModel::True => if t.kind is True {
            Some(e)
        } else {
            None
        },
        NodeModel::False => if t.kind is False {
            Some(e)
        } else {
            None
        },
        NodeModel::Null => if t.kind is Null {
            Some(e)
        } else {
            None
        },
        NodeModel::Object(items) => if t.kind is OpenBracket {
            if items.len() == 0 {
                let (t2, e2, w2) = cook_at(s, e);
                if t2.kind is CloseBracket {
                    Some(e2)
                } else {
                    None
                }
            } else {
                match spell_members(items, s, e) {
                    Some(q) => {
                        let (t3, e3, w3) = cook_at(s, q);
                        if t3.kind is CloseBracket {
                            Some(e3)
                        } else {
                            None
                        }
                    },
                    None => None,
                }
            }
        } else {
            None
        },
        NodeModel::Array(items) => if t.kind is OpenSquare {
            if items.len() == 0 {
                let (t2, e2, w2) = cook_at(s, e);
                if t2.kind is CloseSquare {
                    Some(e2)
                } else {
                    None
                }
            } else {
                match spell_elements(items, s, e) {
                    Some(q) => {
                        let (t3, e3, w3) = cook_at(s, q);
                        if t3.kind is CloseSquare {
                            Some(e3)
                        } else {
                            None
                        }
                    },
                    None => None,
                }
            }
        } else {
            None
        },
    }
}

proof fn lemma_member_complete(kv: (Seq<char>, NodeModel), s: Seq<char>, i: int)
    requires
        0 <= i <= s.len(),
        spell_member(kv, s, i) is Some,
    ensures
        sp_member(s, i) == Ok::<((Seq<char>, NodeModel), int), ParseErrorModel>(
            (kv, spell_member(kv, s, i).unwrap()),
        ),
    decreases kv,
{
    lemma_cook_at_bounds(s, i);
    let (t, p1, w) = cook_at(s, i);
    lemma_cook_at_bounds(s, p1);
    let (t2, p2, w2) = cook_at(s, p1);
    lemma_value_complete(kv.1, s, p2);
}

proof fn lemma_members_rest_complete(items: Seq<(Seq<char>, NodeModel)>, s: Seq<char>, i: int)
    requires
        0 <= i <= s.len(),
        spell_members_rest(items, s, i) is Some,
        cook_at(s, spell_members_rest(items, s, i).unwrap()).0.kind is CloseBracket,
    ensures
        sp_members_rest(s, i) == Ok::<(Seq<(Seq<char>, NodeModel)>, int), ParseErrorModel>(
            (items, spell_members_rest(items, s, i).unwrap()),
        ),
    decreases items,
{
    lemma_cook_at_bounds(s, i);
    let (t, p1, w) = cook_at(s, i);
    if items.len() == 0 {
        assert(sp_members_rest(s, i) == Ok::<(Seq<(Seq<char>, NodeModel)>, int), ParseErrorModel>(
            (Seq::empty(), i),
        ));
        assert(items =~= Seq::<(Seq<char>, NodeModel)>::empty());
    } else {
        lemma_cook_at_bounds(s, p1);
        let rest = items.subrange(1, items.len() as int);
        lemma_member_complete(items[0], s, p1);
        let q = spell_member(items[0], s, p1).unwrap();
        lemma_sp_value_advances(s, p1);
        lemma_members_rest_complete(rest, s, q);
        assert(items =~= seq![items[0]] + rest);
    }
}

proof fn lemma_members_complete(items: Seq<(Seq<char>, NodeModel)>, s: Seq<char>, i: int)
    requires
        0 <= i <= s.len(),
        items.len() > 0,
        spell_members(items, s, i) is Some,
        cook_at(s, spell_members(items, s, i).unwrap()).0.kind is CloseBracket,
    ensures
        sp_members(s, i) == Ok::<(Seq<(Seq<char>, NodeModel)>, int), ParseErrorModel>(
            (items, spell_members(items, s, i).unwrap()),
        ),
    decreases items,
{
    let rest = items.subrange(1, items.len() as int);
    lemma_member_complete(items[0], s, i);
    let q = spell_member(items[0], s, i).unwrap();
    lemma_sp_value_advances(s, i);
    lemma_members_rest_complete(rest, s, q);
    assert(items =~= seq![items[0]] + rest);
}

proof fn lemma_elements_rest_complete(items: Seq<NodeModel>, s: Seq<char>, i: int)
    requires
        0 <= i <= s.len(),
        spell_elements_rest(items, s, i) is Some,
        cook_at(s, spell_elements_rest(items, s, i).unwrap()).0.kind is CloseSquare,
    ensures
        sp_elements_rest(s, i) == Ok::<(Seq<NodeModel>, int), ParseErrorModel>(
            (items, spell_elements_rest(items, s, i).unwrap()),
        ),
    decreases items,
{
    lemma_cook_at_bounds(s, i);
    let (t, p1, w) = cook_at(s, i);
    if items.len() == 0 {
        assert(sp_elements_rest(s, i) == Ok::<(Seq<NodeModel>, int), ParseErrorModel>(
            (Seq::empty(), i),
        ));
        assert(items =~= Seq::<NodeModel>::empty());
    } else {
        lemma_cook_at_bounds(s, p1);
        let rest = items.subrange(1, items.len() as int);
        lemma_value_complete(items[0], s, p1);
        let q = spell_value(items[0], s, p1).unwrap();
        lemma_sp_value_advances(s, p1);
        lemma_elements_rest_complete(rest, s, q);
        assert(items =~= seq![items[0]] + rest);
    }
}

proof fn lemma_elements_complete(items: Seq<NodeModel>, s: Seq<char>, i: int)
    requires
        0 <= i <= s.len(),
        items.len() > 0,
        spell_elements(items, s, i) is Some,
        cook_at(s, spell_elements(items, s, i).unwrap()).0.kind is CloseSquare,
    ensures
        sp_elements(s, i) == Ok::<(Seq<NodeModel>, int), ParseErrorModel>(
            (items, spell_elements(items, s, i).unwrap()),
        ),
    decreases items,
{
    let rest = items.subrange(1, items.len() as int);
    lemma_value_complete(items[0], s, i);
    let q = spell_value(items[0], s, i).unwrap();
    lemma_sp_value_advances(s, i);
    lemma_elements_rest_complete(rest, s, q);
    assert(items =~= seq![items[0]] + rest);
}

/// Completeness of the parser, one value at a time: where the cooked tokens
/// spell a tree per the grammar, the parser succeeds and returns exactly that
/// tree, consuming exactly its spelling.
pub proof fn lemma_value_complete(n: NodeModel, s: Seq<char>, i: int)
    requires
        0 <= i <= s.len(),
        spell_value(n, s, i) is Some,
    ensures
        sp_value(s, i) == Ok::<(NodeModel, int), ParseErrorModel>(
            (n, spell_value(n, s, i).unwrap()),
        ),
    decreases n,
{
    lemma_cook_at_bounds(s, i);
    let (t, e, w) = cook_at(s, i);
    match n {
        NodeModel::Object(items) => {
            lemma_cook_at_bounds(s, e);
            if items.len() == 0 {
                assert(items =~= Seq::<(Seq<char>, NodeModel)>::empty());
            } else {
                lemma_members_complete(items, s, e);
                // The first member opens with a string key, so the object is
                // not taken for an empty one.
                assert(cook_at(s, e).0.kind matches TokenKindModel::Str(k));
            }
        },
        NodeModel::Array(items) => {
            lemma_cook_at_bounds(s, e);
            if items.len() == 0 {
                assert(items =~= Seq::<NodeModel>::empty());
            } else {
                lemma_elements_complete(items, s, e);
            }
        },
        _ => {},
    }
}

/// A text whose cooked tokens spell a tree per the grammar, with nothing but
/// end of input after it, parses successfully to exactly that tree. Together
/// with [`spell_value`] this is the parser's half of the round trip: a
/// conformant encoder emits a spelling of its tree, and parsing any spelling
/// returns the tree unchanged, object key order preserved.
pub proof fn lemma_parse_complete(n: NodeModel, s: Seq<char>)
    requires
        spell_value(n, s, 0) matches Some(j) && cook_at(s, j).0.kind is Eof,
    ensures
        sp_parse(s) == Ok::<NodeModel, ParseErrorModel>(n),
{
    lemma_value_complete(n, s, 0);
}

proof fn lemma_member_sound(s: Seq<char>, i: int)
    requires
        0 <= i <= s.len(),
    ensures
        sp_member(s, i) matches Ok((kv, q)) ==> spell_member(kv, s, i) == Some(q),
    decreases s.len() - i, 2int,
{
    lemma_cook_at_bounds(s, i);
    let (t, p1, w) = cook_at(s, i);
    lemma_cook_at_bounds(s, p1);
    let (t2, p2, w2) = cook_at(s, p1);
    if t.kind matches TokenKindModel::Str(key) && t2.kind is Colon {
        lemma_value_sound(s, p2);
    }
}

proof fn lemma_members_rest_sound(s: Seq<char>, i: int)
    requires
        0 <= i <= s.len(),
    ensures
        sp_members_rest(s, i) matches Ok((items, q)) ==> spell_members_rest(items, s, i) == Some(
            q,
        ),
    decreases s.len() - i, 4int,
{
    lemma_cook_at_bounds(s, i);
    let (t, p1, w) = cook_at(s, i);
    if t.kind is CloseBracket {
        assert(Seq::<(Seq<char>, NodeModel)>::empty().len() == 0);
    } else if t.kind is Comma {
        lemma_member_sound(s, p1);
        match sp_member(s, p1) {
            Ok((kv, q0)) => {
                lemma_sp_value_advances(s, p1);
                lemma_members_rest_sound(s, q0);
                match sp_members_rest(s, q0) {
                    Ok((rest, q)) => {
                        assert((seq![kv] + rest)[0] == kv);
                        assert((seq![kv] + rest).subrange(1, (seq![kv] + rest).len() as int)
                            =~= rest);
                    },
                    Err(em) => {},
                }
            },
            Err(em) => {},
        }
    }
}

proof fn lemma_members_sound(s: Seq<char>, i: int)
    requires
        0 <= i <= s.len(),
    ensures
        sp_members(s, i) matches Ok((items, q)) ==> items.len() > 0 && spell_members(items, s, i)
            == Some(q),
    decreases s.len() - i, 3int,
{
    lemma_member_sound(s, i);
    match sp_member(s, i) {
        Ok((kv, q0)) => {
            lemma_sp_value_advances(s, i);
            lemma_members_rest_sound(s, q0);
            match sp_members_rest(s, q0) {
                Ok((rest, q)) => {
                    assert((seq![kv] + rest)[0] == kv);
                    assert((seq![kv] + rest).subrange(1, (seq![kv] + rest).len() as int) =~= rest);
                },
                Err(em) => {},
            }
        },
        Err(em) => {},
    }
}

proof fn lemma_elements_rest_sound(s: Seq<char>, i: int)
    requires
        0 <= i <= s.len(),
    ensures
        sp_elements_rest(s, i) matches Ok((items, q)) ==> spell_elements_rest(items, s, i)
            == Some(q),
    decreases s.len() - i, 4int,
{
    lemma_cook_at_bounds(s, i);
    let (t, p1, w) = cook_at(s, i);
    if t.kind is CloseSquare {
    } else if t.kind is Comma {
        lemma_value_sound(s, p1);
        match sp_value(s, p1) {
            Ok((v, q0)) => {
                lemma_sp_value_advances(s, p1);
                lemma_elements_rest_sound(s, q0);
                match sp_elements_rest(s, q0) {
                    Ok((rest, q)) => {
                        assert((seq![v] + rest)[0] == v);
                        assert((seq![v] + rest).subrange(1, (seq![v] + rest).len() as int)
                            =~= rest);
                    },
                    Err(em) => {},
                }
            },
            Err(em) => {},
        }
    }
}

proof fn lemma_elements_sound(s: Seq<char>, i: int)
    requires
        0 <= i <= s.len(),
    ensures
        sp_elements(s, i) matches Ok((items, q)) ==> items.len() > 0 && spell_elements(
            items,
            s,
            i,
        ) == Some(q),
    decreases s.len() - i, 3int,
{
    lemma_value_sound(s, i);
    match sp_value(s, i) {
        Ok((v, q0)) => {
            lemma_sp_value_advances(s, i);
            lemma_elements_rest_sound(s, q0);
            match sp_elements_rest(s, q0) {
                Ok((rest, q)) => {
                    assert((seq![v] + rest)[0] == v);
                    assert((seq![v] + rest).subrange(1, (seq![v] + rest).len() as int) =~= rest);
                },
                Err(em) => {},
            }
        },
        Err(em) => {},
    }
}

proof fn lemma_object_sound(s: Seq<char>, i: int)
    requires
        0 <= i <= s.len(),
    ensures
        sp_object(s, i) matches Ok((n, q)) ==> spell_value(n, s, i) == Some(q),
    decreases s.len() - i, 0int,
{
    lemma_cook_at_bounds(s, i);
    let (t1, p1, w1) = cook_at(s, i);
    if t1.kind is OpenBracket {
        lemma_cook_at_bounds(s, p1);
        let (t2, p2, w2) = cook_at(s, p1);
        if t2.kind is CloseBracket {
            assert(Seq::<(Seq<char>, NodeModel)>::empty().len() == 0);
        } else {
            lemma_members_sound(s, p1);
        }
    }
}

proof fn lemma_array_sound(s: Seq<char>, i: int)
    requires
        0 <= i <= s.len(),
    ensures
        sp_array(s, i) matches Ok((n, q)) ==> spell_value(n, s, i) == Some(q),
    decreases s.len() - i, 0int,
{
    lemma_cook_at_bounds(s, i);
    let (t1, p1, w1) = cook_at(s, i);
    if t1.kind is OpenSquare {
        lemma_cook_at_bounds(s, p1);
        let (t2, p2, w2) = cook_at(s, p1);
        if t2.kind is CloseSquare {
        } else {
            lemma_elements_sound(s, p1);
        }
    }
}

/// Soundness of the parser, one value at a time: a parsed tree spells back to
/// exactly the tokens that were consumed for it.
pub proof fn lemma_value_sound(s: Seq<char>, i: int)
    requires
        0 <= i <= s.len(),
    ensures
        sp_value(s, i) matches Ok((n, q)) ==> spell_value(n, s, i) == Some(q),
    decreases s.len() - i, 1int,
{
    lemma_cook_at_bounds(s, i);
    let (t, e, w) = cook_at(s, i);
    match t.kind {
        TokenKindModel::OpenBracket => {
            lemma_object_sound(s, i);
        },
        TokenKindModel::OpenSquare => {
            lemma_array_sound(s, i);
        },
        _ => {},
    }
}

/// The parser never silently accepts invalid input: a successful parse means
/// the input's cooked tokens spell the returned tree per the grammar, with
/// nothing but end of input after it. Together with [`lemma_parse_complete`],
/// parsing succeeds exactly on the grammar's language, and the tree returned
/// is exactly the one the text spells.
pub proof fn lemma_parse_sound(s: Seq<char>)
    ensures
        sp_parse(s) matches Ok(n) ==> (spell_value(n, s, 0) matches Some(j) && cook_at(
            s,
            j,
        ).0.kind is Eof),
{
    lemma_value_sound(s, 0);
}

/// Every float in the tree carries text of the number shape.
pub open spec fn floats_well_formed(n: NodeModel) -> bool
    decreases n,
{
    match n {
        NodeModel::Float(text) => number_text(text),
        NodeModel::Object(items) => forall|k: int|
            0 <= k < items.len() ==> floats_well_formed(#[trigger] items[k].1),
        NodeModel::Array(items) => forall|k: int|
            0 <= k < items.len() ==> floats_well_formed(#[trigger] items[k]),
        _ => true,
    }
}

proof fn lemma_member_floats(s: Seq<char>, i: int)
    requires
        0 <= i <= s.len(),
    ensures
        sp_member(s, i) matches Ok((kv, q)) ==> floats_well_formed(kv.1),
    decreases s.len() - i, 2int,
{
    lemma_cook_at_bounds(s, i);
    let (t, p1, w) = cook_at(s, i);
    lemma_cook_at_bounds(s, p1);
    let (t2, p2, w2) = cook_at(s, p1);
    if t.kind matches TokenKindModel::Str(key) && t2.kind is Colon {
        lemma_value_floats(s, p2);
    }
}

proof fn lemma_members_rest_floats(s: Seq<char>, i: int)
    requires
        0 <= i <= s.len(),
    ensures
        sp_members_rest(s, i) matches Ok((items, q)) ==> forall|k: int|
            0 <= k < items.len() ==> floats_well_formed(#[trigger] items[k].1),
    decreases s.len() - i, 4int,
{
    lemma_cook_at_bounds(s, i);
    let (t, p1, w) = cook_at(s, i);
    if !(t.kind is CloseBracket) && t.kind is Comma {
        lemma_member_floats(s, p1);
        match sp_member(s, p1) {
            Ok((kv, q0)) => {
                lemma_sp_value_advances(s, p1);
                lemma_members_rest_floats(s, q0);
                match sp_members_rest(s, q0) {
                    Ok((rest, q)) => {
                        assert forall|k: int|
                            0 <= k < (seq![kv] + rest).len() implies floats_well_formed(
                            #[trigger] (seq![kv] + rest)[k].1,
                        ) by {
                            if k > 0 {
                                assert((seq![kv] + rest)[k] == rest[k - 1]);
                            }
                        }
                    },
                    Err(em) => {},
                }
            },
            Err(em) => {},
        }
    }
}

proof fn lemma_members_floats(s: Seq<char>, i: int)
    requires
        0 <= i <= s.len(),
    ensures
        sp_members(s, i) matches Ok((items, q)) ==> forall|k: int|
            0 <= k < items.len() ==> floats_well_formed(#[trigger] items[k].1),
    decreases s.len() - i, 3int,
{
    lemma_member_floats(s, i);
    match sp_member(s, i) {
        Ok((kv, q0)) => {
            lemma_sp_value_advances(s, i);
            lemma_members_rest_floats(s, q0);
            match sp_members_rest(s, q0) {
                Ok((rest, q)) => {
                    assert forall|k: int|
                        0 <= k < (seq![kv] + rest).len() implies floats_well_formed(
                        #[trigger] (seq![kv] + rest)[k].1,
                    ) by {
                        if k > 0 {
                            assert((seq![kv] + rest)[k] == rest[k - 1]);
                        }
                    }
                },
                Err(em) => {},
            }
        },
        Err(em) => {},
    }
}

proof fn lemma_elements_rest_floats(s: Seq<char>, i: int)
    requires
        0 <= i <= s.len(),
    ensures
        sp_elements_rest(s, i) matches Ok((items, q)) ==> forall|k: int|
            0 <= k < items.len() ==> floats_well_formed(#[trigger] items[k]),
    decreases s.len() - i, 4int,
{
    lemma_cook_at_bounds(s, i);
    let (t, p1, w) = cook_at(s, i);
    if !(t.kind is CloseSquare) && t.kind is Comma {
        lemma_value_floats(s, p1);
        match sp_value(s, p1) {
            Ok((v, q0)) => {
                lemma_sp_value_advances(s, p1);
                lemma_elements_rest_floats(s, q0);
                match sp_elements_rest(s, q0) {
                    Ok((rest, q)) => {
                        assert forall|k: int|
                            0 <= k < (seq![v] + rest).len() implies floats_well_formed(
                            #[trigger] (seq![v] + rest)[k],
                        ) by {
                            if k > 0 {
                                assert((seq![v] + rest)[k] == rest[k - 1]);
                            }
                        }
                    },
                    Err(em) => {},
                }
            },
            Err(em) => {},
        }
    }
}

proof fn lemma_elements_floats(s: Seq<char>, i: int)
    requires
        0 <= i <= s.len(),
    ensures
        sp_elements(s, i) matches Ok((items, q)) ==> forall|k: int|
            0 <= k < items.len() ==> floats_well_formed(#[trigger] items[k]),
    decreases s.len() - i, 3int,
{
    lemma_value_floats(s, i);
    match sp_value(s, i) {
        Ok((v, q0)) => {
            lemma_sp_value_advances(s, i);
            lemma_elements_rest_floats(s, q0);
            match sp_elements_rest(s, q0) {
                Ok((rest, q)) => {
                    assert forall|k: int|
                        0 <= k < (seq![v] + rest).len() implies floats_well_formed(
                        #[trigger] (seq![v] + rest)[k],
                    ) by {
                        if k > 0 {
                            assert((seq![v] + rest)[k] == rest[k - 1]);
                        }
                    }
                },
                Err(em) => {},
            }
        },
        Err(em) => {},
    }
}

proof fn lemma_value_floats(s: Seq<char>, i: int)
    requires
        0 <= i <= s.len(),
    ensures
        sp_value(s, i) matches Ok((n, q)) ==> floats_well_formed(n),
    decreases s.len() - i, 1int,
{
    lemma_cook_at_bounds(s, i);
    lemma_float_token_text(s, i);
    let (t, e, w) = cook_at(s, i);
    match t.kind {
        TokenKindModel::OpenBracket => {
            lemma_cook_at_bounds(s, e);
            lemma_members_floats(s, e);
        },
        TokenKindModel::OpenSquare => {
            lemma_cook_at_bounds(s, e);
            lemma_elements_floats(s, e);
        },
        _ => {},
    }
}

/// Every float node a successful parse hands out carries text of the number
/// shape, which the standard double-precision parser accepts: converting the
/// tree's floats cannot fail.
pub proof fn lemma_parse_floats_well_formed(s: Seq<char>)
    ensures
        sp_parse(s) matches Ok(n) ==> floats_well_formed(n),
{
    lemma_value_floats(s, 0);
}

} // verus!
