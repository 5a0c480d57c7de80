//! Parsing of expressions and statements, by the rules in [`crate::grammar`].

use crate::ast;
use crate::ast::{
    Arg, ArgV, ArmV, BinOp, CommentMap, CommentV, ErrV, Expr, ExprV, LeadingComment, Lvalue,
    ReturnAction, Span, Stmt, StmtV, UnOp, VclError, VclResult,
};
use crate::decimal::Decimal;
use crate::grammar;
use crate::grammar::{InputV, Parse, PlaceV};
use crate::lexer;
use crate::lexer::{Lexed, LexedV, Tok, TokV};
use crate::text;
use vstd::prelude::*;
use vstd::string::*;

verus! {

broadcast use ast::group_views;

/// A place in a token stream.
pub struct Cursor {
    pub pos: usize,
    pub cidx: usize,
    pub out: CommentMap,
}

impl View for Cursor {
    type V = PlaceV;

    open spec fn view(&self) -> PlaceV {
        PlaceV { pos: self.pos as nat, cidx: self.cidx as nat, out: self.out@ }
    }
}

/// The token stream that a lexed stream is.
pub open spec fn input(l: LexedV) -> InputV {
    InputV { toks: l.tokens, comments: l.comments }
}

/// Whether a place lies in the stream.
pub open spec fn inside(l: Lexed, p: Cursor) -> bool {
    &&& input(l@).ended()
    &&& p.pos < l.tokens@.len()
    &&& p.cidx <= l.comments@.len()
}

/// Whether the second place lies in the stream, behind the first one.
pub open spec fn advanced(l: Lexed, a: Cursor, b: Cursor) -> bool {
    inside(l, b) && a.pos < b.pos
}

/// Whether the second place lies in the stream, not before the first one.
pub open spec fn kept(l: Lexed, a: Cursor, b: Cursor) -> bool {
    inside(l, b) && a.pos <= b.pos
}

/// Whether an outcome is what the grammar wants.
pub open spec fn said<T>(want: Parse<T>, got: core::result::Result<T, ErrV>, at: PlaceV) -> bool {
    match got {
        Ok(v) => want == Parse::Read(v, at),
        Err(e) => want == Parse::<T>::Bad(e),
    }
}

pub open spec fn expr_result(r: VclResult<Expr>) -> core::result::Result<ExprV, ErrV> {
    match r {
        Ok(v) => Ok(v@),
        Err(e) => Err(e@),
    }
}

pub open spec fn exprs_result(r: VclResult<Vec<Expr>>) -> core::result::Result<Seq<ExprV>, ErrV> {
    match r {
        Ok(v) => Ok(ast::exprs_view(v@)),
        Err(e) => Err(e@),
    }
}

pub open spec fn args_result(r: VclResult<Vec<Arg>>) -> core::result::Result<Seq<ArgV>, ErrV> {
    match r {
        Ok(v) => Ok(ast::args_view(v@)),
        Err(e) => Err(e@),
    }
}

pub open spec fn arg_result(r: VclResult<Arg>) -> core::result::Result<ArgV, ErrV> {
    match r {
        Ok(v) => Ok(v@),
        Err(e) => Err(e@),
    }
}

pub open spec fn text_result(r: VclResult<String>) -> core::result::Result<Seq<char>, ErrV> {
    match r {
        Ok(v) => Ok(v@),
        Err(e) => Err(e@),
    }
}

pub open spec fn texts_result(r: VclResult<Vec<String>>) -> core::result::Result<Seq<Seq<char>>, ErrV> {
    match r {
        Ok(v) => Ok(text::texts(v@)),
        Err(e) => Err(e@),
    }
}

pub open spec fn span_result(r: VclResult<Span>) -> core::result::Result<Span, ErrV> {
    match r {
        Ok(v) => Ok(v),
        Err(e) => Err(e@),
    }
}

pub open spec fn stmt_result(r: VclResult<Stmt>) -> core::result::Result<StmtV, ErrV> {
    match r {
        Ok(v) => Ok(v@),
        Err(e) => Err(e@),
    }
}

pub open spec fn stmts_result(r: VclResult<Vec<Stmt>>) -> core::result::Result<Seq<StmtV>, ErrV> {
    match r {
        Ok(v) => Ok(ast::stmts_view(v@)),
        Err(e) => Err(e@),
    }
}

pub open spec fn arm_result(r: VclResult<(Expr, Vec<Stmt>)>) -> core::result::Result<ArmV, ErrV> {
    match r {
        Ok(v) => Ok(ast::arm_view(v)),
        Err(e) => Err(e@),
    }
}

// ───────────────────────── single tokens ─────────────────────────

pub(crate) fn peek<'a>(l: &'a Lexed, p: &Cursor) -> (r: &'a Tok)
    requires
        inside(*l, *p),
    ensures
        r@ == grammar::tok(input(l@), p@),
{
    &l.tokens[p.pos].tok
}

/// Whether the token `k` places ahead passes no test of its own kind; behind
/// the stream stands an end token.
pub(crate) fn peek_at<'a>(l: &'a Lexed, p: &Cursor, k: usize) -> (r: &'a Tok)
    requires
        inside(*l, *p),
    ensures
        r@ == grammar::tok_at(input(l@), p@, k as nat),
{
    if k < l.tokens.len() - p.pos {
        &l.tokens[p.pos + k].tok
    } else {
        &l.tokens[l.tokens.len() - 1].tok
    }
}

pub(crate) fn peek_span(l: &Lexed, p: &Cursor) -> (r: Span)
    requires
        inside(*l, *p),
    ensures
        r == grammar::here(input(l@), p@),
{
    l.tokens[p.pos].span
}

pub(crate) fn prev_span(l: &Lexed, p: &Cursor) -> (r: Span)
    requires
        inside(*l, *p),
        p.pos > 0,
    ensures
        r == grammar::before(input(l@), p@),
{
    l.tokens[p.pos - 1].span
}

pub(crate) fn advance(l: &Lexed, p: &mut Cursor)
    requires
        inside(*l, *old(p)),
        !(grammar::tok(input(l@), old(p)@) is Eof),
    ensures
        final(p)@ == grammar::next(old(p)@),
        advanced(*l, *old(p), *final(p)),
        final(p).pos == old(p).pos + 1,
{
    assert(l.tokens.len() > p.pos);
    p.pos = p.pos + 1;
}

pub(crate) fn is_ident(l: &Lexed, p: &Cursor, s: &str) -> (r: bool)
    requires
        inside(*l, *p),
    ensures
        r == (grammar::tok(input(l@), p@) == TokV::Ident(s@)),
{
    match peek(l, p) {
        Tok::Ident(x) => text::str_eq(x.as_str(), s),
        _ => false,
    }
}

pub(crate) fn error(l: &Lexed, p: &Cursor, msg: String) -> (r: VclError)
    requires
        inside(*l, *p),
    ensures
        r@ == grammar::err_here(input(l@), p@, msg@),
{
    VclError::new(peek_span(l, p), msg)
}

pub(crate) fn wrapped(name: &str, s: &str) -> (r: String)
    ensures
        r@ == name@ + text::str_debug(s@) + ")"@,
{
    let mut t = name.to_string();
    t.append(text::debug_str(s).as_str());
    t.append(")");
    t
}

pub(crate) fn wrapped_pair(name: &str, s: &str, u: &str) -> (r: String)
    ensures
        r@ == name@ + text::str_debug(s@) + ", "@ + text::str_debug(u@) + ")"@,
{
    let mut t = name.to_string();
    t.append(text::debug_str(s).as_str());
    t.append(", ");
    t.append(text::debug_str(u).as_str());
    t.append(")");
    t
}

/// How a token is named in an error.
pub(crate) fn debug_tok(t: &Tok) -> (r: String)
    ensures
        r@ == grammar::tok_debug(t@),
{
    proof {
        reveal(grammar::tok_debug);
    }
    match t {
        Tok::Ident(s) => wrapped("Ident(", s.as_str()),
        Tok::Num(s) => wrapped("Num(", s.as_str()),
        Tok::Duration(n, u) => wrapped_pair("Duration(", n.as_str(), u.as_str()),
        Tok::Bytes(n, u) => wrapped_pair("Bytes(", n.as_str(), u.as_str()),
        Tok::Str(s) => wrapped("Str(", s.as_str()),
        Tok::CSource(s) => wrapped("CSource(", s.as_str()),
        Tok::LBrace => "LBrace".to_string(),
        Tok::RBrace => "RBrace".to_string(),
        Tok::LParen => "LParen".to_string(),
        Tok::RParen => "RParen".to_string(),
        Tok::Semi => "Semi".to_string(),
        Tok::Comma => "Comma".to_string(),
        Tok::Dot => "Dot".to_string(),
        Tok::Eq => "Eq".to_string(),
        Tok::EqEq => "EqEq".to_string(),
        Tok::Neq => "Neq".to_string(),
        Tok::Tilde => "Tilde".to_string(),
        Tok::NTilde => "NTilde".to_string(),
        Tok::Lt => "Lt".to_string(),
        Tok::Leq => "Leq".to_string(),
        Tok::Gt => "Gt".to_string(),
        Tok::Geq => "Geq".to_string(),
        Tok::AndAnd => "AndAnd".to_string(),
        Tok::OrOr => "OrOr".to_string(),
        Tok::Bang => "Bang".to_string(),
        Tok::Plus => "Plus".to_string(),
        Tok::Minus => "Minus".to_string(),
        Tok::Star => "Star".to_string(),
        Tok::Slash => "Slash".to_string(),
        Tok::Eof => "Eof".to_string(),
    }
}

/// The error that something else stands here than was expected.
pub(crate) fn found(l: &Lexed, p: &Cursor, expected: &str) -> (r: VclError)
    requires
        inside(*l, *p),
    ensures
        r@ == grammar::err_here(
            input(l@),
            p@,
            expected@ + grammar::tok_debug(grammar::tok(input(l@), p@)),
        ),
{
    let mut m = expected.to_string();
    m.append(debug_tok(peek(l, p)).as_str());
    error(l, p, m)
}

/// Whether two tokens without text are of the same kind.
pub(crate) fn same_mark(a: &Tok, b: &Tok) -> (r: bool)
    requires
        a@ is LBrace || a@ is RBrace || a@ is LParen || a@ is RParen || a@ is Semi || a@ is Dot
            || a@ is Eq,
    ensures
        r == (a@ == b@),
{
    match (a, b) {
        (Tok::LBrace, Tok::LBrace) => true,
        (Tok::RBrace, Tok::RBrace) => true,
        (Tok::LParen, Tok::LParen) => true,
        (Tok::RParen, Tok::RParen) => true,
        (Tok::Semi, Tok::Semi) => true,
        (Tok::Dot, Tok::Dot) => true,
        (Tok::Eq, Tok::Eq) => true,
        _ => false,
    }
}

/// Reads a punctuation mark.
pub(crate) fn expect(l: &Lexed, p: &mut Cursor, want: Tok) -> (r: VclResult<Span>)
    requires
        inside(*l, *old(p)),
        want@ is LBrace || want@ is RBrace || want@ is LParen || want@ is RParen || want@ is Semi
            || want@ is Dot || want@ is Eq,
    ensures
        said(grammar::p_expect(input(l@), old(p)@, want@), span_result(r), final(p)@),
        r is Ok ==> advanced(*l, *old(p), *final(p)),
{
    if same_mark(&want, peek(l, p)) {
        let sp: Span = peek_span(l, p);
        advance(l, p);
        Ok(sp)
    } else {
        let mut m = "expected ".to_string();
        m.append(debug_tok(&want).as_str());
        m.append(", found ");
        Err(found(l, p, m.as_str()))
    }
}

pub(crate) fn expect_ident_kw(l: &Lexed, p: &mut Cursor, kw: &str) -> (r: VclResult<Span>)
    requires
        inside(*l, *old(p)),
    ensures
        said(grammar::p_keyword(input(l@), old(p)@, kw@), span_result(r), final(p)@),
        r is Ok ==> advanced(*l, *old(p), *final(p)),
{
    if is_ident(l, p, kw) {
        let sp: Span = peek_span(l, p);
        advance(l, p);
        Ok(sp)
    } else {
        let mut m = "expected '".to_string();
        m.append(kw);
        m.append("', found ");
        Err(found(l, p, m.as_str()))
    }
}

pub(crate) fn expect_any_ident(l: &Lexed, p: &mut Cursor) -> (r: VclResult<String>)
    requires
        inside(*l, *old(p)),
    ensures
        said(grammar::p_ident(input(l@), old(p)@), text_result(r), final(p)@),
        r is Ok ==> advanced(*l, *old(p), *final(p)),
{
    match peek(l, p) {
        Tok::Ident(s) => {
            let t = s.clone();
            advance(l, p);
            Ok(t)
        },
        _ => Err(found(l, p, "expected identifier, found ")),
    }
}

pub(crate) fn expect_str(l: &Lexed, p: &mut Cursor) -> (r: VclResult<String>)
    requires
        inside(*l, *old(p)),
    ensures
        said(grammar::p_str(input(l@), old(p)@), text_result(r), final(p)@),
        r is Ok ==> advanced(*l, *old(p), *final(p)),
{
    match peek(l, p) {
        Tok::Str(s) => {
            let t = s.clone();
            advance(l, p);
            Ok(t)
        },
        _ => Err(found(l, p, "expected string literal, found ")),
    }
}

pub(crate) fn span_from(start: Span, end: Span) -> (r: Span)
    ensures
        r == grammar::span_from(start, end),
{
    Span { file: start.file, lo: start.lo, hi: end.hi }
}

/// Reads a semicolon and gives the span from `start` to it.
pub(crate) fn semi_from(l: &Lexed, p: &mut Cursor, start: Span) -> (r: VclResult<Span>)
    requires
        inside(*l, *old(p)),
    ensures
        match r {
            Ok(sp) => grammar::p_expect(input(l@), old(p)@, TokV::Semi) matches Parse::Read(e, s)
                && sp == grammar::span_from(start, e) && s == final(p)@,
            Err(e) => grammar::p_expect(input(l@), old(p)@, TokV::Semi) == Parse::<Span>::Bad(e@),
        },
        r is Ok ==> advanced(*l, *old(p), *final(p)),
{
    let sp: Span = expect(l, p, Tok::Semi)?;
    Ok(span_from(start, sp))
}

#[verifier::spinoff_prover]
#[verifier::rlimit(40)]
pub(crate) fn parse_dotted_ident(l: &Lexed, p: &mut Cursor) -> (r: VclResult<Vec<String>>)
    requires
        inside(*l, *old(p)),
    ensures
        said(grammar::p_dotted(input(l@), old(p)@), texts_result(r), final(p)@),
        r is Ok ==> advanced(*l, *old(p), *final(p)),
{
    proof {
        reveal(grammar::p_dotted);
    }
    let first = expect_any_ident(l, p)?;
    let mut parts: Vec<String> = Vec::new();
    parts.push(first);
    assert(text::texts(parts@) =~= seq![first@]);
    parse_dotted_rest(l, p, parts)
}

#[verifier::spinoff_prover]
#[verifier::rlimit(40)]
fn parse_dotted_rest(l: &Lexed, p: &mut Cursor, parts: Vec<String>) -> (r: VclResult<Vec<String>>)
    requires
        inside(*l, *old(p)),
    ensures
        said(
            grammar::p_dotted_rest(input(l@), old(p)@, text::texts(parts@)),
            texts_result(r),
            final(p)@,
        ),
        r is Ok ==> kept(*l, *old(p), *final(p)),
{
    let mut all = parts;
    loop
        invariant
            kept(*l, *old(p), *p),
            grammar::p_dotted_rest(input(l@), old(p)@, text::texts(parts@))
                == grammar::p_dotted_rest(input(l@), p@, text::texts(all@)),
        decreases l.tokens@.len() - p.pos,
    {
        proof {
            reveal(grammar::p_dotted_rest);
        }
        match peek(l, p) {
            Tok::Dot => {
                advance(l, p);
                let id = expect_any_ident(l, p)?;
                proof {
                    text::lemma_texts_push(all@, id);
                }
                all.push(id);
            },
            _ => {
                return Ok(all);
            },
        }
    }
}

// ───────────────────────── comments ─────────────────────────

/// Hands out the comments that start before byte offset `lo`.
pub(crate) fn gap(
    l: &Lexed,
    p: &mut Cursor,
    prev: Option<Span>,
    lo: u32,
    follow: Option<Span>,
) -> (r: Vec<LeadingComment>)
    requires
        inside(*l, *old(p)),
    ensures
        (final(p)@, ast::comments_view(r@)) == grammar::gap(input(l@), old(p)@, prev, lo, follow),
        inside(*l, *final(p)),
        final(p).pos == old(p).pos,
{
    proof {
        reveal(grammar::gap);
    }
    let ghost inp = input(l@);
    let start: usize = p.cidx;
    let mut end: usize = start;
    while end < l.comments.len() && l.comments[end].span.lo < lo
        invariant
            start <= end <= l.comments@.len(),
            inp == input(l@),
            lexer::comments_before(inp.comments, end as nat, lo) == lexer::comments_before(
                inp.comments,
                start as nat,
                lo,
            ),
        decreases l.comments@.len() - end,
    {
        proof {
            reveal(grammar::gap);
        }
        end += 1;
    }
    let ghost d = inp.comments.subrange(start as int, end as int);
    p.cidx = end;
    let mut i: usize = start;
    if let Some(sp) = prev {
        let mut run: Vec<String> = Vec::new();
        while i < end && !l.comments[i].standalone
            invariant
                start <= i <= end <= l.comments@.len(),
                inp == input(l@),
                d == inp.comments.subrange(start as int, end as int),
                run.len() == i - start,
                forall|j: int| 0 <= j < run.len() ==> (#[trigger] run@[j])@ == d[j].text,
                grammar::inline_end(d, (i - start) as nat) == grammar::inline_end(d, 0),
            decreases end - i,
        {
            run.push(l.comments[i].text.clone());
            i += 1;
        }
        if i > start {
            let t = text::join_strings(&run, "\n");
            assert(text::texts(run@) =~= grammar::comment_texts(d, (i - start) as nat));
            let entry = p.out.entry(sp);
            entry.trailing = Some(t);
        }
    }
    let ghost k = (i - start) as nat;
    let ghost out1 = p.out@;
    let mut leading: Vec<LeadingComment> = Vec::new();
    let mut j: usize = i;
    while j < end
        invariant
            start <= i <= j <= end <= l.comments@.len(),
            inp == input(l@),
            d == inp.comments.subrange(start as int, end as int),
            leading.len() == j - i,
            forall|m: int| 0 <= m < leading.len() ==> (#[trigger] leading@[m])@ == (CommentV {
                text: d[i - start + m].text,
                unindented: false,
            }),
        decreases end - j,
    {
        proof {
            reveal(grammar::gap);
        }
        leading.push(LeadingComment { text: l.comments[j].text.clone(), unindented: false });
        j += 1;
    }
    assert(ast::comments_view(leading@) =~= grammar::leading_from(d, k));
    match follow {
        Some(sp) => {
            if leading.len() > 0 {
                let entry = p.out.entry(sp);
                entry.leading = leading;
            }
            let none: Vec<LeadingComment> = Vec::new();
            assert(ast::comments_view(none@) =~= Seq::<CommentV>::empty());
            none
        },
        None => leading,
    }
}

/// Hands out the comments before the next item.
pub(crate) fn gap_before(l: &Lexed, p: &mut Cursor, prev: Option<Span>)
    requires
        inside(*l, *old(p)),
    ensures
        final(p)@ == grammar::gap_before(input(l@), old(p)@, prev),
        inside(*l, *final(p)),
        final(p).pos == old(p).pos,
{
    proof {
        reveal(grammar::gap_before);
    }
    let sp: Span = peek_span(l, p);
    let _ = gap(l, p, prev, sp.lo, Some(sp));
}

/// Ends a list.
pub(crate) fn finish_gap(l: &Lexed, p: &mut Cursor, prev: Option<Span>, lo: u32)
    requires
        inside(*l, *old(p)),
    ensures
        final(p)@ == grammar::finish_gap(input(l@), old(p)@, prev, lo),
        inside(*l, *final(p)),
        final(p).pos == old(p).pos,
{
    proof {
        reveal(grammar::finish_gap);
    }
    let over = gap(l, p, prev, lo, None);
    if let Some(sp) = prev {
        if over.len() > 0 {
            let entry = p.out.entry(sp);
            entry.after = over;
        }
    }
}

// ───────────────────────── expressions ─────────────────────────

pub(crate) fn binary(op: BinOp, lhs: Expr, rhs: Expr) -> (r: Expr)
    ensures
        r@ == grammar::binary(op, lhs@, rhs@),
{
    Expr::Binary { op, lhs: Box::new(lhs), rhs: Box::new(rhs) }
}

#[verifier::spinoff_prover]
#[verifier::rlimit(40)]
pub(crate) fn parse_expr(l: &Lexed, p: &mut Cursor) -> (r: VclResult<Expr>)
    requires
        inside(*l, *old(p)),
    ensures
        said(grammar::p_expr(input(l@), old(p)@), expr_result(r), final(p)@),
        r is Ok ==> advanced(*l, *old(p), *final(p)),
    decreases l.tokens@.len() - old(p).pos, 8nat,
{
    parse_or(l, p)
}

#[verifier::spinoff_prover]
#[verifier::rlimit(40)]
pub(crate) fn parse_or(l: &Lexed, p: &mut Cursor) -> (r: VclResult<Expr>)
    requires
        inside(*l, *old(p)),
    ensures
        said(grammar::p_or(input(l@), old(p)@), expr_result(r), final(p)@),
        r is Ok ==> advanced(*l, *old(p), *final(p)),
    decreases l.tokens@.len() - old(p).pos, 7nat,
{
    let lhs = parse_and(l, p)?;
    parse_or_rest(l, p, lhs)
}

#[verifier::spinoff_prover]
#[verifier::rlimit(40)]
fn parse_or_rest(l: &Lexed, p: &mut Cursor, lhs: Expr) -> (r: VclResult<Expr>)
    requires
        inside(*l, *old(p)),
    ensures
        said(grammar::p_or_rest(input(l@), old(p)@, lhs@), expr_result(r), final(p)@),
        r is Ok ==> kept(*l, *old(p), *final(p)),
    decreases l.tokens@.len() - old(p).pos, 7nat,
{
    let mut e = lhs;
    loop
        invariant
            kept(*l, *old(p), *p),
            grammar::p_or_rest(input(l@), old(p)@, lhs@) == grammar::p_or_rest(
                input(l@),
                p@,
                e@,
            ),
        decreases l.tokens@.len() - p.pos,
    {
        match peek(l, p) {
            Tok::OrOr => {
                advance(l, p);
                let rhs = parse_and(l, p)?;
                e = binary(BinOp::Or, e, rhs);
            },
            _ => {
                return Ok(e);
            },
        }
    }
}

#[verifier::spinoff_prover]
#[verifier::rlimit(40)]
pub(crate) fn parse_and(l: &Lexed, p: &mut Cursor) -> (r: VclResult<Expr>)
    requires
        inside(*l, *old(p)),
    ensures
        said(grammar::p_and(input(l@), old(p)@), expr_result(r), final(p)@),
        r is Ok ==> advanced(*l, *old(p), *final(p)),
    decreases l.tokens@.len() - old(p).pos, 6nat,
{
    let lhs = parse_cmp(l, p)?;
    parse_and_rest(l, p, lhs)
}

#[verifier::spinoff_prover]
#[verifier::rlimit(40)]
fn parse_and_rest(l: &Lexed, p: &mut Cursor, lhs: Expr) -> (r: VclResult<Expr>)
    requires
        inside(*l, *old(p)),
    ensures
        said(grammar::p_and_rest(input(l@), old(p)@, lhs@), expr_result(r), final(p)@),
        r is Ok ==> kept(*l, *old(p), *final(p)),
    decreases l.tokens@.len() - old(p).pos, 6nat,
{
    let mut e = lhs;
    loop
        invariant
            kept(*l, *old(p), *p),
            grammar::p_and_rest(input(l@), old(p)@, lhs@) == grammar::p_and_rest(
                input(l@),
                p@,
                e@,
            ),
        decreases l.tokens@.len() - p.pos,
    {
        match peek(l, p) {
            Tok::AndAnd => {
                advance(l, p);
                let rhs = parse_cmp(l, p)?;
                e = binary(BinOp::And, e, rhs);
            },
            _ => {
                return Ok(e);
            },
        }
    }
}

pub(crate) fn comparison(t: &Tok) -> (r: Option<BinOp>)
    ensures
        r == grammar::comparison(t@),
{
    match t {
        Tok::EqEq => Some(BinOp::Eq),
        Tok::Neq => Some(BinOp::Ne),
        Tok::Tilde => Some(BinOp::Match),
        Tok::NTilde => Some(BinOp::NotMatch),
        Tok::Lt => Some(BinOp::Lt),
        Tok::Leq => Some(BinOp::Le),
        Tok::Gt => Some(BinOp::Gt),
        Tok::Geq => Some(BinOp::Ge),
        _ => None,
    }
}

#[verifier::spinoff_prover]
#[verifier::rlimit(40)]
pub(crate) fn parse_cmp(l: &Lexed, p: &mut Cursor) -> (r: VclResult<Expr>)
    requires
        inside(*l, *old(p)),
    ensures
        said(grammar::p_cmp(input(l@), old(p)@), expr_result(r), final(p)@),
        r is Ok ==> advanced(*l, *old(p), *final(p)),
    decreases l.tokens@.len() - old(p).pos, 5nat,
{
    let lhs = parse_add(l, p)?;
    match comparison(peek(l, p)) {
        None => Ok(lhs),
        Some(op) => {
            advance(l, p);
            let rhs = parse_add(l, p)?;
            if comparison(peek(l, p)).is_some() {
                return Err(
                    error(l, p, "comparison operators are non-associative".to_string()),
                );
            }
            Ok(binary(op, lhs, rhs))
        },
    }
}

pub(crate) fn sum_op(t: &Tok) -> (r: Option<BinOp>)
    ensures
        r == grammar::sum_op(t@),
{
    match t {
        Tok::Plus => Some(BinOp::Add),
        Tok::Minus => Some(BinOp::Sub),
        _ => None,
    }
}

#[verifier::spinoff_prover]
#[verifier::rlimit(40)]
pub(crate) fn parse_add(l: &Lexed, p: &mut Cursor) -> (r: VclResult<Expr>)
    requires
        inside(*l, *old(p)),
    ensures
        said(grammar::p_add(input(l@), old(p)@), expr_result(r), final(p)@),
        r is Ok ==> advanced(*l, *old(p), *final(p)),
    decreases l.tokens@.len() - old(p).pos, 4nat,
{
    let lhs = parse_mul(l, p)?;
    parse_add_rest(l, p, lhs)
}

#[verifier::spinoff_prover]
#[verifier::rlimit(40)]
fn parse_add_rest(l: &Lexed, p: &mut Cursor, lhs: Expr) -> (r: VclResult<Expr>)
    requires
        inside(*l, *old(p)),
    ensures
        said(grammar::p_add_rest(input(l@), old(p)@, lhs@), expr_result(r), final(p)@),
        r is Ok ==> kept(*l, *old(p), *final(p)),
    decreases l.tokens@.len() - old(p).pos, 4nat,
{
    let mut e = lhs;
    loop
        invariant
            kept(*l, *old(p), *p),
            grammar::p_add_rest(input(l@), old(p)@, lhs@) == grammar::p_add_rest(
                input(l@),
                p@,
                e@,
            ),
        decreases l.tokens@.len() - p.pos,
    {
        match sum_op(peek(l, p)) {
            Some(op) => {
                advance(l, p);
                let rhs = parse_mul(l, p)?;
                e = binary(op, e, rhs);
            },
            None => {
                return Ok(e);
            },
        }
    }
}

pub(crate) fn product_op(t: &Tok) -> (r: Option<BinOp>)
    ensures
        r == grammar::product_op(t@),
{
    match t {
        Tok::Star => Some(BinOp::Mul),
        Tok::Slash => Some(BinOp::Div),
        _ => None,
    }
}

#[verifier::spinoff_prover]
#[verifier::rlimit(40)]
pub(crate) fn parse_mul(l: &Lexed, p: &mut Cursor) -> (r: VclResult<Expr>)
    requires
        inside(*l, *old(p)),
    ensures
        said(grammar::p_mul(input(l@), old(p)@), expr_result(r), final(p)@),
        r is Ok ==> advanced(*l, *old(p), *final(p)),
    decreases l.tokens@.len() - old(p).pos, 3nat,
{
    let lhs = parse_unary(l, p)?;
    parse_mul_rest(l, p, lhs)
}

#[verifier::spinoff_prover]
#[verifier::rlimit(40)]
fn parse_mul_rest(l: &Lexed, p: &mut Cursor, lhs: Expr) -> (r: VclResult<Expr>)
    requires
        inside(*l, *old(p)),
    ensures
        said(grammar::p_mul_rest(input(l@), old(p)@, lhs@), expr_result(r), final(p)@),
        r is Ok ==> kept(*l, *old(p), *final(p)),
    decreases l.tokens@.len() - old(p).pos, 3nat,
{
    let mut e = lhs;
    loop
        invariant
            kept(*l, *old(p), *p),
            grammar::p_mul_rest(input(l@), old(p)@, lhs@) == grammar::p_mul_rest(
                input(l@),
                p@,
                e@,
            ),
        decreases l.tokens@.len() - p.pos,
    {
        match product_op(peek(l, p)) {
            Some(op) => {
                advance(l, p);
                let rhs = parse_unary(l, p)?;
                e = binary(op, e, rhs);
            },
            None => {
                return Ok(e);
            },
        }
    }
}

#[verifier::spinoff_prover]
#[verifier::rlimit(40)]
pub(crate) fn parse_unary(l: &Lexed, p: &mut Cursor) -> (r: VclResult<Expr>)
    requires
        inside(*l, *old(p)),
    ensures
        said(grammar::p_unary(input(l@), old(p)@), expr_result(r), final(p)@),
        r is Ok ==> advanced(*l, *old(p), *final(p)),
    decreases l.tokens@.len() - old(p).pos, 2nat,
{
    let op: UnOp = match peek(l, p) {
        Tok::Bang => UnOp::Not,
        Tok::Minus => UnOp::Neg,
        _ => {
            return parse_primary(l, p);
        },
    };
    advance(l, p);
    let x = parse_unary(l, p)?;
    Ok(Expr::Unary { op, expr: Box::new(x) })
}

pub(crate) fn quoted(head: &str, t: &str) -> (r: String)
    ensures
        r@ == head@ + t@ + "'"@,
{
    let mut m = head.to_string();
    m.append(t);
    m.append("'");
    m
}

pub(crate) fn duration_token(n: &str, u: &str) -> (r: core::result::Result<Expr, String>)
    ensures
        match r {
            Ok(e) => grammar::duration_token(n@, u@) == core::result::Result::<
                ExprV,
                Seq<char>,
            >::Ok(e@),
            Err(m) => grammar::duration_token(n@, u@) == core::result::Result::<
                ExprV,
                Seq<char>,
            >::Err(m@),
        },
{
    match Decimal::parse(n) {
        Some(d) => {
            if !d.has_room(3) {
                return Err(quoted("invalid number '", n));
            }
            match ast::duration_secs(&d, u) {
                Some(secs) => Ok(Expr::Duration(secs)),
                None => Err(quoted("unknown duration unit '", u)),
            }
        },
        None => Err(quoted("invalid number '", n)),
    }
}

pub(crate) fn bytes_token(n: &str, u: &str) -> (r: core::result::Result<Expr, String>)
    ensures
        match r {
            Ok(e) => grammar::bytes_token(n@, u@) == core::result::Result::<
                ExprV,
                Seq<char>,
            >::Ok(e@),
            Err(m) => grammar::bytes_token(n@, u@) == core::result::Result::<
                ExprV,
                Seq<char>,
            >::Err(m@),
        },
{
    match Decimal::parse(n) {
        Some(d) => match ast::bytes_val(&d, u) {
            Some(b) => Ok(Expr::Bytes(b)),
            None => Err(quoted("unknown bytes unit '", u)),
        },
        None => Err(quoted("invalid number '", n)),
    }
}

#[verifier::spinoff_prover]
#[verifier::rlimit(40)]
pub(crate) fn parse_primary(l: &Lexed, p: &mut Cursor) -> (r: VclResult<Expr>)
    requires
        inside(*l, *old(p)),
    ensures
        said(grammar::p_primary(input(l@), old(p)@), expr_result(r), final(p)@),
        r is Ok ==> advanced(*l, *old(p), *final(p)),
    decreases l.tokens@.len() - old(p).pos, 1nat,
{
    match peek(l, p) {
        Tok::Str(s) => {
            let e = Expr::Str(s.clone());
            advance(l, p);
            Ok(e)
        },
        Tok::Num(s) => {
            let e = Expr::Num(s.clone());
            advance(l, p);
            Ok(e)
        },
        Tok::Duration(n, u) => match duration_token(n.as_str(), u.as_str()) {
            Ok(e) => {
                advance(l, p);
                Ok(e)
            },
            Err(m) => Err(error(l, p, m)),
        },
        Tok::Bytes(n, u) => match bytes_token(n.as_str(), u.as_str()) {
            Ok(e) => {
                advance(l, p);
                Ok(e)
            },
            Err(m) => Err(error(l, p, m)),
        },
        Tok::CSource(s) => {
            let e = Expr::CSource(s.clone());
            advance(l, p);
            Ok(e)
        },
        Tok::LParen => {
            advance(l, p);
            let e = parse_expr(l, p)?;
            expect(l, p, Tok::RParen)?;
            Ok(e)
        },
        Tok::Ident(s) => {
            if text::str_eq(s.as_str(), "true") {
                advance(l, p);
                return Ok(Expr::Bool(true));
            }
            if text::str_eq(s.as_str(), "false") {
                advance(l, p);
                return Ok(Expr::Bool(false));
            }
            let parts = parse_dotted_ident(l, p)?;
            if matches!(peek(l, p), Tok::LParen) {
                let args = parse_call_args(l, p)?;
                Ok(Expr::Call { target: parts, args })
            } else {
                Ok(Expr::Var(parts))
            }
        },
        _ => Err(found(l, p, "expected expression, found ")),
    }
}

/// The arguments of a call, in their parentheses.
#[verifier::spinoff_prover]
#[verifier::rlimit(40)]
pub(crate) fn parse_call_args(l: &Lexed, p: &mut Cursor) -> (r: VclResult<Vec<Arg>>)
    requires
        inside(*l, *old(p)),
    ensures
        said(grammar::p_call_args(input(l@), old(p)@), args_result(r), final(p)@),
        r is Ok ==> advanced(*l, *old(p), *final(p)),
    decreases l.tokens@.len() - old(p).pos, 12nat,
{
    expect(l, p, Tok::LParen)?;
    if matches!(peek(l, p), Tok::RParen) {
        advance(l, p);
        let none: Vec<Arg> = Vec::new();
        assert(ast::args_view(none@) =~= Seq::<ArgV>::empty());
        return Ok(none);
    }
    let none: Vec<Arg> = Vec::new();
    assert(ast::args_view(none@) =~= Seq::<ArgV>::empty());
    let args = parse_arg_list(l, p, None, none)?;
    expect(l, p, Tok::RParen)?;
    Ok(args)
}

#[verifier::spinoff_prover]
#[verifier::rlimit(40)]
pub(crate) fn parse_arg_list(
    l: &Lexed,
    p: &mut Cursor,
    prev: Option<Span>,
    done: Vec<Arg>,
) -> (r: VclResult<Vec<Arg>>)
    requires
        inside(*l, *old(p)),
    ensures
        said(
            grammar::p_arg_list(input(l@), old(p)@, prev, ast::args_view(done@)),
            args_result(r),
            final(p)@,
        ),
        r is Ok ==> advanced(*l, *old(p), *final(p)),
    decreases l.tokens@.len() - old(p).pos, 11nat,
{
    let mut args = done;
    let mut before: Option<Span> = prev;
    loop
        invariant
            kept(*l, *old(p), *p),
            grammar::p_arg_list(input(l@), old(p)@, prev, ast::args_view(done@))
                == grammar::p_arg_list(input(l@), p@, before, ast::args_view(args@)),
        decreases l.tokens@.len() - p.pos,
    {
        gap_before(l, p, before);
        let a = parse_arg(l, p)?;
        let sp: Span = a.span;
        args.push(a);
        match peek(l, p) {
            Tok::Comma => {
                advance(l, p);
                before = Some(sp);
            },
            _ => {
                let lo: u32 = peek_span(l, p).lo;
                finish_gap(l, p, Some(sp), lo);
                return Ok(args);
            },
        }
    }
}

#[verifier::spinoff_prover]
#[verifier::rlimit(40)]
pub(crate) fn parse_arg(l: &Lexed, p: &mut Cursor) -> (r: VclResult<Arg>)
    requires
        inside(*l, *old(p)),
    ensures
        said(grammar::p_arg(input(l@), old(p)@), arg_result(r), final(p)@),
        r is Ok ==> advanced(*l, *old(p), *final(p)),
    decreases l.tokens@.len() - old(p).pos, 10nat,
{
    let start: Span = peek_span(l, p);
    if let Tok::Ident(n) = peek(l, p) {
        if matches!(peek_at(l, p, 1), Tok::Eq) && !matches!(peek_at(l, p, 2), Tok::EqEq) {
            let name = n.clone();
            advance(l, p);
            advance(l, p);
            let value = parse_expr(l, p)?;
            let end: Span = prev_span(l, p);
            return Ok(Arg { name: Some(name), value, span: span_from(start, end) });
        }
    }
    let value = parse_expr(l, p)?;
    let end: Span = prev_span(l, p);
    Ok(Arg { name: None, value, span: span_from(start, end) })
}

#[verifier::spinoff_prover]
#[verifier::rlimit(40)]
pub(crate) fn parse_expr_list(
    l: &Lexed,
    p: &mut Cursor,
    done: Vec<Expr>,
) -> (r: VclResult<Vec<Expr>>)
    requires
        inside(*l, *old(p)),
    ensures
        said(
            grammar::p_expr_list(input(l@), old(p)@, ast::exprs_view(done@)),
            exprs_result(r),
            final(p)@,
        ),
        r is Ok ==> advanced(*l, *old(p), *final(p)),
{
    let mut exprs = done;
    loop
        invariant
            kept(*l, *old(p), *p),
            grammar::p_expr_list(input(l@), old(p)@, ast::exprs_view(done@))
                == grammar::p_expr_list(input(l@), p@, ast::exprs_view(exprs@)),
        decreases l.tokens@.len() - p.pos,
    {
        let x = parse_expr(l, p)?;
        let ghost before = exprs@;
        exprs.push(x);
        assert(ast::exprs_view(exprs@) =~= ast::exprs_view(before).push(x@));
        match peek(l, p) {
            Tok::Comma => {
                advance(l, p);
            },
            _ => {
                return Ok(exprs);
            },
        }
    }
}

// ───────────────────────── statements ─────────────────────────

#[verifier::spinoff_prover]
#[verifier::rlimit(40)]
pub(crate) fn parse_block(
    l: &Lexed,
    p: &mut Cursor,
    enclosing: Option<Span>,
) -> (r: VclResult<Vec<Stmt>>)
    requires
        inside(*l, *old(p)),
    ensures
        said(grammar::p_block(input(l@), old(p)@, enclosing), stmts_result(r), final(p)@),
        r is Ok ==> advanced(*l, *old(p), *final(p)),
    decreases l.tokens@.len() - old(p).pos, 22nat,
{
    expect(l, p, Tok::LBrace)?;
    let mut stmts: Vec<Stmt> = Vec::new();
    let mut prev: Option<Span> = enclosing;
    assert(ast::stmts_view(stmts@) =~= Seq::<StmtV>::empty());
    loop
        invariant
            advanced(*l, *old(p), *p),
            grammar::p_block(input(l@), old(p)@, enclosing) == grammar::p_stmts(
                input(l@),
                p@,
                prev,
                ast::stmts_view(stmts@),
            ),
        decreases l.tokens@.len() - p.pos,
    {
        match peek(l, p) {
            Tok::RBrace => {
                let lo: u32 = peek_span(l, p).lo;
                advance(l, p);
                finish_gap(l, p, prev, lo);
                return Ok(stmts);
            },
            Tok::Eof => {
                return Err(error(l, p, "unterminated block, expected '}'".to_string()));
            },
            _ => {
                gap_before(l, p, prev);
                let s = parse_stmt(l, p)?;
                prev = Some(s.span());
                stmts.push(s);
            },
        }
    }
}

#[verifier::spinoff_prover]
#[verifier::rlimit(40)]
pub(crate) fn parse_stmt(l: &Lexed, p: &mut Cursor) -> (r: VclResult<Stmt>)
    requires
        inside(*l, *old(p)),
    ensures
        said(grammar::p_stmt(input(l@), old(p)@), stmt_result(r), final(p)@),
        r is Ok ==> advanced(*l, *old(p), *final(p)),
    decreases l.tokens@.len() - old(p).pos, 20nat,
{
    let start: Span = peek_span(l, p);
    match peek(l, p) {
        Tok::CSource(s) => {
            let expr = Expr::CSource(s.clone());
            advance(l, p);
            Ok(Stmt::Expr { expr, span: start })
        },
        Tok::Ident(kw) => {
            if text::str_eq(kw.as_str(), "set") {
                parse_set(l, p, start)
            } else if text::str_eq(kw.as_str(), "unset") {
                parse_unset(l, p, start)
            } else if text::str_eq(kw.as_str(), "call") {
                parse_call(l, p, start)
            } else if text::str_eq(kw.as_str(), "return") {
                parse_return(l, p, start)
            } else if text::str_eq(kw.as_str(), "synthetic") {
                parse_synthetic(l, p, start)
            } else if text::str_eq(kw.as_str(), "new") {
                parse_new(l, p, start)
            } else if text::str_eq(kw.as_str(), "if") {
                parse_if(l, p, start)
            } else {
                parse_expr_stmt(l, p, start)
            }
        },
        _ => Err(found(l, p, "expected statement, found ")),
    }
}

#[verifier::spinoff_prover]
#[verifier::rlimit(40)]
pub(crate) fn parse_set(l: &Lexed, p: &mut Cursor, start: Span) -> (r: VclResult<Stmt>)
    requires
        inside(*l, *old(p)),
        grammar::tok(input(l@), old(p)@) is Ident,
    ensures
        said(
            grammar::p_set(input(l@), grammar::next(old(p)@), start),
            stmt_result(r),
            final(p)@,
        ),
        r is Ok ==> advanced(*l, *old(p), *final(p)),
{
    proof {
        reveal(grammar::p_set);
    }
    advance(l, p);
    let parts = parse_dotted_ident(l, p)?;
    expect(l, p, Tok::Eq)?;
    let rhs = parse_expr(l, p)?;
    let span: Span = semi_from(l, p, start)?;
    Ok(Stmt::Assign { lhs: Lvalue { parts }, rhs, span })
}

#[verifier::spinoff_prover]
#[verifier::rlimit(40)]
pub(crate) fn parse_unset(l: &Lexed, p: &mut Cursor, start: Span) -> (r: VclResult<Stmt>)
    requires
        inside(*l, *old(p)),
        grammar::tok(input(l@), old(p)@) is Ident,
    ensures
        said(
            grammar::p_unset(input(l@), grammar::next(old(p)@), start),
            stmt_result(r),
            final(p)@,
        ),
        r is Ok ==> advanced(*l, *old(p), *final(p)),
{
    proof {
        reveal(grammar::p_unset);
    }
    advance(l, p);
    let parts = parse_dotted_ident(l, p)?;
    let span: Span = semi_from(l, p, start)?;
    Ok(Stmt::Unset { lhs: Lvalue { parts }, span })
}

#[verifier::spinoff_prover]
#[verifier::rlimit(40)]
pub(crate) fn parse_call(l: &Lexed, p: &mut Cursor, start: Span) -> (r: VclResult<Stmt>)
    requires
        inside(*l, *old(p)),
        grammar::tok(input(l@), old(p)@) is Ident,
    ensures
        said(
            grammar::p_call(input(l@), grammar::next(old(p)@), start),
            stmt_result(r),
            final(p)@,
        ),
        r is Ok ==> advanced(*l, *old(p), *final(p)),
{
    proof {
        reveal(grammar::p_call);
    }
    advance(l, p);
    let sub = expect_any_ident(l, p)?;
    let span: Span = semi_from(l, p, start)?;
    Ok(Stmt::Call { sub, span })
}

#[verifier::spinoff_prover]
#[verifier::rlimit(40)]
pub(crate) fn parse_return(l: &Lexed, p: &mut Cursor, start: Span) -> (r: VclResult<Stmt>)
    requires
        inside(*l, *old(p)),
        grammar::tok(input(l@), old(p)@) is Ident,
    ensures
        said(
            grammar::p_return(input(l@), grammar::next(old(p)@), start),
            stmt_result(r),
            final(p)@,
        ),
        r is Ok ==> advanced(*l, *old(p), *final(p)),
{
    proof {
        reveal(grammar::p_return);
        reveal(grammar::p_action);
        reveal(grammar::p_action_args);
    }
    advance(l, p);
    if !matches!(peek(l, p), Tok::LParen) {
        let span: Span = semi_from(l, p, start)?;
        return Ok(Stmt::Return { action: None, span });
    }
    advance(l, p);
    let ghost at = p@;
    let name = expect_any_ident(l, p)?;
    let mut args: Vec<Expr> = Vec::new();
    assert(ast::exprs_view(args@) =~= Seq::<ExprV>::empty());
    let ghost behind = p@;
    if matches!(peek(l, p), Tok::LParen) {
        advance(l, p);
        if matches!(peek(l, p), Tok::RParen) {
            advance(l, p);
        } else {
            args = parse_expr_list(l, p, args)?;
            expect(l, p, Tok::RParen)?;
        }
    }
    assert(grammar::p_action_args(input(l@), behind) == Parse::Read(ast::exprs_view(args@), p@));
    expect(l, p, Tok::RParen)?;
    let action = ReturnAction { name, args };
    assert(grammar::p_action(input(l@), at) == Parse::Read(action@, p@));
    let span: Span = semi_from(l, p, start)?;
    Ok(Stmt::Return { action: Some(action), span })
}

/// An expression in parentheses.
#[verifier::spinoff_prover]
#[verifier::rlimit(40)]
pub(crate) fn parse_condition(l: &Lexed, p: &mut Cursor) -> (r: VclResult<Expr>)
    requires
        inside(*l, *old(p)),
    ensures
        said(grammar::p_condition(input(l@), old(p)@), expr_result(r), final(p)@),
        r is Ok ==> advanced(*l, *old(p), *final(p)),
{
    proof {
        reveal(grammar::p_condition);
    }
    expect(l, p, Tok::LParen)?;
    let value = parse_expr(l, p)?;
    expect(l, p, Tok::RParen)?;
    Ok(value)
}

#[verifier::spinoff_prover]
#[verifier::rlimit(40)]
pub(crate) fn parse_synthetic(l: &Lexed, p: &mut Cursor, start: Span) -> (r: VclResult<Stmt>)
    requires
        inside(*l, *old(p)),
        grammar::tok(input(l@), old(p)@) is Ident,
    ensures
        said(
            grammar::p_synthetic(input(l@), grammar::next(old(p)@), start),
            stmt_result(r),
            final(p)@,
        ),
        r is Ok ==> advanced(*l, *old(p), *final(p)),
{
    proof {
        reveal(grammar::p_synthetic);
    }
    advance(l, p);
    let value = parse_condition(l, p)?;
    let span: Span = semi_from(l, p, start)?;
    Ok(Stmt::Synthetic { value, span })
}

#[verifier::spinoff_prover]
#[verifier::rlimit(40)]
pub(crate) fn parse_new(l: &Lexed, p: &mut Cursor, start: Span) -> (r: VclResult<Stmt>)
    requires
        inside(*l, *old(p)),
        grammar::tok(input(l@), old(p)@) is Ident,
    ensures
        said(
            grammar::p_new(input(l@), grammar::next(old(p)@), start),
            stmt_result(r),
            final(p)@,
        ),
        r is Ok ==> advanced(*l, *old(p), *final(p)),
{
    proof {
        reveal(grammar::p_new);
    }
    advance(l, p);
    let name = expect_any_ident(l, p)?;
    expect(l, p, Tok::Eq)?;
    let vmod = expect_any_ident(l, p)?;
    expect(l, p, Tok::Dot)?;
    let ctor = expect_any_ident(l, p)?;
    let args = parse_call_args(l, p)?;
    let span: Span = semi_from(l, p, start)?;
    Ok(Stmt::New { name, vmod, ctor, args, span })
}

#[verifier::spinoff_prover]
#[verifier::rlimit(40)]
pub(crate) fn parse_expr_stmt(l: &Lexed, p: &mut Cursor, start: Span) -> (r: VclResult<Stmt>)
    requires
        inside(*l, *old(p)),
    ensures
        said(grammar::p_expr_stmt(input(l@), old(p)@, start), stmt_result(r), final(p)@),
        r is Ok ==> advanced(*l, *old(p), *final(p)),
{
    proof {
        reveal(grammar::p_expr_stmt);
    }
    let target = parse_dotted_ident(l, p)?;
    let args = parse_call_args(l, p)?;
    let span: Span = semi_from(l, p, start)?;
    Ok(Stmt::Expr { expr: Expr::Call { target, args }, span })
}

/// An arm: its condition and its body.
#[verifier::spinoff_prover]
#[verifier::rlimit(40)]
pub(crate) fn parse_arm(l: &Lexed, p: &mut Cursor) -> (r: VclResult<(Expr, Vec<Stmt>)>)
    requires
        inside(*l, *old(p)),
    ensures
        said(grammar::p_arm(input(l@), old(p)@), arm_result(r), final(p)@),
        r is Ok ==> advanced(*l, *old(p), *final(p)),
    decreases l.tokens@.len() - old(p).pos, 23nat,
{
    let cond = parse_condition(l, p)?;
    let body = parse_block(l, p, None)?;
    Ok((cond, body))
}

#[verifier::spinoff_prover]
#[verifier::rlimit(40)]
pub(crate) fn parse_if(l: &Lexed, p: &mut Cursor, start: Span) -> (r: VclResult<Stmt>)
    requires
        inside(*l, *old(p)),
        grammar::tok(input(l@), old(p)@) is Ident,
    ensures
        said(
            grammar::p_if(input(l@), grammar::next(old(p)@), start),
            stmt_result(r),
            final(p)@,
        ),
        r is Ok ==> advanced(*l, *old(p), *final(p)),
    decreases l.tokens@.len() - old(p).pos, 0nat,
{
    proof {
        reveal(grammar::another_arm);
    }
    advance(l, p);
    let first = parse_arm(l, p)?;
    let mut arms: Vec<(Expr, Vec<Stmt>)> = Vec::new();
    arms.push(first);
    assert(ast::arms_view(arms@) =~= seq![ast::arm_view(first)]);
    loop
        invariant
            advanced(*l, *old(p), *p),
            grammar::p_if(input(l@), grammar::next(old(p)@), start) == grammar::p_if_rest(
                input(l@),
                p@,
                start,
                ast::arms_view(arms@),
            ),
        decreases l.tokens@.len() - p.pos,
    {
        proof {
            reveal(grammar::another_arm);
        }
        let else_if = is_ident(l, p, "else") && match peek_at(l, p, 1) {
            Tok::Ident(s) => text::str_eq(s.as_str(), "if"),
            _ => false,
        };
        if is_ident(l, p, "elsif") || is_ident(l, p, "elseif") || else_if {
            proof {
                reveal_strlit("elsif");
                reveal_strlit("elseif");
                reveal_strlit("else");
                if else_if {
                    assert("else"@.len() != "elsif"@.len());
                    assert("else"@.len() != "elseif"@.len());
                }
            }
            advance(l, p);
            if else_if {
                advance(l, p);
            }
            let arm = parse_arm(l, p)?;
            arms.push(arm);
        } else if is_ident(l, p, "else") {
            advance(l, p);
            let b = parse_block(l, p, None)?;
            let end: Span = prev_span(l, p);
            return Ok(Stmt::If { arms, else_body: Some(b), span: span_from(start, end) });
        } else {
            let end: Span = prev_span(l, p);
            return Ok(Stmt::If { arms, else_body: None, span: span_from(start, end) });
        }
    }
}

} // verus!
