//! The grammar of VCL: what the parser makes of a token stream.
//!
//! Every function here takes a place in the stream and gives either the node
//! that stands there and the place behind it, or the error. Comments ride
//! along: each gap between two items hands the comments in it to the items on
//! either side.

use crate::ast;
use crate::ast::{
    AclEntryV, ArgV, ArmV, BinOp, CommentMapV, CommentV, DeclV, ErrV, ExprV, FieldV, FieldValueV,
    NodeCommentsV, ProgramV, ReturnActionV, Span, StmtV, UnOp,
};
use crate::decimal;
use crate::lexer;
use crate::lexer::{RawCommentV, TokV, TokenV};
use crate::text;
use vstd::prelude::*;

pub mod between;
pub mod extents;
pub mod openings;
pub mod precedence;

verus! {

/// The token stream and the comments between the tokens.
#[verifier::ext_equal]
pub struct InputV {
    pub toks: Seq<TokenV>,
    pub comments: Seq<RawCommentV>,
}

impl InputV {
    /// Whether the stream ends with an end token.
    pub open spec fn ended(self) -> bool {
        self.toks.len() > 0 && self.toks.last().tok is Eof
    }
}

/// A place in the stream: the next token, the next comment, and where the
/// comments before it have gone.
#[verifier::ext_equal]
pub struct PlaceV {
    pub pos: nat,
    pub cidx: nat,
    pub out: CommentMapV,
}

/// What stands at a place.
#[verifier::ext_equal]
pub enum Parse<T> {
    Read(T, PlaceV),
    Bad(ErrV),
}

/// How many tokens are left.
pub open spec fn left(inp: InputV, at: PlaceV) -> nat {
    if at.pos < inp.toks.len() {
        (inp.toks.len() - at.pos) as nat
    } else {
        0
    }
}

/// Whether the second place lies behind the first one.
pub open spec fn moved(inp: InputV, a: PlaceV, b: PlaceV) -> bool {
    left(inp, b) < left(inp, a)
}

/// Every item takes up tokens, so no item ends where it starts.
pub open spec fn nowhere() -> ErrV {
    arbitrary()
}

/// The `k`-th token from the place on; behind the stream stands an end token.
pub open spec fn tok_at(inp: InputV, at: PlaceV, k: nat) -> TokV {
    if at.pos + k < inp.toks.len() {
        inp.toks[at.pos as int + k as int].tok
    } else {
        TokV::Eof
    }
}

/// The next token.
pub open spec fn tok(inp: InputV, at: PlaceV) -> TokV {
    tok_at(inp, at, 0)
}

/// Where the next token stands.
pub open spec fn here(inp: InputV, at: PlaceV) -> Span {
    inp.toks[at.pos as int].span
}

/// Where the token before the place stands.
pub open spec fn before(inp: InputV, at: PlaceV) -> Span {
    inp.toks[at.pos - 1].span
}

/// The place behind the next token.
pub open spec fn next(at: PlaceV) -> PlaceV {
    PlaceV { pos: at.pos + 1, ..at }
}

/// The span from the start of the first to the end of the second.
pub open spec fn span_from(start: Span, end: Span) -> Span {
    Span { file: start.file, lo: start.lo, hi: end.hi }
}

/// An error at the next token.
pub open spec fn err_here(inp: InputV, at: PlaceV, msg: Seq<char>) -> ErrV {
    ast::err_at(here(inp, at), msg)
}

/// How a token is named in an error.
#[verifier::opaque]
pub open spec fn tok_debug(t: TokV) -> Seq<char> {
    match t {
        TokV::Ident(s) => "Ident("@ + text::str_debug(s) + ")"@,
        TokV::Num(s) => "Num("@ + text::str_debug(s) + ")"@,
        TokV::Duration(n, u) => "Duration("@ + text::str_debug(n) + ", "@ + text::str_debug(u)
            + ")"@,
        TokV::Bytes(n, u) => "Bytes("@ + text::str_debug(n) + ", "@ + text::str_debug(u) + ")"@,
        TokV::Str(s) => "Str("@ + text::str_debug(s) + ")"@,
        TokV::CSource(s) => "CSource("@ + text::str_debug(s) + ")"@,
        TokV::LBrace => "LBrace"@,
        TokV::RBrace => "RBrace"@,
        TokV::LParen => "LParen"@,
        TokV::RParen => "RParen"@,
        TokV::Semi => "Semi"@,
        TokV::Comma => "Comma"@,
        TokV::Dot => "Dot"@,
        TokV::Eq => "Eq"@,
        TokV::EqEq => "EqEq"@,
        TokV::Neq => "Neq"@,
        TokV::Tilde => "Tilde"@,
        TokV::NTilde => "NTilde"@,
        TokV::Lt => "Lt"@,
        TokV::Leq => "Leq"@,
        TokV::Gt => "Gt"@,
        TokV::Geq => "Geq"@,
        TokV::AndAnd => "AndAnd"@,
        TokV::OrOr => "OrOr"@,
        TokV::Bang => "Bang"@,
        TokV::Plus => "Plus"@,
        TokV::Minus => "Minus"@,
        TokV::Star => "Star"@,
        TokV::Slash => "Slash"@,
        TokV::Eof => "Eof"@,
    }
}

// ───────────────────────── comments ─────────────────────────

/// The first comment at or behind `i` that stands on a line of its own.
pub open spec fn inline_end(d: Seq<RawCommentV>, i: nat) -> nat
    decreases d.len() - i,
{
    if i < d.len() && !d[i as int].standalone {
        inline_end(d, i + 1)
    } else {
        i
    }
}

/// The texts of the first `n` comments.
pub open spec fn comment_texts(d: Seq<RawCommentV>, n: nat) -> Seq<Seq<char>> {
    Seq::new(n, |i: int| d[i].text)
}

/// The comments from `k` on, as they stand before a node.
pub open spec fn leading_from(d: Seq<RawCommentV>, k: nat) -> Seq<CommentV> {
    Seq::new(
        (d.len() - k) as nat,
        |i: int| CommentV { text: d[k + i].text, unindented: false },
    )
}

/// Hands out the comments of a gap. Those on the line on which the item
/// before it ends become that item's trailing comment; the others stand before
/// the item behind it, or are given back where there is none.
pub open spec fn route(
    out: CommentMapV,
    d: Seq<RawCommentV>,
    prev: Option<Span>,
    follow: Option<Span>,
) -> (CommentMapV, Seq<CommentV>) {
    let k = if prev is Some {
        inline_end(d, 0)
    } else {
        0
    };
    let out1 = if k > 0 {
        out.insert(
            ast::comment_key(prev->0),
            NodeCommentsV {
                trailing: Some(text::join(comment_texts(d, k), "\n"@)),
                ..ast::comments_at(out, prev->0)
            },
        )
    } else {
        out
    };
    let lead = leading_from(d, k);
    match follow {
        Some(sp) => (
            if lead.len() > 0 {
                out1.insert(
                    ast::comment_key(sp),
                    NodeCommentsV { leading: lead, ..ast::comments_at(out1, sp) },
                )
            } else {
                out1
            },
            seq![],
        ),
        None => (out1, lead),
    }
}

/// Hands out the comments that start before byte offset `lo`.
#[verifier::opaque]
pub open spec fn gap(
    inp: InputV,
    at: PlaceV,
    prev: Option<Span>,
    lo: u32,
    follow: Option<Span>,
) -> (PlaceV, Seq<CommentV>) {
    let e = lexer::comments_before(inp.comments, at.cidx, lo);
    let r = route(at.out, inp.comments.subrange(at.cidx as int, e as int), prev, follow);
    (PlaceV { cidx: e, out: r.0, ..at }, r.1)
}

/// The place behind the gap before the next item.
#[verifier::opaque]
pub open spec fn gap_before(inp: InputV, at: PlaceV, prev: Option<Span>) -> PlaceV {
    gap(inp, at, prev, here(inp, at).lo, Some(here(inp, at))).0
}

/// Ends a list: what is left of the last gap stands behind the last item.
#[verifier::opaque]
pub open spec fn finish_gap(inp: InputV, at: PlaceV, prev: Option<Span>, lo: u32) -> PlaceV {
    let (g, over) = gap(inp, at, prev, lo, None);
    match prev {
        Some(sp) => if over.len() > 0 {
            PlaceV {
                out: g.out.insert(
                    ast::comment_key(sp),
                    NodeCommentsV { after: over, ..ast::comments_at(g.out, sp) },
                ),
                ..g
            }
        } else {
            g
        },
        None => g,
    }
}

// ───────────────────────── single tokens ─────────────────────────

pub open spec fn p_expect(inp: InputV, at: PlaceV, want: TokV) -> Parse<Span> {
    if tok(inp, at) == want {
        Parse::Read(here(inp, at), next(at))
    } else {
        Parse::Bad(
            err_here(
                inp,
                at,
                "expected "@ + tok_debug(want) + ", found "@ + tok_debug(tok(inp, at)),
            ),
        )
    }
}

pub open spec fn p_keyword(inp: InputV, at: PlaceV, kw: Seq<char>) -> Parse<Span> {
    if tok(inp, at) == TokV::Ident(kw) {
        Parse::Read(here(inp, at), next(at))
    } else {
        Parse::Bad(
            err_here(inp, at, "expected '"@ + kw + "', found "@ + tok_debug(tok(inp, at))),
        )
    }
}

pub open spec fn p_ident(inp: InputV, at: PlaceV) -> Parse<Seq<char>> {
    match tok(inp, at) {
        TokV::Ident(s) => Parse::Read(s, next(at)),
        t => Parse::Bad(err_here(inp, at, "expected identifier, found "@ + tok_debug(t))),
    }
}

pub open spec fn p_str(inp: InputV, at: PlaceV) -> Parse<Seq<char>> {
    match tok(inp, at) {
        TokV::Str(s) => Parse::Read(s, next(at)),
        t => Parse::Bad(err_here(inp, at, "expected string literal, found "@ + tok_debug(t))),
    }
}

/// `a.b.c`
#[verifier::opaque]
pub open spec fn p_dotted(inp: InputV, at: PlaceV) -> Parse<Seq<Seq<char>>> {
    match p_ident(inp, at) {
        Parse::Bad(e) => Parse::Bad(e),
        Parse::Read(n, s) => p_dotted_rest(inp, s, seq![n]),
    }
}

#[verifier::opaque]
pub open spec fn p_dotted_rest(inp: InputV, at: PlaceV, parts: Seq<Seq<char>>) -> Parse<
    Seq<Seq<char>>,
>
    decreases left(inp, at),
{
    if tok(inp, at) is Dot {
        match p_ident(inp, next(at)) {
            Parse::Bad(e) => Parse::Bad(e),
            Parse::Read(n, s) => if moved(inp, at, s) {
                p_dotted_rest(inp, s, parts.push(n))
            } else {
                Parse::Bad(nowhere())
            },
        }
    } else {
        Parse::Read(parts, at)
    }
}

// ───────────────────────── expressions ─────────────────────────

pub open spec fn p_expr(inp: InputV, at: PlaceV) -> Parse<ExprV>
    decreases left(inp, at), 8nat,
{
    p_or(inp, at)
}

pub open spec fn binary(op: BinOp, l: ExprV, r: ExprV) -> ExprV {
    ExprV::Binary { op, lhs: Box::new(l), rhs: Box::new(r) }
}

pub open spec fn p_or(inp: InputV, at: PlaceV) -> Parse<ExprV>
    decreases left(inp, at), 7nat,
{
    match p_and(inp, at) {
        Parse::Bad(e) => Parse::Bad(e),
        Parse::Read(l, s) => if moved(inp, at, s) {
            p_or_rest(inp, s, l)
        } else {
            Parse::Bad(nowhere())
        },
    }
}

pub open spec fn p_or_rest(inp: InputV, at: PlaceV, l: ExprV) -> Parse<ExprV>
    decreases left(inp, at), 7nat,
{
    if tok(inp, at) is OrOr {
        match p_and(inp, next(at)) {
            Parse::Bad(e) => Parse::Bad(e),
            Parse::Read(r, s) => if moved(inp, at, s) {
                p_or_rest(inp, s, binary(BinOp::Or, l, r))
            } else {
                Parse::Bad(nowhere())
            },
        }
    } else {
        Parse::Read(l, at)
    }
}

pub open spec fn p_and(inp: InputV, at: PlaceV) -> Parse<ExprV>
    decreases left(inp, at), 6nat,
{
    match p_cmp(inp, at) {
        Parse::Bad(e) => Parse::Bad(e),
        Parse::Read(l, s) => if moved(inp, at, s) {
            p_and_rest(inp, s, l)
        } else {
            Parse::Bad(nowhere())
        },
    }
}

pub open spec fn p_and_rest(inp: InputV, at: PlaceV, l: ExprV) -> Parse<ExprV>
    decreases left(inp, at), 6nat,
{
    if tok(inp, at) is AndAnd {
        match p_cmp(inp, next(at)) {
            Parse::Bad(e) => Parse::Bad(e),
            Parse::Read(r, s) => if moved(inp, at, s) {
                p_and_rest(inp, s, binary(BinOp::And, l, r))
            } else {
                Parse::Bad(nowhere())
            },
        }
    } else {
        Parse::Read(l, at)
    }
}

/// The comparison that a token stands for.
pub open spec fn comparison(t: TokV) -> Option<BinOp> {
    match t {
        TokV::EqEq => Some(BinOp::Eq),
        TokV::Neq => Some(BinOp::Ne),
        TokV::Tilde => Some(BinOp::Match),
        TokV::NTilde => Some(BinOp::NotMatch),
        TokV::Lt => Some(BinOp::Lt),
        TokV::Leq => Some(BinOp::Le),
        TokV::Gt => Some(BinOp::Gt),
        TokV::Geq => Some(BinOp::Ge),
        _ => None,
    }
}

/// At most one comparison: comparisons do not associate.
pub open spec fn p_cmp(inp: InputV, at: PlaceV) -> Parse<ExprV>
    decreases left(inp, at), 5nat,
{
    match p_add(inp, at) {
        Parse::Bad(e) => Parse::Bad(e),
        Parse::Read(l, s) => match comparison(tok(inp, s)) {
            None => Parse::Read(l, s),
            Some(op) => if moved(inp, at, next(s)) {
                match p_add(inp, next(s)) {
                    Parse::Bad(e) => Parse::Bad(e),
                    Parse::Read(r, s2) => if comparison(tok(inp, s2)) is Some {
                        Parse::Bad(
                            err_here(inp, s2, "comparison operators are non-associative"@),
                        )
                    } else {
                        Parse::Read(binary(op, l, r), s2)
                    },
                }
            } else {
                Parse::Bad(nowhere())
            },
        },
    }
}

/// The sum operator that a token stands for.
pub open spec fn sum_op(t: TokV) -> Option<BinOp> {
    match t {
        TokV::Plus => Some(BinOp::Add),
        TokV::Minus => Some(BinOp::Sub),
        _ => None,
    }
}

pub open spec fn p_add(inp: InputV, at: PlaceV) -> Parse<ExprV>
    decreases left(inp, at), 4nat,
{
    match p_mul(inp, at) {
        Parse::Bad(e) => Parse::Bad(e),
        Parse::Read(l, s) => if moved(inp, at, s) {
            p_add_rest(inp, s, l)
        } else {
            Parse::Bad(nowhere())
        },
    }
}

pub open spec fn p_add_rest(inp: InputV, at: PlaceV, l: ExprV) -> Parse<ExprV>
    decreases left(inp, at), 4nat,
{
    match sum_op(tok(inp, at)) {
        Some(op) => match p_mul(inp, next(at)) {
            Parse::Bad(e) => Parse::Bad(e),
            Parse::Read(r, s) => if moved(inp, at, s) {
                p_add_rest(inp, s, binary(op, l, r))
            } else {
                Parse::Bad(nowhere())
            },
        },
        None => Parse::Read(l, at),
    }
}

/// The product operator that a token stands for.
pub open spec fn product_op(t: TokV) -> Option<BinOp> {
    match t {
        TokV::Star => Some(BinOp::Mul),
        TokV::Slash => Some(BinOp::Div),
        _ => None,
    }
}

pub open spec fn p_mul(inp: InputV, at: PlaceV) -> Parse<ExprV>
    decreases left(inp, at), 3nat,
{
    match p_unary(inp, at) {
        Parse::Bad(e) => Parse::Bad(e),
        Parse::Read(l, s) => if moved(inp, at, s) {
            p_mul_rest(inp, s, l)
        } else {
            Parse::Bad(nowhere())
        },
    }
}

pub open spec fn p_mul_rest(inp: InputV, at: PlaceV, l: ExprV) -> Parse<ExprV>
    decreases left(inp, at), 3nat,
{
    match product_op(tok(inp, at)) {
        Some(op) => match p_unary(inp, next(at)) {
            Parse::Bad(e) => Parse::Bad(e),
            Parse::Read(r, s) => if moved(inp, at, s) {
                p_mul_rest(inp, s, binary(op, l, r))
            } else {
                Parse::Bad(nowhere())
            },
        },
        None => Parse::Read(l, at),
    }
}

/// The unary operator that a token stands for.
pub open spec fn unary_op(t: TokV) -> Option<UnOp> {
    match t {
        TokV::Bang => Some(UnOp::Not),
        TokV::Minus => Some(UnOp::Neg),
        _ => None,
    }
}

pub open spec fn p_unary(inp: InputV, at: PlaceV) -> Parse<ExprV>
    decreases left(inp, at), 2nat,
{
    match unary_op(tok(inp, at)) {
        Some(op) => match p_unary(inp, next(at)) {
            Parse::Bad(e) => Parse::Bad(e),
            Parse::Read(x, s) => Parse::Read(ExprV::Unary { op, expr: Box::new(x) }, s),
        },
        None => p_primary(inp, at),
    }
}

/// A number of seconds: the number and its unit.
pub open spec fn duration_token(n: Seq<char>, u: Seq<char>) -> core::result::Result<
    ExprV,
    Seq<char>,
> {
    match decimal::decimal_value(n) {
        Some(d) => if d.scale + 3 <= usize::MAX {
            match ast::duration_value(d, u) {
                Some(secs) => Ok(ExprV::Duration(secs)),
                None => Err("unknown duration unit '"@ + u + "'"@),
            }
        } else {
            Err("invalid number '"@ + n + "'"@)
        },
        None => Err("invalid number '"@ + n + "'"@),
    }
}

/// A number of bytes: the number and its unit.
pub open spec fn bytes_token(n: Seq<char>, u: Seq<char>) -> core::result::Result<
    ExprV,
    Seq<char>,
> {
    match decimal::decimal_value(n) {
        Some(d) => match ast::bytes_amount(d, u) {
            Some(b) => Ok(ExprV::Bytes(b)),
            None => Err("unknown bytes unit '"@ + u + "'"@),
        },
        None => Err("invalid number '"@ + n + "'"@),
    }
}

/// An expression that a token is by itself, or the error of the token.
pub open spec fn at_token(
    inp: InputV,
    at: PlaceV,
    r: core::result::Result<ExprV, Seq<char>>,
) -> Parse<ExprV> {
    match r {
        Ok(e) => Parse::Read(e, next(at)),
        Err(m) => Parse::Bad(err_here(inp, at, m)),
    }
}

pub open spec fn p_primary(inp: InputV, at: PlaceV) -> Parse<ExprV>
    decreases left(inp, at), 1nat,
{
    match tok(inp, at) {
        TokV::Str(s) => Parse::Read(ExprV::Str(s), next(at)),
        TokV::Num(n) => Parse::Read(ExprV::Num(n), next(at)),
        TokV::Duration(n, u) => at_token(inp, at, duration_token(n, u)),
        TokV::Bytes(n, u) => at_token(inp, at, bytes_token(n, u)),
        TokV::CSource(s) => Parse::Read(ExprV::CSource(s), next(at)),
        TokV::LParen => match p_expr(inp, next(at)) {
            Parse::Bad(e) => Parse::Bad(e),
            Parse::Read(x, s) => match p_expect(inp, s, TokV::RParen) {
                Parse::Bad(e) => Parse::Bad(e),
                Parse::Read(_, s2) => Parse::Read(x, s2),
            },
        },
        TokV::Ident(n) => if n == "true"@ {
            Parse::Read(ExprV::Bool(true), next(at))
        } else if n == "false"@ {
            Parse::Read(ExprV::Bool(false), next(at))
        } else {
            match p_dotted(inp, at) {
                Parse::Bad(e) => Parse::Bad(e),
                Parse::Read(parts, s) => if tok(inp, s) is LParen {
                    if moved(inp, at, s) {
                        match p_call_args(inp, s) {
                            Parse::Bad(e) => Parse::Bad(e),
                            Parse::Read(args, s2) => Parse::Read(
                                ExprV::Call { target: parts, args },
                                s2,
                            ),
                        }
                    } else {
                        Parse::Bad(nowhere())
                    }
                } else {
                    Parse::Read(ExprV::Var(parts), s)
                },
            }
        },
        t => Parse::Bad(err_here(inp, at, "expected expression, found "@ + tok_debug(t))),
    }
}

/// The arguments of a call, in their parentheses.
pub open spec fn p_call_args(inp: InputV, at: PlaceV) -> Parse<Seq<ArgV>>
    decreases left(inp, at), 12nat,
{
    match p_expect(inp, at, TokV::LParen) {
        Parse::Bad(e) => Parse::Bad(e),
        Parse::Read(_, s) => if tok(inp, s) is RParen {
            Parse::Read(seq![], next(s))
        } else {
            match p_arg_list(inp, s, None, seq![]) {
                Parse::Bad(e) => Parse::Bad(e),
                Parse::Read(args, s2) => match p_expect(inp, s2, TokV::RParen) {
                    Parse::Bad(e) => Parse::Bad(e),
                    Parse::Read(_, s3) => Parse::Read(args, s3),
                },
            }
        },
    }
}

/// Arguments with commas between them, behind those in `done`.
pub open spec fn p_arg_list(
    inp: InputV,
    at: PlaceV,
    prev: Option<Span>,
    done: Seq<ArgV>,
) -> Parse<Seq<ArgV>>
    decreases left(inp, at), 11nat,
{
    proof {
        reveal(gap_before);
        reveal(gap);
    }
    match p_arg(inp, gap_before(inp, at, prev)) {
        Parse::Bad(e) => Parse::Bad(e),
        Parse::Read(a, s) => if tok(inp, s) is Comma {
            if moved(inp, at, next(s)) {
                p_arg_list(inp, next(s), Some(a.span), done.push(a))
            } else {
                Parse::Bad(nowhere())
            }
        } else {
            Parse::Read(done.push(a), finish_gap(inp, s, Some(a.span), here(inp, s).lo))
        },
    }
}

/// `name = expr` or `expr`.
pub open spec fn p_arg(inp: InputV, at: PlaceV) -> Parse<ArgV>
    decreases left(inp, at), 10nat,
{
    let named = tok(inp, at) is Ident && tok_at(inp, at, 1) is Eq && !(tok_at(inp, at, 2) is EqEq);
    let from = if named {
        next(next(at))
    } else {
        at
    };
    match p_expr(inp, from) {
        Parse::Bad(e) => Parse::Bad(e),
        Parse::Read(value, s) => Parse::Read(
            ArgV {
                name: if named {
                    Some(tok(inp, at)->Ident_0)
                } else {
                    None
                },
                value,
                span: span_from(here(inp, at), before(inp, s)),
            },
            s,
        ),
    }
}

/// Expressions with commas between them, behind those in `done`.
pub open spec fn p_expr_list(inp: InputV, at: PlaceV, done: Seq<ExprV>) -> Parse<Seq<ExprV>>
    decreases left(inp, at), 9nat,
{
    match p_expr(inp, at) {
        Parse::Bad(e) => Parse::Bad(e),
        Parse::Read(x, s) => if tok(inp, s) is Comma {
            if moved(inp, at, next(s)) {
                p_expr_list(inp, next(s), done.push(x))
            } else {
                Parse::Bad(nowhere())
            }
        } else {
            Parse::Read(done.push(x), s)
        },
    }
}

// ───────────────────────── statements ─────────────────────────

/// A semicolon, behind what is the rest of a statement.
pub open spec fn p_semi<T>(inp: InputV, at: PlaceV, start: Span, make: spec_fn(Span) -> T) -> Parse<
    T,
> {
    match p_expect(inp, at, TokV::Semi) {
        Parse::Bad(e) => Parse::Bad(e),
        Parse::Read(sp, s) => Parse::Read(make(span_from(start, sp)), s),
    }
}

pub open spec fn p_block(inp: InputV, at: PlaceV, enclosing: Option<Span>) -> Parse<Seq<StmtV>>
    decreases left(inp, at), 22nat,
{
    match p_expect(inp, at, TokV::LBrace) {
        Parse::Bad(e) => Parse::Bad(e),
        Parse::Read(_, s) => p_stmts(inp, s, enclosing, seq![]),
    }
}

/// Statements up to and with the closing brace, behind those in `done`.
pub open spec fn p_stmts(
    inp: InputV,
    at: PlaceV,
    prev: Option<Span>,
    done: Seq<StmtV>,
) -> Parse<Seq<StmtV>>
    decreases left(inp, at), 21nat,
{
    proof {
        reveal(gap_before);
        reveal(gap);
    }
    match tok(inp, at) {
        TokV::RBrace => Parse::Read(done, finish_gap(inp, next(at), prev, here(inp, at).lo)),
        TokV::Eof => Parse::Bad(err_here(inp, at, "unterminated block, expected '}'"@)),
        _ => match p_stmt(inp, gap_before(inp, at, prev)) {
            Parse::Bad(e) => Parse::Bad(e),
            Parse::Read(x, s) => if moved(inp, at, s) {
                p_stmts(inp, s, Some(ast::stmt_span(x)), done.push(x))
            } else {
                Parse::Bad(nowhere())
            },
        },
    }
}

pub open spec fn p_stmt(inp: InputV, at: PlaceV) -> Parse<StmtV>
    decreases left(inp, at), 20nat,
{
    let start = here(inp, at);
    match tok(inp, at) {
        TokV::CSource(s) => Parse::Read(
            StmtV::Expr { expr: ExprV::CSource(s), span: start },
            next(at),
        ),
        TokV::Ident(kw) => if kw == "set"@ {
            p_set(inp, next(at), start)
        } else if kw == "unset"@ {
            p_unset(inp, next(at), start)
        } else if kw == "call"@ {
            p_call(inp, next(at), start)
        } else if kw == "return"@ {
            p_return(inp, next(at), start)
        } else if kw == "synthetic"@ {
            p_synthetic(inp, next(at), start)
        } else if kw == "new"@ {
            p_new(inp, next(at), start)
        } else if kw == "if"@ {
            p_if(inp, next(at), start)
        } else {
            p_expr_stmt(inp, at, start)
        },
        t => Parse::Bad(err_here(inp, at, "expected statement, found "@ + tok_debug(t))),
    }
}

/// `set` is read already.
#[verifier::opaque]
pub open spec fn p_set(inp: InputV, at: PlaceV, start: Span) -> Parse<StmtV> {
    match p_dotted(inp, at) {
        Parse::Bad(e) => Parse::Bad(e),
        Parse::Read(lhs, s) => match p_expect(inp, s, TokV::Eq) {
            Parse::Bad(e) => Parse::Bad(e),
            Parse::Read(_, s2) => match p_expr(inp, s2) {
                Parse::Bad(e) => Parse::Bad(e),
                Parse::Read(rhs, s3) => p_semi(
                    inp,
                    s3,
                    start,
                    |span: Span| StmtV::Assign { lhs, rhs, span },
                ),
            },
        },
    }
}

/// `unset` is read already.
#[verifier::opaque]
pub open spec fn p_unset(inp: InputV, at: PlaceV, start: Span) -> Parse<StmtV> {
    match p_dotted(inp, at) {
        Parse::Bad(e) => Parse::Bad(e),
        Parse::Read(lhs, s) => p_semi(inp, s, start, |span: Span| StmtV::Unset { lhs, span }),
    }
}

/// `call` is read already.
#[verifier::opaque]
pub open spec fn p_call(inp: InputV, at: PlaceV, start: Span) -> Parse<StmtV> {
    match p_ident(inp, at) {
        Parse::Bad(e) => Parse::Bad(e),
        Parse::Read(sub, s) => p_semi(inp, s, start, |span: Span| StmtV::Call { sub, span }),
    }
}

/// `return` is read already.
#[verifier::opaque]
pub open spec fn p_return(inp: InputV, at: PlaceV, start: Span) -> Parse<StmtV> {
    if tok(inp, at) is LParen {
        match p_action(inp, next(at)) {
            Parse::Bad(e) => Parse::Bad(e),
            Parse::Read(a, s) => p_semi(
                inp,
                s,
                start,
                |span: Span| StmtV::Return { action: Some(a), span },
            ),
        }
    } else {
        p_semi(inp, at, start, |span: Span| StmtV::Return { action: None, span })
    }
}

/// The action of a `return`, up to and with the closing parenthesis.
#[verifier::opaque]
pub open spec fn p_action(inp: InputV, at: PlaceV) -> Parse<ReturnActionV> {
    match p_ident(inp, at) {
        Parse::Bad(e) => Parse::Bad(e),
        Parse::Read(name, s) => match p_action_args(inp, s) {
            Parse::Bad(e) => Parse::Bad(e),
            Parse::Read(args, s2) => match p_expect(inp, s2, TokV::RParen) {
                Parse::Bad(e) => Parse::Bad(e),
                Parse::Read(_, s3) => Parse::Read(ReturnActionV { name, args }, s3),
            },
        },
    }
}

/// The arguments of an action, in their parentheses, where there are any.
#[verifier::opaque]
pub open spec fn p_action_args(inp: InputV, at: PlaceV) -> Parse<Seq<ExprV>> {
    if !(tok(inp, at) is LParen) {
        Parse::Read(seq![], at)
    } else if tok(inp, next(at)) is RParen {
        Parse::Read(seq![], next(next(at)))
    } else {
        match p_expr_list(inp, next(at), seq![]) {
            Parse::Bad(e) => Parse::Bad(e),
            Parse::Read(args, s) => match p_expect(inp, s, TokV::RParen) {
                Parse::Bad(e) => Parse::Bad(e),
                Parse::Read(_, s2) => Parse::Read(args, s2),
            },
        }
    }
}

/// `synthetic` is read already.
#[verifier::opaque]
pub open spec fn p_synthetic(inp: InputV, at: PlaceV, start: Span) -> Parse<StmtV> {
    match p_condition(inp, at) {
        Parse::Bad(e) => Parse::Bad(e),
        Parse::Read(value, s) => p_semi(
            inp,
            s,
            start,
            |span: Span| StmtV::Synthetic { value, span },
        ),
    }
}

/// An expression in parentheses.
#[verifier::opaque]
pub open spec fn p_condition(inp: InputV, at: PlaceV) -> Parse<ExprV> {
    match p_expect(inp, at, TokV::LParen) {
        Parse::Bad(e) => Parse::Bad(e),
        Parse::Read(_, s) => match p_expr(inp, s) {
            Parse::Bad(e) => Parse::Bad(e),
            Parse::Read(x, s2) => match p_expect(inp, s2, TokV::RParen) {
                Parse::Bad(e) => Parse::Bad(e),
                Parse::Read(_, s3) => Parse::Read(x, s3),
            },
        },
    }
}

/// `new` is read already.
#[verifier::opaque]
pub open spec fn p_new(inp: InputV, at: PlaceV, start: Span) -> Parse<StmtV> {
    match p_ident(inp, at) {
        Parse::Bad(e) => Parse::Bad(e),
        Parse::Read(name, s) => match p_expect(inp, s, TokV::Eq) {
            Parse::Bad(e) => Parse::Bad(e),
            Parse::Read(_, s2) => match p_ident(inp, s2) {
                Parse::Bad(e) => Parse::Bad(e),
                Parse::Read(vmod, s3) => match p_expect(inp, s3, TokV::Dot) {
                    Parse::Bad(e) => Parse::Bad(e),
                    Parse::Read(_, s4) => match p_ident(inp, s4) {
                        Parse::Bad(e) => Parse::Bad(e),
                        Parse::Read(ctor, s5) => match p_call_args(inp, s5) {
                            Parse::Bad(e) => Parse::Bad(e),
                            Parse::Read(args, s6) => p_semi(
                                inp,
                                s6,
                                start,
                                |span: Span| StmtV::New { name, vmod, ctor, args, span },
                            ),
                        },
                    },
                },
            },
        },
    }
}

#[verifier::opaque]
pub open spec fn p_expr_stmt(inp: InputV, at: PlaceV, start: Span) -> Parse<StmtV> {
    match p_dotted(inp, at) {
        Parse::Bad(e) => Parse::Bad(e),
        Parse::Read(target, s) => match p_call_args(inp, s) {
            Parse::Bad(e) => Parse::Bad(e),
            Parse::Read(args, s2) => p_semi(
                inp,
                s2,
                start,
                |span: Span| StmtV::Expr { expr: ExprV::Call { target, args }, span },
            ),
        },
    }
}

/// An arm: its condition and its body.
pub open spec fn p_arm(inp: InputV, at: PlaceV) -> Parse<ArmV>
    decreases left(inp, at), 23nat,
{
    match p_condition(inp, at) {
        Parse::Bad(e) => Parse::Bad(e),
        Parse::Read(cond, s) => if moved(inp, at, s) {
            match p_block(inp, s, None) {
                Parse::Bad(e) => Parse::Bad(e),
                Parse::Read(body, s2) => Parse::Read(ArmV { cond, body }, s2),
            }
        } else {
            Parse::Bad(nowhere())
        },
    }
}

/// `if` is read already.
pub open spec fn p_if(inp: InputV, at: PlaceV, start: Span) -> Parse<StmtV>
    decreases left(inp, at), 24nat,
{
    match p_arm(inp, at) {
        Parse::Bad(e) => Parse::Bad(e),
        Parse::Read(a, s) => if moved(inp, at, s) {
            p_if_rest(inp, s, start, seq![a])
        } else {
            Parse::Bad(nowhere())
        },
    }
}

/// The tokens that start another arm: `elsif`, `elseif` or `else if`.
#[verifier::opaque]
pub open spec fn another_arm(inp: InputV, at: PlaceV) -> Option<nat> {
    if tok(inp, at) == TokV::Ident("elsif"@) || tok(inp, at) == TokV::Ident("elseif"@) {
        Some(1)
    } else if tok(inp, at) == TokV::Ident("else"@) && tok_at(inp, at, 1) == TokV::Ident("if"@) {
        Some(2)
    } else {
        None
    }
}

/// The other arms and the `else` of an `if`, behind the arms in `arms`.
pub open spec fn p_if_rest(inp: InputV, at: PlaceV, start: Span, arms: Seq<ArmV>) -> Parse<StmtV>
    decreases left(inp, at), 24nat,
{
    match another_arm(inp, at) {
        Some(n) => match p_arm(inp, PlaceV { pos: at.pos + n, ..at }) {
            Parse::Bad(e) => Parse::Bad(e),
            Parse::Read(a, s) => if moved(inp, at, s) {
                p_if_rest(inp, s, start, arms.push(a))
            } else {
                Parse::Bad(nowhere())
            },
        },
        None => if tok(inp, at) == TokV::Ident("else"@) {
            match p_block(inp, next(at), None) {
                Parse::Bad(e) => Parse::Bad(e),
                Parse::Read(b, s) => Parse::Read(
                    StmtV::If {
                        arms,
                        else_body: Some(b),
                        span: span_from(start, before(inp, s)),
                    },
                    s,
                ),
            }
        } else {
            Parse::Read(
                StmtV::If { arms, else_body: None, span: span_from(start, before(inp, at)) },
                at,
            )
        },
    }
}

// ───────────────────────── declarations ─────────────────────────

/// Fields up to and with the closing brace, behind those in `done`.
pub open spec fn p_fields(
    inp: InputV,
    at: PlaceV,
    prev: Option<Span>,
    done: Seq<FieldV>,
) -> Parse<Seq<FieldV>>
    decreases left(inp, at), 31nat,
{
    proof {
        reveal(gap_before);
        reveal(gap);
    }
    if tok(inp, at) is RBrace {
        Parse::Read(done, finish_gap(inp, next(at), prev, here(inp, at).lo))
    } else {
        match p_field(inp, gap_before(inp, at, prev)) {
            Parse::Bad(e) => Parse::Bad(e),
            Parse::Read(f, s) => if moved(inp, at, s) {
                p_fields(inp, s, Some(f.span), done.push(f))
            } else {
                Parse::Bad(nowhere())
            },
        }
    }
}

/// `.name = value;`; a probe in place has no semicolon.
pub open spec fn p_field(inp: InputV, at: PlaceV) -> Parse<FieldV>
    decreases left(inp, at), 30nat,
{
    let start = here(inp, at);
    match p_expect(inp, at, TokV::Dot) {
        Parse::Bad(e) => Parse::Bad(e),
        Parse::Read(_, s) => match p_ident(inp, s) {
            Parse::Bad(e) => Parse::Bad(e),
            Parse::Read(name, s2) => match p_expect(inp, s2, TokV::Eq) {
                Parse::Bad(e) => Parse::Bad(e),
                Parse::Read(_, s3) => if moved(inp, at, s3) {
                    match p_field_value(inp, s3, start) {
                        Parse::Bad(e) => Parse::Bad(e),
                        Parse::Read(value, s4) => if value is Probe {
                            Parse::Read(
                                FieldV { name, value, span: span_from(start, before(inp, s4)) },
                                s4,
                            )
                        } else {
                            p_semi(inp, s4, start, |span: Span| FieldV { name, value, span })
                        },
                    }
                } else {
                    Parse::Bad(nowhere())
                },
            },
        },
    }
}

pub open spec fn p_field_value(inp: InputV, at: PlaceV, start: Span) -> Parse<FieldValueV>
    decreases left(inp, at), 32nat,
{
    let t = tok(inp, at);
    if t is LBrace {
        match p_fields(inp, next(at), Some(start), seq![]) {
            Parse::Bad(e) => Parse::Bad(e),
            Parse::Read(fs, s) => Parse::Read(FieldValueV::Probe(fs), s),
        }
    } else if t is Ident && t != TokV::Ident("true"@) && t != TokV::Ident("false"@) && tok_at(
        inp,
        at,
        1,
    ) is Semi {
        Parse::Read(FieldValueV::ProbeRef(t->Ident_0), next(at))
    } else if t is Str && tok_at(inp, at, 1) is Str {
        let (l, s) = p_strings(inp, at, seq![]);
        Parse::Read(FieldValueV::StringList(l), s)
    } else {
        match p_expr(inp, at) {
            Parse::Bad(e) => Parse::Bad(e),
            Parse::Read(x, s) => Parse::Read(FieldValueV::Expr(x), s),
        }
    }
}

/// Adjacent strings, behind those in `done`.
#[verifier::opaque]
pub open spec fn p_strings(inp: InputV, at: PlaceV, done: Seq<Seq<char>>) -> (
    Seq<Seq<char>>,
    PlaceV,
)
    decreases left(inp, at),
{
    match tok(inp, at) {
        TokV::Str(s) => p_strings(inp, next(at), done.push(s)),
        _ => (done, at),
    }
}

/// `"addr"`, `!"addr"` or `"addr" / mask`, and a semicolon.
#[verifier::opaque]
pub open spec fn p_acl_entry(inp: InputV, at: PlaceV) -> Parse<AclEntryV> {
    let negated = tok(inp, at) is Bang;
    let from = if negated {
        next(at)
    } else {
        at
    };
    match p_str(inp, from) {
        Parse::Bad(e) => Parse::Bad(e),
        Parse::Read(addr, s) => match p_mask(inp, s) {
            Parse::Bad(e) => Parse::Bad(e),
            Parse::Read(mask, s2) => p_semi(
                inp,
                s2,
                here(inp, at),
                |span: Span| AclEntryV { negated, addr, mask, span },
            ),
        },
    }
}

/// The mask of an address, where there is one.
#[verifier::opaque]
pub open spec fn p_mask(inp: InputV, at: PlaceV) -> Parse<Option<u8>> {
    if tok(inp, at) is Slash {
        let s = next(at);
        match tok(inp, s) {
            TokV::Num(n) => match text::unsigned_value(n, u8::MAX as nat) {
                Some(v) => Parse::Read(Some(v as u8), next(s)),
                None => Parse::Bad(err_here(inp, next(s), "invalid ACL mask"@)),
            },
            t => Parse::Bad(err_here(inp, s, "expected mask number, found "@ + tok_debug(t))),
        }
    } else {
        Parse::Read(None, at)
    }
}

/// Entries up to and with the closing brace, behind those in `done`.
#[verifier::opaque]
pub open spec fn p_acl_entries(
    inp: InputV,
    at: PlaceV,
    prev: Option<Span>,
    done: Seq<AclEntryV>,
) -> Parse<Seq<AclEntryV>>
    decreases left(inp, at),
{
    if tok(inp, at) is RBrace {
        Parse::Read(done, finish_gap(inp, next(at), prev, here(inp, at).lo))
    } else {
        match p_acl_entry(inp, gap_before(inp, at, prev)) {
            Parse::Bad(e) => Parse::Bad(e),
            Parse::Read(x, s) => if moved(inp, at, s) {
                p_acl_entries(inp, s, Some(x.span), done.push(x))
            } else {
                Parse::Bad(nowhere())
            },
        }
    }
}

#[verifier::opaque]
pub open spec fn p_top_decl(inp: InputV, at: PlaceV) -> Parse<DeclV> {
    let start = here(inp, at);
    match tok(inp, at) {
        TokV::Ident(kw) => if kw == "import"@ {
            p_import(inp, next(at), start)
        } else if kw == "backend"@ {
            p_backend(inp, next(at), start)
        } else if kw == "probe"@ {
            p_probe(inp, next(at), start)
        } else if kw == "acl"@ {
            p_acl(inp, next(at), start)
        } else if kw == "sub"@ {
            p_sub(inp, next(at), start)
        } else {
            Parse::Bad(unexpected_decl(inp, at))
        },
        _ => Parse::Bad(unexpected_decl(inp, at)),
    }
}

pub open spec fn unexpected_decl(inp: InputV, at: PlaceV) -> ErrV {
    err_here(
        inp,
        at,
        "expected top-level declaration (import/backend/probe/acl/sub), found "@ + tok_debug(
            tok(inp, at),
        ),
    )
}

/// `import` is read already.
#[verifier::opaque]
pub open spec fn p_import(inp: InputV, at: PlaceV, start: Span) -> Parse<DeclV> {
    match p_ident(inp, at) {
        Parse::Bad(e) => Parse::Bad(e),
        Parse::Read(name, s) => if tok(inp, s) == TokV::Ident("from"@) {
            match p_str(inp, next(s)) {
                Parse::Bad(e) => Parse::Bad(e),
                Parse::Read(f, s2) => p_semi(
                    inp,
                    s2,
                    start,
                    |span: Span| DeclV::Import { name, from: Some(f), span },
                ),
            }
        } else {
            p_semi(inp, s, start, |span: Span| DeclV::Import { name, from: None, span })
        },
    }
}

/// `backend` is read already.
#[verifier::opaque]
pub open spec fn p_backend(inp: InputV, at: PlaceV, start: Span) -> Parse<DeclV> {
    match p_ident(inp, at) {
        Parse::Bad(e) => Parse::Bad(e),
        Parse::Read(name, s) => if tok(inp, s) == TokV::Ident("none"@) {
            p_semi(
                inp,
                next(s),
                start,
                |span: Span| DeclV::Backend { name, none: true, body: None, span },
            )
        } else {
            match p_field_block(inp, s, start) {
                Parse::Bad(e) => Parse::Bad(e),
                Parse::Read(fs, s2) => Parse::Read(
                    DeclV::Backend {
                        name,
                        none: false,
                        body: Some(fs),
                        span: span_from(start, before(inp, s2)),
                    },
                    s2,
                ),
            }
        },
    }
}

/// Fields in braces.
#[verifier::opaque]
pub open spec fn p_field_block(inp: InputV, at: PlaceV, start: Span) -> Parse<Seq<FieldV>> {
    match p_expect(inp, at, TokV::LBrace) {
        Parse::Bad(e) => Parse::Bad(e),
        Parse::Read(_, s) => p_fields(inp, s, Some(start), seq![]),
    }
}

/// `probe` is read already.
#[verifier::opaque]
pub open spec fn p_probe(inp: InputV, at: PlaceV, start: Span) -> Parse<DeclV> {
    match p_ident(inp, at) {
        Parse::Bad(e) => Parse::Bad(e),
        Parse::Read(name, s) => match p_field_block(inp, s, start) {
            Parse::Bad(e) => Parse::Bad(e),
            Parse::Read(body, s2) => Parse::Read(
                DeclV::Probe { name, body, span: span_from(start, before(inp, s2)) },
                s2,
            ),
        },
    }
}

/// `acl` is read already.
#[verifier::opaque]
pub open spec fn p_acl(inp: InputV, at: PlaceV, start: Span) -> Parse<DeclV> {
    match p_ident(inp, at) {
        Parse::Bad(e) => Parse::Bad(e),
        Parse::Read(name, s) => match p_expect(inp, s, TokV::LBrace) {
            Parse::Bad(e) => Parse::Bad(e),
            Parse::Read(_, s2) => match p_acl_entries(inp, s2, Some(start), seq![]) {
                Parse::Bad(e) => Parse::Bad(e),
                Parse::Read(entries, s3) => Parse::Read(
                    DeclV::Acl { name, entries, span: span_from(start, before(inp, s3)) },
                    s3,
                ),
            },
        },
    }
}

/// `sub` is read already.
#[verifier::opaque]
pub open spec fn p_sub(inp: InputV, at: PlaceV, start: Span) -> Parse<DeclV> {
    match p_ident(inp, at) {
        Parse::Bad(e) => Parse::Bad(e),
        Parse::Read(name, s) => match p_block(inp, s, Some(start)) {
            Parse::Bad(e) => Parse::Bad(e),
            Parse::Read(body, s2) => Parse::Read(
                DeclV::Sub { name, body, span: span_from(start, before(inp, s2)) },
                s2,
            ),
        },
    }
}

// ───────────────────────── the program ─────────────────────────

/// A version number: its two parts and where it stands.
#[verifier::ext_equal]
pub struct VersionV {
    pub major: Seq<char>,
    pub minor: Seq<char>,
    pub span: Span,
}

/// `4.1`, as one number or as two with a dot between them.
#[verifier::opaque]
pub open spec fn p_version(inp: InputV, at: PlaceV) -> Parse<VersionV> {
    match tok(inp, at) {
        TokV::Num(n) => {
            let d = text::next_char(n, '.', 0);
            if d < n.len() {
                Parse::Read(
                    VersionV {
                        major: n.subrange(0, d as int),
                        minor: n.subrange(d as int + 1, n.len() as int),
                        span: here(inp, at),
                    },
                    next(at),
                )
            } else {
                match p_expect(inp, next(at), TokV::Dot) {
                    Parse::Bad(e) => Parse::Bad(e),
                    Parse::Read(_, s) => match tok(inp, s) {
                        TokV::Num(m) => Parse::Read(
                            VersionV {
                                major: n,
                                minor: m,
                                span: span_from(here(inp, at), here(inp, s)),
                            },
                            next(s),
                        ),
                        t => Parse::Bad(
                            err_here(
                                inp,
                                s,
                                "expected version minor number, found "@ + tok_debug(t),
                            ),
                        ),
                    },
                }
            }
        },
        t => Parse::Bad(err_here(inp, at, "expected VCL version number, found "@ + tok_debug(t))),
    }
}

/// `vcl 4.1;`
#[verifier::opaque]
pub open spec fn p_vcl_decl(inp: InputV, at: PlaceV) -> Parse<Span> {
    match p_keyword(inp, at, "vcl"@) {
        Parse::Bad(e) => Parse::Bad(e),
        Parse::Read(start, s) => match p_version(inp, s) {
            Parse::Bad(e) => Parse::Bad(e),
            Parse::Read(v, s2) => if v.major != "4"@ || v.minor != "1"@ {
                Parse::Bad(ast::err_at(v.span, "only VCL 4.1 supported"@))
            } else {
                p_semi(inp, s2, start, |span: Span| span)
            },
        },
    }
}

/// A further `vcl X.Y;`, of any version.
#[verifier::opaque]
pub open spec fn p_further_vcl(inp: InputV, at: PlaceV) -> Parse<()> {
    match p_version(inp, next(at)) {
        Parse::Bad(e) => Parse::Bad(e),
        Parse::Read(_, s) => match p_expect(inp, s, TokV::Semi) {
            Parse::Bad(e) => Parse::Bad(e),
            Parse::Read(_, s2) => Parse::Read((), s2),
        },
    }
}

/// The declarations up to the end of the stream, behind those in `decls`.
#[verifier::opaque]
pub open spec fn p_decls(
    inp: InputV,
    at: PlaceV,
    version: Span,
    prev: Option<Span>,
    decls: Seq<DeclV>,
) -> core::result::Result<ProgramV, ErrV>
    decreases left(inp, at),
{
    if tok(inp, at) is Eof {
        let (g, over) = gap(inp, at, prev, here(inp, at).lo, None);
        Ok(ProgramV { vcl_version: version, decls, comments: g.out, trailing_comments: over })
    } else if tok(inp, at) == TokV::Ident("vcl"@) {
        match p_further_vcl(inp, at) {
            Parse::Bad(e) => Err(e),
            Parse::Read(_, s) => if moved(inp, at, s) {
                p_decls(inp, s, version, prev, decls)
            } else {
                Err(nowhere())
            },
        }
    } else {
        match p_top_decl(inp, gap_before(inp, at, prev)) {
            Parse::Bad(e) => Err(e),
            Parse::Read(d, s) => if moved(inp, at, s) {
                p_decls(inp, s, version, Some(ast::decl_span(d)), decls.push(d))
            } else {
                Err(nowhere())
            },
        }
    }
}

/// The program that a token stream stands for.
#[verifier::opaque]
pub open spec fn p_program(inp: InputV) -> core::result::Result<ProgramV, ErrV> {
    match p_vcl_decl(inp, PlaceV { pos: 0, cidx: 0, out: Map::empty() }) {
        Parse::Bad(e) => Err(e),
        Parse::Read(version, s) => p_decls(inp, s, version, None, seq![]),
    }
}

} // verus!
