//! The tokens of an expression stand for the expression.

use crate::ast::{ArgV, BinOp, ExprV, Span, UnOp};
use crate::grammar;
use crate::grammar::{InputV, Parse, PlaceV};
use crate::layout;
use crate::layout::parsing;
use crate::lexer::TokV;
use crate::readback;
use crate::readback::words;
use vstd::prelude::*;
use vstd::string::*;

verus! {

// ───────────────────────── tokens at a place ─────────────────────────

/// Whether the tokens stand in the stream, the first of them at `pos`.
#[verifier::opaque]
pub open spec fn holds(inp: InputV, pos: nat, k: Seq<TokV>) -> bool {
    &&& pos + k.len() <= inp.toks.len()
    &&& forall|i: int| 0 <= i < k.len() ==> inp.toks[pos + i].tok == #[trigger] k[i]
}

/// The token at a place; behind the stream stands an end token.
pub open spec fn kind_at(inp: InputV, pos: nat) -> TokV {
    if pos < inp.toks.len() {
        inp.toks[pos as int].tok
    } else {
        TokV::Eof
    }
}

pub(crate) proof fn lemma_split(inp: InputV, pos: nat, a: Seq<TokV>, b: Seq<TokV>)
    requires
        holds(inp, pos, a + b),
    ensures
        holds(inp, pos, a),
        holds(inp, pos + a.len(), b),
{
    reveal(holds);
    let k = a + b;
    assert forall|i: int| 0 <= i < a.len() implies inp.toks[pos + i].tok == #[trigger] a[i] by {
        assert(k[i] == a[i]);
    }
    assert forall|i: int| 0 <= i < b.len() implies inp.toks[pos + a.len() + i].tok
        == #[trigger] b[i] by {
        assert(k[a.len() + i] == b[i]);
    }
}

/// The first token and what stands behind it.
pub(crate) proof fn lemma_head(inp: InputV, pos: nat, t: TokV, b: Seq<TokV>)
    requires
        holds(inp, pos, seq![t] + b),
    ensures
        pos < inp.toks.len(),
        kind_at(inp, pos) == t,
        holds(inp, pos + 1, b),
{
    lemma_split(inp, pos, seq![t], b);
    lemma_one(inp, pos, t);
}

/// A single token.
pub(crate) proof fn lemma_one(inp: InputV, pos: nat, t: TokV)
    requires
        holds(inp, pos, seq![t]),
    ensures
        pos < inp.toks.len(),
        kind_at(inp, pos) == t,
{
    reveal(holds);
    assert(seq![t][0] == t);
}

/// The first of some tokens.
pub(crate) proof fn lemma_first(inp: InputV, pos: nat, k: Seq<TokV>)
    requires
        holds(inp, pos, k),
        k.len() > 0,
    ensures
        pos < inp.toks.len(),
        kind_at(inp, pos) == k[0],
        k.len() > 1 ==> kind_at(inp, pos + 1) == k[1],
{
    reveal(holds);
    assert(inp.toks[pos + 0int].tok == k[0]);
    if k.len() > 1 {
        assert(inp.toks[pos + 1int].tok == k[1]);
    }
}

// ───────────────────────── dotted names ─────────────────────────

pub(crate) proof fn lemma_dotted_toks(parts: Seq<Seq<char>>, n: nat)
    requires
        n > 0,
    ensures
        readback::dotted_toks(parts, n).len() == 2 * n - 1,
        forall|i: int|
            0 <= i < n ==> #[trigger] readback::dotted_toks(parts, n)[2 * i] == TokV::Ident(
                parts[i],
            ),
        forall|i: int| 0 < i < n ==> #[trigger] readback::dotted_toks(parts, n)[2 * i - 1] is Dot,
    decreases n,
{
    if n > 1 {
        lemma_dotted_toks(parts, (n - 1) as nat);
        let a = readback::dotted_toks(parts, (n - 1) as nat);
        let k = readback::dotted_toks(parts, n);
        assert forall|i: int| 0 <= i < n implies #[trigger] k[2 * i] == TokV::Ident(parts[i]) by {
            if i < n - 1 {
                assert(k[2 * i] == a[2 * i]);
            }
        }
        assert forall|i: int| 0 < i < n implies #[trigger] k[2 * i - 1] is Dot by {
            if i < n - 1 {
                assert(k[2 * i - 1] == a[2 * i - 1]);
            }
        }
    }
}

proof fn lemma_dotted_rest(inp: InputV, at: PlaceV, pos: nat, parts: Seq<Seq<char>>, n: nat)
    requires
        0 < n <= parts.len(),
        holds(inp, pos, readback::dotted_toks(parts, parts.len())),
        at.pos == pos + 2 * n - 1,
        !(kind_at(inp, (pos + 2 * parts.len() - 1) as nat) is Dot),
    ensures
        match grammar::p_dotted_rest(inp, at, parts.take(n as int)) {
            Parse::Read(x, s) => x == parts && s.pos == pos + 2 * parts.len() - 1,
            _ => false,
        },
    decreases parts.len() - n,
{
    reveal_with_fuel(grammar::p_dotted_rest, 2);
    reveal(holds);
    let k = readback::dotted_toks(parts, parts.len());
    lemma_dotted_toks(parts, parts.len());
    if n < parts.len() {
        let i = n as int;
        assert(k[2 * i - 1] is Dot);
        assert(k[2 * i] == TokV::Ident(parts[i]));
        assert(inp.toks[pos + (2 * i - 1)].tok == k[2 * i - 1]);
        assert(inp.toks[pos + 2 * i].tok == k[2 * i]);
        assert(parts.take(i).push(parts[i]) =~= parts.take(i + 1));
        let s = grammar::next(grammar::next(at));
        lemma_dotted_rest(inp, s, pos, parts, n + 1);
    } else {
        assert(parts.take(n as int) =~= parts);
    }
}

/// The tokens of a dotted name stand for it.
pub(crate) proof fn lemma_dotted(inp: InputV, at: PlaceV, parts: Seq<Seq<char>>)
    requires
        parts.len() > 0,
        holds(inp, at.pos, readback::dotted_toks(parts, parts.len())),
        !(kind_at(inp, at.pos + readback::dotted_toks(parts, parts.len()).len()) is Dot),
    ensures
        at.pos < inp.toks.len(),
        grammar::tok(inp, at) == TokV::Ident(parts[0]),
        match grammar::p_dotted(inp, at) {
            Parse::Read(x, s) => x == parts && s.pos == at.pos + readback::dotted_toks(
                parts,
                parts.len(),
            ).len(),
            _ => false,
        },
        readback::dotted_toks(parts, parts.len()).len() > 0,
{
    reveal(grammar::p_dotted);
    let k = readback::dotted_toks(parts, parts.len());
    lemma_dotted_toks(parts, parts.len());
    lemma_first(inp, at.pos, k);
    assert(k[2 * 0int] == TokV::Ident(parts[0]));
    assert(parts.take(1) =~= seq![parts[0]]);
    lemma_dotted_rest(inp, grammar::next(at), at.pos, parts, 1);
}

// ───────────────────────── the ladder of operators ─────────────────────────

/// Whether an expression is read, up to places.
pub open spec fn reads_expr(r: Parse<ExprV>, e: ExprV, pos: nat) -> bool {
    match r {
        Parse::Read(x, s) => layout::bare_expr(x) == layout::bare_expr(e) && s.pos == pos,
        Parse::Bad(_) => false,
    }
}

/// Whether a token ends an operand.
pub open spec fn ends_operand(t: TokV) -> bool {
    !(t is Dot) && !(t is LParen)
}

/// Whether a token ends an expression.
pub open spec fn ends_expr(t: TokV) -> bool {
    &&& ends_operand(t)
    &&& grammar::product_op(t) is None
    &&& grammar::sum_op(t) is None
    &&& grammar::comparison(t) is None
    &&& !(t is AndAnd)
    &&& !(t is OrOr)
}

proof fn lemma_to_mul(inp: InputV, at: PlaceV)
    requires
        grammar::p_unary(inp, at) matches Parse::Read(_, s) && grammar::moved(inp, at, s)
            && grammar::product_op(grammar::tok(inp, s)) is None,
    ensures
        grammar::p_mul(inp, at) == grammar::p_unary(inp, at),
{
    match grammar::p_unary(inp, at) {
        Parse::Read(x, s) => {
            assert(grammar::p_mul_rest(inp, s, x) == Parse::Read(x, s));
        },
        _ => {},
    }
}

proof fn lemma_to_add(inp: InputV, at: PlaceV)
    requires
        grammar::p_mul(inp, at) matches Parse::Read(_, s) && grammar::moved(inp, at, s)
            && grammar::sum_op(grammar::tok(inp, s)) is None,
    ensures
        grammar::p_add(inp, at) == grammar::p_mul(inp, at),
{
    match grammar::p_mul(inp, at) {
        Parse::Read(x, s) => {
            assert(grammar::p_add_rest(inp, s, x) == Parse::Read(x, s));
        },
        _ => {},
    }
}

proof fn lemma_to_compared(inp: InputV, at: PlaceV)
    requires
        grammar::p_add(inp, at) matches Parse::Read(_, s) && grammar::comparison(
            grammar::tok(inp, s),
        ) is None,
    ensures
        grammar::p_cmp(inp, at) == grammar::p_add(inp, at),
{
}

proof fn lemma_to_and(inp: InputV, at: PlaceV)
    requires
        grammar::p_cmp(inp, at) matches Parse::Read(_, s) && grammar::moved(inp, at, s)
            && !(grammar::tok(inp, s) is AndAnd),
    ensures
        grammar::p_and(inp, at) == grammar::p_cmp(inp, at),
{
    match grammar::p_cmp(inp, at) {
        Parse::Read(x, s) => {
            assert(grammar::p_and_rest(inp, s, x) == Parse::Read(x, s));
        },
        _ => {},
    }
}

proof fn lemma_to_expr(inp: InputV, at: PlaceV)
    requires
        grammar::p_and(inp, at) matches Parse::Read(_, s) && grammar::moved(inp, at, s)
            && !(grammar::tok(inp, s) is OrOr),
    ensures
        grammar::p_expr(inp, at) == grammar::p_and(inp, at),
{
    match grammar::p_and(inp, at) {
        Parse::Read(x, s) => {
            assert(grammar::p_or_rest(inp, s, x) == Parse::Read(x, s));
        },
        _ => {},
    }
    assert(grammar::p_expr(inp, at) == grammar::p_or(inp, at));
}

/// What is read on one rung and followed by no operator is read on all rungs
/// above it.
proof fn lemma_climb(inp: InputV, at: PlaceV)
    requires
        grammar::p_unary(inp, at) matches Parse::Read(_, s) && grammar::moved(inp, at, s)
            && ends_expr(grammar::tok(inp, s)),
    ensures
        grammar::p_expr(inp, at) == grammar::p_unary(inp, at),
{
    lemma_to_mul(inp, at);
    lemma_to_add(inp, at);
    lemma_to_compared(inp, at);
    lemma_to_and(inp, at);
    lemma_to_expr(inp, at);
}

/// Two operands with an operator between them are joined on the operator's
/// rung.
proof fn lemma_joins(
    inp: InputV,
    at: PlaceV,
    op: BinOp,
    l: ExprV,
    s: PlaceV,
    r: ExprV,
    s2: PlaceV,
)
    requires
        grammar::p_unary(inp, at) == Parse::Read(l, s),
        grammar::moved(inp, at, s),
        grammar::tok(inp, s) == readback::op_tok(op),
        grammar::p_unary(inp, grammar::next(s)) == Parse::Read(r, s2),
        grammar::moved(inp, grammar::next(s), s2),
        ends_expr(grammar::tok(inp, s2)),
    ensures
        grammar::p_expr(inp, at) == Parse::Read(grammar::binary(op, l, r), s2),
{
    let n = grammar::next(s);
    let x = grammar::binary(op, l, r);
    if op is Mul || op is Div {
        assert(grammar::p_mul_rest(inp, s2, x) == Parse::Read(x, s2));
        assert(grammar::p_mul_rest(inp, s, l) == Parse::Read(x, s2));
        assert(grammar::p_mul(inp, at) == Parse::Read(x, s2));
        lemma_to_add(inp, at);
        lemma_to_compared(inp, at);
        lemma_to_and(inp, at);
        lemma_to_expr(inp, at);
    } else {
        lemma_to_mul(inp, at);
        lemma_to_mul(inp, n);
        if op is Add || op is Sub {
            assert(grammar::p_add_rest(inp, s2, x) == Parse::Read(x, s2));
            assert(grammar::p_add_rest(inp, s, l) == Parse::Read(x, s2));
            assert(grammar::p_add(inp, at) == Parse::Read(x, s2));
            lemma_to_compared(inp, at);
            lemma_to_and(inp, at);
            lemma_to_expr(inp, at);
        } else {
            lemma_to_add(inp, at);
            lemma_to_add(inp, n);
            if op is And || op is Or {
                lemma_to_compared(inp, at);
                lemma_to_compared(inp, n);
                if op is And {
                    assert(grammar::p_and_rest(inp, s2, x) == Parse::Read(x, s2));
                    assert(grammar::p_and_rest(inp, s, l) == Parse::Read(x, s2));
                    assert(grammar::p_and(inp, at) == Parse::Read(x, s2));
                    lemma_to_expr(inp, at);
                } else {
                    lemma_to_and(inp, at);
                    lemma_to_and(inp, n);
                    assert(grammar::p_or_rest(inp, s2, x) == Parse::Read(x, s2));
                    assert(grammar::p_or_rest(inp, s, l) == Parse::Read(x, s2));
                    assert(grammar::p_or(inp, at) == Parse::Read(x, s2));
                    assert(grammar::p_expr(inp, at) == grammar::p_or(inp, at));
                }
            } else {
                assert(grammar::p_cmp(inp, at) == Parse::Read(x, s2));
                lemma_to_and(inp, at);
                lemma_to_expr(inp, at);
            }
        }
    }
}

// ───────────────────────── expressions ─────────────────────────

/// How the tokens of an expression start.
pub(crate) proof fn lemma_starts(e: ExprV)
    requires
        readback::can_expr(e),
    ensures
        ({
            let k = readback::expr_toks(e);
            &&& k.len() > 0
            &&& k[0] is Str || k[0] is Num || k[0] is Duration || k[0] is Bytes || k[0] is Ident
                || k[0] is Bang || k[0] is Minus || k[0] is LParen || k[0] is CSource
            &&& k[0] is Ident && k.len() == 1 ==> e is Bool || (e matches ExprV::Var(parts)
                && parts.len() == 1)
            &&& k[0] is Ident && k.len() > 1 ==> !(k[1] is Eq) && !(k[1] is Semi)
            &&& k[0] is Str && k.len() > 1 ==> !(k[1] is Str)
        }),
    decreases e,
{
    reveal(readback::operand_toks);
    let k = readback::expr_toks(e);
    match e {
        ExprV::Var(parts) => {
            lemma_dotted_toks(parts, parts.len());
            assert(k[2 * 0int] is Ident);
            if parts.len() > 1 {
                assert(k[2 * 1int - 1] is Dot);
            }
        },
        ExprV::Call { target, args } => {
            let a = readback::dotted_toks(target, target.len());
            lemma_dotted_toks(target, target.len());
            assert(a[2 * 0int] is Ident);
            assert(k[0] == a[0]);
            if target.len() > 1 {
                assert(a[2 * 1int - 1] is Dot);
                assert(k[1] == a[1]);
            } else {
                assert(k[1] is LParen);
            }
        },
        ExprV::Binary { op, lhs, rhs } => {
            lemma_starts(*lhs);
            let a = readback::operand_toks(*lhs, readback::expr_toks(*lhs));
            let b = seq![readback::op_tok(op)] + readback::operand_toks(
                *rhs,
                readback::expr_toks(*rhs),
            );
            assert(k == a + b);
            assert(k[0] == a[0]);
            if a.len() > 1 {
                assert(k[1] == a[1]);
            } else {
                assert(k[1] == b[0]);
            }
        },
        _ => {},
    }
}

proof fn lemma_literal(inp: InputV, at: PlaceV, e: ExprV)
    requires
        readback::can_expr(e),
        e is Str || e is Num || e is Duration || e is Bytes || e is Bool || e is CSource,
        holds(inp, at.pos, readback::expr_toks(e)),
    ensures
        grammar::p_unary(inp, at) == Parse::Read(e, grammar::next(at)),
        readback::expr_toks(e).len() == 1,
        at.pos < inp.toks.len(),
{
    let k = readback::expr_toks(e);
    lemma_first(inp, at.pos, k);
    assert(grammar::tok(inp, at) == k[0]);
    assert(grammar::p_unary(inp, at) == grammar::p_primary(inp, at));
    match e {
        ExprV::Duration(d) => {
            words::lemma_time_digits(d);
            reveal_strlit("s");
            reveal_strlit("ms");
            assert("s"@.len() == 1 && "ms"@.len() == 2);
            assert(d.num * 1 == d.num);
            assert(crate::decimal::reduce(d.num, d.scale) == d);
        },
        ExprV::Bytes(n) => {
            words::lemma_whole_number(n as nat);
            assert(n as nat * 1 == n as nat);
            assert(crate::decimal::pow10(0) == 1);
            assert(n as nat / 1 == n as nat);
        },
        ExprV::Bool(_) => {
            reveal_strlit("true");
            reveal_strlit("false");
            assert("true"@.len() == 4 && "false"@.len() == 5);
        },
        _ => {},
    }
}

/// The tokens of an expression that is not binary stand for it.
proof fn lemma_simple(inp: InputV, at: PlaceV, e: ExprV)
    requires
        readback::can_expr(e),
        !(e is Binary),
        holds(inp, at.pos, readback::expr_toks(e)),
        ends_operand(kind_at(inp, at.pos + readback::expr_toks(e).len())),
    ensures
        at.pos < inp.toks.len(),
        readback::expr_toks(e).len() > 0,
        reads_expr(grammar::p_unary(inp, at), e, at.pos + readback::expr_toks(e).len()),
    decreases e, 0nat, 0nat,
{
    let k = readback::expr_toks(e);
    lemma_starts(e);
    lemma_first(inp, at.pos, k);
    match e {
        ExprV::Unary { op, expr } => {
            let t = match op {
                UnOp::Not => TokV::Bang,
                UnOp::Neg => TokV::Minus,
            };
            let operand = readback::operand_toks(*expr, readback::expr_toks(*expr));
            lemma_head(inp, at.pos, t, operand);
            lemma_operand(inp, grammar::next(at), *expr);
        },
        ExprV::Var(parts) => {
            lemma_dotted(inp, at, parts);
            assert(grammar::p_unary(inp, at) == grammar::p_primary(inp, at));
        },
        ExprV::Call { target, args } => {
            lemma_call(inp, at, target, args);
            assert(grammar::p_unary(inp, at) == grammar::p_primary(inp, at));
        },
        _ => lemma_literal(inp, at, e),
    }
}

/// The tokens of an operand stand for it.
proof fn lemma_operand(inp: InputV, at: PlaceV, e: ExprV)
    requires
        readback::can_expr(e),
        holds(inp, at.pos, readback::operand_toks(e, readback::expr_toks(e))),
        ends_operand(
            kind_at(inp, at.pos + readback::operand_toks(e, readback::expr_toks(e)).len()),
        ),
    ensures
        at.pos < inp.toks.len(),
        readback::operand_toks(e, readback::expr_toks(e)).len() > 0,
        reads_expr(
            grammar::p_unary(inp, at),
            e,
            at.pos + readback::operand_toks(e, readback::expr_toks(e)).len(),
        ),
    decreases e, 2nat, 0nat,
{
    reveal(readback::operand_toks);
    let k = readback::expr_toks(e);
    if e is Binary {
        let close = seq![TokV::RParen];
        assert(seq![TokV::LParen] + k + close =~= seq![TokV::LParen] + (k + close));
        lemma_head(inp, at.pos, TokV::LParen, k + close);
        lemma_split(inp, at.pos + 1, k, close);
        lemma_one(inp, at.pos + 1 + k.len(), TokV::RParen);
        lemma_expr(inp, grammar::next(at), e);
        assert(grammar::p_unary(inp, at) == grammar::p_primary(inp, at));
    } else {
        lemma_simple(inp, at, e);
    }
}

/// Whether arguments are read, up to places.
pub open spec fn reads_args(r: Parse<Seq<ArgV>>, args: Seq<ArgV>, pos: nat) -> bool {
    match r {
        Parse::Read(x, s) => layout::bare_args(x) == layout::bare_args(args) && s.pos == pos,
        Parse::Bad(_) => false,
    }
}

pub(crate) proof fn lemma_call(inp: InputV, at: PlaceV, target: Seq<Seq<char>>, args: Seq<ArgV>)
    requires
        target.len() > 0,
        readback::can_args(args),
        holds(
            inp,
            at.pos,
            readback::dotted_toks(target, target.len()) + readback::call_toks(args),
        ),
    ensures
        at.pos < inp.toks.len(),
        grammar::tok(inp, at) == TokV::Ident(target[0]),
        match grammar::p_dotted(inp, at) {
            Parse::Read(x, s) => x == target && s.pos == at.pos + readback::dotted_toks(
                target,
                target.len(),
            ).len() && s.pos > at.pos && grammar::tok(inp, s) is LParen && reads_args(
                grammar::p_call_args(inp, s),
                args,
                s.pos + readback::call_toks(args).len(),
            ),
            _ => false,
        },
    decreases args, 2nat, 0nat,
{
    let d = readback::dotted_toks(target, target.len());
    lemma_split(inp, at.pos, d, readback::call_toks(args));
    lemma_first(inp, at.pos + d.len(), readback::call_toks(args));
    lemma_dotted(inp, at, target);
    match grammar::p_dotted(inp, at) {
        Parse::Read(_, s) => lemma_call_args(inp, s, args),
        _ => {},
    }
}

/// The tokens of the first arguments stand at the start of those of all.
proof fn lemma_args_start(inp: InputV, pos: nat, args: Seq<ArgV>, i: nat, n: nat)
    requires
        i <= n <= args.len(),
        holds(inp, pos, readback::args_toks(args, n)),
    ensures
        holds(inp, pos, readback::args_toks(args, i)),
    decreases n,
{
    if i < n {
        if n == 1 {
            reveal(holds);
        } else {
            lemma_split(
                inp,
                pos,
                readback::args_toks(args, (n - 1) as nat),
                seq![TokV::Comma] + readback::arg_toks(args[n - 1]),
            );
            lemma_args_start(inp, pos, args, i, (n - 1) as nat);
        }
    }
}

/// Where the tokens of argument `i` start, counted from the first.
spec fn arg_start(args: Seq<ArgV>, i: nat) -> nat {
    if i == 0 {
        0
    } else {
        readback::args_toks(args, i).len() + 1
    }
}

proof fn lemma_arg_place(inp: InputV, pos: nat, args: Seq<ArgV>, i: nat)
    requires
        i < args.len(),
        holds(inp, pos, readback::args_toks(args, args.len())),
    ensures
        holds(inp, pos + arg_start(args, i), readback::arg_toks(args[i as int])),
        arg_start(args, i) + readback::arg_toks(args[i as int]).len() == readback::args_toks(
            args,
            i + 1,
        ).len(),
        i > 0 ==> kind_at(inp, pos + readback::args_toks(args, i).len()) is Comma,
{
    lemma_args_start(inp, pos, args, i + 1, args.len());
    if i > 0 {
        let a = readback::args_toks(args, i);
        let b = readback::arg_toks(args[i as int]);
        lemma_split(inp, pos, a, seq![TokV::Comma] + b);
        lemma_head(inp, pos + a.len(), TokV::Comma, b);
    }
}

#[verifier::rlimit(20)]
proof fn lemma_arg(inp: InputV, at: PlaceV, a: ArgV)
    requires
        readback::can_arg(a),
        holds(inp, at.pos, readback::arg_toks(a)),
        ({
            let t = kind_at(inp, at.pos + readback::arg_toks(a).len());
            t is Comma || t is RParen
        }),
    ensures
        at.pos < inp.toks.len(),
        readback::arg_toks(a).len() > 0,
        !(grammar::tok(inp, at) is RParen),
        match grammar::p_arg(inp, at) {
            Parse::Read(x, s) => layout::bare_arg(x) == layout::bare_arg(a) && s.pos == at.pos
                + readback::arg_toks(a).len(),
            _ => false,
        },
    decreases a, 1nat, 0nat,
{
    let k = readback::expr_toks(a.value);
    lemma_starts(a.value);
    lemma_first(inp, at.pos, readback::arg_toks(a));
    match a.name {
        Some(n) => {
            assert(seq![TokV::Ident(n), TokV::Eq] + k =~= seq![TokV::Ident(n)] + (seq![TokV::Eq]
                + k));
            lemma_head(inp, at.pos, TokV::Ident(n), seq![TokV::Eq] + k);
            lemma_head(inp, at.pos + 1, TokV::Eq, k);
            lemma_first(inp, at.pos + 2, k);
            lemma_expr(inp, grammar::next(grammar::next(at)), a.value);
        },
        None => {
            lemma_expr(inp, at, a.value);
        },
    }
}

#[verifier::spinoff_prover]
#[verifier::rlimit(100)]
proof fn lemma_arg_list(
    inp: InputV,
    at: PlaceV,
    pos: nat,
    args: Seq<ArgV>,
    i: nat,
    prev: Option<Span>,
    done: Seq<ArgV>,
)
    requires
        readback::can_args(args),
        i < args.len(),
        holds(inp, pos, readback::args_toks(args, args.len())),
        kind_at(inp, pos + readback::args_toks(args, args.len()).len()) is RParen,
        at.pos == pos + arg_start(args, i),
        done.len() == i,
        forall|j: int|
            0 <= j < i ==> layout::bare_arg(#[trigger] done[j]) == layout::bare_arg(args[j]),
    ensures
        !(grammar::tok(inp, at) is RParen),
        reads_args(
            grammar::p_arg_list(inp, at, prev, done),
            args,
            pos + readback::args_toks(args, args.len()).len(),
        ),
    decreases args, 1nat, args.len() - i,
{
    let a = args[i as int];
    assert(readback::can_arg(a));
    lemma_arg_place(inp, pos, args, i);
    if i + 1 < args.len() {
        lemma_arg_place(inp, pos, args, i + 1);
    }
    let g = grammar::gap_before(inp, at, prev);
    parsing::lemma_gap_before(inp, at, prev);
    lemma_arg(inp, g, a);
    assert(grammar::tok(inp, g) == grammar::tok(inp, at));
    match grammar::p_arg(inp, g) {
        Parse::Read(x, s) => {
            let more = done.push(x);
            assert forall|j: int| 0 <= j < i + 1 implies layout::bare_arg(#[trigger] more[j])
                == layout::bare_arg(args[j]) by {
                if j < i {
                    assert(more[j] == done[j]);
                }
            }
            if i + 1 < args.len() {
                lemma_arg_list(inp, grammar::next(s), pos, args, i + 1, Some(x.span), more);
            } else {
                parsing::lemma_finish_gap(inp, s, Some(x.span), grammar::here(inp, s).lo);
                assert(layout::bare_args(more) =~= layout::bare_args(args));
            }
        },
        _ => {},
    }
}

/// The tokens of arguments in parentheses stand for them.
pub(crate) proof fn lemma_call_args(inp: InputV, at: PlaceV, args: Seq<ArgV>)
    requires
        readback::can_args(args),
        holds(inp, at.pos, readback::call_toks(args)),
    ensures
        at.pos < inp.toks.len(),
        grammar::tok(inp, at) is LParen,
        reads_args(
            grammar::p_call_args(inp, at),
            args,
            at.pos + readback::call_toks(args).len(),
        ),
    decreases args, 1nat, args.len() + 1,
{
    let k = readback::args_toks(args, args.len());
    let close = seq![TokV::RParen];
    lemma_head(inp, at.pos, TokV::LParen, k + close);
    lemma_split(inp, at.pos + 1, k, close);
    lemma_one(inp, at.pos + 1 + k.len(), TokV::RParen);
    if args.len() == 0 {
        assert(layout::bare_args(seq![]) =~= layout::bare_args(args));
    } else {
        lemma_arg_list(inp, grammar::next(at), at.pos + 1, args, 0, None, seq![]);
    }
}

/// The tokens of an expression stand for it.
pub(crate) proof fn lemma_expr(inp: InputV, at: PlaceV, e: ExprV)
    requires
        readback::can_expr(e),
        holds(inp, at.pos, readback::expr_toks(e)),
        ends_expr(kind_at(inp, at.pos + readback::expr_toks(e).len())),
    ensures
        at.pos < inp.toks.len(),
        reads_expr(grammar::p_expr(inp, at), e, at.pos + readback::expr_toks(e).len()),
    decreases e, 1nat, 0nat,
{
    lemma_starts(e);
    lemma_first(inp, at.pos, readback::expr_toks(e));
    match e {
        ExprV::Binary { op, lhs, rhs } => {
            let a = readback::operand_toks(*lhs, readback::expr_toks(*lhs));
            let b = readback::operand_toks(*rhs, readback::expr_toks(*rhs));
            let t = readback::op_tok(op);
            lemma_split(inp, at.pos, a, seq![t] + b);
            lemma_head(inp, at.pos + a.len(), t, b);
            lemma_operand(inp, at, *lhs);
            match grammar::p_unary(inp, at) {
                Parse::Read(l, s) => {
                    let n = grammar::next(s);
                    lemma_operand(inp, n, *rhs);
                    match grammar::p_unary(inp, n) {
                        Parse::Read(r, s2) => {
                            lemma_joins(inp, at, op, l, s, r, s2);
                        },
                        _ => {},
                    }
                },
                _ => {},
            }
        },
        _ => {
            lemma_simple(inp, at, e);
            lemma_climb(inp, at);
        },
    }
}

/// An expression in parentheses stands for itself.
pub(crate) proof fn lemma_in_parentheses(inp: InputV, at: PlaceV, e: ExprV)
    requires
        readback::can_expr(e),
        holds(
            inp,
            at.pos,
            seq![TokV::LParen] + (readback::expr_toks(e) + seq![TokV::RParen]),
        ),
        ends_expr(kind_at(inp, at.pos + readback::expr_toks(e).len() + 2)),
    ensures
        at.pos < inp.toks.len(),
        grammar::tok(inp, at) is LParen,
        reads_expr(grammar::p_expr(inp, at), e, at.pos + readback::expr_toks(e).len() + 2),
{
    let k = readback::expr_toks(e);
    let close = seq![TokV::RParen];
    lemma_head(inp, at.pos, TokV::LParen, k + close);
    lemma_split(inp, at.pos + 1, k, close);
    lemma_one(inp, at.pos + 1 + k.len(), TokV::RParen);
    lemma_expr(inp, grammar::next(at), e);
    assert(grammar::p_unary(inp, at) == grammar::p_primary(inp, at));
    lemma_climb(inp, at);
}

} // verus!
