//! What a program says does not depend on where its tokens stand: streams with
//! the same tokens stand for the same bare program.

use crate::ast;
use crate::ast::{
    AclEntryV, ArgV, ArmV, DeclV, ErrV, ExprV, FieldV, FieldValueV, ProgramV, ReturnActionV, Span,
    StmtV,
};
use crate::grammar;
use crate::grammar::{InputV, Parse, PlaceV};
use crate::layout;
use crate::lexer::TokV;
use vstd::prelude::*;

verus! {

/// Whether two streams hold the same tokens, wherever these stand.
pub open spec fn same_tokens(a: InputV, b: InputV) -> bool {
    &&& a.toks.len() == b.toks.len()
    &&& forall|i: int| 0 <= i < a.toks.len() ==> (#[trigger] a.toks[i]).tok == b.toks[i].tok
}

/// Whether the tokens of the first stream are those of the second one without
/// its first `k`.
pub open spec fn tokens_behind(a: InputV, b: InputV, k: nat) -> bool {
    &&& a.toks.len() + k == b.toks.len()
    &&& forall|i: int| 0 <= i < a.toks.len() ==> (#[trigger] a.toks[i]).tok == b.toks[i + k].tok
}

/// Whether two readings agree in all but their places.
spec fn alike<T>(x: Parse<T>, y: Parse<T>, k: nat) -> bool {
    match (x, y) {
        (Parse::Read(v, s), Parse::Read(w, t)) => v == w && t.pos == s.pos + k,
        (Parse::Bad(e), Parse::Bad(f)) => e.msg == f.msg,
        _ => false,
    }
}

/// Whether two places stand before the same token.
spec fn level<T, U>(x: Parse<T>, y: Parse<U>, k: nat) -> bool {
    match (x, y) {
        (Parse::Read(_, s), Parse::Read(_, t)) => t.pos == s.pos + k,
        (Parse::Bad(e), Parse::Bad(f)) => e.msg == f.msg,
        _ => false,
    }
}

spec fn like_expr(x: Parse<ExprV>, y: Parse<ExprV>, k: nat) -> bool {
    match (x, y) {
        (Parse::Read(v, s), Parse::Read(w, t)) => {
            &&& layout::bare_expr(v) == layout::bare_expr(w)
            &&& t.pos == s.pos + k
        },
        (Parse::Bad(e), Parse::Bad(f)) => e.msg == f.msg,
        _ => false,
    }
}

spec fn like_exprs(x: Parse<Seq<ExprV>>, y: Parse<Seq<ExprV>>, k: nat) -> bool {
    match (x, y) {
        (Parse::Read(v, s), Parse::Read(w, t)) => {
            &&& layout::bare_exprs(v) == layout::bare_exprs(w)
            &&& t.pos == s.pos + k
        },
        (Parse::Bad(e), Parse::Bad(f)) => e.msg == f.msg,
        _ => false,
    }
}

spec fn like_arg(x: Parse<ArgV>, y: Parse<ArgV>, k: nat) -> bool {
    match (x, y) {
        (Parse::Read(v, s), Parse::Read(w, t)) => {
            &&& layout::bare_arg(v) == layout::bare_arg(w)
            &&& t.pos == s.pos + k
        },
        (Parse::Bad(e), Parse::Bad(f)) => e.msg == f.msg,
        _ => false,
    }
}

spec fn like_args(x: Parse<Seq<ArgV>>, y: Parse<Seq<ArgV>>, k: nat) -> bool {
    match (x, y) {
        (Parse::Read(v, s), Parse::Read(w, t)) => {
            &&& layout::bare_args(v) == layout::bare_args(w)
            &&& t.pos == s.pos + k
        },
        (Parse::Bad(e), Parse::Bad(f)) => e.msg == f.msg,
        _ => false,
    }
}

spec fn like_stmt(x: Parse<StmtV>, y: Parse<StmtV>, k: nat) -> bool {
    match (x, y) {
        (Parse::Read(v, s), Parse::Read(w, t)) => {
            &&& layout::bare_stmt(v) == layout::bare_stmt(w)
            &&& t.pos == s.pos + k
        },
        (Parse::Bad(e), Parse::Bad(f)) => e.msg == f.msg,
        _ => false,
    }
}

spec fn like_stmts(x: Parse<Seq<StmtV>>, y: Parse<Seq<StmtV>>, k: nat) -> bool {
    match (x, y) {
        (Parse::Read(v, s), Parse::Read(w, t)) => {
            &&& layout::bare_stmts(v) == layout::bare_stmts(w)
            &&& t.pos == s.pos + k
        },
        (Parse::Bad(e), Parse::Bad(f)) => e.msg == f.msg,
        _ => false,
    }
}

spec fn like_arm(x: Parse<ArmV>, y: Parse<ArmV>, k: nat) -> bool {
    match (x, y) {
        (Parse::Read(v, s), Parse::Read(w, t)) => {
            &&& layout::bare_arm(v) == layout::bare_arm(w)
            &&& t.pos == s.pos + k
        },
        (Parse::Bad(e), Parse::Bad(f)) => e.msg == f.msg,
        _ => false,
    }
}

spec fn like_action(x: Parse<ReturnActionV>, y: Parse<ReturnActionV>, k: nat) -> bool {
    match (x, y) {
        (Parse::Read(v, s), Parse::Read(w, t)) => {
            &&& layout::bare_action(v) == layout::bare_action(w)
            &&& t.pos == s.pos + k
        },
        (Parse::Bad(e), Parse::Bad(f)) => e.msg == f.msg,
        _ => false,
    }
}

spec fn like_field(x: Parse<FieldV>, y: Parse<FieldV>, k: nat) -> bool {
    match (x, y) {
        (Parse::Read(v, s), Parse::Read(w, t)) => {
            &&& layout::bare_field(v) == layout::bare_field(w)
            &&& t.pos == s.pos + k
        },
        (Parse::Bad(e), Parse::Bad(f)) => e.msg == f.msg,
        _ => false,
    }
}

spec fn like_fields(x: Parse<Seq<FieldV>>, y: Parse<Seq<FieldV>>, k: nat) -> bool {
    match (x, y) {
        (Parse::Read(v, s), Parse::Read(w, t)) => {
            &&& layout::bare_fields(v) == layout::bare_fields(w)
            &&& t.pos == s.pos + k
        },
        (Parse::Bad(e), Parse::Bad(f)) => e.msg == f.msg,
        _ => false,
    }
}

spec fn like_value(x: Parse<FieldValueV>, y: Parse<FieldValueV>, k: nat) -> bool {
    match (x, y) {
        (Parse::Read(v, s), Parse::Read(w, t)) => {
            &&& layout::bare_value(v) == layout::bare_value(w)
            &&& t.pos == s.pos + k
        },
        (Parse::Bad(e), Parse::Bad(f)) => e.msg == f.msg,
        _ => false,
    }
}

spec fn like_entry(x: Parse<AclEntryV>, y: Parse<AclEntryV>, k: nat) -> bool {
    match (x, y) {
        (Parse::Read(v, s), Parse::Read(w, t)) => {
            &&& layout::bare_entry(v) == layout::bare_entry(w)
            &&& t.pos == s.pos + k
        },
        (Parse::Bad(e), Parse::Bad(f)) => e.msg == f.msg,
        _ => false,
    }
}

spec fn like_entries(x: Parse<Seq<AclEntryV>>, y: Parse<Seq<AclEntryV>>, k: nat) -> bool {
    match (x, y) {
        (Parse::Read(v, s), Parse::Read(w, t)) => {
            &&& layout::bare_entries(v) == layout::bare_entries(w)
            &&& t.pos == s.pos + k
        },
        (Parse::Bad(e), Parse::Bad(f)) => e.msg == f.msg,
        _ => false,
    }
}

spec fn like_decl(x: Parse<DeclV>, y: Parse<DeclV>, k: nat) -> bool {
    match (x, y) {
        (Parse::Read(v, s), Parse::Read(w, t)) => {
            &&& layout::bare_decl(v) == layout::bare_decl(w)
            &&& t.pos == s.pos + k
        },
        (Parse::Bad(e), Parse::Bad(f)) => e.msg == f.msg,
        _ => false,
    }
}

pub(crate) proof fn lemma_gap_before(inp: InputV, at: PlaceV, prev: Option<Span>)
    ensures
        grammar::gap_before(inp, at, prev).pos == at.pos,
{
    reveal(grammar::gap_before);
    reveal(grammar::gap);
}

pub(crate) proof fn lemma_finish_gap(inp: InputV, at: PlaceV, prev: Option<Span>, lo: u32)
    ensures
        grammar::finish_gap(inp, at, prev, lo).pos == at.pos,
{
    reveal(grammar::finish_gap);
    reveal(grammar::gap);
}

#[verifier::spinoff_prover]
#[verifier::rlimit(60)]
proof fn lemma_dotted_rest(a: InputV, b: InputV, s: PlaceV, t: PlaceV, parts: Seq<Seq<char>>, k: nat)
    requires
        tokens_behind(a, b, k),
        t.pos == s.pos + k,
    ensures
        alike(grammar::p_dotted_rest(a, s, parts), grammar::p_dotted_rest(b, t, parts), k),
    decreases grammar::left(a, s),
{
    reveal_with_fuel(grammar::p_dotted_rest, 2);
    if grammar::tok(a, s) is Dot {
        match grammar::p_ident(a, grammar::next(s)) {
            Parse::Read(n, s1) => {
                let t1 = grammar::next(grammar::next(t));
                lemma_dotted_rest(a, b, s1, t1, parts.push(n), k);
            },
            _ => {},
        }
    }
}

#[verifier::spinoff_prover]
#[verifier::rlimit(60)]
proof fn lemma_dotted(a: InputV, b: InputV, s: PlaceV, t: PlaceV, k: nat)
    requires
        tokens_behind(a, b, k),
        t.pos == s.pos + k,
    ensures
        alike(grammar::p_dotted(a, s), grammar::p_dotted(b, t), k),
{
    reveal(grammar::p_dotted);
    match grammar::p_ident(a, s) {
        Parse::Read(n, s1) => lemma_dotted_rest(a, b, s1, grammar::next(t), seq![n], k),
        _ => {},
    }
}

#[verifier::spinoff_prover]
#[verifier::rlimit(60)]
proof fn lemma_expr(a: InputV, b: InputV, s: PlaceV, t: PlaceV, k: nat)
    requires
        tokens_behind(a, b, k),
        t.pos == s.pos + k,
    ensures
        like_expr(grammar::p_expr(a, s), grammar::p_expr(b, t), k),
    decreases grammar::left(a, s), 8nat,
{
    lemma_or(a, b, s, t, k);
}

#[verifier::spinoff_prover]
#[verifier::rlimit(60)]
proof fn lemma_or(a: InputV, b: InputV, s: PlaceV, t: PlaceV, k: nat)
    requires
        tokens_behind(a, b, k),
        t.pos == s.pos + k,
    ensures
        like_expr(grammar::p_or(a, s), grammar::p_or(b, t), k),
    decreases grammar::left(a, s), 7nat,
{
    lemma_and(a, b, s, t, k);
    match (grammar::p_and(a, s), grammar::p_and(b, t)) {
        (Parse::Read(l, s1), Parse::Read(m, t1)) => if grammar::moved(a, s, s1) {
            lemma_or_rest(a, b, s1, t1, l, m, k);
        },
        _ => {},
    }
}

#[verifier::spinoff_prover]
#[verifier::rlimit(60)]
proof fn lemma_or_rest(a: InputV, b: InputV, s: PlaceV, t: PlaceV, l: ExprV, m: ExprV, k: nat)
    requires
        tokens_behind(a, b, k),
        t.pos == s.pos + k,
        layout::bare_expr(l) == layout::bare_expr(m),
    ensures
        like_expr(grammar::p_or_rest(a, s, l), grammar::p_or_rest(b, t, m), k),
    decreases grammar::left(a, s), 7nat,
{
    if grammar::tok(a, s) is OrOr {
        let s0 = grammar::next(s);
        let t0 = grammar::next(t);
        lemma_and(a, b, s0, t0, k);
        match (grammar::p_and(a, s0), grammar::p_and(b, t0)) {
            (Parse::Read(x, s1), Parse::Read(y, t1)) => if grammar::moved(a, s, s1) {
                lemma_or_rest(
                    a,
                    b,
                    s1,
                    t1,
                    grammar::binary(crate::ast::BinOp::Or, l, x),
                    grammar::binary(crate::ast::BinOp::Or, m, y),
                    k,
                );
            },
            _ => {},
        }
    }
}

#[verifier::spinoff_prover]
#[verifier::rlimit(60)]
proof fn lemma_and(a: InputV, b: InputV, s: PlaceV, t: PlaceV, k: nat)
    requires
        tokens_behind(a, b, k),
        t.pos == s.pos + k,
    ensures
        like_expr(grammar::p_and(a, s), grammar::p_and(b, t), k),
    decreases grammar::left(a, s), 6nat,
{
    lemma_cmp(a, b, s, t, k);
    match (grammar::p_cmp(a, s), grammar::p_cmp(b, t)) {
        (Parse::Read(l, s1), Parse::Read(m, t1)) => if grammar::moved(a, s, s1) {
            lemma_and_rest(a, b, s1, t1, l, m, k);
        },
        _ => {},
    }
}

#[verifier::spinoff_prover]
#[verifier::rlimit(60)]
proof fn lemma_and_rest(a: InputV, b: InputV, s: PlaceV, t: PlaceV, l: ExprV, m: ExprV, k: nat)
    requires
        tokens_behind(a, b, k),
        t.pos == s.pos + k,
        layout::bare_expr(l) == layout::bare_expr(m),
    ensures
        like_expr(grammar::p_and_rest(a, s, l), grammar::p_and_rest(b, t, m), k),
    decreases grammar::left(a, s), 6nat,
{
    if grammar::tok(a, s) is AndAnd {
        let s0 = grammar::next(s);
        let t0 = grammar::next(t);
        lemma_cmp(a, b, s0, t0, k);
        match (grammar::p_cmp(a, s0), grammar::p_cmp(b, t0)) {
            (Parse::Read(x, s1), Parse::Read(y, t1)) => if grammar::moved(a, s, s1) {
                lemma_and_rest(
                    a,
                    b,
                    s1,
                    t1,
                    grammar::binary(crate::ast::BinOp::And, l, x),
                    grammar::binary(crate::ast::BinOp::And, m, y),
                    k,
                );
            },
            _ => {},
        }
    }
}

#[verifier::spinoff_prover]
#[verifier::rlimit(60)]
proof fn lemma_cmp(a: InputV, b: InputV, s: PlaceV, t: PlaceV, k: nat)
    requires
        tokens_behind(a, b, k),
        t.pos == s.pos + k,
    ensures
        like_expr(grammar::p_cmp(a, s), grammar::p_cmp(b, t), k),
    decreases grammar::left(a, s), 5nat,
{
    lemma_add(a, b, s, t, k);
    match (grammar::p_add(a, s), grammar::p_add(b, t)) {
        (Parse::Read(l, s1), Parse::Read(m, t1)) => {
            let (s2, t2) = (grammar::next(s1), grammar::next(t1));
            lemma_same_tok(a, b, s1, t1, k);
            if grammar::moved(a, s, s2) {
                lemma_add(a, b, s2, t2, k);
                match (grammar::p_add(a, s2), grammar::p_add(b, t2)) {
                    (Parse::Read(_, s3), Parse::Read(_, t3)) => lemma_same_tok(a, b, s3, t3, k),
                    _ => {},
                }
            }
        },
        _ => {},
    }
}

#[verifier::spinoff_prover]
#[verifier::rlimit(60)]
proof fn lemma_add(a: InputV, b: InputV, s: PlaceV, t: PlaceV, k: nat)
    requires
        tokens_behind(a, b, k),
        t.pos == s.pos + k,
    ensures
        like_expr(grammar::p_add(a, s), grammar::p_add(b, t), k),
    decreases grammar::left(a, s), 4nat,
{
    lemma_mul(a, b, s, t, k);
    match (grammar::p_mul(a, s), grammar::p_mul(b, t)) {
        (Parse::Read(l, s1), Parse::Read(m, t1)) => if grammar::moved(a, s, s1) {
            lemma_add_rest(a, b, s1, t1, l, m, k);
        },
        _ => {},
    }
}

#[verifier::spinoff_prover]
#[verifier::rlimit(60)]
proof fn lemma_add_rest(a: InputV, b: InputV, s: PlaceV, t: PlaceV, l: ExprV, m: ExprV, k: nat)
    requires
        tokens_behind(a, b, k),
        t.pos == s.pos + k,
        layout::bare_expr(l) == layout::bare_expr(m),
    ensures
        like_expr(grammar::p_add_rest(a, s, l), grammar::p_add_rest(b, t, m), k),
    decreases grammar::left(a, s), 4nat,
{
    if grammar::sum_op(grammar::tok(a, s)) is Some {
        let s0 = grammar::next(s);
        let t0 = grammar::next(t);
        lemma_mul(a, b, s0, t0, k);
        match (grammar::p_mul(a, s0), grammar::p_mul(b, t0)) {
            (Parse::Read(x, s1), Parse::Read(y, t1)) => if grammar::moved(a, s, s1) {
                lemma_add_rest(
                    a,
                    b,
                    s1,
                    t1,
                    grammar::binary(grammar::sum_op(grammar::tok(a, s))->0, l, x),
                    grammar::binary(grammar::sum_op(grammar::tok(a, s))->0, m, y),
                    k,
                );
            },
            _ => {},
        }
    }
}

#[verifier::spinoff_prover]
#[verifier::rlimit(60)]
proof fn lemma_mul(a: InputV, b: InputV, s: PlaceV, t: PlaceV, k: nat)
    requires
        tokens_behind(a, b, k),
        t.pos == s.pos + k,
    ensures
        like_expr(grammar::p_mul(a, s), grammar::p_mul(b, t), k),
    decreases grammar::left(a, s), 3nat,
{
    lemma_unary(a, b, s, t, k);
    match (grammar::p_unary(a, s), grammar::p_unary(b, t)) {
        (Parse::Read(l, s1), Parse::Read(m, t1)) => if grammar::moved(a, s, s1) {
            lemma_mul_rest(a, b, s1, t1, l, m, k);
        },
        _ => {},
    }
}

#[verifier::spinoff_prover]
#[verifier::rlimit(60)]
proof fn lemma_mul_rest(a: InputV, b: InputV, s: PlaceV, t: PlaceV, l: ExprV, m: ExprV, k: nat)
    requires
        tokens_behind(a, b, k),
        t.pos == s.pos + k,
        layout::bare_expr(l) == layout::bare_expr(m),
    ensures
        like_expr(grammar::p_mul_rest(a, s, l), grammar::p_mul_rest(b, t, m), k),
    decreases grammar::left(a, s), 3nat,
{
    if grammar::product_op(grammar::tok(a, s)) is Some {
        let s0 = grammar::next(s);
        let t0 = grammar::next(t);
        lemma_unary(a, b, s0, t0, k);
        match (grammar::p_unary(a, s0), grammar::p_unary(b, t0)) {
            (Parse::Read(x, s1), Parse::Read(y, t1)) => if grammar::moved(a, s, s1) {
                lemma_mul_rest(
                    a,
                    b,
                    s1,
                    t1,
                    grammar::binary(grammar::product_op(grammar::tok(a, s))->0, l, x),
                    grammar::binary(grammar::product_op(grammar::tok(a, s))->0, m, y),
                    k,
                );
            },
            _ => {},
        }
    }
}

#[verifier::spinoff_prover]
#[verifier::rlimit(60)]
proof fn lemma_unary(a: InputV, b: InputV, s: PlaceV, t: PlaceV, k: nat)
    requires
        tokens_behind(a, b, k),
        t.pos == s.pos + k,
    ensures
        like_expr(grammar::p_unary(a, s), grammar::p_unary(b, t), k),
    decreases grammar::left(a, s), 2nat,
{
    if grammar::unary_op(grammar::tok(a, s)) is Some {
        lemma_unary(a, b, grammar::next(s), grammar::next(t), k);
    } else {
        lemma_primary(a, b, s, t, k);
    }
}

#[verifier::spinoff_prover]
#[verifier::rlimit(100)]
proof fn lemma_primary(a: InputV, b: InputV, s: PlaceV, t: PlaceV, k: nat)
    requires
        tokens_behind(a, b, k),
        t.pos == s.pos + k,
    ensures
        like_expr(grammar::p_primary(a, s), grammar::p_primary(b, t), k),
    decreases grammar::left(a, s), 1nat,
{
    match grammar::tok(a, s) {
        TokV::LParen => {
            lemma_expr(a, b, grammar::next(s), grammar::next(t), k);
        },
        TokV::Ident(_) => {
            lemma_dotted(a, b, s, t, k);
            match (grammar::p_dotted(a, s), grammar::p_dotted(b, t)) {
                (Parse::Read(_, s1), Parse::Read(_, t1)) => if grammar::moved(a, s, s1) {
                    lemma_call_args(a, b, s1, t1, k);
                },
                _ => {},
            }
        },
        _ => {},
    }
}

#[verifier::spinoff_prover]
#[verifier::rlimit(60)]
proof fn lemma_call_args(a: InputV, b: InputV, s: PlaceV, t: PlaceV, k: nat)
    requires
        tokens_behind(a, b, k),
        t.pos == s.pos + k,
    ensures
        like_args(grammar::p_call_args(a, s), grammar::p_call_args(b, t), k),
    decreases grammar::left(a, s), 12nat,
{
    if grammar::tok(a, s) is LParen {
        lemma_arg_list(a, b, grammar::next(s), grammar::next(t), None, None, seq![], seq![], k);
    }
}

#[verifier::spinoff_prover]
#[verifier::rlimit(60)]
proof fn lemma_arg_list(
    a: InputV,
    b: InputV,
    s: PlaceV,
    t: PlaceV,
    prev_a: Option<Span>,
    prev_b: Option<Span>,
    done_a: Seq<ArgV>,
    done_b: Seq<ArgV>,
    k: nat,
)
    requires
        tokens_behind(a, b, k),
        t.pos == s.pos + k,
        layout::bare_args(done_a) == layout::bare_args(done_b),
    ensures
        like_args(
            grammar::p_arg_list(a, s, prev_a, done_a),
            grammar::p_arg_list(b, t, prev_b, done_b),
            k,
        ),
    decreases grammar::left(a, s), 11nat,
{
    lemma_gap_before(a, s, prev_a);
    lemma_gap_before(b, t, prev_b);
    let s0 = grammar::gap_before(a, s, prev_a);
    let t0 = grammar::gap_before(b, t, prev_b);
    lemma_arg(a, b, s0, t0, k);
    match (grammar::p_arg(a, s0), grammar::p_arg(b, t0)) {
        (Parse::Read(x, s1), Parse::Read(y, t1)) => {
            layout::lemma_push_args(done_a, x);
            layout::lemma_push_args(done_b, y);
            if grammar::tok(a, s1) is Comma {
                let s2 = grammar::next(s1);
                if grammar::moved(a, s, s2) {
                    lemma_arg_list(
                        a,
                        b,
                        s2,
                        grammar::next(t1),
                        Some(x.span),
                        Some(y.span),
                        done_a.push(x),
                        done_b.push(y),
                        k,
                    );
                }
            } else {
                lemma_finish_gap(a, s1, Some(x.span), grammar::here(a, s1).lo);
                lemma_finish_gap(b, t1, Some(y.span), grammar::here(b, t1).lo);
            }
        },
        _ => {},
    }
}

#[verifier::spinoff_prover]
#[verifier::rlimit(100)]
proof fn lemma_arg(a: InputV, b: InputV, s: PlaceV, t: PlaceV, k: nat)
    requires
        tokens_behind(a, b, k),
        t.pos == s.pos + k,
    ensures
        like_arg(grammar::p_arg(a, s), grammar::p_arg(b, t), k),
    decreases grammar::left(a, s), 10nat,
{
    let (s1, t1) = (grammar::next(s), grammar::next(t));
    let (s2, t2) = (grammar::next(s1), grammar::next(t1));
    lemma_same_tok(a, b, s, t, k);
    lemma_same_tok(a, b, s1, t1, k);
    lemma_same_tok(a, b, s2, t2, k);
    assert(grammar::tok_at(a, s, 1) == grammar::tok(a, s1));
    assert(grammar::tok_at(b, t, 1) == grammar::tok(b, t1));
    assert(grammar::tok_at(a, s, 2) == grammar::tok(a, s2));
    assert(grammar::tok_at(b, t, 2) == grammar::tok(b, t2));
    let named = grammar::tok(a, s) is Ident && grammar::tok_at(a, s, 1) is Eq && !(
    grammar::tok_at(a, s, 2) is EqEq);
    if named {
        lemma_expr(a, b, s2, t2, k);
    } else {
        lemma_expr(a, b, s, t, k);
    }
}

#[verifier::spinoff_prover]
#[verifier::rlimit(60)]
proof fn lemma_expr_list(
    a: InputV,
    b: InputV,
    s: PlaceV,
    t: PlaceV,
    done_a: Seq<ExprV>,
    done_b: Seq<ExprV>,
    k: nat,
)
    requires
        tokens_behind(a, b, k),
        t.pos == s.pos + k,
        layout::bare_exprs(done_a) == layout::bare_exprs(done_b),
    ensures
        like_exprs(grammar::p_expr_list(a, s, done_a), grammar::p_expr_list(b, t, done_b), k),
    decreases grammar::left(a, s), 9nat,
{
    lemma_expr(a, b, s, t, k);
    match (grammar::p_expr(a, s), grammar::p_expr(b, t)) {
        (Parse::Read(x, s1), Parse::Read(y, t1)) => {
            layout::lemma_push_exprs(done_a, x);
            layout::lemma_push_exprs(done_b, y);
            let s2 = grammar::next(s1);
            if grammar::tok(a, s1) is Comma && grammar::moved(a, s, s2) {
                lemma_expr_list(a, b, s2, grammar::next(t1), done_a.push(x), done_b.push(y), k);
            }
        },
        _ => {},
    }
}

// ───────────────────────── statements ─────────────────────────

#[verifier::spinoff_prover]
#[verifier::rlimit(60)]
proof fn lemma_block(
    a: InputV,
    b: InputV,
    s: PlaceV,
    t: PlaceV,
    prev_a: Option<Span>,
    prev_b: Option<Span>,
    k: nat,
)
    requires
        tokens_behind(a, b, k),
        t.pos == s.pos + k,
    ensures
        like_stmts(grammar::p_block(a, s, prev_a), grammar::p_block(b, t, prev_b), k),
    decreases grammar::left(a, s), 22nat,
{
    if grammar::tok(a, s) is LBrace {
        lemma_stmts(a, b, grammar::next(s), grammar::next(t), prev_a, prev_b, seq![], seq![], k);
    }
}

#[verifier::spinoff_prover]
#[verifier::rlimit(60)]
proof fn lemma_stmts(
    a: InputV,
    b: InputV,
    s: PlaceV,
    t: PlaceV,
    prev_a: Option<Span>,
    prev_b: Option<Span>,
    done_a: Seq<StmtV>,
    done_b: Seq<StmtV>,
    k: nat,
)
    requires
        tokens_behind(a, b, k),
        t.pos == s.pos + k,
        layout::bare_stmts(done_a) == layout::bare_stmts(done_b),
    ensures
        like_stmts(
            grammar::p_stmts(a, s, prev_a, done_a),
            grammar::p_stmts(b, t, prev_b, done_b),
            k,
        ),
    decreases grammar::left(a, s), 21nat,
{
    match grammar::tok(a, s) {
        TokV::RBrace => {
            lemma_finish_gap(a, grammar::next(s), prev_a, grammar::here(a, s).lo);
            lemma_finish_gap(b, grammar::next(t), prev_b, grammar::here(b, t).lo);
        },
        TokV::Eof => {},
        _ => {
            lemma_gap_before(a, s, prev_a);
            lemma_gap_before(b, t, prev_b);
            let s0 = grammar::gap_before(a, s, prev_a);
            let t0 = grammar::gap_before(b, t, prev_b);
            lemma_stmt(a, b, s0, t0, k);
            match (grammar::p_stmt(a, s0), grammar::p_stmt(b, t0)) {
                (Parse::Read(x, s1), Parse::Read(y, t1)) => if grammar::moved(a, s, s1) {
                    layout::lemma_push_stmts(done_a, x);
                    layout::lemma_push_stmts(done_b, y);
                    lemma_stmts(
                        a,
                        b,
                        s1,
                        t1,
                        Some(ast::stmt_span(x)),
                        Some(ast::stmt_span(y)),
                        done_a.push(x),
                        done_b.push(y),
                        k,
                    );
                },
                _ => {},
            }
        },
    }
}

#[verifier::spinoff_prover]
#[verifier::rlimit(60)]
proof fn lemma_stmt(a: InputV, b: InputV, s: PlaceV, t: PlaceV, k: nat)
    requires
        tokens_behind(a, b, k),
        t.pos == s.pos + k,
    ensures
        like_stmt(grammar::p_stmt(a, s), grammar::p_stmt(b, t), k),
    decreases grammar::left(a, s), 20nat,
{
    let x = grammar::here(a, s);
    let y = grammar::here(b, t);
    let s1 = grammar::next(s);
    let t1 = grammar::next(t);
    if grammar::tok(a, s) is Ident {
        lemma_set(a, b, s1, t1, x, y, k);
        lemma_unset(a, b, s1, t1, x, y, k);
        lemma_call(a, b, s1, t1, x, y, k);
        lemma_return(a, b, s1, t1, x, y, k);
        lemma_synthetic(a, b, s1, t1, x, y, k);
        lemma_new(a, b, s1, t1, x, y, k);
        lemma_if(a, b, s1, t1, x, y, k);
        lemma_expr_stmt(a, b, s, t, x, y, k);
    }
}

#[verifier::spinoff_prover]
#[verifier::rlimit(100)]
proof fn lemma_set(a: InputV, b: InputV, s: PlaceV, t: PlaceV, x: Span, y: Span, k: nat)
    requires
        tokens_behind(a, b, k),
        t.pos == s.pos + k,
    ensures
        like_stmt(grammar::p_set(a, s, x), grammar::p_set(b, t, y), k),
{
    reveal(grammar::p_set);
    lemma_dotted(a, b, s, t, k);
    match (grammar::p_dotted(a, s), grammar::p_dotted(b, t)) {
        (Parse::Read(_, s1), Parse::Read(_, t1)) => {
            lemma_expr(a, b, grammar::next(s1), grammar::next(t1), k);
        },
        _ => {},
    }
}

#[verifier::spinoff_prover]
#[verifier::rlimit(60)]
proof fn lemma_unset(a: InputV, b: InputV, s: PlaceV, t: PlaceV, x: Span, y: Span, k: nat)
    requires
        tokens_behind(a, b, k),
        t.pos == s.pos + k,
    ensures
        like_stmt(grammar::p_unset(a, s, x), grammar::p_unset(b, t, y), k),
{
    reveal(grammar::p_unset);
    lemma_dotted(a, b, s, t, k);
}

#[verifier::spinoff_prover]
#[verifier::rlimit(60)]
proof fn lemma_call(a: InputV, b: InputV, s: PlaceV, t: PlaceV, x: Span, y: Span, k: nat)
    requires
        tokens_behind(a, b, k),
        t.pos == s.pos + k,
    ensures
        like_stmt(grammar::p_call(a, s, x), grammar::p_call(b, t, y), k),
{
    reveal(grammar::p_call);
}

#[verifier::spinoff_prover]
#[verifier::rlimit(60)]
proof fn lemma_return(a: InputV, b: InputV, s: PlaceV, t: PlaceV, x: Span, y: Span, k: nat)
    requires
        tokens_behind(a, b, k),
        t.pos == s.pos + k,
    ensures
        like_stmt(grammar::p_return(a, s, x), grammar::p_return(b, t, y), k),
{
    reveal(grammar::p_return);
    lemma_action(a, b, grammar::next(s), grammar::next(t), k);
}

#[verifier::spinoff_prover]
#[verifier::rlimit(100)]
proof fn lemma_action(a: InputV, b: InputV, s: PlaceV, t: PlaceV, k: nat)
    requires
        tokens_behind(a, b, k),
        t.pos == s.pos + k,
    ensures
        like_action(grammar::p_action(a, s), grammar::p_action(b, t), k),
{
    reveal(grammar::p_action);
    lemma_action_args(a, b, grammar::next(s), grammar::next(t), k);
}

#[verifier::spinoff_prover]
#[verifier::rlimit(60)]
proof fn lemma_action_args(a: InputV, b: InputV, s: PlaceV, t: PlaceV, k: nat)
    requires
        tokens_behind(a, b, k),
        t.pos == s.pos + k,
    ensures
        like_exprs(grammar::p_action_args(a, s), grammar::p_action_args(b, t), k),
{
    reveal(grammar::p_action_args);
    lemma_expr_list(a, b, grammar::next(s), grammar::next(t), seq![], seq![], k);
}

#[verifier::spinoff_prover]
#[verifier::rlimit(60)]
proof fn lemma_condition(a: InputV, b: InputV, s: PlaceV, t: PlaceV, k: nat)
    requires
        tokens_behind(a, b, k),
        t.pos == s.pos + k,
    ensures
        like_expr(grammar::p_condition(a, s), grammar::p_condition(b, t), k),
{
    reveal(grammar::p_condition);
    lemma_expr(a, b, grammar::next(s), grammar::next(t), k);
}

#[verifier::spinoff_prover]
#[verifier::rlimit(60)]
proof fn lemma_synthetic(a: InputV, b: InputV, s: PlaceV, t: PlaceV, x: Span, y: Span, k: nat)
    requires
        tokens_behind(a, b, k),
        t.pos == s.pos + k,
    ensures
        like_stmt(grammar::p_synthetic(a, s, x), grammar::p_synthetic(b, t, y), k),
{
    reveal(grammar::p_synthetic);
    lemma_condition(a, b, s, t, k);
}

/// The same token comes next.
proof fn lemma_same_tok(a: InputV, b: InputV, s: PlaceV, t: PlaceV, k: nat)
    requires
        tokens_behind(a, b, k),
        t.pos == s.pos + k,
    ensures
        grammar::tok(a, s) == grammar::tok(b, t),
        (s.pos < a.toks.len()) == (t.pos < b.toks.len()),
{
}

#[verifier::spinoff_prover]
#[verifier::rlimit(100)]
proof fn lemma_new(a: InputV, b: InputV, s: PlaceV, t: PlaceV, x: Span, y: Span, k: nat)
    requires
        tokens_behind(a, b, k),
        t.pos == s.pos + k,
    ensures
        like_stmt(grammar::p_new(a, s, x), grammar::p_new(b, t, y), k),
{
    reveal(grammar::p_new);
    let s1 = grammar::next(s);
    let t1 = grammar::next(t);
    let s2 = grammar::next(s1);
    let t2 = grammar::next(t1);
    let s3 = grammar::next(s2);
    let t3 = grammar::next(t2);
    let s4 = grammar::next(s3);
    let t4 = grammar::next(t3);
    let s5 = grammar::next(s4);
    let t5 = grammar::next(t4);
    lemma_same_tok(a, b, s, t, k);
    lemma_same_tok(a, b, s1, t1, k);
    lemma_same_tok(a, b, s2, t2, k);
    lemma_same_tok(a, b, s3, t3, k);
    lemma_same_tok(a, b, s4, t4, k);
    lemma_call_args(a, b, s5, t5, k);
    match (grammar::p_call_args(a, s5), grammar::p_call_args(b, t5)) {
        (Parse::Read(_, s6), Parse::Read(_, t6)) => lemma_same_tok(a, b, s6, t6, k),
        _ => {},
    }
}

#[verifier::spinoff_prover]
#[verifier::rlimit(60)]
proof fn lemma_expr_stmt(a: InputV, b: InputV, s: PlaceV, t: PlaceV, x: Span, y: Span, k: nat)
    requires
        tokens_behind(a, b, k),
        t.pos == s.pos + k,
    ensures
        like_stmt(grammar::p_expr_stmt(a, s, x), grammar::p_expr_stmt(b, t, y), k),
{
    reveal(grammar::p_expr_stmt);
    lemma_dotted(a, b, s, t, k);
    match (grammar::p_dotted(a, s), grammar::p_dotted(b, t)) {
        (Parse::Read(_, s1), Parse::Read(_, t1)) => lemma_call_args(a, b, s1, t1, k),
        _ => {},
    }
}

#[verifier::spinoff_prover]
#[verifier::rlimit(60)]
proof fn lemma_arm(a: InputV, b: InputV, s: PlaceV, t: PlaceV, k: nat)
    requires
        tokens_behind(a, b, k),
        t.pos == s.pos + k,
    ensures
        like_arm(grammar::p_arm(a, s), grammar::p_arm(b, t), k),
    decreases grammar::left(a, s), 23nat,
{
    lemma_condition(a, b, s, t, k);
    match (grammar::p_condition(a, s), grammar::p_condition(b, t)) {
        (Parse::Read(_, s1), Parse::Read(_, t1)) => if grammar::moved(a, s, s1) {
            lemma_block(a, b, s1, t1, None, None, k);
        },
        _ => {},
    }
}

#[verifier::spinoff_prover]
#[verifier::rlimit(60)]
proof fn lemma_if(a: InputV, b: InputV, s: PlaceV, t: PlaceV, x: Span, y: Span, k: nat)
    requires
        tokens_behind(a, b, k),
        t.pos == s.pos + k,
    ensures
        like_stmt(grammar::p_if(a, s, x), grammar::p_if(b, t, y), k),
    decreases grammar::left(a, s), 24nat,
{

    lemma_arm(a, b, s, t, k);
    match (grammar::p_arm(a, s), grammar::p_arm(b, t)) {
        (Parse::Read(l, s1), Parse::Read(m, t1)) => if grammar::moved(a, s, s1) {
            assert(layout::bare_arms(seq![l]) =~= layout::bare_arms(seq![m])) by {
                assert(layout::bare_arms(seq![l])[0] == layout::bare_arm(l));
                assert(layout::bare_arms(seq![m])[0] == layout::bare_arm(m));
            }
            lemma_if_rest(a, b, s1, t1, x, y, seq![l], seq![m], k);
        },
        _ => {},
    }
}

#[verifier::spinoff_prover]
#[verifier::rlimit(60)]
proof fn lemma_if_rest(
    a: InputV,
    b: InputV,
    s: PlaceV,
    t: PlaceV,
    x: Span,
    y: Span,
    arms_a: Seq<ArmV>,
    arms_b: Seq<ArmV>,
    k: nat,
)
    requires
        tokens_behind(a, b, k),
        t.pos == s.pos + k,
        layout::bare_arms(arms_a) == layout::bare_arms(arms_b),
    ensures
        like_stmt(grammar::p_if_rest(a, s, x, arms_a), grammar::p_if_rest(b, t, y, arms_b), k),
    decreases grammar::left(a, s), 24nat,
{
    reveal(grammar::another_arm);
    match grammar::another_arm(a, s) {
        Some(n) => {
            let s0 = PlaceV { pos: s.pos + n, ..s };
            let t0 = PlaceV { pos: t.pos + n, ..t };
            lemma_arm(a, b, s0, t0, k);
            match (grammar::p_arm(a, s0), grammar::p_arm(b, t0)) {
                (Parse::Read(l, s1), Parse::Read(m, t1)) => if grammar::moved(a, s, s1) {
                    layout::lemma_push_arms(arms_a, l);
                    layout::lemma_push_arms(arms_b, m);
                    lemma_if_rest(a, b, s1, t1, x, y, arms_a.push(l), arms_b.push(m), k);
                },
                _ => {},
            }
        },
        None => if grammar::tok(a, s) == TokV::Ident("else"@) {
            lemma_block(a, b, grammar::next(s), grammar::next(t), None, None, k);
        },
    }
}

// ───────────────────────── declarations ─────────────────────────

#[verifier::spinoff_prover]
#[verifier::rlimit(60)]
proof fn lemma_fields(
    a: InputV,
    b: InputV,
    s: PlaceV,
    t: PlaceV,
    prev_a: Option<Span>,
    prev_b: Option<Span>,
    done_a: Seq<FieldV>,
    done_b: Seq<FieldV>,
    k: nat,
)
    requires
        tokens_behind(a, b, k),
        t.pos == s.pos + k,
        layout::bare_fields(done_a) == layout::bare_fields(done_b),
    ensures
        like_fields(
            grammar::p_fields(a, s, prev_a, done_a),
            grammar::p_fields(b, t, prev_b, done_b),
            k,
        ),
    decreases grammar::left(a, s), 31nat,
{
    if grammar::tok(a, s) is RBrace {
        lemma_finish_gap(a, grammar::next(s), prev_a, grammar::here(a, s).lo);
        lemma_finish_gap(b, grammar::next(t), prev_b, grammar::here(b, t).lo);
    } else {
        lemma_gap_before(a, s, prev_a);
        lemma_gap_before(b, t, prev_b);
        let s0 = grammar::gap_before(a, s, prev_a);
        let t0 = grammar::gap_before(b, t, prev_b);
        lemma_field(a, b, s0, t0, k);
        match (grammar::p_field(a, s0), grammar::p_field(b, t0)) {
            (Parse::Read(x, s1), Parse::Read(y, t1)) => if grammar::moved(a, s, s1) {
                layout::lemma_push_fields(done_a, x);
                layout::lemma_push_fields(done_b, y);
                lemma_fields(
                    a,
                    b,
                    s1,
                    t1,
                    Some(x.span),
                    Some(y.span),
                    done_a.push(x),
                    done_b.push(y),
                    k,
                );
            },
            _ => {},
        }
    }
}

#[verifier::spinoff_prover]
#[verifier::rlimit(100)]
proof fn lemma_field(a: InputV, b: InputV, s: PlaceV, t: PlaceV, k: nat)
    requires
        tokens_behind(a, b, k),
        t.pos == s.pos + k,
    ensures
        like_field(grammar::p_field(a, s), grammar::p_field(b, t), k),
    decreases grammar::left(a, s), 30nat,
{
    let (s1, t1) = (grammar::next(s), grammar::next(t));
    let (s2, t2) = (grammar::next(s1), grammar::next(t1));
    let (s3, t3) = (grammar::next(s2), grammar::next(t2));
    let (x, y) = (grammar::here(a, s), grammar::here(b, t));
    lemma_same_tok(a, b, s, t, k);
    lemma_same_tok(a, b, s1, t1, k);
    lemma_same_tok(a, b, s2, t2, k);
    lemma_same_tok(a, b, s3, t3, k);
    if grammar::moved(a, s, s3) {
        lemma_field_value(a, b, s3, t3, x, y, k);
        match (grammar::p_field_value(a, s3, x), grammar::p_field_value(b, t3, y)) {
            (Parse::Read(_, s4), Parse::Read(_, t4)) => lemma_same_tok(a, b, s4, t4, k),
            _ => {},
        }
    }
}

#[verifier::spinoff_prover]
#[verifier::rlimit(60)]
proof fn lemma_field_value(a: InputV, b: InputV, s: PlaceV, t: PlaceV, x: Span, y: Span, k: nat)
    requires
        tokens_behind(a, b, k),
        t.pos == s.pos + k,
    ensures
        like_value(grammar::p_field_value(a, s, x), grammar::p_field_value(b, t, y), k),
    decreases grammar::left(a, s), 32nat,
{
    let s1 = grammar::next(s);
    let t1 = grammar::next(t);
    if grammar::tok(a, s) is LBrace {
        lemma_fields(a, b, s1, t1, Some(x), Some(y), seq![], seq![], k);
    } else {
        lemma_strings(a, b, s, t, seq![], k);
        lemma_expr(a, b, s, t, k);
    }
}

#[verifier::spinoff_prover]
#[verifier::rlimit(60)]
proof fn lemma_strings(a: InputV, b: InputV, s: PlaceV, t: PlaceV, done: Seq<Seq<char>>, k: nat)
    requires
        tokens_behind(a, b, k),
        t.pos == s.pos + k,
    ensures
        grammar::p_strings(a, s, done).0 == grammar::p_strings(b, t, done).0,
        grammar::p_strings(b, t, done).1.pos == grammar::p_strings(a, s, done).1.pos + k,
    decreases grammar::left(a, s),
{
    reveal_with_fuel(grammar::p_strings, 2);
    match grammar::tok(a, s) {
        TokV::Str(x) => lemma_strings(a, b, grammar::next(s), grammar::next(t), done.push(x), k),
        _ => {},
    }
}

#[verifier::spinoff_prover]
#[verifier::rlimit(60)]
proof fn lemma_acl_entry(a: InputV, b: InputV, s: PlaceV, t: PlaceV, k: nat)
    requires
        tokens_behind(a, b, k),
        t.pos == s.pos + k,
    ensures
        like_entry(grammar::p_acl_entry(a, s), grammar::p_acl_entry(b, t), k),
{
    reveal(grammar::p_acl_entry);
    reveal(grammar::p_mask);
}

#[verifier::spinoff_prover]
#[verifier::rlimit(60)]
proof fn lemma_acl_entries(
    a: InputV,
    b: InputV,
    s: PlaceV,
    t: PlaceV,
    prev_a: Option<Span>,
    prev_b: Option<Span>,
    done_a: Seq<AclEntryV>,
    done_b: Seq<AclEntryV>,
    k: nat,
)
    requires
        tokens_behind(a, b, k),
        t.pos == s.pos + k,
        layout::bare_entries(done_a) == layout::bare_entries(done_b),
    ensures
        like_entries(
            grammar::p_acl_entries(a, s, prev_a, done_a),
            grammar::p_acl_entries(b, t, prev_b, done_b),
            k,
        ),
    decreases grammar::left(a, s),
{
    reveal_with_fuel(grammar::p_acl_entries, 2);
    if grammar::tok(a, s) is RBrace {
        lemma_finish_gap(a, grammar::next(s), prev_a, grammar::here(a, s).lo);
        lemma_finish_gap(b, grammar::next(t), prev_b, grammar::here(b, t).lo);
    } else {
        lemma_gap_before(a, s, prev_a);
        lemma_gap_before(b, t, prev_b);
        let s0 = grammar::gap_before(a, s, prev_a);
        let t0 = grammar::gap_before(b, t, prev_b);
        lemma_acl_entry(a, b, s0, t0, k);
        match (grammar::p_acl_entry(a, s0), grammar::p_acl_entry(b, t0)) {
            (Parse::Read(x, s1), Parse::Read(y, t1)) => if grammar::moved(a, s, s1) {
                layout::lemma_push_entries(done_a, x);
                layout::lemma_push_entries(done_b, y);
                lemma_acl_entries(
                    a,
                    b,
                    s1,
                    t1,
                    Some(x.span),
                    Some(y.span),
                    done_a.push(x),
                    done_b.push(y),
                    k,
                );
            },
            _ => {},
        }
    }
}

#[verifier::spinoff_prover]
#[verifier::rlimit(60)]
proof fn lemma_field_block(a: InputV, b: InputV, s: PlaceV, t: PlaceV, x: Span, y: Span, k: nat)
    requires
        tokens_behind(a, b, k),
        t.pos == s.pos + k,
    ensures
        like_fields(grammar::p_field_block(a, s, x), grammar::p_field_block(b, t, y), k),
{
    reveal(grammar::p_field_block);
    lemma_fields(a, b, grammar::next(s), grammar::next(t), Some(x), Some(y), seq![], seq![], k);
}

#[verifier::spinoff_prover]
#[verifier::rlimit(60)]
proof fn lemma_top_decl(a: InputV, b: InputV, s: PlaceV, t: PlaceV, k: nat)
    requires
        tokens_behind(a, b, k),
        t.pos == s.pos + k,
    ensures
        like_decl(grammar::p_top_decl(a, s), grammar::p_top_decl(b, t), k),
{
    reveal(grammar::p_top_decl);
    let x = grammar::here(a, s);
    let y = grammar::here(b, t);
    let s1 = grammar::next(s);
    let t1 = grammar::next(t);
    lemma_import(a, b, s1, t1, x, y, k);
    lemma_backend(a, b, s1, t1, x, y, k);
    lemma_probe(a, b, s1, t1, x, y, k);
    lemma_acl(a, b, s1, t1, x, y, k);
    lemma_sub(a, b, s1, t1, x, y, k);
}

#[verifier::spinoff_prover]
#[verifier::rlimit(60)]
proof fn lemma_import(a: InputV, b: InputV, s: PlaceV, t: PlaceV, x: Span, y: Span, k: nat)
    requires
        tokens_behind(a, b, k),
        t.pos == s.pos + k,
    ensures
        like_decl(grammar::p_import(a, s, x), grammar::p_import(b, t, y), k),
{
    reveal(grammar::p_import);
}

#[verifier::spinoff_prover]
#[verifier::rlimit(60)]
proof fn lemma_backend(a: InputV, b: InputV, s: PlaceV, t: PlaceV, x: Span, y: Span, k: nat)
    requires
        tokens_behind(a, b, k),
        t.pos == s.pos + k,
    ensures
        like_decl(grammar::p_backend(a, s, x), grammar::p_backend(b, t, y), k),
{
    reveal(grammar::p_backend);
    lemma_field_block(a, b, grammar::next(s), grammar::next(t), x, y, k);
}

#[verifier::spinoff_prover]
#[verifier::rlimit(60)]
proof fn lemma_probe(a: InputV, b: InputV, s: PlaceV, t: PlaceV, x: Span, y: Span, k: nat)
    requires
        tokens_behind(a, b, k),
        t.pos == s.pos + k,
    ensures
        like_decl(grammar::p_probe(a, s, x), grammar::p_probe(b, t, y), k),
{
    reveal(grammar::p_probe);
    lemma_field_block(a, b, grammar::next(s), grammar::next(t), x, y, k);
}

#[verifier::spinoff_prover]
#[verifier::rlimit(60)]
proof fn lemma_acl(a: InputV, b: InputV, s: PlaceV, t: PlaceV, x: Span, y: Span, k: nat)
    requires
        tokens_behind(a, b, k),
        t.pos == s.pos + k,
    ensures
        like_decl(grammar::p_acl(a, s, x), grammar::p_acl(b, t, y), k),
{
    reveal(grammar::p_acl);
    let s2 = grammar::next(grammar::next(s));
    let t2 = grammar::next(grammar::next(t));
    lemma_acl_entries(a, b, s2, t2, Some(x), Some(y), seq![], seq![], k);
}

#[verifier::spinoff_prover]
#[verifier::rlimit(60)]
proof fn lemma_sub(a: InputV, b: InputV, s: PlaceV, t: PlaceV, x: Span, y: Span, k: nat)
    requires
        tokens_behind(a, b, k),
        t.pos == s.pos + k,
    ensures
        like_decl(grammar::p_sub(a, s, x), grammar::p_sub(b, t, y), k),
{
    reveal(grammar::p_sub);
    lemma_block(a, b, grammar::next(s), grammar::next(t), Some(x), Some(y), k);
}

#[verifier::spinoff_prover]
#[verifier::rlimit(60)]
proof fn lemma_version(a: InputV, b: InputV, s: PlaceV, t: PlaceV, k: nat)
    requires
        tokens_behind(a, b, k),
        t.pos == s.pos + k,
    ensures
        level(grammar::p_version(a, s), grammar::p_version(b, t), k),
        match (grammar::p_version(a, s), grammar::p_version(b, t)) {
            (Parse::Read(v, _), Parse::Read(w, _)) => v.major == w.major && v.minor == w.minor,
            _ => true,
        },
{
    reveal(grammar::p_version);
}

/// Whether two results agree in all but their places.
pub open spec fn alike_programs(
    x: core::result::Result<ProgramV, ErrV>,
    y: core::result::Result<ProgramV, ErrV>,
) -> bool {
    match (x, y) {
        (Ok(p), Ok(q)) => layout::bare_program(p) == layout::bare_program(q),
        (Err(e), Err(f)) => e.msg == f.msg,
        _ => false,
    }
}

#[verifier::spinoff_prover]
#[verifier::rlimit(60)]
proof fn lemma_decls(
    a: InputV,
    b: InputV,
    s: PlaceV,
    t: PlaceV,
    x: Span,
    y: Span,
    prev_a: Option<Span>,
    prev_b: Option<Span>,
    done_a: Seq<DeclV>,
    done_b: Seq<DeclV>,
    k: nat,
)
    requires
        tokens_behind(a, b, k),
        t.pos == s.pos + k,
        layout::bare_decls(done_a) == layout::bare_decls(done_b),
    ensures
        alike_programs(
            grammar::p_decls(a, s, x, prev_a, done_a),
            grammar::p_decls(b, t, y, prev_b, done_b),
        ),
    decreases grammar::left(a, s),
{
    reveal_with_fuel(grammar::p_decls, 2);
    if grammar::tok(a, s) is Eof {
    } else if grammar::tok(a, s) == TokV::Ident("vcl"@) {
        reveal(grammar::p_further_vcl);
        lemma_version(a, b, grammar::next(s), grammar::next(t), k);
        match (grammar::p_further_vcl(a, s), grammar::p_further_vcl(b, t)) {
            (Parse::Read(_, s1), Parse::Read(_, t1)) => if grammar::moved(a, s, s1) {
                lemma_decls(a, b, s1, t1, x, y, prev_a, prev_b, done_a, done_b, k);
            },
            _ => {},
        }
    } else {
        lemma_gap_before(a, s, prev_a);
        lemma_gap_before(b, t, prev_b);
        let s0 = grammar::gap_before(a, s, prev_a);
        let t0 = grammar::gap_before(b, t, prev_b);
        lemma_top_decl(a, b, s0, t0, k);
        match (grammar::p_top_decl(a, s0), grammar::p_top_decl(b, t0)) {
            (Parse::Read(d, s1), Parse::Read(e, t1)) => if grammar::moved(a, s, s1) {
                layout::lemma_push_decls(done_a, d);
                layout::lemma_push_decls(done_b, e);
                lemma_decls(
                    a,
                    b,
                    s1,
                    t1,
                    x,
                    y,
                    Some(ast::decl_span(d)),
                    Some(ast::decl_span(e)),
                    done_a.push(d),
                    done_b.push(e),
                    k,
                );
            },
            _ => {},
        }
    }
}

// ───────────────────────── arms ─────────────────────────

/// Whether two readings stop as far before the end.
pub open spec fn ends_alike(x: Parse<StmtV>, y: Parse<StmtV>, a: InputV, b: InputV) -> bool {
    match (x, y) {
        (Parse::Read(v, s), Parse::Read(w, t)) => {
            &&& layout::bare_stmt(v) == layout::bare_stmt(w)
            &&& a.toks.len() - s.pos == b.toks.len() - t.pos
        },
        (Parse::Bad(e), Parse::Bad(f)) => e.msg == f.msg,
        _ => false,
    }
}

#[verifier::spinoff_prover]
#[verifier::rlimit(60)]
proof fn lemma_arms_behind(
    c: InputV,
    a: InputV,
    s: PlaceV,
    n: nat,
    x: Span,
    arms: Seq<ArmV>,
    more: Seq<ArmV>,
)
    requires
        grammar::another_arm(a, s) == Some(n),
        n >= 1,
        tokens_behind(c, a, s.pos + n),
        layout::bare_arms(arms) == layout::bare_arms(more),
    ensures
        match (
            grammar::p_arm(c, PlaceV { pos: 0, ..s }),
            grammar::p_if_rest(a, s, x, more),
        ) {
            (Parse::Read(v, u), y) => like_stmt(
                grammar::p_if_rest(c, u, x, arms.push(v)),
                y,
                s.pos + n,
            ),
            (Parse::Bad(e), Parse::Bad(f)) => e.msg == f.msg,
            _ => false,
        },
{
    let k = s.pos + n;
    let at = PlaceV { pos: 0, ..s };
    let to = PlaceV { pos: k, ..s };
    lemma_arm(c, a, at, to, k);
    match (grammar::p_arm(c, at), grammar::p_arm(a, to)) {
        (Parse::Read(v, u), Parse::Read(w, t)) => {
            layout::lemma_push_arms(arms, v);
            layout::lemma_push_arms(more, w);
            lemma_if_rest(c, a, u, t, x, x, arms.push(v), more.push(w), k);
        },
        _ => {},
    }
}

/// Whether another arm starts with `elsif`, with `elseif` or with `else if` does
/// not matter: what is read of an `if` from there on is the same.
pub proof fn law_arm_words_do_not_matter(
    a: InputV,
    b: InputV,
    s: PlaceV,
    t: PlaceV,
    m: nat,
    n: nat,
    start: Span,
    arms: Seq<ArmV>,
)
    requires
        grammar::another_arm(a, s) == Some(m),
        grammar::another_arm(b, t) == Some(n),
        s.pos + m <= a.toks.len(),
        a.toks.len() - (s.pos + m) == b.toks.len() - (t.pos + n),
        forall|i: int|
            s.pos + m <= i < a.toks.len() ==> (#[trigger] a.toks[i]).tok == b.toks[i - (s.pos + m)
                + (t.pos + n)].tok,
    ensures
        ends_alike(
            grammar::p_if_rest(a, s, start, arms),
            grammar::p_if_rest(b, t, start, arms),
            a,
            b,
        ),
{
    assert(m >= 1 && n >= 1) by {
        reveal(grammar::another_arm);
    }
    let c = InputV { toks: a.toks.subrange((s.pos + m) as int, a.toks.len() as int), ..a };
    assert(tokens_behind(c, a, s.pos + m));
    assert(tokens_behind(c, b, t.pos + n)) by {
        assert forall|i: int| 0 <= i < c.toks.len() implies (#[trigger] c.toks[i]).tok == b.toks[i
            + (t.pos + n)].tok by {
            assert(c.toks[i] == a.toks[i + (s.pos + m)]);
        }
    }
    lemma_arms_behind(c, a, s, m, start, arms, arms);
    lemma_arms_behind(c, b, t, n, start, arms, arms);
    let u = PlaceV { pos: 0, ..s };
    let w = PlaceV { pos: 0, ..t };
    lemma_arm(c, c, u, w, 0);
    match (grammar::p_arm(c, u), grammar::p_arm(c, w)) {
        (Parse::Read(x, u1), Parse::Read(y, w1)) => {
            layout::lemma_push_arms(arms, x);
            layout::lemma_push_arms(arms, y);
            lemma_if_rest(c, c, u1, w1, start, start, arms.push(x), arms.push(y), 0);
        },
        _ => {},
    }
}

/// Two streams with the same tokens stand for programs that differ in nothing
/// but their places and comments, or are wrong for the same reason.
pub proof fn law_only_tokens_matter(a: InputV, b: InputV)
    requires
        same_tokens(a, b),
    ensures
        alike_programs(grammar::p_program(a), grammar::p_program(b)),
{
    reveal(grammar::p_program);
    reveal(grammar::p_vcl_decl);
    let s = PlaceV { pos: 0, cidx: 0, out: Map::empty() };
    lemma_version(a, b, grammar::next(s), grammar::next(s), 0);
    match (grammar::p_vcl_decl(a, s), grammar::p_vcl_decl(b, s)) {
        (Parse::Read(x, s1), Parse::Read(y, t1)) => {
            lemma_decls(a, b, s1, t1, x, y, None, None, seq![], seq![], 0);
        },
        _ => {},
    }
}

} // verus!
