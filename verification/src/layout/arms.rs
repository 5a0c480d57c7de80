//! The spelling of another arm does not matter: `elsif`, `elseif` and `else if`
//! stand for the same, wherever they stand in a program.

use crate::ast;
use crate::ast::{
    AclEntryV, ArgV, ArmV, DeclV, ExprV, FieldV, FieldValueV, ReturnActionV, Span, StmtV,
};
use crate::canon;
use crate::grammar;
use crate::grammar::{InputV, Parse, PlaceV};
use crate::layout;
use crate::layout::parsing;
use crate::lexer;
use crate::lexer::TokV;
use crate::parser;
use crate::statements;
use vstd::prelude::*;
use vstd::string::*;

verus! {

// ───────────────────────── streams that differ in their arms ─────────────────────────

/// The token at a place of a stream.
spec fn tok_of(a: InputV, i: int) -> TokV {
    a.toks[i].tok
}

/// How many tokens are the words of another arm at a place: one for `elsif` and
/// `elseif`, two for `else if`, none for anything else.
pub open spec fn arm_words(a: InputV, i: nat) -> nat {
    if i >= a.toks.len() {
        0
    } else if a.toks[i as int].tok == TokV::Ident("elsif"@) || a.toks[i as int].tok == TokV::Ident(
        "elseif"@,
    ) {
        1
    } else if a.toks[i as int].tok == TokV::Ident("else"@) && i + 1 < a.toks.len() && a.toks[i as int
        + 1].tok == TokV::Ident("if"@) {
        2
    } else {
        0
    }
}

/// Whether the words of another arm stand at a place: behind a block and before a
/// condition.
#[verifier::opaque]
pub open spec fn arm_at(a: InputV, i: nat) -> bool {
    let n = arm_words(a, i);
    &&& n > 0
    &&& i > 0
    &&& a.toks[i as int - 1].tok is RBrace
    &&& i + n < a.toks.len()
    &&& a.toks[(i + n) as int].tok is LParen
}

/// Whether a place is the second word of another arm.
pub open spec fn within_arm(a: InputV, i: nat) -> bool {
    i > 0 && arm_at(a, (i - 1) as nat) && arm_words(a, (i - 1) as nat) == 2
}

/// The place in the second stream at which what stands at a place of the first
/// one stands.
pub open spec fn place(a: InputV, b: InputV, i: nat) -> nat
    decreases i,
{
    if i == 0 {
        0
    } else if within_arm(a, i) {
        place(a, b, (i - 1) as nat)
    } else if within_arm(a, (i - 1) as nat) && i >= 2 {
        let p = place(a, b, (i - 2) as nat);
        p + arm_words(b, p)
    } else if arm_at(a, (i - 1) as nat) {
        let p = place(a, b, (i - 1) as nat);
        p + arm_words(b, p)
    } else {
        place(a, b, (i - 1) as nat) + 1
    }
}

/// Whether two streams differ in nothing but the words of further arms.
pub open spec fn respelled(a: InputV, b: InputV) -> bool {
    &&& place(a, b, a.toks.len()) == b.toks.len()
    &&& forall|i: int|
        0 <= i < a.toks.len() && !arm_at(a, i as nat) && !within_arm(a, i as nat)
            ==> (#[trigger] a.toks[i]).tok == b.toks[place(a, b, i as nat) as int].tok
    &&& forall|i: int|
        0 <= i < a.toks.len() && arm_at(a, i as nat) ==> arm_words(
            b,
            #[trigger] place(a, b, i as nat),
        ) > 0
}

/// Whether two places stand before the same.
spec fn meet(a: InputV, b: InputV, s: PlaceV, t: PlaceV) -> bool {
    t.pos == place(a, b, s.pos) && !within_arm(a, s.pos)
}

/// Whether two places stand before the same token.
spec fn step(a: InputV, b: InputV, s: PlaceV, t: PlaceV) -> bool {
    meet(a, b, s, t) && !arm_at(a, s.pos)
}

proof fn lemma_arm_words(a: InputV, i: nat)
    requires
        arm_at(a, i),
    ensures
        i > 0,
        tok_of(a, i as int - 1) is RBrace,
        tok_of(a, i as int) is Ident,
        arm_words(a, i) == 1 || arm_words(a, i) == 2,
        i + arm_words(a, i) < a.toks.len(),
        tok_of(a, i as int + arm_words(a, i)) is LParen,
        arm_words(a, i) == 2 ==> tok_of(a, i as int + 1) is Ident,
{
    reveal(arm_at);
}

/// An arm's words follow on nothing but a block.
proof fn lemma_apart(a: InputV, i: nat)
    requires
        i >= a.toks.len() || !(tok_of(a, i as int) is RBrace),
    ensures
        !arm_at(a, i + 1),
{
    reveal(arm_at);
}

proof fn lemma_no_arm(a: InputV, i: nat)
    requires
        i >= a.toks.len() || !(tok_of(a, i as int) is Ident),
    ensures
        !arm_at(a, i),
{
    reveal(arm_at);
}

/// Later stands later.
proof fn lemma_later(a: InputV, b: InputV, i: nat, j: nat)
    requires
        respelled(a, b),
        i < j,
        !within_arm(a, i),
        !within_arm(a, j),
    ensures
        place(a, b, i) < place(a, b, j),
    decreases j,
{
    if within_arm(a, (j - 1) as nat) {
        let k = (j - 2) as nat;
        lemma_arm_words(a, k);
        lemma_within(a, k);
        assert(arm_words(b, place(a, b, k)) > 0) by {
            assert(arm_at(a, k as int as nat));
            assert(0 <= k as int && (k as int) < a.toks.len());
        }
        if i < k {
            lemma_later(a, b, i, k);
        } else {
            assert(i == k);
        }
    } else {
        let k = (j - 1) as nat;
        if arm_at(a, k) {
            lemma_arm_words(a, k);
            assert(arm_words(b, place(a, b, k as int as nat)) > 0);
        }
        if i < k {
            lemma_later(a, b, i, k);
        }
    }
}

/// The words of an arm do not stand within another one.
proof fn lemma_within(a: InputV, i: nat)
    requires
        arm_at(a, i),
    ensures
        !within_arm(a, i),
        arm_words(a, i) == 2 ==> within_arm(a, i + 1) && !arm_at(a, i + 1),
        !within_arm(a, i + arm_words(a, i)),
        !arm_at(a, i + arm_words(a, i)),
{
    lemma_arm_words(a, i);
    if within_arm(a, i) {
        lemma_arm_words(a, (i - 1) as nat);
    }
    lemma_apart(a, i);
    lemma_no_arm(a, i + arm_words(a, i));
}

proof fn lemma_moved(a: InputV, b: InputV, s: PlaceV, t: PlaceV, u: PlaceV, w: PlaceV)
    requires
        respelled(a, b),
        meet(a, b, s, t),
        meet(a, b, u, w),
        grammar::moved(a, s, u),
    ensures
        grammar::moved(b, t, w),
{
    let n = a.toks.len();
    assert(s.pos < n && s.pos < u.pos);
    lemma_later(a, b, s.pos, u.pos);
    lemma_end(a);
    lemma_later(a, b, s.pos, n);
}

proof fn lemma_end(a: InputV)
    ensures
        !within_arm(a, a.toks.len()),
        !arm_at(a, a.toks.len()),
{
    if within_arm(a, a.toks.len()) {
        lemma_arm_words(a, (a.toks.len() - 1) as nat);
    }
    lemma_no_arm(a, a.toks.len());
}

proof fn lemma_here(a: InputV, b: InputV, s: PlaceV, t: PlaceV)
    requires
        respelled(a, b),
        step(a, b, s, t),
    ensures
        grammar::tok(a, s) == grammar::tok(b, t),
        meet(a, b, grammar::next(s), grammar::next(t)),
        !(grammar::tok(a, s) is RBrace) ==> step(a, b, grammar::next(s), grammar::next(t)),
        s.pos < a.toks.len() ==> t.pos < b.toks.len(),
{
    let n = a.toks.len();
    lemma_end(a);
    if s.pos < n {
        lemma_later(a, b, s.pos, n);
        assert(a.toks[s.pos as int].tok == b.toks[place(a, b, s.pos as int as nat) as int].tok);
    } else if s.pos > n {
        lemma_later(a, b, n, s.pos);
    }
    assert(!within_arm(a, s.pos + 1));
    if s.pos >= n || !(tok_of(a, s.pos as int) is RBrace) {
        lemma_apart(a, s.pos);
    }
}

/// What stands behind a place that stands before the same token.
proof fn lemma_second(a: InputV, b: InputV, s: PlaceV, t: PlaceV)
    requires
        respelled(a, b),
        step(a, b, s, t),
        !(grammar::tok(a, s) is RBrace),
    ensures
        grammar::tok_at(a, s, 1) == grammar::tok_at(b, t, 1),
        grammar::tok_at(a, s, 1) == grammar::tok(a, grammar::next(s)),
        step(a, b, grammar::next(s), grammar::next(t)),
{
    lemma_here(a, b, s, t);
    lemma_here(a, b, grammar::next(s), grammar::next(t));
}

proof fn lemma_third(a: InputV, b: InputV, s: PlaceV, t: PlaceV)
    requires
        respelled(a, b),
        step(a, b, s, t),
        !(grammar::tok(a, s) is RBrace),
        !(grammar::tok_at(a, s, 1) is RBrace),
    ensures
        grammar::tok_at(a, s, 2) == grammar::tok_at(b, t, 2),
        step(a, b, grammar::next(grammar::next(s)), grammar::next(grammar::next(t))),
{
    lemma_second(a, b, s, t);
    let (s1, t1) = (grammar::next(s), grammar::next(t));
    lemma_second(a, b, s1, t1);
    lemma_here(a, b, grammar::next(s1), grammar::next(t1));
}

// ───────────────────────── what is read alike ─────────────────────────

/// Whether what is read in the first stream is read in the second one.
spec fn same<T>(a: InputV, b: InputV, x: Parse<T>, y: Parse<T>) -> bool {
    x matches Parse::Read(v, s) ==> (y matches Parse::Read(w, t) && v == w && step(a, b, s, t))
}

/// Whether the reading goes on in both streams.
spec fn on<T, U>(a: InputV, b: InputV, x: Parse<T>, y: Parse<U>) -> bool {
    x matches Parse::Read(_, s) ==> (y matches Parse::Read(_, t) && step(a, b, s, t))
}

spec fn like_expr(a: InputV, b: InputV, x: Parse<ExprV>, y: Parse<ExprV>) -> bool {
    x matches Parse::Read(v, s) ==> (y matches Parse::Read(w, t) && layout::bare_expr(v)
        == layout::bare_expr(w) && step(a, b, s, t))
}

spec fn like_exprs(a: InputV, b: InputV, x: Parse<Seq<ExprV>>, y: Parse<Seq<ExprV>>) -> bool {
    x matches Parse::Read(v, s) ==> (y matches Parse::Read(w, t) && layout::bare_exprs(v)
        == layout::bare_exprs(w) && step(a, b, s, t))
}

spec fn like_arg(a: InputV, b: InputV, x: Parse<ArgV>, y: Parse<ArgV>) -> bool {
    x matches Parse::Read(v, s) ==> (y matches Parse::Read(w, t) && layout::bare_arg(v)
        == layout::bare_arg(w) && step(a, b, s, t))
}

spec fn like_args(a: InputV, b: InputV, x: Parse<Seq<ArgV>>, y: Parse<Seq<ArgV>>) -> bool {
    x matches Parse::Read(v, s) ==> (y matches Parse::Read(w, t) && layout::bare_args(v)
        == layout::bare_args(w) && step(a, b, s, t))
}

spec fn like_action(a: InputV, b: InputV, x: Parse<ReturnActionV>, y: Parse<ReturnActionV>) -> bool {
    x matches Parse::Read(v, s) ==> (y matches Parse::Read(w, t) && layout::bare_action(v)
        == layout::bare_action(w) && step(a, b, s, t))
}

spec fn like_fields(a: InputV, b: InputV, x: Parse<Seq<FieldV>>, y: Parse<Seq<FieldV>>) -> bool {
    x matches Parse::Read(v, s) ==> (y matches Parse::Read(w, t) && layout::bare_fields(v)
        == layout::bare_fields(w) && meet(a, b, s, t))
}

spec fn like_field(a: InputV, b: InputV, x: Parse<FieldV>, y: Parse<FieldV>) -> bool {
    x matches Parse::Read(v, s) ==> (y matches Parse::Read(w, t) && layout::bare_field(v)
        == layout::bare_field(w) && meet(a, b, s, t))
}

spec fn like_value(a: InputV, b: InputV, x: Parse<FieldValueV>, y: Parse<FieldValueV>) -> bool {
    x matches Parse::Read(v, s) ==> (y matches Parse::Read(w, t) && layout::bare_value(v)
        == layout::bare_value(w) && meet(a, b, s, t) && (v !is Probe ==> step(a, b, s, t)))
}

spec fn like_entry(a: InputV, b: InputV, x: Parse<AclEntryV>, y: Parse<AclEntryV>) -> bool {
    x matches Parse::Read(v, s) ==> (y matches Parse::Read(w, t) && layout::bare_entry(v)
        == layout::bare_entry(w) && step(a, b, s, t))
}

spec fn like_entries(a: InputV, b: InputV, x: Parse<Seq<AclEntryV>>, y: Parse<Seq<AclEntryV>>) -> bool {
    x matches Parse::Read(v, s) ==> (y matches Parse::Read(w, t) && layout::bare_entries(v)
        == layout::bare_entries(w) && meet(a, b, s, t))
}

spec fn like_decl(a: InputV, b: InputV, x: Parse<DeclV>, y: Parse<DeclV>) -> bool {
    x matches Parse::Read(v, s) ==> (y matches Parse::Read(w, t) && layout::bare_decl(v)
        == layout::bare_decl(w) && meet(a, b, s, t))
}

/// Whether a block is behind a place.
spec fn behind_block(a: InputV, s: PlaceV) -> bool {
    0 < s.pos <= a.toks.len() && tok_of(a, s.pos as int - 1) is RBrace
}

spec fn like_stmts(a: InputV, b: InputV, x: Parse<Seq<StmtV>>, y: Parse<Seq<StmtV>>) -> bool {
    x matches Parse::Read(v, s) ==> (y matches Parse::Read(w, t) && layout::bare_stmts(v)
        == layout::bare_stmts(w) && meet(a, b, s, t) && behind_block(a, s))
}

spec fn like_arm(a: InputV, b: InputV, x: Parse<ArmV>, y: Parse<ArmV>) -> bool {
    x matches Parse::Read(v, s) ==> (y matches Parse::Read(w, t) && layout::bare_arm(v)
        == layout::bare_arm(w) && meet(a, b, s, t) && behind_block(a, s))
}

/// Whether a statement is an `if` with an `else`.
pub open spec fn shut_if(s: StmtV) -> bool {
    s matches StmtV::If { else_body, .. } && else_body is Some
}

/// Whether a statement calls a function whose name is a word of another arm.
pub open spec fn word_call(s: StmtV) -> bool {
    s matches StmtV::Expr { expr, .. } && expr matches ExprV::Call { target, .. } && target.len()
        == 1 && (target[0] == "elsif"@ || target[0] == "elseif"@)
}

/// Whether the statement before `i` is not followed by such a call where it is an
/// `if` with an `else`.
pub open spec fn told_apart(s: Seq<StmtV>, i: int) -> bool {
    shut_if(s[i - 1]) ==> !word_call(s[i])
}

/// Whether no `if` with an `else`, in a statement, is followed by such a call.
pub open spec fn told_stmt(s: StmtV) -> bool
    decreases s,
{
    match s {
        StmtV::If { arms, else_body, .. } => told_arms(arms) && match else_body {
            Some(b) => told_stmts(b),
            None => true,
        },
        _ => true,
    }
}

/// Whether that holds of all statements, and of each and the next.
pub open spec fn told_stmts(s: Seq<StmtV>) -> bool
    decreases s,
{
    &&& forall|i: int| 0 <= i < s.len() ==> told_stmt(#[trigger] s[i])
    &&& forall|i: int| 0 < i < s.len() ==> #[trigger] told_apart(s, i)
}

/// Whether that holds in an arm.
pub open spec fn told_arm(a: ArmV) -> bool
    decreases a,
{
    told_stmts(a.body)
}

/// Whether that holds in all arms.
pub open spec fn told_arms(s: Seq<ArmV>) -> bool
    decreases s,
{
    forall|i: int| 0 <= i < s.len() ==> told_arm(#[trigger] s[i])
}

/// Whether that holds in all subroutines: no call of a function named `elsif` or
/// `elseif` stands directly behind an `if` with an `else`.
pub open spec fn told_decls(ds: Seq<DeclV>) -> bool {
    forall|i: int|
        0 <= i < ds.len() ==> ((#[trigger] ds[i]) matches DeclV::Sub { body, .. } ==> told_stmts(
            body,
        ))
}

spec fn like_stmt(a: InputV, b: InputV, x: Parse<StmtV>, y: Parse<StmtV>) -> bool {
    x matches Parse::Read(v, s) ==> (y matches Parse::Read(w, t) && layout::bare_stmt(v)
        == layout::bare_stmt(w) && meet(a, b, s, t) && (!shut_if(v) ==> step(a, b, s, t)))
}

// ───────────────────────── single tokens ─────────────────────────

proof fn lemma_expect(a: InputV, b: InputV, s: PlaceV, t: PlaceV, want: TokV)
    requires
        respelled(a, b),
        step(a, b, s, t),
        want !is RBrace,
    ensures
        on(a, b, grammar::p_expect(a, s, want), grammar::p_expect(b, t, want)),
{
    lemma_here(a, b, s, t);
}

proof fn lemma_ident(a: InputV, b: InputV, s: PlaceV, t: PlaceV)
    requires
        respelled(a, b),
        step(a, b, s, t),
    ensures
        same(a, b, grammar::p_ident(a, s), grammar::p_ident(b, t)),
{
    lemma_here(a, b, s, t);
}

proof fn lemma_str(a: InputV, b: InputV, s: PlaceV, t: PlaceV)
    requires
        respelled(a, b),
        step(a, b, s, t),
    ensures
        same(a, b, grammar::p_str(a, s), grammar::p_str(b, t)),
{
    lemma_here(a, b, s, t);
}

// ───────────────────────── expressions ─────────────────────────

#[verifier::spinoff_prover]
#[verifier::rlimit(60)]
proof fn lemma_dotted_rest(a: InputV, b: InputV, s: PlaceV, t: PlaceV, parts: Seq<Seq<char>>)
    requires
        respelled(a, b),
        step(a, b, s, t),
    ensures
        same(
            a,
            b,
            grammar::p_dotted_rest(a, s, parts),
            grammar::p_dotted_rest(b, t, parts),
        ),
    decreases grammar::left(a, s),
{
    reveal_with_fuel(grammar::p_dotted_rest, 2);
    lemma_here(a, b, s, t);
    if grammar::tok(a, s) is Dot {
        let (s1, t1) = (grammar::next(s), grammar::next(t));
        lemma_ident(a, b, s1, t1);
        match (grammar::p_ident(a, s1), grammar::p_ident(b, t1)) {
            (Parse::Read(n, s2), Parse::Read(_, t2)) => if grammar::moved(a, s, s2) {
                lemma_moved(a, b, s, t, s2, t2);
                lemma_dotted_rest(a, b, s2, t2, parts.push(n));
            },
            _ => {},
        }
    }
}

#[verifier::spinoff_prover]
#[verifier::rlimit(60)]
proof fn lemma_dotted(a: InputV, b: InputV, s: PlaceV, t: PlaceV)
    requires
        respelled(a, b),
        step(a, b, s, t),
    ensures
        same(a, b, grammar::p_dotted(a, s), grammar::p_dotted(b, t)),
{
    reveal(grammar::p_dotted);
    lemma_ident(a, b, s, t);
    match (grammar::p_ident(a, s), grammar::p_ident(b, t)) {
        (Parse::Read(n, s1), Parse::Read(_, t1)) => lemma_dotted_rest(a, b, s1, t1, seq![n]),
        _ => {},
    }
}

#[verifier::spinoff_prover]
#[verifier::rlimit(60)]
proof fn lemma_expr(a: InputV, b: InputV, s: PlaceV, t: PlaceV)
    requires
        respelled(a, b),
        step(a, b, s, t),
    ensures
        like_expr(a, b, grammar::p_expr(a, s), grammar::p_expr(b, t)),
    decreases grammar::left(a, s), 8nat,
{
    lemma_or(a, b, s, t);
}

#[verifier::spinoff_prover]
#[verifier::rlimit(60)]
proof fn lemma_or(a: InputV, b: InputV, s: PlaceV, t: PlaceV)
    requires
        respelled(a, b),
        step(a, b, s, t),
    ensures
        like_expr(a, b, grammar::p_or(a, s), grammar::p_or(b, t)),
    decreases grammar::left(a, s), 7nat,
{
    lemma_and(a, b, s, t);
    match (grammar::p_and(a, s), grammar::p_and(b, t)) {
        (Parse::Read(l, s1), Parse::Read(m, t1)) => if grammar::moved(a, s, s1) {
            lemma_moved(a, b, s, t, s1, t1);
            lemma_or_rest(a, b, s1, t1, l, m);
        },
        _ => {},
    }
}

#[verifier::spinoff_prover]
#[verifier::rlimit(60)]
proof fn lemma_or_rest(a: InputV, b: InputV, s: PlaceV, t: PlaceV, l: ExprV, m: ExprV)
    requires
        respelled(a, b),
        step(a, b, s, t),
        layout::bare_expr(l) == layout::bare_expr(m),
    ensures
        like_expr(a, b, grammar::p_or_rest(a, s, l), grammar::p_or_rest(b, t, m)),
    decreases grammar::left(a, s), 7nat,
{
    lemma_here(a, b, s, t);
    if grammar::tok(a, s) is OrOr {
        let (s0, t0) = (grammar::next(s), grammar::next(t));
        lemma_and(a, b, s0, t0);
        match (grammar::p_and(a, s0), grammar::p_and(b, t0)) {
            (Parse::Read(x, s1), Parse::Read(y, t1)) => if grammar::moved(a, s, s1) {
                lemma_moved(a, b, s, t, s1, t1);
                let op = ast::BinOp::Or;
                lemma_or_rest(
                    a,
                    b,
                    s1,
                    t1,
                    grammar::binary(op, l, x),
                    grammar::binary(op, m, y),
                );
            },
            _ => {},
        }
    }
}

#[verifier::spinoff_prover]
#[verifier::rlimit(60)]
proof fn lemma_and(a: InputV, b: InputV, s: PlaceV, t: PlaceV)
    requires
        respelled(a, b),
        step(a, b, s, t),
    ensures
        like_expr(a, b, grammar::p_and(a, s), grammar::p_and(b, t)),
    decreases grammar::left(a, s), 6nat,
{
    lemma_cmp(a, b, s, t);
    match (grammar::p_cmp(a, s), grammar::p_cmp(b, t)) {
        (Parse::Read(l, s1), Parse::Read(m, t1)) => if grammar::moved(a, s, s1) {
            lemma_moved(a, b, s, t, s1, t1);
            lemma_and_rest(a, b, s1, t1, l, m);
        },
        _ => {},
    }
}

#[verifier::spinoff_prover]
#[verifier::rlimit(60)]
proof fn lemma_and_rest(a: InputV, b: InputV, s: PlaceV, t: PlaceV, l: ExprV, m: ExprV)
    requires
        respelled(a, b),
        step(a, b, s, t),
        layout::bare_expr(l) == layout::bare_expr(m),
    ensures
        like_expr(a, b, grammar::p_and_rest(a, s, l), grammar::p_and_rest(b, t, m)),
    decreases grammar::left(a, s), 6nat,
{
    lemma_here(a, b, s, t);
    if grammar::tok(a, s) is AndAnd {
        let (s0, t0) = (grammar::next(s), grammar::next(t));
        lemma_cmp(a, b, s0, t0);
        match (grammar::p_cmp(a, s0), grammar::p_cmp(b, t0)) {
            (Parse::Read(x, s1), Parse::Read(y, t1)) => if grammar::moved(a, s, s1) {
                lemma_moved(a, b, s, t, s1, t1);
                let op = ast::BinOp::And;
                lemma_and_rest(
                    a,
                    b,
                    s1,
                    t1,
                    grammar::binary(op, l, x),
                    grammar::binary(op, m, y),
                );
            },
            _ => {},
        }
    }
}

#[verifier::spinoff_prover]
#[verifier::rlimit(60)]
proof fn lemma_cmp(a: InputV, b: InputV, s: PlaceV, t: PlaceV)
    requires
        respelled(a, b),
        step(a, b, s, t),
    ensures
        like_expr(a, b, grammar::p_cmp(a, s), grammar::p_cmp(b, t)),
    decreases grammar::left(a, s), 5nat,
{
    lemma_add(a, b, s, t);
    match (grammar::p_add(a, s), grammar::p_add(b, t)) {
        (Parse::Read(_, s1), Parse::Read(_, t1)) => {
            lemma_here(a, b, s1, t1);
            let (s2, t2) = (grammar::next(s1), grammar::next(t1));
            if grammar::comparison(grammar::tok(a, s1)) is Some && grammar::moved(a, s, s2) {
                lemma_moved(a, b, s, t, s2, t2);
                lemma_add(a, b, s2, t2);
                match (grammar::p_add(a, s2), grammar::p_add(b, t2)) {
                    (Parse::Read(_, s3), Parse::Read(_, t3)) => lemma_here(a, b, s3, t3),
                    _ => {},
                }
            }
        },
        _ => {},
    }
}

#[verifier::spinoff_prover]
#[verifier::rlimit(60)]
proof fn lemma_add(a: InputV, b: InputV, s: PlaceV, t: PlaceV)
    requires
        respelled(a, b),
        step(a, b, s, t),
    ensures
        like_expr(a, b, grammar::p_add(a, s), grammar::p_add(b, t)),
    decreases grammar::left(a, s), 4nat,
{
    lemma_mul(a, b, s, t);
    match (grammar::p_mul(a, s), grammar::p_mul(b, t)) {
        (Parse::Read(l, s1), Parse::Read(m, t1)) => if grammar::moved(a, s, s1) {
            lemma_moved(a, b, s, t, s1, t1);
            lemma_add_rest(a, b, s1, t1, l, m);
        },
        _ => {},
    }
}

#[verifier::spinoff_prover]
#[verifier::rlimit(60)]
proof fn lemma_add_rest(a: InputV, b: InputV, s: PlaceV, t: PlaceV, l: ExprV, m: ExprV)
    requires
        respelled(a, b),
        step(a, b, s, t),
        layout::bare_expr(l) == layout::bare_expr(m),
    ensures
        like_expr(a, b, grammar::p_add_rest(a, s, l), grammar::p_add_rest(b, t, m)),
    decreases grammar::left(a, s), 4nat,
{
    lemma_here(a, b, s, t);
    if grammar::sum_op(grammar::tok(a, s)) is Some {
        let (s0, t0) = (grammar::next(s), grammar::next(t));
        lemma_mul(a, b, s0, t0);
        match (grammar::p_mul(a, s0), grammar::p_mul(b, t0)) {
            (Parse::Read(x, s1), Parse::Read(y, t1)) => if grammar::moved(a, s, s1) {
                lemma_moved(a, b, s, t, s1, t1);
                let op = grammar::sum_op(grammar::tok(a, s))->0;
                lemma_add_rest(
                    a,
                    b,
                    s1,
                    t1,
                    grammar::binary(op, l, x),
                    grammar::binary(op, m, y),
                );
            },
            _ => {},
        }
    }
}

#[verifier::spinoff_prover]
#[verifier::rlimit(60)]
proof fn lemma_mul(a: InputV, b: InputV, s: PlaceV, t: PlaceV)
    requires
        respelled(a, b),
        step(a, b, s, t),
    ensures
        like_expr(a, b, grammar::p_mul(a, s), grammar::p_mul(b, t)),
    decreases grammar::left(a, s), 3nat,
{
    lemma_unary(a, b, s, t);
    match (grammar::p_unary(a, s), grammar::p_unary(b, t)) {
        (Parse::Read(l, s1), Parse::Read(m, t1)) => if grammar::moved(a, s, s1) {
            lemma_moved(a, b, s, t, s1, t1);
            lemma_mul_rest(a, b, s1, t1, l, m);
        },
        _ => {},
    }
}

#[verifier::spinoff_prover]
#[verifier::rlimit(60)]
proof fn lemma_mul_rest(a: InputV, b: InputV, s: PlaceV, t: PlaceV, l: ExprV, m: ExprV)
    requires
        respelled(a, b),
        step(a, b, s, t),
        layout::bare_expr(l) == layout::bare_expr(m),
    ensures
        like_expr(a, b, grammar::p_mul_rest(a, s, l), grammar::p_mul_rest(b, t, m)),
    decreases grammar::left(a, s), 3nat,
{
    lemma_here(a, b, s, t);
    if grammar::product_op(grammar::tok(a, s)) is Some {
        let (s0, t0) = (grammar::next(s), grammar::next(t));
        lemma_unary(a, b, s0, t0);
        match (grammar::p_unary(a, s0), grammar::p_unary(b, t0)) {
            (Parse::Read(x, s1), Parse::Read(y, t1)) => if grammar::moved(a, s, s1) {
                lemma_moved(a, b, s, t, s1, t1);
                let op = grammar::product_op(grammar::tok(a, s))->0;
                lemma_mul_rest(
                    a,
                    b,
                    s1,
                    t1,
                    grammar::binary(op, l, x),
                    grammar::binary(op, m, y),
                );
            },
            _ => {},
        }
    }
}

#[verifier::spinoff_prover]
#[verifier::rlimit(60)]
proof fn lemma_unary(a: InputV, b: InputV, s: PlaceV, t: PlaceV)
    requires
        respelled(a, b),
        step(a, b, s, t),
    ensures
        like_expr(a, b, grammar::p_unary(a, s), grammar::p_unary(b, t)),
    decreases grammar::left(a, s), 2nat,
{
    lemma_here(a, b, s, t);
    if grammar::unary_op(grammar::tok(a, s)) is Some {
        lemma_unary(a, b, grammar::next(s), grammar::next(t));
    } else {
        lemma_primary(a, b, s, t);
    }
}

#[verifier::spinoff_prover]
#[verifier::rlimit(60)]
proof fn lemma_primary(a: InputV, b: InputV, s: PlaceV, t: PlaceV)
    requires
        respelled(a, b),
        step(a, b, s, t),
    ensures
        like_expr(a, b, grammar::p_primary(a, s), grammar::p_primary(b, t)),
    decreases grammar::left(a, s), 1nat,
{
    lemma_here(a, b, s, t);
    let (s1, t1) = (grammar::next(s), grammar::next(t));
    match grammar::tok(a, s) {
        TokV::LParen => {
            lemma_expr(a, b, s1, t1);
            match (grammar::p_expr(a, s1), grammar::p_expr(b, t1)) {
                (Parse::Read(_, s2), Parse::Read(_, t2)) => lemma_expect(
                    a,
                    b,
                    s2,
                    t2,
                    TokV::RParen,
                ),
                _ => {},
            }
        },
        TokV::Ident(_) => {
            lemma_dotted(a, b, s, t);
            match (grammar::p_dotted(a, s), grammar::p_dotted(b, t)) {
                (Parse::Read(_, s2), Parse::Read(_, t2)) => {
                    lemma_here(a, b, s2, t2);
                    if grammar::tok(a, s2) is LParen && grammar::moved(a, s, s2) {
                        lemma_moved(a, b, s, t, s2, t2);
                        lemma_call_args(a, b, s2, t2);
                    }
                },
                _ => {},
            }
        },
        _ => {},
    }
}

#[verifier::spinoff_prover]
#[verifier::rlimit(60)]
proof fn lemma_call_args(a: InputV, b: InputV, s: PlaceV, t: PlaceV)
    requires
        respelled(a, b),
        step(a, b, s, t),
    ensures
        like_args(a, b, grammar::p_call_args(a, s), grammar::p_call_args(b, t)),
    decreases grammar::left(a, s), 12nat,
{
    lemma_here(a, b, s, t);
    let (s1, t1) = (grammar::next(s), grammar::next(t));
    if grammar::tok(a, s) is LParen {
        lemma_here(a, b, s1, t1);
        if !(grammar::tok(a, s1) is RParen) {
            lemma_arg_list(a, b, s1, t1, None, None, seq![], seq![]);
            match (
                grammar::p_arg_list(a, s1, None, seq![]),
                grammar::p_arg_list(b, t1, None, seq![]),
            ) {
                (Parse::Read(_, s2), Parse::Read(_, t2)) => lemma_expect(
                    a,
                    b,
                    s2,
                    t2,
                    TokV::RParen,
                ),
                _ => {},
            }
        }
    }
}

#[verifier::spinoff_prover]
#[verifier::rlimit(60)]
proof fn lemma_arg_list(
    a: InputV,
    b: InputV,
    s: PlaceV,
    t: PlaceV,
    x: Option<Span>,
    y: Option<Span>,
    done: Seq<ArgV>,
    more: Seq<ArgV>,
)
    requires
        respelled(a, b),
        step(a, b, s, t),
        layout::bare_args(done) == layout::bare_args(more),
    ensures
        like_args(
            a,
            b,
            grammar::p_arg_list(a, s, x, done),
            grammar::p_arg_list(b, t, y, more),
        ),
    decreases grammar::left(a, s), 11nat,
{
    let (g, h) = (grammar::gap_before(a, s, x), grammar::gap_before(b, t, y));
    parsing::lemma_gap_before(a, s, x);
    parsing::lemma_gap_before(b, t, y);
    lemma_arg(a, b, g, h);
    match (grammar::p_arg(a, g), grammar::p_arg(b, h)) {
        (Parse::Read(v, s1), Parse::Read(w, t1)) => {
            layout::lemma_push_args(done, v);
            layout::lemma_push_args(more, w);
            lemma_here(a, b, s1, t1);
            parsing::lemma_finish_gap(a, s1, Some(v.span), grammar::here(a, s1).lo);
            parsing::lemma_finish_gap(b, t1, Some(w.span), grammar::here(b, t1).lo);
            let (s2, t2) = (grammar::next(s1), grammar::next(t1));
            if grammar::tok(a, s1) is Comma && grammar::moved(a, s, s2) {
                lemma_moved(a, b, s, t, s2, t2);
                lemma_arg_list(
                    a,
                    b,
                    s2,
                    t2,
                    Some(v.span),
                    Some(w.span),
                    done.push(v),
                    more.push(w),
                );
            }
        },
        _ => {},
    }
}

#[verifier::spinoff_prover]
#[verifier::rlimit(60)]
proof fn lemma_arg(a: InputV, b: InputV, s: PlaceV, t: PlaceV)
    requires
        respelled(a, b),
        step(a, b, s, t),
    ensures
        like_arg(a, b, grammar::p_arg(a, s), grammar::p_arg(b, t)),
    decreases grammar::left(a, s), 10nat,
{
    lemma_here(a, b, s, t);
    if grammar::tok(a, s) is Ident {
        lemma_second(a, b, s, t);
        if grammar::tok_at(a, s, 1) is Eq {
            lemma_third(a, b, s, t);
        }
    }
    let named = grammar::tok(a, s) is Ident && grammar::tok_at(a, s, 1) is Eq && !(
    grammar::tok_at(a, s, 2) is EqEq);
    if named {
        lemma_expr(a, b, grammar::next(grammar::next(s)), grammar::next(grammar::next(t)));
    } else {
        lemma_expr(a, b, s, t);
    }
}

#[verifier::spinoff_prover]
#[verifier::rlimit(60)]
proof fn lemma_expr_list(a: InputV, b: InputV, s: PlaceV, t: PlaceV, done: Seq<ExprV>, more: Seq<ExprV>)
    requires
        respelled(a, b),
        step(a, b, s, t),
        layout::bare_exprs(done) == layout::bare_exprs(more),
    ensures
        like_exprs(a, b, grammar::p_expr_list(a, s, done), grammar::p_expr_list(b, t, more)),
    decreases grammar::left(a, s), 9nat,
{
    lemma_expr(a, b, s, t);
    match (grammar::p_expr(a, s), grammar::p_expr(b, t)) {
        (Parse::Read(v, s1), Parse::Read(w, t1)) => {
            layout::lemma_push_exprs(done, v);
            layout::lemma_push_exprs(more, w);
            lemma_here(a, b, s1, t1);
            let (s2, t2) = (grammar::next(s1), grammar::next(t1));
            if grammar::tok(a, s1) is Comma && grammar::moved(a, s, s2) {
                lemma_moved(a, b, s, t, s2, t2);
                lemma_expr_list(a, b, s2, t2, done.push(v), more.push(w));
            }
        },
        _ => {},
    }
}

// ───────────────────────── statements ─────────────────────────

#[verifier::spinoff_prover]
#[verifier::rlimit(60)]
proof fn lemma_set(a: InputV, b: InputV, s: PlaceV, t: PlaceV, x: Span, y: Span)
    requires
        respelled(a, b),
        step(a, b, s, t),
    ensures
        like_stmt(a, b, grammar::p_set(a, s, x), grammar::p_set(b, t, y)),
{
    reveal(grammar::p_set);
    lemma_dotted(a, b, s, t);
    match (grammar::p_dotted(a, s), grammar::p_dotted(b, t)) {
        (Parse::Read(_, s1), Parse::Read(_, t1)) => {
            lemma_expect(a, b, s1, t1, TokV::Eq);
            let (s2, t2) = (grammar::next(s1), grammar::next(t1));
            if grammar::tok(a, s1) is Eq {
                lemma_expr(a, b, s2, t2);
                match (grammar::p_expr(a, s2), grammar::p_expr(b, t2)) {
                    (Parse::Read(_, s3), Parse::Read(_, t3)) => lemma_expect(
                        a,
                        b,
                        s3,
                        t3,
                        TokV::Semi,
                    ),
                    _ => {},
                }
            }
        },
        _ => {},
    }
}

#[verifier::spinoff_prover]
#[verifier::rlimit(60)]
proof fn lemma_unset(a: InputV, b: InputV, s: PlaceV, t: PlaceV, x: Span, y: Span)
    requires
        respelled(a, b),
        step(a, b, s, t),
    ensures
        like_stmt(a, b, grammar::p_unset(a, s, x), grammar::p_unset(b, t, y)),
{
    reveal(grammar::p_unset);
    lemma_dotted(a, b, s, t);
    match (grammar::p_dotted(a, s), grammar::p_dotted(b, t)) {
        (Parse::Read(_, s1), Parse::Read(_, t1)) => lemma_expect(a, b, s1, t1, TokV::Semi),
        _ => {},
    }
}

#[verifier::spinoff_prover]
#[verifier::rlimit(60)]
proof fn lemma_call(a: InputV, b: InputV, s: PlaceV, t: PlaceV, x: Span, y: Span)
    requires
        respelled(a, b),
        step(a, b, s, t),
    ensures
        like_stmt(a, b, grammar::p_call(a, s, x), grammar::p_call(b, t, y)),
{
    reveal(grammar::p_call);
    lemma_ident(a, b, s, t);
    match (grammar::p_ident(a, s), grammar::p_ident(b, t)) {
        (Parse::Read(_, s1), Parse::Read(_, t1)) => lemma_expect(a, b, s1, t1, TokV::Semi),
        _ => {},
    }
}

#[verifier::spinoff_prover]
#[verifier::rlimit(60)]
proof fn lemma_action_args(a: InputV, b: InputV, s: PlaceV, t: PlaceV)
    requires
        respelled(a, b),
        step(a, b, s, t),
    ensures
        like_exprs(a, b, grammar::p_action_args(a, s), grammar::p_action_args(b, t)),
{
    reveal(grammar::p_action_args);
    lemma_here(a, b, s, t);
    if grammar::tok(a, s) is LParen {
        let (s1, t1) = (grammar::next(s), grammar::next(t));
        lemma_here(a, b, s1, t1);
        if !(grammar::tok(a, s1) is RParen) {
            lemma_expr_list(a, b, s1, t1, seq![], seq![]);
            match (grammar::p_expr_list(a, s1, seq![]), grammar::p_expr_list(b, t1, seq![])) {
                (Parse::Read(_, s2), Parse::Read(_, t2)) => lemma_expect(
                    a,
                    b,
                    s2,
                    t2,
                    TokV::RParen,
                ),
                _ => {},
            }
        }
    }
}

#[verifier::spinoff_prover]
#[verifier::rlimit(60)]
proof fn lemma_action(a: InputV, b: InputV, s: PlaceV, t: PlaceV)
    requires
        respelled(a, b),
        step(a, b, s, t),
    ensures
        like_action(a, b, grammar::p_action(a, s), grammar::p_action(b, t)),
{
    reveal(grammar::p_action);
    lemma_ident(a, b, s, t);
    match (grammar::p_ident(a, s), grammar::p_ident(b, t)) {
        (Parse::Read(_, s1), Parse::Read(_, t1)) => {
            lemma_action_args(a, b, s1, t1);
            match (grammar::p_action_args(a, s1), grammar::p_action_args(b, t1)) {
                (Parse::Read(_, s2), Parse::Read(_, t2)) => lemma_expect(
                    a,
                    b,
                    s2,
                    t2,
                    TokV::RParen,
                ),
                _ => {},
            }
        },
        _ => {},
    }
}

#[verifier::spinoff_prover]
#[verifier::rlimit(60)]
proof fn lemma_return(a: InputV, b: InputV, s: PlaceV, t: PlaceV, x: Span, y: Span)
    requires
        respelled(a, b),
        step(a, b, s, t),
    ensures
        like_stmt(a, b, grammar::p_return(a, s, x), grammar::p_return(b, t, y)),
{
    reveal(grammar::p_return);
    lemma_here(a, b, s, t);
    if grammar::tok(a, s) is LParen {
        let (s1, t1) = (grammar::next(s), grammar::next(t));
        lemma_action(a, b, s1, t1);
        match (grammar::p_action(a, s1), grammar::p_action(b, t1)) {
            (Parse::Read(_, s2), Parse::Read(_, t2)) => lemma_expect(a, b, s2, t2, TokV::Semi),
            _ => {},
        }
    }
}

#[verifier::spinoff_prover]
#[verifier::rlimit(60)]
proof fn lemma_condition(a: InputV, b: InputV, s: PlaceV, t: PlaceV)
    requires
        respelled(a, b),
        step(a, b, s, t),
    ensures
        like_expr(a, b, grammar::p_condition(a, s), grammar::p_condition(b, t)),
{
    reveal(grammar::p_condition);
    lemma_expect(a, b, s, t, TokV::LParen);
    if grammar::tok(a, s) is LParen {
        let (s1, t1) = (grammar::next(s), grammar::next(t));
        lemma_expr(a, b, s1, t1);
        match (grammar::p_expr(a, s1), grammar::p_expr(b, t1)) {
            (Parse::Read(_, s2), Parse::Read(_, t2)) => lemma_expect(a, b, s2, t2, TokV::RParen),
            _ => {},
        }
    }
}

#[verifier::spinoff_prover]
#[verifier::rlimit(60)]
proof fn lemma_synthetic(a: InputV, b: InputV, s: PlaceV, t: PlaceV, x: Span, y: Span)
    requires
        respelled(a, b),
        step(a, b, s, t),
    ensures
        like_stmt(a, b, grammar::p_synthetic(a, s, x), grammar::p_synthetic(b, t, y)),
{
    reveal(grammar::p_synthetic);
    lemma_condition(a, b, s, t);
    match (grammar::p_condition(a, s), grammar::p_condition(b, t)) {
        (Parse::Read(_, s1), Parse::Read(_, t1)) => lemma_expect(a, b, s1, t1, TokV::Semi),
        _ => {},
    }
}

#[verifier::spinoff_prover]
#[verifier::rlimit(60)]
proof fn lemma_new(a: InputV, b: InputV, s: PlaceV, t: PlaceV, x: Span, y: Span)
    requires
        respelled(a, b),
        step(a, b, s, t),
    ensures
        like_stmt(a, b, grammar::p_new(a, s, x), grammar::p_new(b, t, y)),
{
    reveal(grammar::p_new);
    let (s1, t1) = (grammar::next(s), grammar::next(t));
    let (s2, t2) = (grammar::next(s1), grammar::next(t1));
    let (s3, t3) = (grammar::next(s2), grammar::next(t2));
    let (s4, t4) = (grammar::next(s3), grammar::next(t3));
    let (s5, t5) = (grammar::next(s4), grammar::next(t4));
    lemma_ident(a, b, s, t);
    if grammar::tok(a, s) is Ident {
        lemma_expect(a, b, s1, t1, TokV::Eq);
        if grammar::tok(a, s1) is Eq {
            lemma_ident(a, b, s2, t2);
            if grammar::tok(a, s2) is Ident {
                lemma_expect(a, b, s3, t3, TokV::Dot);
                if grammar::tok(a, s3) is Dot {
                    lemma_ident(a, b, s4, t4);
                    if grammar::tok(a, s4) is Ident {
                        lemma_call_args(a, b, s5, t5);
                        match (grammar::p_call_args(a, s5), grammar::p_call_args(b, t5)) {
                            (Parse::Read(_, s6), Parse::Read(_, t6)) => lemma_expect(
                                a,
                                b,
                                s6,
                                t6,
                                TokV::Semi,
                            ),
                            _ => {},
                        }
                    }
                }
            }
        }
    }
}

#[verifier::spinoff_prover]
#[verifier::rlimit(60)]
proof fn lemma_expr_stmt(a: InputV, b: InputV, s: PlaceV, t: PlaceV, x: Span, y: Span)
    requires
        respelled(a, b),
        step(a, b, s, t),
    ensures
        like_stmt(a, b, grammar::p_expr_stmt(a, s, x), grammar::p_expr_stmt(b, t, y)),
{
    reveal(grammar::p_expr_stmt);
    lemma_dotted(a, b, s, t);
    match (grammar::p_dotted(a, s), grammar::p_dotted(b, t)) {
        (Parse::Read(_, s1), Parse::Read(_, t1)) => {
            lemma_call_args(a, b, s1, t1);
            match (grammar::p_call_args(a, s1), grammar::p_call_args(b, t1)) {
                (Parse::Read(_, s2), Parse::Read(_, t2)) => lemma_expect(
                    a,
                    b,
                    s2,
                    t2,
                    TokV::Semi,
                ),
                _ => {},
            }
        },
        _ => {},
    }
}

/// What was read of a list stays in it.
proof fn lemma_stmts_stay(a: InputV, s: PlaceV, prev: Option<Span>, done: Seq<StmtV>)
    ensures
        grammar::p_stmts(a, s, prev, done) matches Parse::Read(v, _) ==> done.is_prefix_of(v),
    decreases grammar::left(a, s),
{
    let g = grammar::gap_before(a, s, prev);
    match grammar::p_stmt(a, g) {
        Parse::Read(x, u) => if grammar::moved(a, s, u) {
            lemma_stmts_stay(a, u, Some(ast::stmt_span(x)), done.push(x));
            assert(done.is_prefix_of(done.push(x)));
        },
        _ => {},
    }
}

proof fn lemma_arms_stay(a: InputV, s: PlaceV, start: Span, arms: Seq<ArmV>)
    ensures
        grammar::p_if_rest(a, s, start, arms) matches Parse::Read(v, _) ==> (v matches StmtV::If {
            arms: all,
            ..
        } && arms.is_prefix_of(all)),
    decreases grammar::left(a, s),
{
    match grammar::another_arm(a, s) {
        Some(n) => match grammar::p_arm(a, PlaceV { pos: s.pos + n, ..s }) {
            Parse::Read(x, u) => if grammar::moved(a, s, u) {
                lemma_arms_stay(a, u, start, arms.push(x));
                assert(arms.is_prefix_of(arms.push(x)));
            },
            _ => {},
        },
        None => {},
    }
}

proof fn lemma_other_words()
    ensures
        "elsif"@ != "set"@ && "elsif"@ != "unset"@ && "elsif"@ != "call"@ && "elsif"@ != "return"@,
        "elsif"@ != "synthetic"@ && "elsif"@ != "new"@ && "elsif"@ != "if"@,
        "elseif"@ != "set"@ && "elseif"@ != "unset"@ && "elseif"@ != "call"@ && "elseif"@
            != "return"@,
        "elseif"@ != "synthetic"@ && "elseif"@ != "new"@ && "elseif"@ != "if"@,
        "else"@ != "set"@ && "else"@ != "unset"@ && "else"@ != "call"@ && "else"@ != "return"@,
        "else"@ != "synthetic"@ && "else"@ != "new"@ && "else"@ != "if"@,
        "elsif"@ != "import"@ && "elsif"@ != "backend"@ && "elsif"@ != "probe"@ && "elsif"@
            != "acl"@ && "elsif"@ != "sub"@ && "elsif"@ != "vcl"@,
        "elseif"@ != "import"@ && "elseif"@ != "backend"@ && "elseif"@ != "probe"@ && "elseif"@
            != "acl"@ && "elseif"@ != "sub"@ && "elseif"@ != "vcl"@,
        "else"@ != "import"@ && "else"@ != "backend"@ && "else"@ != "probe"@ && "else"@ != "acl"@
            && "else"@ != "sub"@ && "else"@ != "vcl"@,
        "else"@ != "elsif"@ && "else"@ != "elseif"@,
{
    reveal_strlit("elsif");
    reveal_strlit("elseif");
    reveal_strlit("else");
    reveal_strlit("set");
    reveal_strlit("unset");
    reveal_strlit("call");
    reveal_strlit("return");
    reveal_strlit("synthetic");
    reveal_strlit("new");
    reveal_strlit("if");
    reveal_strlit("import");
    reveal_strlit("backend");
    reveal_strlit("probe");
    reveal_strlit("acl");
    reveal_strlit("sub");
    reveal_strlit("vcl");
    assert("elsif"@.len() == 5 && "elseif"@.len() == 6 && "else"@.len() == 4);
    assert("elsif"@[0] == 'e' && "elseif"@[0] == 'e' && "else"@[0] == 'e');
    assert("unset"@[0] == 'u' && "call"@[0] == 'c' && "return"@[0] == 'r' && "probe"@[0] == 'p');
    assert("import"@[0] == 'i');
}

/// A statement at the words of an arm is a call of a function of that name.
proof fn lemma_word_call(a: InputV, s: PlaceV)
    requires
        arm_at(a, s.pos),
    ensures
        grammar::p_stmt(a, s) matches Parse::Read(x, _) ==> word_call(x),
{
    reveal(arm_at);
    reveal(grammar::p_expr_stmt);
    reveal(grammar::p_dotted);
    reveal_with_fuel(grammar::p_dotted_rest, 2);
    lemma_other_words();
    let s1 = grammar::next(s);
    assert(grammar::tok(a, s) == tok_of(a, s.pos as int));
    assert(grammar::tok(a, s1) == tok_of(a, s.pos as int + 1));
}

#[verifier::spinoff_prover]
#[verifier::rlimit(60)]
proof fn lemma_block(a: InputV, b: InputV, s: PlaceV, t: PlaceV, x: Option<Span>, y: Option<Span>)
    requires
        respelled(a, b),
        step(a, b, s, t),
        grammar::p_block(a, s, x) matches Parse::Read(v, _) && told_stmts(v),
    ensures
        like_stmts(a, b, grammar::p_block(a, s, x), grammar::p_block(b, t, y)),
    decreases grammar::left(a, s), 22nat,
{
    lemma_here(a, b, s, t);
    lemma_stmts(a, b, grammar::next(s), grammar::next(t), x, y, seq![], seq![]);
}

#[verifier::spinoff_prover]
#[verifier::rlimit(60)]
proof fn lemma_stmts(
    a: InputV,
    b: InputV,
    s: PlaceV,
    t: PlaceV,
    x: Option<Span>,
    y: Option<Span>,
    done: Seq<StmtV>,
    more: Seq<StmtV>,
)
    requires
        respelled(a, b),
        meet(a, b, s, t),
        layout::bare_stmts(done) == layout::bare_stmts(more),
        arm_at(a, s.pos) ==> done.len() > 0 && shut_if(done.last()),
        grammar::p_stmts(a, s, x, done) matches Parse::Read(v, _) && told_stmts(v),
    ensures
        like_stmts(
            a,
            b,
            grammar::p_stmts(a, s, x, done),
            grammar::p_stmts(b, t, y, more),
        ),
    decreases grammar::left(a, s), 21nat,
{
    let (g, h) = (grammar::gap_before(a, s, x), grammar::gap_before(b, t, y));
    parsing::lemma_gap_before(a, s, x);
    parsing::lemma_gap_before(b, t, y);
    let (s1, t1) = (grammar::next(s), grammar::next(t));
    parsing::lemma_finish_gap(a, s1, x, grammar::here(a, s).lo);
    parsing::lemma_finish_gap(b, t1, y, grammar::here(b, t).lo);
    let v = grammar::p_stmts(a, s, x, done)->Read_0;
    if arm_at(a, s.pos) {
        lemma_arm_words(a, s.pos);
        assert(grammar::tok(a, s) is Ident);
        lemma_word_call(a, g);
        match grammar::p_stmt(a, g) {
            Parse::Read(z, u) => {
                lemma_stmts_stay(a, u, Some(ast::stmt_span(z)), done.push(z));
                let n = done.len() as int;
                assert(done.push(z)[n] == v[n] && done.push(z)[n - 1] == v[n - 1]);
                assert(told_apart(v, n));
            },
            _ => {},
        }
    } else {
        lemma_here(a, b, s, t);
        if !(grammar::tok(a, s) is RBrace) {
            match grammar::p_stmt(a, g) {
                Parse::Read(z, u) => {
                    lemma_stmts_stay(a, u, Some(ast::stmt_span(z)), done.push(z));
                    let n = done.len() as int;
                    assert(done.push(z)[n] == v[n]);
                    assert(told_stmt(z));
                    lemma_stmt(a, b, g, h);
                    match grammar::p_stmt(b, h) {
                        Parse::Read(r, w) => {
                            lemma_moved(a, b, s, t, u, w);
                            layout::lemma_push_stmts(done, z);
                            layout::lemma_push_stmts(more, r);
                            lemma_stmts(
                                a,
                                b,
                                u,
                                w,
                                Some(ast::stmt_span(z)),
                                Some(ast::stmt_span(r)),
                                done.push(z),
                                more.push(r),
                            );
                        },
                        _ => {},
                    }
                },
                _ => {},
            }
        }
    }
}

#[verifier::spinoff_prover]
#[verifier::rlimit(60)]
proof fn lemma_stmt(a: InputV, b: InputV, s: PlaceV, t: PlaceV)
    requires
        respelled(a, b),
        step(a, b, s, t),
        grammar::p_stmt(a, s) matches Parse::Read(v, _) && told_stmt(v),
    ensures
        like_stmt(a, b, grammar::p_stmt(a, s), grammar::p_stmt(b, t)),
    decreases grammar::left(a, s), 20nat,
{
    lemma_here(a, b, s, t);
    let (s1, t1) = (grammar::next(s), grammar::next(t));
    let (x, y) = (grammar::here(a, s), grammar::here(b, t));
    match grammar::tok(a, s) {
        TokV::Ident(kw) => if kw == "set"@ {
            lemma_set(a, b, s1, t1, x, y);
        } else if kw == "unset"@ {
            lemma_unset(a, b, s1, t1, x, y);
        } else if kw == "call"@ {
            lemma_call(a, b, s1, t1, x, y);
        } else if kw == "return"@ {
            lemma_return(a, b, s1, t1, x, y);
        } else if kw == "synthetic"@ {
            lemma_synthetic(a, b, s1, t1, x, y);
        } else if kw == "new"@ {
            lemma_new(a, b, s1, t1, x, y);
        } else if kw == "if"@ {
            lemma_if(a, b, s1, t1, x, y);
        } else {
            lemma_expr_stmt(a, b, s, t, x, y);
        },
        _ => {},
    }
}

#[verifier::spinoff_prover]
#[verifier::rlimit(60)]
proof fn lemma_arm(a: InputV, b: InputV, s: PlaceV, t: PlaceV)
    requires
        respelled(a, b),
        step(a, b, s, t),
        grammar::p_arm(a, s) matches Parse::Read(v, _) && told_arm(v),
    ensures
        like_arm(a, b, grammar::p_arm(a, s), grammar::p_arm(b, t)),
    decreases grammar::left(a, s), 23nat,
{
    lemma_condition(a, b, s, t);
    match (grammar::p_condition(a, s), grammar::p_condition(b, t)) {
        (Parse::Read(_, s1), Parse::Read(_, t1)) => if grammar::moved(a, s, s1) {
            lemma_moved(a, b, s, t, s1, t1);
            lemma_block(a, b, s1, t1, None, None);
        },
        _ => {},
    }
}

#[verifier::spinoff_prover]
#[verifier::rlimit(60)]
proof fn lemma_if(a: InputV, b: InputV, s: PlaceV, t: PlaceV, x: Span, y: Span)
    requires
        respelled(a, b),
        step(a, b, s, t),
        grammar::p_if(a, s, x) matches Parse::Read(v, _) && told_stmt(v),
    ensures
        like_stmt(a, b, grammar::p_if(a, s, x), grammar::p_if(b, t, y)),
    decreases grammar::left(a, s), 24nat,
{
    match grammar::p_arm(a, s) {
        Parse::Read(v, s1) => {
            lemma_arms_stay(a, s1, x, seq![v]);
            match grammar::p_if_rest(a, s1, x, seq![v]) {
                Parse::Read(StmtV::If { arms, .. }, _) => {
                    assert(seq![v][0] == arms[0]);
                    assert(told_arm(arms[0]));
                },
                _ => {},
            }
            lemma_arm(a, b, s, t);
            match grammar::p_arm(b, t) {
                Parse::Read(w, t1) => {
                    lemma_moved(a, b, s, t, s1, t1);
                    layout::lemma_push_arms(seq![], v);
                    layout::lemma_push_arms(seq![], w);
                    assert(seq![v] =~= Seq::<ArmV>::empty().push(v));
                    assert(seq![w] =~= Seq::<ArmV>::empty().push(w));
                    lemma_if_rest(a, b, s1, t1, x, y, seq![v], seq![w]);
                },
                _ => {},
            }
        },
        _ => {},
    }
}

#[verifier::spinoff_prover]
#[verifier::rlimit(60)]
proof fn lemma_if_rest(
    a: InputV,
    b: InputV,
    s: PlaceV,
    t: PlaceV,
    x: Span,
    y: Span,
    arms: Seq<ArmV>,
    more: Seq<ArmV>,
)
    requires
        respelled(a, b),
        meet(a, b, s, t),
        behind_block(a, s),
        layout::bare_arms(arms) == layout::bare_arms(more),
        grammar::p_if_rest(a, s, x, arms) matches Parse::Read(v, _) && told_stmt(v),
    ensures
        like_stmt(
            a,
            b,
            grammar::p_if_rest(a, s, x, arms),
            grammar::p_if_rest(b, t, y, more),
        ),
    decreases grammar::left(a, s), 24nat,
{
    match grammar::another_arm(a, s) {
        Some(n) => {
            let u = PlaceV { pos: s.pos + n, ..s };
            lemma_words_read(a, s, n);
            let m = arm_words(b, t.pos);
            lemma_words_meet(a, b, s, t);
            let w = PlaceV { pos: t.pos + m, ..t };
            match grammar::p_arm(a, u) {
                Parse::Read(v, s1) => {
                    lemma_arms_stay(a, s1, x, arms.push(v));
                    match grammar::p_if_rest(a, s1, x, arms.push(v)) {
                        Parse::Read(StmtV::If { arms: all, .. }, _) => {
                            assert(arms.push(v)[arms.len() as int] == all[arms.len() as int]);
                            assert(told_arm(all[arms.len() as int]));
                        },
                        _ => {},
                    }
                    lemma_arm(a, b, u, w);
                    match grammar::p_arm(b, w) {
                        Parse::Read(z, t1) => {
                            lemma_moved(a, b, s, t, s1, t1);
                            layout::lemma_push_arms(arms, v);
                            layout::lemma_push_arms(more, z);
                            lemma_if_rest(a, b, s1, t1, x, y, arms.push(v), more.push(z));
                        },
                        _ => {},
                    }
                },
                _ => {},
            }
        },
        None => {
            lemma_no_words(a, s);
            lemma_here(a, b, s, t);
            lemma_no_words_there(a, b, s, t);
            if grammar::tok(a, s) == TokV::Ident("else"@) {
                lemma_block(a, b, grammar::next(s), grammar::next(t), None, None);
            }
        },
    }
}

proof fn lemma_words_read(a: InputV, s: PlaceV, n: nat)
    requires
        behind_block(a, s),
        grammar::another_arm(a, s) == Some(n),
        grammar::p_arm(a, PlaceV { pos: s.pos + n, ..s }) is Read,
    ensures
        arm_at(a, s.pos),
        arm_words(a, s.pos) == n,
{
    reveal(arm_at);
    reveal(grammar::another_arm);
    reveal(grammar::p_condition);
    let u = PlaceV { pos: s.pos + n, ..s };
    assert(grammar::tok(a, u) is LParen);
}

proof fn lemma_words_meet(a: InputV, b: InputV, s: PlaceV, t: PlaceV)
    requires
        respelled(a, b),
        meet(a, b, s, t),
        arm_at(a, s.pos),
    ensures
        ({
            let n = arm_words(a, s.pos);
            let m = arm_words(b, t.pos);
            &&& grammar::another_arm(b, t) == Some(m)
            &&& n > 0
            &&& step(a, b, PlaceV { pos: s.pos + n, ..s }, PlaceV { pos: t.pos + m, ..t })
        }),
{
    lemma_arm_words(a, s.pos);
    lemma_within(a, s.pos);
    assert(arm_words(b, place(a, b, s.pos as int as nat)) > 0);
    reveal(grammar::another_arm);
    lemma_other_words();
}

proof fn lemma_no_words(a: InputV, s: PlaceV)
    requires
        grammar::another_arm(a, s) is None,
    ensures
        !arm_at(a, s.pos),
{
    reveal(arm_at);
    reveal(grammar::another_arm);
}

proof fn lemma_no_words_there(a: InputV, b: InputV, s: PlaceV, t: PlaceV)
    requires
        respelled(a, b),
        step(a, b, s, t),
        grammar::another_arm(a, s) is None,
    ensures
        grammar::another_arm(b, t) is None,
{
    reveal(grammar::another_arm);
    lemma_here(a, b, s, t);
    if grammar::tok(a, s) == TokV::Ident("else"@) {
        lemma_second(a, b, s, t);
    }
}

// ───────────────────────── declarations ─────────────────────────

#[verifier::spinoff_prover]
#[verifier::rlimit(60)]
proof fn lemma_strings(a: InputV, b: InputV, s: PlaceV, t: PlaceV, done: Seq<Seq<char>>)
    requires
        respelled(a, b),
        step(a, b, s, t),
    ensures
        ({
            let (l, u) = grammar::p_strings(a, s, done);
            let (m, w) = grammar::p_strings(b, t, done);
            l == m && step(a, b, u, w)
        }),
    decreases grammar::left(a, s),
{
    reveal_with_fuel(grammar::p_strings, 2);
    lemma_here(a, b, s, t);
    match grammar::tok(a, s) {
        TokV::Str(x) => lemma_strings(a, b, grammar::next(s), grammar::next(t), done.push(x)),
        _ => {},
    }
}

#[verifier::spinoff_prover]
#[verifier::rlimit(60)]
proof fn lemma_fields(
    a: InputV,
    b: InputV,
    s: PlaceV,
    t: PlaceV,
    x: Option<Span>,
    y: Option<Span>,
    done: Seq<FieldV>,
    more: Seq<FieldV>,
)
    requires
        respelled(a, b),
        meet(a, b, s, t),
        layout::bare_fields(done) == layout::bare_fields(more),
    ensures
        like_fields(
            a,
            b,
            grammar::p_fields(a, s, x, done),
            grammar::p_fields(b, t, y, more),
        ),
    decreases grammar::left(a, s), 31nat,
{
    let (g, h) = (grammar::gap_before(a, s, x), grammar::gap_before(b, t, y));
    parsing::lemma_gap_before(a, s, x);
    parsing::lemma_gap_before(b, t, y);
    let (s1, t1) = (grammar::next(s), grammar::next(t));
    parsing::lemma_finish_gap(a, s1, x, grammar::here(a, s).lo);
    parsing::lemma_finish_gap(b, t1, y, grammar::here(b, t).lo);
    if arm_at(a, s.pos) {
        lemma_arm_words(a, s.pos);
        assert(grammar::tok(a, g) is Ident);
        assert(grammar::p_field(a, g) is Bad);
    } else {
        lemma_here(a, b, s, t);
        if !(grammar::tok(a, s) is RBrace) {
            lemma_field(a, b, g, h);
            match (grammar::p_field(a, g), grammar::p_field(b, h)) {
                (Parse::Read(v, u), Parse::Read(r, w)) => if grammar::moved(a, s, u) {
                    lemma_moved(a, b, s, t, u, w);
                    layout::lemma_push_fields(done, v);
                    layout::lemma_push_fields(more, r);
                    lemma_fields(
                        a,
                        b,
                        u,
                        w,
                        Some(v.span),
                        Some(r.span),
                        done.push(v),
                        more.push(r),
                    );
                },
                _ => {},
            }
        }
    }
}

#[verifier::spinoff_prover]
#[verifier::rlimit(60)]
proof fn lemma_field(a: InputV, b: InputV, s: PlaceV, t: PlaceV)
    requires
        respelled(a, b),
        step(a, b, s, t),
    ensures
        like_field(a, b, grammar::p_field(a, s), grammar::p_field(b, t)),
    decreases grammar::left(a, s), 30nat,
{
    let (s1, t1) = (grammar::next(s), grammar::next(t));
    let (s2, t2) = (grammar::next(s1), grammar::next(t1));
    let (s3, t3) = (grammar::next(s2), grammar::next(t2));
    let (x, y) = (grammar::here(a, s), grammar::here(b, t));
    lemma_expect(a, b, s, t, TokV::Dot);
    if grammar::tok(a, s) is Dot {
        lemma_ident(a, b, s1, t1);
        if grammar::tok(a, s1) is Ident {
            lemma_expect(a, b, s2, t2, TokV::Eq);
            if grammar::tok(a, s2) is Eq && grammar::moved(a, s, s3) {
                lemma_moved(a, b, s, t, s3, t3);
                lemma_field_value(a, b, s3, t3, x, y);
                match (grammar::p_field_value(a, s3, x), grammar::p_field_value(b, t3, y)) {
                    (Parse::Read(v, s4), Parse::Read(w, t4)) => if !(v is Probe) {
                        lemma_expect(a, b, s4, t4, TokV::Semi);
                    },
                    _ => {},
                }
            }
        }
    }
}

#[verifier::spinoff_prover]
#[verifier::rlimit(60)]
proof fn lemma_field_value(a: InputV, b: InputV, s: PlaceV, t: PlaceV, x: Span, y: Span)
    requires
        respelled(a, b),
        step(a, b, s, t),
    ensures
        like_value(a, b, grammar::p_field_value(a, s, x), grammar::p_field_value(b, t, y)),
    decreases grammar::left(a, s), 32nat,
{
    lemma_here(a, b, s, t);
    if grammar::tok(a, s) is LBrace {
        lemma_fields(
            a,
            b,
            grammar::next(s),
            grammar::next(t),
            Some(x),
            Some(y),
            seq![],
            seq![],
        );
    } else {
        if !(grammar::tok(a, s) is RBrace) {
            lemma_second(a, b, s, t);
        }
        lemma_strings(a, b, s, t, seq![]);
        lemma_expr(a, b, s, t);
    }
}

#[verifier::spinoff_prover]
#[verifier::rlimit(60)]
proof fn lemma_acl_entry(a: InputV, b: InputV, s: PlaceV, t: PlaceV)
    requires
        respelled(a, b),
        step(a, b, s, t),
    ensures
        like_entry(a, b, grammar::p_acl_entry(a, s), grammar::p_acl_entry(b, t)),
{
    reveal(grammar::p_acl_entry);
    reveal(grammar::p_mask);
    lemma_here(a, b, s, t);
    let negated = grammar::tok(a, s) is Bang;
    let (s1, t1) = if negated {
        (grammar::next(s), grammar::next(t))
    } else {
        (s, t)
    };
    lemma_str(a, b, s1, t1);
    if grammar::tok(a, s1) is Str {
        let (s2, t2) = (grammar::next(s1), grammar::next(t1));
        lemma_here(a, b, s2, t2);
        if grammar::tok(a, s2) is Slash {
            let (s3, t3) = (grammar::next(s2), grammar::next(t2));
            lemma_here(a, b, s3, t3);
            if grammar::tok(a, s3) is Num {
                lemma_expect(a, b, grammar::next(s3), grammar::next(t3), TokV::Semi);
            }
        }
    }
}

#[verifier::spinoff_prover]
#[verifier::rlimit(60)]
proof fn lemma_acl_entries(
    a: InputV,
    b: InputV,
    s: PlaceV,
    t: PlaceV,
    x: Option<Span>,
    y: Option<Span>,
    done: Seq<AclEntryV>,
    more: Seq<AclEntryV>,
)
    requires
        respelled(a, b),
        step(a, b, s, t),
        layout::bare_entries(done) == layout::bare_entries(more),
    ensures
        like_entries(
            a,
            b,
            grammar::p_acl_entries(a, s, x, done),
            grammar::p_acl_entries(b, t, y, more),
        ),
    decreases grammar::left(a, s),
{
    reveal_with_fuel(grammar::p_acl_entries, 2);
    let (g, h) = (grammar::gap_before(a, s, x), grammar::gap_before(b, t, y));
    parsing::lemma_gap_before(a, s, x);
    parsing::lemma_gap_before(b, t, y);
    let (s1, t1) = (grammar::next(s), grammar::next(t));
    parsing::lemma_finish_gap(a, s1, x, grammar::here(a, s).lo);
    parsing::lemma_finish_gap(b, t1, y, grammar::here(b, t).lo);
    lemma_here(a, b, s, t);
    if !(grammar::tok(a, s) is RBrace) {
        lemma_acl_entry(a, b, g, h);
        match (grammar::p_acl_entry(a, g), grammar::p_acl_entry(b, h)) {
            (Parse::Read(v, u), Parse::Read(r, w)) => if grammar::moved(a, s, u) {
                lemma_moved(a, b, s, t, u, w);
                layout::lemma_push_entries(done, v);
                layout::lemma_push_entries(more, r);
                lemma_acl_entries(
                    a,
                    b,
                    u,
                    w,
                    Some(v.span),
                    Some(r.span),
                    done.push(v),
                    more.push(r),
                );
            },
            _ => {},
        }
    }
}

#[verifier::spinoff_prover]
#[verifier::rlimit(60)]
proof fn lemma_import(a: InputV, b: InputV, s: PlaceV, t: PlaceV, x: Span, y: Span)
    requires
        respelled(a, b),
        step(a, b, s, t),
    ensures
        like_decl(a, b, grammar::p_import(a, s, x), grammar::p_import(b, t, y)),
{
    reveal(grammar::p_import);
    lemma_ident(a, b, s, t);
    if grammar::tok(a, s) is Ident {
        let (s1, t1) = (grammar::next(s), grammar::next(t));
        lemma_here(a, b, s1, t1);
        if grammar::tok(a, s1) == TokV::Ident("from"@) {
            let (s2, t2) = (grammar::next(s1), grammar::next(t1));
            lemma_str(a, b, s2, t2);
            if grammar::tok(a, s2) is Str {
                lemma_expect(a, b, grammar::next(s2), grammar::next(t2), TokV::Semi);
            }
        }
    }
}

#[verifier::spinoff_prover]
#[verifier::rlimit(60)]
proof fn lemma_field_block(a: InputV, b: InputV, s: PlaceV, t: PlaceV, x: Span, y: Span)
    requires
        respelled(a, b),
        step(a, b, s, t),
    ensures
        like_fields(a, b, grammar::p_field_block(a, s, x), grammar::p_field_block(b, t, y)),
{
    reveal(grammar::p_field_block);
    lemma_here(a, b, s, t);
    if grammar::tok(a, s) is LBrace {
        lemma_fields(
            a,
            b,
            grammar::next(s),
            grammar::next(t),
            Some(x),
            Some(y),
            seq![],
            seq![],
        );
    }
}

#[verifier::spinoff_prover]
#[verifier::rlimit(60)]
proof fn lemma_backend(a: InputV, b: InputV, s: PlaceV, t: PlaceV, x: Span, y: Span)
    requires
        respelled(a, b),
        step(a, b, s, t),
    ensures
        like_decl(a, b, grammar::p_backend(a, s, x), grammar::p_backend(b, t, y)),
{
    reveal(grammar::p_backend);
    lemma_ident(a, b, s, t);
    if grammar::tok(a, s) is Ident {
        let (s1, t1) = (grammar::next(s), grammar::next(t));
        lemma_here(a, b, s1, t1);
        if grammar::tok(a, s1) == TokV::Ident("none"@) {
            lemma_expect(a, b, grammar::next(s1), grammar::next(t1), TokV::Semi);
        } else {
            lemma_field_block(a, b, s1, t1, x, y);
        }
    }
}

#[verifier::spinoff_prover]
#[verifier::rlimit(60)]
proof fn lemma_probe(a: InputV, b: InputV, s: PlaceV, t: PlaceV, x: Span, y: Span)
    requires
        respelled(a, b),
        step(a, b, s, t),
    ensures
        like_decl(a, b, grammar::p_probe(a, s, x), grammar::p_probe(b, t, y)),
{
    reveal(grammar::p_probe);
    lemma_ident(a, b, s, t);
    if grammar::tok(a, s) is Ident {
        lemma_field_block(a, b, grammar::next(s), grammar::next(t), x, y);
    }
}

#[verifier::spinoff_prover]
#[verifier::rlimit(60)]
proof fn lemma_acl(a: InputV, b: InputV, s: PlaceV, t: PlaceV, x: Span, y: Span)
    requires
        respelled(a, b),
        step(a, b, s, t),
    ensures
        like_decl(a, b, grammar::p_acl(a, s, x), grammar::p_acl(b, t, y)),
{
    reveal(grammar::p_acl);
    lemma_ident(a, b, s, t);
    if grammar::tok(a, s) is Ident {
        let (s1, t1) = (grammar::next(s), grammar::next(t));
        lemma_expect(a, b, s1, t1, TokV::LBrace);
        if grammar::tok(a, s1) is LBrace {
            let (s2, t2) = (grammar::next(s1), grammar::next(t1));
            lemma_acl_entries(a, b, s2, t2, Some(x), Some(y), seq![], seq![]);
        }
    }
}

#[verifier::spinoff_prover]
#[verifier::rlimit(60)]
proof fn lemma_sub(a: InputV, b: InputV, s: PlaceV, t: PlaceV, x: Span, y: Span)
    requires
        respelled(a, b),
        step(a, b, s, t),
        grammar::p_sub(a, s, x) matches Parse::Read(d, _) && (d matches DeclV::Sub { body, .. }
            && told_stmts(body)),
    ensures
        like_decl(a, b, grammar::p_sub(a, s, x), grammar::p_sub(b, t, y)),
{
    reveal(grammar::p_sub);
    lemma_ident(a, b, s, t);
    if grammar::tok(a, s) is Ident {
        lemma_block(a, b, grammar::next(s), grammar::next(t), Some(x), Some(y));
    }
}

/// Whether a subroutine is told apart.
spec fn told_decl(d: DeclV) -> bool {
    d matches DeclV::Sub { body, .. } ==> told_stmts(body)
}

#[verifier::spinoff_prover]
#[verifier::rlimit(60)]
proof fn lemma_decl(a: InputV, b: InputV, s: PlaceV, t: PlaceV)
    requires
        respelled(a, b),
        step(a, b, s, t),
        grammar::p_top_decl(a, s) matches Parse::Read(d, _) && told_decl(d),
    ensures
        like_decl(a, b, grammar::p_top_decl(a, s), grammar::p_top_decl(b, t)),
{
    reveal(grammar::p_top_decl);
    lemma_here(a, b, s, t);
    let (s1, t1) = (grammar::next(s), grammar::next(t));
    let (x, y) = (grammar::here(a, s), grammar::here(b, t));
    match grammar::tok(a, s) {
        TokV::Ident(kw) => if kw == "import"@ {
            lemma_import(a, b, s1, t1, x, y);
        } else if kw == "backend"@ {
            lemma_backend(a, b, s1, t1, x, y);
        } else if kw == "probe"@ {
            lemma_probe(a, b, s1, t1, x, y);
        } else if kw == "acl"@ {
            lemma_acl(a, b, s1, t1, x, y);
        } else if kw == "sub"@ {
            assert(grammar::p_sub(a, s1, x) matches Parse::Read(d, _) ==> d is Sub) by {
                reveal(grammar::p_sub);
            }
            lemma_sub(a, b, s1, t1, x, y);
        },
        _ => {},
    }
}

/// A declaration does not start with the words of an arm.
proof fn lemma_no_decl(a: InputV, s: PlaceV)
    requires
        arm_at(a, s.pos),
    ensures
        grammar::p_top_decl(a, s) is Bad,
        grammar::tok(a, s) is Ident,
        grammar::tok(a, s) != TokV::Ident("vcl"@),
{
    reveal(arm_at);
    reveal(grammar::p_top_decl);
    lemma_other_words();
}

proof fn lemma_decls_stay(
    a: InputV,
    s: PlaceV,
    version: Span,
    prev: Option<Span>,
    decls: Seq<DeclV>,
)
    ensures
        grammar::p_decls(a, s, version, prev, decls) matches Ok(p) ==> decls.is_prefix_of(p.decls),
    decreases grammar::left(a, s),
{
    reveal_with_fuel(grammar::p_decls, 2);
    if grammar::tok(a, s) is Eof {
    } else if grammar::tok(a, s) == TokV::Ident("vcl"@) {
        match grammar::p_further_vcl(a, s) {
            Parse::Read(_, u) => if grammar::moved(a, s, u) {
                lemma_decls_stay(a, u, version, prev, decls);
            },
            _ => {},
        }
    } else {
        let g = grammar::gap_before(a, s, prev);
        match grammar::p_top_decl(a, g) {
            Parse::Read(d, u) => if grammar::moved(a, s, u) {
                lemma_decls_stay(a, u, version, Some(ast::decl_span(d)), decls.push(d));
                assert(decls.is_prefix_of(decls.push(d)));
            },
            _ => {},
        }
    }
}

#[verifier::spinoff_prover]
#[verifier::rlimit(60)]
proof fn lemma_version(a: InputV, b: InputV, s: PlaceV, t: PlaceV)
    requires
        respelled(a, b),
        step(a, b, s, t),
    ensures
        ({
            let (x, y) = (grammar::p_version(a, s), grammar::p_version(b, t));
            x matches Parse::Read(v, u) ==> (y matches Parse::Read(r, w) && v.major == r.major
                && v.minor == r.minor && step(a, b, u, w))
        }),
{
    reveal(grammar::p_version);
    lemma_here(a, b, s, t);
    if grammar::tok(a, s) is Num {
        let (s1, t1) = (grammar::next(s), grammar::next(t));
        lemma_here(a, b, s1, t1);
        if grammar::tok(a, s1) is Dot {
            lemma_here(a, b, grammar::next(s1), grammar::next(t1));
        }
    }
}

#[verifier::spinoff_prover]
#[verifier::rlimit(60)]
proof fn lemma_further_vcl(a: InputV, b: InputV, s: PlaceV, t: PlaceV)
    requires
        respelled(a, b),
        step(a, b, s, t),
        grammar::tok(a, s) == TokV::Ident("vcl"@),
    ensures
        on(a, b, grammar::p_further_vcl(a, s), grammar::p_further_vcl(b, t)),
{
    reveal(grammar::p_further_vcl);
    lemma_here(a, b, s, t);
    let (s1, t1) = (grammar::next(s), grammar::next(t));
    lemma_version(a, b, s1, t1);
    match (grammar::p_version(a, s1), grammar::p_version(b, t1)) {
        (Parse::Read(_, s2), Parse::Read(_, t2)) => lemma_expect(a, b, s2, t2, TokV::Semi),
        _ => {},
    }
}

#[verifier::spinoff_prover]
#[verifier::rlimit(60)]
proof fn lemma_decls(
    a: InputV,
    b: InputV,
    s: PlaceV,
    t: PlaceV,
    x: Span,
    y: Span,
    prev: Option<Span>,
    last: Option<Span>,
    done: Seq<DeclV>,
    more: Seq<DeclV>,
)
    requires
        respelled(a, b),
        meet(a, b, s, t),
        layout::bare_decls(done) == layout::bare_decls(more),
        grammar::p_decls(a, s, x, prev, done) matches Ok(p) && told_decls(p.decls),
    ensures
        grammar::p_decls(b, t, y, last, more) matches Ok(q) && layout::bare_decls(q.decls)
            == layout::bare_decls(grammar::p_decls(a, s, x, prev, done)->Ok_0.decls),
    decreases grammar::left(a, s),
{
    reveal_with_fuel(grammar::p_decls, 2);
    let (g, h) = (grammar::gap_before(a, s, prev), grammar::gap_before(b, t, last));
    parsing::lemma_gap_before(a, s, prev);
    parsing::lemma_gap_before(b, t, last);
    let p = grammar::p_decls(a, s, x, prev, done)->Ok_0;
    if arm_at(a, s.pos) {
        lemma_no_decl(a, g);
        lemma_no_decl(a, s);
    } else {
        lemma_here(a, b, s, t);
        if grammar::tok(a, s) is Eof {
        } else if grammar::tok(a, s) == TokV::Ident("vcl"@) {
            lemma_further_vcl(a, b, s, t);
            match (grammar::p_further_vcl(a, s), grammar::p_further_vcl(b, t)) {
                (Parse::Read(_, u), Parse::Read(_, w)) => {
                    lemma_moved(a, b, s, t, u, w);
                    lemma_decls(a, b, u, w, x, y, prev, last, done, more);
                },
                _ => {},
            }
        } else {
            match grammar::p_top_decl(a, g) {
                Parse::Read(d, u) => {
                    lemma_decls_stay(a, u, x, Some(ast::decl_span(d)), done.push(d));
                    let n = done.len() as int;
                    assert(done.push(d)[n] == p.decls[n]);
                    assert(told_decl(d));
                    lemma_decl(a, b, g, h);
                    match grammar::p_top_decl(b, h) {
                        Parse::Read(e, w) => {
                            lemma_moved(a, b, s, t, u, w);
                            layout::lemma_push_decls(done, d);
                            layout::lemma_push_decls(more, e);
                            lemma_decls(
                                a,
                                b,
                                u,
                                w,
                                x,
                                y,
                                Some(ast::decl_span(d)),
                                Some(ast::decl_span(e)),
                                done.push(d),
                                more.push(e),
                            );
                        },
                        _ => {},
                    }
                },
                _ => {},
            }
        }
    }
}

/// Token streams that differ in nothing but the spelling of further arms stand for
/// the same program, up to places and comments. A call of a function named `elsif`
/// or `elseif` directly behind an `if` with an `else` would be spelled like an arm.
pub proof fn law_spelling_of_arms_does_not_matter(a: InputV, b: InputV)
    requires
        respelled(a, b),
        grammar::p_program(a) matches Ok(p) && told_decls(p.decls),
    ensures
        grammar::p_program(b) matches Ok(q) && layout::bare_program(q) == layout::bare_program(
            grammar::p_program(a)->Ok_0,
        ),
{
    reveal(grammar::p_program);
    reveal(grammar::p_vcl_decl);
    let s = PlaceV { pos: 0, cidx: 0, out: Map::empty() };
    reveal(arm_at);
    lemma_here(a, b, s, s);
    let s1 = grammar::next(s);
    lemma_version(a, b, s1, s1);
    match (grammar::p_version(a, s1), grammar::p_version(b, s1)) {
        (Parse::Read(_, s2), Parse::Read(_, t2)) => lemma_expect(a, b, s2, t2, TokV::Semi),
        _ => {},
    }
    match (grammar::p_vcl_decl(a, s), grammar::p_vcl_decl(b, s)) {
        (Parse::Read(x, u), Parse::Read(y, w)) => {
            lemma_decls(a, b, u, w, x, y, None, None, seq![], seq![]);
        },
        _ => {},
    }
}

/// The same of source texts: where one differs from another in nothing but the
/// spelling of further arms, both stand for one program, and have one form.
pub proof fn law_texts_with_other_arms_have_one_form(t: Seq<char>, u: Seq<char>)
    requires
        match (lexer::lex_alone(t), lexer::lex_alone(u)) {
            (Ok(x), Ok(y)) => respelled(statements::input(x.lexed), statements::input(y.lexed)),
            _ => false,
        },
        parser::program_of(lexer::lex_alone(t)) matches Ok(p) && told_decls(p.decls),
    ensures
        ({
            let p = parser::program_of(lexer::lex_alone(t))->Ok_0;
            parser::program_of(lexer::lex_alone(u)) matches Ok(q) && layout::bare_program(q)
                == layout::bare_program(p) && canon::program_json(q) == canon::program_json(p)
        }),
{
    let x = lexer::lex_alone(t)->Ok_0;
    let y = lexer::lex_alone(u)->Ok_0;
    law_spelling_of_arms_does_not_matter(statements::input(x.lexed), statements::input(y.lexed));
    let p = parser::program_of(lexer::lex_alone(t))->Ok_0;
    let q = parser::program_of(lexer::lex_alone(u))->Ok_0;
    layout::law_canonical_form_has_no_places(p);
    layout::law_canonical_form_has_no_places(q);
}

} // verus!
