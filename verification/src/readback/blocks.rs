//! The tokens of a statement stand for the statement.

use crate::ast;
use crate::ast::{ArgV, ArmV, ExprV, ReturnActionV, Span, StmtV};
use crate::grammar;
use crate::grammar::{InputV, Parse, PlaceV};
use crate::layout;
use crate::layout::parsing;
use crate::lexer::TokV;
use crate::readback;
use crate::readback::terms;
use crate::readback::terms::{holds, kind_at, reads_expr};
use vstd::prelude::*;
use vstd::string::*;

verus! {

// ───────────────────────── lists of expressions ─────────────────────────

proof fn lemma_exprs_start(inp: InputV, pos: nat, es: Seq<ExprV>, i: nat, n: nat)
    requires
        i <= n <= es.len(),
        holds(inp, pos, readback::exprs_toks(es, n)),
    ensures
        holds(inp, pos, readback::exprs_toks(es, i)),
    decreases n,
{
    if i < n {
        if n == 1 {
            reveal(holds);
        } else {
            terms::lemma_split(
                inp,
                pos,
                readback::exprs_toks(es, (n - 1) as nat),
                seq![TokV::Comma] + readback::expr_toks(es[n - 1]),
            );
            lemma_exprs_start(inp, pos, es, i, (n - 1) as nat);
        }
    }
}

/// Where the tokens of expression `i` start, counted from the first.
spec fn expr_start(es: Seq<ExprV>, i: nat) -> nat {
    if i == 0 {
        0
    } else {
        readback::exprs_toks(es, i).len() + 1
    }
}

proof fn lemma_expr_place(inp: InputV, pos: nat, es: Seq<ExprV>, i: nat)
    requires
        i < es.len(),
        holds(inp, pos, readback::exprs_toks(es, es.len())),
    ensures
        holds(inp, pos + expr_start(es, i), readback::expr_toks(es[i as int])),
        expr_start(es, i) + readback::expr_toks(es[i as int]).len() == readback::exprs_toks(
            es,
            i + 1,
        ).len(),
        i > 0 ==> kind_at(inp, pos + readback::exprs_toks(es, i).len()) is Comma,
{
    lemma_exprs_start(inp, pos, es, i + 1, es.len());
    if i > 0 {
        let a = readback::exprs_toks(es, i);
        let b = readback::expr_toks(es[i as int]);
        terms::lemma_split(inp, pos, a, seq![TokV::Comma] + b);
        terms::lemma_head(inp, pos + a.len(), TokV::Comma, b);
    }
}

/// Expression `i` is read, and behind it stands a comma or, behind the last
/// one, a parenthesis.
proof fn lemma_listed(inp: InputV, at: PlaceV, pos: nat, es: Seq<ExprV>, i: nat)
    requires
        readback::can_exprs(es),
        i < es.len(),
        holds(inp, pos, readback::exprs_toks(es, es.len())),
        kind_at(inp, pos + readback::exprs_toks(es, es.len()).len()) is RParen,
        at.pos == pos + expr_start(es, i),
    ensures
        at.pos < inp.toks.len(),
        at.pos < pos + readback::exprs_toks(es, i + 1).len(),
        !(grammar::tok(inp, at) is RParen),
        reads_expr(
            grammar::p_expr(inp, at),
            es[i as int],
            pos + readback::exprs_toks(es, i + 1).len(),
        ),
        i + 1 < es.len() ==> kind_at(inp, pos + readback::exprs_toks(es, i + 1).len()) is Comma,
{
    let e = es[i as int];
    assert(readback::can_expr(e));
    lemma_expr_place(inp, pos, es, i);
    if i + 1 < es.len() {
        lemma_expr_place(inp, pos, es, i + 1);
    }
    terms::lemma_starts(e);
    terms::lemma_first(inp, at.pos, readback::expr_toks(e));
    terms::lemma_expr(inp, at, e);
}

proof fn lemma_expr_list(
    inp: InputV,
    at: PlaceV,
    pos: nat,
    es: Seq<ExprV>,
    i: nat,
    done: Seq<ExprV>,
)
    requires
        readback::can_exprs(es),
        i < es.len(),
        holds(inp, pos, readback::exprs_toks(es, es.len())),
        kind_at(inp, pos + readback::exprs_toks(es, es.len()).len()) is RParen,
        at.pos == pos + expr_start(es, i),
        done.len() == i,
        forall|j: int|
            0 <= j < i ==> layout::bare_expr(#[trigger] done[j]) == layout::bare_expr(es[j]),
    ensures
        !(grammar::tok(inp, at) is RParen),
        match grammar::p_expr_list(inp, at, done) {
            Parse::Read(x, s) => layout::bare_exprs(x) == layout::bare_exprs(es) && s.pos == pos
                + readback::exprs_toks(es, es.len()).len(),
            _ => false,
        },
    decreases es.len() - i,
{
    lemma_listed(inp, at, pos, es, i);
    match grammar::p_expr(inp, at) {
        Parse::Read(x, s) => {
            let more = done.push(x);
            assert forall|j: int| 0 <= j < i + 1 implies layout::bare_expr(#[trigger] more[j])
                == layout::bare_expr(es[j]) by {
                if j < i {
                    assert(more[j] == done[j]);
                }
            }
            if i + 1 < es.len() {
                lemma_expr_list(inp, grammar::next(s), pos, es, i + 1, more);
            } else {
                assert(layout::bare_exprs(more) =~= layout::bare_exprs(es));
            }
        },
        _ => {},
    }
}

// ───────────────────────── simple statements ─────────────────────────

/// Whether a statement is read, up to places.
pub open spec fn reads_stmt(r: Parse<StmtV>, s: StmtV, pos: nat) -> bool {
    match r {
        Parse::Read(x, p) => layout::bare_stmt(x) == layout::bare_stmt(s) && p.pos == pos,
        Parse::Bad(_) => false,
    }
}

proof fn lemma_assign(inp: InputV, at: PlaceV, start: Span, lhs: Seq<Seq<char>>, rhs: ExprV)
    requires
        lhs.len() > 0,
        readback::can_expr(rhs),
        holds(
            inp,
            at.pos,
            readback::dotted_toks(lhs, lhs.len()) + (seq![TokV::Eq] + (readback::expr_toks(rhs)
                + seq![TokV::Semi])),
        ),
    ensures
        reads_stmt(
            grammar::p_set(inp, at, start),
            StmtV::Assign { lhs, rhs, span: start },
            at.pos + readback::dotted_toks(lhs, lhs.len()).len() + readback::expr_toks(rhs).len()
                + 2,
        ),
{
    reveal(grammar::p_set);
    let d = readback::dotted_toks(lhs, lhs.len());
    let k = readback::expr_toks(rhs);
    let end = seq![TokV::Semi];
    terms::lemma_split(inp, at.pos, d, seq![TokV::Eq] + (k + end));
    let p = at.pos + d.len();
    terms::lemma_head(inp, p, TokV::Eq, k + end);
    terms::lemma_split(inp, p + 1, k, end);
    terms::lemma_one(inp, p + 1 + k.len(), TokV::Semi);
    terms::lemma_dotted(inp, at, lhs);
    match grammar::p_dotted(inp, at) {
        Parse::Read(_, s) => terms::lemma_expr(inp, grammar::next(s), rhs),
        _ => {},
    }
}

proof fn lemma_unset(inp: InputV, at: PlaceV, start: Span, lhs: Seq<Seq<char>>)
    requires
        lhs.len() > 0,
        holds(inp, at.pos, readback::dotted_toks(lhs, lhs.len()) + seq![TokV::Semi]),
    ensures
        reads_stmt(
            grammar::p_unset(inp, at, start),
            StmtV::Unset { lhs, span: start },
            at.pos + readback::dotted_toks(lhs, lhs.len()).len() + 1,
        ),
{
    reveal(grammar::p_unset);
    let d = readback::dotted_toks(lhs, lhs.len());
    terms::lemma_split(inp, at.pos, d, seq![TokV::Semi]);
    terms::lemma_one(inp, at.pos + d.len(), TokV::Semi);
    terms::lemma_dotted(inp, at, lhs);
}

proof fn lemma_call(inp: InputV, at: PlaceV, start: Span, sub: Seq<char>)
    requires
        holds(inp, at.pos, readback::word(sub) + seq![TokV::Semi]),
    ensures
        reads_stmt(
            grammar::p_call(inp, at, start),
            StmtV::Call { sub, span: start },
            at.pos + 2,
        ),
{
    reveal(grammar::p_call);
    terms::lemma_head(inp, at.pos, TokV::Ident(sub), seq![TokV::Semi]);
    terms::lemma_one(inp, at.pos + 1, TokV::Semi);
}

proof fn lemma_action(inp: InputV, at: PlaceV, a: ReturnActionV)
    requires
        readback::can_exprs(a.args),
        holds(
            inp,
            at.pos,
            readback::word(a.name) + ((if a.args.len() == 0 {
                seq![]
            } else {
                seq![TokV::LParen] + (readback::exprs_toks(a.args, a.args.len()) + seq![
                    TokV::RParen,
                ])
            }) + seq![TokV::RParen]),
        ),
    ensures
        match grammar::p_action(inp, at) {
            Parse::Read(x, s) => layout::bare_action(x) == layout::bare_action(a) && s.pos == at.pos
                + 2 + (if a.args.len() == 0 {
                0nat
            } else {
                readback::exprs_toks(a.args, a.args.len()).len() + 2
            }),
            _ => false,
        },
{
    reveal(grammar::p_action);
    reveal(grammar::p_action_args);
    let close = seq![TokV::RParen];
    let s = grammar::next(at);
    if a.args.len() == 0 {
        assert(Seq::<TokV>::empty() + close =~= close);
        terms::lemma_head(inp, at.pos, TokV::Ident(a.name), close);
        terms::lemma_one(inp, at.pos + 1, TokV::RParen);
        assert(layout::bare_exprs(seq![]) =~= layout::bare_exprs(a.args));
    } else {
        let k = readback::exprs_toks(a.args, a.args.len());
        let m = seq![TokV::LParen] + (k + close);
        terms::lemma_head(inp, at.pos, TokV::Ident(a.name), m + close);
        terms::lemma_split(inp, at.pos + 1, m, close);
        terms::lemma_head(inp, at.pos + 1, TokV::LParen, k + close);
        terms::lemma_split(inp, at.pos + 2, k, close);
        terms::lemma_one(inp, at.pos + 2 + k.len(), TokV::RParen);
        terms::lemma_one(inp, at.pos + 3 + k.len(), TokV::RParen);
        lemma_expr_list(inp, grammar::next(s), at.pos + 2, a.args, 0, seq![]);
    }
}

proof fn lemma_return(inp: InputV, at: PlaceV, start: Span, action: Option<ReturnActionV>)
    requires
        match action {
            Some(a) => readback::can_exprs(a.args),
            None => true,
        },
        holds(inp, at.pos, readback::action_toks(action) + seq![TokV::Semi]),
    ensures
        reads_stmt(
            grammar::p_return(inp, at, start),
            StmtV::Return { action, span: start },
            at.pos + readback::action_toks(action).len() + 1,
        ),
{
    reveal(grammar::p_return);
    let k = readback::action_toks(action);
    terms::lemma_split(inp, at.pos, k, seq![TokV::Semi]);
    terms::lemma_one(inp, at.pos + k.len(), TokV::Semi);
    match action {
        Some(a) => {
            let m = readback::word(a.name) + ((if a.args.len() == 0 {
                seq![]
            } else {
                seq![TokV::LParen] + (readback::exprs_toks(a.args, a.args.len()) + seq![
                    TokV::RParen,
                ])
            }) + seq![TokV::RParen]);
            terms::lemma_head(inp, at.pos, TokV::LParen, m);
            lemma_action(inp, grammar::next(at), a);
        },
        None => {},
    }
}

/// An expression in parentheses is read.
proof fn lemma_condition(inp: InputV, at: PlaceV, e: ExprV, rest: Seq<TokV>)
    requires
        readback::can_expr(e),
        holds(
            inp,
            at.pos,
            seq![TokV::LParen] + (readback::expr_toks(e) + (seq![TokV::RParen] + rest)),
        ),
    ensures
        at.pos < inp.toks.len(),
        reads_expr(
            grammar::p_condition(inp, at),
            e,
            at.pos + readback::expr_toks(e).len() + 2,
        ),
        holds(inp, at.pos + readback::expr_toks(e).len() + 2, rest),
{
    reveal(grammar::p_condition);
    let k = readback::expr_toks(e);
    terms::lemma_head(inp, at.pos, TokV::LParen, k + (seq![TokV::RParen] + rest));
    terms::lemma_split(inp, at.pos + 1, k, seq![TokV::RParen] + rest);
    terms::lemma_head(inp, at.pos + 1 + k.len(), TokV::RParen, rest);
    terms::lemma_expr(inp, grammar::next(at), e);
}

proof fn lemma_synthetic(inp: InputV, at: PlaceV, start: Span, value: ExprV)
    requires
        readback::can_expr(value),
        holds(
            inp,
            at.pos,
            seq![TokV::LParen] + (readback::expr_toks(value) + (seq![TokV::RParen] + seq![
                TokV::Semi,
            ])),
        ),
    ensures
        reads_stmt(
            grammar::p_synthetic(inp, at, start),
            StmtV::Synthetic { value, span: start },
            at.pos + readback::expr_toks(value).len() + 3,
        ),
{
    reveal(grammar::p_synthetic);
    lemma_condition(inp, at, value, seq![TokV::Semi]);
    terms::lemma_one(inp, at.pos + readback::expr_toks(value).len() + 2, TokV::Semi);
}

proof fn lemma_new(
    inp: InputV,
    at: PlaceV,
    start: Span,
    name: Seq<char>,
    vmod: Seq<char>,
    ctor: Seq<char>,
    args: Seq<ArgV>,
)
    requires
        readback::can_args(args),
        holds(
            inp,
            at.pos,
            readback::word(name) + (seq![TokV::Eq] + (readback::word(vmod) + (seq![TokV::Dot] + (
            readback::word(ctor) + (readback::call_toks(args) + seq![TokV::Semi]))))),
        ),
    ensures
        reads_stmt(
            grammar::p_new(inp, at, start),
            StmtV::New { name, vmod, ctor, args, span: start },
            at.pos + readback::call_toks(args).len() + 6,
        ),
{
    reveal(grammar::p_new);
    let p = at.pos;
    let end = seq![TokV::Semi];
    let k = readback::call_toks(args);
    let k4 = readback::word(ctor) + (k + end);
    let k3 = seq![TokV::Dot] + k4;
    let k2 = readback::word(vmod) + k3;
    terms::lemma_head(inp, p, TokV::Ident(name), seq![TokV::Eq] + k2);
    terms::lemma_head(inp, p + 1, TokV::Eq, k2);
    terms::lemma_head(inp, p + 2, TokV::Ident(vmod), k3);
    terms::lemma_head(inp, p + 3, TokV::Dot, k4);
    terms::lemma_head(inp, p + 4, TokV::Ident(ctor), k + end);
    terms::lemma_split(inp, p + 5, k, end);
    terms::lemma_one(inp, p + 5 + k.len(), TokV::Semi);
    let s = grammar::next(
        grammar::next(grammar::next(grammar::next(grammar::next(at)))),
    );
    terms::lemma_call_args(inp, s, args);
}

proof fn lemma_expr_stmt(
    inp: InputV,
    at: PlaceV,
    start: Span,
    target: Seq<Seq<char>>,
    args: Seq<ArgV>,
)
    requires
        target.len() > 0,
        readback::can_args(args),
        holds(
            inp,
            at.pos,
            (readback::dotted_toks(target, target.len()) + readback::call_toks(args)) + seq![
                TokV::Semi,
            ],
        ),
    ensures
        at.pos < inp.toks.len(),
        grammar::tok(inp, at) == TokV::Ident(target[0]),
        reads_stmt(
            grammar::p_expr_stmt(inp, at, start),
            StmtV::Expr { expr: ExprV::Call { target, args }, span: start },
            at.pos + readback::dotted_toks(target, target.len()).len() + readback::call_toks(
                args,
            ).len() + 1,
        ),
{
    reveal(grammar::p_expr_stmt);
    let k = readback::dotted_toks(target, target.len()) + readback::call_toks(args);
    terms::lemma_split(inp, at.pos, k, seq![TokV::Semi]);
    terms::lemma_one(inp, at.pos + k.len(), TokV::Semi);
    terms::lemma_call(inp, at, target, args);
}

// ───────────────────────── statements ─────────────────────────

/// The words that start statements differ.
proof fn lemma_keywords()
    ensures
        "unset"@ != "set"@,
        "call"@ != "set"@ && "call"@ != "unset"@,
        "return"@ != "set"@ && "return"@ != "unset"@ && "return"@ != "call"@,
        "synthetic"@ != "set"@ && "synthetic"@ != "unset"@ && "synthetic"@ != "call"@
            && "synthetic"@ != "return"@,
        "new"@ != "set"@ && "new"@ != "unset"@ && "new"@ != "call"@ && "new"@ != "return"@
            && "new"@ != "synthetic"@,
        "if"@ != "set"@ && "if"@ != "unset"@ && "if"@ != "call"@ && "if"@ != "return"@ && "if"@
            != "synthetic"@ && "if"@ != "new"@,
{
    reveal_strlit("set");
    reveal_strlit("unset");
    reveal_strlit("call");
    reveal_strlit("return");
    reveal_strlit("synthetic");
    reveal_strlit("new");
    reveal_strlit("if");
    assert("set"@.len() == 3 && "unset"@.len() == 5 && "call"@.len() == 4 && "return"@.len() == 6
        && "synthetic"@.len() == 9 && "new"@.len() == 3 && "if"@.len() == 2);
    assert("set"@[0] == 's' && "new"@[0] == 'n');
}

/// The words that go on with an `if` start no arm of their own.
proof fn lemma_else_words()
    ensures
        "else"@ != "elsif"@,
        "else"@ != "elseif"@,
        !readback::is_keyword("else"@),
        "set"@ != "else"@ && "set"@ != "elsif"@ && "set"@ != "elseif"@,
        "unset"@ != "else"@ && "unset"@ != "elsif"@ && "unset"@ != "elseif"@,
        "call"@ != "else"@ && "call"@ != "elsif"@ && "call"@ != "elseif"@,
        "return"@ != "else"@ && "return"@ != "elsif"@ && "return"@ != "elseif"@,
        "synthetic"@ != "else"@ && "synthetic"@ != "elsif"@ && "synthetic"@ != "elseif"@,
        "new"@ != "else"@ && "new"@ != "elsif"@ && "new"@ != "elseif"@,
        "if"@ != "else"@ && "if"@ != "elsif"@ && "if"@ != "elseif"@,
{
    reveal_strlit("set");
    reveal_strlit("unset");
    reveal_strlit("call");
    reveal_strlit("return");
    reveal_strlit("synthetic");
    reveal_strlit("new");
    reveal_strlit("if");
    reveal_strlit("else");
    reveal_strlit("elsif");
    reveal_strlit("elseif");
    assert("set"@.len() == 3 && "unset"@.len() == 5 && "call"@.len() == 4 && "return"@.len() == 6
        && "synthetic"@.len() == 9 && "new"@.len() == 3 && "if"@.len() == 2 && "else"@.len() == 4
        && "elsif"@.len() == 5 && "elseif"@.len() == 6);
    assert("unset"@[0] == 'u' && "call"@[0] == 'c' && "return"@[0] == 'r' && "else"@[0] == 'e'
        && "elsif"@[0] == 'e' && "elseif"@[0] == 'e');
}

/// Whether a token goes on with an `if`.
pub open spec fn goes_on(t: TokV) -> bool {
    t == TokV::Ident("else"@) || t == TokV::Ident("elsif"@) || t == TokV::Ident("elseif"@)
}

/// How the tokens of a statement start.
proof fn lemma_stmt_starts(s: StmtV)
    requires
        readback::can_stmt(s),
    ensures
        readback::stmt_toks(s).len() > 0,
        readback::stmt_toks(s)[0] is Ident || readback::stmt_toks(s)[0] is CSource,
        goes_on(readback::stmt_toks(s)[0]) ==> readback::goes_on_if(s),
{
    lemma_else_words();
    let k = readback::stmt_toks(s);
    match s {
        StmtV::If { arms, .. } => lemma_arms_first(arms, arms.len()),
        StmtV::Expr { expr, .. } => match expr {
            ExprV::Call { target, args } => {
                terms::lemma_dotted_toks(target, target.len());
                let d = readback::dotted_toks(target, target.len());
                assert(d[2 * 0int] == TokV::Ident(target[0]));
                assert(k[0] == d[0]);
            },
            _ => {},
        },
        _ => {},
    }
}

proof fn lemma_arms_first(arms: Seq<ArmV>, n: nat)
    requires
        0 < n <= arms.len(),
    ensures
        readback::arms_toks(arms, n).len() > 0,
        readback::arms_toks(arms, n)[0] == TokV::Ident("if"@),
    decreases n,
{
    if n > 1 {
        lemma_arms_first(arms, (n - 1) as nat);
    } else {
        assert(readback::arms_toks(arms, 0) =~= seq![]);
    }
}

proof fn lemma_stmt(inp: InputV, at: PlaceV, x: StmtV)
    requires
        readback::can_stmt(x),
        holds(inp, at.pos, readback::stmt_toks(x)),
        readback::open_if(x) ==> !goes_on(
            kind_at(inp, at.pos + readback::stmt_toks(x).len()),
        ),
    ensures
        at.pos < inp.toks.len(),
        grammar::tok(inp, at) is Ident || grammar::tok(inp, at) is CSource,
        readback::stmt_toks(x).len() > 0,
        reads_stmt(grammar::p_stmt(inp, at), x, at.pos + readback::stmt_toks(x).len()),
    decreases x, 5nat, 0nat,
{
    lemma_stmt_starts(x);
    lemma_keywords();
    terms::lemma_first(inp, at.pos, readback::stmt_toks(x));
    let start = grammar::here(inp, at);
    let n = grammar::next(at);
    let end = seq![TokV::Semi];
    match x {
        StmtV::Assign { lhs, rhs, .. } => {
            let k = readback::dotted_toks(lhs, lhs.len()) + (seq![TokV::Eq] + (readback::expr_toks(
                rhs,
            ) + end));
            terms::lemma_head(inp, at.pos, TokV::Ident("set"@), k);
            lemma_assign(inp, n, start, lhs, rhs);
        },
        StmtV::Unset { lhs, .. } => {
            let k = readback::dotted_toks(lhs, lhs.len()) + end;
            terms::lemma_head(inp, at.pos, TokV::Ident("unset"@), k);
            lemma_unset(inp, n, start, lhs);
        },
        StmtV::Call { sub, .. } => {
            terms::lemma_head(inp, at.pos, TokV::Ident("call"@), readback::word(sub) + end);
            lemma_call(inp, n, start, sub);
        },
        StmtV::Return { action, .. } => {
            let k = readback::action_toks(action) + end;
            terms::lemma_head(inp, at.pos, TokV::Ident("return"@), k);
            lemma_return(inp, n, start, action);
        },
        StmtV::Synthetic { value, .. } => {
            let k = seq![TokV::LParen] + (readback::expr_toks(value) + (seq![TokV::RParen] + end));
            terms::lemma_head(inp, at.pos, TokV::Ident("synthetic"@), k);
            lemma_synthetic(inp, n, start, value);
        },
        StmtV::New { name, vmod, ctor, args, .. } => {
            let k = readback::word(name) + (seq![TokV::Eq] + (readback::word(vmod) + (seq![TokV::Dot]
                + (readback::word(ctor) + (readback::call_toks(args) + end)))));
            terms::lemma_head(inp, at.pos, TokV::Ident("new"@), k);
            lemma_new(inp, n, start, name, vmod, ctor, args);
        },
        StmtV::Expr { expr, .. } => match expr {
            ExprV::Call { target, args } => lemma_expr_stmt(inp, at, start, target, args),
            _ => {},
        },
        StmtV::If { .. } => lemma_if(inp, at, x),
    }
}

// ───────────────────────── blocks ─────────────────────────

proof fn lemma_stmts_start(inp: InputV, pos: nat, b: Seq<StmtV>, i: nat, n: nat)
    requires
        i <= n <= b.len(),
        holds(inp, pos, readback::stmts_toks(b, n)),
    ensures
        holds(inp, pos, readback::stmts_toks(b, i)),
    decreases n,
{
    if i < n {
        terms::lemma_split(
            inp,
            pos,
            readback::stmts_toks(b, (n - 1) as nat),
            readback::stmt_toks(b[n - 1]),
        );
        lemma_stmts_start(inp, pos, b, i, (n - 1) as nat);
    }
}

proof fn lemma_stmt_place(inp: InputV, pos: nat, b: Seq<StmtV>, i: nat)
    requires
        i < b.len(),
        holds(inp, pos, readback::stmts_toks(b, b.len())),
    ensures
        holds(inp, pos + readback::stmts_toks(b, i).len(), readback::stmt_toks(b[i as int])),
        readback::stmts_toks(b, i + 1).len() == readback::stmts_toks(b, i).len()
            + readback::stmt_toks(b[i as int]).len(),
{
    lemma_stmts_start(inp, pos, b, i + 1, b.len());
    terms::lemma_split(
        inp,
        pos,
        readback::stmts_toks(b, i),
        readback::stmt_toks(b[i as int]),
    );
}

/// Whether statements are read, up to places.
pub open spec fn reads_stmts(r: Parse<Seq<StmtV>>, b: Seq<StmtV>, pos: nat) -> bool {
    match r {
        Parse::Read(x, p) => layout::bare_stmts(x) == layout::bare_stmts(b) && p.pos == pos,
        Parse::Bad(_) => false,
    }
}

proof fn lemma_stmts(
    inp: InputV,
    at: PlaceV,
    pos: nat,
    b: Seq<StmtV>,
    i: nat,
    prev: Option<Span>,
    done: Seq<StmtV>,
)
    requires
        readback::can_stmts(b),
        i <= b.len(),
        holds(inp, pos, readback::stmts_toks(b, b.len())),
        kind_at(inp, pos + readback::stmts_toks(b, b.len()).len()) is RBrace,
        at.pos == pos + readback::stmts_toks(b, i).len(),
        done.len() == i,
        forall|j: int|
            0 <= j < i ==> layout::bare_stmt(#[trigger] done[j]) == layout::bare_stmt(b[j]),
    ensures
        reads_stmts(
            grammar::p_stmts(inp, at, prev, done),
            b,
            pos + readback::stmts_toks(b, b.len()).len() + 1,
        ),
    decreases b, 0nat, b.len() - i,
{
    if i == b.len() {
        parsing::lemma_finish_gap(inp, grammar::next(at), prev, grammar::here(inp, at).lo);
        assert(layout::bare_stmts(done) =~= layout::bare_stmts(b));
    } else {
        let x = b[i as int];
        assert(readback::can_stmt(x));
        lemma_stmt_place(inp, pos, b, i);
        if i + 1 < b.len() {
            let y = b[i as int + 1];
            assert(readback::can_stmt(y));
            assert(readback::ended_before(b, i as int + 1));
            lemma_stmt_place(inp, pos, b, i + 1);
            lemma_stmt_starts(y);
            terms::lemma_first(
                inp,
                pos + readback::stmts_toks(b, i + 1).len(),
                readback::stmt_toks(y),
            );
        }
        let g = grammar::gap_before(inp, at, prev);
        parsing::lemma_gap_before(inp, at, prev);
        lemma_stmt(inp, g, x);
        assert(grammar::tok(inp, g) == grammar::tok(inp, at));
        match grammar::p_stmt(inp, g) {
            Parse::Read(y, s) => {
                let more = done.push(y);
                assert forall|j: int| 0 <= j < i + 1 implies layout::bare_stmt(#[trigger] more[j])
                    == layout::bare_stmt(b[j]) by {
                    if j < i {
                        assert(more[j] == done[j]);
                    }
                }
                lemma_stmts(inp, s, pos, b, i + 1, Some(ast::stmt_span(y)), more);
            },
            _ => {},
        }
    }
}

/// The tokens of a block stand for its statements.
pub(crate) proof fn lemma_block(
    inp: InputV,
    at: PlaceV,
    b: Seq<StmtV>,
    enclosing: Option<Span>,
)
    requires
        readback::can_stmts(b),
        holds(inp, at.pos, readback::braced(readback::stmts_toks(b, b.len()))),
    ensures
        reads_stmts(
            grammar::p_block(inp, at, enclosing),
            b,
            at.pos + readback::stmts_toks(b, b.len()).len() + 2,
        ),
    decreases b, 1nat, 0nat,
{
    let k = readback::stmts_toks(b, b.len());
    terms::lemma_head(inp, at.pos, TokV::LBrace, k + seq![TokV::RBrace]);
    terms::lemma_split(inp, at.pos + 1, k, seq![TokV::RBrace]);
    terms::lemma_one(inp, at.pos + 1 + k.len(), TokV::RBrace);
    assert(readback::stmts_toks(b, 0) =~= seq![]);
    lemma_stmts(inp, grammar::next(at), at.pos + 1, b, 0, enclosing, seq![]);
}

// ───────────────────────── arms ─────────────────────────

/// The tokens of an arm behind the words that start it.
spec fn arm_toks(a: ArmV) -> Seq<TokV> {
    seq![TokV::LParen] + (readback::expr_toks(a.cond) + (seq![TokV::RParen] + readback::braced(
        readback::stmts_toks(a.body, a.body.len()),
    )))
}

/// The words that start arm `i`.
spec fn arm_words(i: nat) -> Seq<TokV> {
    if i == 0 {
        readback::word("if"@)
    } else {
        readback::word("else"@) + readback::word("if"@)
    }
}

proof fn lemma_arms_step(arms: Seq<ArmV>, n: nat)
    requires
        0 < n <= arms.len(),
    ensures
        readback::arms_toks(arms, n) == readback::arms_toks(arms, (n - 1) as nat) + (arm_words(
            (n - 1) as nat,
        ) + arm_toks(arms[n - 1])),
{
    let a = arms[n - 1];
    let k = readback::stmts_toks(a.body, a.body.len());
    assert(seq![TokV::RParen, TokV::LBrace] + (k + seq![TokV::RBrace]) =~= seq![TokV::RParen] + (
    seq![TokV::LBrace] + (k + seq![TokV::RBrace])));
}

proof fn lemma_arms_start(inp: InputV, pos: nat, arms: Seq<ArmV>, i: nat, n: nat)
    requires
        i <= n <= arms.len(),
        holds(inp, pos, readback::arms_toks(arms, n)),
    ensures
        holds(inp, pos, readback::arms_toks(arms, i)),
    decreases n,
{
    if i < n {
        lemma_arms_step(arms, n);
        terms::lemma_split(
            inp,
            pos,
            readback::arms_toks(arms, (n - 1) as nat),
            arm_words((n - 1) as nat) + arm_toks(arms[n - 1]),
        );
        lemma_arms_start(inp, pos, arms, i, (n - 1) as nat);
    }
}

proof fn lemma_arm_place(inp: InputV, pos: nat, arms: Seq<ArmV>, i: nat)
    requires
        i < arms.len(),
        holds(inp, pos, readback::arms_toks(arms, arms.len())),
    ensures
        ({
            let p = pos + readback::arms_toks(arms, i).len();
            &&& holds(inp, p, arm_words(i))
            &&& holds(inp, p + arm_words(i).len(), arm_toks(arms[i as int]))
            &&& readback::arms_toks(arms, i + 1).len() == readback::arms_toks(arms, i).len()
                + arm_words(i).len() + arm_toks(arms[i as int]).len()
        }),
{
    lemma_arms_start(inp, pos, arms, i + 1, arms.len());
    lemma_arms_step(arms, i + 1);
    let w = arm_words(i);
    let k = arm_toks(arms[i as int]);
    terms::lemma_split(inp, pos, readback::arms_toks(arms, i), w + k);
    terms::lemma_split(inp, pos + readback::arms_toks(arms, i).len(), w, k);
}

proof fn lemma_arm(inp: InputV, at: PlaceV, a: ArmV)
    requires
        readback::can_arm(a),
        holds(inp, at.pos, arm_toks(a)),
    ensures
        at.pos < inp.toks.len(),
        match grammar::p_arm(inp, at) {
            Parse::Read(x, s) => layout::bare_arm(x) == layout::bare_arm(a) && s.pos == at.pos
                + arm_toks(a).len(),
            _ => false,
        },
    decreases a, 2nat, 0nat,
{
    let k = readback::stmts_toks(a.body, a.body.len());
    lemma_condition(inp, at, a.cond, readback::braced(k));
    match grammar::p_condition(inp, at) {
        Parse::Read(_, s) => lemma_block(inp, s, a.body, None),
        _ => {},
    }
}

/// The tokens of an `else`.
spec fn else_toks(e: Option<Seq<StmtV>>) -> Seq<TokV> {
    match e {
        Some(b) => readback::word("else"@) + readback::braced(readback::stmts_toks(b, b.len())),
        None => seq![],
    }
}

/// Whether an `if` is read, up to places.
spec fn reads_if(r: Parse<StmtV>, arms: Seq<ArmV>, e: Option<Seq<StmtV>>, pos: nat) -> bool {
    reads_stmt(r, StmtV::If { arms, else_body: e, span: ast::dummy_span() }, pos)
}

proof fn lemma_else(inp: InputV, at: PlaceV, start: Span, arms: Seq<ArmV>, e: Option<Seq<StmtV>>)
    requires
        match e {
            Some(b) => readback::can_stmts(b),
            None => !goes_on(kind_at(inp, at.pos)),
        },
        holds(inp, at.pos, else_toks(e)),
    ensures
        reads_if(
            grammar::p_if_rest(inp, at, start, arms),
            arms,
            e,
            at.pos + else_toks(e).len(),
        ),
    decreases e, 2nat, 0nat,
{
    reveal(grammar::another_arm);
    lemma_else_words();
    match e {
        Some(b) => {
            let k = readback::braced(readback::stmts_toks(b, b.len()));
            terms::lemma_head(inp, at.pos, TokV::Ident("else"@), k);
            terms::lemma_first(inp, at.pos + 1, k);
            lemma_block(inp, grammar::next(at), b, None);
        },
        None => {},
    }
}

proof fn lemma_if_rest(
    inp: InputV,
    at: PlaceV,
    pos: nat,
    start: Span,
    x: StmtV,
    arms: Seq<ArmV>,
    e: Option<Seq<StmtV>>,
    i: nat,
    done: Seq<ArmV>,
)
    requires
        x matches StmtV::If { arms: x_arms, else_body: x_else, .. } && x_arms == arms && x_else
            == e,
        0 < i <= arms.len(),
        readback::can_arms(arms),
        match e {
            Some(b) => readback::can_stmts(b),
            None => !goes_on(
                kind_at(inp, pos + readback::arms_toks(arms, arms.len()).len()),
            ),
        },
        holds(inp, pos, readback::arms_toks(arms, arms.len())),
        holds(inp, pos + readback::arms_toks(arms, arms.len()).len(), else_toks(e)),
        at.pos == pos + readback::arms_toks(arms, i).len(),
        done.len() == i,
        forall|j: int|
            0 <= j < i ==> layout::bare_arm(#[trigger] done[j]) == layout::bare_arm(arms[j]),
    ensures
        reads_if(
            grammar::p_if_rest(inp, at, start, done),
            arms,
            e,
            pos + readback::arms_toks(arms, arms.len()).len() + else_toks(e).len(),
        ),
    decreases x, 3nat, arms.len() - i,
{
    assert(decreases_to!(x => x->arms));
    assert(decreases_to!(x => x->else_body));
    if i == arms.len() {
        lemma_else(inp, at, start, done, e);
        assert(layout::bare_arms(done) =~= layout::bare_arms(arms));
    } else {
        reveal(grammar::another_arm);
        let a = arms[i as int];
        assert(decreases_to!(arms => arms[i as int]));
        assert(readback::can_arm(a));
        lemma_arm_place(inp, pos, arms, i);
        terms::lemma_head(inp, at.pos, TokV::Ident("else"@), readback::word("if"@));
        terms::lemma_one(inp, at.pos + 1, TokV::Ident("if"@));
        lemma_else_words();
        let s = PlaceV { pos: at.pos + 2, ..at };
        assert(grammar::another_arm(inp, at) == Some(2nat));
        lemma_arm(inp, s, a);
        match grammar::p_arm(inp, s) {
            Parse::Read(y, t) => {
                let more = done.push(y);
                assert forall|j: int| 0 <= j < i + 1 implies layout::bare_arm(#[trigger] more[j])
                    == layout::bare_arm(arms[j]) by {
                    if j < i {
                        assert(more[j] == done[j]);
                    }
                }
                lemma_if_rest(inp, t, pos, start, x, arms, e, i + 1, more);
            },
            _ => {},
        }
    }
}

proof fn lemma_if(inp: InputV, at: PlaceV, x: StmtV)
    requires
        x is If,
        readback::can_stmt(x),
        holds(inp, at.pos, readback::stmt_toks(x)),
        readback::open_if(x) ==> !goes_on(
            kind_at(inp, at.pos + readback::stmt_toks(x).len()),
        ),
    ensures
        reads_stmt(grammar::p_stmt(inp, at), x, at.pos + readback::stmt_toks(x).len()),
    decreases x, 4nat, 0nat,
{
    let arms = x->arms;
    let e = x->else_body;
    lemma_keywords();
    let start = grammar::here(inp, at);
    assert(readback::stmt_toks(x) == readback::arms_toks(arms, arms.len()) + else_toks(e));
    terms::lemma_split(inp, at.pos, readback::arms_toks(arms, arms.len()), else_toks(e));
    lemma_arm_place(inp, at.pos, arms, 0);
    assert(readback::arms_toks(arms, 0) =~= seq![]);
    terms::lemma_one(inp, at.pos, TokV::Ident("if"@));
    let n = grammar::next(at);
    assert(grammar::p_stmt(inp, at) == grammar::p_if(inp, n, start));
    assert(decreases_to!(x => x->arms));
    assert(decreases_to!(arms => arms[0]));
    assert(readback::can_arm(arms[0]));
    lemma_arm(inp, n, arms[0]);
    match grammar::p_arm(inp, n) {
        Parse::Read(y, s) => {
            lemma_if_rest(inp, s, at.pos, start, x, arms, e, 1, seq![y]);
        },
        _ => {},
    }
}

} // verus!
