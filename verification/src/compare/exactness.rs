//! A comparison finds a divergence exactly where the canonical forms differ.

use crate::ast;
use crate::ast::{
    AclEntryV, ArgV, ArmV, DeclV, ExprV, FieldV, FieldValueV, ProgramV, ReturnActionV, Span, StmtV,
};
use crate::canon;
use crate::compare;
use crate::json::{JsonV, MemberV};
use crate::text;
use vstd::prelude::*;
use vstd::string::*;

verus! {

// ───────────────────────── objects ─────────────────────────

pub(crate) proof fn lemma_tagged(t: Seq<char>, r: Seq<MemberV>, u: Seq<char>, s: Seq<MemberV>)
    ensures
        canon::tagged(t, r) == canon::tagged(u, s) <==> t == u && r == s,
{
    let x = seq![canon::member("type"@, JsonV::Str(t))] + r;
    let y = seq![canon::member("type"@, JsonV::Str(u))] + s;
    if x == y {
        assert(x[0] == y[0]);
        assert(x[0] == canon::member("type"@, JsonV::Str(t)));
        assert(y[0] == canon::member("type"@, JsonV::Str(u)));
        assert(r =~= x.skip(1));
        assert(s =~= y.skip(1));
    }
}

pub(crate) proof fn lemma_one(k: Seq<char>, a: JsonV, b: JsonV)
    ensures
        seq![canon::member(k, a)] == seq![canon::member(k, b)] <==> a == b,
{
    let x = seq![canon::member(k, a)];
    let y = seq![canon::member(k, b)];
    assert(x[0].value == a && y[0].value == b);
}

pub(crate) proof fn lemma_two(k: Seq<char>, a: JsonV, b: JsonV, l: Seq<char>, c: JsonV, d: JsonV)
    ensures
        seq![canon::member(k, a), canon::member(l, c)] == seq![
            canon::member(k, b),
            canon::member(l, d),
        ] <==> a == b && c == d,
{
    let x = seq![canon::member(k, a), canon::member(l, c)];
    let y = seq![canon::member(k, b), canon::member(l, d)];
    assert(x[0].value == a && y[0].value == b);
    assert(x[1].value == c && y[1].value == d);
}

pub(crate) proof fn lemma_three(
    k: Seq<char>,
    a: JsonV,
    b: JsonV,
    l: Seq<char>,
    c: JsonV,
    d: JsonV,
    m: Seq<char>,
    e: JsonV,
    f: JsonV,
)
    ensures
        seq![canon::member(k, a), canon::member(l, c), canon::member(m, e)] == seq![
            canon::member(k, b),
            canon::member(l, d),
            canon::member(m, f),
        ] <==> a == b && c == d && e == f,
{
    let x = seq![canon::member(k, a), canon::member(l, c), canon::member(m, e)];
    let y = seq![canon::member(k, b), canon::member(l, d), canon::member(m, f)];
    assert(x[0].value == a && y[0].value == b);
    assert(x[1].value == c && y[1].value == d);
    assert(x[2].value == e && y[2].value == f);
}

pub(crate) proof fn lemma_strs(x: Seq<Seq<char>>, y: Seq<Seq<char>>)
    ensures
        canon::strs_json(x) == canon::strs_json(y) <==> x == y,
{
    let a = canon::strs_json(x)->Array_0;
    let b = canon::strs_json(y)->Array_0;
    if a == b {
        assert(x.len() == a.len() && y.len() == b.len());
        assert forall|i: int| 0 <= i < x.len() implies x[i] == y[i] by {
            assert(a[i] == JsonV::Str(x[i]));
            assert(b[i] == JsonV::Str(y[i]));
        }
        assert(x =~= y);
    }
}

// ───────────────────────── expressions ─────────────────────────

/// Whether two lists have the same length and the same forms from `i` on.
spec fn same_exprs(a: Seq<ExprV>, b: Seq<ExprV>, i: nat) -> bool {
    i >= compare::most(a.len(), b.len()) || (a.len() == b.len() && forall|j: int|
        i <= j < a.len() ==> canon::expr_json(#[trigger] a[j]) == canon::expr_json(b[j]))
}

proof fn lemma_exprs_from(
    a: Seq<ExprV>,
    b: Seq<ExprV>,
    sa: Span,
    sb: Span,
    path: Seq<Seq<char>>,
    prefix: Seq<char>,
    i: nat,
)
    ensures
        compare::exprs_divs(a, b, sa, sb, path, prefix, i).len() == 0 <==> same_exprs(a, b, i),
    decreases compare::most(a.len(), b.len()) - i,
{
    if i < compare::most(a.len(), b.len()) {
        lemma_exprs_from(a, b, sa, sb, path, prefix, i + 1);
    }
}

proof fn lemma_exprs(
    a: Seq<ExprV>,
    b: Seq<ExprV>,
    sa: Span,
    sb: Span,
    path: Seq<Seq<char>>,
    prefix: Seq<char>,
)
    ensures
        compare::exprs_divs(a, b, sa, sb, path, prefix, 0).len() == 0 <==> canon::exprs_json(a)
            == canon::exprs_json(b),
{
    lemma_exprs_from(a, b, sa, sb, path, prefix, 0);
    let x = canon::exprs_json(a)->Array_0;
    let y = canon::exprs_json(b)->Array_0;
    assert(x.len() == a.len() && y.len() == b.len());
    if x == y {
        assert forall|j: int| 0 <= j < a.len() implies canon::expr_json(#[trigger] a[j])
            == canon::expr_json(b[j]) by {
            assert(x[j] == y[j]);
        }
    }
    if same_exprs(a, b, 0) {
        assert(x =~= y);
    }
}

pub(crate) proof fn lemma_arg(a: ArgV, b: ArgV)
    ensures
        canon::arg_json(a) == canon::arg_json(b) <==> a.name == b.name && canon::expr_json(a.value)
            == canon::expr_json(b.value),
{
    lemma_two(
        "name"@,
        canon::opt_str_json(a.name),
        canon::opt_str_json(b.name),
        "value"@,
        canon::expr_json(a.value),
        canon::expr_json(b.value),
    );
}

spec fn same_args(a: Seq<ArgV>, b: Seq<ArgV>, i: nat) -> bool {
    i >= compare::most(a.len(), b.len()) || (a.len() == b.len() && forall|j: int|
        i <= j < a.len() ==> canon::arg_json(#[trigger] a[j]) == canon::arg_json(b[j]))
}

proof fn lemma_args_from(
    a: Seq<ArgV>,
    b: Seq<ArgV>,
    sa: Span,
    sb: Span,
    path: Seq<Seq<char>>,
    prefix: Seq<char>,
    i: nat,
)
    ensures
        compare::args_divs(a, b, sa, sb, path, prefix, i).len() == 0 <==> same_args(a, b, i),
    decreases compare::most(a.len(), b.len()) - i,
{
    if i < compare::most(a.len(), b.len()) {
        lemma_args_from(a, b, sa, sb, path, prefix, i + 1);
        if i < a.len() && i < b.len() {
            lemma_arg(a[i as int], b[i as int]);
        }
    }
}

proof fn lemma_args(
    a: Seq<ArgV>,
    b: Seq<ArgV>,
    sa: Span,
    sb: Span,
    path: Seq<Seq<char>>,
    prefix: Seq<char>,
)
    ensures
        compare::args_divs(a, b, sa, sb, path, prefix, 0).len() == 0 <==> canon::args_json(a)
            == canon::args_json(b),
{
    lemma_args_from(a, b, sa, sb, path, prefix, 0);
    let x = canon::args_json(a)->Array_0;
    let y = canon::args_json(b)->Array_0;
    assert(x.len() == a.len() && y.len() == b.len());
    if x == y {
        assert forall|j: int| 0 <= j < a.len() implies canon::arg_json(#[trigger] a[j])
            == canon::arg_json(b[j]) by {
            assert(x[j] == canon::arg_json(a[j]));
            assert(y[j] == canon::arg_json(b[j]));
        }
    }
    if same_args(a, b, 0) {
        assert(x =~= y);
    }
}

// ───────────────────────── statements ─────────────────────────

pub(crate) proof fn lemma_stmt_kinds(a: StmtV, b: StmtV)
    requires
        !compare::same_stmt_kind(a, b),
    ensures
        canon::stmt_json(a) != canon::stmt_json(b),
{
    reveal_strlit("set");
    reveal_strlit("unset");
    reveal_strlit("call");
    reveal_strlit("return");
    reveal_strlit("synthetic");
    reveal_strlit("if");
    reveal_strlit("new");
    reveal_strlit("expr");
    assert("set"@.len() == 3 && "unset"@.len() == 5 && "call"@.len() == 4 && "return"@.len() == 6);
    assert("synthetic"@.len() == 9 && "if"@.len() == 2 && "new"@.len() == 3 && "expr"@.len() == 4);
    assert("set"@[0] == 's' && "new"@[0] == 'n');
    assert("call"@[0] == 'c' && "expr"@[0] == 'e');
    let t = compare::stmt_kind(a);
    let u = compare::stmt_kind(b);
    assert(t != u);
    let x = canon::stmt_json(a)->Object_0;
    let y = canon::stmt_json(b)->Object_0;
    assert(x[0] == canon::member("type"@, JsonV::Str(t)));
    assert(y[0] == canon::member("type"@, JsonV::Str(u)));
}

spec fn same_stmts(a: Seq<StmtV>, b: Seq<StmtV>, i: nat) -> bool {
    i >= compare::most(a.len(), b.len()) || (a.len() == b.len() && forall|j: int|
        i <= j < a.len() ==> canon::stmt_json(#[trigger] a[j]) == canon::stmt_json(b[j]))
}

proof fn lemma_stmts_from(
    a: Seq<StmtV>,
    b: Seq<StmtV>,
    path: Seq<Seq<char>>,
    prefix: Seq<char>,
    i: nat,
)
    ensures
        compare::stmts_divs(a, b, path, prefix, i).len() == 0 <==> same_stmts(a, b, i),
    decreases a, compare::most(a.len(), b.len()) - i, 0nat,
{
    if i < compare::most(a.len(), b.len()) {
        lemma_stmts_from(a, b, path, prefix, i + 1);
        if i < a.len() && i < b.len() {
            let x = a[i as int];
            let y = b[i as int];
            if compare::same_stmt_kind(x, y) {
                lemma_stmt(x, y, path.push(compare::indexed(prefix, i)).push(compare::stmt_kind(x)));
            } else {
                lemma_stmt_kinds(x, y);
            }
        }
    }
}

proof fn lemma_same_stmts_json(a: Seq<StmtV>, b: Seq<StmtV>)
    ensures
        same_stmts(a, b, 0) <==> canon::stmts_json(a) == canon::stmts_json(b),
{
    let x = canon::stmts_json(a)->Array_0;
    let y = canon::stmts_json(b)->Array_0;
    assert(x.len() == a.len() && y.len() == b.len());
    if x == y {
        assert forall|j: int| 0 <= j < a.len() implies canon::stmt_json(#[trigger] a[j])
            == canon::stmt_json(b[j]) by {
            assert(x[j] == canon::stmt_json(a[j]));
            assert(y[j] == canon::stmt_json(b[j]));
        }
    }
    if same_stmts(a, b, 0) {
        assert(x =~= y);
    }
}

proof fn lemma_assign(a: StmtV, b: StmtV, path: Seq<Seq<char>>)
    requires
        a is Assign,
        b is Assign,
    ensures
        compare::stmt_divs(a, b, path).len() == 0 <==> canon::stmt_json(a) == canon::stmt_json(b),
{
    let sa = ast::stmt_span(a);
    let sb = ast::stmt_span(b);
    match (a, b) {
        (
            StmtV::Assign { lhs: la, rhs: ra, .. },
            StmtV::Assign { lhs: lb, rhs: rb, .. },
        ) => {
            lemma_strs(la, lb);
            lemma_two(
                "lhs"@,
                canon::strs_json(la),
                canon::strs_json(lb),
                "rhs"@,
                canon::expr_json(ra),
                canon::expr_json(rb),
            );
            lemma_tagged(
                "set"@,
                seq![
                    canon::member("lhs"@, canon::strs_json(la)),
                    canon::member("rhs"@, canon::expr_json(ra)),
                ],
                "set"@,
                seq![
                    canon::member("lhs"@, canon::strs_json(lb)),
                    canon::member("rhs"@, canon::expr_json(rb)),
                ],
            );
        },
        _ => {},
    }
}

proof fn lemma_unset(a: StmtV, b: StmtV, path: Seq<Seq<char>>)
    requires
        a is Unset,
        b is Unset,
    ensures
        compare::stmt_divs(a, b, path).len() == 0 <==> canon::stmt_json(a) == canon::stmt_json(b),
{
    let sa = ast::stmt_span(a);
    let sb = ast::stmt_span(b);
    match (a, b) {
        (StmtV::Unset { lhs: la, .. }, StmtV::Unset { lhs: lb, .. }) => {
            lemma_strs(la, lb);
            lemma_one("lhs"@, canon::strs_json(la), canon::strs_json(lb));
            lemma_tagged(
                "unset"@,
                seq![canon::member("lhs"@, canon::strs_json(la))],
                "unset"@,
                seq![canon::member("lhs"@, canon::strs_json(lb))],
            );
        },
        _ => {},
    }
}

proof fn lemma_call(a: StmtV, b: StmtV, path: Seq<Seq<char>>)
    requires
        a is Call,
        b is Call,
    ensures
        compare::stmt_divs(a, b, path).len() == 0 <==> canon::stmt_json(a) == canon::stmt_json(b),
{
    let sa = ast::stmt_span(a);
    let sb = ast::stmt_span(b);
    match (a, b) {
        (StmtV::Call { sub: ca, .. }, StmtV::Call { sub: cb, .. }) => {
            lemma_one("sub"@, JsonV::Str(ca), JsonV::Str(cb));
            lemma_tagged(
                "call"@,
                seq![canon::member("sub"@, JsonV::Str(ca))],
                "call"@,
                seq![canon::member("sub"@, JsonV::Str(cb))],
            );
        },
        _ => {},
    }
}

proof fn lemma_return(a: StmtV, b: StmtV, path: Seq<Seq<char>>)
    requires
        a is Return,
        b is Return,
    ensures
        compare::stmt_divs(a, b, path).len() == 0 <==> canon::stmt_json(a) == canon::stmt_json(b),
{
    let sa = ast::stmt_span(a);
    let sb = ast::stmt_span(b);
    match (a, b) {
        (StmtV::Return { action: xa, .. }, StmtV::Return { action: xb, .. }) => {
            lemma_action(xa, xb, sa, sb, path);
            lemma_one("action"@, canon::action_json(xa), canon::action_json(xb));
            lemma_tagged(
                "return"@,
                seq![canon::member("action"@, canon::action_json(xa))],
                "return"@,
                seq![canon::member("action"@, canon::action_json(xb))],
            );
        },
        _ => {},
    }
}

proof fn lemma_synthetic(a: StmtV, b: StmtV, path: Seq<Seq<char>>)
    requires
        a is Synthetic,
        b is Synthetic,
    ensures
        compare::stmt_divs(a, b, path).len() == 0 <==> canon::stmt_json(a) == canon::stmt_json(b),
{
    let sa = ast::stmt_span(a);
    let sb = ast::stmt_span(b);
    match (a, b) {
        (StmtV::Synthetic { value: va, .. }, StmtV::Synthetic { value: vb, .. }) => {
            lemma_one("value"@, canon::expr_json(va), canon::expr_json(vb));
            lemma_tagged(
                "synthetic"@,
                seq![canon::member("value"@, canon::expr_json(va))],
                "synthetic"@,
                seq![canon::member("value"@, canon::expr_json(vb))],
            );
        },
        _ => {},
    }
}

proof fn lemma_new(a: StmtV, b: StmtV, path: Seq<Seq<char>>)
    requires
        a is New,
        b is New,
    ensures
        compare::stmt_divs(a, b, path).len() == 0 <==> canon::stmt_json(a) == canon::stmt_json(b),
{
    let sa = ast::stmt_span(a);
    let sb = ast::stmt_span(b);
    match (a, b) {
        (
            StmtV::New { name: na, vmod: ma, ctor: ca, args: xa, .. },
            StmtV::New { name: nb, vmod: mb, ctor: cb, args: xb, .. },
        ) => {
            lemma_args(xa, xb, sa, sb, path, "args"@);
            let r = seq![
                canon::member("name"@, JsonV::Str(na)),
                canon::member("vmod"@, JsonV::Str(ma)),
                canon::member("ctor"@, JsonV::Str(ca)),
                canon::member("args"@, canon::args_json(xa)),
            ];
            let s = seq![
                canon::member("name"@, JsonV::Str(nb)),
                canon::member("vmod"@, JsonV::Str(mb)),
                canon::member("ctor"@, JsonV::Str(cb)),
                canon::member("args"@, canon::args_json(xb)),
            ];
            assert(r[0].value == JsonV::Str(na) && s[0].value == JsonV::Str(nb));
            assert(r[1].value == JsonV::Str(ma) && s[1].value == JsonV::Str(mb));
            assert(r[2].value == JsonV::Str(ca) && s[2].value == JsonV::Str(cb));
            assert(r[3].value == canon::args_json(xa) && s[3].value == canon::args_json(xb));
            lemma_tagged("new"@, r, "new"@, s);
        },
        _ => {},
    }
}

proof fn lemma_expr(a: StmtV, b: StmtV, path: Seq<Seq<char>>)
    requires
        a is Expr,
        b is Expr,
    ensures
        compare::stmt_divs(a, b, path).len() == 0 <==> canon::stmt_json(a) == canon::stmt_json(b),
{
    let sa = ast::stmt_span(a);
    let sb = ast::stmt_span(b);
    match (a, b) {
        (StmtV::Expr { expr: xa, .. }, StmtV::Expr { expr: xb, .. }) => {
            lemma_one("expr"@, canon::expr_json(xa), canon::expr_json(xb));
            lemma_tagged(
                "expr"@,
                seq![canon::member("expr"@, canon::expr_json(xa))],
                "expr"@,
                seq![canon::member("expr"@, canon::expr_json(xb))],
            );
        },
        _ => {},
    }
}

proof fn lemma_stmt(a: StmtV, b: StmtV, path: Seq<Seq<char>>)
    requires
        compare::same_stmt_kind(a, b),
    ensures
        compare::stmt_divs(a, b, path).len() == 0 <==> canon::stmt_json(a) == canon::stmt_json(b),
    decreases a, 0int, 0nat,
{
    let sa = ast::stmt_span(a);
    let sb = ast::stmt_span(b);
    match (a, b) {
        (StmtV::Assign { .. }, StmtV::Assign { .. }) => lemma_assign(a, b, path),
        (StmtV::Unset { .. }, StmtV::Unset { .. }) => lemma_unset(a, b, path),
        (StmtV::Call { .. }, StmtV::Call { .. }) => lemma_call(a, b, path),
        (StmtV::Return { .. }, StmtV::Return { .. }) => lemma_return(a, b, path),
        (StmtV::Synthetic { .. }, StmtV::Synthetic { .. }) => lemma_synthetic(a, b, path),
        (
            StmtV::If { arms: xa, else_body: ea, .. },
            StmtV::If { arms: xb, else_body: eb, .. },
        ) => {
            if xa.len() == xb.len() {
                lemma_arms_from(xa, xb, sa, sb, path, 0);
            }
            lemma_same_arms_json(xa, xb);
            match (ea, eb) {
                (Some(x), Some(y)) => {
                    lemma_stmts_from(x, y, path, "else_body"@, 0);
                    lemma_same_stmts_json(x, y);
                },
                _ => {},
            }
            lemma_two(
                "arms"@,
                canon::arms_json(xa),
                canon::arms_json(xb),
                "else_body"@,
                canon::else_json(ea),
                canon::else_json(eb),
            );
            lemma_tagged(
                "if"@,
                seq![
                    canon::member("arms"@, canon::arms_json(xa)),
                    canon::member("else_body"@, canon::else_json(ea)),
                ],
                "if"@,
                seq![
                    canon::member("arms"@, canon::arms_json(xb)),
                    canon::member("else_body"@, canon::else_json(eb)),
                ],
            );
        },
        (StmtV::New { .. }, StmtV::New { .. }) => lemma_new(a, b, path),
        (StmtV::Expr { .. }, StmtV::Expr { .. }) => lemma_expr(a, b, path),
        _ => {},
    }
}

proof fn lemma_action(
    a: Option<ReturnActionV>,
    b: Option<ReturnActionV>,
    sa: Span,
    sb: Span,
    path: Seq<Seq<char>>,
)
    ensures
        canon::action_json(a) == canon::action_json(b) <==> match (a, b) {
            (None, None) => true,
            (Some(x), Some(y)) => x.name == y.name && compare::exprs_divs(
                x.args,
                y.args,
                sa,
                sb,
                path,
                "action.args"@,
                0,
            ).len() == 0,
            _ => false,
        },
{
    match (a, b) {
        (Some(x), Some(y)) => {
            lemma_exprs(x.args, y.args, sa, sb, path, "action.args"@);
            lemma_two(
                "name"@,
                JsonV::Str(x.name),
                JsonV::Str(y.name),
                "args"@,
                canon::exprs_json(x.args),
                canon::exprs_json(y.args),
            );
        },
        _ => {},
    }
}

spec fn same_arms(a: Seq<ArmV>, b: Seq<ArmV>, i: nat) -> bool {
    forall|j: int|
        i <= j < a.len() ==> canon::arm_json(#[trigger] a[j]) == canon::arm_json(b[j])
}

pub(crate) proof fn lemma_arm(a: ArmV, b: ArmV)
    ensures
        canon::arm_json(a) == canon::arm_json(b) <==> canon::expr_json(a.cond)
            == canon::expr_json(b.cond) && canon::stmts_json(a.body) == canon::stmts_json(b.body),
{
    let x = seq![canon::expr_json(a.cond), canon::stmts_json(a.body)];
    let y = seq![canon::expr_json(b.cond), canon::stmts_json(b.body)];
    assert(x[0] == canon::expr_json(a.cond) && y[0] == canon::expr_json(b.cond));
    assert(x[1] == canon::stmts_json(a.body) && y[1] == canon::stmts_json(b.body));
}

proof fn lemma_arms_from(
    a: Seq<ArmV>,
    b: Seq<ArmV>,
    sa: Span,
    sb: Span,
    path: Seq<Seq<char>>,
    i: nat,
)
    requires
        a.len() == b.len(),
    ensures
        compare::arms_divs(a, b, sa, sb, path, i).len() == 0 <==> same_arms(a, b, i),
    decreases a, a.len() - i, 1nat,
{
    if i < a.len() {
        let x = a[i as int];
        let y = b[i as int];
        lemma_stmts_from(x.body, y.body, path, compare::indexed("arms"@, i) + ".body"@, 0);
        lemma_same_stmts_json(x.body, y.body);
        lemma_arm(x, y);
        lemma_arms_from(a, b, sa, sb, path, i + 1);
    }
}

proof fn lemma_same_arms_json(a: Seq<ArmV>, b: Seq<ArmV>)
    ensures
        canon::arms_json(a) == canon::arms_json(b) <==> a.len() == b.len() && same_arms(a, b, 0),
{
    let x = canon::arms_json(a)->Array_0;
    let y = canon::arms_json(b)->Array_0;
    assert(x.len() == a.len() && y.len() == b.len());
    if x == y {
        assert forall|j: int| 0 <= j < a.len() implies canon::arm_json(#[trigger] a[j])
            == canon::arm_json(b[j]) by {
            assert(x[j] == canon::arm_json(a[j]));
            assert(y[j] == canon::arm_json(b[j]));
        }
    }
    if a.len() == b.len() && same_arms(a, b, 0) {
        assert(x =~= y);
    }
}

// ───────────────────────── declarations ─────────────────────────

proof fn lemma_value(
    a: FieldValueV,
    b: FieldValueV,
    sa: Span,
    sb: Span,
    path: Seq<Seq<char>>,
)
    ensures
        compare::field_value_divs(a, b, sa, sb, path).len() == 0 <==> canon::field_value_json(a)
            == canon::field_value_json(b),
    decreases a, 0int,
{
    let tag = |v: FieldValueV|
        match v {
            FieldValueV::Expr(_) => "expr"@,
            FieldValueV::Probe(_) => "probe"@,
            FieldValueV::ProbeRef(_) => "probe_ref"@,
            FieldValueV::StringList(_) => "string_list"@,
        };
    let value = |v: FieldValueV|
        match v {
            FieldValueV::Expr(e) => canon::expr_json(e),
            FieldValueV::Probe(fs) => canon::fields_json(fs),
            FieldValueV::ProbeRef(n) => JsonV::Str(n),
            FieldValueV::StringList(l) => canon::strs_json(l),
        };
    reveal_strlit("expr");
    reveal_strlit("probe");
    reveal_strlit("probe_ref");
    reveal_strlit("string_list");
    assert("expr"@.len() == 4 && "probe"@.len() == 5 && "probe_ref"@.len() == 9);
    assert("string_list"@.len() == 11);
    assert(canon::field_value_json(a) == canon::holding(tag(a), value(a)));
    assert(canon::field_value_json(b) == canon::holding(tag(b), value(b)));
    lemma_one("value"@, value(a), value(b));
    lemma_tagged(
        tag(a),
        seq![canon::member("value"@, value(a))],
        tag(b),
        seq![canon::member("value"@, value(b))],
    );
    match (a, b) {
        (FieldValueV::Probe(x), FieldValueV::Probe(y)) => lemma_fields(x, y, path),
        (FieldValueV::StringList(x), FieldValueV::StringList(y)) => lemma_strs(x, y),
        _ => {},
    }
}

pub(crate) proof fn lemma_field(a: FieldV, b: FieldV)
    ensures
        canon::field_json(a) == canon::field_json(b) <==> a.name == b.name
            && canon::field_value_json(a.value) == canon::field_value_json(b.value),
{
    lemma_two(
        "name"@,
        JsonV::Str(a.name),
        JsonV::Str(b.name),
        "value"@,
        canon::field_value_json(a.value),
        canon::field_value_json(b.value),
    );
}

spec fn same_fields(a: Seq<FieldV>, b: Seq<FieldV>, i: nat) -> bool {
    i >= compare::most(a.len(), b.len()) || (a.len() == b.len() && forall|j: int|
        i <= j < a.len() ==> canon::field_json(#[trigger] a[j]) == canon::field_json(b[j]))
}

proof fn lemma_fields_from(a: Seq<FieldV>, b: Seq<FieldV>, path: Seq<Seq<char>>, i: nat)
    ensures
        compare::fields_divs(a, b, path, i).len() == 0 <==> same_fields(a, b, i),
    decreases a, compare::most(a.len(), b.len()) - i,
{
    if i < compare::most(a.len(), b.len()) {
        lemma_fields_from(a, b, path, i + 1);
        if i < a.len() && i < b.len() {
            let x = a[i as int];
            let y = b[i as int];
            lemma_field(x, y);
            lemma_value(x.value, y.value, x.span, y.span, path.push("."@ + x.name));
        }
    }
}

proof fn lemma_fields(a: Seq<FieldV>, b: Seq<FieldV>, path: Seq<Seq<char>>)
    ensures
        compare::fields_divs(a, b, path, 0).len() == 0 <==> canon::fields_json(a)
            == canon::fields_json(b),
    decreases a, compare::most(a.len(), b.len()) + 1,
{
    lemma_fields_from(a, b, path, 0);
    let x = canon::fields_json(a)->Array_0;
    let y = canon::fields_json(b)->Array_0;
    assert(x.len() == a.len() && y.len() == b.len());
    if x == y {
        assert forall|j: int| 0 <= j < a.len() implies canon::field_json(#[trigger] a[j])
            == canon::field_json(b[j]) by {
            assert(x[j] == canon::field_json(a[j]));
            assert(y[j] == canon::field_json(b[j]));
        }
    }
    if same_fields(a, b, 0) {
        assert(x =~= y);
    }
}

proof fn lemma_mask(a: Option<u8>, b: Option<u8>)
    ensures
        canon::mask_json(a) == canon::mask_json(b) <==> a == b,
{
    match (a, b) {
        (Some(x), Some(y)) => if canon::mask_json(a) == canon::mask_json(b) {
            text::lemma_nat_text_injective(x as nat, y as nat);
        },
        _ => {},
    }
}

pub(crate) proof fn lemma_entry(a: AclEntryV, b: AclEntryV)
    ensures
        canon::acl_entry_json(a) == canon::acl_entry_json(b) <==> a.negated == b.negated && a.addr
            == b.addr && a.mask == b.mask,
{
    lemma_mask(a.mask, b.mask);
    lemma_three(
        "negated"@,
        JsonV::Bool(a.negated),
        JsonV::Bool(b.negated),
        "addr"@,
        JsonV::Str(a.addr),
        JsonV::Str(b.addr),
        "mask"@,
        canon::mask_json(a.mask),
        canon::mask_json(b.mask),
    );
}

spec fn same_entries(a: Seq<AclEntryV>, b: Seq<AclEntryV>, i: nat) -> bool {
    i >= compare::most(a.len(), b.len()) || (a.len() == b.len() && forall|j: int|
        i <= j < a.len() ==> canon::acl_entry_json(#[trigger] a[j]) == canon::acl_entry_json(b[j]))
}

proof fn lemma_entries_from(a: Seq<AclEntryV>, b: Seq<AclEntryV>, path: Seq<Seq<char>>, i: nat)
    ensures
        compare::entries_divs(a, b, path, i).len() == 0 <==> same_entries(a, b, i),
    decreases compare::most(a.len(), b.len()) - i,
{
    if i < compare::most(a.len(), b.len()) {
        lemma_entries_from(a, b, path, i + 1);
        if i < a.len() && i < b.len() {
            lemma_entry(a[i as int], b[i as int]);
        }
    }
}

proof fn lemma_entries(a: Seq<AclEntryV>, b: Seq<AclEntryV>, path: Seq<Seq<char>>)
    ensures
        compare::entries_divs(a, b, path, 0).len() == 0 <==> canon::acl_entries_json(a)
            == canon::acl_entries_json(b),
{
    lemma_entries_from(a, b, path, 0);
    let x = canon::acl_entries_json(a)->Array_0;
    let y = canon::acl_entries_json(b)->Array_0;
    assert(x.len() == a.len() && y.len() == b.len());
    if x == y {
        assert forall|j: int| 0 <= j < a.len() implies canon::acl_entry_json(#[trigger] a[j])
            == canon::acl_entry_json(b[j]) by {
            assert(x[j] == y[j]);
        }
    }
    if same_entries(a, b, 0) {
        assert(x =~= y);
    }
}

pub(crate) proof fn lemma_decl_kinds(a: DeclV, b: DeclV)
    requires
        !compare::same_decl_kind(a, b),
    ensures
        canon::decl_json(a) != canon::decl_json(b),
{
    reveal_strlit("import");
    reveal_strlit("backend");
    reveal_strlit("probe");
    reveal_strlit("acl");
    reveal_strlit("sub");
    assert("import"@.len() == 6 && "backend"@.len() == 7 && "probe"@.len() == 5);
    assert("acl"@.len() == 3 && "sub"@.len() == 3);
    assert("acl"@[0] == 'a' && "sub"@[0] == 's');
    let t = compare::decl_kind(a);
    let u = compare::decl_kind(b);
    assert(t != u);
    let x = canon::decl_json(a)->Object_0;
    let y = canon::decl_json(b)->Object_0;
    assert(x[0] == canon::member("type"@, JsonV::Str(t)));
    assert(y[0] == canon::member("type"@, JsonV::Str(u)));
}

proof fn lemma_decl(a: DeclV, b: DeclV, path: Seq<Seq<char>>)
    requires
        compare::same_decl_kind(a, b),
    ensures
        ast::decl_name(a) == ast::decl_name(b) && compare::decl_divs(a, b, path).len() == 0
            <==> canon::decl_json(a) == canon::decl_json(b),
{
    match (a, b) {
        (DeclV::Import { name: na, from: fa, .. }, DeclV::Import { name: nb, from: fb, .. }) => {
            lemma_two(
                "name"@,
                JsonV::Str(na),
                JsonV::Str(nb),
                "from"@,
                canon::opt_str_json(fa),
                canon::opt_str_json(fb),
            );
            lemma_tagged(
                "import"@,
                seq![
                    canon::member("name"@, JsonV::Str(na)),
                    canon::member("from"@, canon::opt_str_json(fa)),
                ],
                "import"@,
                seq![
                    canon::member("name"@, JsonV::Str(nb)),
                    canon::member("from"@, canon::opt_str_json(fb)),
                ],
            );
        },
        (
            DeclV::Backend { name: na, none: ca, body: ba, .. },
            DeclV::Backend { name: nb, none: cb, body: bb, .. },
        ) => {
            match (ba, bb) {
                (Some(x), Some(y)) => lemma_fields(x, y, path),
                _ => {},
            }
            lemma_three(
                "name"@,
                JsonV::Str(na),
                JsonV::Str(nb),
                "none"@,
                JsonV::Bool(ca),
                JsonV::Bool(cb),
                "body"@,
                canon::body_json(ba),
                canon::body_json(bb),
            );
            lemma_tagged(
                "backend"@,
                seq![
                    canon::member("name"@, JsonV::Str(na)),
                    canon::member("none"@, JsonV::Bool(ca)),
                    canon::member("body"@, canon::body_json(ba)),
                ],
                "backend"@,
                seq![
                    canon::member("name"@, JsonV::Str(nb)),
                    canon::member("none"@, JsonV::Bool(cb)),
                    canon::member("body"@, canon::body_json(bb)),
                ],
            );
        },
        (DeclV::Probe { name: na, body: x, .. }, DeclV::Probe { name: nb, body: y, .. }) => {
            lemma_fields(x, y, path);
            lemma_named("probe"@, na, nb, "body"@, canon::fields_json(x), canon::fields_json(y));
        },
        (DeclV::Acl { name: na, entries: x, .. }, DeclV::Acl { name: nb, entries: y, .. }) => {
            lemma_entries(x, y, path);
            lemma_named(
                "acl"@,
                na,
                nb,
                "entries"@,
                canon::acl_entries_json(x),
                canon::acl_entries_json(y),
            );
        },
        (DeclV::Sub { name: na, body: x, .. }, DeclV::Sub { name: nb, body: y, .. }) => {
            lemma_stmts_from(x, y, path, "body"@, 0);
            lemma_same_stmts_json(x, y);
            lemma_named("sub"@, na, nb, "body"@, canon::stmts_json(x), canon::stmts_json(y));
        },
        _ => {},
    }
}

proof fn lemma_named(
    tag: Seq<char>,
    na: Seq<char>,
    nb: Seq<char>,
    key: Seq<char>,
    x: JsonV,
    y: JsonV,
)
    ensures
        canon::tagged(tag, seq![canon::member("name"@, JsonV::Str(na)), canon::member(key, x)])
            == canon::tagged(tag, seq![canon::member("name"@, JsonV::Str(nb)), canon::member(key, y)])
            <==> na == nb && x == y,
{
    lemma_two("name"@, JsonV::Str(na), JsonV::Str(nb), key, x, y);
    lemma_tagged(
        tag,
        seq![canon::member("name"@, JsonV::Str(na)), canon::member(key, x)],
        tag,
        seq![canon::member("name"@, JsonV::Str(nb)), canon::member(key, y)],
    );
}

spec fn same_decls(a: Seq<DeclV>, b: Seq<DeclV>, i: nat) -> bool {
    i >= compare::most(a.len(), b.len()) || (a.len() == b.len() && forall|j: int|
        i <= j < a.len() ==> canon::decl_json(#[trigger] a[j]) == canon::decl_json(b[j]))
}

proof fn lemma_decls_from(a: Seq<DeclV>, b: Seq<DeclV>, i: nat)
    ensures
        compare::decls_divs(a, b, i).len() == 0 <==> same_decls(a, b, i),
    decreases compare::most(a.len(), b.len()) - i,
{
    if i < compare::most(a.len(), b.len()) {
        lemma_decls_from(a, b, i + 1);
        if i < a.len() && i < b.len() {
            let x = a[i as int];
            let y = b[i as int];
            let path = seq![
                compare::indexed("decls"@, i) + " ("@ + compare::decl_kind(x) + " "@
                    + ast::decl_name(x) + ")"@,
            ];
            if compare::same_decl_kind(x, y) {
                lemma_decl(x, y, path);
            } else {
                lemma_decl_kinds(x, y);
            }
        }
    }
}

/// Two programs diverge exactly where their canonical forms differ: a report is
/// empty if and only if the forms are the same.
pub proof fn law_divergence_is_exact(a: ProgramV, b: ProgramV)
    ensures
        compare::program_divs(a, b).len() == 0 <==> canon::program_json(a)
            == canon::program_json(b),
{
    lemma_decls_from(a.decls, b.decls, 0);
    let x = canon::decls_json(a.decls)->Array_0;
    let y = canon::decls_json(b.decls)->Array_0;
    assert(x.len() == a.decls.len() && y.len() == b.decls.len());
    if x == y {
        assert forall|j: int| 0 <= j < a.decls.len() implies canon::decl_json(
            #[trigger] a.decls[j],
        ) == canon::decl_json(b.decls[j]) by {
            assert(x[j] == y[j]);
        }
    }
    if same_decls(a.decls, b.decls, 0) {
        assert(x =~= y);
    }
    lemma_three(
        "vcl_normalizer_canon_version"@,
        canon::nat_json(1),
        canon::nat_json(1),
        "vcl"@,
        JsonV::Str("4.1"@),
        JsonV::Str("4.1"@),
        "decls"@,
        canon::decls_json(a.decls),
        canon::decls_json(b.decls),
    );
}

/// No more divergences are reported than asked for, and one is reported where
/// there is one and any is asked for.
pub proof fn law_reports_are_capped(a: ProgramV, b: ProgramV, max: nat)
    ensures
        compare::capped(compare::program_divs(a, b), max).len() <= max,
        max > 0 ==> (compare::capped(compare::program_divs(a, b), max).len() == 0
            <==> canon::program_json(a) == canon::program_json(b)),
{
    law_divergence_is_exact(a, b);
}

} // verus!
