//! Which names stand in a body, and which subroutines are reached from `vcl_init`.

use crate::ast::{ArgV, ArmV, BinOp, DeclV, ExprV, Span, StmtV};
use crate::symbols;
use crate::symbols::references;
use crate::uses;
use crate::uses::UseV;
use vstd::prelude::*;
use vstd::string::*;

verus! {

/// Whether an expression is a variable or a call whose first part is that name.
pub open spec fn heads(e: ExprV, n: Seq<char>) -> bool {
    match e {
        ExprV::Var(parts) => parts.len() > 0 && parts[0] == n,
        ExprV::Call { target, .. } => target.len() > 0 && target[0] == n,
        _ => false,
    }
}

/// Whether a name heads an expression or one in it.
pub open spec fn names(e: ExprV, n: Seq<char>) -> bool {
    exists|x: ExprV| #[trigger] references::has_expr(e, x) && heads(x, n)
}

/// Whether a name heads one of several arguments or an expression in it.
pub open spec fn names_arg(args: Seq<ArgV>, n: Seq<char>) -> bool {
    exists|i: int| 0 <= i < args.len() && names((#[trigger] args[i]).value, n)
}

/// Whether a statement itself, without the statements in it, uses a name in that way.
pub open spec fn uses_itself(s: StmtV, u: UseV) -> bool {
    match u {
        UseV::Sub(n) => s matches StmtV::Call { sub, .. } && sub == n,
        UseV::Object(n) => s matches StmtV::New { name, .. } && name == n,
        UseV::Name(n) => match s {
            StmtV::Assign { rhs, .. } => names(rhs, n),
            StmtV::Return { action: Some(a), .. } => exists|i: int|
                0 <= i < a.args.len() && names(#[trigger] a.args[i], n),
            StmtV::Synthetic { value, .. } => names(value, n),
            StmtV::If { arms, .. } => exists|i: int|
                0 <= i < arms.len() && names((#[trigger] arms[i]).cond, n),
            StmtV::New { args, .. } => names_arg(args, n),
            StmtV::Expr { expr, .. } => names(expr, n),
            _ => false,
        },
    }
}

/// Whether a use is one of a name that heads an expression.
spec fn as_name(e: ExprV, u: UseV) -> bool {
    u matches UseV::Name(n) && names(e, n)
}

proof fn lemma_in_sum(x: Seq<UseV>, y: Seq<UseV>, u: UseV)
    ensures
        (x + y).contains(u) <==> x.contains(u) || y.contains(u),
{
    if x.contains(u) {
        let i = choose|i: int| 0 <= i < x.len() && x[i] == u;
        assert((x + y)[i] == u);
    }
    if y.contains(u) {
        let i = choose|i: int| 0 <= i < y.len() && y[i] == u;
        assert((x + y)[i + x.len()] == u);
    }
    if (x + y).contains(u) {
        let i = choose|i: int| 0 <= i < (x + y).len() && (x + y)[i] == u;
        if i < x.len() {
            assert(x[i] == u);
        } else {
            assert(y[i - x.len()] == u);
        }
    }
}

proof fn lemma_head(parts: Seq<Seq<char>>, u: UseV)
    ensures
        uses::head_uses(parts).contains(u) <==> parts.len() > 0 && u == UseV::Name(parts[0]),
{
    if parts.len() > 0 {
        assert(uses::head_uses(parts)[0] == UseV::Name(parts[0]));
    }
}

proof fn lemma_expr(e: ExprV, u: UseV)
    ensures
        uses::expr_uses(e).contains(u) <==> as_name(e, u),
    decreases e, 0nat,
{
    assert(references::has_expr(e, e));
    match e {
        ExprV::Var(parts) => {
            lemma_head(parts, u);
            if let UseV::Name(n) = u {
                if names(e, n) {
                    let x = choose|x: ExprV| #[trigger] references::has_expr(e, x) && heads(x, n);
                    assert(x == e);
                }
                if parts.len() > 0 && parts[0] == n {
                    assert(heads(e, n));
                }
            }
        },
        ExprV::Call { target, args } => {
            lemma_head(target, u);
            lemma_args(args, args.len(), u);
            lemma_in_sum(uses::head_uses(target), uses::args_uses(args, args.len()), u);
            if let UseV::Name(n) = u {
                if names(e, n) && !heads(e, n) {
                    let x = choose|x: ExprV| #[trigger] references::has_expr(e, x) && heads(x, n);
                    assert(references::has_arg(args, x));
                    let i = choose|i: int|
                        0 <= i < args.len() && references::has_expr((#[trigger] args[i]).value, x);
                    assert(as_name(args[i].value, u));
                }
                if exists|i: int| 0 <= i < args.len() && as_name((#[trigger] args[i]).value, u) {
                    let i = choose|i: int|
                        0 <= i < args.len() && as_name((#[trigger] args[i]).value, u);
                    let x = choose|x: ExprV| #[trigger]
                        references::has_expr(args[i].value, x) && heads(x, n);
                    assert(references::has_arg(args, x));
                    assert(references::has_expr(e, x));
                }
            }
        },
        ExprV::Unary { expr, .. } => {
            lemma_expr(*expr, u);
            if let UseV::Name(n) = u {
                if names(e, n) {
                    let x = choose|x: ExprV| #[trigger] references::has_expr(e, x) && heads(x, n);
                    assert(references::has_expr(*expr, x));
                }
                if names(*expr, n) {
                    let x = choose|x: ExprV| #[trigger]
                        references::has_expr(*expr, x) && heads(x, n);
                    assert(references::has_expr(e, x));
                }
            }
        },
        ExprV::Binary { lhs, rhs, .. } => {
            lemma_expr(*lhs, u);
            lemma_expr(*rhs, u);
            lemma_in_sum(uses::expr_uses(*lhs), uses::expr_uses(*rhs), u);
            if let UseV::Name(n) = u {
                if names(e, n) {
                    let x = choose|x: ExprV| #[trigger] references::has_expr(e, x) && heads(x, n);
                    assert(references::has_expr(*lhs, x) || references::has_expr(*rhs, x));
                }
                if names(*lhs, n) {
                    let x = choose|x: ExprV| #[trigger] references::has_expr(*lhs, x) && heads(x, n);
                    assert(references::has_expr(e, x));
                }
                if names(*rhs, n) {
                    let x = choose|x: ExprV| #[trigger] references::has_expr(*rhs, x) && heads(x, n);
                    assert(references::has_expr(e, x));
                }
            }
        },
        _ => {
            if let UseV::Name(n) = u {
                if names(e, n) {
                    let x = choose|x: ExprV| #[trigger] references::has_expr(e, x) && heads(x, n);
                    assert(x == e);
                }
            }
        },
    }
}

proof fn lemma_args(args: Seq<ArgV>, n: nat, u: UseV)
    requires
        n <= args.len(),
    ensures
        uses::args_uses(args, n).contains(u) <==> exists|i: int|
            0 <= i < n && as_name((#[trigger] args[i]).value, u),
    decreases args, n,
{
    if n > 0 {
        lemma_args(args, (n - 1) as nat, u);
        lemma_expr(args[n - 1].value, u);
        lemma_in_sum(
            uses::args_uses(args, (n - 1) as nat),
            uses::expr_uses(args[n - 1].value),
            u,
        );
    }
}

proof fn lemma_exprs(es: Seq<ExprV>, n: nat, u: UseV)
    requires
        n <= es.len(),
    ensures
        uses::exprs_uses(es, n).contains(u) <==> exists|i: int|
            0 <= i < n && as_name(#[trigger] es[i], u),
    decreases n,
{
    if n > 0 {
        lemma_exprs(es, (n - 1) as nat, u);
        lemma_expr(es[n - 1], u);
        lemma_in_sum(uses::exprs_uses(es, (n - 1) as nat), uses::expr_uses(es[n - 1]), u);
    }
}

/// Whether some statement in another uses a name in that way.
spec fn used_in(s: StmtV, u: UseV) -> bool {
    exists|x: StmtV| #[trigger] references::has_stmt(s, x) && uses_itself(x, u)
}

proof fn lemma_inside(s: StmtV, body: Seq<StmtV>, u: UseV)
    requires
        forall|x: StmtV| #[trigger] references::has_in(body, x) ==> references::has_stmt(s, x),
    ensures
        (exists|i: int| 0 <= i < body.len() && used_in(#[trigger] body[i], u)) ==> used_in(s, u),
{
    if exists|i: int| 0 <= i < body.len() && used_in(#[trigger] body[i], u) {
        let i = choose|i: int| 0 <= i < body.len() && used_in(#[trigger] body[i], u);
        let x = choose|x: StmtV| #[trigger]
            references::has_stmt(body[i], x) && uses_itself(x, u);
        assert(references::has_in(body, x));
        assert(references::has_stmt(s, x));
    }
}

proof fn lemma_stmt(s: StmtV, u: UseV)
    ensures
        uses::stmt_uses(s).contains(u) <==> used_in(s, u),
    decreases s, 0nat,
{
    assert(references::has_stmt(s, s));
    match s {
        StmtV::Assign { rhs, .. } => lemma_expr(rhs, u),
        StmtV::Call { sub, .. } => {
            assert(uses::stmt_uses(s)[0] == UseV::Sub(sub));
        },
        StmtV::Return { action: Some(a), .. } => lemma_exprs(a.args, a.args.len(), u),
        StmtV::Synthetic { value, .. } => lemma_expr(value, u),
        StmtV::New { name, args, .. } => {
            lemma_args(args, args.len(), u);
            let first = seq![UseV::Object(name)];
            assert(first[0] == UseV::Object(name));
            lemma_in_sum(first, uses::args_uses(args, args.len()), u);
            if let UseV::Name(n) = u {
                assert((exists|i: int| 0 <= i < args.len() && as_name((#[trigger] args[i]).value, u))
                    <==> names_arg(args, n)) by {
                    if names_arg(args, n) {
                        let i = choose|i: int|
                            0 <= i < args.len() && names((#[trigger] args[i]).value, n);
                        assert(as_name(args[i].value, u));
                    }
                    if exists|i: int| 0 <= i < args.len() && as_name((#[trigger] args[i]).value, u) {
                        let i = choose|i: int|
                            0 <= i < args.len() && as_name((#[trigger] args[i]).value, u);
                        assert(names(args[i].value, n));
                    }
                }
            }
        },
        StmtV::Expr { expr, .. } => lemma_expr(expr, u),
        StmtV::If { arms, else_body, .. } => {
            lemma_arms(arms, arms.len(), u);
            let a = uses::arms_uses(arms, arms.len());
            match else_body {
                Some(b) => {
                    lemma_stmts(b, b.len(), u);
                    lemma_in_sum(a, uses::stmts_uses(b, b.len()), u);
                    lemma_inside(s, b, u);
                },
                None => {},
            }
            assert forall|i: int|
                0 <= i < arms.len() && used_in_list((#[trigger] arms[i]).body, u) implies used_in(
                s,
                u,
            ) by {
                assert forall|x: StmtV| #[trigger] references::has_in(arms[i].body, x) implies
                    references::has_stmt(s, x) by {
                    assert(references::has_in_arms(arms, x));
                }
                lemma_inside(s, arms[i].body, u);
            }
            if used_in(s, u) && !uses_itself(s, u) {
                let x = choose|x: StmtV| #[trigger] references::has_stmt(s, x) && uses_itself(x, u);
                if references::has_in_arms(arms, x) {
                    let i = choose|i: int|
                        0 <= i < arms.len() && references::has_in((#[trigger] arms[i]).body, x);
                    let b = arms[i].body;
                    let j = choose|j: int|
                        0 <= j < b.len() && references::has_stmt(#[trigger] b[j], x);
                    assert(used_in(b[j], u));
                    assert(used_in_list(b, u));
                } else {
                    let b = else_body->0;
                    let j = choose|j: int|
                        0 <= j < b.len() && references::has_stmt(#[trigger] b[j], x);
                    assert(used_in(b[j], u));
                }
            }
            if let UseV::Name(n) = u {
                if exists|i: int| 0 <= i < arms.len() && as_name((#[trigger] arms[i]).cond, u) {
                    let i = choose|i: int| 0 <= i < arms.len() && as_name((#[trigger] arms[i]).cond, u);
                    assert(names(arms[i].cond, n));
                    assert(uses_itself(s, u));
                }
                if uses_itself(s, u) {
                    let i = choose|i: int| 0 <= i < arms.len() && names((#[trigger] arms[i]).cond, n);
                    assert(as_name(arms[i].cond, u));
                }
            }
        },
        _ => {},
    }
}

/// Whether a list of statements uses a name in that way.
spec fn used_in_list(b: Seq<StmtV>, u: UseV) -> bool {
    exists|i: int| 0 <= i < b.len() && used_in(#[trigger] b[i], u)
}

proof fn lemma_stmts(ss: Seq<StmtV>, n: nat, u: UseV)
    requires
        n <= ss.len(),
    ensures
        uses::stmts_uses(ss, n).contains(u) <==> exists|i: int|
            0 <= i < n && used_in(#[trigger] ss[i], u),
    decreases ss, n,
{
    if n > 0 {
        lemma_stmts(ss, (n - 1) as nat, u);
        lemma_stmt(ss[n - 1], u);
        lemma_in_sum(uses::stmts_uses(ss, (n - 1) as nat), uses::stmt_uses(ss[n - 1]), u);
    }
}

proof fn lemma_arms(arms: Seq<ArmV>, n: nat, u: UseV)
    requires
        n <= arms.len(),
    ensures
        uses::arms_uses(arms, n).contains(u) <==> exists|i: int|
            0 <= i < n && (as_name((#[trigger] arms[i]).cond, u) || used_in_list(arms[i].body, u)),
    decreases arms, n,
{
    if n > 0 {
        let a = arms[n - 1];
        lemma_arms(arms, (n - 1) as nat, u);
        lemma_expr(a.cond, u);
        lemma_stmts(a.body, a.body.len(), u);
        let c = uses::expr_uses(a.cond);
        let b = uses::stmts_uses(a.body, a.body.len());
        lemma_in_sum(c, b, u);
        lemma_in_sum(uses::arms_uses(arms, (n - 1) as nat), c + b, u);
        assert(used_in_list(a.body, u) <==> b.contains(u));
    }
}

/// The uses of names in a body are those of the statements that stand in it, however
/// deep: the subroutine of a `call`, the object of a `new`, and the first part of every
/// variable and of every target of a call.
pub proof fn law_uses_are_what_stands_there(ss: Seq<StmtV>, u: UseV)
    ensures
        uses::body_uses(ss).contains(u) <==> exists|x: StmtV| #[trigger]
            references::has_in(ss, x) && uses_itself(x, u),
{
    lemma_stmts(ss, ss.len(), u);
    if uses::body_uses(ss).contains(u) {
        let i = choose|i: int| 0 <= i < ss.len() && used_in(#[trigger] ss[i], u);
        let x = choose|x: StmtV| #[trigger] references::has_stmt(ss[i], x) && uses_itself(x, u);
        assert(references::has_in(ss, x));
    }
    if exists|x: StmtV| #[trigger] references::has_in(ss, x) && uses_itself(x, u) {
        let x = choose|x: StmtV| #[trigger] references::has_in(ss, x) && uses_itself(x, u);
        let i = choose|i: int| 0 <= i < ss.len() && references::has_stmt(#[trigger] ss[i], x);
        assert(used_in(ss[i], u));
    }
}

proof fn lemma_stmts_prefix(a: Seq<StmtV>, b: Seq<StmtV>, n: nat)
    requires
        n <= b.len(),
    ensures
        uses::stmts_uses(a + b, a.len() + n) == uses::stmts_uses(a, a.len()) + uses::stmts_uses(
            b,
            n,
        ),
    decreases n,
{
    let s = a + b;
    if n > 0 {
        lemma_stmts_prefix(a, b, (n - 1) as nat);
        assert(s[a.len() + n - 1] == b[n - 1]);
        let x = uses::stmts_uses(a, a.len());
        let y = uses::stmts_uses(b, (n - 1) as nat);
        let z = uses::stmt_uses(b[n - 1]);
        assert((x + y) + z =~= x + (y + z));
        assert((a.len() + n - 1) as nat == a.len() + (n - 1) as nat);
    } else {
        lemma_stmts_same(s, a, a.len());
        assert(uses::stmts_uses(a, a.len()) + Seq::<UseV>::empty() =~= uses::stmts_uses(
            a,
            a.len(),
        ));
    }
}

proof fn lemma_stmts_same(a: Seq<StmtV>, b: Seq<StmtV>, n: nat)
    requires
        n <= a.len(),
        n <= b.len(),
        forall|i: int| 0 <= i < n ==> a[i] == #[trigger] b[i],
    ensures
        uses::stmts_uses(a, n) == uses::stmts_uses(b, n),
    decreases n,
{
    if n > 0 {
        lemma_stmts_same(a, b, (n - 1) as nat);
        assert(a[n - 1] == b[n - 1]);
    }
}

/// Names are used in the order in which they are written: one statement after the other,
/// in an `if` each condition before its branch and the last branch behind the others,
/// in a call what is called before the arguments, and the left operand before the right
/// one.
pub proof fn law_names_are_used_in_order(
    a: Seq<StmtV>,
    b: Seq<StmtV>,
    arm: ArmV,
    span: Span,
    op: BinOp,
    l: ExprV,
    r: ExprV,
    target: Seq<Seq<char>>,
    arg: ArgV,
)
    ensures
        uses::body_uses(a + b) == uses::body_uses(a) + uses::body_uses(b),
        uses::stmt_uses(StmtV::If { arms: seq![arm], else_body: Some(b), span })
            == uses::expr_uses(arm.cond) + uses::body_uses(arm.body) + uses::body_uses(b),
        uses::expr_uses(ExprV::Binary { op, lhs: Box::new(l), rhs: Box::new(r) })
            == uses::expr_uses(l) + uses::expr_uses(r),
        target.len() > 0 ==> uses::expr_uses(ExprV::Call { target, args: seq![arg] }) == seq![
            UseV::Name(target[0]),
        ] + uses::expr_uses(arg.value),
{
    lemma_stmts_prefix(a, b, b.len());
    let arms = seq![arm];
    let x = uses::expr_uses(arm.cond) + uses::body_uses(arm.body);
    assert(arms[0] == arm);
    assert(uses::arms_uses(arms, 0) == Seq::<UseV>::empty());
    assert(Seq::<UseV>::empty() + x =~= x);
    assert(uses::arms_uses(arms, 1) == x);
    let args = seq![arg];
    assert(args[0] == arg);
    assert(uses::args_uses(args, 0) == Seq::<UseV>::empty());
    assert(Seq::<UseV>::empty() + uses::expr_uses(arg.value) =~= uses::expr_uses(arg.value));
    assert(uses::args_uses(args, 1) == uses::expr_uses(arg.value));
}

// ───────────────────────── reaching ─────────────────────────

/// Whether a subroutine of one name calls one of another, however deep the `call`
/// stands.
pub open spec fn calls_to(ds: Seq<DeclV>, a: Seq<char>, b: Seq<char>) -> bool {
    exists|i: int, x: StmtV|
        0 <= i < ds.len() && (ds[i] matches DeclV::Sub { name, .. } && name == a)
            && #[trigger] references::has_decl(ds[i], x) && (x matches StmtV::Call { sub, .. }
            && sub == b)
}

proof fn lemma_calls(ds: Seq<DeclV>, a: Seq<char>, b: Seq<char>)
    ensures
        symbols::calls(ds, a, b) <==> calls_to(ds, a, b),
{
    let u = UseV::Sub(b);
    if symbols::calls(ds, a, b) {
        let i = choose|i: int|
            0 <= i < ds.len() && (#[trigger] ds[i] matches DeclV::Sub { name, body, .. } && name
                == a && uses::body_uses(body).contains(UseV::Sub(b)));
        let body = ds[i]->Sub_body;
        law_uses_are_what_stands_there(body, u);
        let x = choose|x: StmtV| #[trigger] references::has_in(body, x) && uses_itself(x, u);
        assert(references::has_decl(ds[i], x));
    }
    if calls_to(ds, a, b) {
        let (i, x) = choose|i: int, x: StmtV|
            0 <= i < ds.len() && (ds[i] matches DeclV::Sub { name, .. } && name == a)
                && #[trigger] references::has_decl(ds[i], x) && (x matches StmtV::Call { sub, .. }
                && sub == b);
        let body = ds[i]->Sub_body;
        law_uses_are_what_stands_there(body, u);
        assert(references::has_in(body, x) && uses_itself(x, u));
        assert(uses::body_uses(body).contains(u));
        assert(ds[i] is Sub);
    }
}

/// `vcl_init` is reached, and what a reached subroutine calls is reached.
pub proof fn law_calls_reach(ds: Seq<DeclV>, a: Seq<char>, b: Seq<char>)
    ensures
        symbols::reachable(ds, "vcl_init"@),
        symbols::reachable(ds, a) && calls_to(ds, a, b) ==> symbols::reachable(ds, b),
{
    assert(symbols::reached_in(ds, "vcl_init"@, 0));
    if symbols::reachable(ds, a) && calls_to(ds, a, b) {
        lemma_calls(ds, a, b);
        let n = choose|n: nat| #[trigger] symbols::reached_in(ds, a, n);
        assert(symbols::calls(ds, a, b));
        assert(symbols::reached_in(ds, b, n + 1));
    }
}

proof fn lemma_reached_only(
    ds: Seq<DeclV>,
    s: Set<Seq<char>>,
    name: Seq<char>,
    n: nat,
)
    requires
        s.contains("vcl_init"@),
        forall|a: Seq<char>, b: Seq<char>|
            s.contains(a) && #[trigger] calls_to(ds, a, b) ==> s.contains(b),
        symbols::reached_in(ds, name, n),
    ensures
        s.contains(name),
    decreases n,
{
    if n > 0 {
        let m = choose|m: Seq<char>|
            symbols::reached_in(ds, m, (n - 1) as nat) && #[trigger] symbols::calls(ds, m, name);
        lemma_reached_only(ds, s, m, (n - 1) as nat);
        lemma_calls(ds, m, name);
        assert(calls_to(ds, m, name));
    }
}

/// Nothing else is reached: whatever holds `vcl_init` and with a subroutine all that
/// it calls holds every subroutine that is reached.
pub proof fn law_only_calls_reach(ds: Seq<DeclV>, s: Set<Seq<char>>, name: Seq<char>)
    requires
        s.contains("vcl_init"@),
        forall|a: Seq<char>, b: Seq<char>|
            s.contains(a) && #[trigger] calls_to(ds, a, b) ==> s.contains(b),
        symbols::reachable(ds, name),
    ensures
        s.contains(name),
{
    let n = choose|n: nat| #[trigger] symbols::reached_in(ds, name, n);
    lemma_reached_only(ds, s, name, n);
}

} // verus!
