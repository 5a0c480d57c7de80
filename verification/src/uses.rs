//! The names that a piece of a program uses, in the order in which they stand.

use crate::ast;
use crate::ast::{Arg, ArgV, ArmV, Expr, ExprV, ReturnAction, ReturnActionV, Stmt, StmtV};
use crate::text;
use vstd::prelude::*;
use vstd::string::*;

verus! {

/// One use of a name.
#[verifier::ext_equal]
pub enum UseV {
    /// The first part of a variable or of the target of a call.
    Name(Seq<char>),
    /// The subroutine of a `call`.
    Sub(Seq<char>),
    /// The object that a `new` makes.
    Object(Seq<char>),
}

/// The first part of a dotted name.
pub open spec fn head_uses(parts: Seq<Seq<char>>) -> Seq<UseV> {
    if parts.len() == 0 {
        seq![]
    } else {
        seq![UseV::Name(parts[0])]
    }
}

/// The uses in an expression.
pub open spec fn expr_uses(e: ExprV) -> Seq<UseV>
    decreases e,
{
    match e {
        ExprV::Var(parts) => head_uses(parts),
        ExprV::Call { target, args } => head_uses(target) + args_uses(args, args.len()),
        ExprV::Unary { expr, .. } => expr_uses(*expr),
        ExprV::Binary { lhs, rhs, .. } => expr_uses(*lhs) + expr_uses(*rhs),
        _ => seq![],
    }
}

/// The uses in the first `n` arguments.
pub open spec fn args_uses(args: Seq<ArgV>, n: nat) -> Seq<UseV>
    decreases args, n,
{
    if n == 0 || n > args.len() {
        seq![]
    } else {
        args_uses(args, (n - 1) as nat) + expr_uses(args[n - 1].value)
    }
}

/// The uses in the first `n` expressions.
pub open spec fn exprs_uses(es: Seq<ExprV>, n: nat) -> Seq<UseV>
    decreases n,
{
    if n == 0 {
        seq![]
    } else {
        exprs_uses(es, (n - 1) as nat) + expr_uses(es[n - 1])
    }
}

/// The uses in what a `return` asks for.
pub open spec fn action_uses(a: Option<ReturnActionV>) -> Seq<UseV> {
    match a {
        Some(x) => exprs_uses(x.args, x.args.len()),
        None => seq![],
    }
}

/// The uses in a statement.
pub open spec fn stmt_uses(s: StmtV) -> Seq<UseV>
    decreases s,
{
    match s {
        StmtV::Assign { rhs, .. } => expr_uses(rhs),
        StmtV::Unset { .. } => seq![],
        StmtV::Call { sub, .. } => seq![UseV::Sub(sub)],
        StmtV::Return { action, .. } => action_uses(action),
        StmtV::Synthetic { value, .. } => expr_uses(value),
        StmtV::If { arms, else_body, .. } => {
            let a = arms_uses(arms, arms.len());
            match else_body {
                Some(b) => a + stmts_uses(b, b.len()),
                None => a,
            }
        },
        StmtV::New { name, args, .. } => seq![UseV::Object(name)] + args_uses(args, args.len()),
        StmtV::Expr { expr, .. } => expr_uses(expr),
    }
}

/// The uses in the first `n` statements.
pub open spec fn stmts_uses(ss: Seq<StmtV>, n: nat) -> Seq<UseV>
    decreases ss, n,
{
    if n == 0 || n > ss.len() {
        seq![]
    } else {
        stmts_uses(ss, (n - 1) as nat) + stmt_uses(ss[n - 1])
    }
}

/// The uses in the first `n` arms.
pub open spec fn arms_uses(arms: Seq<ArmV>, n: nat) -> Seq<UseV>
    decreases arms, n,
{
    if n == 0 || n > arms.len() {
        seq![]
    } else {
        let a = arms[n - 1];
        arms_uses(arms, (n - 1) as nat) + (expr_uses(a.cond) + stmts_uses(a.body, a.body.len()))
    }
}

/// The uses in a body.
pub open spec fn body_uses(ss: Seq<StmtV>) -> Seq<UseV> {
    stmts_uses(ss, ss.len())
}

// ───────────────────────── the code ─────────────────────────

/// One use of a name.
#[derive(Debug)]
pub enum Use {
    Name(String),
    Sub(String),
    Object(String),
}

impl View for Use {
    type V = UseV;

    open spec fn view(&self) -> UseV {
        match self {
            Use::Name(n) => UseV::Name(n@),
            Use::Sub(n) => UseV::Sub(n@),
            Use::Object(n) => UseV::Object(n@),
        }
    }
}

/// The uses of a list.
pub open spec fn uses_view(s: Seq<Use>) -> Seq<UseV> {
    Seq::new(s.len(), |i: int| s[i]@)
}

fn add_use(out: &mut Vec<Use>, u: Use)
    ensures
        uses_view(final(out)@) == uses_view(old(out)@) + seq![u@],
{
    let ghost before = out@;
    out.push(u);
    assert(uses_view(out@) =~= uses_view(before) + seq![u@]);
}

fn add_head(parts: &Vec<String>, out: &mut Vec<Use>)
    ensures
        uses_view(final(out)@) == uses_view(old(out)@) + head_uses(text::texts(parts@)),
{
    if parts.len() > 0 {
        add_use(out, Use::Name(parts[0].clone()));
    } else {
        assert(uses_view(out@) + Seq::<UseV>::empty() =~= uses_view(out@));
    }
}

fn add_expr(e: &Expr, out: &mut Vec<Use>)
    ensures
        uses_view(final(out)@) == uses_view(old(out)@) + expr_uses(e@),
    decreases e,
{
    let ghost start = uses_view(out@);
    match e {
        Expr::Var(parts) => {
            add_head(parts, out);
        },
        Expr::Call { target, args } => {
            add_head(target, out);
            add_args(args, out);
        },
        Expr::Unary { expr, .. } => {
            add_expr(expr, out);
        },
        Expr::Binary { lhs, rhs, .. } => {
            add_expr(lhs, out);
            add_expr(rhs, out);
        },
        _ => {},
    }
    assert(uses_view(out@) =~= start + expr_uses(e@));
}

fn add_args(args: &Vec<Arg>, out: &mut Vec<Use>)
    ensures
        uses_view(final(out)@) == uses_view(old(out)@) + args_uses(
            ast::args_view(args@),
            args@.len(),
        ),
    decreases args,
{
    let ghost av = ast::args_view(args@);
    let ghost start = uses_view(out@);
    let mut i: usize = 0;
    assert(start =~= start + args_uses(av, 0));
    while i < args.len()
        invariant
            i <= args.len(),
            av == ast::args_view(args@),
            uses_view(out@) == start + args_uses(av, i as nat),
        decreases args.len() - i,
    {
        add_expr(&args[i].value, out);
        i += 1;
        proof {
            assert(av[i - 1] == ast::arg_view(args@[i - 1]));
            assert(uses_view(out@) =~= start + args_uses(av, i as nat));
        }
    }
}

fn add_exprs(es: &Vec<Expr>, out: &mut Vec<Use>)
    ensures
        uses_view(final(out)@) == uses_view(old(out)@) + exprs_uses(
            ast::exprs_view(es@),
            es@.len(),
        ),
{
    let ghost ev = ast::exprs_view(es@);
    let ghost start = uses_view(out@);
    let mut i: usize = 0;
    assert(start =~= start + exprs_uses(ev, 0));
    while i < es.len()
        invariant
            i <= es.len(),
            ev == ast::exprs_view(es@),
            uses_view(out@) == start + exprs_uses(ev, i as nat),
        decreases es.len() - i,
    {
        add_expr(&es[i], out);
        i += 1;
        proof {
            assert(ev[i - 1] == ast::expr_view(es@[i - 1]));
            assert(uses_view(out@) =~= start + exprs_uses(ev, i as nat));
        }
    }
}

fn add_action(a: &Option<ReturnAction>, out: &mut Vec<Use>)
    ensures
        uses_view(final(out)@) == uses_view(old(out)@) + action_uses(ast::opt_action_view(*a)),
{
    match a {
        Some(x) => add_exprs(&x.args, out),
        None => {
            assert(uses_view(out@) + Seq::<UseV>::empty() =~= uses_view(out@));
        },
    }
}

fn add_stmt(s: &Stmt, out: &mut Vec<Use>)
    ensures
        uses_view(final(out)@) == uses_view(old(out)@) + stmt_uses(s@),
    decreases s,
{
    let ghost start = uses_view(out@);
    match s {
        Stmt::Assign { rhs, .. } => {
            add_expr(rhs, out);
        },
        Stmt::Unset { .. } => {},
        Stmt::Call { sub, .. } => {
            add_use(out, Use::Sub(sub.clone()));
        },
        Stmt::Return { action, .. } => {
            add_action(action, out);
        },
        Stmt::Synthetic { value, .. } => {
            add_expr(value, out);
        },
        Stmt::If { arms, else_body, .. } => {
            add_arms(arms, out);
            if let Some(b) = else_body {
                add_stmts(b, out);
            }
        },
        Stmt::New { name, args, .. } => {
            add_use(out, Use::Object(name.clone()));
            add_args(args, out);
        },
        Stmt::Expr { expr, .. } => {
            add_expr(expr, out);
        },
    }
    assert(uses_view(out@) =~= start + stmt_uses(s@));
}

fn add_stmts(ss: &Vec<Stmt>, out: &mut Vec<Use>)
    ensures
        uses_view(final(out)@) == uses_view(old(out)@) + stmts_uses(
            ast::stmts_view(ss@),
            ss@.len(),
        ),
    decreases ss,
{
    let ghost sv = ast::stmts_view(ss@);
    let ghost start = uses_view(out@);
    let mut i: usize = 0;
    assert(start =~= start + stmts_uses(sv, 0));
    while i < ss.len()
        invariant
            i <= ss.len(),
            sv == ast::stmts_view(ss@),
            uses_view(out@) == start + stmts_uses(sv, i as nat),
        decreases ss.len() - i,
    {
        add_stmt(&ss[i], out);
        i += 1;
        proof {
            assert(sv[i - 1] == ast::stmt_view(ss@[i - 1]));
            assert(uses_view(out@) =~= start + stmts_uses(sv, i as nat));
        }
    }
}

fn add_arms(arms: &Vec<(Expr, Vec<Stmt>)>, out: &mut Vec<Use>)
    ensures
        uses_view(final(out)@) == uses_view(old(out)@) + arms_uses(
            ast::arms_view(arms@),
            arms@.len(),
        ),
    decreases arms,
{
    let ghost av = ast::arms_view(arms@);
    let ghost start = uses_view(out@);
    let mut i: usize = 0;
    assert(start =~= start + arms_uses(av, 0));
    while i < arms.len()
        invariant
            i <= arms.len(),
            av == ast::arms_view(arms@),
            uses_view(out@) == start + arms_uses(av, i as nat),
        decreases arms.len() - i,
    {
        add_expr(&arms[i].0, out);
        add_stmts(&arms[i].1, out);
        i += 1;
        proof {
            assert(av[i - 1] == ast::arm_view(arms@[i - 1]));
            assert(uses_view(out@) =~= start + arms_uses(av, i as nat));
        }
    }
}

/// The uses in a body.
pub fn uses_of(body: &Vec<Stmt>) -> (r: Vec<Use>)
    ensures
        uses_view(r@) == body_uses(ast::stmts_view(body@)),
{
    let mut out: Vec<Use> = Vec::new();
    add_stmts(body, &mut out);
    assert(uses_view(out@) =~= body_uses(ast::stmts_view(body@)));
    out
}

} // verus!
