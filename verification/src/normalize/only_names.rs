//! What renaming changes: names, and nothing else.

use crate::ast;
use crate::ast::{ArgV, ArmV, DeclV, ExprV, FieldV, FieldValueV, ProgramV, StmtV};
use crate::normalize;
use crate::normalize::merge;
use crate::normalize::rename;
use crate::normalize::renaming;
use crate::normalize::sort;
use vstd::prelude::*;

verus! {

/// Whether a name is what another one is called now.
pub open spec fn called(a: Seq<char>, b: Seq<char>, m: Map<Seq<char>, Seq<char>>) -> bool {
    if m.contains_key(a) {
        b == m[a]
    } else {
        b == a
    }
}

/// Whether a path is another one with its first part as it is called now.
pub open spec fn called_path(
    a: Seq<Seq<char>>,
    b: Seq<Seq<char>>,
    m: Map<Seq<char>, Seq<char>>,
) -> bool {
    a.len() == b.len() && (a.len() > 0 ==> called(a[0], b[0], m)) && forall|i: int|
        0 < i < a.len() ==> #[trigger] b[i] == a[i]
}

/// Whether an expression is another one but for names.
pub open spec fn alike_expr(a: ExprV, b: ExprV, m: Map<Seq<char>, Seq<char>>) -> bool
    decreases a,
{
    match a {
        ExprV::Var(x) => b matches ExprV::Var(y) && called_path(x, y, m),
        ExprV::Call { target: t, args: x } => b matches ExprV::Call { target: u, args: y }
            && called_path(t, u, m) && alike_args(x, y, m),
        ExprV::Unary { op: p, expr: x } => b matches ExprV::Unary { op: q, expr: y } && p == q
            && alike_expr(*x, *y, m),
        ExprV::Binary { op: p, lhs: x, rhs: y } => b matches ExprV::Binary {
            op: q,
            lhs: z,
            rhs: w,
        } && p == q && alike_expr(*x, *z, m) && alike_expr(*y, *w, m),
        _ => b == a,
    }
}

/// Whether an argument is another one but for names.
pub open spec fn alike_arg(a: ArgV, b: ArgV, m: Map<Seq<char>, Seq<char>>) -> bool
    decreases a,
{
    a.name == b.name && a.span == b.span && alike_expr(a.value, b.value, m)
}

/// Whether arguments are others but for names.
pub open spec fn alike_args(a: Seq<ArgV>, b: Seq<ArgV>, m: Map<Seq<char>, Seq<char>>) -> bool
    decreases a,
{
    a.len() == b.len() && forall|i: int| 0 <= i < a.len() ==> alike_arg(#[trigger] a[i], b[i], m)
}

/// Whether a statement is another one but for names.
pub open spec fn alike_stmt(a: StmtV, b: StmtV, m: Map<Seq<char>, Seq<char>>) -> bool
    decreases a,
{
    ast::stmt_span(a) == ast::stmt_span(b) && match a {
        StmtV::Assign { lhs: l, rhs: x, .. } => b matches StmtV::Assign { lhs: k, rhs: y, .. } && l
            == k && alike_expr(x, y, m),
        StmtV::Unset { lhs: l, .. } => b matches StmtV::Unset { lhs: k, .. } && l == k,
        StmtV::Call { sub: l, .. } => b matches StmtV::Call { sub: k, .. } && called(l, k, m),
        StmtV::Return { action: x, .. } => b matches StmtV::Return { action: y, .. } && match (
            x,
            y,
        ) {
            (Some(v), Some(w)) => v.name == w.name && v.args.len() == w.args.len() && forall|i: int|
                0 <= i < v.args.len() ==> alike_expr(#[trigger] v.args[i], w.args[i], m),
            (None, None) => true,
            _ => false,
        },
        StmtV::Synthetic { value: x, .. } => b matches StmtV::Synthetic { value: y, .. }
            && alike_expr(x, y, m),
        StmtV::If { arms: x, else_body: e, .. } => b matches StmtV::If {
            arms: y,
            else_body: f,
            ..
        } && alike_arms(x, y, m) && match (e, f) {
            (Some(v), Some(w)) => alike_stmts(v, w, m),
            (None, None) => true,
            _ => false,
        },
        StmtV::New { name: n, vmod: v, ctor: c, args: x, .. } => b matches StmtV::New {
            name: o,
            vmod: w,
            ctor: d,
            args: y,
            ..
        } && called(n, o, m) && v == w && c == d && alike_args(x, y, m),
        StmtV::Expr { expr: x, .. } => b matches StmtV::Expr { expr: y, .. } && alike_expr(
            x,
            y,
            m,
        ),
    }
}

/// Whether statements are others but for names.
pub open spec fn alike_stmts(a: Seq<StmtV>, b: Seq<StmtV>, m: Map<Seq<char>, Seq<char>>) -> bool
    decreases a,
{
    a.len() == b.len() && forall|i: int| 0 <= i < a.len() ==> alike_stmt(#[trigger] a[i], b[i], m)
}

/// Whether an arm is another one but for names.
pub open spec fn alike_arm(a: ArmV, b: ArmV, m: Map<Seq<char>, Seq<char>>) -> bool
    decreases a,
{
    alike_expr(a.cond, b.cond, m) && alike_stmts(a.body, b.body, m)
}

/// Whether arms are others but for names.
pub open spec fn alike_arms(a: Seq<ArmV>, b: Seq<ArmV>, m: Map<Seq<char>, Seq<char>>) -> bool
    decreases a,
{
    a.len() == b.len() && forall|i: int| 0 <= i < a.len() ==> alike_arm(#[trigger] a[i], b[i], m)
}

/// Whether a field is another one but for the name of a probe.
pub open spec fn alike_field(a: FieldV, b: FieldV, m: Map<Seq<char>, Seq<char>>) -> bool {
    a.name == b.name && a.span == b.span && match a.value {
        FieldValueV::ProbeRef(x) => b.value matches FieldValueV::ProbeRef(y) && called(x, y, m),
        v => b.value == v,
    }
}

/// Whether a declaration is another one but for names. Imports keep theirs.
pub open spec fn alike_decl(a: DeclV, b: DeclV, m: Map<Seq<char>, Seq<char>>) -> bool {
    ast::decl_span(a) == ast::decl_span(b) && match a {
        DeclV::Import { name: n, from: x, .. } => b matches DeclV::Import { name: o, from: y, .. }
            && n == o && x == y,
        DeclV::Backend { name: n, none: p, body: x, .. } => b matches DeclV::Backend {
            name: o,
            none: q,
            body: y,
            ..
        } && called(n, o, m) && p == q && match (x, y) {
            (Some(v), Some(w)) => v.len() == w.len() && forall|i: int|
                0 <= i < v.len() ==> alike_field(#[trigger] v[i], w[i], m),
            (None, None) => true,
            _ => false,
        },
        DeclV::Probe { name: n, body: x, .. } => b matches DeclV::Probe { name: o, body: y, .. }
            && called(n, o, m) && x == y,
        DeclV::Acl { name: n, entries: x, .. } => b matches DeclV::Acl { name: o, entries: y, .. }
            && called(n, o, m) && x == y,
        DeclV::Sub { name: n, body: x, .. } => b matches DeclV::Sub { name: o, body: y, .. }
            && called(n, o, m) && alike_stmts(x, y, m),
    }
}

proof fn lemma_expr(e: ExprV, m: Map<Seq<char>, Seq<char>>)
    ensures
        alike_expr(e, renaming::renamed_expr(e, m), m),
    decreases e,
{
    match e {
        ExprV::Call { args, .. } => lemma_args(args, m),
        ExprV::Unary { expr, .. } => lemma_expr(*expr, m),
        ExprV::Binary { lhs, rhs, .. } => {
            lemma_expr(*lhs, m);
            lemma_expr(*rhs, m);
        },
        _ => {},
    }
}

proof fn lemma_args(s: Seq<ArgV>, m: Map<Seq<char>, Seq<char>>)
    ensures
        alike_args(s, renaming::renamed_args(s, m), m),
    decreases s,
{
    let r = renaming::renamed_args(s, m);
    assert forall|i: int| 0 <= i < s.len() implies alike_arg(#[trigger] s[i], r[i], m) by {
        lemma_expr(s[i].value, m);
        assert(r[i] == renaming::renamed_arg(s[i], m));
    }
}

proof fn lemma_stmt(s: StmtV, m: Map<Seq<char>, Seq<char>>)
    ensures
        alike_stmt(s, renaming::renamed_stmt(s, m), m),
    decreases s,
{
    match s {
        StmtV::Assign { rhs, .. } => lemma_expr(rhs, m),
        StmtV::Return { action: Some(a), .. } => {
            let r = renaming::renamed_exprs(a.args, m);
            assert forall|i: int| 0 <= i < a.args.len() implies alike_expr(#[trigger] a.args[i],
                r[i],
                m,
            ) by {
                lemma_expr(a.args[i], m);
            }
        },
        StmtV::Synthetic { value, .. } => lemma_expr(value, m),
        StmtV::If { arms, else_body, .. } => {
            let r = renaming::renamed_arms(arms, m);
            assert forall|i: int| 0 <= i < arms.len() implies alike_arm(#[trigger] arms[i],
                r[i],
                m,
            ) by {
                lemma_expr(arms[i].cond, m);
                lemma_stmts(arms[i].body, m);
                assert(r[i] == renaming::renamed_arm(arms[i], m));
            }
            match else_body {
                Some(b) => lemma_stmts(b, m),
                None => {},
            }
        },
        StmtV::New { args, .. } => lemma_args(args, m),
        StmtV::Expr { expr, .. } => lemma_expr(expr, m),
        _ => {},
    }
}

proof fn lemma_stmts(s: Seq<StmtV>, m: Map<Seq<char>, Seq<char>>)
    ensures
        alike_stmts(s, renaming::renamed_stmts(s, m), m),
    decreases s,
{
    let r = renaming::renamed_stmts(s, m);
    assert forall|i: int| 0 <= i < s.len() implies alike_stmt(#[trigger] s[i], r[i], m) by {
        lemma_stmt(s[i], m);
        assert(r[i] == renaming::renamed_stmt(s[i], m));
    }
}

/// Renaming leaves a declaration as it is but for names: every operator, every literal
/// and every statement stays in its place, and each name becomes what it is called now.
pub proof fn law_renaming_changes_names_only(d: DeclV, m: Map<Seq<char>, Seq<char>>)
    ensures
        alike_decl(d, renaming::renamed_decl(d, m), m),
{
    match d {
        DeclV::Sub { body, .. } => lemma_stmts(body, m),
        _ => {},
    }
}

/// The names by which a finished program calls what it declares.
pub open spec fn new_names(p: ProgramV, rename: bool) -> Map<Seq<char>, Seq<char>> {
    let ds = merge::merged_program(p).decls;
    if rename {
        rename::renaming_of(rename::decl_table(ds, ds.len()), rename::all_names(ds))
    } else {
        rename::anonymous_names(ds, ds.len())
    }
}

/// A finished program holds the declarations of the joined program, each once and as
/// it is but for names, in another order.
pub proof fn law_finished_programs_hold_the_declarations(p: ProgramV, rename: bool)
    ensures
        exists|ds: Seq<DeclV>| #[trigger]
            ds.to_multiset() == normalize::finished(p, rename).decls.to_multiset() && ds.len()
                == merge::merged_program(p).decls.len() && forall|i: int|
                0 <= i < ds.len() ==> alike_decl(
                    #[trigger] merge::merged_program(p).decls[i],
                    ds[i],
                    new_names(p, rename),
                ),
{
    let all = merge::merged_program(p).decls;
    let m = new_names(p, rename);
    let ds = renaming::renamed_decls(all, m);
    sort::law_decls_are_kept(ds);
    assert forall|i: int| 0 <= i < ds.len() implies alike_decl(#[trigger] all[i], ds[i], m) by {
        law_renaming_changes_names_only(all[i], m);
    }
    assert(ds.to_multiset() == normalize::finished(p, rename).decls.to_multiset());
}

} // verus!
