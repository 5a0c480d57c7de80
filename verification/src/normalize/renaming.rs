//! New names throughout a tree.

use crate::ast;
use crate::ast::{
    Arg, ArgV, ArmV, Decl, DeclV, Expr, ExprV, Field, FieldV, FieldValue, FieldValueV,
    ReturnAction, ReturnActionV, Stmt, StmtV,
};
use crate::table::Table;
use crate::text;
use vstd::prelude::*;
use vstd::string::*;

verus! {

broadcast use ast::group_views;

/// The new name of each name that gets one.
pub type RenamingV = Map<Seq<char>, Seq<char>>;

/// The name that stands for `n`: its new name, or `n` itself.
pub open spec fn new_name(m: RenamingV, n: Seq<char>) -> Seq<char> {
    if m.contains_key(n) {
        m[n]
    } else {
        n
    }
}

/// A dotted name with its first part renamed.
pub open spec fn renamed_parts(parts: Seq<Seq<char>>, m: RenamingV) -> Seq<Seq<char>> {
    if parts.len() == 0 {
        parts
    } else {
        parts.update(0, new_name(m, parts[0]))
    }
}

/// An expression with its names renamed.
pub open spec fn renamed_expr(e: ExprV, m: RenamingV) -> ExprV
    decreases e,
{
    match e {
        ExprV::Var(parts) => ExprV::Var(renamed_parts(parts, m)),
        ExprV::Call { target, args } => ExprV::Call {
            target: renamed_parts(target, m),
            args: renamed_args(args, m),
        },
        ExprV::Unary { op, expr } => ExprV::Unary { op, expr: Box::new(renamed_expr(*expr, m)) },
        ExprV::Binary { op, lhs, rhs } => ExprV::Binary {
            op,
            lhs: Box::new(renamed_expr(*lhs, m)),
            rhs: Box::new(renamed_expr(*rhs, m)),
        },
        e => e,
    }
}

pub open spec fn renamed_arg(a: ArgV, m: RenamingV) -> ArgV
    decreases a,
{
    ArgV { name: a.name, value: renamed_expr(a.value, m), span: a.span }
}

/// Arguments with their names renamed. What an argument is called stays.
pub open spec fn renamed_args(s: Seq<ArgV>, m: RenamingV) -> Seq<ArgV>
    decreases s,
{
    Seq::new(
        s.len(),
        |i: int|
            if 0 <= i < s.len() {
                renamed_arg(s[i], m)
            } else {
                arbitrary()
            },
    )
}

/// Expressions with their names renamed.
pub open spec fn renamed_exprs(s: Seq<ExprV>, m: RenamingV) -> Seq<ExprV> {
    Seq::new(s.len(), |i: int| renamed_expr(s[i], m))
}

/// What a `return` asks for, with its names renamed.
pub open spec fn renamed_action(a: Option<ReturnActionV>, m: RenamingV) -> Option<ReturnActionV> {
    match a {
        Some(x) => Some(ReturnActionV { name: x.name, args: renamed_exprs(x.args, m) }),
        None => None,
    }
}

/// A statement with its names renamed. What is assigned to keeps its name.
pub open spec fn renamed_stmt(s: StmtV, m: RenamingV) -> StmtV
    decreases s,
{
    match s {
        StmtV::Assign { lhs, rhs, span } => StmtV::Assign { lhs, rhs: renamed_expr(rhs, m), span },
        StmtV::Unset { lhs, span } => StmtV::Unset { lhs, span },
        StmtV::Call { sub, span } => StmtV::Call { sub: new_name(m, sub), span },
        StmtV::Return { action, span } => StmtV::Return { action: renamed_action(action, m), span },
        StmtV::Synthetic { value, span } => StmtV::Synthetic {
            value: renamed_expr(value, m),
            span,
        },
        StmtV::If { arms, else_body, span } => StmtV::If {
            arms: renamed_arms(arms, m),
            else_body: match else_body {
                Some(b) => Some(renamed_stmts(b, m)),
                None => None,
            },
            span,
        },
        StmtV::New { name, vmod, ctor, args, span } => StmtV::New {
            name: new_name(m, name),
            vmod,
            ctor,
            args: renamed_args(args, m),
            span,
        },
        StmtV::Expr { expr, span } => StmtV::Expr { expr: renamed_expr(expr, m), span },
    }
}

/// Statements with their names renamed.
pub open spec fn renamed_stmts(s: Seq<StmtV>, m: RenamingV) -> Seq<StmtV>
    decreases s,
{
    Seq::new(
        s.len(),
        |i: int|
            if 0 <= i < s.len() {
                renamed_stmt(s[i], m)
            } else {
                arbitrary()
            },
    )
}

pub open spec fn renamed_arm(a: ArmV, m: RenamingV) -> ArmV
    decreases a,
{
    ArmV { cond: renamed_expr(a.cond, m), body: renamed_stmts(a.body, m) }
}

/// Arms with their names renamed.
pub open spec fn renamed_arms(s: Seq<ArmV>, m: RenamingV) -> Seq<ArmV>
    decreases s,
{
    Seq::new(
        s.len(),
        |i: int|
            if 0 <= i < s.len() {
                renamed_arm(s[i], m)
            } else {
                arbitrary()
            },
    )
}

/// A field of a backend: the name of the probe that it refers to is renamed.
pub open spec fn renamed_field(f: FieldV, m: RenamingV) -> FieldV {
    match f.value {
        FieldValueV::ProbeRef(p) => FieldV { value: FieldValueV::ProbeRef(new_name(m, p)), ..f },
        _ => f,
    }
}

/// The fields of a backend, with the names of its probes renamed.
pub open spec fn renamed_fields(s: Seq<FieldV>, m: RenamingV) -> Seq<FieldV> {
    Seq::new(s.len(), |i: int| renamed_field(s[i], m))
}

/// A declaration with its own name and those in it renamed. An import stays.
pub open spec fn renamed_decl(d: DeclV, m: RenamingV) -> DeclV {
    match d {
        DeclV::Import { name, from, span } => DeclV::Import { name, from, span },
        DeclV::Backend { name, none, body, span } => DeclV::Backend {
            name: new_name(m, name),
            none,
            body: match body {
                Some(fs) => Some(renamed_fields(fs, m)),
                None => None,
            },
            span,
        },
        DeclV::Probe { name, body, span } => DeclV::Probe { name: new_name(m, name), body, span },
        DeclV::Acl { name, entries, span } => DeclV::Acl { name: new_name(m, name), entries, span },
        DeclV::Sub { name, body, span } => DeclV::Sub {
            name: new_name(m, name),
            body: renamed_stmts(body, m),
            span,
        },
    }
}

/// Declarations with their names renamed.
pub open spec fn renamed_decls(s: Seq<DeclV>, m: RenamingV) -> Seq<DeclV> {
    Seq::new(s.len(), |i: int| renamed_decl(s[i], m))
}

// ───────────────────────── the code ─────────────────────────

/// The renaming that a table holds.
pub open spec fn names_of(t: Map<Seq<char>, String>) -> RenamingV {
    Map::new(|n: Seq<char>| t.contains_key(n), |n: Seq<char>| t[n]@)
}

fn rename(n: &str, t: &Table<String>) -> (r: String)
    ensures
        r@ == new_name(names_of(t@), n@),
{
    match t.get(n) {
        Some(new) => new.clone(),
        None => n.to_string(),
    }
}

fn rename_parts(parts: &Vec<String>, t: &Table<String>) -> (r: Vec<String>)
    ensures
        text::texts(r@) == renamed_parts(text::texts(parts@), names_of(t@)),
{
    let mut r = text::clone_texts(parts);
    if parts.len() > 0 {
        assert(text::texts(parts@)[0] == parts@[0]@);
        assert(text::texts(r@).len() == parts@.len());
        let ghost before = text::texts(r@);
        let first = rename(parts[0].as_str(), t);
        r.set(0, first);
        assert(text::texts(r@) =~= before.update(0, first@));
    }
    r
}

fn rename_expr(e: &Expr, t: &Table<String>) -> (r: Expr)
    ensures
        r@ == renamed_expr(e@, names_of(t@)),
    decreases *e,
{
    match e {
        Expr::Var(parts) => Expr::Var(rename_parts(parts, t)),
        Expr::Call { target, args } => Expr::Call {
            target: rename_parts(target, t),
            args: rename_args(args, t),
        },
        Expr::Unary { op, expr } => Expr::Unary { op: *op, expr: Box::new(rename_expr(expr, t)) },
        Expr::Binary { op, lhs, rhs } => Expr::Binary {
            op: *op,
            lhs: Box::new(rename_expr(lhs, t)),
            rhs: Box::new(rename_expr(rhs, t)),
        },
        other => other.clone(),
    }
}

fn rename_arg(a: &Arg, t: &Table<String>) -> (r: Arg)
    ensures
        r@ == renamed_arg(a@, names_of(t@)),
    decreases *a,
{
    Arg {
        name: text::clone_opt_text(&a.name),
        value: rename_expr(&a.value, t),
        span: a.span,
    }
}

fn rename_args(list: &Vec<Arg>, t: &Table<String>) -> (r: Vec<Arg>)
    ensures
        ast::args_view(r@) == renamed_args(ast::args_view(list@), names_of(t@)),
    decreases *list,
{
    let ghost want = renamed_args(ast::args_view(list@), names_of(t@));
    let mut r: Vec<Arg> = Vec::new();
    let mut i: usize = 0;
    assert(ast::args_view(r@) =~= want.take(0));
    while i < list.len()
        invariant
            i <= list@.len(),
            want == renamed_args(ast::args_view(list@), names_of(t@)),
            decreases_to!(list => list@),
            ast::args_view(r@) == want.take(i as int),
        decreases list@.len() - i,
    {
        let x = rename_arg(&list[i], t);
        assert(want.take(i + 1) =~= want.take(i as int).push(want[i as int]));
        r.push(x);
        i += 1;
    }
    assert(want.take(want.len() as int) =~= want);
    r
}

fn rename_exprs(list: &Vec<Expr>, t: &Table<String>) -> (r: Vec<Expr>)
    ensures
        ast::exprs_view(r@) == renamed_exprs(ast::exprs_view(list@), names_of(t@)),
{
    let ghost want = renamed_exprs(ast::exprs_view(list@), names_of(t@));
    let mut r: Vec<Expr> = Vec::new();
    let mut i: usize = 0;
    assert(ast::exprs_view(r@) =~= want.take(0));
    while i < list.len()
        invariant
            i <= list@.len(),
            want == renamed_exprs(ast::exprs_view(list@), names_of(t@)),
            ast::exprs_view(r@) == want.take(i as int),
        decreases list@.len() - i,
    {
        let x = rename_expr(&list[i], t);
        assert(want.take(i + 1) =~= want.take(i as int).push(want[i as int]));
        r.push(x);
        i += 1;
    }
    assert(want.take(want.len() as int) =~= want);
    r
}

fn rename_action(a: &Option<ReturnAction>, t: &Table<String>) -> (r: Option<ReturnAction>)
    ensures
        ast::opt_action_view(r) == renamed_action(ast::opt_action_view(*a), names_of(t@)),
{
    match a {
        Some(x) => Some(ReturnAction { name: x.name.clone(), args: rename_exprs(&x.args, t) }),
        None => None,
    }
}

fn rename_stmt(s: &Stmt, t: &Table<String>) -> (r: Stmt)
    ensures
        r@ == renamed_stmt(s@, names_of(t@)),
    decreases *s,
{
    match s {
        Stmt::Assign { lhs, rhs, span } => Stmt::Assign {
            lhs: lhs.clone(),
            rhs: rename_expr(rhs, t),
            span: *span,
        },
        Stmt::Unset { lhs, span } => Stmt::Unset { lhs: lhs.clone(), span: *span },
        Stmt::Call { sub, span } => Stmt::Call { sub: rename(sub.as_str(), t), span: *span },
        Stmt::Return { action, span } => Stmt::Return {
            action: rename_action(action, t),
            span: *span,
        },
        Stmt::Synthetic { value, span } => Stmt::Synthetic {
            value: rename_expr(value, t),
            span: *span,
        },
        Stmt::If { arms, else_body, span } => Stmt::If {
            arms: rename_arms(arms, t),
            else_body: match else_body {
                Some(b) => Some(rename_stmts(b, t)),
                None => None,
            },
            span: *span,
        },
        Stmt::New { name, vmod, ctor, args, span } => Stmt::New {
            name: rename(name.as_str(), t),
            vmod: vmod.clone(),
            ctor: ctor.clone(),
            args: rename_args(args, t),
            span: *span,
        },
        Stmt::Expr { expr, span } => Stmt::Expr { expr: rename_expr(expr, t), span: *span },
    }
}

fn rename_stmts(list: &Vec<Stmt>, t: &Table<String>) -> (r: Vec<Stmt>)
    ensures
        ast::stmts_view(r@) == renamed_stmts(ast::stmts_view(list@), names_of(t@)),
    decreases *list,
{
    let ghost want = renamed_stmts(ast::stmts_view(list@), names_of(t@));
    let mut r: Vec<Stmt> = Vec::new();
    let mut i: usize = 0;
    assert(ast::stmts_view(r@) =~= want.take(0));
    while i < list.len()
        invariant
            i <= list@.len(),
            want == renamed_stmts(ast::stmts_view(list@), names_of(t@)),
            decreases_to!(list => list@),
            ast::stmts_view(r@) == want.take(i as int),
        decreases list@.len() - i,
    {
        let x = rename_stmt(&list[i], t);
        assert(want.take(i + 1) =~= want.take(i as int).push(want[i as int]));
        r.push(x);
        i += 1;
    }
    assert(want.take(want.len() as int) =~= want);
    r
}

fn rename_arms(list: &Vec<(Expr, Vec<Stmt>)>, t: &Table<String>) -> (r: Vec<(Expr, Vec<Stmt>)>)
    ensures
        ast::arms_view(r@) == renamed_arms(ast::arms_view(list@), names_of(t@)),
    decreases *list,
{
    let ghost want = renamed_arms(ast::arms_view(list@), names_of(t@));
    let mut r: Vec<(Expr, Vec<Stmt>)> = Vec::new();
    let mut i: usize = 0;
    assert(ast::arms_view(r@) =~= want.take(0));
    while i < list.len()
        invariant
            i <= list@.len(),
            want == renamed_arms(ast::arms_view(list@), names_of(t@)),
            decreases_to!(list => list@),
            ast::arms_view(r@) == want.take(i as int),
        decreases list@.len() - i,
    {
        let x = (rename_expr(&list[i].0, t), rename_stmts(&list[i].1, t));
        assert(want.take(i + 1) =~= want.take(i as int).push(want[i as int]));
        r.push(x);
        i += 1;
    }
    assert(want.take(want.len() as int) =~= want);
    r
}

fn rename_field(f: &Field, t: &Table<String>) -> (r: Field)
    ensures
        r@ == renamed_field(f@, names_of(t@)),
{
    match &f.value {
        FieldValue::ProbeRef(p) => Field {
            name: f.name.clone(),
            value: FieldValue::ProbeRef(rename(p.as_str(), t)),
            span: f.span,
        },
        _ => f.clone(),
    }
}

fn rename_fields(list: &Vec<Field>, t: &Table<String>) -> (r: Vec<Field>)
    ensures
        ast::fields_view(r@) == renamed_fields(ast::fields_view(list@), names_of(t@)),
{
    let ghost want = renamed_fields(ast::fields_view(list@), names_of(t@));
    let mut r: Vec<Field> = Vec::new();
    let mut i: usize = 0;
    assert(ast::fields_view(r@) =~= want.take(0));
    while i < list.len()
        invariant
            i <= list@.len(),
            want == renamed_fields(ast::fields_view(list@), names_of(t@)),
            ast::fields_view(r@) == want.take(i as int),
        decreases list@.len() - i,
    {
        let x = rename_field(&list[i], t);
        assert(want.take(i + 1) =~= want.take(i as int).push(want[i as int]));
        r.push(x);
        i += 1;
    }
    assert(want.take(want.len() as int) =~= want);
    r
}

/// A copy of a declaration with its names renamed.
pub fn rename_decl(d: &Decl, t: &Table<String>) -> (r: Decl)
    ensures
        r@ == renamed_decl(d@, names_of(t@)),
{
    match d {
        Decl::Import { .. } => d.clone(),
        Decl::Backend { name, none, body, span } => Decl::Backend {
            name: rename(name.as_str(), t),
            none: *none,
            body: match body {
                Some(fs) => Some(rename_fields(fs, t)),
                None => None,
            },
            span: *span,
        },
        Decl::Probe { name, body, span } => Decl::Probe {
            name: rename(name.as_str(), t),
            body: ast::clones::clone_fields(body),
            span: *span,
        },
        Decl::Acl { name, entries, span } => Decl::Acl {
            name: rename(name.as_str(), t),
            entries: ast::clones::clone_acl_entries(entries),
            span: *span,
        },
        Decl::Sub { name, body, span } => Decl::Sub {
            name: rename(name.as_str(), t),
            body: rename_stmts(body, t),
            span: *span,
        },
    }
}

/// A copy of a list of declarations with its names renamed.
pub fn rename_decls(list: &Vec<Decl>, t: &Table<String>) -> (r: Vec<Decl>)
    ensures
        ast::decls_view(r@) == renamed_decls(ast::decls_view(list@), names_of(t@)),
{
    let ghost want = renamed_decls(ast::decls_view(list@), names_of(t@));
    let mut r: Vec<Decl> = Vec::new();
    let mut i: usize = 0;
    assert(ast::decls_view(r@) =~= want.take(0));
    while i < list.len()
        invariant
            i <= list@.len(),
            want == renamed_decls(ast::decls_view(list@), names_of(t@)),
            ast::decls_view(r@) == want.take(i as int),
        decreases list@.len() - i,
    {
        let x = rename_decl(&list[i], t);
        assert(want.take(i + 1) =~= want.take(i as int).push(want[i as int]));
        r.push(x);
        i += 1;
    }
    assert(want.take(want.len() as int) =~= want);
    r
}

} // verus!
