//! Copies of the tree.

use crate::ast;
use crate::ast::{
    AclEntry, Arg, Decl, Expr, Field, FieldValue, Lvalue, ReturnAction, Stmt,
};
use crate::text;
use vstd::prelude::*;
use vstd::string::*;

verus! {

broadcast use ast::group_views;

impl Clone for Expr {
    fn clone(&self) -> (r: Self)
        ensures
            r@ == self@,
        decreases *self,
    {
        match self {
            Expr::Str(s) => Expr::Str(s.clone()),
            Expr::Num(s) => Expr::Num(s.clone()),
            Expr::Duration(d) => Expr::Duration(d.clone()),
            Expr::Bytes(n) => Expr::Bytes(*n),
            Expr::Bool(b) => Expr::Bool(*b),
            Expr::Omitted => Expr::Omitted,
            Expr::CSource(s) => Expr::CSource(s.clone()),
            Expr::Var(parts) => Expr::Var(text::clone_texts(parts)),
            Expr::Call { target, args } => Expr::Call {
                target: text::clone_texts(target),
                args: clone_args(args),
            },
            Expr::Unary { op, expr } => Expr::Unary { op: *op, expr: Box::new((**expr).clone()) },
            Expr::Binary { op, lhs, rhs } => Expr::Binary {
                op: *op,
                lhs: Box::new((**lhs).clone()),
                rhs: Box::new((**rhs).clone()),
            },
        }
    }
}

impl Clone for Arg {
    fn clone(&self) -> (r: Self)
        ensures
            r@ == self@,
        decreases *self,
    {
        Arg {
            name: text::clone_opt_text(&self.name),
            value: self.value.clone(),
            span: self.span,
        }
    }
}

/// A copy of a list of arguments.
pub fn clone_args(list: &Vec<Arg>) -> (r: Vec<Arg>)
    ensures
        ast::args_view(r@) == ast::args_view(list@),
    decreases *list,
{
    let ghost want = ast::args_view(list@);
    let mut r: Vec<Arg> = Vec::new();
    let mut i: usize = 0;
    assert(ast::args_view(r@) =~= want.take(0));
    while i < list.len()
        invariant
            i <= list@.len(),
            want == ast::args_view(list@),
            decreases_to!(list => list@),
            ast::args_view(r@) == want.take(i as int),
        decreases list@.len() - i,
    {
        let x = list[i].clone();
        assert(want.take(i + 1) =~= want.take(i as int).push(x@));
        r.push(x);
        i += 1;
    }
    assert(want.take(want.len() as int) =~= want);
    r
}

/// A copy of a list of expressions.
pub fn clone_exprs(list: &Vec<Expr>) -> (r: Vec<Expr>)
    ensures
        ast::exprs_view(r@) == ast::exprs_view(list@),
{
    let ghost want = ast::exprs_view(list@);
    let mut r: Vec<Expr> = Vec::new();
    let mut i: usize = 0;
    assert(ast::exprs_view(r@) =~= want.take(0));
    while i < list.len()
        invariant
            i <= list@.len(),
            want == ast::exprs_view(list@),
            ast::exprs_view(r@) == want.take(i as int),
        decreases list@.len() - i,
    {
        let x = list[i].clone();
        assert(want.take(i + 1) =~= want.take(i as int).push(x@));
        r.push(x);
        i += 1;
    }
    assert(want.take(want.len() as int) =~= want);
    r
}

impl Clone for Lvalue {
    fn clone(&self) -> (r: Self)
        ensures
            r@ == self@,
    {
        Lvalue { parts: text::clone_texts(&self.parts) }
    }
}

impl Clone for ReturnAction {
    fn clone(&self) -> (r: Self)
        ensures
            r@ == self@,
    {
        ReturnAction { name: self.name.clone(), args: clone_exprs(&self.args) }
    }
}

/// A copy of what a `return` asks for.
pub fn clone_action(a: &Option<ReturnAction>) -> (r: Option<ReturnAction>)
    ensures
        ast::opt_action_view(r) == ast::opt_action_view(*a),
{
    match a {
        Some(x) => Some(x.clone()),
        None => None,
    }
}

impl Clone for Stmt {
    fn clone(&self) -> (r: Self)
        ensures
            r@ == self@,
        decreases *self,
    {
        match self {
            Stmt::Assign { lhs, rhs, span } => Stmt::Assign {
                lhs: lhs.clone(),
                rhs: rhs.clone(),
                span: *span,
            },
            Stmt::Unset { lhs, span } => Stmt::Unset { lhs: lhs.clone(), span: *span },
            Stmt::Call { sub, span } => Stmt::Call { sub: sub.clone(), span: *span },
            Stmt::Return { action, span } => Stmt::Return {
                action: clone_action(action),
                span: *span,
            },
            Stmt::Synthetic { value, span } => Stmt::Synthetic { value: value.clone(), span: *span },
            Stmt::If { arms, else_body, span } => Stmt::If {
                arms: clone_arms(arms),
                else_body: match else_body {
                    Some(b) => Some(clone_stmts(b)),
                    None => None,
                },
                span: *span,
            },
            Stmt::New { name, vmod, ctor, args, span } => Stmt::New {
                name: name.clone(),
                vmod: vmod.clone(),
                ctor: ctor.clone(),
                args: clone_args(args),
                span: *span,
            },
            Stmt::Expr { expr, span } => Stmt::Expr { expr: expr.clone(), span: *span },
        }
    }
}

/// A copy of a list of statements.
pub fn clone_stmts(list: &Vec<Stmt>) -> (r: Vec<Stmt>)
    ensures
        ast::stmts_view(r@) == ast::stmts_view(list@),
    decreases *list,
{
    let ghost want = ast::stmts_view(list@);
    let mut r: Vec<Stmt> = Vec::new();
    let mut i: usize = 0;
    assert(ast::stmts_view(r@) =~= want.take(0));
    while i < list.len()
        invariant
            i <= list@.len(),
            want == ast::stmts_view(list@),
            decreases_to!(list => list@),
            ast::stmts_view(r@) == want.take(i as int),
        decreases list@.len() - i,
    {
        let x = list[i].clone();
        assert(want.take(i + 1) =~= want.take(i as int).push(x@));
        r.push(x);
        i += 1;
    }
    assert(want.take(want.len() as int) =~= want);
    r
}

/// A copy of a list of arms.
pub fn clone_arms(list: &Vec<(Expr, Vec<Stmt>)>) -> (r: Vec<(Expr, Vec<Stmt>)>)
    ensures
        ast::arms_view(r@) == ast::arms_view(list@),
    decreases *list,
{
    let ghost want = ast::arms_view(list@);
    let mut r: Vec<(Expr, Vec<Stmt>)> = Vec::new();
    let mut i: usize = 0;
    assert(ast::arms_view(r@) =~= want.take(0));
    while i < list.len()
        invariant
            i <= list@.len(),
            want == ast::arms_view(list@),
            decreases_to!(list => list@),
            ast::arms_view(r@) == want.take(i as int),
        decreases list@.len() - i,
    {
        let x = (list[i].0.clone(), clone_stmts(&list[i].1));
        assert(want.take(i + 1) =~= want.take(i as int).push(ast::arm_view(x)));
        r.push(x);
        i += 1;
    }
    assert(want.take(want.len() as int) =~= want);
    r
}

impl Clone for FieldValue {
    fn clone(&self) -> (r: Self)
        ensures
            r@ == self@,
        decreases *self,
    {
        match self {
            FieldValue::Expr(e) => FieldValue::Expr(e.clone()),
            FieldValue::Probe(fs) => FieldValue::Probe(clone_fields(fs)),
            FieldValue::ProbeRef(n) => FieldValue::ProbeRef(n.clone()),
            FieldValue::StringList(l) => FieldValue::StringList(text::clone_texts(l)),
        }
    }
}

impl Clone for Field {
    fn clone(&self) -> (r: Self)
        ensures
            r@ == self@,
        decreases *self,
    {
        Field { name: self.name.clone(), value: self.value.clone(), span: self.span }
    }
}

/// A copy of a list of fields.
pub fn clone_fields(list: &Vec<Field>) -> (r: Vec<Field>)
    ensures
        ast::fields_view(r@) == ast::fields_view(list@),
    decreases *list,
{
    let ghost want = ast::fields_view(list@);
    let mut r: Vec<Field> = Vec::new();
    let mut i: usize = 0;
    assert(ast::fields_view(r@) =~= want.take(0));
    while i < list.len()
        invariant
            i <= list@.len(),
            want == ast::fields_view(list@),
            decreases_to!(list => list@),
            ast::fields_view(r@) == want.take(i as int),
        decreases list@.len() - i,
    {
        let x = list[i].clone();
        assert(want.take(i + 1) =~= want.take(i as int).push(x@));
        r.push(x);
        i += 1;
    }
    assert(want.take(want.len() as int) =~= want);
    r
}

impl Clone for AclEntry {
    fn clone(&self) -> (r: Self)
        ensures
            r@ == self@,
    {
        AclEntry {
            negated: self.negated,
            addr: self.addr.clone(),
            mask: self.mask,
            span: self.span,
        }
    }
}

/// A copy of a list of ACL entries.
pub fn clone_acl_entries(list: &Vec<AclEntry>) -> (r: Vec<AclEntry>)
    ensures
        ast::acl_entries_view(r@) == ast::acl_entries_view(list@),
{
    let ghost want = ast::acl_entries_view(list@);
    let mut r: Vec<AclEntry> = Vec::new();
    let mut i: usize = 0;
    assert(ast::acl_entries_view(r@) =~= want.take(0));
    while i < list.len()
        invariant
            i <= list@.len(),
            want == ast::acl_entries_view(list@),
            ast::acl_entries_view(r@) == want.take(i as int),
        decreases list@.len() - i,
    {
        let x = list[i].clone();
        assert(want.take(i + 1) =~= want.take(i as int).push(x@));
        r.push(x);
        i += 1;
    }
    assert(want.take(want.len() as int) =~= want);
    r
}

impl Clone for Decl {
    fn clone(&self) -> (r: Self)
        ensures
            r@ == self@,
    {
        match self {
            Decl::Import { name, from, span } => Decl::Import {
                name: name.clone(),
                from: text::clone_opt_text(from),
                span: *span,
            },
            Decl::Backend { name, none, body, span } => Decl::Backend {
                name: name.clone(),
                none: *none,
                body: match body {
                    Some(fs) => Some(clone_fields(fs)),
                    None => None,
                },
                span: *span,
            },
            Decl::Probe { name, body, span } => Decl::Probe {
                name: name.clone(),
                body: clone_fields(body),
                span: *span,
            },
            Decl::Acl { name, entries, span } => Decl::Acl {
                name: name.clone(),
                entries: clone_acl_entries(entries),
                span: *span,
            },
            Decl::Sub { name, body, span } => Decl::Sub {
                name: name.clone(),
                body: clone_stmts(body),
                span: *span,
            },
        }
    }
}

/// A copy of a list of declarations.
pub fn clone_decls(list: &Vec<Decl>) -> (r: Vec<Decl>)
    ensures
        ast::decls_view(r@) == ast::decls_view(list@),
{
    let ghost want = ast::decls_view(list@);
    let mut r: Vec<Decl> = Vec::new();
    let mut i: usize = 0;
    assert(ast::decls_view(r@) =~= want.take(0));
    while i < list.len()
        invariant
            i <= list@.len(),
            want == ast::decls_view(list@),
            ast::decls_view(r@) == want.take(i as int),
        decreases list@.len() - i,
    {
        let x = list[i].clone();
        assert(want.take(i + 1) =~= want.take(i as int).push(x@));
        r.push(x);
        i += 1;
    }
    assert(want.take(want.len() as int) =~= want);
    r
}

} // verus!
