//! Short ways to build a tree by hand. Nothing built here has a place in a
//! source.

use crate::ast;
use crate::ast::{
    AclEntry, AclEntryV, Arg, ArgV, BinOp, CommentMap, CommentMapV, Decl, DeclV, Expr, ExprV, Field,
    FieldV, FieldValue, Lvalue, Program, ProgramV, ReturnAction, Span, Stmt, StmtV, UnOp,
};
use crate::decimal::Decimal;
use crate::text;
use vstd::prelude::*;
use vstd::string::*;

verus! {

/// The texts of a list of string slices.
pub open spec fn slices(s: Seq<&str>) -> Seq<Seq<char>> {
    Seq::new(s.len(), |i: int| s[i]@)
}

fn owned(parts: &[&str]) -> (r: Vec<String>)
    ensures
        text::texts(r@) == slices(parts@),
{
    let mut r: Vec<String> = Vec::new();
    let mut i: usize = 0;
    assert(text::texts(r@) =~= slices(parts@).take(0));
    while i < parts.len()
        invariant
            i <= parts@.len(),
            text::texts(r@) == slices(parts@).take(i as int),
        decreases parts@.len() - i,
    {
        let t = parts[i].to_string();
        proof {
            text::lemma_texts_push(r@, t);
            assert(slices(parts@).take(i + 1) =~= slices(parts@).take(i as int).push(t@));
        }
        r.push(t);
        i += 1;
    }
    assert(slices(parts@).take(slices(parts@).len() as int) =~= slices(parts@));
    r
}

/// The place of everything built here.
pub fn sp() -> (r: Span)
    ensures
        r == ast::dummy_span(),
{
    Span::dummy()
}

/// A program of these declarations, without comments.
pub fn program(decls: Vec<Decl>) -> (r: Program)
    ensures
        r@ == (ProgramV {
            vcl_version: ast::dummy_span(),
            decls: ast::decls_view(decls@),
            comments: CommentMapV::empty(),
            trailing_comments: seq![],
        }),
{
    let r = Program {
        vcl_version: sp(),
        decls,
        comments: CommentMap::default(),
        trailing_comments: Vec::new(),
    };
    assert(r@.trailing_comments =~= seq![]);
    r
}

/// An import.
pub fn import(name: &str) -> (r: Decl)
    ensures
        r@ == (DeclV::Import { name: name@, from: None, span: ast::dummy_span() }),
{
    Decl::Import { name: name.to_string(), from: None, span: sp() }
}

/// A backend with these fields.
pub fn backend(name: &str, fields: Vec<Field>) -> (r: Decl)
    ensures
        r@ == (DeclV::Backend {
            name: name@,
            none: false,
            body: Some(ast::fields_view(fields@)),
            span: ast::dummy_span(),
        }),
{
    Decl::Backend { name: name.to_string(), none: false, body: Some(fields), span: sp() }
}

/// A backend without a body.
pub fn backend_none(name: &str) -> (r: Decl)
    ensures
        r@ == (DeclV::Backend { name: name@, none: true, body: None, span: ast::dummy_span() }),
{
    Decl::Backend { name: name.to_string(), none: true, body: None, span: sp() }
}

/// A probe.
pub fn probe(name: &str, fields: Vec<Field>) -> (r: Decl)
    ensures
        r@ == (DeclV::Probe {
            name: name@,
            body: ast::fields_view(fields@),
            span: ast::dummy_span(),
        }),
{
    Decl::Probe { name: name.to_string(), body: fields, span: sp() }
}

/// An ACL.
pub fn acl(name: &str, entries: Vec<AclEntry>) -> (r: Decl)
    ensures
        r@ == (DeclV::Acl {
            name: name@,
            entries: ast::acl_entries_view(entries@),
            span: ast::dummy_span(),
        }),
{
    Decl::Acl { name: name.to_string(), entries, span: sp() }
}

/// An entry of an ACL.
pub fn acl_entry(addr: &str, mask: Option<u8>, negated: bool) -> (r: AclEntry)
    ensures
        r@ == (AclEntryV { negated, addr: addr@, mask, span: ast::dummy_span() }),
{
    AclEntry { negated, addr: addr.to_string(), mask, span: sp() }
}

/// A subroutine.
pub fn sub(name: &str, body: Vec<Stmt>) -> (r: Decl)
    ensures
        r@ == (DeclV::Sub { name: name@, body: ast::stmts_view(body@), span: ast::dummy_span() }),
{
    Decl::Sub { name: name.to_string(), body, span: sp() }
}

/// A field.
pub fn field(name: &str, value: FieldValue) -> (r: Field)
    ensures
        r@ == (FieldV { name: name@, value: value@, span: ast::dummy_span() }),
{
    Field { name: name.to_string(), value, span: sp() }
}

/// A field that holds an expression.
pub fn fexpr(name: &str, e: Expr) -> (r: Field)
    ensures
        r@ == (FieldV { name: name@, value: ast::FieldValueV::Expr(e@), span: ast::dummy_span() }),
{
    field(name, FieldValue::Expr(e))
}

/// A `set` statement.
pub fn assign(parts: &[&str], rhs: Expr) -> (r: Stmt)
    ensures
        r@ == (StmtV::Assign { lhs: slices(parts@), rhs: rhs@, span: ast::dummy_span() }),
{
    Stmt::Assign { lhs: lval(parts), rhs, span: sp() }
}

/// An `unset` statement.
pub fn unset(parts: &[&str]) -> (r: Stmt)
    ensures
        r@ == (StmtV::Unset { lhs: slices(parts@), span: ast::dummy_span() }),
{
    Stmt::Unset { lhs: lval(parts), span: sp() }
}

/// A `call` statement.
pub fn call(sub: &str) -> (r: Stmt)
    ensures
        r@ == (StmtV::Call { sub: sub@, span: ast::dummy_span() }),
{
    Stmt::Call { sub: sub.to_string(), span: sp() }
}

/// A `return` statement.
pub fn ret(action: Option<ReturnAction>) -> (r: Stmt)
    ensures
        r@ == (StmtV::Return { action: ast::opt_action_view(action), span: ast::dummy_span() }),
{
    Stmt::Return { action, span: sp() }
}

/// A `return` statement with an action.
pub fn ret_action(name: &str, args: Vec<Expr>) -> (r: Stmt)
    ensures
        r@ == (StmtV::Return {
            action: Some(ast::ReturnActionV { name: name@, args: ast::exprs_view(args@) }),
            span: ast::dummy_span(),
        }),
{
    ret(Some(ReturnAction { name: name.to_string(), args }))
}

/// A `synthetic` statement.
pub fn synthetic(value: Expr) -> (r: Stmt)
    ensures
        r@ == (StmtV::Synthetic { value: value@, span: ast::dummy_span() }),
{
    Stmt::Synthetic { value, span: sp() }
}

/// An `if` statement.
pub fn if_(arms: Vec<(Expr, Vec<Stmt>)>, else_body: Option<Vec<Stmt>>) -> (r: Stmt)
    ensures
        r@ == (StmtV::If {
            arms: ast::arms_view(arms@),
            else_body: match else_body {
                Some(b) => Some(ast::stmts_view(b@)),
                None => None,
            },
            span: ast::dummy_span(),
        }),
{
    Stmt::If { arms, else_body, span: sp() }
}

/// A `new` statement.
pub fn new_(name: &str, vmod: &str, ctor: &str, args: Vec<Arg>) -> (r: Stmt)
    ensures
        r@ == (StmtV::New {
            name: name@,
            vmod: vmod@,
            ctor: ctor@,
            args: ast::args_view(args@),
            span: ast::dummy_span(),
        }),
{
    Stmt::New {
        name: name.to_string(),
        vmod: vmod.to_string(),
        ctor: ctor.to_string(),
        args,
        span: sp(),
    }
}

/// A bare call.
pub fn expr_stmt(expr: Expr) -> (r: Stmt)
    ensures
        r@ == (StmtV::Expr { expr: expr@, span: ast::dummy_span() }),
{
    Stmt::Expr { expr, span: sp() }
}

/// The target of a `set` or `unset`.
pub fn lval(parts: &[&str]) -> (r: Lvalue)
    ensures
        r@ == (slices(parts@)),
{
    Lvalue { parts: owned(parts) }
}

/// A string.
pub fn str_(s: &str) -> (r: Expr)
    ensures
        r@ == (ExprV::Str(s@)),
{
    Expr::Str(s.to_string())
}

/// A number as it is written.
pub fn num(s: &str) -> (r: Expr)
    ensures
        r@ == (ExprV::Num(s@)),
{
    Expr::Num(s.to_string())
}

/// Seconds.
pub fn dur(secs: Decimal) -> (r: Expr)
    ensures
        r@ == (ExprV::Duration(secs@)),
{
    Expr::Duration(secs)
}

/// Bytes.
pub fn bytes(n: u64) -> (r: Expr)
    ensures
        r@ == (ExprV::Bytes(n)),
{
    Expr::Bytes(n)
}

/// A truth value.
pub fn bool_(b: bool) -> (r: Expr)
    ensures
        r@ == (ExprV::Bool(b)),
{
    Expr::Bool(b)
}

/// A variable.
pub fn var(parts: &[&str]) -> (r: Expr)
    ensures
        r@ == (ExprV::Var(slices(parts@))),
{
    Expr::Var(owned(parts))
}

/// A call.
pub fn fcall(target: &[&str], args: Vec<Arg>) -> (r: Expr)
    ensures
        r@ == (ExprV::Call { target: slices(target@), args: ast::args_view(args@) }),
{
    Expr::Call { target: owned(target), args }
}

/// An argument by its position.
pub fn arg(value: Expr) -> (r: Arg)
    ensures
        r@ == (ArgV { name: None, value: value@, span: ast::dummy_span() }),
{
    Arg { name: None, value, span: sp() }
}

/// An argument by its name.
pub fn narg(name: &str, value: Expr) -> (r: Arg)
    ensures
        r@ == (ArgV { name: Some(name@), value: value@, span: ast::dummy_span() }),
{
    Arg { name: Some(name.to_string()), value, span: sp() }
}

/// A unary operation.
pub fn un(op: UnOp, e: Expr) -> (r: Expr)
    ensures
        r@ == (ExprV::Unary { op, expr: Box::new(e@) }),
{
    Expr::Unary { op, expr: Box::new(e) }
}

/// A binary operation.
pub fn bin(op: BinOp, l: Expr, r0: Expr) -> (r: Expr)
    ensures
        r@ == (ExprV::Binary { op, lhs: Box::new(l@), rhs: Box::new(r0@) }),
{
    Expr::Binary { op, lhs: Box::new(l), rhs: Box::new(r0) }
}

} // verus!
