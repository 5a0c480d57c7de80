//! Layout does not matter: neither white space nor comments nor the way a
//! program is split over files shows in its canonical form.
//!
//! A tree holds, beside what the program says, where each part of it stands and
//! which comments stand beside it. The bare tree is the tree without these.

use crate::ast;
use crate::ast::{
    AclEntryV, ArgV, ArmV, CommentMapV, DeclV, ExprV, FieldV, FieldValueV, ProgramV, ReturnActionV,
    StmtV,
};
use crate::canon;
use crate::printer;
use vstd::prelude::*;

pub mod arms;
pub mod checking;
pub mod dumps;
pub mod equivalence;
pub mod lexing;
pub mod moving;
pub mod naming;
pub mod parsing;
pub mod passes;
pub mod splicing;
pub mod telling;
pub mod whole;
pub mod written;

verus! {

/// An expression without its places.
pub open spec fn bare_expr(e: ExprV) -> ExprV
    decreases e,
{
    match e {
        ExprV::Call { target, args } => ExprV::Call { target, args: bare_args(args) },
        ExprV::Unary { op, expr } => ExprV::Unary { op, expr: Box::new(bare_expr(*expr)) },
        ExprV::Binary { op, lhs, rhs } => ExprV::Binary {
            op,
            lhs: Box::new(bare_expr(*lhs)),
            rhs: Box::new(bare_expr(*rhs)),
        },
        e => e,
    }
}

/// An argument without its places.
pub open spec fn bare_arg(a: ArgV) -> ArgV
    decreases a,
{
    ArgV { name: a.name, value: bare_expr(a.value), span: ast::dummy_span() }
}

/// Arguments without their places.
pub open spec fn bare_args(s: Seq<ArgV>) -> Seq<ArgV>
    decreases s,
{
    Seq::new(
        s.len(),
        |i: int|
            if 0 <= i < s.len() {
                bare_arg(s[i])
            } else {
                arbitrary()
            },
    )
}

/// Expressions without their places.
pub open spec fn bare_exprs(s: Seq<ExprV>) -> Seq<ExprV> {
    Seq::new(s.len(), |i: int| bare_expr(s[i]))
}

/// What a `return` asks for, without its places.
pub open spec fn bare_action(a: ReturnActionV) -> ReturnActionV {
    ReturnActionV { name: a.name, args: bare_exprs(a.args) }
}

/// A statement without its places.
pub open spec fn bare_stmt(s: StmtV) -> StmtV
    decreases s,
{
    let span = ast::dummy_span();
    match s {
        StmtV::Assign { lhs, rhs, .. } => StmtV::Assign { lhs, rhs: bare_expr(rhs), span },
        StmtV::Unset { lhs, .. } => StmtV::Unset { lhs, span },
        StmtV::Call { sub, .. } => StmtV::Call { sub, span },
        StmtV::Return { action, .. } => StmtV::Return {
            action: match action {
                Some(a) => Some(bare_action(a)),
                None => None,
            },
            span,
        },
        StmtV::Synthetic { value, .. } => StmtV::Synthetic { value: bare_expr(value), span },
        StmtV::If { arms, else_body, .. } => StmtV::If {
            arms: bare_arms(arms),
            else_body: match else_body {
                Some(b) => Some(bare_stmts(b)),
                None => None,
            },
            span,
        },
        StmtV::New { name, vmod, ctor, args, .. } => StmtV::New {
            name,
            vmod,
            ctor,
            args: bare_args(args),
            span,
        },
        StmtV::Expr { expr, .. } => StmtV::Expr { expr: bare_expr(expr), span },
    }
}

/// Statements without their places.
pub open spec fn bare_stmts(s: Seq<StmtV>) -> Seq<StmtV>
    decreases s,
{
    Seq::new(
        s.len(),
        |i: int|
            if 0 <= i < s.len() {
                bare_stmt(s[i])
            } else {
                arbitrary()
            },
    )
}

/// An arm without its places.
pub open spec fn bare_arm(a: ArmV) -> ArmV
    decreases a,
{
    ArmV { cond: bare_expr(a.cond), body: bare_stmts(a.body) }
}

/// Arms without their places.
pub open spec fn bare_arms(s: Seq<ArmV>) -> Seq<ArmV>
    decreases s,
{
    Seq::new(
        s.len(),
        |i: int|
            if 0 <= i < s.len() {
                bare_arm(s[i])
            } else {
                arbitrary()
            },
    )
}

/// The value of a field without its places.
pub open spec fn bare_value(v: FieldValueV) -> FieldValueV
    decreases v,
{
    match v {
        FieldValueV::Expr(e) => FieldValueV::Expr(bare_expr(e)),
        FieldValueV::Probe(fs) => FieldValueV::Probe(bare_fields(fs)),
        v => v,
    }
}

/// A field without its places.
pub open spec fn bare_field(f: FieldV) -> FieldV
    decreases f,
{
    FieldV { name: f.name, value: bare_value(f.value), span: ast::dummy_span() }
}

/// Fields without their places.
pub open spec fn bare_fields(s: Seq<FieldV>) -> Seq<FieldV>
    decreases s,
{
    Seq::new(
        s.len(),
        |i: int|
            if 0 <= i < s.len() {
                bare_field(s[i])
            } else {
                arbitrary()
            },
    )
}

/// An address without its place.
pub open spec fn bare_entry(e: AclEntryV) -> AclEntryV {
    AclEntryV { span: ast::dummy_span(), ..e }
}

/// Addresses without their places.
pub open spec fn bare_entries(s: Seq<AclEntryV>) -> Seq<AclEntryV> {
    Seq::new(s.len(), |i: int| bare_entry(s[i]))
}

/// A declaration without its places.
pub open spec fn bare_decl(d: DeclV) -> DeclV {
    let span = ast::dummy_span();
    match d {
        DeclV::Import { name, from, .. } => DeclV::Import { name, from, span },
        DeclV::Backend { name, none, body, .. } => DeclV::Backend {
            name,
            none,
            body: match body {
                Some(fs) => Some(bare_fields(fs)),
                None => None,
            },
            span,
        },
        DeclV::Probe { name, body, .. } => DeclV::Probe { name, body: bare_fields(body), span },
        DeclV::Acl { name, entries, .. } => DeclV::Acl {
            name,
            entries: bare_entries(entries),
            span,
        },
        DeclV::Sub { name, body, .. } => DeclV::Sub { name, body: bare_stmts(body), span },
    }
}

/// Declarations without their places.
pub open spec fn bare_decls(s: Seq<DeclV>) -> Seq<DeclV> {
    Seq::new(s.len(), |i: int| bare_decl(s[i]))
}

/// A program without its places and comments.
pub open spec fn bare_program(p: ProgramV) -> ProgramV {
    ProgramV {
        vcl_version: ast::dummy_span(),
        decls: bare_decls(p.decls),
        comments: CommentMapV::empty(),
        trailing_comments: seq![],
    }
}

// ───────────────────────── the canonical form ─────────────────────────

proof fn lemma_expr_json(e: ExprV)
    ensures
        canon::expr_json(bare_expr(e)) == canon::expr_json(e),
    decreases e,
{
    match e {
        ExprV::Call { args, .. } => lemma_args_json(args),
        ExprV::Unary { expr, .. } => lemma_expr_json(*expr),
        ExprV::Binary { lhs, rhs, .. } => {
            lemma_expr_json(*lhs);
            lemma_expr_json(*rhs);
        },
        _ => {},
    }
}

proof fn lemma_args_json(s: Seq<ArgV>)
    ensures
        canon::args_json(bare_args(s)) == canon::args_json(s),
    decreases s,
{
    let a = canon::args_json(bare_args(s))->Array_0;
    let b = canon::args_json(s)->Array_0;
    assert forall|i: int| 0 <= i < s.len() implies a[i] == b[i] by {
        lemma_expr_json(s[i].value);
        assert(a[i] == canon::arg_json(bare_arg(s[i])));
        assert(b[i] == canon::arg_json(s[i]));
    }
    assert(a =~= b);
}

proof fn lemma_exprs_json(s: Seq<ExprV>)
    ensures
        canon::exprs_json(bare_exprs(s)) == canon::exprs_json(s),
{
    let a = canon::exprs_json(bare_exprs(s))->Array_0;
    let b = canon::exprs_json(s)->Array_0;
    assert forall|i: int| 0 <= i < s.len() implies a[i] == b[i] by {
        lemma_expr_json(s[i]);
    }
    assert(a =~= b);
}

proof fn lemma_stmt_json(s: StmtV)
    ensures
        canon::stmt_json(bare_stmt(s)) == canon::stmt_json(s),
    decreases s,
{
    match s {
        StmtV::Assign { rhs, .. } => lemma_expr_json(rhs),
        StmtV::Return { action: Some(a), .. } => lemma_exprs_json(a.args),
        StmtV::Synthetic { value, .. } => lemma_expr_json(value),
        StmtV::If { arms, else_body, .. } => {
            lemma_arms_json(arms);
            match else_body {
                Some(b) => lemma_stmts_json(b),
                None => {},
            }
        },
        StmtV::New { args, .. } => lemma_args_json(args),
        StmtV::Expr { expr, .. } => lemma_expr_json(expr),
        _ => {},
    }
}

proof fn lemma_stmts_json(s: Seq<StmtV>)
    ensures
        canon::stmts_json(bare_stmts(s)) == canon::stmts_json(s),
    decreases s,
{
    let a = canon::stmts_json(bare_stmts(s))->Array_0;
    let b = canon::stmts_json(s)->Array_0;
    assert forall|i: int| 0 <= i < s.len() implies a[i] == b[i] by {
        lemma_stmt_json(s[i]);
        assert(a[i] == canon::stmt_json(bare_stmt(s[i])));
    }
    assert(a =~= b);
}

proof fn lemma_arms_json(s: Seq<ArmV>)
    ensures
        canon::arms_json(bare_arms(s)) == canon::arms_json(s),
    decreases s,
{
    let a = canon::arms_json(bare_arms(s))->Array_0;
    let b = canon::arms_json(s)->Array_0;
    assert forall|i: int| 0 <= i < s.len() implies a[i] == b[i] by {
        lemma_expr_json(s[i].cond);
        lemma_stmts_json(s[i].body);
        assert(a[i] == canon::arm_json(bare_arm(s[i])));
        assert(b[i] == canon::arm_json(s[i]));
    }
    assert(a =~= b);
}

proof fn lemma_fields_json(s: Seq<FieldV>)
    ensures
        canon::fields_json(bare_fields(s)) == canon::fields_json(s),
    decreases s,
{
    let a = canon::fields_json(bare_fields(s))->Array_0;
    let b = canon::fields_json(s)->Array_0;
    assert forall|i: int| 0 <= i < s.len() implies a[i] == b[i] by {
        match s[i].value {
            FieldValueV::Expr(e) => lemma_expr_json(e),
            FieldValueV::Probe(fs) => lemma_fields_json(fs),
            _ => {},
        }
        assert(a[i] == canon::field_json(bare_field(s[i])));
        assert(b[i] == canon::field_json(s[i]));
    }
    assert(a =~= b);
}

/// The canonical form of a declaration does not tell where it stands.
pub proof fn law_declaration_form_has_no_places(d: DeclV)
    ensures
        canon::decl_json(bare_decl(d)) == canon::decl_json(d),
{
    match d {
        DeclV::Backend { body: Some(fs), .. } => lemma_fields_json(fs),
        DeclV::Probe { body, .. } => lemma_fields_json(body),
        DeclV::Acl { entries, .. } => {
            let a = canon::acl_entries_json(bare_entries(entries))->Array_0;
            let b = canon::acl_entries_json(entries)->Array_0;
            assert(a =~= b);
        },
        DeclV::Sub { body, .. } => lemma_stmts_json(body),
        _ => {},
    }
}

/// The canonical form of a program tells neither where its parts stand nor
/// which comments stand beside them.
pub proof fn law_canonical_form_has_no_places(p: ProgramV)
    ensures
        canon::program_json(bare_program(p)) == canon::program_json(p),
{
    let a = canon::decls_json(bare_decls(p.decls))->Array_0;
    let b = canon::decls_json(p.decls)->Array_0;
    assert forall|i: int| 0 <= i < p.decls.len() implies a[i] == b[i] by {
        law_declaration_form_has_no_places(p.decls[i]);
    }
    assert(a =~= b);
}

/// An expression on one line does not tell where it stands.
pub proof fn law_expression_text_has_no_places(e: ExprV)
    ensures
        printer::expr_text(bare_expr(e)) == printer::expr_text(e),
    decreases e, 0nat,
{
    match e {
        ExprV::Call { args, .. } => lemma_arg_texts(args, "="@, args.len()),
        ExprV::Unary { expr, .. } => law_expression_text_has_no_places(*expr),
        ExprV::Binary { lhs, rhs, .. } => {
            law_expression_text_has_no_places(*lhs);
            law_expression_text_has_no_places(*rhs);
        },
        _ => {},
    }
}

proof fn lemma_arg_texts(args: Seq<ArgV>, sep: Seq<char>, n: nat)
    requires
        n <= args.len(),
    ensures
        printer::arg_texts(bare_args(args), sep, n) == printer::arg_texts(args, sep, n),
    decreases args, n,
{
    if n > 0 {
        lemma_arg_texts(args, sep, (n - 1) as nat);
        law_expression_text_has_no_places(args[n - 1].value);
        assert(bare_args(args)[n - 1] == bare_arg(args[n - 1]));
    }
}

// ───────────────────────── lists ─────────────────────────

pub(crate) proof fn lemma_push_args(s: Seq<ArgV>, x: ArgV)
    ensures
        bare_args(s.push(x)) == bare_args(s).push(bare_arg(x)),
{
    assert(bare_args(s.push(x)) =~= bare_args(s).push(bare_arg(x)));
}

pub(crate) proof fn lemma_push_exprs(s: Seq<ExprV>, x: ExprV)
    ensures
        bare_exprs(s.push(x)) == bare_exprs(s).push(bare_expr(x)),
{
    assert(bare_exprs(s.push(x)) =~= bare_exprs(s).push(bare_expr(x)));
}

pub(crate) proof fn lemma_push_stmts(s: Seq<StmtV>, x: StmtV)
    ensures
        bare_stmts(s.push(x)) == bare_stmts(s).push(bare_stmt(x)),
{
    assert(bare_stmts(s.push(x)) =~= bare_stmts(s).push(bare_stmt(x)));
}

pub(crate) proof fn lemma_push_arms(s: Seq<ArmV>, x: ArmV)
    ensures
        bare_arms(s.push(x)) == bare_arms(s).push(bare_arm(x)),
{
    assert(bare_arms(s.push(x)) =~= bare_arms(s).push(bare_arm(x)));
}

pub(crate) proof fn lemma_push_fields(s: Seq<FieldV>, x: FieldV)
    ensures
        bare_fields(s.push(x)) == bare_fields(s).push(bare_field(x)),
{
    assert(bare_fields(s.push(x)) =~= bare_fields(s).push(bare_field(x)));
}

pub(crate) proof fn lemma_push_entries(s: Seq<AclEntryV>, x: AclEntryV)
    ensures
        bare_entries(s.push(x)) == bare_entries(s).push(bare_entry(x)),
{
    assert(bare_entries(s.push(x)) =~= bare_entries(s).push(bare_entry(x)));
}

pub(crate) proof fn lemma_push_decls(s: Seq<DeclV>, x: DeclV)
    ensures
        bare_decls(s.push(x)) == bare_decls(s).push(bare_decl(x)),
{
    assert(bare_decls(s.push(x)) =~= bare_decls(s).push(bare_decl(x)));
}

} // verus!
