//! The first pass: literals and symbols.
//!
//! - A header name that is read (`req.http.Foo` in an expression) is put in
//!   lower case: header lookups do not mind the case. The target of a `set` or
//!   `unset` keeps its case: that name goes out on the wire.
//! - An address without a mask gets the mask of a single host.
//! - A number with a point loses trailing zeros.

use crate::ast;
use crate::ast::{
    AclEntry, AclEntryV, Arg, ArgV, ArmV, Decl, DeclV, Expr, ExprV, Field, FieldV, FieldValue,
    FieldValueV, Program, ProgramV, ReturnActionV, Stmt, StmtV,
};
use crate::decimal;
use crate::decimal::Decimal;
use crate::text;
use vstd::prelude::*;
use vstd::string::*;

verus! {

// ───────────────────────── the meaning ─────────────────────────

/// The first index at or behind `i`, but the last one, at which `http` stands.
pub open spec fn http_index(parts: Seq<Seq<char>>, i: nat) -> Option<nat>
    decreases parts.len() - i,
{
    if i + 1 >= parts.len() {
        None
    } else if parts[i as int] == "http"@ {
        Some(i)
    } else {
        http_index(parts, i + 1)
    }
}

/// A path with the part behind its first `http` in lower case.
pub open spec fn lower_header(parts: Seq<Seq<char>>) -> Seq<Seq<char>> {
    match http_index(parts, 0) {
        Some(i) => parts.update(i as int + 1, text::lowercase(parts[i as int + 1])),
        None => parts,
    }
}

/// A number as it is written: one with a point loses trailing zeros.
pub open spec fn plain_number(n: Seq<char>) -> Seq<char> {
    if n.contains('.') {
        match decimal::decimal_value(n) {
            Some(d) => d.text(),
            None => n,
        }
    } else {
        n
    }
}

pub open spec fn lit_expr(e: ExprV) -> ExprV
    decreases e,
{
    match e {
        ExprV::Num(n) => ExprV::Num(plain_number(n)),
        ExprV::Var(parts) => ExprV::Var(lower_header(parts)),
        ExprV::Call { target, args } => ExprV::Call {
            target: lower_header(target),
            args: lit_args(args),
        },
        ExprV::Unary { op, expr } => ExprV::Unary { op, expr: Box::new(lit_expr(*expr)) },
        ExprV::Binary { op, lhs, rhs } => ExprV::Binary {
            op,
            lhs: Box::new(lit_expr(*lhs)),
            rhs: Box::new(lit_expr(*rhs)),
        },
        _ => e,
    }
}

pub open spec fn lit_arg(a: ArgV) -> ArgV
    decreases a,
{
    ArgV { value: lit_expr(a.value), ..a }
}

pub open spec fn lit_args(args: Seq<ArgV>) -> Seq<ArgV>
    decreases args,
{
    Seq::new(
        args.len(),
        |i: int|
            if 0 <= i < args.len() {
                lit_arg(args[i])
            } else {
                arbitrary()
            },
    )
}

pub open spec fn lit_exprs(es: Seq<ExprV>) -> Seq<ExprV> {
    Seq::new(es.len(), |i: int| lit_expr(es[i]))
}

pub open spec fn lit_action(a: Option<ReturnActionV>) -> Option<ReturnActionV> {
    match a {
        Some(x) => Some(ReturnActionV { args: lit_exprs(x.args), ..x }),
        None => None,
    }
}

pub open spec fn lit_stmt(s: StmtV) -> StmtV
    decreases s,
{
    match s {
        StmtV::Assign { lhs, rhs, span } => StmtV::Assign { lhs, rhs: lit_expr(rhs), span },
        StmtV::Unset { .. } => s,
        StmtV::Call { .. } => s,
        StmtV::Return { action, span } => StmtV::Return { action: lit_action(action), span },
        StmtV::Synthetic { value, span } => StmtV::Synthetic { value: lit_expr(value), span },
        StmtV::If { arms, else_body, span } => StmtV::If {
            arms: lit_arms(arms),
            else_body: match else_body {
                Some(b) => Some(lit_stmts(b)),
                None => None,
            },
            span,
        },
        StmtV::New { name, vmod, ctor, args, span } => StmtV::New {
            name,
            vmod,
            ctor,
            args: lit_args(args),
            span,
        },
        StmtV::Expr { expr, span } => StmtV::Expr { expr: lit_expr(expr), span },
    }
}

pub open spec fn lit_stmts(s: Seq<StmtV>) -> Seq<StmtV>
    decreases s,
{
    Seq::new(
        s.len(),
        |i: int|
            if 0 <= i < s.len() {
                lit_stmt(s[i])
            } else {
                arbitrary()
            },
    )
}

pub open spec fn lit_arm(a: ArmV) -> ArmV
    decreases a,
{
    ArmV { cond: lit_expr(a.cond), body: lit_stmts(a.body) }
}

pub open spec fn lit_arms(s: Seq<ArmV>) -> Seq<ArmV>
    decreases s,
{
    Seq::new(
        s.len(),
        |i: int|
            if 0 <= i < s.len() {
                lit_arm(s[i])
            } else {
                arbitrary()
            },
    )
}

pub open spec fn lit_field_value(v: FieldValueV) -> FieldValueV
    decreases v,
{
    match v {
        FieldValueV::Expr(e) => FieldValueV::Expr(lit_expr(e)),
        FieldValueV::Probe(fs) => FieldValueV::Probe(lit_fields(fs)),
        FieldValueV::ProbeRef(_) => v,
        FieldValueV::StringList(_) => v,
    }
}

pub open spec fn lit_field(f: FieldV) -> FieldV
    decreases f,
{
    FieldV { value: lit_field_value(f.value), ..f }
}

pub open spec fn lit_fields(s: Seq<FieldV>) -> Seq<FieldV>
    decreases s,
{
    Seq::new(
        s.len(),
        |i: int|
            if 0 <= i < s.len() {
                lit_field(s[i])
            } else {
                arbitrary()
            },
    )
}

/// The mask of a single host: 128 bits for an address with a colon, 32 for
/// four numbers up to 255 with dots between them, none for a name.
pub open spec fn host_mask(addr: Seq<char>) -> Option<u8> {
    let parts = text::split_from(addr, '.', 0);
    if addr.contains(':') {
        Some(128)
    } else if parts.len() == 4 && forall|i: int|
        0 <= i < 4 ==> text::unsigned_value(#[trigger] parts[i], 255) is Some {
        Some(32)
    } else {
        None
    }
}

pub open spec fn lit_entry(e: AclEntryV) -> AclEntryV {
    match e.mask {
        Some(_) => e,
        None => AclEntryV { mask: host_mask(e.addr), ..e },
    }
}

pub open spec fn lit_entries(s: Seq<AclEntryV>) -> Seq<AclEntryV> {
    Seq::new(s.len(), |i: int| lit_entry(s[i]))
}

pub open spec fn lit_decl(d: DeclV) -> DeclV {
    match d {
        DeclV::Import { .. } => d,
        DeclV::Backend { name, none, body, span } => DeclV::Backend {
            name,
            none,
            body: match body {
                Some(fs) => Some(lit_fields(fs)),
                None => None,
            },
            span,
        },
        DeclV::Probe { name, body, span } => DeclV::Probe { name, body: lit_fields(body), span },
        DeclV::Acl { name, entries, span } => DeclV::Acl {
            name,
            entries: lit_entries(entries),
            span,
        },
        DeclV::Sub { name, body, span } => DeclV::Sub { name, body: lit_stmts(body), span },
    }
}

pub open spec fn lit_decls(s: Seq<DeclV>) -> Seq<DeclV> {
    Seq::new(s.len(), |i: int| lit_decl(s[i]))
}

/// A program after the pass.
pub open spec fn lit_program(p: ProgramV) -> ProgramV {
    ProgramV { decls: lit_decls(p.decls), ..p }
}

// ───────────────────────── doing it ─────────────────────────

/// The first `i` items have been through the pass, the others are as before.
spec fn half_args(now: Seq<Arg>, before: Seq<Arg>, i: int) -> bool {
    &&& now.len() == before.len()
    &&& forall|j: int|
        0 <= j < i ==> ast::arg_view(#[trigger] now[j]) == lit_arg(ast::arg_view(before[j]))
    &&& forall|j: int| i <= j < before.len() ==> #[trigger] now[j] == before[j]
}

/// The first `i` items have been through the pass, the others are as before.
spec fn half_exprs(now: Seq<Expr>, before: Seq<Expr>, i: int) -> bool {
    &&& now.len() == before.len()
    &&& forall|j: int|
        0 <= j < i ==> ast::expr_view(#[trigger] now[j]) == lit_expr(ast::expr_view(before[j]))
    &&& forall|j: int| i <= j < before.len() ==> #[trigger] now[j] == before[j]
}

/// The first `i` items have been through the pass, the others are as before.
spec fn half_stmts(now: Seq<Stmt>, before: Seq<Stmt>, i: int) -> bool {
    &&& now.len() == before.len()
    &&& forall|j: int|
        0 <= j < i ==> ast::stmt_view(#[trigger] now[j]) == lit_stmt(ast::stmt_view(before[j]))
    &&& forall|j: int| i <= j < before.len() ==> #[trigger] now[j] == before[j]
}

/// The first `i` items have been through the pass, the others are as before.
spec fn half_arms(now: Seq<(Expr, Vec<Stmt>)>, before: Seq<(Expr, Vec<Stmt>)>, i: int) -> bool {
    &&& now.len() == before.len()
    &&& forall|j: int|
        0 <= j < i ==> ast::arm_view(#[trigger] now[j]) == lit_arm(ast::arm_view(before[j]))
    &&& forall|j: int| i <= j < before.len() ==> #[trigger] now[j] == before[j]
}

/// The first `i` items have been through the pass, the others are as before.
spec fn half_fields(now: Seq<Field>, before: Seq<Field>, i: int) -> bool {
    &&& now.len() == before.len()
    &&& forall|j: int|
        0 <= j < i ==> ast::field_view(#[trigger] now[j]) == lit_field(ast::field_view(before[j]))
    &&& forall|j: int| i <= j < before.len() ==> #[trigger] now[j] == before[j]
}

/// The first `i` items have been through the pass, the others are as before.
spec fn half_entrys(now: Seq<AclEntry>, before: Seq<AclEntry>, i: int) -> bool {
    &&& now.len() == before.len()
    &&& forall|j: int|
        0 <= j < i ==> ast::acl_entry_view(#[trigger] now[j]) == lit_entry(ast::acl_entry_view(before[j]))
    &&& forall|j: int| i <= j < before.len() ==> #[trigger] now[j] == before[j]
}

/// The first `i` items have been through the pass, the others are as before.
spec fn half_decls(now: Seq<Decl>, before: Seq<Decl>, i: int) -> bool {
    &&& now.len() == before.len()
    &&& forall|j: int|
        0 <= j < i ==> ast::decl_view(#[trigger] now[j]) == lit_decl(ast::decl_view(before[j]))
    &&& forall|j: int| i <= j < before.len() ==> #[trigger] now[j] == before[j]
}

fn lowercase_after_http(parts: &mut Vec<String>)
    ensures
        text::texts(final(parts)@) == lower_header(text::texts(old(parts)@)),
{
    let ghost pv = text::texts(parts@);
    if parts.len() == 0 {
        return;
    }
    let mut i: usize = 0;
    while i < parts.len() - 1
        invariant
            parts@ == old(parts)@,
            pv == text::texts(parts@),
            0 <= i < parts.len(),
            http_index(pv, i as nat) == http_index(pv, 0),
        decreases parts.len() - i,
    {
        if text::str_eq(parts[i].as_str(), "http") {
            let t = text::to_lower(parts[i + 1].as_str());
            parts.set(i + 1, t);
            assert(text::texts(parts@) =~= pv.update(i + 1, t@));
            return;
        }
        i += 1;
    }
}

fn normalize_expr(e: &mut Expr)
    ensures
        final(e)@ == lit_expr(old(e)@),
    decreases *old(e),
{
    match e {
        Expr::Num(n) => {
            if text::contains_char(n.as_str(), '.') {
                if let Some(d) = Decimal::parse(n.as_str()) {
                    *n = d.text();
                }
            }
        },
        Expr::Var(parts) => {
            lowercase_after_http(parts);
        },
        Expr::Call { target, args } => {
            lowercase_after_http(target);
            normalize_args(args);
        },
        Expr::Unary { expr, .. } => {
            normalize_expr(expr);
        },
        Expr::Binary { lhs, rhs, .. } => {
            normalize_expr(lhs);
            normalize_expr(rhs);
        },
        _ => {},
    }
}

fn normalize_arg(a: &mut Arg)
    ensures
        ast::arg_view(*final(a)) == lit_arg(ast::arg_view(*old(a))),
    decreases *old(a),
{
    normalize_expr(&mut a.value);
}

fn normalize_args(args: &mut Vec<Arg>)
    ensures
        ast::args_view(final(args)@) == lit_args(ast::args_view(old(args)@)),
    decreases *old(args),
{
    let ghost before = args@;
    let mut i: usize = 0;
    while i < args.len()
        invariant
            i <= args.len(),
            before == old(args)@,
            args.len() == before.len(),
            half_args(args@, before, i as int),
        decreases args.len() - i,
    {
        normalize_arg(&mut args[i]);
        i += 1;
    }
    assert(ast::args_view(args@) =~= lit_args(ast::args_view(before)));
}

fn normalize_exprs(es: &mut Vec<Expr>)
    ensures
        ast::exprs_view(final(es)@) == lit_exprs(ast::exprs_view(old(es)@)),
{
    let ghost before = es@;
    let mut i: usize = 0;
    while i < es.len()
        invariant
            i <= es.len(),
            es.len() == before.len(),
            half_exprs(es@, before, i as int),
        decreases es.len() - i,
    {
        normalize_expr(&mut es[i]);
        i += 1;
    }
    assert(ast::exprs_view(es@) =~= lit_exprs(ast::exprs_view(before)));
}

fn normalize_stmt(s: &mut Stmt)
    ensures
        final(s)@ == lit_stmt(old(s)@),
    decreases *old(s),
{
    match s {
        Stmt::Assign { rhs, .. } => {
            normalize_expr(rhs);
        },
        Stmt::Unset { .. } => {},
        Stmt::Call { .. } => {},
        Stmt::Return { action, .. } => {
            if let Some(a) = action {
                normalize_exprs(&mut a.args);
            }
        },
        Stmt::Synthetic { value, .. } => {
            normalize_expr(value);
        },
        Stmt::If { arms, else_body, .. } => {
            normalize_arms(arms);
            if let Some(b) = else_body {
                normalize_stmts(b);
            }
        },
        Stmt::New { args, .. } => {
            normalize_args(args);
        },
        Stmt::Expr { expr, .. } => {
            normalize_expr(expr);
        },
    }
}

fn normalize_stmts(ss: &mut Vec<Stmt>)
    ensures
        ast::stmts_view(final(ss)@) == lit_stmts(ast::stmts_view(old(ss)@)),
    decreases *old(ss),
{
    let ghost before = ss@;
    let mut i: usize = 0;
    while i < ss.len()
        invariant
            i <= ss.len(),
            before == old(ss)@,
            ss.len() == before.len(),
            half_stmts(ss@, before, i as int),
        decreases ss.len() - i,
    {
        normalize_stmt(&mut ss[i]);
        i += 1;
    }
    assert(ast::stmts_view(ss@) =~= lit_stmts(ast::stmts_view(before)));
}

fn normalize_arm(a: &mut (Expr, Vec<Stmt>))
    ensures
        ast::arm_view(*final(a)) == lit_arm(ast::arm_view(*old(a))),
    decreases *old(a),
{
    normalize_expr(&mut a.0);
    normalize_stmts(&mut a.1);
}

fn normalize_arms(arms: &mut Vec<(Expr, Vec<Stmt>)>)
    ensures
        ast::arms_view(final(arms)@) == lit_arms(ast::arms_view(old(arms)@)),
    decreases *old(arms),
{
    let ghost before = arms@;
    let mut i: usize = 0;
    while i < arms.len()
        invariant
            i <= arms.len(),
            before == old(arms)@,
            arms.len() == before.len(),
            half_arms(arms@, before, i as int),
        decreases arms.len() - i,
    {
        normalize_arm(&mut arms[i]);
        i += 1;
    }
    assert(ast::arms_view(arms@) =~= lit_arms(ast::arms_view(before)));
}

fn normalize_field_value(v: &mut FieldValue)
    ensures
        final(v)@ == lit_field_value(old(v)@),
    decreases *old(v),
{
    match v {
        FieldValue::Expr(e) => {
            normalize_expr(e);
        },
        FieldValue::Probe(fs) => {
            normalize_fields(fs);
        },
        FieldValue::ProbeRef(_) => {},
        FieldValue::StringList(_) => {},
    }
}

fn normalize_field(f: &mut Field)
    ensures
        ast::field_view(*final(f)) == lit_field(ast::field_view(*old(f))),
    decreases *old(f),
{
    normalize_field_value(&mut f.value);
}

fn normalize_fields(fs: &mut Vec<Field>)
    ensures
        ast::fields_view(final(fs)@) == lit_fields(ast::fields_view(old(fs)@)),
    decreases *old(fs),
{
    let ghost before = fs@;
    let mut i: usize = 0;
    while i < fs.len()
        invariant
            i <= fs.len(),
            before == old(fs)@,
            fs.len() == before.len(),
            half_fields(fs@, before, i as int),
        decreases fs.len() - i,
    {
        normalize_field(&mut fs[i]);
        i += 1;
    }
    assert(ast::fields_view(fs@) =~= lit_fields(ast::fields_view(before)));
}

/// The mask of a single host.
fn determine_mask(addr: &str) -> (r: Option<u8>)
    ensures
        r == host_mask(addr@),
{
    if text::contains_char(addr, ':') {
        return Some(128);
    }
    let parts = text::split_char(addr, '.');
    let ghost pv = text::split_from(addr@, '.', 0);
    assert(pv.len() == parts.len());
    if parts.len() != 4 {
        return None;
    }
    let mut i: usize = 0;
    while i < 4
        invariant
            i <= 4,
            parts.len() == 4,
            pv == text::texts(parts@),
            pv == text::split_from(addr@, '.', 0),
            !addr@.contains(':'),
            forall|j: int| 0 <= j < i ==> text::unsigned_value(#[trigger] pv[j], 255) is Some,
        decreases 4 - i,
    {
        assert(pv[i as int] == parts@[i as int]@);
        if text::parse_unsigned(parts[i].as_str(), 255).is_none() {
            assert(text::unsigned_value(pv[i as int], 255) is None);
            return None;
        }
        i += 1;
    }
    Some(32)
}

fn normalize_acl_entry(e: &mut AclEntry)
    ensures
        final(e)@ == lit_entry(old(e)@),
{
    if e.mask.is_none() {
        e.mask = determine_mask(e.addr.as_str());
    }
}

fn normalize_entries(es: &mut Vec<AclEntry>)
    ensures
        ast::acl_entries_view(final(es)@) == lit_entries(ast::acl_entries_view(old(es)@)),
{
    let ghost before = es@;
    let mut i: usize = 0;
    while i < es.len()
        invariant
            i <= es.len(),
            es.len() == before.len(),
            half_entrys(es@, before, i as int),
        decreases es.len() - i,
    {
        normalize_acl_entry(&mut es[i]);
        i += 1;
    }
    assert(ast::acl_entries_view(es@) =~= lit_entries(ast::acl_entries_view(before)));
}

fn normalize_decl(d: &mut Decl)
    ensures
        final(d)@ == lit_decl(old(d)@),
{
    match d {
        Decl::Import { .. } => {},
        Decl::Backend { body, .. } => {
            if let Some(fs) = body {
                normalize_fields(fs);
            }
        },
        Decl::Probe { body, .. } => {
            normalize_fields(body);
        },
        Decl::Acl { entries, .. } => {
            normalize_entries(entries);
        },
        Decl::Sub { body, .. } => {
            normalize_stmts(body);
        },
    }
}

/// Runs the pass.
pub fn run(p: &mut Program)
    ensures
        final(p)@ == lit_program(old(p)@),
{
    let ghost before = p.decls@;
    let mut i: usize = 0;
    while i < p.decls.len()
        invariant
            i <= p.decls.len(),
            p.decls.len() == before.len(),
            before == old(p).decls@,
            p.vcl_version == old(p).vcl_version,
            p.comments == old(p).comments,
            p.trailing_comments == old(p).trailing_comments,
            half_decls(p.decls@, before, i as int),
        decreases p.decls.len() - i,
    {
        normalize_decl(&mut p.decls[i]);
        i += 1;
    }
    assert(ast::decls_view(p.decls@) =~= lit_decls(ast::decls_view(before)));
}

} // verus!
