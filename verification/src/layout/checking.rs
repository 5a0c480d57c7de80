//! What is found wrong with a program does not depend on where its parts stand
//! in the source, but for the place of the error.

use crate::ast;
use crate::ast::{ArgV, ArmV, DeclV, ExprV, FieldV, FieldValueV, ProgramV, Span, StmtV};
use crate::layout;
use crate::layout::naming;
use crate::symbols;
use crate::symbols::{CalleeV, DeclKind, EnvV, MadeV, OutcomeV};
use crate::uses;
use crate::uses::UseV;
use crate::vmod::{ArgSpecV, VmodSpec};
use vstd::prelude::*;

verus! {

/// Whether the same is found, wherever the error stands.
pub open spec fn alike(a: OutcomeV, b: OutcomeV) -> bool {
    &&& a.warnings == b.warnings
    &&& match (a.error, b.error) {
        (Some(e), Some(f)) => e.msg == f.msg,
        (None, None) => true,
        _ => false,
    }
}

/// An environment without its places.
spec fn bare_env(v: EnvV) -> EnvV {
    EnvV { decls: layout::bare_decls(v.decls), ..v }
}

proof fn lemma_declares(ds: Seq<DeclV>, n: nat, k: DeclKind, name: Seq<char>)
    requires
        n <= ds.len(),
    ensures
        symbols::declares(layout::bare_decls(ds), n, k, name) == symbols::declares(ds, n, k, name),
{
    let b = layout::bare_decls(ds);
    if symbols::declares(ds, n, k, name) {
        let i = choose|i: int|
            0 <= i < n && symbols::decl_kind(#[trigger] ds[i]) == k && ast::decl_name(ds[i]) == name;
        assert(symbols::decl_kind(b[i]) == k && ast::decl_name(b[i]) == name);
    }
    if symbols::declares(b, n, k, name) {
        let i = choose|i: int|
            0 <= i < n && symbols::decl_kind(#[trigger] b[i]) == k && ast::decl_name(b[i]) == name;
        assert(symbols::decl_kind(ds[i]) == k && ast::decl_name(ds[i]) == name);
    }
}

proof fn lemma_known(v: EnvV, k: DeclKind, name: Seq<char>)
    ensures
        symbols::known(bare_env(v), k, name) == symbols::known(v, k, name),
{
    lemma_declares(v.decls, v.decls.len(), k, name);
}

proof fn lemma_declaring(ds: Seq<DeclV>, i: nat)
    ensures
        alike(
            symbols::declaring_from(ds, i),
            symbols::declaring_from(layout::bare_decls(ds), i),
        ),
    decreases ds.len() - i,
{
    if i < ds.len() {
        lemma_declaring(ds, i + 1);
        let d = ds[i as int];
        lemma_declares(ds, i, symbols::decl_kind(d), ast::decl_name(d));
        assert(layout::bare_decls(ds)[i as int] == layout::bare_decl(d));
    }
}

proof fn lemma_callee(v: EnvV, target: Seq<Seq<char>>)
    ensures
        symbols::callee(bare_env(v), target) == symbols::callee(v, target),
{
    if target.len() >= 2 {
        lemma_known(v, DeclKind::Import, target[0]);
    }
}

proof fn lemma_misnamed(args: Seq<ArgV>, sig: Seq<ArgSpecV>, i: nat)
    ensures
        symbols::misnamed(layout::bare_args(args), sig, i) == symbols::misnamed(args, sig, i),
    decreases args.len() - i,
{
    if i < args.len() {
        assert(layout::bare_args(args)[i as int] == layout::bare_arg(args[i as int]));
        lemma_misnamed(args, sig, i + 1);
    }
}

proof fn lemma_positional(args: Seq<ArgV>, n: nat)
    requires
        n <= args.len(),
    ensures
        symbols::positional(layout::bare_args(args), n) == symbols::positional(args, n),
    decreases n,
{
    if n > 0 {
        assert(layout::bare_args(args)[n - 1] == layout::bare_arg(args[n - 1]));
        lemma_positional(args, (n - 1) as nat);
    }
}

proof fn lemma_args_fault(args: Seq<ArgV>, sig: Seq<ArgSpecV>)
    ensures
        symbols::args_fault(layout::bare_args(args), sig) == symbols::args_fault(args, sig),
{
    lemma_misnamed(args, sig, 0);
    lemma_positional(args, args.len());
    let i = symbols::misnamed(args, sig, 0);
    if i < args.len() {
        assert(layout::bare_args(args)[i as int] == layout::bare_arg(args[i as int]));
    }
}

proof fn lemma_expr(e: ExprV, x: Span, y: Span, v: EnvV)
    ensures
        alike(
            symbols::expr_outcome(e, x, v),
            symbols::expr_outcome(layout::bare_expr(e), y, bare_env(v)),
        ),
    decreases e, 0nat,
{
    match e {
        ExprV::Var(parts) => if parts.len() == 1 {
            lemma_known(v, DeclKind::Backend, parts[0]);
            lemma_known(v, DeclKind::Probe, parts[0]);
            lemma_known(v, DeclKind::Acl, parts[0]);
        },
        ExprV::Call { target, args } => {
            lemma_callee(v, target);
            match symbols::callee(v, target) {
                CalleeV::Bad(_) => {},
                CalleeV::Open => lemma_args(args, 0, x, y, v),
                CalleeV::Known(sig) => {
                    lemma_args_fault(args, sig);
                    lemma_slots(args, sig, 0, x, y, v);
                },
            }
        },
        ExprV::Unary { expr, .. } => lemma_expr(*expr, x, y, v),
        ExprV::Binary { lhs, rhs, .. } => {
            lemma_expr(*lhs, x, y, v);
            lemma_expr(*rhs, x, y, v);
        },
        _ => {},
    }
}

proof fn lemma_args(args: Seq<ArgV>, i: nat, x: Span, y: Span, v: EnvV)
    ensures
        alike(
            symbols::args_outcome(args, i, x, v),
            symbols::args_outcome(layout::bare_args(args), i, y, bare_env(v)),
        ),
    decreases args, args.len() - i,
{
    if i < args.len() {
        assert(layout::bare_args(args)[i as int] == layout::bare_arg(args[i as int]));
        lemma_expr(args[i as int].value, x, y, v);
        lemma_args(args, i + 1, x, y, v);
    }
}

proof fn lemma_slot(args: Seq<ArgV>, sig: Seq<ArgSpecV>, i: int, x: Span, y: Span, v: EnvV)
    requires
        0 <= i < args.len(),
    ensures
        alike(
            symbols::slot_outcome(args, sig, i, x, v),
            symbols::slot_outcome(layout::bare_args(args), sig, i, y, bare_env(v)),
        ),
    decreases args, 0nat,
{
    assert(layout::bare_args(args)[i] == layout::bare_arg(args[i]));
    lemma_positional(args, i as nat);
    assert(symbols::allowed(layout::bare_args(args), sig, i) == symbols::allowed(args, sig, i));
    lemma_expr(args[i].value, x, y, v);
}

proof fn lemma_slots(args: Seq<ArgV>, sig: Seq<ArgSpecV>, i: nat, x: Span, y: Span, v: EnvV)
    ensures
        alike(
            symbols::slots_outcome(args, sig, i, x, v),
            symbols::slots_outcome(layout::bare_args(args), sig, i, y, bare_env(v)),
        ),
    decreases args, 1 + args.len() - i,
{
    if i < args.len() {
        lemma_slot(args, sig, i as int, x, y, v);
        lemma_slots(args, sig, i + 1, x, y, v);
    }
}

proof fn lemma_exprs(es: Seq<ExprV>, i: nat, x: Span, y: Span, v: EnvV)
    ensures
        alike(
            symbols::exprs_outcome(es, i, x, v),
            symbols::exprs_outcome(layout::bare_exprs(es), i, y, bare_env(v)),
        ),
    decreases es.len() - i,
{
    if i < es.len() {
        lemma_expr(es[i as int], x, y, v);
        lemma_exprs(es, i + 1, x, y, v);
    }
}

proof fn lemma_stmt(s: StmtV, v: EnvV)
    ensures
        alike(
            symbols::stmt_outcome(s, v),
            symbols::stmt_outcome(layout::bare_stmt(s), bare_env(v)),
        ),
    decreases s,
{
    let y = ast::dummy_span();
    match s {
        StmtV::Assign { rhs, span, .. } => {
            lemma_expr(rhs, span, y, v);
            match rhs {
                ExprV::Var(parts) => if parts.len() == 1 {
                    lemma_known(v, DeclKind::Backend, parts[0]);
                },
                _ => {},
            }
        },
        StmtV::Call { sub, .. } => lemma_known(v, DeclKind::Sub, sub),
        StmtV::Return { action: Some(a), span } => lemma_exprs(a.args, 0, span, y, v),
        StmtV::Synthetic { value, span } => lemma_expr(value, span, y, v),
        StmtV::If { arms, else_body, span } => {
            lemma_arms(arms, 0, span, y, v);
            match else_body {
                Some(b) => lemma_stmts(b, 0, v),
                None => {},
            }
        },
        StmtV::Expr { expr, span } => lemma_expr(expr, span, y, v),
        _ => {},
    }
}

proof fn lemma_stmts(ss: Seq<StmtV>, i: nat, v: EnvV)
    ensures
        alike(
            symbols::stmts_outcome(ss, i, v),
            symbols::stmts_outcome(layout::bare_stmts(ss), i, bare_env(v)),
        ),
    decreases ss, ss.len() - i,
{
    if i < ss.len() {
        assert(layout::bare_stmts(ss)[i as int] == layout::bare_stmt(ss[i as int]));
        lemma_stmt(ss[i as int], v);
        lemma_stmts(ss, i + 1, v);
    }
}

proof fn lemma_arms(arms: Seq<ArmV>, i: nat, x: Span, y: Span, v: EnvV)
    ensures
        alike(
            symbols::arms_outcome(arms, i, x, v),
            symbols::arms_outcome(layout::bare_arms(arms), i, y, bare_env(v)),
        ),
    decreases arms, arms.len() - i,
{
    if i < arms.len() {
        let a = arms[i as int];
        assert(layout::bare_arms(arms)[i as int] == layout::bare_arm(a));
        lemma_expr(a.cond, x, y, v);
        lemma_stmts(a.body, 0, v);
        lemma_arms(arms, i + 1, x, y, v);
    }
}

proof fn lemma_field(f: FieldV, v: EnvV)
    ensures
        alike(
            symbols::field_outcome(f, v),
            symbols::field_outcome(layout::bare_field(f), bare_env(v)),
        ),
    decreases f,
{
    match f.value {
        FieldValueV::Expr(e) => lemma_expr(e, f.span, ast::dummy_span(), v),
        FieldValueV::Probe(fs) => lemma_fields(fs, 0, v),
        FieldValueV::ProbeRef(name) => lemma_known(v, DeclKind::Probe, name),
        FieldValueV::StringList(_) => {},
    }
}

proof fn lemma_fields(fs: Seq<FieldV>, i: nat, v: EnvV)
    ensures
        alike(
            symbols::fields_outcome(fs, i, v),
            symbols::fields_outcome(layout::bare_fields(fs), i, bare_env(v)),
        ),
    decreases fs, fs.len() - i,
{
    if i < fs.len() {
        assert(layout::bare_fields(fs)[i as int] == layout::bare_field(fs[i as int]));
        lemma_field(fs[i as int], v);
        lemma_fields(fs, i + 1, v);
    }
}

proof fn lemma_decls(ds: Seq<DeclV>, i: nat, v: EnvV)
    ensures
        alike(
            symbols::decls_outcome(ds, i, v),
            symbols::decls_outcome(layout::bare_decls(ds), i, bare_env(v)),
        ),
    decreases ds.len() - i,
{
    if i < ds.len() {
        lemma_decls(ds, i + 1, v);
        match ds[i as int] {
            DeclV::Backend { body: Some(fs), .. } => lemma_fields(fs, 0, v),
            DeclV::Probe { body, .. } => lemma_fields(body, 0, v),
            DeclV::Sub { body, .. } => lemma_stmts(body, 0, v),
            _ => {},
        }
        assert(layout::bare_decls(ds)[i as int] == layout::bare_decl(ds[i as int]));
    }
}

// ───────────────────────── objects ─────────────────────────

spec fn made_alike(a: MadeV, b: MadeV) -> bool {
    &&& alike(a.found, b.found)
    &&& a.objects == b.objects
}

proof fn lemma_new(
    name: Seq<char>,
    vmod: Seq<char>,
    ctor: Seq<char>,
    args: Seq<ArgV>,
    x: Span,
    y: Span,
    v: EnvV,
)
    ensures
        alike(
            symbols::new_outcome(name, vmod, ctor, args, x, v),
            symbols::new_outcome(name, vmod, ctor, layout::bare_args(args), y, bare_env(v)),
        ),
{
    lemma_known(v, DeclKind::Import, vmod);
    lemma_args(args, 0, x, y, v);
    if v.specs.contains_key(vmod) && v.specs[vmod].objects@.contains_key(ctor) {
        let sig = v.specs[vmod].objects@[ctor].init@;
        lemma_args_fault(args, sig);
        lemma_slots(args, sig, 0, x, y, v);
    }
}

proof fn lemma_made_here(s: StmtV, v: EnvV)
    ensures
        made_alike(
            symbols::made_here(s, v),
            symbols::made_here(layout::bare_stmt(s), bare_env(v)),
        ),
    decreases s, 0nat,
{
    match s {
        StmtV::New { name, vmod, ctor, args, span } => lemma_new(
            name,
            vmod,
            ctor,
            args,
            span,
            ast::dummy_span(),
            v,
        ),
        StmtV::If { arms, else_body, .. } => {
            lemma_made_in_arms(arms, 0, v);
            let a = symbols::made_in_arms(arms, 0, v);
            let w = symbols::with_objects(v, a.objects);
            match else_body {
                Some(b) => {
                    lemma_made_from(b, 0, w);
                    assert(bare_env(w) == symbols::with_objects(bare_env(v), a.objects));
                },
                None => {},
            }
        },
        _ => {},
    }
}

proof fn lemma_made_from(ss: Seq<StmtV>, i: nat, v: EnvV)
    ensures
        made_alike(
            symbols::made_from(ss, i, v),
            symbols::made_from(layout::bare_stmts(ss), i, bare_env(v)),
        ),
    decreases ss, ss.len() - i,
{
    if i < ss.len() {
        assert(layout::bare_stmts(ss)[i as int] == layout::bare_stmt(ss[i as int]));
        lemma_made_here(ss[i as int], v);
        let here = symbols::made_here(ss[i as int], v);
        let w = symbols::with_objects(v, here.objects);
        lemma_made_from(ss, i + 1, w);
        assert(bare_env(w) == symbols::with_objects(bare_env(v), here.objects));
    }
}

proof fn lemma_made_in_arms(arms: Seq<ArmV>, i: nat, v: EnvV)
    ensures
        made_alike(
            symbols::made_in_arms(arms, i, v),
            symbols::made_in_arms(layout::bare_arms(arms), i, bare_env(v)),
        ),
    decreases arms, arms.len() - i,
{
    if i < arms.len() {
        let a = arms[i as int];
        assert(layout::bare_arms(arms)[i as int] == layout::bare_arm(a));
        lemma_made_from(a.body, 0, v);
        let here = symbols::made_from(a.body, 0, v);
        let w = symbols::with_objects(v, here.objects);
        lemma_made_in_arms(arms, i + 1, w);
        assert(bare_env(w) == symbols::with_objects(bare_env(v), here.objects));
    }
}

proof fn lemma_calls(ds: Seq<DeclV>, a: Seq<char>, b: Seq<char>)
    ensures
        symbols::calls(layout::bare_decls(ds), a, b) == symbols::calls(ds, a, b),
{
    let e = layout::bare_decls(ds);
    if symbols::calls(ds, a, b) {
        let i = choose|i: int|
            0 <= i < ds.len() && (#[trigger] ds[i] matches DeclV::Sub { name, body, .. } && name
                == a && uses::body_uses(body).contains(UseV::Sub(b)));
        naming::lemma_body_uses(ds[i]->Sub_body);
        assert(e[i] matches DeclV::Sub { name, body, .. } && name == a && uses::body_uses(
            body,
        ).contains(UseV::Sub(b)));
    }
    if symbols::calls(e, a, b) {
        let i = choose|i: int|
            0 <= i < e.len() && (#[trigger] e[i] matches DeclV::Sub { name, body, .. } && name == a
                && uses::body_uses(body).contains(UseV::Sub(b)));
        naming::lemma_body_uses(ds[i]->Sub_body);
        assert(ds[i] matches DeclV::Sub { name, body, .. } && name == a && uses::body_uses(
            body,
        ).contains(UseV::Sub(b)));
    }
}

proof fn lemma_reached(ds: Seq<DeclV>, name: Seq<char>, n: nat)
    ensures
        symbols::reached_in(layout::bare_decls(ds), name, n) == symbols::reached_in(ds, name, n),
    decreases n,
{
    let e = layout::bare_decls(ds);
    if n > 0 {
        let k = (n - 1) as nat;
        if symbols::reached_in(ds, name, n) {
            let m = choose|m: Seq<char>|
                symbols::reached_in(ds, m, k) && #[trigger] symbols::calls(ds, m, name);
            lemma_reached(ds, m, k);
            lemma_calls(ds, m, name);
            assert(symbols::reached_in(e, m, k) && symbols::calls(e, m, name));
        }
        if symbols::reached_in(e, name, n) {
            let m = choose|m: Seq<char>|
                symbols::reached_in(e, m, k) && #[trigger] symbols::calls(e, m, name);
            lemma_reached(ds, m, k);
            lemma_calls(ds, m, name);
            assert(symbols::reached_in(ds, m, k) && symbols::calls(ds, m, name));
        }
    }
}

proof fn lemma_reachable(ds: Seq<DeclV>, name: Seq<char>)
    ensures
        symbols::reachable(layout::bare_decls(ds), name) == symbols::reachable(ds, name),
{
    let e = layout::bare_decls(ds);
    if symbols::reachable(ds, name) {
        let n = choose|n: nat| #[trigger] symbols::reached_in(ds, name, n);
        lemma_reached(ds, name, n);
        assert(symbols::reached_in(e, name, n));
    }
    if symbols::reachable(e, name) {
        let n = choose|n: nat| #[trigger] symbols::reached_in(e, name, n);
        lemma_reached(ds, name, n);
        assert(symbols::reached_in(ds, name, n));
    }
}

proof fn lemma_first_new(ss: Seq<StmtV>, i: nat)
    ensures
        symbols::first_new(layout::bare_stmts(ss), i) is Some == symbols::first_new(ss, i) is Some,
    decreases ss, ss.len() - i,
{
    if i < ss.len() {
        assert(layout::bare_stmts(ss)[i as int] == layout::bare_stmt(ss[i as int]));
        match ss[i as int] {
            StmtV::If { arms, else_body, .. } => {
                lemma_first_new_arm(arms, 0);
                match else_body {
                    Some(b) => lemma_first_new(b, 0),
                    None => {},
                }
            },
            _ => {},
        }
        lemma_first_new(ss, i + 1);
    }
}

proof fn lemma_first_new_arm(arms: Seq<ArmV>, i: nat)
    ensures
        symbols::first_new_arm(layout::bare_arms(arms), i) is Some == symbols::first_new_arm(
            arms,
            i,
        ) is Some,
    decreases arms, arms.len() - i,
{
    if i < arms.len() {
        assert(layout::bare_arms(arms)[i as int] == layout::bare_arm(arms[i as int]));
        lemma_first_new(arms[i as int].body, 0);
        lemma_first_new_arm(arms, i + 1);
    }
}

proof fn lemma_made_by_decls(ds: Seq<DeclV>, i: nat, v: EnvV)
    ensures
        made_alike(
            symbols::made_by_decls(ds, i, v),
            symbols::made_by_decls(layout::bare_decls(ds), i, bare_env(v)),
        ),
    decreases ds.len() - i,
{
    if i < ds.len() {
        assert(layout::bare_decls(ds)[i as int] == layout::bare_decl(ds[i as int]));
        match ds[i as int] {
            DeclV::Sub { name, body, .. } => {
                lemma_reachable(ds, name);
                lemma_made_from(body, 0, v);
                lemma_first_new(body, 0);
            },
            _ => {},
        }
        let here = symbols::made_by_decl(ds, i as int, v);
        let w = symbols::with_objects(v, here.objects);
        lemma_made_by_decls(ds, i + 1, w);
        assert(bare_env(w) == symbols::with_objects(bare_env(v), here.objects));
    }
}

/// The same is found in a program wherever its parts stand: the same warnings,
/// and the same error or none.
pub proof fn law_findings_have_no_places(p: ProgramV, specs: Map<Seq<char>, VmodSpec>)
    ensures
        alike(
            symbols::outcome(p, specs),
            symbols::outcome(layout::bare_program(p), specs),
        ),
{
    let v = EnvV { decls: p.decls, objects: Map::empty(), specs };
    let made = symbols::made_by_decls(p.decls, 0, v);
    let w = symbols::with_objects(v, made.objects);
    lemma_declaring(p.decls, 0);
    lemma_made_by_decls(p.decls, 0, v);
    lemma_decls(p.decls, 0, w);
    assert(bare_env(w) == symbols::with_objects(bare_env(v), made.objects));
}

} // verus!
