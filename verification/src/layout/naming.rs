//! The canonical names do not depend on where the declarations stand in the
//! source, and so the canonical form does not either.

use crate::ast;
use crate::ast::{ArgV, ArmV, DeclV, ExprV, FieldV, ProgramV, StmtV};
use crate::layout;
use crate::layout::passes;
use crate::normalize;
use crate::normalize::merge;
use crate::normalize::rename;
use crate::normalize::rename::{DeclTableV, Kind, NamesV};
use crate::normalize::renaming;
use crate::normalize::renaming::RenamingV;
use crate::uses;
use crate::uses::UseV;
use vstd::prelude::*;

verus! {

// ───────────────────────── renaming ─────────────────────────

proof fn lemma_renamed_expr(e: ExprV, m: RenamingV)
    ensures
        renaming::renamed_expr(layout::bare_expr(e), m) == layout::bare_expr(
            renaming::renamed_expr(e, m),
        ),
    decreases e,
{
    match e {
        ExprV::Call { args, .. } => lemma_renamed_args(args, m),
        ExprV::Unary { expr, .. } => lemma_renamed_expr(*expr, m),
        ExprV::Binary { lhs, rhs, .. } => {
            lemma_renamed_expr(*lhs, m);
            lemma_renamed_expr(*rhs, m);
        },
        _ => {},
    }
}

proof fn lemma_renamed_args(s: Seq<ArgV>, m: RenamingV)
    ensures
        renaming::renamed_args(layout::bare_args(s), m) == layout::bare_args(
            renaming::renamed_args(s, m),
        ),
    decreases s,
{
    let a = renaming::renamed_args(layout::bare_args(s), m);
    let b = layout::bare_args(renaming::renamed_args(s, m));
    assert forall|i: int| 0 <= i < s.len() implies a[i] == b[i] by {
        lemma_renamed_expr(s[i].value, m);
        assert(a[i] == renaming::renamed_arg(layout::bare_arg(s[i]), m));
        assert(b[i] == layout::bare_arg(renaming::renamed_arg(s[i], m)));
    }
    assert(a =~= b);
}

proof fn lemma_renamed_exprs(s: Seq<ExprV>, m: RenamingV)
    ensures
        renaming::renamed_exprs(layout::bare_exprs(s), m) == layout::bare_exprs(
            renaming::renamed_exprs(s, m),
        ),
{
    let a = renaming::renamed_exprs(layout::bare_exprs(s), m);
    let b = layout::bare_exprs(renaming::renamed_exprs(s, m));
    assert forall|i: int| 0 <= i < s.len() implies a[i] == b[i] by {
        lemma_renamed_expr(s[i], m);
    }
    assert(a =~= b);
}

proof fn lemma_renamed_stmt(s: StmtV, m: RenamingV)
    ensures
        renaming::renamed_stmt(layout::bare_stmt(s), m) == layout::bare_stmt(
            renaming::renamed_stmt(s, m),
        ),
    decreases s,
{
    match s {
        StmtV::Assign { rhs, .. } => lemma_renamed_expr(rhs, m),
        StmtV::Return { action: Some(a), .. } => lemma_renamed_exprs(a.args, m),
        StmtV::Synthetic { value, .. } => lemma_renamed_expr(value, m),
        StmtV::If { arms, else_body, .. } => {
            lemma_renamed_arms(arms, m);
            match else_body {
                Some(b) => lemma_renamed_stmts(b, m),
                None => {},
            }
        },
        StmtV::New { args, .. } => lemma_renamed_args(args, m),
        StmtV::Expr { expr, .. } => lemma_renamed_expr(expr, m),
        _ => {},
    }
}

proof fn lemma_renamed_stmts(s: Seq<StmtV>, m: RenamingV)
    ensures
        renaming::renamed_stmts(layout::bare_stmts(s), m) == layout::bare_stmts(
            renaming::renamed_stmts(s, m),
        ),
    decreases s,
{
    let a = renaming::renamed_stmts(layout::bare_stmts(s), m);
    let b = layout::bare_stmts(renaming::renamed_stmts(s, m));
    assert forall|i: int| 0 <= i < s.len() implies a[i] == b[i] by {
        lemma_renamed_stmt(s[i], m);
        assert(a[i] == renaming::renamed_stmt(layout::bare_stmt(s[i]), m));
        assert(b[i] == layout::bare_stmt(renaming::renamed_stmt(s[i], m)));
    }
    assert(a =~= b);
}

proof fn lemma_renamed_arms(s: Seq<ArmV>, m: RenamingV)
    ensures
        renaming::renamed_arms(layout::bare_arms(s), m) == layout::bare_arms(
            renaming::renamed_arms(s, m),
        ),
    decreases s,
{
    let a = renaming::renamed_arms(layout::bare_arms(s), m);
    let b = layout::bare_arms(renaming::renamed_arms(s, m));
    assert forall|i: int| 0 <= i < s.len() implies a[i] == b[i] by {
        lemma_renamed_expr(s[i].cond, m);
        lemma_renamed_stmts(s[i].body, m);
        assert(a[i] == renaming::renamed_arm(layout::bare_arm(s[i]), m));
        assert(b[i] == layout::bare_arm(renaming::renamed_arm(s[i], m)));
    }
    assert(a =~= b);
}

proof fn lemma_renamed_decl(d: DeclV, m: RenamingV)
    ensures
        renaming::renamed_decl(layout::bare_decl(d), m) == layout::bare_decl(
            renaming::renamed_decl(d, m),
        ),
{
    match d {
        DeclV::Backend { body: Some(fs), .. } => {
            let a = renaming::renamed_fields(layout::bare_fields(fs), m);
            let b = layout::bare_fields(renaming::renamed_fields(fs, m));
            assert forall|i: int| 0 <= i < fs.len() implies a[i] == b[i] by {
                assert(b[i] == layout::bare_field(renaming::renamed_field(fs[i], m)));
                assert(a[i] == renaming::renamed_field(layout::bare_field(fs[i]), m));
            }
            assert(a =~= b);
        },
        DeclV::Sub { body, .. } => lemma_renamed_stmts(body, m),
        _ => {},
    }
}

pub(crate) proof fn lemma_renamed_decls(ds: Seq<DeclV>, m: RenamingV)
    ensures
        renaming::renamed_decls(layout::bare_decls(ds), m) == layout::bare_decls(
            renaming::renamed_decls(ds, m),
        ),
{
    let a = renaming::renamed_decls(layout::bare_decls(ds), m);
    let b = layout::bare_decls(renaming::renamed_decls(ds, m));
    assert forall|i: int| 0 <= i < ds.len() implies a[i] == b[i] by {
        lemma_renamed_decl(ds[i], m);
    }
    assert(a =~= b);
}

// ───────────────────────── uses ─────────────────────────

proof fn lemma_expr_uses(e: ExprV)
    ensures
        uses::expr_uses(layout::bare_expr(e)) == uses::expr_uses(e),
    decreases e,
{
    match e {
        ExprV::Call { args, .. } => lemma_args_uses(args, args.len()),
        ExprV::Unary { expr, .. } => lemma_expr_uses(*expr),
        ExprV::Binary { lhs, rhs, .. } => {
            lemma_expr_uses(*lhs);
            lemma_expr_uses(*rhs);
        },
        _ => {},
    }
}

proof fn lemma_args_uses(args: Seq<ArgV>, n: nat)
    requires
        n <= args.len(),
    ensures
        uses::args_uses(layout::bare_args(args), n) == uses::args_uses(args, n),
    decreases args, n,
{
    if n > 0 {
        lemma_args_uses(args, (n - 1) as nat);
        lemma_expr_uses(args[n - 1].value);
        assert(layout::bare_args(args)[n - 1] == layout::bare_arg(args[n - 1]));
    }
}

proof fn lemma_exprs_uses(es: Seq<ExprV>, n: nat)
    requires
        n <= es.len(),
    ensures
        uses::exprs_uses(layout::bare_exprs(es), n) == uses::exprs_uses(es, n),
    decreases n,
{
    if n > 0 {
        lemma_exprs_uses(es, (n - 1) as nat);
        lemma_expr_uses(es[n - 1]);
    }
}

proof fn lemma_stmt_uses(s: StmtV)
    ensures
        uses::stmt_uses(layout::bare_stmt(s)) == uses::stmt_uses(s),
    decreases s,
{
    match s {
        StmtV::Assign { rhs, .. } => lemma_expr_uses(rhs),
        StmtV::Return { action: Some(a), .. } => lemma_exprs_uses(a.args, a.args.len()),
        StmtV::Synthetic { value, .. } => lemma_expr_uses(value),
        StmtV::If { arms, else_body, .. } => {
            lemma_arms_uses(arms, arms.len());
            match else_body {
                Some(b) => lemma_stmts_uses(b, b.len()),
                None => {},
            }
        },
        StmtV::New { args, .. } => lemma_args_uses(args, args.len()),
        StmtV::Expr { expr, .. } => lemma_expr_uses(expr),
        _ => {},
    }
}

proof fn lemma_stmts_uses(ss: Seq<StmtV>, n: nat)
    requires
        n <= ss.len(),
    ensures
        uses::stmts_uses(layout::bare_stmts(ss), n) == uses::stmts_uses(ss, n),
    decreases ss, n,
{
    if n > 0 {
        lemma_stmts_uses(ss, (n - 1) as nat);
        lemma_stmt_uses(ss[n - 1]);
        assert(layout::bare_stmts(ss)[n - 1] == layout::bare_stmt(ss[n - 1]));
    }
}

proof fn lemma_arms_uses(arms: Seq<ArmV>, n: nat)
    requires
        n <= arms.len(),
    ensures
        uses::arms_uses(layout::bare_arms(arms), n) == uses::arms_uses(arms, n),
    decreases arms, n,
{
    if n > 0 {
        let a = arms[n - 1];
        lemma_arms_uses(arms, (n - 1) as nat);
        lemma_expr_uses(a.cond);
        lemma_stmts_uses(a.body, a.body.len());
        assert(layout::bare_arms(arms)[n - 1] == layout::bare_arm(a));
    }
}

pub(crate) proof fn lemma_body_uses(body: Seq<StmtV>)
    ensures
        uses::body_uses(layout::bare_stmts(body)) == uses::body_uses(body),
{
    lemma_stmts_uses(body, body.len());
}

// ───────────────────────── names ─────────────────────────

/// A table of declarations without their places.
pub open spec fn bare_table(t: DeclTableV) -> DeclTableV {
    Map::new(|n: Seq<char>| t.contains_key(n), |n: Seq<char>| layout::bare_decl(t[n]))
}

pub(crate) proof fn lemma_table(ds: Seq<DeclV>, n: nat)
    requires
        n <= ds.len(),
    ensures
        rename::decl_table(layout::bare_decls(ds), n) == bare_table(rename::decl_table(ds, n)),
    decreases n,
{
    if n > 0 {
        lemma_table(ds, (n - 1) as nat);
        assert(layout::bare_decls(ds)[n - 1] == layout::bare_decl(ds[n - 1]));
    }
    assert(rename::decl_table(layout::bare_decls(ds), n) =~= bare_table(
        rename::decl_table(ds, n),
    ));
}

proof fn lemma_unvisited(t: DeclTableV, v: Set<Seq<char>>)
    ensures
        rename::unvisited(bare_table(t), v) == rename::unvisited(t, v),
{
    assert(bare_table(t).dom() =~= t.dom());
}

proof fn lemma_probes_given(c: NamesV, fs: Seq<FieldV>, n: nat)
    requires
        n <= fs.len(),
    ensures
        rename::probes_given(c, layout::bare_fields(fs), n) == rename::probes_given(c, fs, n),
    decreases n,
{
    if n > 0 {
        lemma_probes_given(c, fs, (n - 1) as nat);
        assert(layout::bare_fields(fs)[n - 1] == layout::bare_field(fs[n - 1]));
    }
}

proof fn lemma_used_from(t: DeclTableV, c: NamesV, us: Seq<UseV>, i: nat)
    ensures
        rename::used_from(bare_table(t), c, us, i) == rename::used_from(t, c, us, i),
    decreases rename::unvisited(t, c.visited), 1nat, us.len() - i,
{
    if i < us.len() {
        let next = rename::used(t, c, us[i as int]);
        lemma_used(t, c, us[i as int]);
        lemma_unvisited(t, next.visited);
        lemma_unvisited(t, c.visited);
        if rename::unvisited(t, next.visited) <= rename::unvisited(t, c.visited) {
            lemma_used_from(t, next, us, i + 1);
        }
    }
}

proof fn lemma_used(t: DeclTableV, c: NamesV, u: UseV)
    ensures
        rename::used(bare_table(t), c, u) == rename::used(t, c, u),
    decreases rename::unvisited(t, c.visited), 0nat, 1nat,
{
    match u {
        UseV::Object(_) => {},
        UseV::Sub(n) => lemma_touched(t, c, Kind::Sub, n),
        UseV::Name(n) => if c.objects.contains(n) {
            lemma_touched(t, c, Kind::Obj, n);
        } else if t.contains_key(n) && rename::kind_of(t[n]) is Some {
            lemma_touched(t, c, rename::kind_of(t[n])->0, n);
        },
    }
}

proof fn lemma_touched(t: DeclTableV, c: NamesV, k: Kind, name: Seq<char>)
    ensures
        rename::touched(bare_table(t), c, k, name) == rename::touched(t, c, k, name),
    decreases rename::unvisited(t, c.visited), 0nat, 0nat,
{
    if rename::assigned_name(c.assigned, k, name) is None {
        let c1 = rename::given(c, k, name);
        match k {
            Kind::Backend => {
                let fs = rename::fields_of(t, name);
                assert(layout::bare_fields(seq![]) =~= seq![]);
                assert(rename::fields_of(bare_table(t), name) == layout::bare_fields(fs));
                lemma_probes_given(c1, fs, fs.len());
            },
            Kind::Sub => {
                let c2 = NamesV { visited: c1.visited.insert(name), ..c1 };
                lemma_unvisited(t, c2.visited);
                lemma_unvisited(t, c.visited);
                match rename::body_of(t, name) {
                    Some(body) => {
                        assert(rename::body_of(bare_table(t), name) == Some(
                            layout::bare_stmts(body),
                        ));
                        lemma_stmts_uses(body, body.len());
                        if rename::unvisited(t, c2.visited) < rename::unvisited(t, c.visited) {
                            lemma_used_from(t, c2, uses::body_uses(body), 0);
                        }
                    },
                    None => {},
                }
            },
            _ => {},
        }
    }
}

proof fn lemma_entered(t: DeclTableV, c: NamesV, name: Seq<char>, body: Seq<StmtV>)
    ensures
        rename::entered(bare_table(t), c, name, layout::bare_stmts(body)) == rename::entered(
            t,
            c,
            name,
            body,
        ),
{
    let c1 = NamesV { visited: c.visited.insert(name), ..c };
    lemma_stmts_uses(body, body.len());
    lemma_used_from(t, rename::given(c1, Kind::Sub, name), uses::body_uses(body), 0);
}

proof fn lemma_known_entered(t: DeclTableV, c: NamesV, n: nat)
    ensures
        rename::known_entered(bare_table(t), c, n) == rename::known_entered(t, c, n),
    decreases n,
{
    if n > 0 {
        lemma_known_entered(t, c, (n - 1) as nat);
        let name = ast::builtin_subs()[n - 1];
        match rename::body_of(t, name) {
            Some(body) => {
                assert(rename::body_of(bare_table(t), name) == Some(layout::bare_stmts(body)));
                lemma_entered(t, rename::known_entered(t, c, (n - 1) as nat), name, body);
            },
            None => {},
        }
    }
}

proof fn lemma_others_entered(t: DeclTableV, c: NamesV, ds: Seq<DeclV>, n: nat)
    requires
        n <= ds.len(),
    ensures
        rename::others_entered(bare_table(t), c, layout::bare_decls(ds), n)
            == rename::others_entered(t, c, ds, n),
    decreases n,
{
    if n > 0 {
        lemma_others_entered(t, c, ds, (n - 1) as nat);
        assert(layout::bare_decls(ds)[n - 1] == layout::bare_decl(ds[n - 1]));
        match ds[n - 1] {
            DeclV::Sub { name, body, .. } => {
                lemma_entered(t, rename::others_entered(t, c, ds, (n - 1) as nat), name, body);
            },
            _ => {},
        }
    }
}

proof fn lemma_dead_key(t: DeclTableV, c: NamesV, d: DeclV)
    ensures
        rename::dead_key(bare_table(t), c, layout::bare_decl(d)) == rename::dead_key(t, c, d),
{
    lemma_renaming_of(t, c);
    let m = rename::renaming_of(t, c).insert(ast::decl_name(d), "$self"@);
    lemma_renamed_decl(d, m);
    layout::law_declaration_form_has_no_places(renaming::renamed_decl(d, m));
}

pub(crate) proof fn lemma_renaming_of(t: DeclTableV, c: NamesV)
    ensures
        rename::renaming_of(bare_table(t), c) == rename::renaming_of(t, c),
{
    assert(rename::renaming_of(bare_table(t), c) =~= rename::renaming_of(t, c));
}

proof fn lemma_dead_first(t: DeclTableV, c: NamesV, k: Kind, ds: Seq<DeclV>, n: nat)
    requires
        n <= ds.len(),
    ensures
        rename::dead_first(bare_table(t), c, k, layout::bare_decls(ds), n) == rename::dead_first(
            t,
            c,
            k,
            ds,
            n,
        ),
    decreases n,
{
    if n > 0 {
        lemma_dead_first(t, c, k, ds, (n - 1) as nat);
        lemma_dead_key(t, c, ds[n - 1]);
        assert(layout::bare_decls(ds)[n - 1] == layout::bare_decl(ds[n - 1]));
    }
}

proof fn lemma_default_given(t: DeclTableV, c: NamesV, ds: Seq<DeclV>)
    ensures
        rename::default_given(bare_table(t), c, layout::bare_decls(ds)) == rename::default_given(
            t,
            c,
            ds,
        ),
{
    let b = layout::bare_decls(ds);
    lemma_touched(t, c, Kind::Backend, "default"@);
    if rename::has_default(ds, ds.len()) {
        let i = choose|i: int| 0 <= i < ds.len() && rename::is_default(#[trigger] ds[i]);
        assert(rename::is_default(b[i]));
    }
    if rename::has_default(b, b.len()) {
        let i = choose|i: int| 0 <= i < b.len() && rename::is_default(#[trigger] b[i]);
        assert(rename::is_default(ds[i]));
    }
}

/// The canonical names of declarations do not depend on where these stand in
/// the source.
pub proof fn law_names_have_no_places(ds: Seq<DeclV>)
    ensures
        rename::all_names(layout::bare_decls(ds)) == rename::all_names(ds),
        rename::canonical_decls(layout::bare_decls(ds)) == layout::bare_decls(
            rename::canonical_decls(ds),
        ),
{
    let t = rename::decl_table(ds, ds.len());
    lemma_table(ds, ds.len());
    let n = ast::builtin_subs().len();
    lemma_known_entered(t, rename::no_names(), n);
    lemma_others_entered(t, rename::known_entered(t, rename::no_names(), n), ds, ds.len());
    let c0 = rename::names_used(t, ds);
    lemma_dead_first(t, c0, Kind::Probe, ds, ds.len());
    let c1 = rename::dead_given(t, c0, Kind::Probe, ds);
    lemma_default_given(t, c1, ds);
    let c2 = rename::default_given(t, c1, ds);
    lemma_dead_first(t, c2, Kind::Backend, ds, ds.len());
    let c3 = rename::dead_given(t, c2, Kind::Backend, ds);
    lemma_dead_first(t, c3, Kind::Acl, ds, ds.len());
    let c4 = rename::dead_given(t, c3, Kind::Acl, ds);
    lemma_dead_first(t, c4, Kind::Sub, ds, ds.len());
    lemma_renaming_of(t, rename::all_names(ds));
    lemma_renamed_decls(ds, rename::renaming_of(t, rename::all_names(ds)));
}

pub(crate) proof fn lemma_anonymous_names(ds: Seq<DeclV>, n: nat)
    requires
        n <= ds.len(),
    ensures
        rename::anonymous_names(layout::bare_decls(ds), n) == rename::anonymous_names(ds, n),
    decreases n,
{
    if n > 0 {
        lemma_anonymous_names(ds, (n - 1) as nat);
        lemma_anonymous_count(ds, rename::kind_of(ds[n - 1])->0, n);
        assert(layout::bare_decls(ds)[n - 1] == layout::bare_decl(ds[n - 1]));
    }
}

proof fn lemma_anonymous_count(ds: Seq<DeclV>, k: Kind, n: nat)
    requires
        n <= ds.len(),
    ensures
        rename::anonymous_count(layout::bare_decls(ds), k, n) == rename::anonymous_count(ds, k, n),
    decreases n,
{
    if n > 0 {
        lemma_anonymous_count(ds, k, (n - 1) as nat);
        assert(layout::bare_decls(ds)[n - 1] == layout::bare_decl(ds[n - 1]));
    }
}

// ───────────────────────── whole programs ─────────────────────────

/// The names and the order that a prepared program gets do not depend on where
/// its parts stand in the source.
pub proof fn law_finished_without_places(p: ProgramV, rename: bool)
    ensures
        normalize::finished(layout::bare_program(p), rename).decls == layout::bare_decls(
            normalize::finished(p, rename).decls,
        ),
        normalize::finished_names(layout::bare_program(p), rename) == normalize::finished_names(
            p,
            rename,
        ),
{
    passes::lemma_merged_program(p);
    let ds = merge::merged_program(p).decls;
    law_names_have_no_places(ds);
    let m = rename::anonymous_names(ds, ds.len());
    lemma_anonymous_names(ds, ds.len());
    lemma_renamed_decls(ds, m);
    let named = if rename {
        rename::canonical_decls(ds)
    } else {
        renaming::renamed_decls(ds, m)
    };
    passes::lemma_sorted_decls(named);
}

} // verus!
