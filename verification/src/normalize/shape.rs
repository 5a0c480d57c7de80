//! The shape of a program: its statements, operators and literals, without names,
//! places and spellings. It is the same in a program and in its canonical form.

use crate::ast;
use crate::ast::{ArgV, ArmV, DeclV, ErrV, ExprV, ProgramV, ReturnActionV, StmtV};
use crate::canon;
use crate::decimal;
use crate::layout;
use crate::layout::telling;
use crate::normalize;
use crate::normalize::keeping;
use crate::normalize::literals;
use crate::normalize::merge;
use crate::normalize::only_names;
use crate::normalize::probes;
use crate::normalize::renaming;
use crate::normalize::sort;
use crate::readback::prepared;
use crate::text;
use vstd::prelude::*;
use vstd::string::*;

verus! {

/// A number by its value, where it has one.
pub open spec fn shape_number(n: Seq<char>) -> Seq<char> {
    match decimal::decimal_value(n) {
        Some(d) => d.text(),
        None => n,
    }
}

/// An expression without names and spellings.
pub open spec fn shape_expr(e: ExprV) -> ExprV
    decreases e,
{
    match e {
        ExprV::Num(n) => ExprV::Num(shape_number(n)),
        ExprV::Var(_) => ExprV::Var(seq![]),
        ExprV::Call { args, .. } => ExprV::Call { target: seq![], args: shape_args(args) },
        ExprV::Unary { op, expr } => ExprV::Unary { op, expr: Box::new(shape_expr(*expr)) },
        ExprV::Binary { op, lhs, rhs } => ExprV::Binary {
            op,
            lhs: Box::new(shape_expr(*lhs)),
            rhs: Box::new(shape_expr(*rhs)),
        },
        _ => e,
    }
}

/// An argument without names, but for that of its parameter.
pub open spec fn shape_arg(a: ArgV) -> ArgV
    decreases a,
{
    ArgV { name: a.name, value: shape_expr(a.value), span: ast::dummy_span() }
}

/// Arguments without names.
pub open spec fn shape_args(s: Seq<ArgV>) -> Seq<ArgV>
    decreases s,
{
    Seq::new(
        s.len(),
        |i: int|
            if 0 <= i < s.len() {
                shape_arg(s[i])
            } else {
                arbitrary()
            },
    )
}

/// Expressions without names.
pub open spec fn shape_exprs(s: Seq<ExprV>) -> Seq<ExprV> {
    Seq::new(s.len(), |i: int| shape_expr(s[i]))
}

/// A statement without places and without names, but for what is assigned to and what
/// is asked for.
pub open spec fn shape_stmt(s: StmtV) -> StmtV
    decreases s,
{
    let span = ast::dummy_span();
    match s {
        StmtV::Assign { lhs, rhs, .. } => StmtV::Assign { lhs, rhs: shape_expr(rhs), span },
        StmtV::Unset { lhs, .. } => StmtV::Unset { lhs, span },
        StmtV::Call { .. } => StmtV::Call { sub: seq![], span },
        StmtV::Return { action, .. } => StmtV::Return {
            action: match action {
                Some(a) => Some(ReturnActionV { name: a.name, args: shape_exprs(a.args) }),
                None => None,
            },
            span,
        },
        StmtV::Synthetic { value, .. } => StmtV::Synthetic { value: shape_expr(value), span },
        StmtV::If { arms, else_body, .. } => StmtV::If {
            arms: shape_arms(arms),
            else_body: match else_body {
                Some(b) => Some(shape_stmts(b)),
                None => None,
            },
            span,
        },
        StmtV::New { vmod, ctor, args, .. } => StmtV::New {
            name: seq![],
            vmod,
            ctor,
            args: shape_args(args),
            span,
        },
        StmtV::Expr { expr, .. } => StmtV::Expr { expr: shape_expr(expr), span },
    }
}

/// Statements without names.
pub open spec fn shape_stmts(s: Seq<StmtV>) -> Seq<StmtV>
    decreases s,
{
    Seq::new(
        s.len(),
        |i: int|
            if 0 <= i < s.len() {
                shape_stmt(s[i])
            } else {
                arbitrary()
            },
    )
}

/// An arm without names.
pub open spec fn shape_arm(a: ArmV) -> ArmV
    decreases a,
{
    ArmV { cond: shape_expr(a.cond), body: shape_stmts(a.body) }
}

/// Arms without names.
pub open spec fn shape_arms(s: Seq<ArmV>) -> Seq<ArmV>
    decreases s,
{
    Seq::new(
        s.len(),
        |i: int|
            if 0 <= i < s.len() {
                shape_arm(s[i])
            } else {
                arbitrary()
            },
    )
}

// ───────────────────────── literals ─────────────────────────

proof fn lemma_kept_expr(a: ExprV, b: ExprV)
    requires
        keeping::keeps_expr(a, b),
    ensures
        shape_expr(a) == shape_expr(b),
    decreases a,
{
    match (a, b) {
        (ExprV::Call { args: x, .. }, ExprV::Call { args: y, .. }) => lemma_kept_args(x, y),
        (ExprV::Unary { expr: x, .. }, ExprV::Unary { expr: y, .. }) => lemma_kept_expr(*x, *y),
        (ExprV::Binary { lhs: x, rhs: y, .. }, ExprV::Binary { lhs: z, rhs: w, .. }) => {
            lemma_kept_expr(*x, *z);
            lemma_kept_expr(*y, *w);
        },
        _ => {},
    }
}

proof fn lemma_kept_args(a: Seq<ArgV>, b: Seq<ArgV>)
    requires
        keeping::keeps_args(a, b),
    ensures
        shape_args(a) == shape_args(b),
    decreases a,
{
    assert forall|i: int| 0 <= i < a.len() implies shape_args(a)[i] == shape_args(b)[i] by {
        assert(keeping::keeps_arg(a[i], b[i]));
        lemma_kept_expr(a[i].value, b[i].value);
        assert(shape_args(a)[i] == shape_arg(a[i]) && shape_args(b)[i] == shape_arg(b[i]));
    }
    assert(shape_args(a) =~= shape_args(b));
}

proof fn lemma_kept_stmt(a: StmtV, b: StmtV)
    requires
        keeping::keeps_stmt(a, b),
    ensures
        shape_stmt(a) == shape_stmt(b),
    decreases a,
{
    match (a, b) {
        (StmtV::Assign { rhs: x, .. }, StmtV::Assign { rhs: y, .. }) => lemma_kept_expr(x, y),
        (StmtV::Return { action: Some(x), .. }, StmtV::Return { action: Some(y), .. }) => {
            assert forall|i: int| 0 <= i < x.args.len() implies shape_expr(#[trigger] x.args[i])
                == shape_expr(y.args[i]) by {
                assert(keeping::keeps_expr(x.args[i], y.args[i]));
                lemma_kept_expr(x.args[i], y.args[i]);
            }
            assert(shape_exprs(x.args) =~= shape_exprs(y.args));
        },
        (StmtV::Synthetic { value: x, .. }, StmtV::Synthetic { value: y, .. }) => {
            lemma_kept_expr(x, y);
        },
        (StmtV::If { arms: x, else_body: e, .. }, StmtV::If { arms: y, else_body: f, .. }) => {
            assert forall|i: int| 0 <= i < x.len() implies shape_arms(x)[i] == shape_arms(y)[i] by {
                assert(keeping::keeps_arm(x[i], y[i]));
                lemma_kept_expr(x[i].cond, y[i].cond);
                lemma_kept_stmts(x[i].body, y[i].body);
                assert(shape_arms(x)[i] == shape_arm(x[i]) && shape_arms(y)[i] == shape_arm(y[i]));
            }
            assert(shape_arms(x) =~= shape_arms(y));
            match (e, f) {
                (Some(s), Some(t)) => lemma_kept_stmts(s, t),
                _ => {},
            }
        },
        (StmtV::New { args: x, .. }, StmtV::New { args: y, .. }) => lemma_kept_args(x, y),
        (StmtV::Expr { expr: x, .. }, StmtV::Expr { expr: y, .. }) => lemma_kept_expr(x, y),
        _ => {},
    }
}

proof fn lemma_kept_stmts(a: Seq<StmtV>, b: Seq<StmtV>)
    requires
        keeping::keeps_stmts(a, b),
    ensures
        shape_stmts(a) == shape_stmts(b),
    decreases a,
{
    assert forall|i: int| 0 <= i < a.len() implies shape_stmts(a)[i] == shape_stmts(b)[i] by {
        assert(keeping::keeps_stmt(a[i], b[i]));
        lemma_kept_stmt(a[i], b[i]);
        assert(shape_stmts(a)[i] == shape_stmt(a[i]) && shape_stmts(b)[i] == shape_stmt(b[i]));
    }
    assert(shape_stmts(a) =~= shape_stmts(b));
}

// ───────────────────────── names ─────────────────────────

proof fn lemma_alike_expr(a: ExprV, b: ExprV, m: Map<Seq<char>, Seq<char>>)
    requires
        only_names::alike_expr(a, b, m),
    ensures
        shape_expr(a) == shape_expr(b),
    decreases a,
{
    match (a, b) {
        (ExprV::Call { args: x, .. }, ExprV::Call { args: y, .. }) => lemma_alike_args(x, y, m),
        (ExprV::Unary { expr: x, .. }, ExprV::Unary { expr: y, .. }) => lemma_alike_expr(*x, *y, m),
        (ExprV::Binary { lhs: x, rhs: y, .. }, ExprV::Binary { lhs: z, rhs: w, .. }) => {
            lemma_alike_expr(*x, *z, m);
            lemma_alike_expr(*y, *w, m);
        },
        _ => {},
    }
}

proof fn lemma_alike_args(a: Seq<ArgV>, b: Seq<ArgV>, m: Map<Seq<char>, Seq<char>>)
    requires
        only_names::alike_args(a, b, m),
    ensures
        shape_args(a) == shape_args(b),
    decreases a,
{
    assert forall|i: int| 0 <= i < a.len() implies shape_args(a)[i] == shape_args(b)[i] by {
        assert(only_names::alike_arg(a[i], b[i], m));
        lemma_alike_expr(a[i].value, b[i].value, m);
        assert(shape_args(a)[i] == shape_arg(a[i]) && shape_args(b)[i] == shape_arg(b[i]));
    }
    assert(shape_args(a) =~= shape_args(b));
}

proof fn lemma_alike_stmt(a: StmtV, b: StmtV, m: Map<Seq<char>, Seq<char>>)
    requires
        only_names::alike_stmt(a, b, m),
    ensures
        shape_stmt(a) == shape_stmt(b),
    decreases a,
{
    match (a, b) {
        (StmtV::Assign { rhs: x, .. }, StmtV::Assign { rhs: y, .. }) => lemma_alike_expr(x, y, m),
        (StmtV::Return { action: Some(x), .. }, StmtV::Return { action: Some(y), .. }) => {
            assert forall|i: int| 0 <= i < x.args.len() implies shape_expr(#[trigger] x.args[i])
                == shape_expr(y.args[i]) by {
                assert(only_names::alike_expr(x.args[i], y.args[i], m));
                lemma_alike_expr(x.args[i], y.args[i], m);
            }
            assert(shape_exprs(x.args) =~= shape_exprs(y.args));
        },
        (StmtV::Synthetic { value: x, .. }, StmtV::Synthetic { value: y, .. }) => {
            lemma_alike_expr(x, y, m);
        },
        (StmtV::If { arms: x, else_body: e, .. }, StmtV::If { arms: y, else_body: f, .. }) => {
            assert forall|i: int| 0 <= i < x.len() implies shape_arms(x)[i] == shape_arms(y)[i] by {
                assert(only_names::alike_arm(x[i], y[i], m));
                lemma_alike_expr(x[i].cond, y[i].cond, m);
                lemma_alike_stmts(x[i].body, y[i].body, m);
                assert(shape_arms(x)[i] == shape_arm(x[i]) && shape_arms(y)[i] == shape_arm(y[i]));
            }
            assert(shape_arms(x) =~= shape_arms(y));
            match (e, f) {
                (Some(s), Some(t)) => lemma_alike_stmts(s, t, m),
                _ => {},
            }
        },
        (StmtV::New { args: x, .. }, StmtV::New { args: y, .. }) => lemma_alike_args(x, y, m),
        (StmtV::Expr { expr: x, .. }, StmtV::Expr { expr: y, .. }) => lemma_alike_expr(x, y, m),
        _ => {},
    }
}

proof fn lemma_alike_stmts(a: Seq<StmtV>, b: Seq<StmtV>, m: Map<Seq<char>, Seq<char>>)
    requires
        only_names::alike_stmts(a, b, m),
    ensures
        shape_stmts(a) == shape_stmts(b),
    decreases a,
{
    assert forall|i: int| 0 <= i < a.len() implies shape_stmts(a)[i] == shape_stmts(b)[i] by {
        assert(only_names::alike_stmt(a[i], b[i], m));
        lemma_alike_stmt(a[i], b[i], m);
        assert(shape_stmts(a)[i] == shape_stmt(a[i]) && shape_stmts(b)[i] == shape_stmt(b[i]));
    }
    assert(shape_stmts(a) =~= shape_stmts(b));
}

// ───────────────────────── places ─────────────────────────

proof fn lemma_bare_expr(e: ExprV)
    ensures
        shape_expr(layout::bare_expr(e)) == shape_expr(e),
    decreases e,
{
    match e {
        ExprV::Call { args, .. } => lemma_bare_args(args),
        ExprV::Unary { expr, .. } => lemma_bare_expr(*expr),
        ExprV::Binary { lhs, rhs, .. } => {
            lemma_bare_expr(*lhs);
            lemma_bare_expr(*rhs);
        },
        _ => {},
    }
}

proof fn lemma_bare_args(s: Seq<ArgV>)
    ensures
        shape_args(layout::bare_args(s)) == shape_args(s),
    decreases s,
{
    let t = layout::bare_args(s);
    assert forall|i: int| 0 <= i < s.len() implies shape_args(t)[i] == shape_args(s)[i] by {
        lemma_bare_expr(s[i].value);
        assert(t[i] == layout::bare_arg(s[i]));
        assert(shape_args(t)[i] == shape_arg(t[i]) && shape_args(s)[i] == shape_arg(s[i]));
    }
    assert(shape_args(t) =~= shape_args(s));
}

proof fn lemma_bare_stmt(s: StmtV)
    ensures
        shape_stmt(layout::bare_stmt(s)) == shape_stmt(s),
    decreases s,
{
    match s {
        StmtV::Assign { rhs, .. } => lemma_bare_expr(rhs),
        StmtV::Return { action: Some(x), .. } => {
            let y = layout::bare_action(x);
            assert forall|i: int| 0 <= i < x.args.len() implies shape_expr(#[trigger] x.args[i])
                == shape_expr(y.args[i]) by {
                lemma_bare_expr(x.args[i]);
            }
            assert(shape_exprs(x.args) =~= shape_exprs(y.args));
        },
        StmtV::Synthetic { value, .. } => lemma_bare_expr(value),
        StmtV::If { arms, else_body, .. } => {
            let y = layout::bare_arms(arms);
            assert forall|i: int| 0 <= i < arms.len() implies shape_arms(y)[i] == shape_arms(
                arms,
            )[i] by {
                lemma_bare_expr(arms[i].cond);
                lemma_bare_stmts(arms[i].body);
                assert(y[i] == layout::bare_arm(arms[i]));
                assert(shape_arms(arms)[i] == shape_arm(arms[i]) && shape_arms(y)[i] == shape_arm(
                    y[i],
                ));
            }
            assert(shape_arms(y) =~= shape_arms(arms));
            match else_body {
                Some(b) => lemma_bare_stmts(b),
                None => {},
            }
        },
        StmtV::New { args, .. } => lemma_bare_args(args),
        StmtV::Expr { expr, .. } => lemma_bare_expr(expr),
        _ => {},
    }
}

proof fn lemma_bare_stmts(s: Seq<StmtV>)
    ensures
        shape_stmts(layout::bare_stmts(s)) == shape_stmts(s),
    decreases s,
{
    let t = layout::bare_stmts(s);
    assert forall|i: int| 0 <= i < s.len() implies shape_stmts(t)[i] == shape_stmts(s)[i] by {
        lemma_bare_stmt(s[i]);
        assert(t[i] == layout::bare_stmt(s[i]));
        assert(shape_stmts(t)[i] == shape_stmt(t[i]) && shape_stmts(s)[i] == shape_stmt(s[i]));
    }
    assert(shape_stmts(t) =~= shape_stmts(s));
}

// ───────────────────────── whole programs ─────────────────────────

proof fn lemma_shapes_added(a: Seq<StmtV>, b: Seq<StmtV>)
    ensures
        shape_stmts(a + b) == shape_stmts(a) + shape_stmts(b),
{
    let c = a + b;
    assert forall|i: int| 0 <= i < c.len() implies shape_stmts(c)[i] == (shape_stmts(a)
        + shape_stmts(b))[i] by {
        assert(shape_stmts(c)[i] == shape_stmt(c[i]));
        if i < a.len() {
            assert(shape_stmts(a)[i] == shape_stmt(a[i]));
        } else {
            assert(shape_stmts(b)[i - a.len()] == shape_stmt(b[i - a.len()]));
        }
    }
    assert(shape_stmts(c) =~= shape_stmts(a) + shape_stmts(b));
}

/// A program behind the passes before the renaming, where no vmod is described.
spec fn ready(p: ProgramV) -> ProgramV {
    probes::lifted_program(literals::lit_program(p))
}

proof fn lemma_ready(p: ProgramV, i: int)
    requires
        0 <= i < p.decls.len(),
    ensures
        p.decls.len() <= ready(p).decls.len(),
        match (p.decls[i], ready(p).decls[i]) {
            (DeclV::Sub { name: a, body: x, .. }, DeclV::Sub { name: b, body: y, .. }) => a == b
                && shape_stmts(x) == shape_stmts(y),
            (DeclV::Sub { .. }, _) => false,
            (_, DeclV::Sub { .. }) => false,
            _ => true,
        },
{
    let l = literals::lit_program(p);
    keeping::law_programs_say_what_they_said(p);
    assert(keeping::keeps_decl(p.decls[i], l.decls[i]));
    assert(ready(p).decls[i] == probes::lifted_decl(l.decls, i));
    match (p.decls[i], l.decls[i]) {
        (DeclV::Sub { body: x, .. }, DeclV::Sub { body: y, .. }) => lemma_kept_stmts(x, y),
        _ => {},
    }
}

proof fn lemma_field_probes(fs: Seq<ast::FieldV>, n: nat, base: nat)
    requires
        n <= fs.len(),
    ensures
        forall|i: int|
            0 <= i < probes::field_probes(fs, n, base).len() ==> #[trigger] probes::field_probes(
                fs,
                n,
                base,
            )[i] is Probe,
    decreases n,
{
    if n > 0 {
        lemma_field_probes(fs, (n - 1) as nat, base);
    }
}

proof fn lemma_all_probes(ds: Seq<DeclV>, n: nat)
    requires
        n <= ds.len(),
    ensures
        forall|i: int|
            0 <= i < probes::all_probes(ds, n).len() ==> #[trigger] probes::all_probes(ds, n)[i]
                is Probe,
    decreases n,
{
    if n > 0 {
        lemma_all_probes(ds, (n - 1) as nat);
        let before = probes::all_probes(ds, (n - 1) as nat);
        let fs = probes::backend_fields(ds[n - 1]);
        lemma_field_probes(fs, fs.len(), before.len());
        let more = probes::field_probes(fs, fs.len(), before.len());
        let all = probes::all_probes(ds, n);
        assert forall|i: int| 0 <= i < all.len() implies #[trigger] all[i] is Probe by {
            if i < before.len() {
                assert(all[i] == before[i]);
            } else {
                assert(all[i] == more[i - before.len()]);
            }
        }
    }
}

proof fn lemma_pieces(p: ProgramV, name: Seq<char>, n: nat)
    requires
        n <= ready(p).decls.len(),
    ensures
        shape_stmts(merge::pieces(ready(p).decls, name, n)) == shape_stmts(
            merge::pieces(
                p.decls,
                name,
                if n <= p.decls.len() {
                    n
                } else {
                    p.decls.len()
                },
            ),
        ),
    decreases n,
{
    if n > 0 {
        let q = ready(p).decls;
        lemma_pieces(p, name, (n - 1) as nat);
        let before = merge::pieces(q, name, (n - 1) as nat);
        if n <= p.decls.len() {
            lemma_ready(p, n - 1);
            let ours = merge::pieces(p.decls, name, (n - 1) as nat);
            match (p.decls[n - 1], q[n - 1]) {
                (DeclV::Sub { body: x, .. }, DeclV::Sub { body: y, .. }) => {
                    lemma_shapes_added(before, y);
                    lemma_shapes_added(ours, x);
                },
                _ => {},
            }
        } else {
            let l = literals::lit_program(p).decls;
            lemma_all_probes(l, l.len());
            assert(q[n - 1] == probes::all_probes(l, l.len())[n - 1 - l.len()]);
        }
    }
}

proof fn lemma_same_items(a: Seq<DeclV>, b: Seq<DeclV>, i: int) -> (k: int)
    requires
        a.to_multiset() == b.to_multiset(),
        0 <= i < a.len(),
    ensures
        0 <= k < b.len(),
        b[k] == a[i],
{
    a.to_multiset_ensures();
    b.to_multiset_ensures();
    assert(a.contains(a[i]));
    assert(a.to_multiset().count(a[i]) > 0);
    assert(b.to_multiset().count(a[i]) > 0);
    assert(b.contains(a[i]));
    choose|k: int| 0 <= k < b.len() && b[k] == a[i]
}

/// The declarations of a joined program under their new names.
spec fn named(p: ProgramV, rename: bool) -> Seq<DeclV> {
    renaming::renamed_decls(merge::merged_program(p).decls, only_names::new_names(p, rename))
}

proof fn lemma_finished(p: ProgramV, rename: bool)
    ensures
        normalize::finished(p, rename).decls.to_multiset() == named(p, rename).to_multiset(),
{
    sort::law_decls_are_kept(named(p, rename));
    assert(normalize::finished(p, rename).decls == sort::sorted_decls(named(p, rename)));
}

proof fn lemma_in_finished(p: ProgramV, rename: bool, i: int) -> (k: int)
    requires
        0 <= i < merge::merged_program(p).decls.len(),
    ensures
        0 <= k < normalize::finished(p, rename).decls.len(),
        normalize::finished(p, rename).decls[k] == renaming::renamed_decl(
            merge::merged_program(p).decls[i],
            only_names::new_names(p, rename),
        ),
{
    lemma_finished(p, rename);
    lemma_same_items(named(p, rename), normalize::finished(p, rename).decls, i)
}

proof fn lemma_from_finished(p: ProgramV, rename: bool, k: int) -> (i: int)
    requires
        0 <= k < normalize::finished(p, rename).decls.len(),
    ensures
        0 <= i < merge::merged_program(p).decls.len(),
        normalize::finished(p, rename).decls[k] == renaming::renamed_decl(
            merge::merged_program(p).decls[i],
            only_names::new_names(p, rename),
        ),
{
    lemma_finished(p, rename);
    lemma_same_items(normalize::finished(p, rename).decls, named(p, rename), k)
}

/// Whether two subroutines have one shape and are called alike under their new names.
pub open spec fn corresponding(
    a: DeclV,
    m: Map<Seq<char>, Seq<char>>,
    b: DeclV,
    n: Map<Seq<char>, Seq<char>>,
) -> bool {
    match (a, b) {
        (DeclV::Sub { name: v, body: x, .. }, DeclV::Sub { name: w, body: y, .. }) => shape_stmts(x)
            == shape_stmts(y) && exists|c: Seq<char>| #[trigger]
            only_names::called(v, c, m) && only_names::called(w, c, n),
        _ => false,
    }
}

proof fn lemma_corresponding(
    a: DeclV,
    m: Map<Seq<char>, Seq<char>>,
    b: DeclV,
    n: Map<Seq<char>, Seq<char>>,
)
    requires
        a is Sub,
        layout::bare_decl(renaming::renamed_decl(a, m)) == layout::bare_decl(
            renaming::renamed_decl(b, n),
        ),
    ensures
        corresponding(a, m, b, n),
{
    let f = renaming::renamed_decl(a, m);
    let g = renaming::renamed_decl(b, n);
    assert(g is Sub);
    assert(b is Sub);
    only_names::law_renaming_changes_names_only(a, m);
    only_names::law_renaming_changes_names_only(b, n);
    lemma_alike_stmts(a->Sub_body, f->Sub_body, m);
    lemma_alike_stmts(b->Sub_body, g->Sub_body, n);
    lemma_bare_stmts(f->Sub_body);
    lemma_bare_stmts(g->Sub_body);
    assert(only_names::called(a->Sub_name, f->Sub_name, m));
    assert(only_names::called(b->Sub_name, g->Sub_name, n));
}

/// Whether a declaration is a subroutine as it is called now, with the shape of the
/// pieces of it that a program declares.
pub open spec fn holds_pieces(
    p: ProgramV,
    name: Seq<char>,
    m: Map<Seq<char>, Seq<char>>,
    d: DeclV,
) -> bool {
    d matches DeclV::Sub { name: n, body, .. } && only_names::called(name, n, m) && shape_stmts(
        body,
    ) == shape_stmts(merge::pieces(p.decls, name, p.decls.len()))
}

/// The pieces of a builtin subroutine stand in the canonical form, one behind the other
/// and with all their statements, operators and literals in their places.
pub proof fn law_canonical_form_keeps_the_shape(p: ProgramV, rename: bool, name: Seq<char>)
    requires
        ast::builtin_name(name),
        merge::declared(p.decls, name, p.decls.len()),
    ensures
        match normalize::prepared(p, Map::empty()) {
            Ok(q) => exists|k: int|
                0 <= k < normalize::finished(q, rename).decls.len() && #[trigger] holds_pieces(
                    p,
                    name,
                    only_names::new_names(q, rename),
                    normalize::finished(q, rename).decls[k],
                ),
            Err(_) => false,
        },
{
    prepared::law_calls_stay_without_descriptions(p);
    let q = ready(p);
    assert(normalize::prepared(p, Map::empty()) == Ok::<ProgramV, ErrV>(q));
    let j = choose|j: int| 0 <= j < p.decls.len() && merge::is_sub(#[trigger] p.decls[j], name);
    lemma_ready(p, j);
    assert(merge::is_sub(q.decls[j], name));
    merge::law_pieces_are_joined(q, name);
    let all = merge::merged_program(q).decls;
    let i = choose|i: int|
        0 <= i < all.len() && merge::is_sub(#[trigger] all[i], name) && all[i]->Sub_body
            == merge::pieces(q.decls, name, q.decls.len());
    let m = only_names::new_names(q, rename);
    let k = lemma_in_finished(q, rename, i);
    only_names::law_renaming_changes_names_only(all[i], m);
    lemma_alike_stmts(
        all[i]->Sub_body,
        renaming::renamed_decl(all[i], m)->Sub_body,
        m,
    );
    lemma_pieces(p, name, q.decls.len());
    assert(p.decls.len() <= q.decls.len());
    assert(holds_pieces(p, name, m, renaming::renamed_decl(all[i], m)));
    assert(holds_pieces(p, name, m, normalize::finished(q, rename).decls[k]));
    match normalize::prepared(p, Map::empty()) {
        Ok(x) => {
            assert(x == q);
            assert(holds_pieces(
                p,
                name,
                only_names::new_names(x, rename),
                normalize::finished(x, rename).decls[k],
            ));
        },
        Err(_) => {
            assert(false);
        },
    }
}

/// Two programs with one canonical form have the same statements, operators and
/// literals in corresponding places: to each subroutine of the one, with its pieces
/// joined, the other has one of the same shape, and both are called alike.
pub proof fn law_one_form_one_shape(p: ProgramV, q: ProgramV, rename: bool, i: int)
    requires
        telling::lowest_decls(normalize::finished(p, rename).decls),
        telling::lowest_decls(normalize::finished(q, rename).decls),
        canon::program_json(normalize::finished(p, rename)) == canon::program_json(
            normalize::finished(q, rename),
        ),
        0 <= i < merge::merged_program(p).decls.len(),
        merge::merged_program(p).decls[i] is Sub,
    ensures
        exists|j: int|
            0 <= j < merge::merged_program(q).decls.len() && corresponding(
                merge::merged_program(p).decls[i],
                only_names::new_names(p, rename),
                #[trigger] merge::merged_program(q).decls[j],
                only_names::new_names(q, rename),
            ),
{
    let f = normalize::finished(p, rename);
    let g = normalize::finished(q, rename);
    telling::law_canonical_form_tells_all(f, g);
    let a = merge::merged_program(p).decls[i];
    let k = lemma_in_finished(p, rename, i);
    assert(layout::bare_decls(f.decls)[k] == layout::bare_decl(f.decls[k]));
    assert(layout::bare_decls(f.decls).len() == layout::bare_decls(g.decls).len());
    assert(layout::bare_decls(g.decls)[k] == layout::bare_decl(g.decls[k]));
    let j = lemma_from_finished(q, rename, k);
    let b = merge::merged_program(q).decls[j];
    lemma_corresponding(
        a,
        only_names::new_names(p, rename),
        b,
        only_names::new_names(q, rename),
    );
    assert(merge::merged_program(q).decls[j] == b);
}

} // verus!
