//! What holds of a program in which no error is found.

use crate::ast;
use crate::ast::{ArgV, ArmV, DeclV, ExprV, FieldV, ProgramV, Span, StmtV};
use crate::symbols;
use crate::symbols::{DeclKind, EnvV};
use crate::uses;
use crate::uses::UseV;
use crate::vmod::VmodSpec;
use crate::normalize::objects;
use crate::normalize::vmod_args::InstanceV;
use vstd::prelude::*;

verus! {

proof fn lemma_declaring(ds: Seq<DeclV>, i: nat, j: int)
    requires
        symbols::declaring_from(ds, i).error is None,
        i <= j < ds.len(),
    ensures
        symbols::declaring(ds, j).error is None,
    decreases ds.len() - i,
{
    if i < j {
        lemma_declaring(ds, i + 1, j);
    }
}

/// Where no error is found, no backend, probe or ACL is declared twice, nor a
/// subroutine that is not builtin.
pub proof fn law_no_name_is_declared_twice(
    p: ProgramV,
    specs: Map<Seq<char>, VmodSpec>,
    i: int,
    j: int,
)
    requires
        symbols::outcome(p, specs).error is None,
        0 <= i < j < p.decls.len(),
        symbols::decl_kind(p.decls[i]) == symbols::decl_kind(p.decls[j]),
        ast::decl_name(p.decls[i]) == ast::decl_name(p.decls[j]),
    ensures
        p.decls[i] is Import || (p.decls[i] is Sub && ast::builtin_name(
            ast::decl_name(p.decls[i]),
        )),
{
    lemma_declaring(p.decls, 0, j);
    assert(symbols::declares(
        p.decls,
        j as nat,
        symbols::decl_kind(p.decls[j]),
        ast::decl_name(p.decls[j]),
    ));
}

proof fn lemma_decl(ds: Seq<DeclV>, i: nat, v: EnvV, j: int)
    requires
        symbols::decls_outcome(ds, i, v).error is None,
        i <= j < ds.len(),
    ensures
        symbols::decl_outcome(ds[j], v).error is None,
    decreases ds.len() - i,
{
    if i < j {
        lemma_decl(ds, i + 1, v, j);
    }
}

// ───────────────────────── calls ─────────────────────────

/// Whether a subroutine can be called: it is declared, and not builtin.
pub open spec fn callable(ds: Seq<DeclV>, name: Seq<char>) -> bool {
    symbols::declares(ds, ds.len(), DeclKind::Sub, name) && !ast::builtin_name(name)
}

proof fn lemma_no_sub_in_expr(e: ExprV, n: Seq<char>)
    ensures
        !uses::expr_uses(e).contains(UseV::Sub(n)),
        !uses::expr_uses(e).contains(UseV::Object(n)),
    decreases e,
{
    match e {
        ExprV::Call { target, args } => {
            lemma_no_sub_in_args(args, args.len(), n);
            lemma_apart(uses::head_uses(target), uses::args_uses(args, args.len()), n);
        },
        ExprV::Unary { expr, .. } => lemma_no_sub_in_expr(*expr, n),
        ExprV::Binary { lhs, rhs, .. } => {
            lemma_no_sub_in_expr(*lhs, n);
            lemma_no_sub_in_expr(*rhs, n);
            lemma_apart(uses::expr_uses(*lhs), uses::expr_uses(*rhs), n);
        },
        _ => {},
    }
}

proof fn lemma_apart(a: Seq<UseV>, b: Seq<UseV>, n: Seq<char>)
    ensures
        (a + b).contains(UseV::Sub(n)) <==> a.contains(UseV::Sub(n)) || b.contains(UseV::Sub(n)),
        (a + b).contains(UseV::Object(n)) <==> a.contains(UseV::Object(n)) || b.contains(
            UseV::Object(n),
        ),
{
    lemma_contains_add(a, b, UseV::Sub(n));
    lemma_contains_add(a, b, UseV::Object(n));
}

proof fn lemma_contains_add(a: Seq<UseV>, b: Seq<UseV>, x: UseV)
    ensures
        (a + b).contains(x) <==> a.contains(x) || b.contains(x),
{
    let t = a + b;
    if a.contains(x) {
        let i = choose|i: int| 0 <= i < a.len() && a[i] == x;
        assert(t[i] == x);
    }
    if b.contains(x) {
        let i = choose|i: int| 0 <= i < b.len() && b[i] == x;
        assert(t[a.len() + i] == x);
    }
    if t.contains(x) {
        let i = choose|i: int| 0 <= i < t.len() && t[i] == x;
        if i < a.len() {
            assert(a[i] == x);
        } else {
            assert(b[i - a.len()] == x);
        }
    }
}

proof fn lemma_no_sub_in_args(args: Seq<ArgV>, k: nat, n: Seq<char>)
    requires
        k <= args.len(),
    ensures
        !uses::args_uses(args, k).contains(UseV::Sub(n)),
        !uses::args_uses(args, k).contains(UseV::Object(n)),
    decreases args, k,
{
    if k > 0 {
        lemma_no_sub_in_args(args, (k - 1) as nat, n);
        lemma_no_sub_in_expr(args[k - 1].value, n);
        lemma_apart(
            uses::args_uses(args, (k - 1) as nat),
            uses::expr_uses(args[k - 1].value),
            n,
        );
    }
}

proof fn lemma_no_sub_in_exprs(es: Seq<ExprV>, k: nat, n: Seq<char>)
    requires
        k <= es.len(),
    ensures
        !uses::exprs_uses(es, k).contains(UseV::Sub(n)),
        !uses::exprs_uses(es, k).contains(UseV::Object(n)),
    decreases k,
{
    if k > 0 {
        lemma_no_sub_in_exprs(es, (k - 1) as nat, n);
        lemma_no_sub_in_expr(es[k - 1], n);
        lemma_apart(uses::exprs_uses(es, (k - 1) as nat), uses::expr_uses(es[k - 1]), n);
    }
}

proof fn lemma_stmt_at(ss: Seq<StmtV>, i: nat, v: EnvV, j: int)
    requires
        symbols::stmts_outcome(ss, i, v).error is None,
        i <= j < ss.len(),
    ensures
        symbols::stmt_outcome(ss[j], v).error is None,
    decreases ss.len() - i,
{
    if i < j {
        lemma_stmt_at(ss, i + 1, v, j);
    }
}

proof fn lemma_arm_at(arms: Seq<ArmV>, i: nat, span: Span, v: EnvV, j: int)
    requires
        symbols::arms_outcome(arms, i, span, v).error is None,
        i <= j < arms.len(),
    ensures
        symbols::stmts_outcome(arms[j].body, 0, v).error is None,
    decreases arms.len() - i,
{
    if i < j {
        lemma_arm_at(arms, i + 1, span, v, j);
    }
}

proof fn lemma_stmt_calls(s: StmtV, v: EnvV, n: Seq<char>)
    requires
        symbols::stmt_outcome(s, v).error is None,
        uses::stmt_uses(s).contains(UseV::Sub(n)),
    ensures
        callable(v.decls, n),
    decreases s,
{
    match s {
        StmtV::Assign { rhs, .. } => lemma_no_sub_in_expr(rhs, n),
        StmtV::Call { sub, .. } => {
            let i = choose|i: int|
                0 <= i < uses::stmt_uses(s).len() && uses::stmt_uses(s)[i] == UseV::Sub(n);
            assert(sub == n);
        },
        StmtV::Return { action: Some(a), .. } => lemma_no_sub_in_exprs(a.args, a.args.len(), n),
        StmtV::Synthetic { value, .. } => lemma_no_sub_in_expr(value, n),
        StmtV::If { arms, else_body, span } => {
            let a = uses::arms_uses(arms, arms.len());
            match else_body {
                Some(b) => {
                    lemma_apart(a, uses::stmts_uses(b, b.len()), n);
                    if uses::stmts_uses(b, b.len()).contains(UseV::Sub(n)) {
                        lemma_stmts_call(b, v, b.len(), n);
                    } else {
                        lemma_arms_call(arms, span, v, arms.len(), n);
                    }
                },
                None => lemma_arms_call(arms, span, v, arms.len(), n),
            }
        },
        StmtV::New { name, args, .. } => {
            lemma_no_sub_in_args(args, args.len(), n);
            lemma_apart(seq![UseV::Object(name)], uses::args_uses(args, args.len()), n);
        },
        StmtV::Expr { expr, .. } => lemma_no_sub_in_expr(expr, n),
        _ => {},
    }
}

proof fn lemma_stmts_call(ss: Seq<StmtV>, v: EnvV, k: nat, n: Seq<char>)
    requires
        symbols::stmts_outcome(ss, 0, v).error is None,
        k <= ss.len(),
        uses::stmts_uses(ss, k).contains(UseV::Sub(n)),
    ensures
        callable(v.decls, n),
    decreases ss, k,
{
    if k > 0 {
        lemma_apart(uses::stmts_uses(ss, (k - 1) as nat), uses::stmt_uses(ss[k - 1]), n);
        if uses::stmt_uses(ss[k - 1]).contains(UseV::Sub(n)) {
            lemma_stmt_at(ss, 0, v, k - 1);
            lemma_stmt_calls(ss[k - 1], v, n);
        } else {
            lemma_stmts_call(ss, v, (k - 1) as nat, n);
        }
    }
}

proof fn lemma_arms_call(arms: Seq<ArmV>, span: Span, v: EnvV, k: nat, n: Seq<char>)
    requires
        symbols::arms_outcome(arms, 0, span, v).error is None,
        k <= arms.len(),
        uses::arms_uses(arms, k).contains(UseV::Sub(n)),
    ensures
        callable(v.decls, n),
    decreases arms, k,
{
    if k > 0 {
        let a = arms[k - 1];
        let here = uses::expr_uses(a.cond) + uses::stmts_uses(a.body, a.body.len());
        lemma_apart(uses::arms_uses(arms, (k - 1) as nat), here, n);
        lemma_apart(uses::expr_uses(a.cond), uses::stmts_uses(a.body, a.body.len()), n);
        lemma_no_sub_in_expr(a.cond, n);
        if uses::stmts_uses(a.body, a.body.len()).contains(UseV::Sub(n)) {
            lemma_arm_at(arms, 0, span, v, k - 1);
            lemma_stmts_call(a.body, v, a.body.len(), n);
        } else {
            lemma_arms_call(arms, span, v, (k - 1) as nat, n);
        }
    }
}

/// Where no error is found, every subroutine that is called is declared, and is
/// not builtin.
pub proof fn law_calls_are_declared(
    p: ProgramV,
    specs: Map<Seq<char>, VmodSpec>,
    i: int,
    name: Seq<char>,
)
    requires
        symbols::outcome(p, specs).error is None,
        0 <= i < p.decls.len(),
        p.decls[i] matches DeclV::Sub { body, .. } && uses::body_uses(body).contains(
            UseV::Sub(name),
        ),
    ensures
        callable(p.decls, name),
{
    let v = EnvV { decls: p.decls, objects: Map::empty(), specs };
    let made = symbols::made_by_decls(p.decls, 0, v);
    let w = symbols::with_objects(v, made.objects);
    lemma_decl(p.decls, 0, w, i);
    let body = p.decls[i]->Sub_body;
    lemma_stmts_call(body, w, body.len(), name);
}

// ───────────────────────── objects ─────────────────────────

proof fn lemma_new_found(ss: Seq<StmtV>, i: nat, k: int, n: Seq<char>)
    requires
        i <= k < ss.len(),
        uses::stmt_uses(ss[k]).contains(UseV::Object(n)),
    ensures
        symbols::first_new(ss, i) is Some,
    decreases ss, ss.len() - i,
{
    if i < k {
        lemma_new_found(ss, i + 1, k, n);
    } else {
        match ss[k] {
            StmtV::Assign { rhs, .. } => lemma_no_sub_in_expr(rhs, n),
            StmtV::Return { action: Some(a), .. } => lemma_no_sub_in_exprs(a.args, a.args.len(), n),
            StmtV::Synthetic { value, .. } => lemma_no_sub_in_expr(value, n),
            StmtV::If { arms, else_body, .. } => {
                let a = uses::arms_uses(arms, arms.len());
                match else_body {
                    Some(b) => {
                        lemma_apart(a, uses::stmts_uses(b, b.len()), n);
                        if uses::stmts_uses(b, b.len()).contains(UseV::Object(n)) {
                            lemma_new_in(b, b.len(), n);
                        } else {
                            lemma_new_in_arms(arms, arms.len(), n);
                        }
                    },
                    None => lemma_new_in_arms(arms, arms.len(), n),
                }
            },
            StmtV::Expr { expr, .. } => lemma_no_sub_in_expr(expr, n),
            _ => {},
        }
    }
}

proof fn lemma_new_in(ss: Seq<StmtV>, k: nat, n: Seq<char>)
    requires
        k <= ss.len(),
        uses::stmts_uses(ss, k).contains(UseV::Object(n)),
    ensures
        symbols::first_new(ss, 0) is Some,
    decreases ss, ss.len() + 1 + k,
{
    if k > 0 {
        lemma_apart(uses::stmts_uses(ss, (k - 1) as nat), uses::stmt_uses(ss[k - 1]), n);
        if uses::stmt_uses(ss[k - 1]).contains(UseV::Object(n)) {
            lemma_new_found(ss, 0, k - 1, n);
        } else {
            lemma_new_in(ss, (k - 1) as nat, n);
        }
    }
}

proof fn lemma_new_in_arms(arms: Seq<ArmV>, k: nat, n: Seq<char>)
    requires
        k <= arms.len(),
        uses::arms_uses(arms, k).contains(UseV::Object(n)),
    ensures
        symbols::first_new_arm(arms, 0) is Some,
    decreases arms, k,
{
    if k > 0 {
        let a = arms[k - 1];
        let here = uses::expr_uses(a.cond) + uses::stmts_uses(a.body, a.body.len());
        lemma_apart(uses::arms_uses(arms, (k - 1) as nat), here, n);
        lemma_apart(uses::expr_uses(a.cond), uses::stmts_uses(a.body, a.body.len()), n);
        lemma_no_sub_in_expr(a.cond, n);
        if uses::stmts_uses(a.body, a.body.len()).contains(UseV::Object(n)) {
            lemma_new_in(a.body, a.body.len(), n);
            lemma_arm_found(arms, 0, k - 1);
        } else {
            lemma_new_in_arms(arms, (k - 1) as nat, n);
        }
    }
}

proof fn lemma_arm_found(arms: Seq<ArmV>, i: nat, k: int)
    requires
        i <= k < arms.len(),
        symbols::first_new(arms[k].body, 0) is Some,
    ensures
        symbols::first_new_arm(arms, i) is Some,
    decreases arms.len() - i,
{
    if i < k {
        lemma_arm_found(arms, i + 1, k);
    }
}

proof fn lemma_made(ds: Seq<DeclV>, i: nat, v: EnvV, j: int)
    requires
        symbols::made_by_decls(ds, i, v).found.error is None,
        i <= j < ds.len(),
    ensures
        exists|w: EnvV| (#[trigger] symbols::made_by_decl(ds, j, w)).found.error is None,
    decreases ds.len() - i,
{
    let here = symbols::made_by_decl(ds, i as int, v);
    if i < j {
        lemma_made(ds, i + 1, symbols::with_objects(v, here.objects), j);
    }
}

/// Where no error is found, vmod objects are made only by subroutines that are
/// reached from `vcl_init`.
pub proof fn law_objects_are_made_at_start(
    p: ProgramV,
    specs: Map<Seq<char>, VmodSpec>,
    i: int,
    name: Seq<char>,
)
    requires
        symbols::outcome(p, specs).error is None,
        0 <= i < p.decls.len(),
        p.decls[i] matches DeclV::Sub { body, .. } && uses::body_uses(body).contains(
            UseV::Object(name),
        ),
    ensures
        symbols::reachable(p.decls, ast::decl_name(p.decls[i])),
{
    let v = EnvV { decls: p.decls, objects: Map::empty(), specs };
    lemma_made(p.decls, 0, v, i);
    let w = choose|w: EnvV|
        (#[trigger] symbols::made_by_decl(p.decls, i, w)).found.error is None;
    let body = p.decls[i]->Sub_body;
    lemma_new_in(body, body.len(), name);
}

/// Whether all that one table holds is in another.
spec fn holds_all(a: Map<Seq<char>, InstanceV>, b: Map<Seq<char>, InstanceV>) -> bool {
    forall|n: Seq<char>| #[trigger] a.contains_key(n) ==> b.contains_key(n) && b[n] == a[n]
}

proof fn lemma_made_here(s: StmtV, v: EnvV)
    requires
        symbols::made_here(s, v).found.error is None,
    ensures
        holds_all(v.objects, symbols::made_here(s, v).objects),
        forall|n: Seq<char>, o: InstanceV|
            #[trigger] objects::makes_stmt(s, n, o) ==> symbols::made_here(
                s,
                v,
            ).objects.contains_key(n) && symbols::made_here(s, v).objects[n] == o,
    decreases s, 0nat,
{
    match s {
        StmtV::If { arms, else_body, .. } => {
            let a = symbols::made_in_arms(arms, 0, v);
            lemma_made_in_arms(arms, 0, v);
            match else_body {
                Some(b) => {
                    let w = symbols::with_objects(v, a.objects);
                    lemma_made_from(b, 0, w);
                    let r = symbols::made_here(s, v).objects;
                    assert(r == symbols::made_from(b, 0, w).objects);
                    assert forall|n: Seq<char>, o: InstanceV| #[trigger] objects::makes_stmt(
                        s,
                        n,
                        o,
                    ) implies r.contains_key(n) && r[n] == o by {
                        if objects::makes(b, n, o) {
                            let j = choose|j: int|
                                0 <= j < b.len() && objects::makes_stmt(#[trigger] b[j], n, o);
                            assert(objects::makes_stmt(b[j], n, o));
                        } else {
                            let j = choose|j: int|
                                0 <= j < arms.len() && objects::makes(
                                    (#[trigger] arms[j]).body,
                                    n,
                                    o,
                                );
                            assert(objects::makes(arms[j].body, n, o));
                            assert(a.objects.contains_key(n));
                        }
                    }
                },
                None => {
                    assert forall|n: Seq<char>, o: InstanceV| #[trigger] objects::makes_stmt(
                        s,
                        n,
                        o,
                    ) implies a.objects.contains_key(n) && a.objects[n] == o by {
                        let j = choose|j: int|
                            0 <= j < arms.len() && objects::makes(
                                (#[trigger] arms[j]).body,
                                n,
                                o,
                            );
                        assert(objects::makes(arms[j].body, n, o));
                    }
                },
            }
        },
        _ => {},
    }
}

proof fn lemma_made_from(ss: Seq<StmtV>, i: nat, v: EnvV)
    requires
        symbols::made_from(ss, i, v).found.error is None,
    ensures
        holds_all(v.objects, symbols::made_from(ss, i, v).objects),
        forall|j: int, n: Seq<char>, o: InstanceV|
            i <= j < ss.len() && #[trigger] objects::makes_stmt(ss[j], n, o)
                ==> symbols::made_from(ss, i, v).objects.contains_key(n) && symbols::made_from(
                ss,
                i,
                v,
            ).objects[n] == o,
    decreases ss, ss.len() - i,
{
    if i < ss.len() {
        let here = symbols::made_here(ss[i as int], v);
        let w = symbols::with_objects(v, here.objects);
        let r = symbols::made_from(ss, i, v).objects;
        lemma_made_here(ss[i as int], v);
        lemma_made_from(ss, i + 1, w);
        assert(r == symbols::made_from(ss, i + 1, w).objects);
        assert forall|j: int, n: Seq<char>, o: InstanceV|
            i <= j < ss.len() && #[trigger] objects::makes_stmt(ss[j], n, o) implies r.contains_key(
            n,
        ) && r[n] == o by {
            if j == i {
                assert(here.objects.contains_key(n));
            }
        }
        assert forall|n: Seq<char>| #[trigger] v.objects.contains_key(n) implies r.contains_key(n)
            && r[n] == v.objects[n] by {
            assert(here.objects.contains_key(n));
        }
    }
}

proof fn lemma_made_in_arms(arms: Seq<ArmV>, i: nat, v: EnvV)
    requires
        symbols::made_in_arms(arms, i, v).found.error is None,
    ensures
        holds_all(v.objects, symbols::made_in_arms(arms, i, v).objects),
        forall|j: int, n: Seq<char>, o: InstanceV|
            i <= j < arms.len() && #[trigger] objects::makes(arms[j].body, n, o)
                ==> symbols::made_in_arms(arms, i, v).objects.contains_key(n)
                && symbols::made_in_arms(arms, i, v).objects[n] == o,
    decreases arms, arms.len() - i,
{
    if i < arms.len() {
        let b = arms[i as int].body;
        let here = symbols::made_from(b, 0, v);
        let w = symbols::with_objects(v, here.objects);
        let r = symbols::made_in_arms(arms, i, v).objects;
        lemma_made_from(b, 0, v);
        lemma_made_in_arms(arms, i + 1, w);
        assert(r == symbols::made_in_arms(arms, i + 1, w).objects);
        assert forall|j: int, n: Seq<char>, o: InstanceV|
            i <= j < arms.len() && #[trigger] objects::makes(
                arms[j].body,
                n,
                o,
            ) implies r.contains_key(n) && r[n] == o by {
            if j == i {
                let l = choose|l: int|
                    0 <= l < b.len() && objects::makes_stmt(#[trigger] b[l], n, o);
                assert(objects::makes_stmt(b[l], n, o));
                assert(here.objects.contains_key(n));
            }
        }
        assert forall|n: Seq<char>| #[trigger] v.objects.contains_key(n) implies r.contains_key(n)
            && r[n] == v.objects[n] by {
            assert(here.objects.contains_key(n));
        }
    }
}

proof fn lemma_makes_found(ss: Seq<StmtV>, i: nat, k: int, n: Seq<char>, o: InstanceV)
    requires
        i <= k < ss.len(),
        objects::makes_stmt(ss[k], n, o),
    ensures
        symbols::first_new(ss, i) is Some,
    decreases ss, ss.len() - i,
{
    if i < k {
        lemma_makes_found(ss, i + 1, k, n, o);
    } else {
        match ss[k] {
            StmtV::If { arms, else_body, .. } => {
                if objects::makes_arms(arms, n, o) {
                    let j = choose|j: int|
                        0 <= j < arms.len() && objects::makes((#[trigger] arms[j]).body, n, o);
                    let b = arms[j].body;
                    let l = choose|l: int|
                        0 <= l < b.len() && objects::makes_stmt(#[trigger] b[l], n, o);
                    lemma_makes_found(b, 0, l, n, o);
                    lemma_arm_found(arms, 0, j);
                } else {
                    let b = else_body->0;
                    let l = choose|l: int|
                        0 <= l < b.len() && objects::makes_stmt(#[trigger] b[l], n, o);
                    lemma_makes_found(b, 0, l, n, o);
                }
            },
            _ => {},
        }
    }
}

proof fn lemma_made_by_decls(ds: Seq<DeclV>, i: nat, v: EnvV)
    requires
        symbols::made_by_decls(ds, i, v).found.error is None,
    ensures
        holds_all(v.objects, symbols::made_by_decls(ds, i, v).objects),
        forall|j: int, n: Seq<char>, o: InstanceV|
            i <= j < ds.len() && #[trigger] objects::makes_decl(ds[j], n, o)
                ==> symbols::made_by_decls(ds, i, v).objects.contains_key(n)
                && symbols::made_by_decls(ds, i, v).objects[n] == o,
    decreases ds.len() - i,
{
    if i < ds.len() {
        let here = symbols::made_by_decl(ds, i as int, v);
        let w = symbols::with_objects(v, here.objects);
        let r = symbols::made_by_decls(ds, i, v).objects;
        lemma_made_by_decls(ds, i + 1, w);
        match ds[i as int] {
            DeclV::Sub { name, body, .. } => if symbols::reachable(ds, name) {
                lemma_made_from(body, 0, v);
            },
            _ => {},
        }
        assert forall|j: int, n: Seq<char>, o: InstanceV|
            i <= j < ds.len() && #[trigger] objects::makes_decl(ds[j], n, o) implies r.contains_key(
            n,
        ) && r[n] == o by {
            if j == i {
                let b = ds[j]->Sub_body;
                let l = choose|l: int|
                    0 <= l < b.len() && objects::makes_stmt(#[trigger] b[l], n, o);
                assert(objects::makes_stmt(b[l], n, o));
                if symbols::reachable(ds, ds[j]->Sub_name) {
                    assert(here.objects.contains_key(n));
                } else {
                    lemma_makes_found(b, 0, l, n, o);
                }
            }
        }
        assert forall|n: Seq<char>| #[trigger] v.objects.contains_key(n) implies r.contains_key(n)
            && r[n] == v.objects[n] by {
            assert(here.objects.contains_key(n));
        }
    }
}

/// Where no error is found, all objects of one name are made alike.
pub proof fn law_objects_are_made_alike(p: ProgramV, specs: Map<Seq<char>, VmodSpec>)
    requires
        symbols::outcome(p, specs).error is None,
    ensures
        objects::made_alike(p.decls),
{
    let v = EnvV { decls: p.decls, objects: Map::empty(), specs };
    let r = symbols::made_by_decls(p.decls, 0, v).objects;
    lemma_made_by_decls(p.decls, 0, v);
    assert forall|n: Seq<char>, o: InstanceV, x: InstanceV|
        #[trigger] objects::makes_decls(p.decls, n, o) && #[trigger] objects::makes_decls(
            p.decls,
            n,
            x,
        ) implies o == x by {
        let i = choose|i: int|
            0 <= i < p.decls.len() && objects::makes_decl(#[trigger] p.decls[i], n, o);
        let j = choose|j: int|
            0 <= j < p.decls.len() && objects::makes_decl(#[trigger] p.decls[j], n, x);
        assert(r[n] == o);
        assert(r[n] == x);
    }
}

// ───────────────────────── probes ─────────────────────────

/// Where no error is found, every probe that a backend names is declared.
pub proof fn law_probes_are_declared(
    p: ProgramV,
    specs: Map<Seq<char>, VmodSpec>,
    i: int,
    j: int,
)
    requires
        symbols::outcome(p, specs).error is None,
        0 <= i < p.decls.len(),
        p.decls[i] matches DeclV::Backend { body: Some(fs), .. } && 0 <= j < fs.len()
            && fs[j].value is ProbeRef,
    ensures
        p.decls[i] matches DeclV::Backend { body: Some(fs), .. } && symbols::declares(
            p.decls,
            p.decls.len(),
            DeclKind::Probe,
            fs[j].value->ProbeRef_0,
        ),
{
    let v = EnvV { decls: p.decls, objects: Map::empty(), specs };
    let made = symbols::made_by_decls(p.decls, 0, v);
    let w = symbols::with_objects(v, made.objects);
    lemma_decl(p.decls, 0, w, i);
    let fs = p.decls[i]->Backend_body->0;
    lemma_field_at(fs, 0, w, j);
}

proof fn lemma_field_at(fs: Seq<FieldV>, i: nat, v: EnvV, j: int)
    requires
        symbols::fields_outcome(fs, i, v).error is None,
        i <= j < fs.len(),
    ensures
        symbols::field_outcome(fs[j], v).error is None,
    decreases fs.len() - i,
{
    if i < j {
        lemma_field_at(fs, i + 1, v, j);
    }
}

} // verus!
