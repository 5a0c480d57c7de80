//! Whether something is wrong with a program depends neither on the names in it
//! nor on the order of its declarations.

use crate::ast;
use crate::ast::{ArgV, ArmV, DeclV, ExprV, FieldV, FieldValueV, ProgramV, Span, StmtV};
use crate::normalize::commuting;
use crate::normalize::invariance;
use crate::normalize::renaming;
use crate::normalize::renaming::RenamingV;
use crate::normalize::shuffle;
use crate::normalize::vmod_args;
use crate::normalize::vmod_args::InstanceV;
use crate::symbols;
use crate::symbols::{CalleeV, DeclKind, EnvV, MadeV, OutcomeV};
use crate::uses;
use crate::uses::UseV;
use crate::vmod::{ArgSpecV, VmodSpec};
use vstd::prelude::*;

verus! {

// ───────────────────────── expressions and statements ─────────────────────────

/// Whether both checks end in an error or neither does.
pub open spec fn as_good(a: OutcomeV, b: OutcomeV) -> bool {
    a.error is Some == b.error is Some
}

/// Whether references are looked up in the same, but for the names.
spec fn same_env(m: RenamingV, v: EnvV, u: EnvV) -> bool {
    &&& invariance::one_to_one(m)
    &&& invariance::leaves_kept(m)
    &&& commuting::leaves_vmods(m, v.specs)
    &&& commuting::leaves_sigs(m, v.specs)
    &&& u.specs == v.specs
    &&& commuting::same_instances(m, v.objects, u.objects)
    &&& forall|k: DeclKind, n: Seq<char>| #[trigger]
        symbols::known(v, k, n) == symbols::known(u, k, renaming::new_name(m, n))
    &&& forall|n: Seq<char>| #[trigger]
        symbols::known(v, DeclKind::Import, n) == symbols::known(u, DeclKind::Import, n)
}

proof fn lemma_known(v: EnvV, u: EnvV, k: DeclKind, n: Seq<char>, m: RenamingV)
    requires
        same_env(m, v, u),
    ensures
        symbols::known(u, k, renaming::new_name(m, n)) == symbols::known(v, k, n),
{
    assert(symbols::known(v, k, n) == symbols::known(u, k, renaming::new_name(m, n)));
}

/// The same objects added to the same.
proof fn lemma_with_objects(
    m: RenamingV,
    v: EnvV,
    u: EnvV,
    a: Map<Seq<char>, InstanceV>,
    b: Map<Seq<char>, InstanceV>,
)
    requires
        same_env(m, v, u),
        commuting::same_instances(m, a, b),
    ensures
        same_env(m, symbols::with_objects(v, a), symbols::with_objects(u, b)),
{
    let x = symbols::with_objects(v, a);
    let y = symbols::with_objects(u, b);
    assert forall|k: DeclKind, n: Seq<char>| #[trigger] symbols::known(x, k, n) == symbols::known(
        y,
        k,
        renaming::new_name(m, n),
    ) by {
        lemma_known(v, u, k, n, m);
    }
    assert forall|n: Seq<char>| #[trigger] symbols::known(x, DeclKind::Import, n)
        == symbols::known(y, DeclKind::Import, n) by {
        assert(symbols::known(v, DeclKind::Import, n) == symbols::known(u, DeclKind::Import, n));
    }
}

/// A word is listed where the word that it becomes is.
proof fn lemma_word(ws: Seq<Seq<char>>, n: Seq<char>, m: RenamingV)
    requires
        invariance::one_to_one(m),
        forall|i: int| 0 <= i < ws.len() ==> renaming::new_name(m, #[trigger] ws[i]) == ws[i],
    ensures
        ws.contains(renaming::new_name(m, n)) == ws.contains(n),
{
    let z = renaming::new_name(m, n);
    if ws.contains(n) {
        let i = choose|i: int| 0 <= i < ws.len() && ws[i] == n;
        assert(renaming::new_name(m, ws[i]) == ws[i]);
    }
    if ws.contains(z) {
        let i = choose|i: int| 0 <= i < ws.len() && ws[i] == z;
        assert(renaming::new_name(m, ws[i]) == ws[i]);
        assert(n == z);
    }
}

/// Whether calls are checked in the same way.
spec fn same_callee(m: RenamingV, a: CalleeV, b: CalleeV) -> bool {
    match (a, b) {
        (CalleeV::Known(s), CalleeV::Known(t)) => s == t && commuting::leaves_sig(m, s),
        (CalleeV::Open, CalleeV::Open) => true,
        (CalleeV::Bad(_), CalleeV::Bad(_)) => true,
        _ => false,
    }
}

proof fn lemma_callee(v: EnvV, u: EnvV, target: Seq<Seq<char>>, m: RenamingV)
    requires
        same_env(m, v, u),
    ensures
        same_callee(
            m,
            symbols::callee(v, target),
            symbols::callee(u, renaming::renamed_parts(target, m)),
        ),
{
    if target.len() >= 2 {
        let ns = target[0];
        let x = renaming::new_name(m, ns);
        let r = renaming::renamed_parts(target, m);
        assert(r[0] == x);
        assert(r.last() == target.last());
        lemma_known(v, u, DeclKind::Import, ns, m);
        if v.objects.contains_key(ns) {
            let o = v.objects[ns];
            if v.specs.contains_key(o.vmod) && v.specs[o.vmod].objects@.contains_key(o.ctor) {
                let f = v.specs[o.vmod].objects@[o.ctor].methods@;
                if f.contains_key(target.last()) {
                    assert(commuting::has_sig(v.specs[o.vmod], f[target.last()]@));
                }
            }
        } else if symbols::known(v, DeclKind::Import, ns) {
            if v.specs.contains_key(ns) {
                assert(x == ns);
                let f = v.specs[ns].funcs@;
                if f.contains_key(target.last()) {
                    assert(commuting::has_sig(v.specs[ns], f[target.last()]@));
                }
            } else if v.specs.contains_key(x) {
                assert(renaming::new_name(m, x) == x);
                assert(false);
            }
        }
    }
}

proof fn lemma_misnamed(args: Seq<ArgV>, sig: Seq<ArgSpecV>, i: nat, m: RenamingV)
    ensures
        symbols::misnamed(renaming::renamed_args(args, m), sig, i) == symbols::misnamed(args, sig, i),
    decreases args.len() - i,
{
    if i < args.len() {
        assert(renaming::renamed_args(args, m)[i as int] == renaming::renamed_arg(args[i as int], m));
        lemma_misnamed(args, sig, i + 1, m);
    }
}

proof fn lemma_positional(args: Seq<ArgV>, n: nat, m: RenamingV)
    requires
        n <= args.len(),
    ensures
        symbols::positional(renaming::renamed_args(args, m), n) == symbols::positional(args, n),
    decreases n,
{
    if n > 0 {
        assert(renaming::renamed_args(args, m)[n - 1] == renaming::renamed_arg(args[n - 1], m));
        lemma_positional(args, (n - 1) as nat, m);
    }
}

proof fn lemma_args_fault(args: Seq<ArgV>, sig: Seq<ArgSpecV>, m: RenamingV)
    ensures
        symbols::args_fault(renaming::renamed_args(args, m), sig) == symbols::args_fault(args, sig),
{
    lemma_misnamed(args, sig, 0, m);
    lemma_positional(args, args.len(), m);
    let i = symbols::misnamed(args, sig, 0);
    if i < args.len() {
        assert(renaming::renamed_args(args, m)[i as int] == renaming::renamed_arg(args[i as int], m));
    }
}

proof fn lemma_expr(e: ExprV, x: Span, y: Span, v: EnvV, u: EnvV, m: RenamingV)
    requires
        same_env(m, v, u),
    ensures
        as_good(
            symbols::expr_outcome(e, x, v),
            symbols::expr_outcome(renaming::renamed_expr(e, m), y, u),
        ),
    decreases e, 0nat,
{
    match e {
        ExprV::Var(parts) => if parts.len() == 1 {
            lemma_known(v, u, DeclKind::Backend, parts[0], m);
            lemma_known(v, u, DeclKind::Probe, parts[0], m);
            lemma_known(v, u, DeclKind::Acl, parts[0], m);
        },
        ExprV::Call { target, args } => {
            lemma_callee(v, u, target, m);
            match symbols::callee(v, target) {
                CalleeV::Bad(_) => {},
                CalleeV::Open => lemma_args(args, 0, x, y, v, u, m),
                CalleeV::Known(sig) => {
                    lemma_args_fault(args, sig, m);
                    lemma_slots(args, sig, 0, x, y, v, u, m);
                },
            }
        },
        ExprV::Unary { expr, .. } => lemma_expr(*expr, x, y, v, u, m),
        ExprV::Binary { lhs, rhs, .. } => {
            lemma_expr(*lhs, x, y, v, u, m);
            lemma_expr(*rhs, x, y, v, u, m);
        },
        _ => {},
    }
}

proof fn lemma_args(args: Seq<ArgV>, i: nat, x: Span, y: Span, v: EnvV, u: EnvV, m: RenamingV)
    requires
        same_env(m, v, u),
    ensures
        as_good(
            symbols::args_outcome(args, i, x, v),
            symbols::args_outcome(renaming::renamed_args(args, m), i, y, u),
        ),
    decreases args, args.len() - i,
{
    if i < args.len() {
        assert(renaming::renamed_args(args, m)[i as int] == renaming::renamed_arg(args[i as int], m));
        lemma_expr(args[i as int].value, x, y, v, u, m);
        lemma_args(args, i + 1, x, y, v, u, m);
    }
}

proof fn lemma_slot(args: Seq<ArgV>, sig: Seq<ArgSpecV>, i: int, x: Span, y: Span, v: EnvV, u: EnvV, m: RenamingV)
    requires
        same_env(m, v, u),
        commuting::leaves_sig(m, sig),
        0 <= i < args.len(),
    ensures
        as_good(
            symbols::slot_outcome(args, sig, i, x, v),
            symbols::slot_outcome(renaming::renamed_args(args, m), sig, i, y, u),
        ),
    decreases args, 0nat,
{
    assert(renaming::renamed_args(args, m)[i] == renaming::renamed_arg(args[i], m));
    lemma_positional(args, i as nat, m);
    assert(symbols::allowed(renaming::renamed_args(args, m), sig, i) == symbols::allowed(args, sig, i));
    lemma_expr(args[i].value, x, y, v, u, m);
    match (symbols::allowed(args, sig, i), args[i].value) {
        (Some(values), ExprV::Var(parts)) if parts.len() == 1 => {
            let k = match args[i].name {
                Some(n) => vmod_args::slot_named(sig, n, 0),
                None => symbols::positional(args, i as nat),
            };
            assert(commuting::leaves_slot(m, sig[k as int]));
            lemma_word(values, parts[0], m);
            assert(renaming::renamed_parts(parts, m)[0] == renaming::new_name(m, parts[0]));
        },
        _ => {},
    }
}

proof fn lemma_slots(args: Seq<ArgV>, sig: Seq<ArgSpecV>, i: nat, x: Span, y: Span, v: EnvV, u: EnvV, m: RenamingV)
    requires
        same_env(m, v, u),
        commuting::leaves_sig(m, sig),
    ensures
        as_good(
            symbols::slots_outcome(args, sig, i, x, v),
            symbols::slots_outcome(renaming::renamed_args(args, m), sig, i, y, u),
        ),
    decreases args, 1 + args.len() - i,
{
    if i < args.len() {
        lemma_slot(args, sig, i as int, x, y, v, u, m);
        lemma_slots(args, sig, i + 1, x, y, v, u, m);
    }
}

proof fn lemma_exprs(es: Seq<ExprV>, i: nat, x: Span, y: Span, v: EnvV, u: EnvV, m: RenamingV)
    requires
        same_env(m, v, u),
    ensures
        as_good(
            symbols::exprs_outcome(es, i, x, v),
            symbols::exprs_outcome(renaming::renamed_exprs(es, m), i, y, u),
        ),
    decreases es.len() - i,
{
    if i < es.len() {
        lemma_expr(es[i as int], x, y, v, u, m);
        lemma_exprs(es, i + 1, x, y, v, u, m);
    }
}

proof fn lemma_stmt(s: StmtV, v: EnvV, u: EnvV, m: RenamingV)
    requires
        same_env(m, v, u),
    ensures
        as_good(
            symbols::stmt_outcome(s, v),
            symbols::stmt_outcome(renaming::renamed_stmt(s, m), u),
        ),
    decreases s,
{
    match s {
        StmtV::Assign { rhs, span, .. } => {
            lemma_expr(rhs, span, span, v, u, m);
            match rhs {
                ExprV::Var(parts) => if parts.len() == 1 {
                    lemma_known(v, u, DeclKind::Backend, parts[0], m);
                    assert(renaming::renamed_parts(parts, m)[0] == renaming::new_name(m, parts[0]));
                },
                _ => {},
            }
        },
        StmtV::Call { sub, .. } => {
            let z = renaming::new_name(m, sub);
            lemma_known(v, u, DeclKind::Sub, sub, m);
            if ast::builtin_name(sub) {
                assert(z == sub);
            } else if ast::builtin_name(z) {
                assert(renaming::new_name(m, z) == z);
                assert(false);
            }
        },
        StmtV::Return { action: Some(a), span } => lemma_exprs(a.args, 0, span, span, v, u, m),
        StmtV::Synthetic { value, span } => lemma_expr(value, span, span, v, u, m),
        StmtV::If { arms, else_body, span } => {
            lemma_arms(arms, 0, span, span, v, u, m);
            match else_body {
                Some(b) => lemma_stmts(b, 0, v, u, m),
                None => {},
            }
        },
        StmtV::Expr { expr, span } => lemma_expr(expr, span, span, v, u, m),
        _ => {},
    }
}

proof fn lemma_stmts(ss: Seq<StmtV>, i: nat, v: EnvV, u: EnvV, m: RenamingV)
    requires
        same_env(m, v, u),
    ensures
        as_good(
            symbols::stmts_outcome(ss, i, v),
            symbols::stmts_outcome(renaming::renamed_stmts(ss, m), i, u),
        ),
    decreases ss, ss.len() - i,
{
    if i < ss.len() {
        assert(renaming::renamed_stmts(ss, m)[i as int] == renaming::renamed_stmt(ss[i as int], m));
        lemma_stmt(ss[i as int], v, u, m);
        lemma_stmts(ss, i + 1, v, u, m);
    }
}

proof fn lemma_arms(arms: Seq<ArmV>, i: nat, x: Span, y: Span, v: EnvV, u: EnvV, m: RenamingV)
    requires
        same_env(m, v, u),
    ensures
        as_good(
            symbols::arms_outcome(arms, i, x, v),
            symbols::arms_outcome(renaming::renamed_arms(arms, m), i, y, u),
        ),
    decreases arms, arms.len() - i,
{
    if i < arms.len() {
        let a = arms[i as int];
        assert(renaming::renamed_arms(arms, m)[i as int] == renaming::renamed_arm(a, m));
        lemma_expr(a.cond, x, y, v, u, m);
        lemma_stmts(a.body, 0, v, u, m);
        lemma_arms(arms, i + 1, x, y, v, u, m);
    }
}

// ───────────────────────── objects ─────────────────────────

spec fn made_as_good(m: RenamingV, a: MadeV, b: MadeV) -> bool {
    &&& as_good(a.found, b.found)
    &&& commuting::same_instances(m, a.objects, b.objects)
}

proof fn lemma_new(
    name: Seq<char>,
    vmod: Seq<char>,
    ctor: Seq<char>,
    args: Seq<ArgV>,
    x: Span,
    y: Span,
    v: EnvV, u: EnvV, m: RenamingV,
)
    requires
        same_env(m, v, u),
    ensures
        as_good(
            symbols::new_outcome(name, vmod, ctor, args, x, v),
            symbols::new_outcome(
                renaming::new_name(m, name),
                vmod,
                ctor,
                renaming::renamed_args(args, m),
                y,
                u,
            ),
        ),
{
    lemma_args(args, 0, x, y, v, u, m);
    if v.specs.contains_key(vmod) && v.specs[vmod].objects@.contains_key(ctor) {
        let sig = v.specs[vmod].objects@[ctor].init@;
        assert(commuting::has_sig(v.specs[vmod], sig));
        lemma_args_fault(args, sig, m);
        lemma_slots(args, sig, 0, x, y, v, u, m);
    }
}

proof fn lemma_made_here(s: StmtV, v: EnvV, u: EnvV, m: RenamingV)
    requires
        same_env(m, v, u),
    ensures
        made_as_good(
            m,
            symbols::made_here(s, v),
            symbols::made_here(renaming::renamed_stmt(s, m), u),
        ),
    decreases s, 0nat,
{
    match s {
        StmtV::New { name, vmod, ctor, args, span } => {
            lemma_new(name, vmod, ctor, args, span, span, v, u, m);
            let z = renaming::new_name(m, name);
            assert forall|i: Seq<char>| #[trigger] renaming::new_name(m, i) == z implies i
                == name by {}
        },
        StmtV::If { arms, else_body, .. } => {
            lemma_made_in_arms(arms, 0, v, u, m);
            let a = symbols::made_in_arms(arms, 0, v);
            let b = symbols::made_in_arms(renaming::renamed_arms(arms, m), 0, u);
            match else_body {
                Some(e) => {
                    lemma_with_objects(m, v, u, a.objects, b.objects);
                    lemma_made_from(
                        e,
                        0,
                        symbols::with_objects(v, a.objects),
                        symbols::with_objects(u, b.objects),
                        m,
                    );
                },
                None => {},
            }
        },
        _ => {},
    }
}

proof fn lemma_made_from(ss: Seq<StmtV>, i: nat, v: EnvV, u: EnvV, m: RenamingV)
    requires
        same_env(m, v, u),
    ensures
        made_as_good(
            m,
            symbols::made_from(ss, i, v),
            symbols::made_from(renaming::renamed_stmts(ss, m), i, u),
        ),
    decreases ss, ss.len() - i,
{
    if i < ss.len() {
        assert(renaming::renamed_stmts(ss, m)[i as int] == renaming::renamed_stmt(ss[i as int], m));
        lemma_made_here(ss[i as int], v, u, m);
        let here = symbols::made_here(ss[i as int], v);
        let there = symbols::made_here(renaming::renamed_stmt(ss[i as int], m), u);
        lemma_with_objects(m, v, u, here.objects, there.objects);
        lemma_made_from(
            ss,
            i + 1,
            symbols::with_objects(v, here.objects),
            symbols::with_objects(u, there.objects),
            m,
        );
    }
}

proof fn lemma_made_in_arms(arms: Seq<ArmV>, i: nat, v: EnvV, u: EnvV, m: RenamingV)
    requires
        same_env(m, v, u),
    ensures
        made_as_good(
            m,
            symbols::made_in_arms(arms, i, v),
            symbols::made_in_arms(renaming::renamed_arms(arms, m), i, u),
        ),
    decreases arms, arms.len() - i,
{
    if i < arms.len() {
        let a = arms[i as int];
        assert(renaming::renamed_arms(arms, m)[i as int] == renaming::renamed_arm(a, m));
        lemma_made_from(a.body, 0, v, u, m);
        let here = symbols::made_from(a.body, 0, v);
        let there = symbols::made_from(renaming::renamed_stmts(a.body, m), 0, u);
        lemma_with_objects(m, v, u, here.objects, there.objects);
        lemma_made_in_arms(
            arms,
            i + 1,
            symbols::with_objects(v, here.objects),
            symbols::with_objects(u, there.objects),
            m,
        );
    }
}

proof fn lemma_first_new(ss: Seq<StmtV>, i: nat, m: RenamingV)
    ensures
        symbols::first_new(renaming::renamed_stmts(ss, m), i) is Some == symbols::first_new(ss, i) is Some,
    decreases ss, ss.len() - i,
{
    if i < ss.len() {
        assert(renaming::renamed_stmts(ss, m)[i as int] == renaming::renamed_stmt(ss[i as int], m));
        match ss[i as int] {
            StmtV::If { arms, else_body, .. } => {
                lemma_first_new_arm(arms, 0, m);
                match else_body {
                    Some(b) => lemma_first_new(b, 0, m),
                    None => {},
                }
            },
            _ => {},
        }
        lemma_first_new(ss, i + 1, m);
    }
}

proof fn lemma_first_new_arm(arms: Seq<ArmV>, i: nat, m: RenamingV)
    ensures
        symbols::first_new_arm(renaming::renamed_arms(arms, m), i) is Some == symbols::first_new_arm(
            arms,
            i,
        ) is Some,
    decreases arms, arms.len() - i,
{
    if i < arms.len() {
        assert(renaming::renamed_arms(arms, m)[i as int] == renaming::renamed_arm(arms[i as int], m));
        lemma_first_new(arms[i as int].body, 0, m);
        lemma_first_new_arm(arms, i + 1, m);
    }
}

/// Statements without a `new` make no objects.
proof fn lemma_nothing_made(ss: Seq<StmtV>, i: nat, v: EnvV)
    requires
        symbols::first_new(ss, i) is None,
    ensures
        symbols::made_from(ss, i, v).objects == v.objects,
        symbols::made_from(ss, i, v).found.error is None,
    decreases ss, ss.len() - i,
{
    if i < ss.len() {
        match ss[i as int] {
            StmtV::If { arms, else_body, .. } => {
                lemma_nothing_made_in_arms(arms, 0, v);
                match else_body {
                    Some(b) => {
                        let a = symbols::made_in_arms(arms, 0, v);
                        lemma_nothing_made(b, 0, symbols::with_objects(v, a.objects));
                    },
                    None => {},
                }
            },
            _ => {},
        }
        let here = symbols::made_here(ss[i as int], v);
        lemma_nothing_made(ss, i + 1, symbols::with_objects(v, here.objects));
    }
}

proof fn lemma_nothing_made_in_arms(arms: Seq<ArmV>, i: nat, v: EnvV)
    requires
        symbols::first_new_arm(arms, i) is None,
    ensures
        symbols::made_in_arms(arms, i, v).objects == v.objects,
        symbols::made_in_arms(arms, i, v).found.error is None,
    decreases arms, arms.len() - i,
{
    if i < arms.len() {
        lemma_nothing_made(arms[i as int].body, 0, v);
        let here = symbols::made_from(arms[i as int].body, 0, v);
        lemma_nothing_made_in_arms(arms, i + 1, symbols::with_objects(v, here.objects));
    }
}

/// Whether a declaration makes an object.
pub open spec fn is_maker(d: DeclV) -> bool {
    d matches DeclV::Sub { body, .. } && symbols::first_new(body, 0) is Some
}

/// The declarations from `i` on that make objects.
pub open spec fn makers(ds: Seq<DeclV>, i: nat) -> Seq<DeclV>
    decreases ds.len() - i,
{
    if i >= ds.len() {
        seq![]
    } else if is_maker(ds[i as int]) {
        seq![ds[i as int]] + makers(ds, i + 1)
    } else {
        makers(ds, i + 1)
    }
}

/// The objects that a declaration of a program makes.
spec fn made_by(ds: Seq<DeclV>, d: DeclV, v: EnvV) -> MadeV {
    match d {
        DeclV::Sub { name, body, .. } => if symbols::reachable(ds, name) {
            symbols::made_from(body, 0, v)
        } else {
            MadeV {
                objects: v.objects,
                found: match symbols::first_new(body, 0) {
                    Some(s) => symbols::fails(s, "'new' is only allowed inside sub vcl_init"@),
                    None => symbols::fine(),
                },
            }
        },
        _ => MadeV { objects: v.objects, found: symbols::fine() },
    }
}

/// The objects that the declarations of a list make from `i` on.
spec fn made_by_list(ds: Seq<DeclV>, s: Seq<DeclV>, i: nat, v: EnvV) -> MadeV
    decreases s.len() - i,
{
    if i >= s.len() {
        MadeV { objects: v.objects, found: symbols::fine() }
    } else {
        let here = made_by(ds, s[i as int], v);
        if here.found.error is Some {
            here
        } else {
            symbols::made_after(
                here.found,
                made_by_list(ds, s, i + 1, symbols::with_objects(v, here.objects)),
            )
        }
    }
}

proof fn lemma_list_from(ds: Seq<DeclV>, d: DeclV, s: Seq<DeclV>, i: nat, v: EnvV)
    ensures
        made_by_list(ds, seq![d] + s, i + 1, v) == made_by_list(ds, s, i, v),
    decreases s.len() - i,
{
    let all = seq![d] + s;
    if i < s.len() {
        assert(all[i as int + 1] == s[i as int]);
        let here = made_by(ds, s[i as int], v);
        lemma_list_from(ds, d, s, i + 1, symbols::with_objects(v, here.objects));
    }
}

/// Only the declarations that make objects matter to the objects that are made.
proof fn lemma_only_makers(ds: Seq<DeclV>, i: nat, v: EnvV)
    ensures
        ({
            let a = symbols::made_by_decls(ds, i, v);
            let b = made_by_list(ds, makers(ds, i), 0, v);
            &&& a.objects == b.objects
            &&& as_good(a.found, b.found)
        }),
    decreases ds.len() - i,
{
    if i < ds.len() {
        let d = ds[i as int];
        let here = symbols::made_by_decl(ds, i as int, v);
        assert(here == made_by(ds, d, v));
        let w = symbols::with_objects(v, here.objects);
        lemma_only_makers(ds, i + 1, w);
        if is_maker(d) {
            lemma_list_from(ds, d, makers(ds, i + 1), 0, w);
            assert(makers(ds, i)[0] == d);
        } else {
            match d {
                DeclV::Sub { body, .. } => lemma_nothing_made(body, 0, v),
                _ => {},
            }
            assert(w == v);
        }
    }
}

// ───────────────────────── declarations ─────────────────────────

/// Whether a field holds no name that is changed.
pub open spec fn still_field(f: FieldV, m: RenamingV) -> bool
    decreases f,
{
    match f.value {
        FieldValueV::Expr(e) => renaming::renamed_expr(e, m) == e,
        FieldValueV::Probe(fs) => still_fields(fs, m),
        FieldValueV::ProbeRef(n) => renaming::new_name(m, n) == n,
        FieldValueV::StringList(_) => true,
    }
}

/// Whether fields hold no name that is changed.
pub open spec fn still_fields(fs: Seq<FieldV>, m: RenamingV) -> bool
    decreases fs,
{
    forall|i: int| 0 <= i < fs.len() ==> still_field(#[trigger] fs[i], m)
}

/// Whether the fields of a declaration hold no name that is changed, but for the
/// probes that a backend refers to.
pub open spec fn still_decl(d: DeclV, m: RenamingV) -> bool {
    match d {
        DeclV::Backend { body: Some(fs), .. } => forall|i: int|
            0 <= i < fs.len() ==> (#[trigger] fs[i]).value is ProbeRef || still_field(fs[i], m),
        DeclV::Probe { body, .. } => still_fields(body, m),
        _ => true,
    }
}

proof fn lemma_still_field(f: FieldV, v: EnvV, u: EnvV, m: RenamingV)
    requires
        same_env(m, v, u),
        still_field(f, m),
    ensures
        as_good(symbols::field_outcome(f, v), symbols::field_outcome(f, u)),
    decreases f,
{
    match f.value {
        FieldValueV::Expr(e) => lemma_expr(e, f.span, f.span, v, u, m),
        FieldValueV::Probe(fs) => lemma_still_fields(fs, 0, v, u, m),
        FieldValueV::ProbeRef(name) => lemma_known(v, u, DeclKind::Probe, name, m),
        FieldValueV::StringList(_) => {},
    }
}

proof fn lemma_still_fields(fs: Seq<FieldV>, i: nat, v: EnvV, u: EnvV, m: RenamingV)
    requires
        same_env(m, v, u),
        still_fields(fs, m),
    ensures
        as_good(symbols::fields_outcome(fs, i, v), symbols::fields_outcome(fs, i, u)),
    decreases fs, fs.len() - i,
{
    if i < fs.len() {
        assert(still_field(fs[i as int], m));
        lemma_still_field(fs[i as int], v, u, m);
        lemma_still_fields(fs, i + 1, v, u, m);
    }
}

proof fn lemma_backend_fields(fs: Seq<FieldV>, i: nat, v: EnvV, u: EnvV, m: RenamingV)
    requires
        same_env(m, v, u),
        forall|i: int|
            0 <= i < fs.len() ==> (#[trigger] fs[i]).value is ProbeRef || still_field(fs[i], m),
    ensures
        as_good(
            symbols::fields_outcome(fs, i, v),
            symbols::fields_outcome(renaming::renamed_fields(fs, m), i, u),
        ),
    decreases fs.len() - i,
{
    if i < fs.len() {
        let f = fs[i as int];
        assert(renaming::renamed_fields(fs, m)[i as int] == renaming::renamed_field(f, m));
        match f.value {
            FieldValueV::ProbeRef(name) => lemma_known(v, u, DeclKind::Probe, name, m),
            _ => lemma_still_field(f, v, u, m),
        }
        assert(as_good(
            symbols::field_outcome(f, v),
            symbols::field_outcome(renaming::renamed_field(f, m), u),
        ));
        lemma_backend_fields(fs, i + 1, v, u, m);
    }
}

proof fn lemma_decl(d: DeclV, v: EnvV, u: EnvV, m: RenamingV)
    requires
        same_env(m, v, u),
        still_decl(d, m),
    ensures
        as_good(
            symbols::decl_outcome(d, v),
            symbols::decl_outcome(renaming::renamed_decl(d, m), u),
        ),
{
    match d {
        DeclV::Backend { body: Some(fs), .. } => lemma_backend_fields(fs, 0, v, u, m),
        DeclV::Probe { body, .. } => lemma_still_fields(body, 0, v, u, m),
        DeclV::Sub { body, .. } => lemma_stmts(body, 0, v, u, m),
        _ => {},
    }
}

/// The check of declarations ends in an error where that of one does.
proof fn lemma_each_decl(ds: Seq<DeclV>, i: nat, v: EnvV)
    ensures
        symbols::decls_outcome(ds, i, v).error is Some == exists|j: int|
            i <= j < ds.len() && (#[trigger] symbols::decl_outcome(ds[j], v)).error is Some,
    decreases ds.len() - i,
{
    if i < ds.len() {
        lemma_each_decl(ds, i + 1, v);
        if symbols::decl_outcome(ds[i as int], v).error is None {
            if exists|j: int|
                i <= j < ds.len() && (#[trigger] symbols::decl_outcome(ds[j], v)).error is Some {
                let j = choose|j: int|
                    i <= j < ds.len() && (#[trigger] symbols::decl_outcome(ds[j], v)).error is Some;
                assert(i + 1 <= j);
            }
        }
    }
}

/// Whether two declarations must not stand together.
spec fn clash(c: DeclV, d: DeclV) -> bool {
    &&& symbols::decl_kind(c) == symbols::decl_kind(d)
    &&& ast::decl_name(c) == ast::decl_name(d)
    &&& !(c is Import)
    &&& !(c is Sub && ast::builtin_name(ast::decl_name(c)))
}

proof fn lemma_each_name(ds: Seq<DeclV>, i: nat)
    ensures
        symbols::declaring_from(ds, i).error is Some == exists|j: int|
            i <= j < ds.len() && (#[trigger] symbols::declaring(ds, j)).error is Some,
    decreases ds.len() - i,
{
    if i < ds.len() {
        lemma_each_name(ds, i + 1);
        if symbols::declaring(ds, i as int).error is None {
            if exists|j: int|
                i <= j < ds.len() && (#[trigger] symbols::declaring(ds, j)).error is Some {
                let j = choose|j: int|
                    i <= j < ds.len() && (#[trigger] symbols::declaring(ds, j)).error is Some;
                assert(i + 1 <= j);
            }
        }
    }
}

proof fn lemma_clashes(ds: Seq<DeclV>)
    ensures
        symbols::declaring_from(ds, 0).error is Some == exists|i: int, j: int|
            0 <= i < j < ds.len() && clash(#[trigger] ds[i], #[trigger] ds[j]),
{
    lemma_each_name(ds, 0);
    if symbols::declaring_from(ds, 0).error is Some {
        let j = choose|j: int|
            0 <= j < ds.len() && (#[trigger] symbols::declaring(ds, j)).error is Some;
        let k = symbols::decl_kind(ds[j]);
        let n = ast::decl_name(ds[j]);
        let i = choose|i: int|
            0 <= i < j && symbols::decl_kind(#[trigger] ds[i]) == k && ast::decl_name(ds[i]) == n;
        assert(clash(ds[i], ds[j]));
    }
    if exists|i: int, j: int|
        0 <= i < j < ds.len() && clash(#[trigger] ds[i], #[trigger] ds[j]) {
        let (i, j) = choose|i: int, j: int|
            0 <= i < j < ds.len() && clash(#[trigger] ds[i], #[trigger] ds[j]);
        assert(symbols::decl_kind(ds[i]) == symbols::decl_kind(ds[j]));
        assert(symbols::declaring(ds, j).error is Some);
    }
}

/// Whether the second list is the first one with its names changed and in
/// another order.
spec fn moved(ps: Seq<DeclV>, qs: Seq<DeclV>, p: Seq<int>, m: RenamingV) -> bool {
    &&& shuffle::arranged(renaming::renamed_decls(ps, m), qs, p)
    &&& invariance::one_to_one(m)
    &&& invariance::leaves_kept(m)
}

proof fn lemma_moved(ps: Seq<DeclV>, qs: Seq<DeclV>, p: Seq<int>, m: RenamingV, i: int) -> (j: int)
    requires
        moved(ps, qs, p, m),
        0 <= i < ps.len(),
    ensures
        0 <= j < qs.len(),
        p[j] == i,
        qs[j] == renaming::renamed_decl(ps[i], m),
{
    shuffle::lemma_onto(p, ps.len());
    assert(p.contains(i));
    let j = choose|j: int| 0 <= j < p.len() && p[j] == i;
    assert(qs[j] == renaming::renamed_decls(ps, m)[p[j]]);
    j
}

proof fn lemma_moved_clash(c: DeclV, d: DeclV, m: RenamingV)
    requires
        invariance::one_to_one(m),
        invariance::leaves_kept(m),
    ensures
        clash(renaming::renamed_decl(c, m), renaming::renamed_decl(d, m)) == clash(c, d),
        clash(c, d) == clash(d, c),
{
    let n = ast::decl_name(c);
    let x = renaming::new_name(m, n);
    if ast::builtin_name(n) {
        assert(x == n);
    } else if ast::builtin_name(x) {
        assert(renaming::new_name(m, x) == x);
    }
    let o = ast::decl_name(d);
    assert(renaming::new_name(m, o) == x ==> o == n);
}

proof fn lemma_moved_names(ps: Seq<DeclV>, qs: Seq<DeclV>, p: Seq<int>, m: RenamingV)
    requires
        moved(ps, qs, p, m),
    ensures
        as_good(symbols::declaring_from(ps, 0), symbols::declaring_from(qs, 0)),
{
    lemma_clashes(ps);
    lemma_clashes(qs);
    if symbols::declaring_from(ps, 0).error is Some {
        let (i, j) = choose|i: int, j: int|
            0 <= i < j < ps.len() && clash(#[trigger] ps[i], #[trigger] ps[j]);
        let k = lemma_moved(ps, qs, p, m, i);
        let l = lemma_moved(ps, qs, p, m, j);
        lemma_moved_clash(ps[i], ps[j], m);
        lemma_moved_clash(ps[j], ps[i], m);
        if k < l {
            assert(clash(qs[k], qs[l]));
        } else {
            assert(clash(qs[l], qs[k]));
        }
    }
    if symbols::declaring_from(qs, 0).error is Some {
        let (i, j) = choose|i: int, j: int|
            0 <= i < j < qs.len() && clash(#[trigger] qs[i], #[trigger] qs[j]);
        assert(qs[i] == renaming::renamed_decls(ps, m)[p[i]]);
        assert(qs[j] == renaming::renamed_decls(ps, m)[p[j]]);
        assert(p[i] != p[j]);
        lemma_moved_clash(ps[p[i]], ps[p[j]], m);
        if p[i] < p[j] {
            assert(clash(ps[p[i]], ps[p[j]]));
        } else {
            assert(clash(ps[p[j]], ps[p[i]]));
        }
    }
}

/// Whether a renaming leaves the names of the imports.
pub open spec fn leaves_imports(m: RenamingV, ds: Seq<DeclV>) -> bool {
    forall|i: int|
        0 <= i < ds.len() && (#[trigger] ds[i]) is Import ==> renaming::new_name(
            m,
            ast::decl_name(ds[i]),
        ) == ast::decl_name(ds[i])
}

proof fn lemma_moved_known(
    ps: Seq<DeclV>,
    qs: Seq<DeclV>,
    p: Seq<int>,
    m: RenamingV,
    k: DeclKind,
    n: Seq<char>,
)
    requires
        moved(ps, qs, p, m),
        leaves_imports(m, ps),
    ensures
        symbols::declares(qs, qs.len(), k, renaming::new_name(m, n)) == symbols::declares(
            ps,
            ps.len(),
            k,
            n,
        ),
        k is Import ==> symbols::declares(qs, qs.len(), k, n) == symbols::declares(
            ps,
            ps.len(),
            k,
            n,
        ),
{
    let x = renaming::new_name(m, n);
    if symbols::declares(ps, ps.len(), k, n) {
        let i = choose|i: int|
            0 <= i < ps.len() && symbols::decl_kind(#[trigger] ps[i]) == k && ast::decl_name(ps[i])
                == n;
        let j = lemma_moved(ps, qs, p, m, i);
        assert(symbols::decl_kind(qs[j]) == k);
    }
    if symbols::declares(qs, qs.len(), k, x) {
        let j = choose|j: int|
            0 <= j < qs.len() && symbols::decl_kind(#[trigger] qs[j]) == k && ast::decl_name(qs[j])
                == x;
        assert(qs[j] == renaming::renamed_decls(ps, m)[p[j]]);
        let d = ps[p[j]];
        assert(symbols::decl_kind(d) == k);
        assert(renaming::new_name(m, ast::decl_name(d)) == x);
        assert(ast::decl_name(d) == n);
    }
    if k is Import && symbols::declares(qs, qs.len(), k, n) {
        let j = choose|j: int|
            0 <= j < qs.len() && symbols::decl_kind(#[trigger] qs[j]) == k && ast::decl_name(qs[j])
                == n;
        assert(qs[j] == renaming::renamed_decls(ps, m)[p[j]]);
        assert(symbols::decl_kind(ps[p[j]]) == k && ast::decl_name(ps[p[j]]) == n);
    }
}

// ───────────────────────── calls ─────────────────────────

proof fn lemma_moved_uses(body: Seq<StmtV>, m: RenamingV, b: Seq<char>)
    requires
        invariance::one_to_one(m),
    ensures
        uses::body_uses(renaming::renamed_stmts(body, m)).contains(
            UseV::Sub(renaming::new_name(m, b)),
        ) == uses::body_uses(body).contains(UseV::Sub(b)),
        forall|c: Seq<char>| #[trigger]
            uses::body_uses(renaming::renamed_stmts(body, m)).contains(UseV::Sub(c)) ==> exists|
                x: Seq<char>,
            |
                c == #[trigger] renaming::new_name(m, x),
{
    invariance::lemma_stmts_uses(body, body.len(), m);
    let us = uses::body_uses(body);
    let vs = uses::body_uses(renaming::renamed_stmts(body, m));
    assert(vs == invariance::renamed_uses(us, m));
    let z = UseV::Sub(renaming::new_name(m, b));
    if us.contains(UseV::Sub(b)) {
        let i = choose|i: int| 0 <= i < us.len() && us[i] == UseV::Sub(b);
        assert(vs[i] == z);
    }
    if vs.contains(z) {
        let i = choose|i: int| 0 <= i < vs.len() && vs[i] == z;
        assert(vs[i] == invariance::renamed_use(us[i], m));
        assert(us[i] == UseV::Sub(b));
    }
    assert forall|c: Seq<char>| #[trigger] vs.contains(UseV::Sub(c)) implies exists|x: Seq<char>|
        c == #[trigger] renaming::new_name(m, x) by {
        let i = choose|i: int| 0 <= i < vs.len() && vs[i] == UseV::Sub(c);
        assert(vs[i] == invariance::renamed_use(us[i], m));
        match us[i] {
            UseV::Sub(x) => {
                assert(c == renaming::new_name(m, x));
            },
            _ => {},
        }
    }
}

proof fn lemma_moved_calls(
    ps: Seq<DeclV>,
    qs: Seq<DeclV>,
    p: Seq<int>,
    m: RenamingV,
    a: Seq<char>,
    b: Seq<char>,
)
    requires
        moved(ps, qs, p, m),
    ensures
        symbols::calls(qs, renaming::new_name(m, a), renaming::new_name(m, b)) == symbols::calls(
            ps,
            a,
            b,
        ),
{
    let x = renaming::new_name(m, a);
    let y = renaming::new_name(m, b);
    if symbols::calls(ps, a, b) {
        let i = choose|i: int|
            0 <= i < ps.len() && (#[trigger] ps[i] matches DeclV::Sub { name, body, .. } && name
                == a && uses::body_uses(body).contains(UseV::Sub(b)));
        let j = lemma_moved(ps, qs, p, m, i);
        lemma_moved_uses(ps[i]->Sub_body, m, b);
        assert(qs[j] matches DeclV::Sub { name, body, .. } && name == x && uses::body_uses(
            body,
        ).contains(UseV::Sub(y)));
    }
    if symbols::calls(qs, x, y) {
        let j = choose|j: int|
            0 <= j < qs.len() && (#[trigger] qs[j] matches DeclV::Sub { name, body, .. } && name
                == x && uses::body_uses(body).contains(UseV::Sub(y)));
        assert(qs[j] == renaming::renamed_decls(ps, m)[p[j]]);
        lemma_moved_uses(ps[p[j]]->Sub_body, m, b);
        assert(ps[p[j]] matches DeclV::Sub { name, body, .. } && name == a && uses::body_uses(
            body,
        ).contains(UseV::Sub(b)));
    }
}

/// What calls are followed to has a new name.
proof fn lemma_called(
    ps: Seq<DeclV>,
    qs: Seq<DeclV>,
    p: Seq<int>,
    m: RenamingV,
    c: Seq<char>,
    n: nat,
) -> (x: Seq<char>)
    requires
        moved(ps, qs, p, m),
        symbols::reached_in(qs, c, n),
    ensures
        c == renaming::new_name(m, x),
{
    if n == 0 {
        assert(ast::builtin_name(c)) by {
            reveal_strlit("vcl_init");
            reveal_strlit("vcl_");
            assert(c.subrange(0, 4) =~= "vcl_"@);
        }
        assert(renaming::new_name(m, c) == c);
        c
    } else {
        let b = choose|b: Seq<char>|
            symbols::reached_in(qs, b, (n - 1) as nat) && #[trigger] symbols::calls(qs, b, c);
        let j = choose|j: int|
            0 <= j < qs.len() && (#[trigger] qs[j] matches DeclV::Sub { name, body, .. } && name
                == b && uses::body_uses(body).contains(UseV::Sub(c)));
        assert(qs[j] == renaming::renamed_decls(ps, m)[p[j]]);
        lemma_moved_uses(ps[p[j]]->Sub_body, m, c);
        choose|x: Seq<char>| c == #[trigger] renaming::new_name(m, x)
    }
}

proof fn lemma_moved_reached(
    ps: Seq<DeclV>,
    qs: Seq<DeclV>,
    p: Seq<int>,
    m: RenamingV,
    name: Seq<char>,
    n: nat,
)
    requires
        moved(ps, qs, p, m),
    ensures
        symbols::reached_in(qs, renaming::new_name(m, name), n) == symbols::reached_in(
            ps,
            name,
            n,
        ),
    decreases n,
{
    let z = renaming::new_name(m, name);
    if n == 0 {
        assert(ast::builtin_name("vcl_init"@)) by {
            reveal_strlit("vcl_init");
            reveal_strlit("vcl_");
            assert("vcl_init"@.subrange(0, 4) =~= "vcl_"@);
        }
        assert(renaming::new_name(m, "vcl_init"@) == "vcl_init"@);
    } else {
        let k = (n - 1) as nat;
        if symbols::reached_in(ps, name, n) {
            let b = choose|b: Seq<char>|
                symbols::reached_in(ps, b, k) && #[trigger] symbols::calls(ps, b, name);
            lemma_moved_reached(ps, qs, p, m, b, k);
            lemma_moved_calls(ps, qs, p, m, b, name);
            let y = renaming::new_name(m, b);
            assert(symbols::reached_in(qs, y, k) && symbols::calls(qs, y, z));
        }
        if symbols::reached_in(qs, z, n) {
            let c = choose|c: Seq<char>|
                symbols::reached_in(qs, c, k) && #[trigger] symbols::calls(qs, c, z);
            let b = lemma_called(ps, qs, p, m, c, k);
            lemma_moved_reached(ps, qs, p, m, b, k);
            lemma_moved_calls(ps, qs, p, m, b, name);
            assert(symbols::reached_in(ps, b, k) && symbols::calls(ps, b, name));
        }
    }
}

proof fn lemma_moved_reachable(
    ps: Seq<DeclV>,
    qs: Seq<DeclV>,
    p: Seq<int>,
    m: RenamingV,
    name: Seq<char>,
)
    requires
        moved(ps, qs, p, m),
    ensures
        symbols::reachable(qs, renaming::new_name(m, name)) == symbols::reachable(ps, name),
{
    let z = renaming::new_name(m, name);
    if symbols::reachable(ps, name) {
        let n = choose|n: nat| #[trigger] symbols::reached_in(ps, name, n);
        lemma_moved_reached(ps, qs, p, m, name, n);
        assert(symbols::reached_in(qs, z, n));
    }
    if symbols::reachable(qs, z) {
        let n = choose|n: nat| #[trigger] symbols::reached_in(qs, z, n);
        lemma_moved_reached(ps, qs, p, m, name, n);
        assert(symbols::reached_in(ps, name, n));
    }
}

// ───────────────────────── programs ─────────────────────────

proof fn lemma_moved_list(
    ps: Seq<DeclV>,
    qs: Seq<DeclV>,
    p: Seq<int>,
    m: RenamingV,
    s: Seq<DeclV>,
    i: nat,
    v: EnvV,
    u: EnvV,
)
    requires
        moved(ps, qs, p, m),
        same_env(m, v, u),
    ensures
        made_as_good(
            m,
            made_by_list(ps, s, i, v),
            made_by_list(qs, renaming::renamed_decls(s, m), i, u),
        ),
    decreases s.len() - i,
{
    if i < s.len() {
        let d = s[i as int];
        let r = renaming::renamed_decl(d, m);
        assert(renaming::renamed_decls(s, m)[i as int] == r);
        match d {
            DeclV::Sub { name, body, .. } => {
                lemma_moved_reachable(ps, qs, p, m, name);
                lemma_made_from(body, 0, v, u, m);
                lemma_first_new(body, 0, m);
            },
            _ => {},
        }
        let here = made_by(ps, d, v);
        let there = made_by(qs, r, u);
        assert(made_as_good(m, here, there));
        lemma_with_objects(m, v, u, here.objects, there.objects);
        lemma_moved_list(
            ps,
            qs,
            p,
            m,
            s,
            i + 1,
            symbols::with_objects(v, here.objects),
            symbols::with_objects(u, there.objects),
        );
    }
}

proof fn lemma_moved_makers(ds: Seq<DeclV>, i: nat, m: RenamingV)
    ensures
        makers(renaming::renamed_decls(ds, m), i) == renaming::renamed_decls(makers(ds, i), m),
    decreases ds.len() - i,
{
    let r = renaming::renamed_decls(ds, m);
    if i < ds.len() {
        lemma_moved_makers(ds, i + 1, m);
        assert(r[i as int] == renaming::renamed_decl(ds[i as int], m));
        match ds[i as int] {
            DeclV::Sub { body, .. } => lemma_first_new(body, 0, m),
            _ => {},
        }
    }
    assert(makers(r, i) =~= renaming::renamed_decls(makers(ds, i), m));
}

proof fn lemma_moved_decls(
    ps: Seq<DeclV>,
    qs: Seq<DeclV>,
    p: Seq<int>,
    m: RenamingV,
    v: EnvV,
    u: EnvV,
)
    requires
        moved(ps, qs, p, m),
        same_env(m, v, u),
        forall|i: int| 0 <= i < ps.len() ==> still_decl(#[trigger] ps[i], m),
    ensures
        as_good(symbols::decls_outcome(ps, 0, v), symbols::decls_outcome(qs, 0, u)),
{
    lemma_each_decl(ps, 0, v);
    lemma_each_decl(qs, 0, u);
    if symbols::decls_outcome(ps, 0, v).error is Some {
        let i = choose|i: int|
            0 <= i < ps.len() && (#[trigger] symbols::decl_outcome(ps[i], v)).error is Some;
        let j = lemma_moved(ps, qs, p, m, i);
        assert(still_decl(ps[i], m));
        lemma_decl(ps[i], v, u, m);
        assert(symbols::decl_outcome(qs[j], u).error is Some);
    }
    if symbols::decls_outcome(qs, 0, u).error is Some {
        let j = choose|j: int|
            0 <= j < qs.len() && (#[trigger] symbols::decl_outcome(qs[j], u)).error is Some;
        assert(qs[j] == renaming::renamed_decls(ps, m)[p[j]]);
        assert(still_decl(ps[p[j]], m));
        lemma_decl(ps[p[j]], v, u, m);
        assert(symbols::decl_outcome(ps[p[j]], v).error is Some);
    }
}

/// Whether a renaming leaves all that a program does not declare itself.
pub open spec fn leaves_others(
    m: RenamingV,
    ds: Seq<DeclV>,
    specs: Map<Seq<char>, VmodSpec>,
) -> bool {
    &&& invariance::one_to_one(m)
    &&& invariance::leaves_kept(m)
    &&& commuting::leaves_vmods(m, specs)
    &&& commuting::leaves_sigs(m, specs)
    &&& leaves_imports(m, ds)
    &&& forall|i: int| 0 <= i < ds.len() ==> still_decl(#[trigger] ds[i], m)
}

/// Neither names nor the order of the declarations decide whether an error is
/// found, where the subroutines that make objects keep their order: an object
/// must be made before it is used to make another.
pub proof fn law_names_and_order_are_as_good(
    p: ProgramV,
    q: ProgramV,
    m: RenamingV,
    specs: Map<Seq<char>, VmodSpec>,
)
    requires
        renaming::renamed_decls(p.decls, m).to_multiset() == q.decls.to_multiset(),
        makers(q.decls, 0) == makers(renaming::renamed_decls(p.decls, m), 0),
        leaves_others(m, p.decls, specs),
    ensures
        as_good(symbols::outcome(p, specs), symbols::outcome(q, specs)),
{
    let ps = p.decls;
    let qs = q.decls;
    let o = shuffle::lemma_arranged(renaming::renamed_decls(ps, m), qs);
    assert(moved(ps, qs, o, m));
    let v = EnvV { decls: ps, objects: Map::empty(), specs };
    let u = EnvV { decls: qs, objects: Map::empty(), specs };
    lemma_moved_names(ps, qs, o, m);
    assert forall|k: DeclKind, n: Seq<char>| #[trigger] symbols::known(v, k, n) == symbols::known(
        u,
        k,
        renaming::new_name(m, n),
    ) by {
        lemma_moved_known(ps, qs, o, m, k, n);
    }
    assert forall|n: Seq<char>| #[trigger] symbols::known(v, DeclKind::Import, n)
        == symbols::known(u, DeclKind::Import, n) by {
        lemma_moved_known(ps, qs, o, m, DeclKind::Import, n);
    }
    assert(same_env(m, v, u));
    lemma_only_makers(ps, 0, v);
    lemma_only_makers(qs, 0, u);
    lemma_moved_makers(ps, 0, m);
    lemma_moved_list(ps, qs, o, m, makers(ps, 0), 0, v, u);
    let a = symbols::made_by_decls(ps, 0, v);
    let b = symbols::made_by_decls(qs, 0, u);
    let v1 = symbols::with_objects(v, a.objects);
    let u1 = symbols::with_objects(u, b.objects);
    lemma_with_objects(m, v, u, a.objects, b.objects);
    lemma_moved_decls(ps, qs, o, m, v1, u1);
}

} // verus!
