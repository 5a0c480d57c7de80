//! What a program without errors refers to, and that nothing else is an error: the
//! references in the bodies of subroutines.

use crate::ast;
use crate::ast::{ArgV, ArmV, DeclV, ExprV, FieldV, FieldValueV, ProgramV, Span, StmtV};
use crate::normalize::vmod_args;
use crate::normalize::vmod_args::InstanceV;
use crate::symbols;
use crate::symbols::{DeclKind, EnvV};
use crate::vmod::{ArgSpecV, VmodSpec};
use vstd::prelude::*;
use vstd::string::*;

verus! {

// ───────────────────────── what stands in a body ─────────────────────────

/// Whether a statement is another one or stands in it.
pub open spec fn has_stmt(s: StmtV, x: StmtV) -> bool
    decreases s,
{
    s == x || match s {
        StmtV::If { arms, else_body, .. } => has_in_arms(arms, x) || match else_body {
            Some(b) => has_in(b, x),
            None => false,
        },
        _ => false,
    }
}

/// Whether a statement stands anywhere in a list.
pub open spec fn has_in(ss: Seq<StmtV>, x: StmtV) -> bool
    decreases ss,
{
    exists|i: int| 0 <= i < ss.len() && has_stmt(#[trigger] ss[i], x)
}

/// Whether a statement stands anywhere in the bodies of arms.
pub open spec fn has_in_arms(arms: Seq<ArmV>, x: StmtV) -> bool
    decreases arms,
{
    exists|i: int| 0 <= i < arms.len() && has_in((#[trigger] arms[i]).body, x)
}

/// Whether an expression is another one or stands in it.
pub open spec fn has_expr(e: ExprV, x: ExprV) -> bool
    decreases e,
{
    e == x || match e {
        ExprV::Call { args, .. } => has_arg(args, x),
        ExprV::Unary { expr, .. } => has_expr(*expr, x),
        ExprV::Binary { lhs, rhs, .. } => has_expr(*lhs, x) || has_expr(*rhs, x),
        _ => false,
    }
}

/// Whether an expression stands anywhere in arguments.
pub open spec fn has_arg(args: Seq<ArgV>, x: ExprV) -> bool
    decreases args,
{
    exists|i: int| 0 <= i < args.len() && has_expr((#[trigger] args[i]).value, x)
}

/// Whether an expression stands in a statement itself, not in its bodies. The
/// arguments of a `new` are looked at where the object is made.
pub open spec fn speaks_of(s: StmtV, x: ExprV) -> bool {
    match s {
        StmtV::Assign { rhs, .. } => has_expr(rhs, x),
        StmtV::Return { action, .. } => action matches Some(a) && exists|i: int|
            0 <= i < a.args.len() && has_expr(#[trigger] a.args[i], x),
        StmtV::Synthetic { value, .. } => has_expr(value, x),
        StmtV::If { arms, .. } => exists|i: int|
            0 <= i < arms.len() && has_expr((#[trigger] arms[i]).cond, x),
        StmtV::Expr { expr, .. } => has_expr(expr, x),
        _ => false,
    }
}

// ───────────────────────── what is right ─────────────────────────

/// Whether a declaration of a kind has a name.
pub open spec fn named(ds: Seq<DeclV>, k: DeclKind, name: Seq<char>) -> bool {
    exists|i: int|
        0 <= i < ds.len() && (match #[trigger] ds[i] {
            DeclV::Import { name: n, .. } => k == DeclKind::Import && n == name,
            DeclV::Backend { name: n, .. } => k == DeclKind::Backend && n == name,
            DeclV::Probe { name: n, .. } => k == DeclKind::Probe && n == name,
            DeclV::Acl { name: n, .. } => k == DeclKind::Acl && n == name,
            DeclV::Sub { name: n, .. } => k == DeclKind::Sub && n == name,
        })
}

/// How many of the arguments before `i` are given by position.
pub open spec fn by_position(args: Seq<ArgV>, i: int) -> nat {
    args.take(i).filter(|a: ArgV| a.name is None).len()
}

/// Whether an argument belongs to a slot: the first one of its name, or the one at
/// its position.
pub open spec fn belongs(args: Seq<ArgV>, sig: Seq<ArgSpecV>, i: int, k: int) -> bool {
    &&& 0 <= k < sig.len()
    &&& match args[i].name {
        Some(n) => sig[k].name == Some(n) && forall|j: int|
            0 <= j < k ==> (#[trigger] sig[j]).name != Some(n),
        None => k == by_position(args, i),
    }
}

/// Whether arguments fit a signature: every name is that of a slot, no more are given
/// by position than there are slots, and a word in a slot that lists words is one of
/// them.
pub open spec fn fit(args: Seq<ArgV>, sig: Seq<ArgSpecV>) -> bool {
    &&& forall|i: int|
        0 <= i < args.len() && (#[trigger] args[i]).name is Some ==> exists|k: int|
            0 <= k < sig.len() && (#[trigger] sig[k]).name == args[i].name
    &&& by_position(args, args.len() as int) <= sig.len()
    &&& forall|i: int, k: int|
        0 <= i < args.len() && #[trigger] belongs(args, sig, i, k) ==> match (
            sig[k].enum_values,
            args[i].value,
        ) {
            (Some(ws), ExprV::Var(parts)) if parts.len() == 1 => ws.contains(parts[0]),
            _ => true,
        }
}

/// Whether a call is right: what stands before its last part is an object or an
/// imported vmod, and where that is described, it has such a method or function, and
/// the arguments fit it.
pub open spec fn right_call(target: Seq<Seq<char>>, args: Seq<ArgV>, v: EnvV) -> bool {
    target.len() >= 2 ==> if v.objects.contains_key(target[0]) {
        let o = v.objects[target[0]];
        v.specs.contains_key(o.vmod) && v.specs[o.vmod].objects@.contains_key(o.ctor) ==> {
            let methods = v.specs[o.vmod].objects@[o.ctor].methods@;
            methods.contains_key(target.last()) && fit(args, methods[target.last()]@)
        }
    } else {
        named(v.decls, DeclKind::Import, target[0]) && (v.specs.contains_key(target[0]) ==> {
            let funcs = v.specs[target[0]].funcs@;
            funcs.contains_key(target.last()) && fit(args, funcs[target.last()]@)
        })
    }
}

/// Whether all calls in an expression are right.
pub open spec fn right_calls(e: ExprV, v: EnvV) -> bool {
    forall|x: ExprV| #[trigger]
        has_expr(e, x) ==> (x matches ExprV::Call { target, args } ==> right_call(target, args, v))
}

/// Whether a statement by itself is right: a bare name that is assigned to
/// `backend_hint` or `backend` is that of a backend, a subroutine that is called is
/// declared and not builtin, and the calls in its expressions are right.
pub open spec fn right_stmt(s: StmtV, v: EnvV) -> bool {
    &&& forall|x: ExprV| #[trigger]
        speaks_of(s, x) ==> (x matches ExprV::Call { target, args } ==> right_call(target, args, v))
    &&& s matches StmtV::Assign { lhs, rhs, .. } ==> (rhs matches ExprV::Var(parts) ==> lhs.len()
        > 0 && (lhs.last() == "backend_hint"@ || lhs.last() == "backend"@) && parts.len() == 1
        ==> named(v.decls, DeclKind::Backend, parts[0]))
    &&& s matches StmtV::Call { sub, .. } ==> named(v.decls, DeclKind::Sub, sub)
        && !ast::builtin_name(sub)
}

/// Whether all statements in a list, and in their bodies, are right.
pub open spec fn right_stmts(ss: Seq<StmtV>, v: EnvV) -> bool {
    forall|x: StmtV| #[trigger] has_in(ss, x) ==> right_stmt(x, v)
}

// ───────────────────────── signatures ─────────────────────────

pub(crate) proof fn lemma_known(v: EnvV, k: DeclKind, name: Seq<char>)
    ensures
        symbols::known(v, k, name) == named(v.decls, k, name),
{
    let ds = v.decls;
    if symbols::known(v, k, name) {
        let i = choose|i: int|
            0 <= i < ds.len() && symbols::decl_kind(#[trigger] ds[i]) == k && ast::decl_name(ds[i])
                == name;
        assert(ds[i] == ds[i]);
    }
    if named(ds, k, name) {
        let i = choose|i: int|
            0 <= i < ds.len() && (match #[trigger] ds[i] {
                DeclV::Import { name: n, .. } => k == DeclKind::Import && n == name,
                DeclV::Backend { name: n, .. } => k == DeclKind::Backend && n == name,
                DeclV::Probe { name: n, .. } => k == DeclKind::Probe && n == name,
                DeclV::Acl { name: n, .. } => k == DeclKind::Acl && n == name,
                DeclV::Sub { name: n, .. } => k == DeclKind::Sub && n == name,
            });
        assert(symbols::decl_kind(ds[i]) == k && ast::decl_name(ds[i]) == name);
    }
}

pub(crate) proof fn lemma_slot(sig: Seq<ArgSpecV>, n: Seq<char>, i: nat)
    requires
        i <= sig.len(),
        forall|j: int| 0 <= j < i ==> (#[trigger] sig[j]).name != Some(n),
    ensures
        ({
            let k = vmod_args::slot_named(sig, n, i);
            &&& i <= k <= sig.len()
            &&& k < sig.len() ==> sig[k as int].name == Some(n)
            &&& forall|j: int| 0 <= j < k ==> (#[trigger] sig[j]).name != Some(n)
        }),
    decreases sig.len() - i,
{
    if i < sig.len() && sig[i as int].name != Some(n) {
        lemma_slot(sig, n, i + 1);
    }
}

pub(crate) proof fn lemma_positional(args: Seq<ArgV>, n: nat)
    requires
        n <= args.len(),
    ensures
        symbols::positional(args, n) == by_position(args, n as int),
    decreases n,
{
    reveal(Seq::filter);
    let f = |a: ArgV| a.name is None;
    if n > 0 {
        lemma_positional(args, (n - 1) as nat);
        assert(args.take(n as int).drop_last() =~= args.take(n - 1));
        assert(args.take(n as int).last() == args[n - 1]);
    } else {
        assert(args.take(0) =~= Seq::<ArgV>::empty());
    }
}

proof fn lemma_misnamed(args: Seq<ArgV>, sig: Seq<ArgSpecV>, i: nat)
    ensures
        symbols::misnamed(args, sig, i) >= args.len() <==> forall|j: int|
            i <= j < args.len() && (#[trigger] args[j]).name is Some ==> vmod_args::slot_named(
                sig,
                args[j].name->0,
                0,
            ) < sig.len(),
    decreases args.len() - i,
{
    if i < args.len() {
        lemma_misnamed(args, sig, i + 1);
        let a = args[i as int];
        if !(a.name is Some && vmod_args::slot_named(sig, a.name->0, 0) >= sig.len()) {
            assert(symbols::misnamed(args, sig, i) == symbols::misnamed(args, sig, i + 1));
        }
    }
}

/// Whether the word in an argument is allowed in its slot.
spec fn allowed_word(args: Seq<ArgV>, sig: Seq<ArgSpecV>, i: int) -> bool {
    match (symbols::allowed(args, sig, i), args[i].value) {
        (Some(ws), ExprV::Var(parts)) if parts.len() == 1 => ws.contains(parts[0]),
        _ => true,
    }
}

proof fn lemma_fit(args: Seq<ArgV>, sig: Seq<ArgSpecV>)
    ensures
        fit(args, sig) <==> symbols::args_fault(args, sig) is None && forall|i: int|
            0 <= i < args.len() ==> #[trigger] allowed_word(args, sig, i),
{
    lemma_misnamed(args, sig, 0);
    lemma_positional(args, args.len());
    assert forall|i: int| 0 <= i < args.len() && (#[trigger] args[i]).name is Some implies (
    vmod_args::slot_named(sig, args[i].name->0, 0) < sig.len() <==> exists|k: int|
        0 <= k < sig.len() && (#[trigger] sig[k]).name == args[i].name) by {
        lemma_slot(sig, args[i].name->0, 0);
    }
    assert forall|i: int| 0 <= i < args.len() implies (#[trigger] allowed_word(args, sig, i)
        <==> forall|k: int| #[trigger]
        belongs(args, sig, i, k) ==> match (sig[k].enum_values, args[i].value) {
            (Some(ws), ExprV::Var(parts)) if parts.len() == 1 => ws.contains(parts[0]),
            _ => true,
        }) by {
        lemma_positional(args, i as nat);
        let k = match args[i].name {
            Some(n) => vmod_args::slot_named(sig, n, 0),
            None => symbols::positional(args, i as nat),
        };
        match args[i].name {
            Some(n) => {
                lemma_slot(sig, n, 0);
                assert forall|l: int| #[trigger] belongs(args, sig, i, l) implies l == k by {}
            },
            None => {},
        }
        if k < sig.len() {
            assert(belongs(args, sig, i, k as int));
        }
    }
    if symbols::args_fault(args, sig) is None && forall|i: int|
        0 <= i < args.len() ==> #[trigger] allowed_word(args, sig, i) {
        assert forall|i: int, k: int|
            0 <= i < args.len() && #[trigger] belongs(args, sig, i, k) implies match (
            sig[k].enum_values,
            args[i].value,
        ) {
            (Some(ws), ExprV::Var(parts)) if parts.len() == 1 => ws.contains(parts[0]),
            _ => true,
        } by {
            assert(allowed_word(args, sig, i));
        }
    }
}

// ───────────────────────── expressions ─────────────────────────

/// Whether all calls in arguments from `i` on are right.
spec fn right_args(args: Seq<ArgV>, i: nat, v: EnvV) -> bool {
    forall|j: int| i <= j < args.len() ==> right_calls((#[trigger] args[j]).value, v)
}

proof fn lemma_right_call(e: ExprV, v: EnvV)
    requires
        e is Call,
    ensures
        right_calls(e, v) <==> right_call(e->target, e->Call_args, v) && right_args(
            e->Call_args,
            0,
            v,
        ),
{
    let (target, args) = (e->target, e->Call_args);
    if right_calls(e, v) {
        assert(has_expr(e, e));
        assert forall|j: int| 0 <= j < args.len() implies right_calls(
            (#[trigger] args[j]).value,
            v,
        ) by {
            assert forall|x: ExprV| #[trigger] has_expr(args[j].value, x) implies (
            x matches ExprV::Call { target, args } ==> right_call(target, args, v)) by {
                assert(has_arg(args, x));
                assert(has_expr(e, x));
            }
        }
    }
    if right_call(target, args, v) && right_args(args, 0, v) {
        assert forall|x: ExprV| #[trigger] has_expr(e, x) implies (x matches ExprV::Call {
            target,
            args,
        } ==> right_call(target, args, v)) by {
            if x != e {
                assert(has_arg(args, x));
                let j = choose|j: int|
                    0 <= j < args.len() && has_expr((#[trigger] args[j]).value, x);
                assert(right_calls(args[j].value, v));
            }
        }
    }
}

proof fn lemma_expr(e: ExprV, span: Span, v: EnvV)
    ensures
        symbols::expr_outcome(e, span, v).error is None <==> right_calls(e, v),
    decreases e, 0nat,
{
    match e {
        ExprV::Call { target, args } => {
            lemma_right_call(e, v);
            lemma_args(args, 0, span, v);
            if target.len() >= 2 {
                lemma_known(v, DeclKind::Import, target[0]);
            }
            match symbols::callee(v, target) {
                symbols::CalleeV::Known(sig) => {
                    lemma_fit(args, sig);
                    lemma_slots(args, sig, 0, span, v);
                },
                _ => {},
            }
        },
        ExprV::Unary { expr, .. } => {
            lemma_expr(*expr, span, v);
            assert forall|x: ExprV| x != e implies #[trigger] has_expr(e, x) == has_expr(
                *expr,
                x,
            ) by {}
            assert(right_calls(e, v) <==> right_calls(*expr, v)) by {
                if right_calls(e, v) {
                    assert forall|x: ExprV| #[trigger] has_expr(*expr, x) implies (
                    x matches ExprV::Call { target, args } ==> right_call(target, args, v)) by {
                        assert(has_expr(e, x));
                    }
                }
            }
        },
        ExprV::Binary { lhs, rhs, .. } => {
            lemma_expr(*lhs, span, v);
            lemma_expr(*rhs, span, v);
            assert(right_calls(e, v) <==> right_calls(*lhs, v) && right_calls(*rhs, v)) by {
                if right_calls(e, v) {
                    assert forall|x: ExprV| #[trigger] has_expr(*lhs, x) implies (
                    x matches ExprV::Call { target, args } ==> right_call(target, args, v)) by {
                        assert(has_expr(e, x));
                    }
                    assert forall|x: ExprV| #[trigger] has_expr(*rhs, x) implies (
                    x matches ExprV::Call { target, args } ==> right_call(target, args, v)) by {
                        assert(has_expr(e, x));
                    }
                }
                if right_calls(*lhs, v) && right_calls(*rhs, v) {
                    assert forall|x: ExprV| #[trigger] has_expr(e, x) implies (
                    x matches ExprV::Call { target, args } ==> right_call(target, args, v)) by {
                        assert(x == e || has_expr(*lhs, x) || has_expr(*rhs, x));
                    }
                }
            }
        },
        _ => {},
    }
}

proof fn lemma_args(args: Seq<ArgV>, i: nat, span: Span, v: EnvV)
    ensures
        symbols::args_outcome(args, i, span, v).error is None <==> right_args(args, i, v),
    decreases args, args.len() - i,
{
    if i < args.len() {
        lemma_expr(args[i as int].value, span, v);
        lemma_args(args, i + 1, span, v);
    }
}

proof fn lemma_slots(args: Seq<ArgV>, sig: Seq<ArgSpecV>, i: nat, span: Span, v: EnvV)
    ensures
        symbols::slots_outcome(args, sig, i, span, v).error is None <==> right_args(args, i, v)
            && forall|j: int| i <= j < args.len() ==> #[trigger] allowed_word(args, sig, j),
    decreases args, args.len() - i,
{
    if i < args.len() {
        lemma_expr(args[i as int].value, span, v);
        lemma_slots(args, sig, i + 1, span, v);
        assert(symbols::slot_outcome(args, sig, i as int, span, v).error is None <==> right_calls(
            args[i as int].value,
            v,
        ) && allowed_word(args, sig, i as int)) by {
            match (symbols::allowed(args, sig, i as int), args[i as int].value) {
                (Some(ws), ExprV::Var(parts)) if parts.len() == 1 => {
                    assert(right_calls(args[i as int].value, v));
                },
                _ => {},
            }
        }
    }
}

proof fn lemma_exprs(es: Seq<ExprV>, i: nat, span: Span, v: EnvV)
    ensures
        symbols::exprs_outcome(es, i, span, v).error is None <==> forall|j: int|
            i <= j < es.len() ==> right_calls(#[trigger] es[j], v),
    decreases es.len() - i,
{
    if i < es.len() {
        lemma_expr(es[i as int], span, v);
        lemma_exprs(es, i + 1, span, v);
    }
}

// ───────────────────────── statements ─────────────────────────

/// Whether a statement and what stands in it is right.
spec fn right_whole(s: StmtV, v: EnvV) -> bool {
    forall|x: StmtV| #[trigger] has_stmt(s, x) ==> right_stmt(x, v)
}

/// Whether the statements from `i` on are right.
spec fn right_from(ss: Seq<StmtV>, i: nat, v: EnvV) -> bool {
    forall|j: int| i <= j < ss.len() ==> right_whole(#[trigger] ss[j], v)
}

/// Whether the arms from `i` on are right.
spec fn right_arms(arms: Seq<ArmV>, i: nat, v: EnvV) -> bool {
    forall|j: int|
        i <= j < arms.len() ==> right_calls((#[trigger] arms[j]).cond, v) && right_stmts(
            arms[j].body,
            v,
        )
}

proof fn lemma_right_from(ss: Seq<StmtV>, v: EnvV)
    ensures
        right_from(ss, 0, v) <==> right_stmts(ss, v),
{
    if right_from(ss, 0, v) {
        assert forall|x: StmtV| #[trigger] has_in(ss, x) implies right_stmt(x, v) by {
            let i = choose|i: int| 0 <= i < ss.len() && has_stmt(#[trigger] ss[i], x);
            assert(right_whole(ss[i], v));
        }
    }
    if right_stmts(ss, v) {
        assert forall|j: int| 0 <= j < ss.len() implies right_whole(#[trigger] ss[j], v) by {
            assert forall|x: StmtV| #[trigger] has_stmt(ss[j], x) implies right_stmt(x, v) by {
                assert(has_in(ss, x));
            }
        }
    }
}

/// A statement that holds no other is right by itself.
proof fn lemma_alone(s: StmtV, v: EnvV)
    requires
        !(s is If),
    ensures
        right_whole(s, v) <==> right_stmt(s, v),
{
    assert(has_stmt(s, s));
    assert forall|x: StmtV| #[trigger] has_stmt(s, x) implies x == s by {}
}

/// The calls in the expression of a statement.
proof fn lemma_speaks(s: StmtV, e: ExprV, v: EnvV)
    requires
        forall|x: ExprV| #[trigger] speaks_of(s, x) == has_expr(e, x),
    ensures
        right_calls(e, v) <==> forall|x: ExprV| #[trigger]
            speaks_of(s, x) ==> (x matches ExprV::Call { target, args } ==> right_call(
                target,
                args,
                v,
            )),
{
    if right_calls(e, v) {
        assert forall|x: ExprV| #[trigger] speaks_of(s, x) implies (x matches ExprV::Call {
            target,
            args,
        } ==> right_call(target, args, v)) by {
            assert(has_expr(e, x));
        }
    } else {
        let x = choose|x: ExprV| #[trigger]
            has_expr(e, x) && !(x matches ExprV::Call { target, args } ==> right_call(
                target,
                args,
                v,
            ));
        assert(speaks_of(s, x));
    }
}

proof fn lemma_return(s: StmtV, v: EnvV)
    requires
        s is Return,
    ensures
        symbols::stmt_outcome(s, v).error is None <==> right_stmt(s, v),
{
    match s {
        StmtV::Return { action: Some(a), span } => {
            lemma_exprs(a.args, 0, span, v);
            let all = forall|j: int| 0 <= j < a.args.len() ==> right_calls(#[trigger] a.args[j], v);
            if all {
                assert forall|x: ExprV| #[trigger] speaks_of(s, x) implies (x matches ExprV::Call {
                    target,
                    args,
                } ==> right_call(target, args, v)) by {
                    let i = choose|i: int|
                        0 <= i < a.args.len() && has_expr(#[trigger] a.args[i], x);
                    assert(right_calls(a.args[i], v));
                }
            }
            if right_stmt(s, v) {
                assert forall|j: int| 0 <= j < a.args.len() implies right_calls(
                    #[trigger] a.args[j],
                    v,
                ) by {
                    assert forall|x: ExprV| #[trigger] has_expr(a.args[j], x) implies (
                    x matches ExprV::Call { target, args } ==> right_call(target, args, v)) by {
                        assert(speaks_of(s, x));
                    }
                }
            }
        },
        _ => {},
    }
}

/// An `if` is right where its conditions and what stands in it is.
proof fn lemma_if(s: StmtV, v: EnvV)
    requires
        s is If,
    ensures
        right_whole(s, v) <==> right_arms(s->arms, 0, v) && (s->else_body matches Some(b)
            ==> right_stmts(b, v)),
{
    let (arms, else_body) = (s->arms, s->else_body);
    if right_whole(s, v) {
        assert(has_stmt(s, s));
        assert forall|j: int| 0 <= j < arms.len() implies right_calls(
            (#[trigger] arms[j]).cond,
            v,
        ) && right_stmts(arms[j].body, v) by {
            assert forall|x: ExprV| #[trigger] has_expr(arms[j].cond, x) implies (
            x matches ExprV::Call { target, args } ==> right_call(target, args, v)) by {
                assert(speaks_of(s, x));
            }
            assert forall|x: StmtV| #[trigger] has_in(arms[j].body, x) implies right_stmt(x, v) by {
                assert(has_in_arms(arms, x));
                assert(has_stmt(s, x));
            }
        }
        if let Some(b) = else_body {
            assert forall|x: StmtV| #[trigger] has_in(b, x) implies right_stmt(x, v) by {
                assert(has_stmt(s, x));
            }
        }
    }
    if right_arms(arms, 0, v) && (else_body matches Some(b) ==> right_stmts(b, v)) {
        assert forall|x: StmtV| #[trigger] has_stmt(s, x) implies right_stmt(x, v) by {
            if x == s {
                assert forall|e: ExprV| #[trigger] speaks_of(s, e) implies (e matches ExprV::Call {
                    target,
                    args,
                } ==> right_call(target, args, v)) by {
                    let i = choose|i: int|
                        0 <= i < arms.len() && has_expr((#[trigger] arms[i]).cond, e);
                    assert(right_calls(arms[i].cond, v));
                }
            } else if has_in_arms(arms, x) {
                let i = choose|i: int| 0 <= i < arms.len() && has_in((#[trigger] arms[i]).body, x);
                assert(right_stmts(arms[i].body, v));
            } else {
                match else_body {
                    Some(b) => {
                        assert(has_in(b, x));
                    },
                    None => {},
                }
            }
        }
    }
}

proof fn lemma_stmt(s: StmtV, v: EnvV)
    ensures
        symbols::stmt_outcome(s, v).error is None <==> right_whole(s, v),
    decreases s,
{
    match s {
        StmtV::If { arms, else_body, span } => {
            lemma_if(s, v);
            lemma_arms(arms, 0, span, v);
            if let Some(b) = else_body {
                lemma_stmts(b, 0, v);
                lemma_right_from(b, v);
            }
        },
        StmtV::Assign { lhs, rhs, span } => {
            lemma_alone(s, v);
            lemma_expr(rhs, span, v);
            lemma_speaks(s, rhs, v);
            if let ExprV::Var(parts) = rhs {
                lemma_known(v, DeclKind::Backend, parts[0]);
                assert(right_calls(rhs, v));
            }
        },
        StmtV::Call { sub, .. } => {
            lemma_alone(s, v);
            lemma_known(v, DeclKind::Sub, sub);
        },
        StmtV::Return { .. } => {
            lemma_alone(s, v);
            lemma_return(s, v);
        },
        StmtV::Synthetic { value, span } => {
            lemma_alone(s, v);
            lemma_expr(value, span, v);
            lemma_speaks(s, value, v);
        },
        StmtV::Expr { expr, span } => {
            lemma_alone(s, v);
            lemma_expr(expr, span, v);
            lemma_speaks(s, expr, v);
        },
        _ => lemma_alone(s, v),
    }
}

proof fn lemma_stmts(ss: Seq<StmtV>, i: nat, v: EnvV)
    ensures
        symbols::stmts_outcome(ss, i, v).error is None <==> right_from(ss, i, v),
    decreases ss, ss.len() - i,
{
    if i < ss.len() {
        lemma_stmt(ss[i as int], v);
        lemma_stmts(ss, i + 1, v);
    }
}

proof fn lemma_arms(arms: Seq<ArmV>, i: nat, span: Span, v: EnvV)
    ensures
        symbols::arms_outcome(arms, i, span, v).error is None <==> right_arms(arms, i, v),
    decreases arms, arms.len() - i,
{
    if i < arms.len() {
        let a = arms[i as int];
        lemma_expr(a.cond, span, v);
        lemma_stmts(a.body, 0, v);
        lemma_right_from(a.body, v);
        lemma_arms(arms, i + 1, span, v);
    }
}

// ───────────────────────── fields and declarations ─────────────────────────

/// Whether the references in a field are right: a probe that it names is declared, and
/// so are those in a probe written in place, and its calls are right.
pub open spec fn right_field(f: FieldV, v: EnvV) -> bool
    decreases f,
{
    match f.value {
        FieldValueV::Expr(e) => right_calls(e, v),
        FieldValueV::Probe(fs) => right_fields(fs, v),
        FieldValueV::ProbeRef(n) => named(v.decls, DeclKind::Probe, n),
        FieldValueV::StringList(_) => true,
    }
}

/// Whether the references in fields are right.
pub open spec fn right_fields(fs: Seq<FieldV>, v: EnvV) -> bool
    decreases fs,
{
    forall|i: int| 0 <= i < fs.len() ==> right_field(#[trigger] fs[i], v)
}

proof fn lemma_field(f: FieldV, v: EnvV)
    ensures
        symbols::field_outcome(f, v).error is None <==> right_field(f, v),
    decreases f,
{
    match f.value {
        FieldValueV::Expr(e) => lemma_expr(e, f.span, v),
        FieldValueV::Probe(fs) => {
            lemma_fields(fs, 0, v);
            assert(right_fields(fs, v) <==> right_fields_from(fs, 0, v));
        },
        FieldValueV::ProbeRef(n) => lemma_known(v, DeclKind::Probe, n),
        _ => {},
    }
}

spec fn right_fields_from(fs: Seq<FieldV>, i: nat, v: EnvV) -> bool {
    forall|j: int| i <= j < fs.len() ==> right_field(#[trigger] fs[j], v)
}

proof fn lemma_fields(fs: Seq<FieldV>, i: nat, v: EnvV)
    ensures
        symbols::fields_outcome(fs, i, v).error is None <==> right_fields_from(fs, i, v),
    decreases fs, fs.len() - i,
{
    if i < fs.len() {
        lemma_field(fs[i as int], v);
        lemma_fields(fs, i + 1, v);
    }
}

/// Whether the references in a declaration are right.
pub open spec fn right_decl(d: DeclV, v: EnvV) -> bool {
    match d {
        DeclV::Backend { body, .. } => body matches Some(fs) ==> right_fields(fs, v),
        DeclV::Probe { body, .. } => right_fields(body, v),
        DeclV::Sub { body, .. } => right_stmts(body, v),
        _ => true,
    }
}

proof fn lemma_decls(ds: Seq<DeclV>, i: nat, v: EnvV)
    ensures
        symbols::decls_outcome(ds, i, v).error is None <==> forall|j: int|
            i <= j < ds.len() ==> right_decl(#[trigger] ds[j], v),
    decreases ds.len() - i,
{
    if i < ds.len() {
        lemma_decls(ds, i + 1, v);
        match ds[i as int] {
            DeclV::Backend { body: Some(fs), .. } => {
                lemma_fields(fs, 0, v);
                assert(right_fields(fs, v) <==> right_fields_from(fs, 0, v));
            },
            DeclV::Probe { body, .. } => {
                lemma_fields(body, 0, v);
                assert(right_fields(body, v) <==> right_fields_from(body, 0, v));
            },
            DeclV::Sub { body, .. } => {
                lemma_stmts(body, 0, v);
                lemma_right_from(body, v);
            },
            _ => {},
        }
    }
}

/// Whether a name is declared twice that may be declared only once: that of a backend,
/// a probe or an ACL, or of a subroutine that is not builtin.
pub open spec fn declared_twice(ds: Seq<DeclV>) -> bool {
    exists|i: int, j: int|
        0 <= i < j < ds.len() && match (#[trigger] ds[i], #[trigger] ds[j]) {
            (DeclV::Backend { name: a, .. }, DeclV::Backend { name: b, .. }) => a == b,
            (DeclV::Probe { name: a, .. }, DeclV::Probe { name: b, .. }) => a == b,
            (DeclV::Acl { name: a, .. }, DeclV::Acl { name: b, .. }) => a == b,
            (DeclV::Sub { name: a, .. }, DeclV::Sub { name: b, .. }) => a == b
                && !ast::builtin_name(a),
            _ => false,
        }
}

spec fn twice_from(ds: Seq<DeclV>, i: int) -> bool {
    exists|j: int| i <= j < ds.len() && (#[trigger] symbols::declaring(ds, j)).error is Some
}

proof fn lemma_declaring(ds: Seq<DeclV>, i: nat)
    ensures
        symbols::declaring_from(ds, i).error is Some <==> twice_from(ds, i as int),
    decreases ds.len() - i,
{
    if i < ds.len() {
        lemma_declaring(ds, i + 1);
        if symbols::declaring(ds, i as int).error is None && twice_from(ds, i as int) {
            let j = choose|j: int|
                i <= j < ds.len() && (#[trigger] symbols::declaring(ds, j)).error is Some;
            assert(j != i);
            assert(twice_from(ds, i as int + 1));
        }
    }
}

proof fn lemma_twice(ds: Seq<DeclV>)
    ensures
        twice_from(ds, 0) <==> declared_twice(ds),
{
    if twice_from(ds, 0) {
        let j = choose|j: int|
            0 <= j < ds.len() && (#[trigger] symbols::declaring(ds, j)).error is Some;
        let (k, n) = (symbols::decl_kind(ds[j]), ast::decl_name(ds[j]));
        let i = choose|i: int|
            0 <= i < j && symbols::decl_kind(#[trigger] ds[i]) == k && ast::decl_name(ds[i]) == n;
        assert(0 <= i < j && ds[i] == ds[i] && ds[j] == ds[j]);
    }
    if declared_twice(ds) {
        let (i, j) = choose|i: int, j: int|
            0 <= i < j < ds.len() && match (#[trigger] ds[i], #[trigger] ds[j]) {
                (DeclV::Backend { name: a, .. }, DeclV::Backend { name: b, .. }) => a == b,
                (DeclV::Probe { name: a, .. }, DeclV::Probe { name: b, .. }) => a == b,
                (DeclV::Acl { name: a, .. }, DeclV::Acl { name: b, .. }) => a == b,
                (DeclV::Sub { name: a, .. }, DeclV::Sub { name: b, .. }) => a == b
                    && !ast::builtin_name(a),
                _ => false,
            };
        assert(symbols::decl_kind(ds[i]) == symbols::decl_kind(ds[j]) && ast::decl_name(ds[i])
            == ast::decl_name(ds[j]));
        assert(symbols::declares(
            ds,
            j as nat,
            symbols::decl_kind(ds[j]),
            ast::decl_name(ds[j]),
        ));
        assert(symbols::declaring(ds, j).error is Some);
    }
}

/// The references of a program with the objects that it makes.
pub open spec fn env(p: ProgramV, specs: Map<Seq<char>, VmodSpec>) -> EnvV {
    let v = EnvV { decls: p.decls, objects: Map::empty(), specs };
    symbols::with_objects(v, symbols::made_by_decls(p.decls, 0, v).objects)
}

/// A program has no error exactly where no name is declared twice, its objects are
/// made without an error, and all its references are right.
pub proof fn law_errors_are_wrong_references(p: ProgramV, specs: Map<Seq<char>, VmodSpec>)
    ensures
        symbols::outcome(p, specs).error is None <==> {
            &&& !declared_twice(p.decls)
            &&& symbols::made_by_decls(
                p.decls,
                0,
                EnvV { decls: p.decls, objects: Map::empty(), specs },
            ).found.error is None
            &&& forall|i: int|
                0 <= i < p.decls.len() ==> right_decl(#[trigger] p.decls[i], env(p, specs))
        },
{
    lemma_declaring(p.decls, 0);
    lemma_twice(p.decls);
    lemma_decls(p.decls, 0, env(p, specs));
}

/// Where no error is found, every bare name that is assigned to a path whose last part
/// is `backend_hint` or `backend`, anywhere in the body of a subroutine, is the name of
/// a declared backend.
pub proof fn law_assigned_backends_are_declared(
    p: ProgramV,
    specs: Map<Seq<char>, VmodSpec>,
    i: int,
    x: StmtV,
    name: Seq<char>,
)
    requires
        symbols::outcome(p, specs).error is None,
        0 <= i < p.decls.len(),
        p.decls[i] matches DeclV::Sub { body, .. } && has_in(body, x),
        x matches StmtV::Assign { lhs, rhs, .. } && rhs == ExprV::Var(seq![name]) && lhs.len() > 0
            && (lhs.last() == "backend_hint"@ || lhs.last() == "backend"@),
    ensures
        exists|j: int|
            0 <= j < p.decls.len() && ((#[trigger] p.decls[j]) matches DeclV::Backend {
                name: n,
                ..
            } && n == name),
{
    law_errors_are_wrong_references(p, specs);
    let v = env(p, specs);
    assert(right_decl(p.decls[i], v));
    assert(right_stmt(x, v));
    assert(seq![name].len() == 1 && seq![name][0] == name);
    let ds = p.decls;
    assert(named(ds, DeclKind::Backend, name));
    let j = choose|j: int|
        0 <= j < ds.len() && (match #[trigger] ds[j] {
            DeclV::Import { name: n, .. } => false,
            DeclV::Backend { name: n, .. } => n == name,
            DeclV::Probe { name: n, .. } => false,
            DeclV::Acl { name: n, .. } => false,
            DeclV::Sub { name: n, .. } => false,
        });
    assert(p.decls[j] is Backend);
}

/// Where such a name is not that of a declared backend, an error is found.
pub proof fn law_undeclared_backends_are_errors(
    p: ProgramV,
    specs: Map<Seq<char>, VmodSpec>,
    i: int,
    x: StmtV,
    name: Seq<char>,
)
    requires
        0 <= i < p.decls.len(),
        p.decls[i] matches DeclV::Sub { body, .. } && has_in(body, x),
        x matches StmtV::Assign { lhs, rhs, .. } && rhs == ExprV::Var(seq![name]) && lhs.len() > 0
            && (lhs.last() == "backend_hint"@ || lhs.last() == "backend"@),
        forall|j: int|
            0 <= j < p.decls.len() ==> !((#[trigger] p.decls[j]) matches DeclV::Backend {
                name: n,
                ..
            } && n == name),
    ensures
        symbols::outcome(p, specs).error is Some,
{
    if symbols::outcome(p, specs).error is None {
        law_assigned_backends_are_declared(p, specs, i, x, name);
    }
}

/// Where no error is found, every call in the body of a subroutine is one of an object
/// or of an imported vmod, and fits what is described of it.
pub proof fn law_calls_fit(
    p: ProgramV,
    specs: Map<Seq<char>, VmodSpec>,
    i: int,
    x: StmtV,
    target: Seq<Seq<char>>,
    args: Seq<ArgV>,
)
    requires
        symbols::outcome(p, specs).error is None,
        0 <= i < p.decls.len(),
        p.decls[i] matches DeclV::Sub { body, .. } && has_in(body, x),
        speaks_of(x, (ExprV::Call { target, args })),
    ensures
        right_call(target, args, env(p, specs)),
{
    law_errors_are_wrong_references(p, specs);
    assert(right_decl(p.decls[i], env(p, specs)));
    assert(right_stmt(x, env(p, specs)));
}

// ───────────────────────── objects ─────────────────────────

/// Whether a `new` is right: its vmod is imported, and where that is described, it
/// has such a constructor, and the arguments fit its signature.
pub open spec fn right_new(x: StmtV, ds: Seq<DeclV>, specs: Map<Seq<char>, VmodSpec>) -> bool {
    x matches StmtV::New { vmod, ctor, args, .. } ==> named(ds, DeclKind::Import, vmod) && (
    specs.contains_key(vmod) ==> specs[vmod].objects@.contains_key(ctor) && fit(
        args,
        specs[vmod].objects@[ctor].init@,
    ))
}

/// Whether a table holds the object that a `new` makes.
pub open spec fn recorded(x: StmtV, r: Map<Seq<char>, InstanceV>) -> bool {
    x matches StmtV::New { name, vmod, ctor, .. } ==> r.contains_key(name) && r[name]
        == (InstanceV { vmod, ctor })
}

/// Whether a statement is a `new` of that name.
pub open spec fn makes(x: StmtV, n: Seq<char>) -> bool {
    x matches StmtV::New { name, .. } && name == n
}

spec fn kept(a: Map<Seq<char>, InstanceV>, b: Map<Seq<char>, InstanceV>) -> bool {
    forall|n: Seq<char>| #[trigger] a.contains_key(n) ==> b.contains_key(n) && b[n] == a[n]
}

spec fn fresh(x: StmtV, a: Map<Seq<char>, InstanceV>) -> bool {
    x matches StmtV::New { name, .. } ==> !a.contains_key(name)
}

spec fn has_from(ss: Seq<StmtV>, i: nat, x: StmtV) -> bool {
    exists|j: int| i <= j < ss.len() && has_stmt(#[trigger] ss[j], x)
}

spec fn has_arm_from(arms: Seq<ArmV>, i: nat, x: StmtV) -> bool {
    exists|j: int| i <= j < arms.len() && has_in((#[trigger] arms[j]).body, x)
}

spec fn made_well(x: StmtV, v: EnvV, r: Map<Seq<char>, InstanceV>) -> bool {
    right_new(x, v.decls, v.specs) && recorded(x, r) && fresh(x, v.objects)
}

proof fn lemma_new(x: StmtV, v: EnvV)
    requires
        x is New,
        symbols::made_here(x, v).found.error is None,
    ensures
        made_well(x, v, symbols::made_here(x, v).objects),
        kept(v.objects, symbols::made_here(x, v).objects),
{
    match x {
        StmtV::New { name, vmod, ctor, args, span } => {
            lemma_known(v, DeclKind::Import, vmod);
            if v.specs.contains_key(vmod) && v.specs[vmod].objects@.contains_key(ctor) {
                let sig = v.specs[vmod].objects@[ctor].init@;
                lemma_fit(args, sig);
                lemma_slots(args, sig, 0, span, v);
            }
        },
        _ => {},
    }
}

proof fn lemma_made_here(s: StmtV, v: EnvV)
    requires
        symbols::made_here(s, v).found.error is None,
    ensures
        kept(v.objects, symbols::made_here(s, v).objects),
        forall|x: StmtV| #[trigger]
            has_stmt(s, x) ==> made_well(x, v, symbols::made_here(s, v).objects),
        forall|n: Seq<char>| #[trigger]
            symbols::made_here(s, v).objects.contains_key(n) && !v.objects.contains_key(n)
                ==> exists|x: StmtV| #[trigger] has_stmt(s, x) && makes(x, n),
    decreases s, 0nat,
{
    match s {
        StmtV::New { name, .. } => {
            lemma_new(s, v);
            assert(has_stmt(s, s));
            assert(makes(s, name));
        },
        StmtV::If { arms, else_body, .. } => {
            let a = symbols::made_in_arms(arms, 0, v);
            let w = symbols::with_objects(v, a.objects);
            let r = symbols::made_here(s, v).objects;
            assert(a.found.error is None);
            lemma_made_arms(arms, 0, v);
            match else_body {
                Some(b) => {
                    lemma_made_from(b, 0, w);
                    assert forall|x: StmtV| #[trigger] has_stmt(s, x) implies made_well(x, v, r) by {
                        if has_in_arms(arms, x) {
                            assert(has_arm_from(arms, 0, x));
                        } else if has_in(b, x) {
                            assert(has_from(b, 0, x));
                        }
                    }
                    assert forall|n: Seq<char>| #[trigger]
                        r.contains_key(n) && !v.objects.contains_key(n) implies exists|x: StmtV|
                     #[trigger]
                        has_stmt(s, x) && makes(x, n) by {
                        if a.objects.contains_key(n) {
                            let x = choose|x: StmtV| #[trigger]
                                has_arm_from(arms, 0, x) && makes(x, n);
                            assert(has_in_arms(arms, x));
                            assert(has_stmt(s, x));
                        } else {
                            let x = choose|x: StmtV| #[trigger] has_from(b, 0, x) && makes(x, n);
                            assert(has_in(b, x));
                            assert(has_stmt(s, x));
                        }
                    }
                },
                None => {
                    assert forall|x: StmtV| #[trigger] has_stmt(s, x) implies made_well(x, v, r) by {
                        if has_in_arms(arms, x) {
                            assert(has_arm_from(arms, 0, x));
                        }
                    }
                    assert forall|n: Seq<char>| #[trigger]
                        r.contains_key(n) && !v.objects.contains_key(n) implies exists|x: StmtV|
                     #[trigger]
                        has_stmt(s, x) && makes(x, n) by {
                        let x = choose|x: StmtV| #[trigger]
                            has_arm_from(arms, 0, x) && makes(x, n);
                        assert(has_in_arms(arms, x));
                        assert(has_stmt(s, x));
                    }
                },
            }
        },
        _ => {},
    }
}

proof fn lemma_made_from(ss: Seq<StmtV>, i: nat, v: EnvV)
    requires
        symbols::made_from(ss, i, v).found.error is None,
    ensures
        kept(v.objects, symbols::made_from(ss, i, v).objects),
        forall|x: StmtV| #[trigger]
            has_from(ss, i, x) ==> made_well(x, v, symbols::made_from(ss, i, v).objects),
        forall|n: Seq<char>| #[trigger]
            symbols::made_from(ss, i, v).objects.contains_key(n) && !v.objects.contains_key(n)
                ==> exists|x: StmtV| #[trigger] has_from(ss, i, x) && makes(x, n),
    decreases ss, ss.len() - i,
{
    if i < ss.len() {
        let s = ss[i as int];
        let here = symbols::made_here(s, v);
        let w = symbols::with_objects(v, here.objects);
        let r = symbols::made_from(ss, i, v).objects;
        lemma_made_here(s, v);
        lemma_made_from(ss, i + 1, w);
        assert forall|x: StmtV| #[trigger] has_from(ss, i, x) implies made_well(x, v, r) by {
            if has_stmt(s, x) {
            } else {
                assert(has_from(ss, i + 1, x));
            }
        }
        assert forall|n: Seq<char>| #[trigger]
            r.contains_key(n) && !v.objects.contains_key(n) implies exists|x: StmtV| #[trigger]
            has_from(ss, i, x) && makes(x, n) by {
            if here.objects.contains_key(n) {
                let x = choose|x: StmtV| #[trigger] has_stmt(s, x) && makes(x, n);
                assert(has_from(ss, i, x));
            } else {
                let x = choose|x: StmtV| #[trigger] has_from(ss, i + 1, x) && makes(x, n);
                assert(has_from(ss, i, x));
            }
        }
    }
}

proof fn lemma_made_arms(arms: Seq<ArmV>, i: nat, v: EnvV)
    requires
        symbols::made_in_arms(arms, i, v).found.error is None,
    ensures
        kept(v.objects, symbols::made_in_arms(arms, i, v).objects),
        forall|x: StmtV| #[trigger]
            has_arm_from(arms, i, x) ==> made_well(x, v, symbols::made_in_arms(arms, i, v).objects),
        forall|n: Seq<char>| #[trigger]
            symbols::made_in_arms(arms, i, v).objects.contains_key(n) && !v.objects.contains_key(n)
                ==> exists|x: StmtV| #[trigger] has_arm_from(arms, i, x) && makes(x, n),
    decreases arms, arms.len() - i,
{
    if i < arms.len() {
        let body = arms[i as int].body;
        let here = symbols::made_from(body, 0, v);
        let w = symbols::with_objects(v, here.objects);
        let r = symbols::made_in_arms(arms, i, v).objects;
        lemma_made_from(body, 0, v);
        lemma_made_arms(arms, i + 1, w);
        assert forall|x: StmtV| #[trigger] has_arm_from(arms, i, x) implies made_well(x, v, r) by {
            if has_in(body, x) {
                assert(has_from(body, 0, x));
            } else {
                assert(has_arm_from(arms, i + 1, x));
            }
        }
        assert forall|n: Seq<char>| #[trigger]
            r.contains_key(n) && !v.objects.contains_key(n) implies exists|x: StmtV| #[trigger]
            has_arm_from(arms, i, x) && makes(x, n) by {
            if here.objects.contains_key(n) {
                let x = choose|x: StmtV| #[trigger] has_from(body, 0, x) && makes(x, n);
                assert(has_in(body, x));
                assert(has_arm_from(arms, i, x));
            } else {
                let x = choose|x: StmtV| #[trigger] has_arm_from(arms, i + 1, x) && makes(x, n);
                assert(has_arm_from(arms, i, x));
            }
        }
    }
}

proof fn lemma_no_new(ss: Seq<StmtV>, i: nat)
    requires
        symbols::first_new(ss, i) is None,
    ensures
        forall|x: StmtV| #[trigger] has_from(ss, i, x) ==> !(x is New),
    decreases ss, ss.len() - i,
{
    if i < ss.len() {
        lemma_no_new(ss, i + 1);
        let s = ss[i as int];
        match s {
            StmtV::If { arms, else_body, .. } => {
                lemma_no_new_arm(arms, 0);
                match else_body {
                    Some(b) => lemma_no_new(b, 0),
                    None => {},
                }
            },
            _ => {},
        }
        assert forall|x: StmtV| #[trigger] has_from(ss, i, x) implies !(x is New) by {
            if has_stmt(s, x) {
                match s {
                    StmtV::If { arms, else_body, .. } => {
                        if has_in_arms(arms, x) {
                            assert(has_arm_from(arms, 0, x));
                        } else if s != x {
                            assert(has_from(else_body->0, 0, x));
                        }
                    },
                    _ => {},
                }
            } else {
                assert(has_from(ss, i + 1, x));
            }
        }
    }
}

proof fn lemma_no_new_arm(arms: Seq<ArmV>, i: nat)
    requires
        symbols::first_new_arm(arms, i) is None,
    ensures
        forall|x: StmtV| #[trigger] has_arm_from(arms, i, x) ==> !(x is New),
    decreases arms, arms.len() - i,
{
    if i < arms.len() {
        let body = arms[i as int].body;
        lemma_no_new(body, 0);
        lemma_no_new_arm(arms, i + 1);
        assert forall|x: StmtV| #[trigger] has_arm_from(arms, i, x) implies !(x is New) by {
            if has_in(body, x) {
                assert(has_from(body, 0, x));
            } else {
                assert(has_arm_from(arms, i + 1, x));
            }
        }
    }
}

/// Whether a statement stands somewhere in the body of a declaration.
pub open spec fn has_decl(d: DeclV, x: StmtV) -> bool {
    d matches DeclV::Sub { body, .. } && has_in(body, x)
}

spec fn has_decl_from(ds: Seq<DeclV>, i: nat, x: StmtV) -> bool {
    exists|j: int| i <= j < ds.len() && has_decl(#[trigger] ds[j], x)
}

proof fn lemma_made_decl(ds: Seq<DeclV>, i: int, v: EnvV)
    requires
        0 <= i < ds.len(),
        symbols::made_by_decl(ds, i, v).found.error is None,
    ensures
        kept(v.objects, symbols::made_by_decl(ds, i, v).objects),
        forall|x: StmtV| #[trigger]
            has_decl(ds[i], x) ==> made_well(x, v, symbols::made_by_decl(ds, i, v).objects) && (
            x is New ==> symbols::reachable(ds, ast::decl_name(ds[i]))),
        forall|n: Seq<char>| #[trigger]
            symbols::made_by_decl(ds, i, v).objects.contains_key(n) && !v.objects.contains_key(n)
                ==> exists|x: StmtV| #[trigger] has_decl(ds[i], x) && makes(x, n),
{
    match ds[i] {
        DeclV::Sub { name, body, .. } => {
            if symbols::reachable(ds, name) {
                lemma_made_from(body, 0, v);
            } else {
                lemma_no_new(body, 0);
            }
            assert forall|x: StmtV| #[trigger] has_decl(ds[i], x) implies has_from(body, 0, x) by {}
            assert forall|n: Seq<char>| #[trigger]
                symbols::made_by_decl(ds, i, v).objects.contains_key(n) && !v.objects.contains_key(
                    n,
                ) implies exists|x: StmtV| #[trigger] has_decl(ds[i], x) && makes(x, n) by {
                let x = choose|x: StmtV| #[trigger] has_from(body, 0, x) && makes(x, n);
                assert(has_in(body, x));
                assert(has_decl(ds[i], x));
            }
        },
        _ => {},
    }
}

proof fn lemma_made_decls(ds: Seq<DeclV>, i: nat, v: EnvV)
    requires
        symbols::made_by_decls(ds, i, v).found.error is None,
    ensures
        kept(v.objects, symbols::made_by_decls(ds, i, v).objects),
        forall|j: int, x: StmtV|
            i <= j < ds.len() && #[trigger] has_decl(ds[j], x) ==> made_well(
                x,
                v,
                symbols::made_by_decls(ds, i, v).objects,
            ) && (x is New ==> symbols::reachable(ds, ast::decl_name(ds[j]))),
        forall|j: int, k: int, x: StmtV, y: StmtV|
            i <= j < k < ds.len() && #[trigger] has_decl(ds[j], x) && #[trigger] has_decl(ds[k], y)
                && x is New && y is New ==> x->New_name != y->New_name,
        forall|n: Seq<char>| #[trigger]
            symbols::made_by_decls(ds, i, v).objects.contains_key(n) && !v.objects.contains_key(n)
                ==> exists|x: StmtV| #[trigger] has_decl_from(ds, i, x) && makes(x, n),
    decreases ds.len() - i,
{
    if i < ds.len() {
        let here = symbols::made_by_decl(ds, i as int, v);
        let w = symbols::with_objects(v, here.objects);
        let r = symbols::made_by_decls(ds, i, v).objects;
        lemma_made_decl(ds, i as int, v);
        lemma_made_decls(ds, i + 1, w);
        assert forall|j: int, x: StmtV| i <= j < ds.len() && #[trigger] has_decl(ds[j], x) implies
            made_well(x, v, r) && (x is New ==> symbols::reachable(ds, ast::decl_name(ds[j]))) by {
            if j > i {
                assert(made_well(x, w, r));
            } else {
                assert(made_well(x, v, here.objects));
            }
        }
        assert forall|n: Seq<char>| #[trigger]
            r.contains_key(n) && !v.objects.contains_key(n) implies exists|x: StmtV| #[trigger]
            has_decl_from(ds, i, x) && makes(x, n) by {
            if here.objects.contains_key(n) {
                let x = choose|x: StmtV| #[trigger] has_decl(ds[i as int], x) && makes(x, n);
                assert(has_decl_from(ds, i, x));
            } else {
                let x = choose|x: StmtV| #[trigger] has_decl_from(ds, i + 1, x) && makes(x, n);
                assert(has_decl_from(ds, i, x));
            }
        }
    }
}

/// Where no error is found, every `new`, however deep it stands, is in a subroutine that
/// is reached from `vcl_init`, makes an object of an imported vmod by a constructor that
/// the vmod has, with arguments that fit, and the object is known by its name with that
/// vmod and that constructor; nothing else is known as an object, and no two
/// subroutines make objects of one name.
pub proof fn law_objects_are_what_is_made(p: ProgramV, specs: Map<Seq<char>, VmodSpec>)
    requires
        symbols::outcome(p, specs).error is None,
    ensures
        forall|i: int, x: StmtV|
            0 <= i < p.decls.len() && #[trigger] has_decl(p.decls[i], x) && x is New
                ==> symbols::reachable(p.decls, ast::decl_name(p.decls[i])) && right_new(
                x,
                p.decls,
                specs,
            ) && recorded(x, env(p, specs).objects),
        forall|i: int, j: int, x: StmtV, y: StmtV|
            0 <= i < j < p.decls.len() && #[trigger] has_decl(p.decls[i], x) && #[trigger] has_decl(
                p.decls[j],
                y,
            ) && x is New && y is New ==> x->New_name != y->New_name,
        forall|n: Seq<char>| #[trigger]
            env(p, specs).objects.contains_key(n) ==> exists|i: int, x: StmtV|
                0 <= i < p.decls.len() && #[trigger] has_decl(p.decls[i], x) && makes(x, n),
{
    let v = EnvV { decls: p.decls, objects: Map::empty(), specs };
    lemma_made_decls(p.decls, 0, v);
    assert forall|n: Seq<char>| #[trigger] env(p, specs).objects.contains_key(n) implies exists|
        i: int,
        x: StmtV,
    |
        0 <= i < p.decls.len() && #[trigger] has_decl(p.decls[i], x) && makes(x, n) by {
        let x = choose|x: StmtV| #[trigger] has_decl_from(p.decls, 0, x) && makes(x, n);
        let i = choose|i: int| 0 <= i < p.decls.len() && has_decl(#[trigger] p.decls[i], x);
        assert(has_decl(p.decls[i], x));
    }
}

} // verus!
