//! What the descriptions of vmods make of a program that can be written can be
//! written too, where no argument is left out before another one.

use crate::ast;
use crate::ast::{ArgV, ArmV, DeclV, ErrV, ExprV, ProgramV, Span, StmtV};
use crate::normalize::merge;
use crate::normalize::probes;
use crate::normalize::vmod_args;
use crate::normalize::vmod_args::KnownV;
use crate::readback;
use crate::vmod::ArgSpecV;
use crate::vmod::VmodSpec;
use vstd::prelude::*;

verus! {

// ───────────────────────── nothing left out ─────────────────────────

/// Whether no argument is left out in an expression.
pub open spec fn full_expr(e: ExprV) -> bool
    decreases e,
{
    match e {
        ExprV::Omitted => false,
        ExprV::Call { args, .. } => full_args(args),
        ExprV::Unary { expr, .. } => full_expr(*expr),
        ExprV::Binary { lhs, rhs, .. } => full_expr(*lhs) && full_expr(*rhs),
        _ => true,
    }
}

/// Whether no argument is left out in an argument.
pub open spec fn full_arg(a: ArgV) -> bool
    decreases a,
{
    full_expr(a.value)
}

/// Whether no argument is left out.
pub open spec fn full_args(s: Seq<ArgV>) -> bool
    decreases s,
{
    forall|i: int| 0 <= i < s.len() ==> full_arg(#[trigger] s[i])
}

/// Whether no argument is left out in expressions.
pub open spec fn full_exprs(s: Seq<ExprV>) -> bool {
    forall|i: int| 0 <= i < s.len() ==> full_expr(#[trigger] s[i])
}

/// Whether no argument is left out in a statement.
pub open spec fn full_stmt(s: StmtV) -> bool
    decreases s,
{
    match s {
        StmtV::Assign { rhs, .. } => full_expr(rhs),
        StmtV::Unset { .. } => true,
        StmtV::Call { .. } => true,
        StmtV::Return { action, .. } => match action {
            Some(a) => full_exprs(a.args),
            None => true,
        },
        StmtV::Synthetic { value, .. } => full_expr(value),
        StmtV::If { arms, else_body, .. } => full_arms(arms) && match else_body {
            Some(b) => full_stmts(b),
            None => true,
        },
        StmtV::New { args, .. } => full_args(args),
        StmtV::Expr { expr, .. } => full_expr(expr),
    }
}

/// Whether no argument is left out in statements.
pub open spec fn full_stmts(s: Seq<StmtV>) -> bool
    decreases s,
{
    forall|i: int| 0 <= i < s.len() ==> full_stmt(#[trigger] s[i])
}

/// Whether no argument is left out in an arm.
pub open spec fn full_arm(a: ArmV) -> bool
    decreases a,
{
    full_expr(a.cond) && full_stmts(a.body)
}

/// Whether no argument is left out in arms.
pub open spec fn full_arms(s: Seq<ArmV>) -> bool
    decreases s,
{
    forall|i: int| 0 <= i < s.len() ==> full_arm(#[trigger] s[i])
}

/// Whether no argument is left out in the subroutines: none that a description
/// names stands empty, or holds its default, before one that is given.
pub open spec fn full_bodies(ds: Seq<DeclV>) -> bool {
    forall|i: int|
        0 <= i < ds.len() ==> ((#[trigger] ds[i]) matches DeclV::Sub { body, .. } ==> full_stmts(
            body,
        ))
}

// ───────────────────────── what can be written is full ─────────────────────────

proof fn lemma_full_expr(e: ExprV)
    requires
        readback::can_expr(e),
    ensures
        full_expr(e),
    decreases e, 0nat,
{
    match e {
        ExprV::Call { args, .. } => lemma_full_args(args),
        ExprV::Unary { expr, .. } => lemma_full_expr(*expr),
        ExprV::Binary { lhs, rhs, .. } => {
            lemma_full_expr(*lhs);
            lemma_full_expr(*rhs);
        },
        _ => {},
    }
}

proof fn lemma_full_args(s: Seq<ArgV>)
    requires
        readback::can_args(s),
    ensures
        full_args(s),
    decreases s, 0nat,
{
    assert forall|i: int| 0 <= i < s.len() implies full_arg(#[trigger] s[i]) by {
        assert(readback::can_arg(s[i]));
        lemma_full_expr(s[i].value);
    }
}

proof fn lemma_full_stmt(s: StmtV)
    requires
        readback::can_stmt(s),
    ensures
        full_stmt(s),
    decreases s, 0nat,
{
    match s {
        StmtV::Assign { rhs, .. } => lemma_full_expr(rhs),
        StmtV::Return { action: Some(a), .. } => {
            assert forall|i: int| 0 <= i < a.args.len() implies full_expr(#[trigger] a.args[i]) by {
                assert(readback::can_expr(a.args[i]));
                lemma_full_expr(a.args[i]);
            }
        },
        StmtV::Synthetic { value, .. } => lemma_full_expr(value),
        StmtV::If { arms, else_body, .. } => {
            lemma_full_arms(arms);
            match else_body {
                Some(b) => lemma_full_stmts(b),
                None => {},
            }
        },
        StmtV::New { args, .. } => lemma_full_args(args),
        StmtV::Expr { expr, .. } => match expr {
            ExprV::Call { args, .. } => lemma_full_args(args),
            _ => {},
        },
        _ => {},
    }
}

pub(crate) proof fn lemma_full_stmts(s: Seq<StmtV>)
    requires
        readback::can_stmts(s),
    ensures
        full_stmts(s),
    decreases s, 0nat,
{
    assert forall|i: int| 0 <= i < s.len() implies full_stmt(#[trigger] s[i]) by {
        assert(readback::can_stmt(s[i]));
        lemma_full_stmt(s[i]);
    }
}

proof fn lemma_full_arms(s: Seq<ArmV>)
    requires
        readback::can_arms(s),
    ensures
        full_arms(s),
    decreases s, 0nat,
{
    assert forall|i: int| 0 <= i < s.len() implies full_arm(#[trigger] s[i]) by {
        assert(readback::can_arm(s[i]));
        lemma_full_expr(s[i].cond);
        lemma_full_stmts(s[i].body);
    }
}

// ───────────────────────── the pass ─────────────────────────

/// What the pass makes of each argument.
proof fn lemma_each_arg(whole: ExprV, list: Seq<ArgV>, k: KnownV, x: Span, n: nat, i: int)
    requires
        0 <= i < n <= list.len(),
    ensures
        vmod_args::pass_args(whole, list, k, x, n) matches Ok(done) ==> {
            &&& done.len() == n
            &&& done[i].name == list[i].name
            &&& if decreases_to!(whole => list[i].value) {
                vmod_args::pass_expr(list[i].value, k, x) == Ok::<ExprV, ErrV>(done[i].value)
            } else {
                done[i].value == list[i].value
            }
        },
    decreases n,
{
    lemma_args_len(whole, list, k, x, (n - 1) as nat);
    if i < n - 1 {
        lemma_each_arg(whole, list, k, x, (n - 1) as nat, i);
    }
}

proof fn lemma_args_len(whole: ExprV, list: Seq<ArgV>, k: KnownV, x: Span, n: nat)
    requires
        n <= list.len(),
    ensures
        vmod_args::pass_args(whole, list, k, x, n) matches Ok(done) ==> done.len() == n,
    decreases n,
{
    if n > 0 {
        lemma_args_len(whole, list, k, x, (n - 1) as nat);
    }
}

/// Arguments by a signature have no names.
proof fn lemma_nameless(args: Seq<ArgV>, sig: Seq<ArgSpecV>, x: Span, i: int)
    requires
        vmod_args::rewritten(args, sig, x) matches Ok(list) && 0 <= i < list.len(),
    ensures
        vmod_args::rewritten(args, sig, x)->Ok_0[i].name is None,
{
    match vmod_args::fill_slots(args, sig, x, 0, 0, vmod_args::no_slots(sig.len())) {
        Ok(slots) => {
            let all = vmod_args::slot_args(sig, slots);
            vmod_args::lemma_trimmed_prefix(all);
            assert(vmod_args::trimmed(all)[i] == all[i]);
        },
        Err(_) => {},
    }
}

proof fn lemma_called(
    whole: ExprV,
    args: Seq<ArgV>,
    sig: Option<Seq<ArgSpecV>>,
    list: Seq<ArgV>,
    done: Seq<ArgV>,
    k: KnownV,
    x: Span,
)
    requires
        whole is Call,
        whole->Call_args == args,
        readback::can_args(args),
        vmod_args::by_sig(args, sig, x) == Ok::<Seq<ArgV>, ErrV>(list),
        vmod_args::pass_args(whole, list, k, x, list.len()) == Ok::<Seq<ArgV>, ErrV>(done),
        full_args(done),
    ensures
        readback::can_args(done),
    decreases whole, 0nat,
{
    vmod_args::lemma_by_sig_taken(args, sig, x);
    lemma_args_len(whole, list, k, x, list.len());
    assert forall|i: int| 0 <= i < done.len() implies readback::can_arg(#[trigger] done[i]) by {
        lemma_each_arg(whole, list, k, x, list.len(), i);
        assert(full_arg(done[i]));
        let v = list[i].value;
        assert(!(v is Omitted));
        let j = choose|j: int| 0 <= j < args.len() && v == (#[trigger] args[j]).value;
        assert(decreases_to!(whole => args[j].value));
        assert(readback::can_arg(args[j]));
        lemma_pass_expr(v, k, x);
        match sig {
            Some(s) => lemma_nameless(args, s, x, i),
            None => {
                assert(readback::can_arg(args[i]));
            },
        }
    }
}

proof fn lemma_pass_expr(e: ExprV, k: KnownV, x: Span)
    requires
        readback::can_expr(e),
        vmod_args::pass_expr(e, k, x) matches Ok(v) && full_expr(v),
    ensures
        readback::can_expr(vmod_args::pass_expr(e, k, x)->Ok_0),
    decreases e, 1nat,
{
    match e {
        ExprV::Call { target, args } => {
            let sig = vmod_args::call_sig(k, target);
            let list = vmod_args::by_sig(args, sig, x)->Ok_0;
            let done = vmod_args::pass_args(e, list, k, x, list.len())->Ok_0;
            lemma_called(e, args, sig, list, done, k, x);
        },
        ExprV::Unary { expr, .. } => lemma_pass_expr(*expr, k, x),
        ExprV::Binary { lhs, rhs, .. } => {
            lemma_pass_expr(*lhs, k, x);
            lemma_pass_expr(*rhs, k, x);
        },
        _ => {},
    }
}

proof fn lemma_pass_exprs(es: Seq<ExprV>, k: KnownV, x: Span, n: nat)
    requires
        n <= es.len(),
        readback::can_exprs(es),
        vmod_args::pass_exprs(es, k, x, n) matches Ok(r) && full_exprs(r),
    ensures
        readback::can_exprs(vmod_args::pass_exprs(es, k, x, n)->Ok_0),
    decreases n,
{
    if n > 0 {
        let before = vmod_args::pass_exprs(es, k, x, (n - 1) as nat)->Ok_0;
        let v = vmod_args::pass_expr(es[n - 1], k, x)->Ok_0;
        let r = before.push(v);
        assert forall|i: int| 0 <= i < before.len() implies full_expr(#[trigger] before[i]) by {
            assert(full_expr(r[i]));
        }
        assert(full_expr(r[before.len() as int]));
        assert(readback::can_expr(es[n - 1]));
        lemma_pass_exprs(es, k, x, (n - 1) as nat);
        lemma_pass_expr(es[n - 1], k, x);
    }
}

/// What stays of a statement.
spec fn same_ends(s: StmtV, r: StmtV) -> bool {
    readback::open_if(r) == readback::open_if(s) && readback::goes_on_if(r) == readback::goes_on_if(
        s,
    )
}

proof fn lemma_pass_stmt(s: StmtV, k: KnownV)
    requires
        readback::can_stmt(s),
        vmod_args::pass_stmt(s, k) matches Ok(r) && full_stmt(r),
    ensures
        readback::can_stmt(vmod_args::pass_stmt(s, k)->Ok_0),
        same_ends(s, vmod_args::pass_stmt(s, k)->Ok_0),
    decreases s, 0nat,
{
    let x = ast::stmt_span(s);
    match s {
        StmtV::Assign { rhs, .. } => lemma_pass_expr(rhs, k, x),
        StmtV::Return { action: Some(a), .. } => lemma_pass_exprs(a.args, k, x, a.args.len()),
        StmtV::Synthetic { value, .. } => lemma_pass_expr(value, k, x),
        StmtV::If { arms, else_body, .. } => {
            lemma_pass_arms(arms, k, x, arms.len());
            match else_body {
                Some(b) => lemma_pass_stmts(b, k, b.len()),
                None => {},
            }
        },
        StmtV::New { vmod, ctor, args, .. } => {
            let sig = vmod_args::ctor_sig(k, vmod, ctor);
            let whole = vmod_args::ctor_call(vmod, ctor, args);
            let list = vmod_args::by_sig(args, sig, x)->Ok_0;
            let done = vmod_args::pass_args(whole, list, k, x, list.len())->Ok_0;
            lemma_called(whole, args, sig, list, done, k, x);
        },
        StmtV::Expr { expr, .. } => match expr {
            ExprV::Call { target, args } => {
                let sig = vmod_args::call_sig(k, target);
                let list = vmod_args::by_sig(args, sig, x)->Ok_0;
                let done = vmod_args::pass_args(expr, list, k, x, list.len())->Ok_0;
                lemma_called(expr, args, sig, list, done, k, x);
            },
            _ => {},
        },
        _ => {},
    }
}

/// What stays of statements.
spec fn all_same_ends(ss: Seq<StmtV>, r: Seq<StmtV>, n: nat) -> bool {
    r.len() == n && forall|i: int| 0 <= i < n ==> same_ends(ss[i], #[trigger] r[i])
}

proof fn lemma_pass_stmts(ss: Seq<StmtV>, k: KnownV, n: nat)
    requires
        n <= ss.len(),
        readback::can_stmts(ss),
        vmod_args::pass_stmts(ss, k, n) matches Ok(r) && full_stmts(r),
    ensures
        readback::can_stmts(vmod_args::pass_stmts(ss, k, n)->Ok_0),
        all_same_ends(ss, vmod_args::pass_stmts(ss, k, n)->Ok_0, n),
    decreases ss, n,
{
    if n > 0 {
        let before = vmod_args::pass_stmts(ss, k, (n - 1) as nat)->Ok_0;
        let v = vmod_args::pass_stmt(ss[n - 1], k)->Ok_0;
        let r = before.push(v);
        assert forall|i: int| 0 <= i < before.len() implies full_stmt(#[trigger] before[i]) by {
            assert(full_stmt(r[i]));
        }
        assert(full_stmt(r[before.len() as int]));
        assert(readback::can_stmt(ss[n - 1]));
        lemma_pass_stmts(ss, k, (n - 1) as nat);
        lemma_pass_stmt(ss[n - 1], k);
        assert forall|i: int| 0 <= i < r.len() implies readback::can_stmt(#[trigger] r[i])
            && same_ends(ss[i], r[i]) by {
            if i < n - 1 {
                assert(r[i] == before[i]);
            }
        }
        assert forall|i: int| 0 < i < r.len() implies #[trigger] readback::ended_before(r, i) by {
            assert(readback::ended_before(ss, i));
            assert(same_ends(ss[i - 1], r[i - 1]) && same_ends(ss[i], r[i]));
        }
    }
}

proof fn lemma_pass_arms(arms: Seq<ArmV>, k: KnownV, x: Span, n: nat)
    requires
        n <= arms.len(),
        readback::can_arms(arms),
        vmod_args::pass_arms(arms, k, x, n) matches Ok(r) && full_arms(r),
    ensures
        readback::can_arms(vmod_args::pass_arms(arms, k, x, n)->Ok_0),
        vmod_args::pass_arms(arms, k, x, n)->Ok_0.len() == n,
    decreases arms, n,
{
    if n > 0 {
        let a = arms[n - 1];
        let before = vmod_args::pass_arms(arms, k, x, (n - 1) as nat)->Ok_0;
        let cond = vmod_args::pass_expr(a.cond, k, x)->Ok_0;
        let body = vmod_args::pass_stmts(a.body, k, a.body.len())->Ok_0;
        let r = before.push(ArmV { cond, body });
        assert forall|i: int| 0 <= i < before.len() implies full_arm(#[trigger] before[i]) by {
            assert(full_arm(r[i]));
        }
        assert(full_arm(r[before.len() as int]));
        assert(readback::can_arm(a));
        lemma_pass_arms(arms, k, x, (n - 1) as nat);
        lemma_pass_expr(a.cond, k, x);
        lemma_pass_stmts(a.body, k, a.body.len());
        assert forall|i: int| 0 <= i < r.len() implies readback::can_arm(#[trigger] r[i]) by {
            if i < n - 1 {
                assert(r[i] == before[i]);
            }
        }
    }
}

/// Whether a declaration is another one but for the arguments in it.
spec fn like_decl(d: DeclV, e: DeclV) -> bool {
    match (d, e) {
        (DeclV::Sub { name, body, .. }, DeclV::Sub { name: n, body: b, .. }) => name == n
            && all_same_ends(body, b, body.len()),
        _ => d == e,
    }
}

proof fn lemma_pass_decls(ds: Seq<DeclV>, k: KnownV, n: nat)
    requires
        n <= ds.len(),
        readback::can_decls(ds),
        vmod_args::pass_decls(ds, k, n) matches Ok(r) && full_bodies(r),
    ensures
        ({
            let r = vmod_args::pass_decls(ds, k, n)->Ok_0;
            &&& r.len() == n
            &&& readback::can_decls(r)
            &&& forall|i: int| 0 <= i < n ==> like_decl(ds[i], #[trigger] r[i])
        }),
    decreases n,
{
    if n > 0 {
        let before = vmod_args::pass_decls(ds, k, (n - 1) as nat)->Ok_0;
        let r = vmod_args::pass_decls(ds, k, n)->Ok_0;
        assert(r.drop_last() =~= before);
        assert forall|i: int| 0 <= i < before.len() implies ((#[trigger] before[i]) matches DeclV::Sub {
            body,
            ..
        } ==> full_stmts(body)) by {
            assert(r[i] == before[i]);
        }
        lemma_pass_decls(ds, k, (n - 1) as nat);
        assert(readback::can_decl(ds[n - 1]));
        match ds[n - 1] {
            DeclV::Sub { body, .. } => {
                assert(r[n - 1] is Sub);
                lemma_pass_stmts(body, k, body.len());
            },
            _ => {},
        }
        assert forall|i: int| 0 <= i < r.len() implies readback::can_decl(#[trigger] r[i])
            && like_decl(ds[i], r[i]) by {
            if i < n - 1 {
                assert(r[i] == before[i]);
            }
        }
    }
}

/// What stays of the pieces of a subroutine.
proof fn lemma_pieces(ds: Seq<DeclV>, r: Seq<DeclV>, name: Seq<char>, n: nat)
    requires
        n <= ds.len(),
        r.len() == ds.len(),
        forall|i: int| 0 <= i < ds.len() ==> like_decl(ds[i], #[trigger] r[i]),
    ensures
        all_same_ends(
            merge::pieces(ds, name, n),
            merge::pieces(r, name, n),
            merge::pieces(ds, name, n).len(),
        ),
    decreases n,
{
    if n > 0 {
        lemma_pieces(ds, r, name, (n - 1) as nat);
        let (a, b) = (
            merge::pieces(ds, name, (n - 1) as nat),
            merge::pieces(r, name, (n - 1) as nat),
        );
        assert(like_decl(ds[n - 1], r[n - 1]));
        match (ds[n - 1], r[n - 1]) {
            (DeclV::Sub { name: m, body, .. }, DeclV::Sub { body: c, .. }) => if m == name {
                let (s, t) = (a + body, b + c);
                assert forall|i: int| 0 <= i < s.len() implies same_ends(s[i], #[trigger] t[i]) by {
                    if i < a.len() {
                        assert(same_ends(a[i], b[i]));
                    } else {
                        assert(same_ends(body[i - a.len()], c[i - a.len()]));
                    }
                }
            },
            _ => {},
        }
    }
}

/// Statements that end alike meet alike.
proof fn lemma_meet_alike(s: Seq<StmtV>, r: Seq<StmtV>, i: int)
    requires
        all_same_ends(s, r, s.len()),
        0 < i < s.len(),
        readback::ended_before(s, i),
    ensures
        readback::ended_before(r, i),
{
    assert(same_ends(s[i - 1], r[i - 1]) && same_ends(s[i], r[i]));
}

/// What the descriptions make of declarations that can be written, where nothing
/// is left out: they can be written, and the pieces of their subroutines meet as
/// they did.
pub(crate) proof fn lemma_described(p: ProgramV, specs: Map<Seq<char>, VmodSpec>)
    requires
        readback::can_decls(p.decls),
        vmod_args::pass_program(p, specs) matches Ok(r) && full_bodies(r.decls),
    ensures
        ({
            let r = vmod_args::pass_program(p, specs)->Ok_0;
            &&& readback::can_decls(r.decls)
            &&& r.decls.len() == p.decls.len()
            &&& forall|name: Seq<char>|
                merge::pieces(p.decls, name, p.decls.len()).len() == (#[trigger] merge::pieces(
                    r.decls,
                    name,
                    r.decls.len(),
                )).len()
            &&& forall|name: Seq<char>, i: int|
                0 < i < merge::pieces(r.decls, name, r.decls.len()).len()
                    && readback::ended_before(merge::pieces(p.decls, name, p.decls.len()), i)
                    ==> #[trigger] readback::ended_before(
                    merge::pieces(r.decls, name, r.decls.len()),
                    i,
                )
        }),
{
    let k = KnownV { specs, instances: vmod_args::instances_of(p.decls, p.decls.len()) };
    lemma_pass_decls(p.decls, k, p.decls.len());
    let r = vmod_args::pass_program(p, specs)->Ok_0;
    assert forall|name: Seq<char>|
        merge::pieces(p.decls, name, p.decls.len()).len() == (#[trigger] merge::pieces(
            r.decls,
            name,
            r.decls.len(),
        )).len() by {
        lemma_pieces(p.decls, r.decls, name, p.decls.len());
    }
    assert forall|name: Seq<char>, i: int|
        0 < i < merge::pieces(r.decls, name, r.decls.len()).len() && readback::ended_before(
            merge::pieces(p.decls, name, p.decls.len()),
            i,
        ) implies #[trigger] readback::ended_before(
        merge::pieces(r.decls, name, r.decls.len()),
        i,
    ) by {
        lemma_pieces(p.decls, r.decls, name, p.decls.len());
        lemma_meet_alike(
            merge::pieces(p.decls, name, p.decls.len()),
            merge::pieces(r.decls, name, r.decls.len()),
            i,
        );
    }
}

/// Nothing was left out in the subroutines before the probes were lifted where
/// nothing is afterwards.
pub(crate) proof fn lemma_full_lifted(ds: Seq<DeclV>)
    requires
        full_bodies(probes::lifted_decls(ds)),
    ensures
        full_bodies(ds),
{
    let r = probes::lifted_decls(ds);
    assert forall|i: int| 0 <= i < ds.len() implies ((#[trigger] ds[i]) matches DeclV::Sub {
        body,
        ..
    } ==> full_stmts(body)) by {
        assert(r[i] == probes::lifted_decl(ds, i));
    }
}

} // verus!
