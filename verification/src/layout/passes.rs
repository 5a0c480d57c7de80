//! The passes do not look at places: a bare program becomes what the program
//! becomes, without the places.

use crate::ast;
use crate::ast::{ArgV, ArmV, DeclV, ExprV, FieldV, FieldValueV, ProgramV, Span, StmtV};
use crate::layout;
use crate::normalize::literals;
use crate::normalize::merge;
use crate::normalize::probes;
use crate::normalize::sort;
use crate::normalize::vmod_args;
use crate::normalize::vmod_args::{InstanceV, KnownV};
use crate::order;
use crate::vmod::{ArgSpecV, VmodSpec};
use vstd::prelude::*;

verus! {

// ───────────────────────── literals ─────────────────────────

proof fn lemma_lit_expr(e: ExprV)
    ensures
        literals::lit_expr(layout::bare_expr(e)) == layout::bare_expr(literals::lit_expr(e)),
    decreases e,
{
    match e {
        ExprV::Call { args, .. } => lemma_lit_args(args),
        ExprV::Unary { expr, .. } => lemma_lit_expr(*expr),
        ExprV::Binary { lhs, rhs, .. } => {
            lemma_lit_expr(*lhs);
            lemma_lit_expr(*rhs);
        },
        _ => {},
    }
}

proof fn lemma_lit_args(s: Seq<ArgV>)
    ensures
        literals::lit_args(layout::bare_args(s)) == layout::bare_args(literals::lit_args(s)),
    decreases s,
{
    let a = literals::lit_args(layout::bare_args(s));
    let b = layout::bare_args(literals::lit_args(s));
    assert forall|i: int| 0 <= i < s.len() implies a[i] == b[i] by {
        lemma_lit_expr(s[i].value);
        assert(a[i] == literals::lit_arg(layout::bare_arg(s[i])));
        assert(b[i] == layout::bare_arg(literals::lit_arg(s[i])));
    }
    assert(a =~= b);
}

proof fn lemma_lit_exprs(s: Seq<ExprV>)
    ensures
        literals::lit_exprs(layout::bare_exprs(s)) == layout::bare_exprs(literals::lit_exprs(s)),
{
    let a = literals::lit_exprs(layout::bare_exprs(s));
    let b = layout::bare_exprs(literals::lit_exprs(s));
    assert forall|i: int| 0 <= i < s.len() implies a[i] == b[i] by {
        lemma_lit_expr(s[i]);
    }
    assert(a =~= b);
}

proof fn lemma_lit_stmt(s: StmtV)
    ensures
        literals::lit_stmt(layout::bare_stmt(s)) == layout::bare_stmt(literals::lit_stmt(s)),
    decreases s,
{
    match s {
        StmtV::Assign { rhs, .. } => lemma_lit_expr(rhs),
        StmtV::Return { action: Some(a), .. } => lemma_lit_exprs(a.args),
        StmtV::Synthetic { value, .. } => lemma_lit_expr(value),
        StmtV::If { arms, else_body, .. } => {
            lemma_lit_arms(arms);
            match else_body {
                Some(b) => lemma_lit_stmts(b),
                None => {},
            }
        },
        StmtV::New { args, .. } => lemma_lit_args(args),
        StmtV::Expr { expr, .. } => lemma_lit_expr(expr),
        _ => {},
    }
}

proof fn lemma_lit_stmts(s: Seq<StmtV>)
    ensures
        literals::lit_stmts(layout::bare_stmts(s)) == layout::bare_stmts(literals::lit_stmts(s)),
    decreases s,
{
    let a = literals::lit_stmts(layout::bare_stmts(s));
    let b = layout::bare_stmts(literals::lit_stmts(s));
    assert forall|i: int| 0 <= i < s.len() implies a[i] == b[i] by {
        lemma_lit_stmt(s[i]);
        assert(a[i] == literals::lit_stmt(layout::bare_stmt(s[i])));
        assert(b[i] == layout::bare_stmt(literals::lit_stmt(s[i])));
    }
    assert(a =~= b);
}

proof fn lemma_lit_arms(s: Seq<ArmV>)
    ensures
        literals::lit_arms(layout::bare_arms(s)) == layout::bare_arms(literals::lit_arms(s)),
    decreases s,
{
    let a = literals::lit_arms(layout::bare_arms(s));
    let b = layout::bare_arms(literals::lit_arms(s));
    assert forall|i: int| 0 <= i < s.len() implies a[i] == b[i] by {
        lemma_lit_expr(s[i].cond);
        lemma_lit_stmts(s[i].body);
        assert(a[i] == literals::lit_arm(layout::bare_arm(s[i])));
        assert(b[i] == layout::bare_arm(literals::lit_arm(s[i])));
    }
    assert(a =~= b);
}

proof fn lemma_lit_fields(s: Seq<FieldV>)
    ensures
        literals::lit_fields(layout::bare_fields(s)) == layout::bare_fields(
            literals::lit_fields(s),
        ),
    decreases s,
{
    let a = literals::lit_fields(layout::bare_fields(s));
    let b = layout::bare_fields(literals::lit_fields(s));
    assert forall|i: int| 0 <= i < s.len() implies a[i] == b[i] by {
        match s[i].value {
            FieldValueV::Expr(e) => lemma_lit_expr(e),
            FieldValueV::Probe(fs) => lemma_lit_fields(fs),
            _ => {},
        }
        assert(a[i] == literals::lit_field(layout::bare_field(s[i])));
        assert(b[i] == layout::bare_field(literals::lit_field(s[i])));
    }
    assert(a =~= b);
}

proof fn lemma_lit_decl(d: DeclV)
    ensures
        literals::lit_decl(layout::bare_decl(d)) == layout::bare_decl(literals::lit_decl(d)),
{
    match d {
        DeclV::Backend { body: Some(fs), .. } => lemma_lit_fields(fs),
        DeclV::Probe { body, .. } => lemma_lit_fields(body),
        DeclV::Acl { entries, .. } => {
            assert(literals::lit_entries(layout::bare_entries(entries)) =~= layout::bare_entries(
                literals::lit_entries(entries),
            ));
        },
        DeclV::Sub { body, .. } => lemma_lit_stmts(body),
        _ => {},
    }
}

proof fn lemma_lit_program(p: ProgramV)
    ensures
        literals::lit_program(layout::bare_program(p)) == layout::bare_program(
            literals::lit_program(p),
        ),
{
    let a = literals::lit_decls(layout::bare_decls(p.decls));
    let b = layout::bare_decls(literals::lit_decls(p.decls));
    assert forall|i: int| 0 <= i < p.decls.len() implies a[i] == b[i] by {
        lemma_lit_decl(p.decls[i]);
    }
    assert(a =~= b);
}

// ───────────────────────── the arguments of vmod calls ─────────────────────────

/// A slot without its places.
spec fn bare_slot(a: Option<ArgV>) -> Option<ArgV> {
    match a {
        Some(x) => Some(layout::bare_arg(x)),
        None => None,
    }
}

spec fn bare_slots(s: Seq<Option<ArgV>>) -> Seq<Option<ArgV>> {
    Seq::new(s.len(), |i: int| bare_slot(s[i]))
}

proof fn lemma_fill_slots(
    args: Seq<ArgV>,
    sig: Seq<ArgSpecV>,
    x: Span,
    y: Span,
    i: nat,
    next: nat,
    slots: Seq<Option<ArgV>>,
)
    requires
        slots.len() == sig.len(),
    ensures
        match (
            vmod_args::fill_slots(args, sig, x, i, next, slots),
            vmod_args::fill_slots(layout::bare_args(args), sig, y, i, next, bare_slots(slots)),
        ) {
            (Ok(a), Ok(b)) => b == bare_slots(a) && a.len() == sig.len(),
            (Err(e), Err(f)) => e.msg == f.msg,
            _ => false,
        },
    decreases args.len() - i,
{
    if i < args.len() {
        let a = args[i as int];
        assert(layout::bare_args(args)[i as int] == layout::bare_arg(a));
        let k = match a.name {
            Some(n) => vmod_args::slot_named(sig, n, 0),
            None => next,
        };
        let next1 = match a.name {
            Some(_) => next,
            None => next + 1,
        };
        if k < sig.len() {
            assert(bare_slots(slots)[k as int] == bare_slot(slots[k as int]));
            if slots[k as int] is None {
                let s1 = slots.update(k as int, Some(a));
                assert(bare_slots(s1) =~= bare_slots(slots).update(
                    k as int,
                    Some(layout::bare_arg(a)),
                ));
                lemma_fill_slots(args, sig, x, y, i + 1, next1, s1);
            }
        }
    }
}

pub(crate) proof fn lemma_trimmed(args: Seq<ArgV>)
    ensures
        vmod_args::trimmed(layout::bare_args(args)) == layout::bare_args(vmod_args::trimmed(args)),
    decreases args.len(),
{
    if args.len() > 0 {
        assert(layout::bare_args(args).last() == layout::bare_arg(args.last()));
        if args.last().value is Omitted {
            lemma_trimmed(args.drop_last());
            assert(layout::bare_args(args).drop_last() =~= layout::bare_args(args.drop_last()));
        }
    }
}

proof fn lemma_by_sig(args: Seq<ArgV>, sig: Option<Seq<ArgSpecV>>, x: Span, y: Span)
    ensures
        match (
            vmod_args::by_sig(args, sig, x),
            vmod_args::by_sig(layout::bare_args(args), sig, y),
        ) {
            (Ok(a), Ok(b)) => b == layout::bare_args(a),
            (Err(e), Err(f)) => e.msg == f.msg,
            _ => false,
        },
{
    match sig {
        Some(s) => {
            let none = vmod_args::no_slots(s.len());
            assert(bare_slots(none) =~= none);
            lemma_fill_slots(args, s, x, y, 0, 0, none);
            match vmod_args::fill_slots(args, s, x, 0, 0, none) {
                Ok(slots) => {
                    let a = vmod_args::slot_args(s, slots);
                    let b = vmod_args::slot_args(s, bare_slots(slots));
                    assert forall|i: int| 0 <= i < a.len() implies #[trigger] b[i]
                        == layout::bare_arg(a[i]) by {
                        match slots[i] {
                            Some(z) => layout::law_expression_text_has_no_places(z.value),
                            None => {},
                        }
                        assert(bare_slots(slots)[i] == bare_slot(slots[i]));
                    }
                    assert(b =~= layout::bare_args(a));
                    lemma_trimmed(a);
                },
                Err(_) => {},
            }
        },
        None => {},
    }
}

pub(crate) proof fn lemma_bare_taken(args: Seq<ArgV>, from: Seq<ArgV>)
    requires
        vmod_args::taken_from(args, from),
    ensures
        vmod_args::taken_from(layout::bare_args(args), layout::bare_args(from)),
{
    let a = layout::bare_args(args);
    let f = layout::bare_args(from);
    assert forall|i: int| 0 <= i < a.len() && !((#[trigger] a[i]).value is Omitted) implies exists|
        j: int,
    |
        0 <= j < f.len() && a[i].value == (#[trigger] f[j]).value by {
        assert(a[i] == layout::bare_arg(args[i]));
        assert(!(args[i].value is Omitted));
        let j = choose|j: int| 0 <= j < from.len() && args[i].value == (#[trigger] from[j]).value;
        assert(f[j] == layout::bare_arg(from[j]));
    }
}

pub(crate) proof fn lemma_pass_expr(e: ExprV, k: KnownV, x: Span, y: Span)
    ensures
        match (
            vmod_args::pass_expr(e, k, x),
            vmod_args::pass_expr(layout::bare_expr(e), k, y),
        ) {
            (Ok(a), Ok(b)) => b == layout::bare_expr(a),
            (Err(e), Err(f)) => e.msg == f.msg,
            _ => false,
        },
    decreases e, 1nat, 0nat,
{
    match e {
        ExprV::Call { target, args } => {
            let sig = vmod_args::call_sig(k, target);
            lemma_by_sig(args, sig, x, y);
            match vmod_args::by_sig(args, sig, x) {
                Ok(list) => {
                    vmod_args::lemma_by_sig_taken(args, sig, x);
                    lemma_pass_args(e, args, list, k, x, y, list.len());
                },
                Err(_) => {},
            }
        },
        ExprV::Unary { expr, .. } => lemma_pass_expr(*expr, k, x, y),
        ExprV::Binary { lhs, rhs, .. } => {
            lemma_pass_expr(*lhs, k, x, y);
            lemma_pass_expr(*rhs, k, x, y);
        },
        _ => {},
    }
}

pub(crate) proof fn lemma_pass_args(
    whole: ExprV,
    from: Seq<ArgV>,
    args: Seq<ArgV>,
    k: KnownV,
    x: Span,
    y: Span,
    n: nat,
)
    requires
        whole is Call,
        whole->Call_args == from,
        vmod_args::taken_from(args, from),
        n <= args.len(),
    ensures
        match (
            vmod_args::pass_args(whole, args, k, x, n),
            vmod_args::pass_args(layout::bare_expr(whole), layout::bare_args(args), k, y, n),
        ) {
            (Ok(a), Ok(b)) => b == layout::bare_args(a),
            (Err(e), Err(f)) => e.msg == f.msg,
            _ => false,
        },
    decreases whole, 0nat, n,
{
    let bw = layout::bare_expr(whole);
    let ba = layout::bare_args(args);
    let bf = layout::bare_args(from);
    if n > 0 {
        lemma_pass_args(whole, from, args, k, x, y, (n - 1) as nat);
        let a = args[n - 1];
        assert(ba[n - 1] == layout::bare_arg(a));
        if !(a.value is Omitted) {
            let j = choose|j: int| 0 <= j < from.len() && a.value == (#[trigger] from[j]).value;
            assert(decreases_to!(whole => from[j].value));
            assert(bf[j] == layout::bare_arg(from[j]));
            assert(bw->Call_args == bf);
            assert(decreases_to!(bw => bf[j].value));
            lemma_pass_expr(a.value, k, x, y);
        }
        match vmod_args::pass_args(whole, args, k, x, (n - 1) as nat) {
            Ok(done) => {
                layout::lemma_push_args(done, a);
                match vmod_args::pass_expr(a.value, k, x) {
                    Ok(v) => layout::lemma_push_args(done, ArgV { value: v, ..a }),
                    Err(_) => {},
                }
            },
            Err(_) => {},
        }
    } else {
        assert(layout::bare_args(seq![]) =~= seq![]);
    }
}

proof fn lemma_pass_exprs(es: Seq<ExprV>, k: KnownV, x: Span, y: Span, n: nat)
    requires
        n <= es.len(),
    ensures
        match (
            vmod_args::pass_exprs(es, k, x, n),
            vmod_args::pass_exprs(layout::bare_exprs(es), k, y, n),
        ) {
            (Ok(a), Ok(b)) => b == layout::bare_exprs(a),
            (Err(e), Err(f)) => e.msg == f.msg,
            _ => false,
        },
    decreases n,
{
    if n > 0 {
        lemma_pass_exprs(es, k, x, y, (n - 1) as nat);
        lemma_pass_expr(es[n - 1], k, x, y);
        match (
            vmod_args::pass_exprs(es, k, x, (n - 1) as nat),
            vmod_args::pass_expr(es[n - 1], k, x),
        ) {
            (Ok(done), Ok(v)) => layout::lemma_push_exprs(done, v),
            _ => {},
        }
    } else {
        assert(layout::bare_exprs(seq![]) =~= seq![]);
    }
}

pub(crate) proof fn lemma_pass_stmt(s: StmtV, k: KnownV)
    ensures
        match (
            vmod_args::pass_stmt(s, k),
            vmod_args::pass_stmt(layout::bare_stmt(s), k),
        ) {
            (Ok(a), Ok(b)) => b == layout::bare_stmt(a),
            (Err(e), Err(f)) => e.msg == f.msg,
            _ => false,
        },
    decreases s, 0nat,
{
    let x = ast::stmt_span(s);
    let y = ast::stmt_span(layout::bare_stmt(s));
    match s {
        StmtV::Assign { rhs, .. } => lemma_pass_expr(rhs, k, x, y),
        StmtV::Return { action: Some(a), .. } => lemma_pass_exprs(a.args, k, x, y, a.args.len()),
        StmtV::Synthetic { value, .. } => lemma_pass_expr(value, k, x, y),
        StmtV::If { arms, else_body, .. } => {
            lemma_pass_arms(arms, k, x, y, arms.len());
            match else_body {
                Some(b) => lemma_pass_stmts(b, k, b.len()),
                None => {},
            }
        },
        StmtV::New { vmod, ctor, args, .. } => {
            let sig = vmod_args::ctor_sig(k, vmod, ctor);
            lemma_by_sig(args, sig, x, y);
            match vmod_args::by_sig(args, sig, x) {
                Ok(list) => {
                    vmod_args::lemma_by_sig_taken(args, sig, x);
                    lemma_pass_args(
                        vmod_args::ctor_call(vmod, ctor, args),
                        args,
                        list,
                        k,
                        x,
                        y,
                        list.len(),
                    );
                },
                Err(_) => {},
            }
        },
        StmtV::Expr { expr, .. } => lemma_pass_expr(expr, k, x, y),
        _ => {},
    }
}

proof fn lemma_pass_stmts(ss: Seq<StmtV>, k: KnownV, n: nat)
    requires
        n <= ss.len(),
    ensures
        match (
            vmod_args::pass_stmts(ss, k, n),
            vmod_args::pass_stmts(layout::bare_stmts(ss), k, n),
        ) {
            (Ok(a), Ok(b)) => b == layout::bare_stmts(a),
            (Err(e), Err(f)) => e.msg == f.msg,
            _ => false,
        },
    decreases ss, n,
{
    if n > 0 {
        lemma_pass_stmts(ss, k, (n - 1) as nat);
        lemma_pass_stmt(ss[n - 1], k);
        assert(layout::bare_stmts(ss)[n - 1] == layout::bare_stmt(ss[n - 1]));
        match (
            vmod_args::pass_stmts(ss, k, (n - 1) as nat),
            vmod_args::pass_stmt(ss[n - 1], k),
        ) {
            (Ok(done), Ok(v)) => layout::lemma_push_stmts(done, v),
            _ => {},
        }
    } else {
        assert(layout::bare_stmts(seq![]) =~= seq![]);
    }
}

proof fn lemma_pass_arms(arms: Seq<ArmV>, k: KnownV, x: Span, y: Span, n: nat)
    requires
        n <= arms.len(),
    ensures
        match (
            vmod_args::pass_arms(arms, k, x, n),
            vmod_args::pass_arms(layout::bare_arms(arms), k, y, n),
        ) {
            (Ok(a), Ok(b)) => b == layout::bare_arms(a),
            (Err(e), Err(f)) => e.msg == f.msg,
            _ => false,
        },
    decreases arms, n,
{
    if n > 0 {
        let a = arms[n - 1];
        lemma_pass_arms(arms, k, x, y, (n - 1) as nat);
        lemma_pass_expr(a.cond, k, x, y);
        lemma_pass_stmts(a.body, k, a.body.len());
        assert(layout::bare_arms(arms)[n - 1] == layout::bare_arm(a));
        match (
            vmod_args::pass_arms(arms, k, x, (n - 1) as nat),
            vmod_args::pass_expr(a.cond, k, x),
            vmod_args::pass_stmts(a.body, k, a.body.len()),
        ) {
            (Ok(done), Ok(cond), Ok(body)) => layout::lemma_push_arms(done, ArmV { cond, body }),
            _ => {},
        }
    } else {
        assert(layout::bare_arms(seq![]) =~= seq![]);
    }
}

proof fn lemma_pass_decls(ds: Seq<DeclV>, k: KnownV, n: nat)
    requires
        n <= ds.len(),
    ensures
        match (
            vmod_args::pass_decls(ds, k, n),
            vmod_args::pass_decls(layout::bare_decls(ds), k, n),
        ) {
            (Ok(a), Ok(b)) => b == layout::bare_decls(a),
            (Err(e), Err(f)) => e.msg == f.msg,
            _ => false,
        },
    decreases n,
{
    if n > 0 {
        let d = ds[n - 1];
        lemma_pass_decls(ds, k, (n - 1) as nat);
        assert(layout::bare_decls(ds)[n - 1] == layout::bare_decl(d));
        match d {
            DeclV::Sub { body, .. } => lemma_pass_stmts(body, k, body.len()),
            _ => {},
        }
        match vmod_args::pass_decls(ds, k, (n - 1) as nat) {
            Ok(done) => match d {
                DeclV::Sub { name, body, span } => match vmod_args::pass_stmts(
                    body,
                    k,
                    body.len(),
                ) {
                    Ok(b) => layout::lemma_push_decls(done, DeclV::Sub { name, body: b, span }),
                    Err(_) => {},
                },
                _ => layout::lemma_push_decls(done, d),
            },
            Err(_) => {},
        }
    } else {
        assert(layout::bare_decls(seq![]) =~= seq![]);
    }
}

proof fn lemma_instances_in(ss: Seq<StmtV>, n: nat, found: Map<Seq<char>, InstanceV>)
    requires
        n <= ss.len(),
    ensures
        vmod_args::instances_in(layout::bare_stmts(ss), n, found) == vmod_args::instances_in(
            ss,
            n,
            found,
        ),
    decreases ss, n,
{
    if n > 0 {
        lemma_instances_in(ss, (n - 1) as nat, found);
        let done = vmod_args::instances_in(ss, (n - 1) as nat, found);
        assert(layout::bare_stmts(ss)[n - 1] == layout::bare_stmt(ss[n - 1]));
        match ss[n - 1] {
            StmtV::If { arms, else_body, .. } => {
                lemma_instances_in_arms(arms, arms.len(), done);
                let x = vmod_args::instances_in_arms(arms, arms.len(), done);
                match else_body {
                    Some(b) => lemma_instances_in(b, b.len(), x),
                    None => {},
                }
            },
            _ => {},
        }
    }
}

proof fn lemma_instances_in_arms(arms: Seq<ArmV>, n: nat, found: Map<Seq<char>, InstanceV>)
    requires
        n <= arms.len(),
    ensures
        vmod_args::instances_in_arms(layout::bare_arms(arms), n, found)
            == vmod_args::instances_in_arms(arms, n, found),
    decreases arms, n,
{
    if n > 0 {
        lemma_instances_in_arms(arms, (n - 1) as nat, found);
        let done = vmod_args::instances_in_arms(arms, (n - 1) as nat, found);
        assert(layout::bare_arms(arms)[n - 1] == layout::bare_arm(arms[n - 1]));
        lemma_instances_in(arms[n - 1].body, arms[n - 1].body.len(), done);
    }
}

proof fn lemma_instances_of(ds: Seq<DeclV>, n: nat)
    requires
        n <= ds.len(),
    ensures
        vmod_args::instances_of(layout::bare_decls(ds), n) == vmod_args::instances_of(ds, n),
    decreases n,
{
    if n > 0 {
        lemma_instances_of(ds, (n - 1) as nat);
        match ds[n - 1] {
            DeclV::Sub { body, .. } => lemma_instances_in(
                body,
                body.len(),
                vmod_args::instances_of(ds, (n - 1) as nat),
            ),
            _ => {},
        }
    }
}

pub(crate) proof fn lemma_pass_program(p: ProgramV, specs: Map<Seq<char>, VmodSpec>)
    ensures
        match (
            vmod_args::pass_program(p, specs),
            vmod_args::pass_program(layout::bare_program(p), specs),
        ) {
            (Ok(a), Ok(b)) => b == layout::bare_program(a),
            (Err(e), Err(f)) => e.msg == f.msg,
            _ => false,
        },
{
    lemma_instances_of(p.decls, p.decls.len());
    let k = KnownV { specs, instances: vmod_args::instances_of(p.decls, p.decls.len()) };
    lemma_pass_decls(p.decls, k, p.decls.len());
}

// ───────────────────────── probes ─────────────────────────

proof fn lemma_field_probes(fs: Seq<FieldV>, n: nat, base: nat)
    requires
        n <= fs.len(),
    ensures
        probes::field_probes(layout::bare_fields(fs), n, base) == layout::bare_decls(
            probes::field_probes(fs, n, base),
        ),
    decreases n,
{
    if n > 0 {
        lemma_field_probes(fs, (n - 1) as nat, base);
        assert(layout::bare_fields(fs)[n - 1] == layout::bare_field(fs[n - 1]));
        let before = probes::field_probes(fs, (n - 1) as nat, base);
        match fs[n - 1].value {
            FieldValueV::Probe(body) => layout::lemma_push_decls(
                before,
                DeclV::Probe {
                    name: probes::anon_name(base + before.len() + 1),
                    body,
                    span: fs[n - 1].span,
                },
            ),
            _ => {},
        }
    } else {
        assert(layout::bare_decls(seq![]) =~= seq![]);
    }
}

proof fn lemma_backend_fields(d: DeclV)
    ensures
        probes::backend_fields(layout::bare_decl(d)) == layout::bare_fields(
            probes::backend_fields(d),
        ),
{
    assert(layout::bare_fields(seq![]) =~= seq![]);
}

proof fn lemma_all_probes(ds: Seq<DeclV>, n: nat)
    requires
        n <= ds.len(),
    ensures
        probes::all_probes(layout::bare_decls(ds), n) == layout::bare_decls(
            probes::all_probes(ds, n),
        ),
    decreases n,
{
    if n > 0 {
        lemma_all_probes(ds, (n - 1) as nat);
        lemma_backend_fields(ds[n - 1]);
        let before = probes::all_probes(ds, (n - 1) as nat);
        let fs = probes::backend_fields(ds[n - 1]);
        lemma_field_probes(fs, fs.len(), before.len());
        let more = probes::field_probes(fs, fs.len(), before.len());
        assert(layout::bare_decls(before + more) =~= layout::bare_decls(before)
            + layout::bare_decls(more));
    } else {
        assert(layout::bare_decls(seq![]) =~= seq![]);
    }
}

proof fn lemma_lifted_fields(fs: Seq<FieldV>, base: nat)
    ensures
        probes::lifted_fields(layout::bare_fields(fs), base) == layout::bare_fields(
            probes::lifted_fields(fs, base),
        ),
{
    let a = probes::lifted_fields(layout::bare_fields(fs), base);
    let b = layout::bare_fields(probes::lifted_fields(fs, base));
    assert forall|i: int| 0 <= i < fs.len() implies a[i] == b[i] by {
        lemma_field_probes(fs, i as nat, base);
        assert(layout::bare_fields(fs)[i] == layout::bare_field(fs[i]));
        assert(b[i] == layout::bare_field(probes::lifted_field(fs, i, base)));
    }
    assert(a =~= b);
}

pub(crate) proof fn lemma_lifted_program(p: ProgramV)
    ensures
        probes::lifted_program(layout::bare_program(p)) == layout::bare_program(
            probes::lifted_program(p),
        ),
{
    let ds = p.decls;
    let a = probes::lifted_decls(layout::bare_decls(ds));
    let b = layout::bare_decls(probes::lifted_decls(ds));
    lemma_all_probes(ds, ds.len());
    assert forall|i: int| 0 <= i < ds.len() implies a[i] == b[i] by {
        lemma_all_probes(ds, i as nat);
        match ds[i] {
            DeclV::Backend { body: Some(fs), .. } => lemma_lifted_fields(
                fs,
                probes::all_probes(ds, i as nat).len(),
            ),
            _ => {},
        }
        assert(layout::bare_decls(ds)[i] == layout::bare_decl(ds[i]));
        assert(b[i] == layout::bare_decl(probes::lifted_decl(ds, i)));
    }
    assert(a =~= b);
}

/// What comes before the renaming makes of a bare program what it makes of the
/// program, without the places.
pub proof fn law_prepared_without_places(p: ProgramV, specs: Map<Seq<char>, VmodSpec>)
    ensures
        match (
            crate::normalize::prepared(p, specs),
            crate::normalize::prepared(layout::bare_program(p), specs),
        ) {
            (Ok(a), Ok(b)) => b == layout::bare_program(a),
            (Err(e), Err(f)) => e.msg == f.msg,
            _ => false,
        },
{
    lemma_lit_program(p);
    let q = literals::lit_program(p);
    lemma_pass_program(q, specs);
    match vmod_args::pass_program(q, specs) {
        Ok(r) => lemma_lifted_program(r),
        Err(_) => {},
    }
}

// ───────────────────────── merging ─────────────────────────

proof fn lemma_sub_at(ds: Seq<DeclV>, name: Seq<char>, i: nat)
    ensures
        merge::sub_at(layout::bare_decls(ds), name, i) == merge::sub_at(ds, name, i),
    decreases ds.len() - i,
{
    if i < ds.len() {
        lemma_sub_at(ds, name, i + 1);
    }
}

proof fn lemma_merged_first(ds: Seq<DeclV>, n: nat)
    requires
        n <= ds.len(),
    ensures
        merge::merged_first(layout::bare_decls(ds), n) == layout::bare_decls(
            merge::merged_first(ds, n),
        ),
    decreases n,
{
    if n > 0 {
        lemma_merged_first(ds, (n - 1) as nat);
        let before = merge::merged_first(ds, (n - 1) as nat);
        let d = ds[n - 1];
        assert(layout::bare_decls(ds)[n - 1] == layout::bare_decl(d));
        layout::lemma_push_decls(before, d);
        match d {
            DeclV::Sub { name, body, .. } => {
                lemma_sub_at(before, name, 0);
                let i = merge::sub_at(before, name, 0) as int;
                if merge::continues(before, d) {
                    match before[i] {
                        DeclV::Sub { body: b, .. } => {
                            assert(layout::bare_stmts(b + body) =~= layout::bare_stmts(b)
                                + layout::bare_stmts(body));
                        },
                        _ => {},
                    }
                    assert(layout::bare_decls(
                        before.update(i, merge::with_more(before[i], body)),
                    ) =~= layout::bare_decls(before).update(
                        i,
                        merge::with_more(layout::bare_decl(before[i]), layout::bare_stmts(body)),
                    ));
                }
            },
            _ => {},
        }
    } else {
        assert(layout::bare_decls(seq![]) =~= seq![]);
    }
}

pub(crate) proof fn lemma_merged_program(p: ProgramV)
    ensures
        merge::merged_program(layout::bare_program(p)).decls == layout::bare_decls(
            merge::merged_program(p).decls,
        ),
{
    lemma_merged_first(p.decls, p.decls.len());
}

// ───────────────────────── sorting ─────────────────────────

proof fn lemma_bare_place(
    a: Seq<(order::KeyV, DeclV)>,
    b: Seq<(order::KeyV, DeclV)>,
    k: order::KeyV,
    i: nat,
)
    requires
        a.len() == b.len(),
        forall|j: int| 0 <= j < a.len() ==> (#[trigger] a[j]).0 == b[j].0,
    ensures
        order::place_for(a, k, i) == order::place_for(b, k, i),
    decreases a.len() - i,
{
    if i < a.len() && !order::key_less(k, a[i as int].0) {
        lemma_bare_place(a, b, k, i + 1);
    }
}

/// Declarations with their keys, without their places.
spec fn bare_pairs(s: Seq<(order::KeyV, DeclV)>) -> Seq<(order::KeyV, DeclV)> {
    Seq::new(s.len(), |i: int| (s[i].0, layout::bare_decl(s[i].1)))
}

proof fn lemma_bare_sorted(s: Seq<(order::KeyV, DeclV)>, n: nat)
    requires
        n <= s.len(),
    ensures
        order::sorted_first(bare_pairs(s), n) == bare_pairs(order::sorted_first(s, n)),
        order::sorted_first(s, n).len() == n,
    decreases n,
{
    if n > 0 {
        lemma_bare_sorted(s, (n - 1) as nat);
        let before = order::sorted_first(s, (n - 1) as nat);
        lemma_bare_place(before, bare_pairs(before), s[n - 1].0, 0);
        order::lemma_place(before, s[n - 1].0, 0);
        let p = order::place_for(before, s[n - 1].0, 0) as int;
        assert(bare_pairs(before).insert(p, bare_pairs(s)[n - 1]) =~= bare_pairs(
            before.insert(p, s[n - 1]),
        ));
    } else {
        assert(bare_pairs(order::sorted_first(s, 0)) =~= order::sorted_first(bare_pairs(s), 0));
    }
}

pub(crate) proof fn lemma_sorted_decls(ds: Seq<DeclV>)
    ensures
        sort::sorted_decls(layout::bare_decls(ds)) == layout::bare_decls(sort::sorted_decls(ds)),
{
    let a = sort::keyed(ds);
    let b = sort::keyed(layout::bare_decls(ds));
    assert forall|i: int| 0 <= i < ds.len() implies #[trigger] b[i] == bare_pairs(a)[i] by {
        layout::law_declaration_form_has_no_places(ds[i]);
    }
    assert(b =~= bare_pairs(a));
    lemma_bare_sorted(a, a.len());
    assert(sort::sorted_decls(layout::bare_decls(ds)) =~= layout::bare_decls(
        sort::sorted_decls(ds),
    ));
}

} // verus!
