//! The passes before the renaming do not look at names: a program whose names
//! are replaced becomes what the program becomes, with its names replaced.

use crate::ast;
use crate::ast::{ArgV, ArmV, DeclV, ExprV, FieldV, Span, StmtV};
use crate::normalize::invariance;
use crate::normalize::literals;
use crate::normalize::renaming::RenamingV;
use crate::normalize::renaming;
use crate::normalize::vmod_args;
use crate::normalize::vmod_args::{InstanceV, KnownV};
use crate::printer;
use crate::vmod::{ArgSpecV, VmodSpec};
use vstd::prelude::*;

verus! {

// ───────────────────────── what a renaming must leave ─────────────────────────

/// Whether a renaming leaves the word `http`, behind which the name of a header
/// stands.
pub open spec fn leaves_headers(m: RenamingV) -> bool {
    invariance::one_to_one(m) && renaming::new_name(m, "http"@) == "http"@
}

/// Whether a value stays as it is where it has the text of a default, before or
/// after the renaming.
pub open spec fn kept_default(m: RenamingV, a: ArgSpecV, e: ExprV) -> bool {
    a.default == Some(printer::expr_text(e)) || a.default == Some(
        printer::expr_text(renaming::renamed_expr(e, m)),
    ) ==> renaming::renamed_expr(e, m) == e
}

/// Whether a renaming leaves the default of an argument and the words that the
/// argument may be.
pub open spec fn leaves_slot(m: RenamingV, a: ArgSpecV) -> bool {
    &&& forall|e: ExprV| #[trigger] kept_default(m, a, e)
    &&& a.enum_values matches Some(ws) ==> forall|i: int|
        0 <= i < ws.len() ==> renaming::new_name(m, #[trigger] ws[i]) == ws[i]
}

/// Whether a renaming leaves what a signature speaks of.
pub open spec fn leaves_sig(m: RenamingV, s: Seq<ArgSpecV>) -> bool {
    forall|i: int| 0 <= i < s.len() ==> leaves_slot(m, #[trigger] s[i])
}

/// Whether a vmod has a signature: that of a function, of a constructor or of a
/// method.
pub open spec fn has_sig(v: VmodSpec, s: Seq<ArgSpecV>) -> bool {
    ||| exists|f: Seq<char>| #[trigger] v.funcs@.contains_key(f) && v.funcs@[f]@ == s
    ||| exists|o: Seq<char>| #[trigger] v.objects@.contains_key(o) && v.objects@[o].init@ == s
    ||| exists|o: Seq<char>, f: Seq<char>|
        v.objects@.contains_key(o) && #[trigger] v.objects@[o].methods@.contains_key(f)
            && v.objects@[o].methods@[f]@ == s
}

/// Whether a renaming leaves the names of the vmods.
pub open spec fn leaves_vmods(m: RenamingV, specs: Map<Seq<char>, VmodSpec>) -> bool {
    forall|v: Seq<char>| specs.contains_key(v) ==> #[trigger] renaming::new_name(m, v) == v
}

/// Whether a renaming leaves what the signatures of the vmods speak of.
pub open spec fn leaves_sigs(m: RenamingV, specs: Map<Seq<char>, VmodSpec>) -> bool {
    forall|v: Seq<char>, s: Seq<ArgSpecV>|
        specs.contains_key(v) && #[trigger] has_sig(specs[v], s) ==> leaves_sig(m, s)
}

/// Whether the same objects are known, but for their names.
pub open spec fn same_instances(
    m: RenamingV,
    a: Map<Seq<char>, InstanceV>,
    b: Map<Seq<char>, InstanceV>,
) -> bool {
    forall|n: Seq<char>|
        {
            let x = #[trigger] renaming::new_name(m, n);
            b.contains_key(x) == a.contains_key(n) && (a.contains_key(n) ==> b[x] == a[n])
        }
}

/// Whether the same is known, but for the names of the objects.
spec fn paired(m: RenamingV, k: KnownV, j: KnownV) -> bool {
    &&& invariance::one_to_one(m)
    &&& leaves_vmods(m, k.specs)
    &&& j.specs == k.specs
    &&& same_instances(m, k.instances, j.instances)
}

// ───────────────────────── literals ─────────────────────────

proof fn lemma_http_index(parts: Seq<Seq<char>>, i: nat, m: RenamingV)
    requires
        leaves_headers(m),
    ensures
        literals::http_index(renaming::renamed_parts(parts, m), i) == literals::http_index(
            parts,
            i,
        ),
    decreases parts.len() - i,
{
    if i + 1 < parts.len() {
        lemma_http_index(parts, i + 1, m);
        let r = renaming::renamed_parts(parts, m);
        if i == 0 {
            assert(r[0] == renaming::new_name(m, parts[0]));
            assert(renaming::new_name(m, "http"@) == "http"@);
        } else {
            assert(r[i as int] == parts[i as int]);
        }
    }
}

proof fn lemma_http_bound(parts: Seq<Seq<char>>, i: nat)
    ensures
        literals::http_index(parts, i) matches Some(k) ==> i <= k && k + 1 < parts.len(),
    decreases parts.len() - i,
{
    if i + 1 < parts.len() {
        lemma_http_bound(parts, i + 1);
    }
}

proof fn lemma_header(parts: Seq<Seq<char>>, m: RenamingV)
    requires
        leaves_headers(m),
    ensures
        literals::lower_header(renaming::renamed_parts(parts, m)) == renaming::renamed_parts(
            literals::lower_header(parts),
            m,
        ),
{
    lemma_http_index(parts, 0, m);
    lemma_http_bound(parts, 0);
    assert(literals::lower_header(renaming::renamed_parts(parts, m)) =~= renaming::renamed_parts(
        literals::lower_header(parts),
        m,
    ));
}

proof fn lemma_lit_expr(e: ExprV, m: RenamingV)
    requires
        leaves_headers(m),
    ensures
        literals::lit_expr(renaming::renamed_expr(e, m)) == renaming::renamed_expr(literals::lit_expr(e), m),
    decreases e,
{
    match e {
        ExprV::Var(parts) => lemma_header(parts, m),
        ExprV::Call { target, args } => {
            lemma_header(target, m);
            lemma_lit_args(args, m);
        },
        ExprV::Unary { expr, .. } => lemma_lit_expr(*expr, m),
        ExprV::Binary { lhs, rhs, .. } => {
            lemma_lit_expr(*lhs, m);
            lemma_lit_expr(*rhs, m);
        },
        _ => {},
    }
}

proof fn lemma_lit_args(s: Seq<ArgV>, m: RenamingV)
    requires
        leaves_headers(m),
    ensures
        literals::lit_args(renaming::renamed_args(s, m)) == renaming::renamed_args(literals::lit_args(s), m),
    decreases s,
{
    let a = literals::lit_args(renaming::renamed_args(s, m));
    let b = renaming::renamed_args(literals::lit_args(s), m);
    assert forall|i: int| 0 <= i < s.len() implies a[i] == b[i] by {
        lemma_lit_expr(s[i].value, m);
        assert(a[i] == literals::lit_arg(renaming::renamed_arg(s[i], m)));
        assert(b[i] == renaming::renamed_arg(literals::lit_arg(s[i]), m));
    }
    assert(a =~= b);
}

proof fn lemma_lit_exprs(s: Seq<ExprV>, m: RenamingV)
    requires
        leaves_headers(m),
    ensures
        literals::lit_exprs(renaming::renamed_exprs(s, m)) == renaming::renamed_exprs(literals::lit_exprs(s), m),
{
    let a = literals::lit_exprs(renaming::renamed_exprs(s, m));
    let b = renaming::renamed_exprs(literals::lit_exprs(s), m);
    assert forall|i: int| 0 <= i < s.len() implies a[i] == b[i] by {
        lemma_lit_expr(s[i], m);
    }
    assert(a =~= b);
}

proof fn lemma_lit_stmt(s: StmtV, m: RenamingV)
    requires
        leaves_headers(m),
    ensures
        literals::lit_stmt(renaming::renamed_stmt(s, m)) == renaming::renamed_stmt(literals::lit_stmt(s), m),
    decreases s,
{
    match s {
        StmtV::Assign { rhs, .. } => lemma_lit_expr(rhs, m),
        StmtV::Return { action: Some(a), .. } => lemma_lit_exprs(a.args, m),
        StmtV::Synthetic { value, .. } => lemma_lit_expr(value, m),
        StmtV::If { arms, else_body, .. } => {
            lemma_lit_arms(arms, m);
            match else_body {
                Some(b) => lemma_lit_stmts(b, m),
                None => {},
            }
        },
        StmtV::New { args, .. } => lemma_lit_args(args, m),
        StmtV::Expr { expr, .. } => lemma_lit_expr(expr, m),
        _ => {},
    }
}

proof fn lemma_lit_stmts(s: Seq<StmtV>, m: RenamingV)
    requires
        leaves_headers(m),
    ensures
        literals::lit_stmts(renaming::renamed_stmts(s, m)) == renaming::renamed_stmts(literals::lit_stmts(s), m),
    decreases s,
{
    let a = literals::lit_stmts(renaming::renamed_stmts(s, m));
    let b = renaming::renamed_stmts(literals::lit_stmts(s), m);
    assert forall|i: int| 0 <= i < s.len() implies a[i] == b[i] by {
        lemma_lit_stmt(s[i], m);
        assert(a[i] == literals::lit_stmt(renaming::renamed_stmt(s[i], m)));
        assert(b[i] == renaming::renamed_stmt(literals::lit_stmt(s[i]), m));
    }
    assert(a =~= b);
}

proof fn lemma_lit_arms(s: Seq<ArmV>, m: RenamingV)
    requires
        leaves_headers(m),
    ensures
        literals::lit_arms(renaming::renamed_arms(s, m)) == renaming::renamed_arms(literals::lit_arms(s), m),
    decreases s,
{
    let a = literals::lit_arms(renaming::renamed_arms(s, m));
    let b = renaming::renamed_arms(literals::lit_arms(s), m);
    assert forall|i: int| 0 <= i < s.len() implies a[i] == b[i] by {
        lemma_lit_expr(s[i].cond, m);
        lemma_lit_stmts(s[i].body, m);
        assert(a[i] == literals::lit_arm(renaming::renamed_arm(s[i], m)));
        assert(b[i] == renaming::renamed_arm(literals::lit_arm(s[i]), m));
    }
    assert(a =~= b);
}

proof fn lemma_lit_fields(s: Seq<FieldV>, m: RenamingV)
    ensures
        literals::lit_fields(renaming::renamed_fields(s, m)) == renaming::renamed_fields(
            literals::lit_fields(s),
            m,
        ),
{
    let a = literals::lit_fields(renaming::renamed_fields(s, m));
    let b = renaming::renamed_fields(literals::lit_fields(s), m);
    assert forall|i: int| 0 <= i < s.len() implies a[i] == b[i] by {
        assert(a[i] == literals::lit_field(renaming::renamed_field(s[i], m)));
        assert(b[i] == renaming::renamed_field(literals::lit_field(s[i]), m));
    }
    assert(a =~= b);
}

pub(crate) proof fn lemma_lit_decl(d: DeclV, m: RenamingV)
    requires
        leaves_headers(m),
    ensures
        literals::lit_decl(renaming::renamed_decl(d, m)) == renaming::renamed_decl(
            literals::lit_decl(d),
            m,
        ),
{
    match d {
        DeclV::Backend { body: Some(fs), .. } => lemma_lit_fields(fs, m),
        DeclV::Sub { body, .. } => lemma_lit_stmts(body, m),
        _ => {},
    }
}

proof fn lemma_lit_decls(ds: Seq<DeclV>, m: RenamingV)
    requires
        leaves_headers(m),
    ensures
        literals::lit_decls(renaming::renamed_decls(ds, m)) == renaming::renamed_decls(
            literals::lit_decls(ds),
            m,
        ),
{
    let a = literals::lit_decls(renaming::renamed_decls(ds, m));
    let b = renaming::renamed_decls(literals::lit_decls(ds), m);
    assert forall|i: int| 0 <= i < ds.len() implies a[i] == b[i] by {
        lemma_lit_decl(ds[i], m);
    }
    assert(a =~= b);
}

// ───────────────────────── the arguments of vmod calls ─────────────────────────

proof fn lemma_push_args(s: Seq<ArgV>, x: ArgV, m: RenamingV)
    ensures
        renaming::renamed_args(s.push(x), m) == renaming::renamed_args(s, m).push(
            renaming::renamed_arg(x, m),
        ),
{
    assert(renaming::renamed_args(s.push(x), m) =~= renaming::renamed_args(s, m).push(
        renaming::renamed_arg(x, m),
    ));
}

proof fn lemma_push_exprs(s: Seq<ExprV>, x: ExprV, m: RenamingV)
    ensures
        renaming::renamed_exprs(s.push(x), m) == renaming::renamed_exprs(s, m).push(
            renaming::renamed_expr(x, m),
        ),
{
    assert(renaming::renamed_exprs(s.push(x), m) =~= renaming::renamed_exprs(s, m).push(
        renaming::renamed_expr(x, m),
    ));
}

proof fn lemma_push_stmts(s: Seq<StmtV>, x: StmtV, m: RenamingV)
    ensures
        renaming::renamed_stmts(s.push(x), m) == renaming::renamed_stmts(s, m).push(
            renaming::renamed_stmt(x, m),
        ),
{
    assert(renaming::renamed_stmts(s.push(x), m) =~= renaming::renamed_stmts(s, m).push(
        renaming::renamed_stmt(x, m),
    ));
}

proof fn lemma_push_arms(s: Seq<ArmV>, x: ArmV, m: RenamingV)
    ensures
        renaming::renamed_arms(s.push(x), m) == renaming::renamed_arms(s, m).push(
            renaming::renamed_arm(x, m),
        ),
{
    assert(renaming::renamed_arms(s.push(x), m) =~= renaming::renamed_arms(s, m).push(
        renaming::renamed_arm(x, m),
    ));
}

proof fn lemma_push_decls(s: Seq<DeclV>, x: DeclV, m: RenamingV)
    ensures
        renaming::renamed_decls(s.push(x), m) == renaming::renamed_decls(s, m).push(
            renaming::renamed_decl(x, m),
        ),
{
    assert(renaming::renamed_decls(s.push(x), m) =~= renaming::renamed_decls(s, m).push(
        renaming::renamed_decl(x, m),
    ));
}

/// A slot with its names renamed.
spec fn moved_slot(a: Option<ArgV>, m: RenamingV) -> Option<ArgV> {
    match a {
        Some(x) => Some(renaming::renamed_arg(x, m)),
        None => None,
    }
}

spec fn moved_slots(s: Seq<Option<ArgV>>, m: RenamingV) -> Seq<Option<ArgV>> {
    Seq::new(s.len(), |i: int| moved_slot(s[i], m))
}

proof fn lemma_fill_slots(
    args: Seq<ArgV>,
    sig: Seq<ArgSpecV>,
    x: Span,
    y: Span,
    i: nat,
    next: nat,
    slots: Seq<Option<ArgV>>, m: RenamingV,
)
    requires
        slots.len() == sig.len(),
    ensures
        match (
            vmod_args::fill_slots(args, sig, x, i, next, slots),
            vmod_args::fill_slots(renaming::renamed_args(args, m), sig, y, i, next, moved_slots(slots, m)),
        ) {
            (Ok(a), Ok(b)) => b == moved_slots(a, m) && a.len() == sig.len(),
            (Err(e), Err(f)) => e.msg == f.msg,
            _ => false,
        },
    decreases args.len() - i,
{
    if i < args.len() {
        let a = args[i as int];
        assert(renaming::renamed_args(args, m)[i as int] == renaming::renamed_arg(a, m));
        let k = match a.name {
            Some(n) => vmod_args::slot_named(sig, n, 0),
            None => next,
        };
        let next1 = match a.name {
            Some(_) => next,
            None => next + 1,
        };
        if k < sig.len() {
            assert(moved_slots(slots, m)[k as int] == moved_slot(slots[k as int], m));
            if slots[k as int] is None {
                let s1 = slots.update(k as int, Some(a));
                assert(moved_slots(s1, m) =~= moved_slots(slots, m).update(
                    k as int,
                    Some(renaming::renamed_arg(a, m)),
                ));
                lemma_fill_slots(args, sig, x, y, i + 1, next1, s1, m);
            }
        }
    }
}

proof fn lemma_trimmed(args: Seq<ArgV>, m: RenamingV)
    ensures
        vmod_args::trimmed(renaming::renamed_args(args, m)) == renaming::renamed_args(vmod_args::trimmed(args), m),
    decreases args.len(),
{
    if args.len() > 0 {
        assert(renaming::renamed_args(args, m).last() == renaming::renamed_arg(args.last(), m));
        if args.last().value is Omitted {
            lemma_trimmed(args.drop_last(), m);
            assert(renaming::renamed_args(args, m).drop_last() =~= renaming::renamed_args(args.drop_last(), m));
        }
    }
}

proof fn lemma_by_sig(args: Seq<ArgV>, sig: Option<Seq<ArgSpecV>>, x: Span, y: Span, m: RenamingV)
    requires
        sig matches Some(s) ==> leaves_sig(m, s) || renaming::renamed_args(args, m) == args,
    ensures
        match (
            vmod_args::by_sig(args, sig, x),
            vmod_args::by_sig(renaming::renamed_args(args, m), sig, y),
        ) {
            (Ok(a), Ok(b)) => b == renaming::renamed_args(a, m),
            (Err(e), Err(f)) => e.msg == f.msg,
            _ => false,
        },
{
    match sig {
        Some(s) => {
            let none = vmod_args::no_slots(s.len());
            assert(moved_slots(none, m) =~= none);
            lemma_fill_slots(args, s, x, y, 0, 0, none, m);
            vmod_args::lemma_filled_taken(args, s, x, 0, 0, none);
            match vmod_args::fill_slots(args, s, x, 0, 0, none) {
                Ok(slots) => {
                    let a = vmod_args::slot_args(s, slots);
                    let b = vmod_args::slot_args(s, moved_slots(slots, m));
                    assert forall|i: int| 0 <= i < a.len() implies #[trigger] b[i]
                        == renaming::renamed_arg(a[i], m) by {
                        match slots[i] {
                            Some(z) => {
                                if leaves_sig(m, s) {
                                    assert(leaves_slot(m, s[i]));
                                    assert(kept_default(m, s[i], z.value));
                                } else {
                                    let c = choose|c: int|
                                        0 <= c < args.len() && slots[i]->0 == #[trigger] args[c];
                                    assert(renaming::renamed_args(args, m)[c]
                                        == renaming::renamed_arg(args[c], m));
                                }
                            },
                            None => {},
                        }
                        assert(moved_slots(slots, m)[i] == moved_slot(slots[i], m));
                    }
                    assert(b =~= renaming::renamed_args(a, m));
                    lemma_trimmed(a, m);
                },
                Err(_) => {},
            }
        },
        None => {},
    }
}

proof fn lemma_call_sig(target: Seq<Seq<char>>, k: KnownV, j: KnownV, m: RenamingV)
    requires
        paired(m, k, j),
    ensures
        vmod_args::call_sig(j, renaming::renamed_parts(target, m)) == vmod_args::call_sig(
            k,
            target,
        ),
        vmod_args::call_sig(k, target) matches Some(s) ==> leaves_sigs(m, k.specs)
            ==> leaves_sig(m, s),
{
    if target.len() == 2 {
        let ns = target[0];
        let x = renaming::new_name(m, ns);
        assert(renaming::renamed_parts(target, m)[0] == x);
        assert(renaming::renamed_parts(target, m)[1] == target[1]);
        if k.specs.contains_key(ns) {
            assert(x == ns);
            let f = k.specs[ns].funcs@;
            if f.contains_key(target[1]) {
                assert(has_sig(k.specs[ns], f[target[1]]@));
            }
        } else {
            if k.specs.contains_key(x) {
                assert(renaming::new_name(m, x) == x);
            }
            if k.instances.contains_key(ns) {
                let i = k.instances[ns];
                if k.specs.contains_key(i.vmod) && k.specs[i.vmod].objects@.contains_key(i.ctor) {
                    let f = k.specs[i.vmod].objects@[i.ctor].methods@;
                    if f.contains_key(target[1]) {
                        assert(has_sig(k.specs[i.vmod], f[target[1]]@));
                    }
                }
            }
        }
    }
}

proof fn lemma_ctor_sig(
    vmod: Seq<char>,
    ctor: Seq<char>,
    k: KnownV,
    j: KnownV,
    m: RenamingV,
)
    requires
        paired(m, k, j),
    ensures
        vmod_args::ctor_sig(j, vmod, ctor) == vmod_args::ctor_sig(k, vmod, ctor),
        vmod_args::ctor_sig(k, vmod, ctor) matches Some(s) ==> leaves_sigs(m, k.specs)
            ==> leaves_sig(m, s),
{
    if k.specs.contains_key(vmod) && k.specs[vmod].objects@.contains_key(ctor) {
        assert(has_sig(k.specs[vmod], k.specs[vmod].objects@[ctor].init@));
    }
}

proof fn lemma_pass_expr(e: ExprV, k: KnownV, j: KnownV, x: Span, y: Span, m: RenamingV)
    requires
        paired(m, k, j),
        leaves_sigs(m, k.specs) || renaming::renamed_expr(e, m) == e,
    ensures
        match (
            vmod_args::pass_expr(e, k, x),
            vmod_args::pass_expr(renaming::renamed_expr(e, m), j, y),
        ) {
            (Ok(a), Ok(b)) => b == renaming::renamed_expr(a, m),
            (Err(e), Err(f)) => e.msg == f.msg,
            _ => false,
        },
    decreases e, 1nat, 0nat,
{
    match e {
        ExprV::Call { target, args } => {
            let sig = vmod_args::call_sig(k, target);
            lemma_call_sig(target, k, j, m);
            lemma_by_sig(args, sig, x, y, m);
            match vmod_args::by_sig(args, sig, x) {
                Ok(list) => {
                    vmod_args::lemma_by_sig_taken(args, sig, x);
                    lemma_pass_args(e, renaming::renamed_expr(e, m), args, list, k, j, x, y, list.len(), m);
                },
                Err(_) => {},
            }
        },
        ExprV::Unary { expr, .. } => lemma_pass_expr(*expr, k, j, x, y, m),
        ExprV::Binary { lhs, rhs, .. } => {
            lemma_pass_expr(*lhs, k, j, x, y, m);
            lemma_pass_expr(*rhs, k, j, x, y, m);
        },
        _ => {},
    }
}

proof fn lemma_pass_args(
    whole: ExprV,
    other: ExprV,
    from: Seq<ArgV>,
    args: Seq<ArgV>,
    k: KnownV, j: KnownV,
    x: Span,
    y: Span,
    n: nat, m: RenamingV,
)
    requires
        paired(m, k, j),
        leaves_sigs(m, k.specs) || renaming::renamed_args(from, m) == from,
        whole is Call,
        whole->Call_args == from,
        other is Call,
        other->Call_args == renaming::renamed_args(from, m),
        vmod_args::taken_from(args, from),
        n <= args.len(),
    ensures
        match (
            vmod_args::pass_args(whole, args, k, x, n),
            vmod_args::pass_args(other, renaming::renamed_args(args, m), j, y, n),
        ) {
            (Ok(a), Ok(b)) => b == renaming::renamed_args(a, m),
            (Err(e), Err(f)) => e.msg == f.msg,
            _ => false,
        },
    decreases whole, 0nat, n,
{
    let ba = renaming::renamed_args(args, m);
    let bf = renaming::renamed_args(from, m);
    if n > 0 {
        lemma_pass_args(whole, other, from, args, k, j, x, y, (n - 1) as nat, m);
        let a = args[n - 1];
        assert(ba[n - 1] == renaming::renamed_arg(a, m));
        if !(a.value is Omitted) {
            let i = choose|i: int| 0 <= i < from.len() && a.value == (#[trigger] from[i]).value;
            assert(decreases_to!(whole => from[i].value));
            assert(bf[i] == renaming::renamed_arg(from[i], m));
            assert(other->Call_args == bf);
            assert(decreases_to!(other => bf[i].value));
            lemma_pass_expr(a.value, k, j, x, y, m);
        }
        match vmod_args::pass_args(whole, args, k, x, (n - 1) as nat) {
            Ok(done) => {
                lemma_push_args(done, a, m);
                match vmod_args::pass_expr(a.value, k, x) {
                    Ok(v) => lemma_push_args(done, ArgV { value: v, ..a }, m),
                    Err(_) => {},
                }
            },
            Err(_) => {},
        }
    } else {
        assert(renaming::renamed_args(seq![], m) =~= seq![]);
    }
}

proof fn lemma_pass_exprs(es: Seq<ExprV>, k: KnownV, j: KnownV, x: Span, y: Span, n: nat, m: RenamingV)
    requires
        paired(m, k, j),
        leaves_sigs(m, k.specs) || renaming::renamed_exprs(es, m) == es,
        n <= es.len(),
    ensures
        match (
            vmod_args::pass_exprs(es, k, x, n),
            vmod_args::pass_exprs(renaming::renamed_exprs(es, m), j, y, n),
        ) {
            (Ok(a), Ok(b)) => b == renaming::renamed_exprs(a, m),
            (Err(e), Err(f)) => e.msg == f.msg,
            _ => false,
        },
    decreases n,
{
    if n > 0 {
        lemma_pass_exprs(es, k, j, x, y, (n - 1) as nat, m);
        assert(renaming::renamed_exprs(es, m)[n - 1] == renaming::renamed_expr(es[n - 1], m));
        lemma_pass_expr(es[n - 1], k, j, x, y, m);
        match (
            vmod_args::pass_exprs(es, k, x, (n - 1) as nat),
            vmod_args::pass_expr(es[n - 1], k, x),
        ) {
            (Ok(done), Ok(v)) => lemma_push_exprs(done, v, m),
            _ => {},
        }
    } else {
        assert(renaming::renamed_exprs(seq![], m) =~= seq![]);
    }
}

proof fn lemma_pass_stmt(s: StmtV, k: KnownV, j: KnownV, m: RenamingV)
    requires
        paired(m, k, j),
        leaves_sigs(m, k.specs) || renaming::renamed_stmt(s, m) == s,
    ensures
        match (
            vmod_args::pass_stmt(s, k),
            vmod_args::pass_stmt(renaming::renamed_stmt(s, m), j),
        ) {
            (Ok(a), Ok(b)) => b == renaming::renamed_stmt(a, m),
            (Err(e), Err(f)) => e.msg == f.msg,
            _ => false,
        },
    decreases s, 0nat,
{
    let x = ast::stmt_span(s);
    let y = ast::stmt_span(renaming::renamed_stmt(s, m));
    match s {
        StmtV::Assign { rhs, .. } => lemma_pass_expr(rhs, k, j, x, y, m),
        StmtV::Return { action: Some(a), .. } => lemma_pass_exprs(a.args, k, j, x, y, a.args.len(), m),
        StmtV::Synthetic { value, .. } => lemma_pass_expr(value, k, j, x, y, m),
        StmtV::If { arms, else_body, .. } => {
            lemma_pass_arms(arms, k, j, x, y, arms.len(), m);
            match else_body {
                Some(b) => lemma_pass_stmts(b, k, j, b.len(), m),
                None => {},
            }
        },
        StmtV::New { vmod, ctor, args, .. } => {
            let sig = vmod_args::ctor_sig(k, vmod, ctor);
            lemma_ctor_sig(vmod, ctor, k, j, m);
            lemma_by_sig(args, sig, x, y, m);
            match vmod_args::by_sig(args, sig, x) {
                Ok(list) => {
                    vmod_args::lemma_by_sig_taken(args, sig, x);
                    lemma_pass_args(
                        vmod_args::ctor_call(vmod, ctor, args),
                        vmod_args::ctor_call(vmod, ctor, renaming::renamed_args(args, m)),
                        args,
                        list,
                        k, j,
                        x,
                        y,
                        list.len(), m,
                    );
                },
                Err(_) => {},
            }
        },
        StmtV::Expr { expr, .. } => lemma_pass_expr(expr, k, j, x, y, m),
        _ => {},
    }
}

proof fn lemma_pass_stmts(ss: Seq<StmtV>, k: KnownV, j: KnownV, n: nat, m: RenamingV)
    requires
        paired(m, k, j),
        leaves_sigs(m, k.specs) || renaming::renamed_stmts(ss, m) == ss,
        n <= ss.len(),
    ensures
        match (
            vmod_args::pass_stmts(ss, k, n),
            vmod_args::pass_stmts(renaming::renamed_stmts(ss, m), j, n),
        ) {
            (Ok(a), Ok(b)) => b == renaming::renamed_stmts(a, m),
            (Err(e), Err(f)) => e.msg == f.msg,
            _ => false,
        },
    decreases ss, n,
{
    if n > 0 {
        lemma_pass_stmts(ss, k, j, (n - 1) as nat, m);
        assert(renaming::renamed_stmts(ss, m)[n - 1] == renaming::renamed_stmt(ss[n - 1], m));
        lemma_pass_stmt(ss[n - 1], k, j, m);
        assert(renaming::renamed_stmts(ss, m)[n - 1] == renaming::renamed_stmt(ss[n - 1], m));
        match (
            vmod_args::pass_stmts(ss, k, (n - 1) as nat),
            vmod_args::pass_stmt(ss[n - 1], k),
        ) {
            (Ok(done), Ok(v)) => lemma_push_stmts(done, v, m),
            _ => {},
        }
    } else {
        assert(renaming::renamed_stmts(seq![], m) =~= seq![]);
    }
}

proof fn lemma_pass_arms(arms: Seq<ArmV>, k: KnownV, j: KnownV, x: Span, y: Span, n: nat, m: RenamingV)
    requires
        paired(m, k, j),
        leaves_sigs(m, k.specs) || renaming::renamed_arms(arms, m) == arms,
        n <= arms.len(),
    ensures
        match (
            vmod_args::pass_arms(arms, k, x, n),
            vmod_args::pass_arms(renaming::renamed_arms(arms, m), j, y, n),
        ) {
            (Ok(a), Ok(b)) => b == renaming::renamed_arms(a, m),
            (Err(e), Err(f)) => e.msg == f.msg,
            _ => false,
        },
    decreases arms, n,
{
    if n > 0 {
        let a = arms[n - 1];
        lemma_pass_arms(arms, k, j, x, y, (n - 1) as nat, m);
        assert(renaming::renamed_arms(arms, m)[n - 1] == renaming::renamed_arm(a, m));
        lemma_pass_expr(a.cond, k, j, x, y, m);
        lemma_pass_stmts(a.body, k, j, a.body.len(), m);
        assert(renaming::renamed_arms(arms, m)[n - 1] == renaming::renamed_arm(a, m));
        match (
            vmod_args::pass_arms(arms, k, x, (n - 1) as nat),
            vmod_args::pass_expr(a.cond, k, x),
            vmod_args::pass_stmts(a.body, k, a.body.len()),
        ) {
            (Ok(done), Ok(cond), Ok(body)) => lemma_push_arms(done, ArmV { cond, body }, m),
            _ => {},
        }
    } else {
        assert(renaming::renamed_arms(seq![], m) =~= seq![]);
    }
}

proof fn lemma_pass_decls(ds: Seq<DeclV>, k: KnownV, j: KnownV, n: nat, m: RenamingV)
    requires
        paired(m, k, j),
        leaves_sigs(m, k.specs) || renaming::renamed_decls(ds, m) == ds,
        n <= ds.len(),
    ensures
        match (
            vmod_args::pass_decls(ds, k, n),
            vmod_args::pass_decls(renaming::renamed_decls(ds, m), j, n),
        ) {
            (Ok(a), Ok(b)) => b == renaming::renamed_decls(a, m),
            (Err(e), Err(f)) => e.msg == f.msg,
            _ => false,
        },
    decreases n,
{
    if n > 0 {
        let d = ds[n - 1];
        lemma_pass_decls(ds, k, j, (n - 1) as nat, m);
        assert(renaming::renamed_decls(ds, m)[n - 1] == renaming::renamed_decl(d, m));
        match d {
            DeclV::Sub { body, .. } => lemma_pass_stmts(body, k, j, body.len(), m),
            _ => {},
        }
        match vmod_args::pass_decls(ds, k, (n - 1) as nat) {
            Ok(done) => match d {
                DeclV::Sub { name, body, span } => match vmod_args::pass_stmts(
                    body,
                    k,
                    body.len(),
                ) {
                    Ok(b) => lemma_push_decls(done, DeclV::Sub { name, body: b, span }, m),
                    Err(_) => {},
                },
                _ => lemma_push_decls(done, d, m),
            },
            Err(_) => {},
        }
    } else {
        assert(renaming::renamed_decls(seq![], m) =~= seq![]);
    }
}

proof fn lemma_instances_in(
    ss: Seq<StmtV>,
    n: nat,
    a: Map<Seq<char>, InstanceV>,
    b: Map<Seq<char>, InstanceV>,
    m: RenamingV,
)
    requires
        invariance::one_to_one(m),
        n <= ss.len(),
        same_instances(m, a, b),
    ensures
        same_instances(
            m,
            vmod_args::instances_in(ss, n, a),
            vmod_args::instances_in(renaming::renamed_stmts(ss, m), n, b),
        ),
    decreases ss, n,
{
    if n > 0 {
        lemma_instances_in(ss, (n - 1) as nat, a, b, m);
        let x = vmod_args::instances_in(ss, (n - 1) as nat, a);
        let y = vmod_args::instances_in(renaming::renamed_stmts(ss, m), (n - 1) as nat, b);
        assert(renaming::renamed_stmts(ss, m)[n - 1] == renaming::renamed_stmt(ss[n - 1], m));
        match ss[n - 1] {
            StmtV::New { name, .. } => {
                let z = renaming::new_name(m, name);
                assert forall|i: Seq<char>| #[trigger] renaming::new_name(m, i) == z implies i
                    == name by {}
            },
            StmtV::If { arms, else_body, .. } => {
                lemma_instances_in_arms(arms, arms.len(), x, y, m);
                match else_body {
                    Some(e) => lemma_instances_in(
                        e,
                        e.len(),
                        vmod_args::instances_in_arms(arms, arms.len(), x),
                        vmod_args::instances_in_arms(
                            renaming::renamed_arms(arms, m),
                            arms.len(),
                            y,
                        ),
                        m,
                    ),
                    None => {},
                }
            },
            _ => {},
        }
    }
}

proof fn lemma_instances_in_arms(
    arms: Seq<ArmV>,
    n: nat,
    a: Map<Seq<char>, InstanceV>,
    b: Map<Seq<char>, InstanceV>,
    m: RenamingV,
)
    requires
        invariance::one_to_one(m),
        n <= arms.len(),
        same_instances(m, a, b),
    ensures
        same_instances(
            m,
            vmod_args::instances_in_arms(arms, n, a),
            vmod_args::instances_in_arms(renaming::renamed_arms(arms, m), n, b),
        ),
    decreases arms, n,
{
    if n > 0 {
        lemma_instances_in_arms(arms, (n - 1) as nat, a, b, m);
        assert(renaming::renamed_arms(arms, m)[n - 1] == renaming::renamed_arm(arms[n - 1], m));
        lemma_instances_in(
            arms[n - 1].body,
            arms[n - 1].body.len(),
            vmod_args::instances_in_arms(arms, (n - 1) as nat, a),
            vmod_args::instances_in_arms(renaming::renamed_arms(arms, m), (n - 1) as nat, b),
            m,
        );
    }
}

proof fn lemma_instances_of(ds: Seq<DeclV>, n: nat, m: RenamingV)
    requires
        invariance::one_to_one(m),
        n <= ds.len(),
    ensures
        same_instances(
            m,
            vmod_args::instances_of(ds, n),
            vmod_args::instances_of(renaming::renamed_decls(ds, m), n),
        ),
    decreases n,
{
    if n > 0 {
        lemma_instances_of(ds, (n - 1) as nat, m);
        match ds[n - 1] {
            DeclV::Sub { body, .. } => lemma_instances_in(
                body,
                body.len(),
                vmod_args::instances_of(ds, (n - 1) as nat),
                vmod_args::instances_of(renaming::renamed_decls(ds, m), (n - 1) as nat),
                m,
            ),
            _ => {},
        }
    }
}

/// What is known of the vmods and of the objects of a list of declarations.
pub open spec fn known_of(ds: Seq<DeclV>, specs: Map<Seq<char>, VmodSpec>) -> KnownV {
    KnownV { specs, instances: vmod_args::instances_of(ds, ds.len()) }
}

/// Declarations after the two passes over literals and over the arguments of
/// vmod calls.
pub open spec fn passed(
    ds: Seq<DeclV>,
    specs: Map<Seq<char>, VmodSpec>,
) -> core::result::Result<Seq<DeclV>, ast::ErrV> {
    let l = literals::lit_decls(ds);
    vmod_args::pass_decls(l, known_of(l, specs), l.len())
}

/// Declarations whose names are replaced come out of the first two passes with
/// their names replaced.
pub proof fn law_passes_do_not_look_at_names(
    ds: Seq<DeclV>,
    specs: Map<Seq<char>, VmodSpec>,
    m: RenamingV,
)
    requires
        leaves_headers(m),
        leaves_vmods(m, specs),
        leaves_sigs(m, specs) || renaming::renamed_decls(ds, m) == ds,
    ensures
        match (passed(ds, specs), passed(renaming::renamed_decls(ds, m), specs)) {
            (Ok(a), Ok(b)) => b == renaming::renamed_decls(a, m),
            (Err(e), Err(f)) => e.msg == f.msg,
            _ => false,
        },
{
    let l = literals::lit_decls(ds);
    let r = renaming::renamed_decls(l, m);
    lemma_lit_decls(ds, m);
    assert(renaming::renamed_decls(ds, m) == ds ==> r == l);
    lemma_instances_of(l, l.len(), m);
    lemma_pass_decls(l, known_of(l, specs), known_of(r, specs), l.len(), m);
}

} // verus!
