//! A program that went through the passes is left alone by them.

use crate::ast;
use crate::ast::{DeclV, ErrV, FieldV, ProgramV, StmtV};
use crate::normalize;
use crate::normalize::invariance;
use crate::normalize::literals;
use crate::normalize::merge;
use crate::normalize::objects;
use crate::normalize::once;
use crate::normalize::probes;
use crate::normalize::rename;
use crate::normalize::renaming;
use crate::normalize::renaming::RenamingV;
use crate::normalize::sort;
use crate::normalize::vmod_args;
use crate::normalize::vmod_args::{InstanceV, KnownV};
use crate::vmod::VmodSpec;
use vstd::prelude::*;

verus! {

// ───────────────────────── declarations that are done ─────────────────────────

/// Whether the passes leave a declaration alone.
pub open spec fn done_decl(d: DeclV, k: KnownV) -> bool {
    &&& literals::lit_decl(d) == d
    &&& d matches DeclV::Sub { body, .. } ==> forall|i: int|
        0 <= i < body.len() ==> vmod_args::pass_stmt(#[trigger] body[i], k) == Ok::<StmtV, ErrV>(
            body[i],
        )
}

/// Whether the passes leave all declarations alone.
pub open spec fn done_decls(ds: Seq<DeclV>, k: KnownV) -> bool {
    forall|i: int| 0 <= i < ds.len() ==> done_decl(#[trigger] ds[i], k)
}

/// Whether two lists of declarations make the same objects.
pub open spec fn same_objects(a: Seq<DeclV>, b: Seq<DeclV>) -> bool {
    forall|n: Seq<char>, o: InstanceV|
        #[trigger] objects::makes_decls(a, n, o) == objects::makes_decls(b, n, o)
}

/// Whether no default of any signature is the text of a call.
pub open spec fn plain_specs(specs: Map<Seq<char>, VmodSpec>) -> bool {
    forall|k: KnownV| k.specs == specs ==> #[trigger] once::plain_known(k)
}

// ───────────────────────── through the passes ─────────────────────────

pub(crate) proof fn lemma_pass_decls(ds: Seq<DeclV>, k: KnownV, n: nat)
    requires
        once::plain_known(k),
        n <= ds.len(),
        forall|i: int| 0 <= i < ds.len() ==> literals::lit_decl(#[trigger] ds[i]) == ds[i],
    ensures
        match vmod_args::pass_decls(ds, k, n) {
            Ok(r) => r.len() == n && forall|i: int|
                0 <= i < n ==> done_decl(#[trigger] r[i], k) && forall|x: Seq<char>, o: InstanceV|
                    #[trigger] objects::makes_decl(r[i], x, o) == objects::makes_decl(ds[i], x, o),
            Err(_) => true,
        },
    decreases n,
{
    if n > 0 {
        lemma_pass_decls(ds, k, (n - 1) as nat);
        assert(literals::lit_decl(ds[n - 1]) == ds[n - 1]);
        match ds[n - 1] {
            DeclV::Sub { name, body, span } => {
                once::lemma_pass_stmts(body, k, body.len());
                match vmod_args::pass_stmts(body, k, body.len()) {
                    Ok(b) => {
                        once::lemma_settled_stmts(body, b, k);
                        let d = DeclV::Sub { name, body: b, span };
                        assert forall|i: int| 0 <= i < b.len() implies vmod_args::pass_stmt(
                            #[trigger] b[i],
                            k,
                        ) == Ok::<StmtV, ErrV>(b[i]) by {
                            assert(once::settled_stmt(body[i], b[i], k));
                        }
                        assert(done_decl(d, k));
                    },
                    Err(_) => {},
                }
            },
            _ => {},
        }
    }
}

pub(crate) proof fn lemma_same_objects(a: Seq<DeclV>, b: Seq<DeclV>)
    requires
        a.len() == b.len(),
        forall|i: int, x: Seq<char>, o: InstanceV|
            0 <= i < a.len() ==> #[trigger] objects::makes_decl(a[i], x, o) == objects::makes_decl(
                b[i],
                x,
                o,
            ),
    ensures
        same_objects(a, b),
{
    assert forall|x: Seq<char>, o: InstanceV| #[trigger] objects::makes_decls(a, x, o)
        == objects::makes_decls(b, x, o) by {
        if objects::makes_decls(a, x, o) {
            let i = choose|i: int| 0 <= i < a.len() && objects::makes_decl(#[trigger] a[i], x, o);
            assert(objects::makes_decl(b[i], x, o));
        }
        if objects::makes_decls(b, x, o) {
            let i = choose|i: int| 0 <= i < b.len() && objects::makes_decl(#[trigger] b[i], x, o);
            assert(objects::makes_decl(a[i], x, o));
        }
    }
}

proof fn lemma_lit_makes_stmt(s: StmtV, x: Seq<char>, o: InstanceV)
    ensures
        objects::makes_stmt(literals::lit_stmt(s), x, o) == objects::makes_stmt(s, x, o),
    decreases s,
{
    match s {
        StmtV::If { arms, else_body, .. } => {
            lemma_lit_makes_arms(arms, x, o);
            match else_body {
                Some(b) => lemma_lit_makes(b, x, o),
                None => {},
            }
        },
        _ => {},
    }
}

pub(crate) proof fn lemma_lit_makes(ss: Seq<StmtV>, x: Seq<char>, o: InstanceV)
    ensures
        objects::makes(literals::lit_stmts(ss), x, o) == objects::makes(ss, x, o),
    decreases ss,
{
    let r = literals::lit_stmts(ss);
    assert forall|i: int| 0 <= i < ss.len() implies objects::makes_stmt(#[trigger] r[i], x, o)
        == objects::makes_stmt(ss[i], x, o) by {
        lemma_lit_makes_stmt(ss[i], x, o);
    }
    if objects::makes(ss, x, o) {
        let i = choose|i: int| 0 <= i < ss.len() && objects::makes_stmt(#[trigger] ss[i], x, o);
        assert(objects::makes_stmt(r[i], x, o));
    }
    if objects::makes(r, x, o) {
        let i = choose|i: int| 0 <= i < r.len() && objects::makes_stmt(#[trigger] r[i], x, o);
        assert(objects::makes_stmt(ss[i], x, o));
    }
}

proof fn lemma_lit_makes_arms(arms: Seq<ast::ArmV>, x: Seq<char>, o: InstanceV)
    ensures
        objects::makes_arms(literals::lit_arms(arms), x, o) == objects::makes_arms(arms, x, o),
    decreases arms,
{
    let r = literals::lit_arms(arms);
    assert forall|i: int| 0 <= i < arms.len() implies objects::makes((#[trigger] r[i]).body, x, o)
        == objects::makes(arms[i].body, x, o) by {
        lemma_lit_makes(arms[i].body, x, o);
    }
    if objects::makes_arms(arms, x, o) {
        let i = choose|i: int| 0 <= i < arms.len() && objects::makes((#[trigger] arms[i]).body, x, o);
        assert(objects::makes(r[i].body, x, o));
    }
    if objects::makes_arms(r, x, o) {
        let i = choose|i: int| 0 <= i < r.len() && objects::makes((#[trigger] r[i]).body, x, o);
        assert(objects::makes(arms[i].body, x, o));
    }
}

// ───────────────────────── probes ─────────────────────────

proof fn lemma_field_probes(fs: Seq<FieldV>, n: nat, base: nat, k: KnownV)
    requires
        n <= fs.len(),
        literals::lit_fields(fs) == fs,
    ensures
        done_decls(probes::field_probes(fs, n, base), k),
        forall|i: int|
            0 <= i < probes::field_probes(fs, n, base).len() ==> !(#[trigger] probes::field_probes(
                fs,
                n,
                base,
            )[i] is Sub),
    decreases n,
{
    if n > 0 {
        lemma_field_probes(fs, (n - 1) as nat, base, k);
        assert(literals::lit_fields(fs)[n - 1] == literals::lit_field(fs[n - 1]));
    }
}

proof fn lemma_all_probes(ds: Seq<DeclV>, n: nat, k: KnownV)
    requires
        n <= ds.len(),
        done_decls(ds, k),
    ensures
        done_decls(probes::all_probes(ds, n), k),
        forall|i: int|
            0 <= i < probes::all_probes(ds, n).len() ==> !(#[trigger] probes::all_probes(
                ds,
                n,
            )[i] is Sub),
    decreases n,
{
    if n > 0 {
        lemma_all_probes(ds, (n - 1) as nat, k);
        assert(done_decl(ds[n - 1], k));
        let fs = probes::backend_fields(ds[n - 1]);
        assert(literals::lit_fields(fs) =~= fs);
        lemma_field_probes(fs, fs.len(), probes::all_probes(ds, (n - 1) as nat).len(), k);
    }
}

proof fn lemma_lifted(ds: Seq<DeclV>, k: KnownV)
    requires
        done_decls(ds, k),
    ensures
        done_decls(probes::lifted_decls(ds), k),
        same_objects(probes::lifted_decls(ds), ds),
{
    let a = Seq::new(ds.len(), |i: int| probes::lifted_decl(ds, i));
    let b = probes::all_probes(ds, ds.len());
    let r = probes::lifted_decls(ds);
    lemma_all_probes(ds, ds.len(), k);
    assert forall|i: int| 0 <= i < r.len() implies done_decl(#[trigger] r[i], k) by {
        if i < ds.len() {
            assert(done_decl(ds[i], k));
            assert(r[i] == probes::lifted_decl(ds, i));
            match ds[i] {
                DeclV::Backend { body: Some(fs), .. } => {
                    let base = probes::all_probes(ds, i as nat).len();
                    let l = probes::lifted_fields(fs, base);
                    assert(literals::lit_fields(fs) == fs);
                    assert forall|j: int| 0 <= j < l.len() implies literals::lit_field(
                        #[trigger] l[j],
                    ) == l[j] by {
                        assert(literals::lit_fields(fs)[j] == literals::lit_field(fs[j]));
                    }
                    assert(literals::lit_fields(l) =~= l);
                },
                _ => {},
            }
        } else {
            assert(r[i] == b[i - ds.len()]);
        }
    }
    assert forall|x: Seq<char>, o: InstanceV| #[trigger] objects::makes_decls(r, x, o)
        == objects::makes_decls(ds, x, o) by {
        if objects::makes_decls(r, x, o) {
            let i = choose|i: int| 0 <= i < r.len() && objects::makes_decl(#[trigger] r[i], x, o);
            if i >= ds.len() {
                assert(r[i] == b[i - ds.len()]);
            } else {
                assert(r[i] == probes::lifted_decl(ds, i));
                assert(objects::makes_decl(ds[i], x, o));
            }
        }
        if objects::makes_decls(ds, x, o) {
            let i = choose|i: int| 0 <= i < ds.len() && objects::makes_decl(#[trigger] ds[i], x, o);
            assert(r[i] == probes::lifted_decl(ds, i));
            assert(objects::makes_decl(r[i], x, o));
        }
    }
}

// ───────────────────────── merging ─────────────────────────

proof fn lemma_more_makes(a: Seq<StmtV>, b: Seq<StmtV>, x: Seq<char>, o: InstanceV)
    ensures
        objects::makes(a + b, x, o) == (objects::makes(a, x, o) || objects::makes(b, x, o)),
{
    let t = a + b;
    if objects::makes(t, x, o) {
        let i = choose|i: int| 0 <= i < t.len() && objects::makes_stmt(#[trigger] t[i], x, o);
        if i < a.len() {
            assert(objects::makes_stmt(a[i], x, o));
        } else {
            assert(objects::makes_stmt(b[i - a.len()], x, o));
        }
    }
    if objects::makes(a, x, o) {
        let i = choose|i: int| 0 <= i < a.len() && objects::makes_stmt(#[trigger] a[i], x, o);
        assert(objects::makes_stmt(t[i], x, o));
    }
    if objects::makes(b, x, o) {
        let i = choose|i: int| 0 <= i < b.len() && objects::makes_stmt(#[trigger] b[i], x, o);
        assert(t[a.len() + i] == b[i]);
        assert(objects::makes_stmt(t[a.len() + i], x, o));
    }
}

proof fn lemma_with_more(d: DeclV, more: Seq<StmtV>, k: KnownV)
    requires
        d is Sub,
        done_decl(d, k),
        literals::lit_stmts(more) == more,
        forall|i: int|
            0 <= i < more.len() ==> vmod_args::pass_stmt(#[trigger] more[i], k) == Ok::<
                StmtV,
                ErrV,
            >(more[i]),
    ensures
        done_decl(merge::with_more(d, more), k),
{
    let body = d->Sub_body;
    let t = body + more;
    assert(literals::lit_stmts(body) == body);
    assert forall|i: int| 0 <= i < t.len() implies literals::lit_stmt(#[trigger] t[i]) == t[i]
        && vmod_args::pass_stmt(t[i], k) == Ok::<StmtV, ErrV>(t[i]) by {
        if i < body.len() {
            assert(t[i] == body[i]);
            assert(literals::lit_stmts(body)[i] == literals::lit_stmt(body[i]));
        } else {
            let j = i - body.len();
            assert(t[i] == more[j]);
            assert(literals::lit_stmts(more)[j] == literals::lit_stmt(more[j]));
        }
    }
    assert(literals::lit_stmts(t) =~= t);
}

/// Whether one of the first `n` declarations makes an object.
pub open spec fn makes_upto(ds: Seq<DeclV>, n: nat, x: Seq<char>, o: InstanceV) -> bool {
    exists|i: int| 0 <= i < n && i < ds.len() && objects::makes_decl(#[trigger] ds[i], x, o)
}

proof fn lemma_merged_with(m: Seq<DeclV>, d: DeclV, k: KnownV)
    requires
        done_decls(m, k),
        done_decl(d, k),
    ensures
        done_decls(merge::merged_with(m, d), k),
        forall|x: Seq<char>, o: InstanceV|
            #[trigger] objects::makes_decls(merge::merged_with(m, d), x, o) == (
            objects::makes_decls(m, x, o) || objects::makes_decl(d, x, o)),
{
    let r = merge::merged_with(m, d);
    if merge::continues(m, d) {
        let name = d->Sub_name;
        let body = d->Sub_body;
        let at = merge::sub_at(m, name, 0) as int;
        merge::lemma_sub_at(m, name, 0);
        assert(merge::is_sub(m[at], name));
        assert(done_decl(m[at], k));
        lemma_with_more(m[at], body, k);
        let e = merge::with_more(m[at], body);
        assert(r == m.update(at, e));
        assert forall|i: int| 0 <= i < r.len() implies done_decl(#[trigger] r[i], k) by {
            if i != at {
                assert(r[i] == m[i]);
            }
        }
        assert forall|x: Seq<char>, o: InstanceV| #[trigger] objects::makes_decls(r, x, o) == (
        objects::makes_decls(m, x, o) || objects::makes_decl(d, x, o)) by {
            lemma_more_makes(m[at]->Sub_body, body, x, o);
            assert(objects::makes_decl(e, x, o) == (objects::makes_decl(m[at], x, o)
                || objects::makes_decl(d, x, o)));
            if objects::makes_decls(r, x, o) {
                let i = choose|i: int|
                    0 <= i < r.len() && objects::makes_decl(#[trigger] r[i], x, o);
                if i != at {
                    assert(objects::makes_decl(m[i], x, o));
                } else if objects::makes_decl(m[at], x, o) {
                    assert(objects::makes_decls(m, x, o));
                }
            }
            if objects::makes_decls(m, x, o) {
                let i = choose|i: int|
                    0 <= i < m.len() && objects::makes_decl(#[trigger] m[i], x, o);
                assert(objects::makes_decl(r[i], x, o));
            }
            if objects::makes_decl(d, x, o) {
                assert(objects::makes_decl(r[at], x, o));
            }
        }
    } else {
        assert(r == m.push(d));
        assert forall|i: int| 0 <= i < r.len() implies done_decl(#[trigger] r[i], k) by {
            if i < m.len() {
                assert(r[i] == m[i]);
            }
        }
        assert forall|x: Seq<char>, o: InstanceV| #[trigger] objects::makes_decls(r, x, o) == (
        objects::makes_decls(m, x, o) || objects::makes_decl(d, x, o)) by {
            if objects::makes_decls(r, x, o) {
                let i = choose|i: int|
                    0 <= i < r.len() && objects::makes_decl(#[trigger] r[i], x, o);
                if i < m.len() {
                    assert(objects::makes_decl(m[i], x, o));
                }
            }
            if objects::makes_decls(m, x, o) {
                let i = choose|i: int|
                    0 <= i < m.len() && objects::makes_decl(#[trigger] m[i], x, o);
                assert(objects::makes_decl(r[i], x, o));
            }
            if objects::makes_decl(d, x, o) {
                assert(objects::makes_decl(r[m.len() as int], x, o));
            }
        }
    }
}

proof fn lemma_merged(ds: Seq<DeclV>, n: nat, k: KnownV)
    requires
        n <= ds.len(),
        done_decls(ds, k),
    ensures
        done_decls(merge::merged_first(ds, n), k),
        forall|x: Seq<char>, o: InstanceV|
            #[trigger] objects::makes_decls(merge::merged_first(ds, n), x, o) == makes_upto(
                ds,
                n,
                x,
                o,
            ),
    decreases n,
{
    if n > 0 {
        let before = merge::merged_first(ds, (n - 1) as nat);
        lemma_merged(ds, (n - 1) as nat, k);
        assert(done_decl(ds[n - 1], k));
        lemma_merged_with(before, ds[n - 1], k);
        assert forall|x: Seq<char>, o: InstanceV|
            #[trigger] objects::makes_decls(merge::merged_first(ds, n), x, o) == makes_upto(
                ds,
                n,
                x,
                o,
            ) by {
            assert(objects::makes_decls(before, x, o) == makes_upto(ds, (n - 1) as nat, x, o));
            if makes_upto(ds, n, x, o) {
                let i = choose|i: int|
                    0 <= i < n && i < ds.len() && objects::makes_decl(#[trigger] ds[i], x, o);
                if i < n - 1 {
                    assert(makes_upto(ds, (n - 1) as nat, x, o));
                }
            }
            if makes_upto(ds, (n - 1) as nat, x, o) {
                let i = choose|i: int|
                    0 <= i < n - 1 && i < ds.len() && objects::makes_decl(#[trigger] ds[i], x, o);
                assert(objects::makes_decl(ds[i], x, o));
            }
            if objects::makes_decl(ds[n - 1], x, o) {
                assert(makes_upto(ds, n, x, o));
            }
        }
    }
}

// ───────────────────────── names and order ─────────────────────────

/// Whether a renaming leaves the bodies of the subroutines as they are.
pub open spec fn bodies_stay(ds: Seq<DeclV>, m: RenamingV) -> bool {
    forall|i: int|
        0 <= i < ds.len() ==> ((#[trigger] ds[i]) matches DeclV::Sub { body, .. }
            ==> renaming::renamed_stmts(body, m) == body)
}

proof fn lemma_renamed(ds: Seq<DeclV>, m: RenamingV, k: KnownV)
    requires
        done_decls(ds, k),
        bodies_stay(ds, m),
    ensures
        done_decls(renaming::renamed_decls(ds, m), k),
        same_objects(renaming::renamed_decls(ds, m), ds),
{
    let r = renaming::renamed_decls(ds, m);
    assert forall|i: int| 0 <= i < r.len() implies done_decl(#[trigger] r[i], k) by {
        assert(done_decl(ds[i], k));
        match ds[i] {
            DeclV::Backend { body: Some(fs), .. } => {
                let l = renaming::renamed_fields(fs, m);
                assert forall|j: int| 0 <= j < l.len() implies literals::lit_field(#[trigger] l[j])
                    == l[j] by {
                    assert(literals::lit_fields(fs)[j] == literals::lit_field(fs[j]));
                }
                assert(literals::lit_fields(l) =~= l);
            },
            _ => {},
        }
    }
    assert forall|i: int, x: Seq<char>, o: InstanceV| 0 <= i < r.len() implies
        #[trigger] objects::makes_decl(r[i], x, o) == objects::makes_decl(ds[i], x, o) by {
        assert(ds[i] matches DeclV::Sub { body, .. } ==> renaming::renamed_stmts(body, m) == body);
    }
    lemma_same_objects(r, ds);
}

pub(crate) proof fn lemma_sorted(ds: Seq<DeclV>, k: KnownV)
    requires
        done_decls(ds, k),
    ensures
        done_decls(sort::sorted_decls(ds), k),
        same_objects(sort::sorted_decls(ds), ds),
{
    let r = sort::sorted_decls(ds);
    sort::law_decls_are_kept(ds);
    invariance::lemma_same_members(r, ds);
    assert forall|i: int| 0 <= i < r.len() implies done_decl(#[trigger] r[i], k) by {
        assert(r.contains(r[i]));
        let j = choose|j: int| 0 <= j < ds.len() && ds[j] == r[i];
        assert(done_decl(ds[j], k));
    }
    assert forall|x: Seq<char>, o: InstanceV| #[trigger] objects::makes_decls(r, x, o)
        == objects::makes_decls(ds, x, o) by {
        if objects::makes_decls(r, x, o) {
            let i = choose|i: int| 0 <= i < r.len() && objects::makes_decl(#[trigger] r[i], x, o);
            assert(r.contains(r[i]));
            let j = choose|j: int| 0 <= j < ds.len() && ds[j] == r[i];
            assert(objects::makes_decl(ds[j], x, o));
        }
        if objects::makes_decls(ds, x, o) {
            let i = choose|i: int| 0 <= i < ds.len() && objects::makes_decl(#[trigger] ds[i], x, o);
            assert(ds.contains(ds[i]));
            assert(r.contains(ds[i]));
            let j = choose|j: int| 0 <= j < r.len() && r[j] == ds[i];
            assert(objects::makes_decl(r[j], x, o));
        }
    }
}

pub(crate) proof fn lemma_bodies_merged(ds: Seq<DeclV>, n: nat, m: RenamingV)
    requires
        n <= ds.len(),
        bodies_stay(ds, m),
    ensures
        bodies_stay(merge::merged_first(ds, n), m),
    decreases n,
{
    if n > 0 {
        let before = merge::merged_first(ds, (n - 1) as nat);
        let d = ds[n - 1];
        let r = merge::merged_first(ds, n);
        lemma_bodies_merged(ds, (n - 1) as nat, m);
        assert(d matches DeclV::Sub { body, .. } ==> renaming::renamed_stmts(body, m) == body);
        if merge::continues(before, d) {
            let body = d->Sub_body;
            let at = merge::sub_at(before, d->Sub_name, 0) as int;
            merge::lemma_sub_at(before, d->Sub_name, 0);
            assert(merge::is_sub(before[at], d->Sub_name));
            let a = before[at]->Sub_body;
            assert(renaming::renamed_stmts(a, m) == a);
            let t = a + body;
            assert(renaming::renamed_stmts(t, m) =~= t) by {
                assert forall|i: int| 0 <= i < t.len() implies renaming::renamed_stmt(
                    #[trigger] t[i],
                    m,
                ) == t[i] by {
                    if i < a.len() {
                        assert(renaming::renamed_stmts(a, m)[i] == renaming::renamed_stmt(a[i], m));
                    } else {
                        let j = i - a.len();
                        assert(renaming::renamed_stmts(body, m)[j] == renaming::renamed_stmt(
                            body[j],
                            m,
                        ));
                    }
                }
            }
            assert(r == before.update(at, merge::with_more(before[at], body)));
        } else {
            assert(r == before.push(d));
        }
    }
}

/// Whether no backend holds a probe written in place.
pub open spec fn no_probes(ds: Seq<DeclV>) -> bool {
    forall|i: int| 0 <= i < ds.len() ==> !probes::holds_probe(#[trigger] ds[i])
}

proof fn lemma_merged_probes(ds: Seq<DeclV>, n: nat)
    requires
        n <= ds.len(),
        no_probes(ds),
    ensures
        no_probes(merge::merged_first(ds, n)),
    decreases n,
{
    if n > 0 {
        let before = merge::merged_first(ds, (n - 1) as nat);
        let d = ds[n - 1];
        let r = merge::merged_first(ds, n);
        lemma_merged_probes(ds, (n - 1) as nat);
        assert(!probes::holds_probe(d));
        if merge::continues(before, d) {
            let at = merge::sub_at(before, d->Sub_name, 0) as int;
            merge::lemma_sub_at(before, d->Sub_name, 0);
            assert(r == before.update(at, merge::with_more(before[at], d->Sub_body)));
            assert forall|i: int| 0 <= i < r.len() implies !probes::holds_probe(#[trigger] r[i]) by {
                assert(!probes::holds_probe(before[i]));
            }
        } else {
            assert(r == before.push(d));
        }
    }
}

pub(crate) proof fn lemma_renamed_probes(ds: Seq<DeclV>, m: RenamingV)
    requires
        no_probes(ds),
    ensures
        no_probes(renaming::renamed_decls(ds, m)),
{
    let r = renaming::renamed_decls(ds, m);
    assert forall|i: int| 0 <= i < r.len() implies !probes::holds_probe(#[trigger] r[i]) by {
        assert(!probes::holds_probe(ds[i]));
        let fs = probes::backend_fields(ds[i]);
        let gs = probes::backend_fields(r[i]);
        assert forall|j: int| 0 <= j < gs.len() implies !((#[trigger] gs[j]).value is Probe) by {
            assert(!(fs[j].value is Probe));
        }
    }
}

pub(crate) proof fn lemma_sorted_probes(ds: Seq<DeclV>)
    requires
        no_probes(ds),
    ensures
        no_probes(sort::sorted_decls(ds)),
{
    let r = sort::sorted_decls(ds);
    sort::law_decls_are_kept(ds);
    invariance::lemma_same_members(r, ds);
    assert forall|i: int| 0 <= i < r.len() implies !probes::holds_probe(#[trigger] r[i]) by {
        assert(r.contains(r[i]));
        let j = choose|j: int| 0 <= j < ds.len() && ds[j] == r[i];
        assert(!probes::holds_probe(ds[j]));
    }
}

pub(crate) proof fn lemma_decls_again(ds: Seq<DeclV>, k: KnownV, n: nat)
    requires
        n <= ds.len(),
        done_decls(ds, k),
    ensures
        vmod_args::pass_decls(ds, k, n) == Ok::<Seq<DeclV>, ErrV>(ds.take(n as int)),
    decreases n,
{
    if n > 0 {
        lemma_decls_again(ds, k, (n - 1) as nat);
        let d = ds[n - 1];
        assert(done_decl(d, k));
        assert(ds.take(n - 1).push(d) =~= ds.take(n as int));
        match d {
            DeclV::Sub { body, .. } => {
                once::lemma_stmts_again(body, k, body.len());
                assert(body.take(body.len() as int) =~= body);
            },
            _ => {},
        }
    } else {
        assert(ds.take(0) =~= seq![]);
    }
}

/// The passes leave a program alone whose declarations are done.
pub(crate) proof fn lemma_left_alone(p: ProgramV, specs: Map<Seq<char>, VmodSpec>)
    requires
        done_decls(
            p.decls,
            KnownV { specs, instances: vmod_args::instances_of(p.decls, p.decls.len()) },
        ),
        no_probes(p.decls),
    ensures
        normalize::prepared(p, specs) == Ok::<ProgramV, ErrV>(p),
{
    let k = KnownV { specs, instances: vmod_args::instances_of(p.decls, p.decls.len()) };
    let ds = p.decls;
    assert(literals::lit_decls(ds) =~= ds) by {
        assert forall|i: int| 0 <= i < ds.len() implies literals::lit_decl(#[trigger] ds[i])
            == ds[i] by {
            assert(done_decl(ds[i], k));
        }
    }
    assert(literals::lit_program(p) == p);
    lemma_decls_again(ds, k, ds.len());
    assert(ds.take(ds.len() as int) =~= ds);
    probes::law_nothing_to_lift(p);
}

/// What the passes leave of a program, its subroutines merged, is left alone by
/// them.
pub(crate) proof fn lemma_merged_again(p: ProgramV, specs: Map<Seq<char>, VmodSpec>)
    requires
        once::ascii_decls(p.decls),
        plain_specs(specs),
        objects::made_alike(p.decls),
        normalize::prepared(p, specs) is Ok,
    ensures
        ({
            let g = merge::merged_program(normalize::prepared(p, specs)->Ok_0).decls;
            &&& done_decls(
                g,
                KnownV { specs, instances: vmod_args::instances_of(g, g.len()) },
            )
            &&& no_probes(g)
            &&& objects::made_alike(g)
        }),
{
    let q = normalize::prepared(p, specs)->Ok_0;
    let l = literals::lit_program(p);
    let k = KnownV { specs, instances: vmod_args::instances_of(l.decls, l.decls.len()) };
    assert(once::plain_known(k));
    let f = vmod_args::pass_program(l, specs)->Ok_0;
    assert forall|i: int| 0 <= i < l.decls.len() implies literals::lit_decl(#[trigger] l.decls[i])
        == l.decls[i] by {
        once::lemma_lit_decl(p.decls[i]);
    }
    lemma_pass_decls(l.decls, k, l.decls.len());
    assert forall|i: int, x: Seq<char>, o: InstanceV| 0 <= i < l.decls.len() implies
        #[trigger] objects::makes_decl(l.decls[i], x, o) == objects::makes_decl(
            p.decls[i],
            x,
            o,
        ) by {
        match p.decls[i] {
            DeclV::Sub { body, .. } => lemma_lit_makes(body, x, o),
            _ => {},
        }
    }
    lemma_same_objects(l.decls, p.decls);
    lemma_same_objects(f.decls, l.decls);
    lemma_lifted(f.decls, k);
    probes::law_no_probe_in_place(f);
    let g = merge::merged_program(q).decls;
    lemma_merged(q.decls, q.decls.len(), k);
    lemma_merged_probes(q.decls, q.decls.len());
    assert forall|x: Seq<char>, o: InstanceV| #[trigger] objects::makes_decls(l.decls, x, o)
        == objects::makes_decls(g, x, o) by {
        assert(objects::makes_decls(g, x, o) == makes_upto(
            q.decls,
            q.decls.len(),
            x,
            o,
        ));
        assert(makes_upto(q.decls, q.decls.len(), x, o) == objects::makes_decls(
            q.decls,
            x,
            o,
        ));
        assert(objects::makes_decls(q.decls, x, o) == objects::makes_decls(f.decls, x, o));
        assert(objects::makes_decls(f.decls, x, o) == objects::makes_decls(l.decls, x, o));
    }
    assert(objects::made_alike(l.decls)) by {
        assert forall|x: Seq<char>, o: InstanceV, y: InstanceV|
            #[trigger] objects::makes_decls(l.decls, x, o) && #[trigger] objects::makes_decls(
                l.decls,
                x,
                y,
            ) implies o == y by {
            assert(objects::makes_decls(p.decls, x, o));
            assert(objects::makes_decls(p.decls, x, y));
        }
    }
    objects::law_objects_by_name(l.decls, g);
    assert forall|x: Seq<char>, o: InstanceV, y: InstanceV|
        #[trigger] objects::makes_decls(g, x, o) && #[trigger] objects::makes_decls(
            g,
            x,
            y,
        ) implies o == y by {
        assert(objects::makes_decls(l.decls, x, o));
        assert(objects::makes_decls(l.decls, x, y));
    }
}

/// A program that went through the passes, whose subroutines were merged and
/// whose declarations were sorted, is left alone by the passes.
pub proof fn law_passes_are_done_once(p: ProgramV, specs: Map<Seq<char>, VmodSpec>)
    requires
        once::ascii_decls(p.decls),
        plain_specs(specs),
        objects::made_alike(p.decls),
        match normalize::prepared(p, specs) {
            Ok(q) => {
                let m = merge::merged_program(q).decls;
                bodies_stay(q.decls, rename::anonymous_names(m, m.len()))
            },
            Err(_) => false,
        },
    ensures
        match normalize::prepared(p, specs) {
            Ok(q) => normalize::prepared(normalize::finished(q, false), specs) == Ok::<
                ProgramV,
                ErrV,
            >(normalize::finished(q, false)),
            Err(_) => false,
        },
{
    let q = normalize::prepared(p, specs)->Ok_0;
    let g = merge::merged_program(q).decls;
    let k = KnownV { specs, instances: vmod_args::instances_of(g, g.len()) };
    lemma_merged_again(p, specs);
    let m = rename::anonymous_names(g, g.len());
    lemma_bodies_merged(q.decls, q.decls.len(), m);
    let r = renaming::renamed_decls(g, m);
    lemma_renamed(g, m, k);
    lemma_renamed_probes(g, m);
    lemma_sorted(r, k);
    lemma_sorted_probes(r);
    let n = normalize::finished(q, false);
    assert(n.decls == sort::sorted_decls(r));
    assert forall|x: Seq<char>, o: InstanceV| #[trigger] objects::makes_decls(g, x, o)
        == objects::makes_decls(n.decls, x, o) by {
        assert(objects::makes_decls(n.decls, x, o) == objects::makes_decls(r, x, o));
        assert(objects::makes_decls(r, x, o) == objects::makes_decls(g, x, o));
    }
    objects::law_objects_by_name(g, n.decls);
    lemma_left_alone(n, specs);
}

} // verus!
