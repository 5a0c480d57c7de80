//! The names that lifted probes are printed under: changing them for the names
//! that they were lifted under leaves the canonical form alone.

use crate::ast;
use crate::ast::{DeclV, ErrV, FieldV, ProgramV};
use crate::layout;
use crate::layout::equivalence;
use crate::layout::naming;
use crate::normalize;
use crate::normalize::invariance;
use crate::normalize::literals;
use crate::normalize::merge;
use crate::normalize::numbering;
use crate::normalize::probes;
use crate::normalize::rename;
use crate::normalize::rename::{AssignedV, Kind};
use crate::normalize::renaming;
use crate::normalize::renaming::RenamingV;
use crate::normalize::sort;
use crate::normalize::vmod_args;
use crate::normalize::vmod_args::KnownV;
use crate::text;
use crate::vmod::VmodSpec;
use vstd::prelude::*;
use vstd::string::*;

verus! {

// ───────────────────────── names there and back ─────────────────────────

/// Whether a renaming gives that name.
pub open spec fn gives(a: RenamingV, n: Seq<char>) -> bool {
    exists|x: Seq<char>| #[trigger] a.contains_key(x) && a[x] == n
}

/// The name that a renaming changes into that one.
pub open spec fn source(a: RenamingV, n: Seq<char>) -> Seq<char> {
    choose|x: Seq<char>| #[trigger] a.contains_key(x) && a[x] == n
}

/// A renaming that also changes the names it gives back.
pub open spec fn exchanged(a: RenamingV) -> RenamingV {
    Map::new(
        |n: Seq<char>| a.contains_key(n) || gives(a, n),
        |n: Seq<char>|
            if a.contains_key(n) {
                a[n]
            } else {
                source(a, n)
            },
    )
}

/// Whether the `n`th of the names given is one of the first `c` of its kind.
spec fn counted(ds: Seq<DeclV>, n: nat, x: Seq<char>, k: Kind, c: nat) -> bool {
    &&& c <= rename::anonymous_count(ds, k, n)
    &&& rename::anonymous_names(ds, n)[x] == rename::numbered(k, c)
}

proof fn lemma_counted(ds: Seq<DeclV>, n: nat, x: Seq<char>) -> (r: (Kind, nat))
    requires
        n <= ds.len(),
        rename::anonymous_names(ds, n).contains_key(x),
    ensures
        counted(ds, n, x, r.0, r.1),
    decreases n,
{
    let d = ds[n - 1];
    if rename::is_anonymous(d) && ast::decl_name(d) == x {
        let k = rename::kind_of(d)->0;
        (k, rename::anonymous_count(ds, k, n))
    } else {
        lemma_counted(ds, (n - 1) as nat, x)
    }
}

proof fn lemma_numbered_apart(k: Kind, m: nat, j: Kind, n: nat)
    requires
        rename::numbered(k, m) == rename::numbered(j, n),
    ensures
        k == j,
        m == n,
{
    numbering::lemma_initials();
    numbering::lemma_numbered_initial(k, m);
    numbering::lemma_numbered_initial(j, n);
    numbering::lemma_numbered_injective(k, m, n);
}

proof fn lemma_given_apart(ds: Seq<DeclV>, n: nat, x: Seq<char>, y: Seq<char>)
    requires
        n <= ds.len(),
        rename::anonymous_names(ds, n).contains_key(x),
        rename::anonymous_names(ds, n).contains_key(y),
        rename::anonymous_names(ds, n)[x] == rename::anonymous_names(ds, n)[y],
    ensures
        x == y,
    decreases n,
{
    let d = ds[n - 1];
    if rename::is_anonymous(d) && x != y {
        let name = ast::decl_name(d);
        let k = rename::kind_of(d)->0;
        let c = rename::anonymous_count(ds, k, n);
        if name == x {
            let (j, e) = lemma_counted(ds, (n - 1) as nat, y);
            lemma_numbered_apart(k, c, j, e);
        } else if name == y {
            let (j, e) = lemma_counted(ds, (n - 1) as nat, x);
            lemma_numbered_apart(k, c, j, e);
        } else {
            lemma_given_apart(ds, (n - 1) as nat, x, y);
        }
    } else if x != y {
        lemma_given_apart(ds, (n - 1) as nat, x, y);
    }
}

proof fn lemma_key(ds: Seq<DeclV>, n: nat, x: Seq<char>) -> (i: int)
    requires
        n <= ds.len(),
        rename::anonymous_names(ds, n).contains_key(x),
    ensures
        0 <= i < n,
        rename::is_anonymous(ds[i]),
        ast::decl_name(ds[i]) == x,
    decreases n,
{
    let d = ds[n - 1];
    if rename::is_anonymous(d) && ast::decl_name(d) == x {
        n - 1
    } else {
        lemma_key(ds, (n - 1) as nat, x)
    }
}

/// A name that is given begins with the letter of its kind.
proof fn lemma_speakable(ds: Seq<DeclV>, n: nat, x: Seq<char>)
    requires
        n <= ds.len(),
        rename::anonymous_names(ds, n).contains_key(x),
    ensures
        !text::begins_with(rename::anonymous_names(ds, n)[x], "$"@),
        !ast::builtin_name(rename::anonymous_names(ds, n)[x]),
        rename::anonymous_names(ds, n)[x] != "default"@,
        text::begins_with(x, "$"@),
        !ast::builtin_name(x),
        x != "default"@,
{
    let (k, c) = lemma_counted(ds, n, x);
    let i = lemma_key(ds, n, x);
    let y = rename::numbered(k, c);
    numbering::lemma_initials();
    numbering::lemma_numbered_initial(k, c);
    reveal_strlit("$");
    assert(x[0] == "$"@[0]);
    if text::begins_with(y, "$"@) {
        assert(y[0] == "$"@[0]);
    }
    if ast::builtin_name(y) {
        assert(y[0] == "vcl_"@[0]);
    }
    if ast::builtin_name(x) {
        assert(x[0] == "vcl_"@[0]);
    }
}

proof fn lemma_exchanged(ds: Seq<DeclV>)
    ensures
        invariance::one_to_one(exchanged(rename::anonymous_names(ds, ds.len()))),
        invariance::leaves_kept(exchanged(rename::anonymous_names(ds, ds.len()))),
{
    let n = ds.len();
    let a = rename::anonymous_names(ds, n);
    let m = exchanged(a);
    assert forall|x: Seq<char>, y: Seq<char>| #[trigger]
        renaming::new_name(m, x) == #[trigger] renaming::new_name(m, y) implies x == y by {
        if a.contains_key(x) {
            lemma_speakable(ds, n, x);
        } else if gives(a, x) {
            lemma_speakable(ds, n, source(a, x));
        }
        if a.contains_key(y) {
            lemma_speakable(ds, n, y);
        } else if gives(a, y) {
            lemma_speakable(ds, n, source(a, y));
        }
        if a.contains_key(x) && a.contains_key(y) {
            lemma_given_apart(ds, n, x, y);
        }
    }
    assert forall|x: Seq<char>| ast::builtin_name(x) || x == "default"@ implies #[trigger]
        renaming::new_name(m, x) == x by {
        if a.contains_key(x) {
            lemma_speakable(ds, n, x);
        } else if gives(a, x) {
            lemma_speakable(ds, n, source(a, x));
        }
    }
}

// ───────────────────────── only probes are lifted ─────────────────────────

/// Whether only probes have names that no program can have.
pub open spec fn only_probes_lifted(ds: Seq<DeclV>) -> bool {
    forall|i: int|
        0 <= i < ds.len() && rename::is_anonymous(#[trigger] ds[i]) ==> ds[i] is Probe
}

/// Whether every declaration has a name that a program can have.
pub open spec fn speakable(ds: Seq<DeclV>) -> bool {
    forall|i: int| 0 <= i < ds.len() ==> !rename::is_anonymous(#[trigger] ds[i])
}

proof fn lemma_passed(ds: Seq<DeclV>, k: KnownV, n: nat)
    requires
        n <= ds.len(),
        speakable(ds),
    ensures
        vmod_args::pass_decls(ds, k, n) matches Ok(r) ==> speakable(r),
    decreases n,
{
    if n > 0 {
        lemma_passed(ds, k, (n - 1) as nat);
        assert(!rename::is_anonymous(ds[n - 1]));
    }
}

proof fn lemma_field_probes(fs: Seq<FieldV>, n: nat, base: nat)
    requires
        n <= fs.len(),
    ensures
        forall|i: int|
            0 <= i < probes::field_probes(fs, n, base).len() ==> (#[trigger] probes::field_probes(
                fs,
                n,
                base,
            )[i]) is Probe,
    decreases n,
{
    if n > 0 {
        lemma_field_probes(fs, (n - 1) as nat, base);
    }
}

proof fn lemma_all_probes(ds: Seq<DeclV>, n: nat)
    requires
        n <= ds.len(),
    ensures
        forall|i: int|
            0 <= i < probes::all_probes(ds, n).len() ==> (#[trigger] probes::all_probes(ds, n)[i])
                is Probe,
    decreases n,
{
    if n > 0 {
        lemma_all_probes(ds, (n - 1) as nat);
        let before = probes::all_probes(ds, (n - 1) as nat);
        let fs = probes::backend_fields(ds[n - 1]);
        lemma_field_probes(fs, fs.len(), before.len());
    }
}

proof fn lemma_merged(ds: Seq<DeclV>, n: nat)
    requires
        n <= ds.len(),
        only_probes_lifted(ds),
    ensures
        only_probes_lifted(merge::merged_first(ds, n)),
    decreases n,
{
    if n > 0 {
        let before = merge::merged_first(ds, (n - 1) as nat);
        let d = ds[n - 1];
        let r = merge::merged_first(ds, n);
        lemma_merged(ds, (n - 1) as nat);
        if merge::continues(before, d) {
            let at = merge::sub_at(before, d->Sub_name, 0) as int;
            merge::lemma_sub_at(before, d->Sub_name, 0);
            assert(r == before.update(at, merge::with_more(before[at], d->Sub_body)));
            assert forall|i: int|
                0 <= i < r.len() && rename::is_anonymous(#[trigger] r[i]) implies r[i] is Probe by {
                assert(rename::is_anonymous(before[i]));
            }
        } else {
            assert(r == before.push(d));
        }
    }
}

proof fn lemma_prepared(p: ProgramV, specs: Map<Seq<char>, VmodSpec>)
    requires
        speakable(p.decls),
    ensures
        normalize::prepared(p, specs) matches Ok(q) ==> only_probes_lifted(q.decls)
            && only_probes_lifted(merge::merged_program(q).decls),
{
    let l = literals::lit_program(p);
    assert(speakable(l.decls)) by {
        assert forall|i: int| 0 <= i < l.decls.len() implies !rename::is_anonymous(
            #[trigger] l.decls[i],
        ) by {
            assert(!rename::is_anonymous(p.decls[i]));
        }
    }
    let k = KnownV { specs, instances: vmod_args::instances_of(l.decls, l.decls.len()) };
    lemma_passed(l.decls, k, l.decls.len());
    match vmod_args::pass_program(l, specs) {
        Ok(r) => {
            let q = probes::lifted_program(r);
            let ds = r.decls;
            lemma_all_probes(ds, ds.len());
            assert forall|i: int|
                0 <= i < q.decls.len() && rename::is_anonymous(
                    #[trigger] q.decls[i],
                ) implies q.decls[i] is Probe by {
                if i < ds.len() {
                    assert(q.decls[i] == probes::lifted_decl(ds, i));
                    assert(!rename::is_anonymous(ds[i]));
                } else {
                    assert(q.decls[i] == probes::all_probes(ds, ds.len())[i - ds.len()]);
                }
            }
            lemma_merged(q.decls, q.decls.len());
        },
        Err(_) => {},
    }
}

// ───────────────────────── no such name is printed ─────────────────────────

/// Whether no backend refers to a probe by a name that no program can have.
pub open spec fn speakable_refs(ds: Seq<DeclV>) -> bool {
    forall|i: int, j: int|
        0 <= i < ds.len() && 0 <= j < probes::backend_fields(ds[i]).len() ==> (rename::ref_of(
            #[trigger] probes::backend_fields(ds[i])[j],
        ) matches Some(n) ==> !text::begins_with(n, "$"@))
}

/// Whether one of the declarations has that name, and no program can have it.
spec fn declares_lifted(ds: Seq<DeclV>, n: Seq<char>) -> bool {
    exists|k: int| 0 <= k < ds.len() && rename::is_anonymous(#[trigger] ds[k]) && ast::decl_name(
        ds[k],
    ) == n
}

/// Whether every such name that a backend refers to is declared.
spec fn refs_declared(ds: Seq<DeclV>) -> bool {
    forall|i: int, j: int|
        0 <= i < ds.len() && 0 <= j < probes::backend_fields(ds[i]).len() ==> (rename::ref_of(
            #[trigger] probes::backend_fields(ds[i])[j],
        ) matches Some(n) ==> text::begins_with(n, "$"@) ==> declares_lifted(ds, n))
}

/// The probe that a field held is lifted under the name that the field then
/// holds.
proof fn lemma_lifted_field(fs: Seq<FieldV>, n: nat, base: nat, i: int)
    requires
        0 <= i < n <= fs.len(),
        fs[i].value is Probe,
    ensures
        exists|k: int|
            0 <= k < probes::field_probes(fs, n, base).len() && ast::decl_name(
                #[trigger] probes::field_probes(fs, n, base)[k],
            ) == probes::anon_name(base + probes::field_probes(fs, i as nat, base).len() + 1),
    decreases n,
{
    let all = probes::field_probes(fs, n, base);
    let name = probes::anon_name(base + probes::field_probes(fs, i as nat, base).len() + 1);
    let before = probes::field_probes(fs, (n - 1) as nat, base);
    if i == n - 1 {
        assert(ast::decl_name(all[before.len() as int]) == name);
    } else {
        lemma_lifted_field(fs, (n - 1) as nat, base, i);
        let k = choose|k: int|
            0 <= k < before.len() && ast::decl_name(#[trigger] before[k]) == name;
        assert(all[k] == before[k]);
    }
}

proof fn lemma_lifted_from(ds: Seq<DeclV>, n: nat, i: int, j: int)
    requires
        0 <= i < n <= ds.len(),
        0 <= j < probes::backend_fields(ds[i]).len(),
        probes::backend_fields(ds[i])[j].value is Probe,
    ensures
        ({
            let base = probes::all_probes(ds, i as nat).len();
            let fs = probes::backend_fields(ds[i]);
            let name = probes::anon_name(base + probes::field_probes(fs, j as nat, base).len() + 1);
            exists|k: int|
                0 <= k < probes::all_probes(ds, n).len() && ast::decl_name(
                    #[trigger] probes::all_probes(ds, n)[k],
                ) == name
        }),
    decreases n,
{
    let base = probes::all_probes(ds, i as nat).len();
    let fs = probes::backend_fields(ds[i]);
    let name = probes::anon_name(base + probes::field_probes(fs, j as nat, base).len() + 1);
    let all = probes::all_probes(ds, n);
    let before = probes::all_probes(ds, (n - 1) as nat);
    if i == n - 1 {
        lemma_lifted_field(fs, fs.len(), base, j);
        let own = probes::field_probes(fs, fs.len(), base);
        let k = choose|k: int| 0 <= k < own.len() && ast::decl_name(#[trigger] own[k]) == name;
        assert(all[before.len() + k] == own[k]);
    } else {
        lemma_lifted_from(ds, (n - 1) as nat, i, j);
        let k = choose|k: int|
            0 <= k < before.len() && ast::decl_name(#[trigger] before[k]) == name;
        assert(all[k] == before[k]);
    }
}

proof fn lemma_lifted_refs(ds: Seq<DeclV>)
    requires
        speakable_refs(ds),
    ensures
        refs_declared(probes::lifted_decls(ds)),
{
    let r = probes::lifted_decls(ds);
    let all = probes::all_probes(ds, ds.len());
    lemma_all_probes(ds, ds.len());
    assert forall|i: int, j: int|
        0 <= i < r.len() && 0 <= j < probes::backend_fields(r[i]).len() implies (rename::ref_of(
        #[trigger] probes::backend_fields(r[i])[j],
    ) matches Some(n) ==> text::begins_with(n, "$"@) ==> declares_lifted(r, n)) by {
        if i < ds.len() {
            let fs = probes::backend_fields(ds[i]);
            let base = probes::all_probes(ds, i as nat).len();
            assert(r[i] == probes::lifted_decl(ds, i));
            assert(probes::backend_fields(r[i])[j] == probes::lifted_field(fs, j, base));
            if fs[j].value is Probe {
                lemma_lifted_from(ds, ds.len(), i, j);
                let name = probes::anon_name(
                    base + probes::field_probes(fs, j as nat, base).len() + 1,
                );
                let k = choose|k: int|
                    0 <= k < all.len() && ast::decl_name(#[trigger] all[k]) == name;
                assert(r[ds.len() + k] == all[k]);
                assert(text::begins_with(name, "$"@) ==> rename::is_anonymous(r[ds.len() + k]));
            } else {
                assert(rename::ref_of(fs[j]) == rename::ref_of(probes::backend_fields(r[i])[j]));
            }
        } else {
            assert(r[i] == all[i - ds.len()]);
        }
    }
}

/// Whether a declaration is no subroutine.
pub open spec fn no_sub(d: DeclV) -> bool {
    !(d is Sub)
}

pub(crate) proof fn lemma_merged_members(ds: Seq<DeclV>, n: nat)
    requires
        n <= ds.len(),
    ensures
        forall|i: int|
            0 <= i < n && no_sub(#[trigger] ds[i]) ==> merge::merged_first(ds, n).contains(ds[i]),
        forall|i: int|
            0 <= i < merge::merged_first(ds, n).len() && no_sub(
                #[trigger] merge::merged_first(ds, n)[i],
            ) ==> ds.contains(merge::merged_first(ds, n)[i]),
    decreases n,
{
    if n > 0 {
        let before = merge::merged_first(ds, (n - 1) as nat);
        let d = ds[n - 1];
        let r = merge::merged_first(ds, n);
        lemma_merged_members(ds, (n - 1) as nat);
        if merge::continues(before, d) {
            let at = merge::sub_at(before, d->Sub_name, 0) as int;
            merge::lemma_sub_at(before, d->Sub_name, 0);
            assert(r == before.update(at, merge::with_more(before[at], d->Sub_body)));
            assert forall|i: int| 0 <= i < n && no_sub(#[trigger] ds[i]) implies r.contains(
                ds[i],
            ) by {
                assert(before.contains(ds[i]));
                let k = choose|k: int| 0 <= k < before.len() && before[k] == ds[i];
                assert(r[k] == ds[i]);
            }
            assert forall|i: int| 0 <= i < r.len() && no_sub(#[trigger] r[i]) implies ds.contains(
                r[i],
            ) by {
                assert(no_sub(before[i]));
            }
        } else {
            assert(r == before.push(d));
            assert forall|i: int| 0 <= i < n && no_sub(#[trigger] ds[i]) implies r.contains(
                ds[i],
            ) by {
                if i < n - 1 {
                    assert(before.contains(ds[i]));
                    let k = choose|k: int| 0 <= k < before.len() && before[k] == ds[i];
                    assert(r[k] == ds[i]);
                } else {
                    assert(r[before.len() as int] == d);
                }
            }
            assert forall|i: int| 0 <= i < r.len() && no_sub(#[trigger] r[i]) implies ds.contains(
                r[i],
            ) by {
                if i < before.len() {
                    assert(no_sub(before[i]));
                }
            }
        }
    }
}

proof fn lemma_merged_refs(ds: Seq<DeclV>)
    requires
        only_probes_lifted(ds),
        refs_declared(ds),
    ensures
        refs_declared(merge::merged_first(ds, ds.len())),
{
    let r = merge::merged_first(ds, ds.len());
    lemma_merged_members(ds, ds.len());
    assert forall|i: int, j: int|
        0 <= i < r.len() && 0 <= j < probes::backend_fields(r[i]).len() implies (rename::ref_of(
        #[trigger] probes::backend_fields(r[i])[j],
    ) matches Some(n) ==> text::begins_with(n, "$"@) ==> declares_lifted(r, n)) by {
        assert(no_sub(r[i]));
        let a = choose|a: int| 0 <= a < ds.len() && ds[a] == r[i];
        let f = probes::backend_fields(ds[a])[j];
        if rename::ref_of(f) is Some && text::begins_with(rename::ref_of(f)->0, "$"@) {
            let n = rename::ref_of(f)->0;
            assert(declares_lifted(ds, n));
            let k = choose|k: int|
                0 <= k < ds.len() && rename::is_anonymous(#[trigger] ds[k]) && ast::decl_name(ds[k])
                    == n;
            assert(no_sub(ds[k]));
            let b = choose|b: int| 0 <= b < r.len() && r[b] == ds[k];
            assert(rename::is_anonymous(r[b]));
        }
    }
}

proof fn lemma_has_key(ds: Seq<DeclV>, n: nat, i: int)
    requires
        0 <= i < n <= ds.len(),
        rename::is_anonymous(ds[i]),
    ensures
        rename::anonymous_names(ds, n).contains_key(ast::decl_name(ds[i])),
    decreases n,
{
    if i < n - 1 {
        lemma_has_key(ds, (n - 1) as nat, i);
    }
}

proof fn lemma_speakable_names(g: Seq<DeclV>)
    requires
        refs_declared(g),
    ensures
        speakable(renaming::renamed_decls(g, rename::anonymous_names(g, g.len()))),
        speakable_refs(renaming::renamed_decls(g, rename::anonymous_names(g, g.len()))),
{
    let a = rename::anonymous_names(g, g.len());
    let r = renaming::renamed_decls(g, a);
    assert forall|i: int| 0 <= i < r.len() implies !rename::is_anonymous(#[trigger] r[i]) by {
        let x = ast::decl_name(g[i]);
        assert(r[i] == renaming::renamed_decl(g[i], a));
        if rename::is_anonymous(g[i]) {
            lemma_has_key(g, g.len(), i);
        }
        if rename::kind_of(g[i]) is Some && a.contains_key(x) {
            lemma_speakable(g, g.len(), x);
        }
    }
    assert forall|i: int, j: int|
        0 <= i < r.len() && 0 <= j < probes::backend_fields(r[i]).len() implies (rename::ref_of(
        #[trigger] probes::backend_fields(r[i])[j],
    ) matches Some(n) ==> !text::begins_with(n, "$"@)) by {
        let f = probes::backend_fields(g[i])[j];
        assert(r[i] == renaming::renamed_decl(g[i], a));
        assert(probes::backend_fields(r[i])[j] == renaming::renamed_field(f, a));
        if rename::ref_of(f) is Some {
            let n = rename::ref_of(f)->0;
            if text::begins_with(n, "$"@) {
                let k = choose|k: int|
                    0 <= k < g.len() && rename::is_anonymous(#[trigger] g[k]) && ast::decl_name(
                        g[k],
                    ) == n;
                lemma_has_key(g, g.len(), k);
            }
            if a.contains_key(n) {
                lemma_speakable(g, g.len(), n);
            }
        }
    }
}

/// Every name under which a probe was lifted, and that a backend refers to, is
/// declared by a probe.
proof fn lemma_prepared_refs(p: ProgramV, specs: Map<Seq<char>, VmodSpec>)
    requires
        speakable(p.decls),
        speakable_refs(p.decls),
    ensures
        normalize::prepared(p, specs) matches Ok(q) ==> {
            let g = merge::merged_program(q).decls;
            refs_declared(g) && only_probes_lifted(g)
        },
{
    let l = literals::lit_program(p);
    let ls = l.decls;
    assert forall|i: int, j: int|
        0 <= i < ls.len() && 0 <= j < probes::backend_fields(ls[i]).len() implies (rename::ref_of(
        #[trigger] probes::backend_fields(ls[i])[j],
    ) matches Some(n) ==> !text::begins_with(n, "$"@)) by {
        assert(ls[i] == literals::lit_decl(p.decls[i]));
        let f = probes::backend_fields(p.decls[i])[j];
        assert(probes::backend_fields(ls[i])[j] == literals::lit_field(f));
        assert(rename::ref_of(literals::lit_field(f)) == rename::ref_of(f));
    }
    lemma_prepared(p, specs);
    match vmod_args::pass_program(l, specs) {
        Ok(r) => {
            let k = KnownV { specs, instances: vmod_args::instances_of(ls, ls.len()) };
            lemma_passed_refs(ls, k, ls.len());
            lemma_lifted_refs(r.decls);
            lemma_merged_refs(probes::lifted_program(r).decls);
        },
        Err(_) => {},
    }
}

proof fn lemma_sorted_speakable(ds: Seq<DeclV>)
    requires
        speakable(ds),
        speakable_refs(ds),
    ensures
        speakable(sort::sorted_decls(ds)),
        speakable_refs(sort::sorted_decls(ds)),
{
    let s = sort::sorted_decls(ds);
    sort::law_decls_are_kept(ds);
    invariance::lemma_same_members(s, ds);
    assert forall|i: int| 0 <= i < s.len() implies !rename::is_anonymous(#[trigger] s[i]) by {
        assert(s.contains(s[i]));
        let b = choose|b: int| 0 <= b < ds.len() && ds[b] == s[i];
        assert(!rename::is_anonymous(ds[b]));
    }
    assert forall|i: int, j: int|
        0 <= i < s.len() && 0 <= j < probes::backend_fields(s[i]).len() implies (rename::ref_of(
        #[trigger] probes::backend_fields(s[i])[j],
    ) matches Some(n) ==> !text::begins_with(n, "$"@)) by {
        assert(s.contains(s[i]));
        let b = choose|b: int| 0 <= b < ds.len() && ds[b] == s[i];
        assert(probes::backend_fields(ds[b])[j] == probes::backend_fields(s[i])[j]);
    }
}

/// The names under which probes are lifted are never printed: neither a
/// declaration nor a reference of a backend has one.
pub proof fn law_no_placeholder_is_printed(p: ProgramV, specs: Map<Seq<char>, VmodSpec>)
    requires
        speakable(p.decls),
        speakable_refs(p.decls),
    ensures
        normalize::prepared(p, specs) matches Ok(q) ==> {
            let printed = normalize::finished(q, false).decls;
            speakable(printed) && speakable_refs(printed)
        },
{
    lemma_prepared_refs(p, specs);
    match normalize::prepared(p, specs) {
        Ok(q) => {
            lemma_speakable_names(merge::merged_program(q).decls);
            lemma_sorted_speakable(rename::merged_only(q).decls);
        },
        Err(_) => {},
    }
}

proof fn lemma_canonical_speakable(s: Seq<AssignedV>, k: Kind, n: Seq<char>)
    requires
        numbering::orderly(s),
    ensures
        rename::assigned_name(s, k, n) matches Some(x) ==> !text::begins_with(x, "$"@),
    decreases s.len(),
{
    if s.len() > 0 {
        let a = s.last();
        if a.kind == k && a.name == n {
            let before = s.drop_last();
            let c = rename::numbers_of(before, k) + 1;
            numbering::lemma_initials();
            numbering::lemma_numbered_initial(k, c);
            reveal_strlit("$");
            if rename::keeps(k, n) {
                numbering::lemma_kept_initial(k, n);
            }
            if text::begins_with(a.canonical, "$"@) {
                assert(a.canonical[0] == "$"@[0]);
            }
        } else {
            lemma_canonical_speakable(s.drop_last(), k, n);
        }
    }
}

proof fn lemma_in_table(g: Seq<DeclV>, i: int, n: nat)
    requires
        0 <= i < n <= g.len(),
        rename::kind_of(g[i]) is Some,
    ensures
        rename::decl_table(g, n).contains_key(ast::decl_name(g[i])),
    decreases n,
{
    if i + 1 < n {
        lemma_in_table(g, i, (n - 1) as nat);
    }
}

proof fn lemma_canonical_name(g: Seq<DeclV>, n: Seq<char>)
    requires
        only_probes_lifted(g),
        text::begins_with(n, "$"@) ==> declares_lifted(g, n),
    ensures
        ({
            let m = rename::renaming_of(rename::decl_table(g, g.len()), rename::all_names(g));
            !text::begins_with(renaming::new_name(m, n), "$"@)
        }),
{
    let t = rename::decl_table(g, g.len());
    let c = rename::all_names(g);
    numbering::law_every_declaration_is_named(g);
    if text::begins_with(n, "$"@) {
        let k = choose|k: int|
            0 <= k < g.len() && rename::is_anonymous(#[trigger] g[k]) && ast::decl_name(g[k]) == n;
        lemma_in_table(g, k, g.len());
        invariance::lemma_table_from(g, g.len(), n);
        assert(rename::is_anonymous(t[n]));
        numbering::lemma_probes_are_named(g, Kind::Sub);
        assert(rename::kind_of(g[k]) == Some(Kind::Probe));
    }
    match rename::resolved(t, c, n) {
        Some(_) => {
            lemma_canonical_speakable(c.assigned, Kind::Obj, n);
            if t.contains_key(n) && rename::kind_of(t[n]) is Some {
                lemma_canonical_speakable(c.assigned, rename::kind_of(t[n])->0, n);
            }
        },
        None => {},
    }
}

/// The same under canonical names.
pub proof fn law_no_placeholder_is_canonical(p: ProgramV, specs: Map<Seq<char>, VmodSpec>)
    requires
        speakable(p.decls),
        speakable_refs(p.decls),
    ensures
        normalize::prepared(p, specs) matches Ok(q) ==> {
            let canonical = normalize::finished(q, true).decls;
            speakable(canonical) && speakable_refs(canonical)
        },
{
    lemma_prepared_refs(p, specs);
    match normalize::prepared(p, specs) {
        Ok(q) => {
            let g = merge::merged_program(q).decls;
            let m = rename::renaming_of(rename::decl_table(g, g.len()), rename::all_names(g));
            let r = renaming::renamed_decls(g, m);
            assert forall|i: int| 0 <= i < r.len() implies !rename::is_anonymous(
                #[trigger] r[i],
            ) by {
                assert(r[i] == renaming::renamed_decl(g[i], m));
                if rename::kind_of(g[i]) is Some {
                    assert(rename::is_anonymous(g[i]) ==> declares_lifted(
                        g,
                        ast::decl_name(g[i]),
                    ));
                    lemma_canonical_name(g, ast::decl_name(g[i]));
                }
            }
            assert forall|i: int, j: int|
                0 <= i < r.len() && 0 <= j < probes::backend_fields(r[i]).len() implies (
            rename::ref_of(#[trigger] probes::backend_fields(r[i])[j]) matches Some(n)
                ==> !text::begins_with(n, "$"@)) by {
                let f = probes::backend_fields(g[i])[j];
                assert(r[i] == renaming::renamed_decl(g[i], m));
                assert(probes::backend_fields(r[i])[j] == renaming::renamed_field(f, m));
                if rename::ref_of(f) is Some {
                    lemma_canonical_name(g, rename::ref_of(f)->0);
                }
            }
            lemma_sorted_speakable(r);
        },
        Err(_) => {},
    }
}

proof fn lemma_passed_refs(ds: Seq<DeclV>, k: KnownV, n: nat)
    requires
        n <= ds.len(),
        speakable_refs(ds),
    ensures
        vmod_args::pass_decls(ds, k, n) matches Ok(r) ==> r.len() == n && speakable_refs(r),
    decreases n,
{
    if n > 0 {
        lemma_passed_refs(ds, k, (n - 1) as nat);
        match vmod_args::pass_decls(ds, k, n) {
            Ok(r) => {
                let before = vmod_args::pass_decls(ds, k, (n - 1) as nat)->Ok_0;
                assert forall|i: int, j: int|
                    0 <= i < r.len() && 0 <= j < probes::backend_fields(r[i]).len() implies (
                rename::ref_of(#[trigger] probes::backend_fields(r[i])[j]) matches Some(x)
                    ==> !text::begins_with(x, "$"@)) by {
                    if i < n - 1 {
                        assert(r[i] == before[i]);
                        assert(probes::backend_fields(before[i])[j] == probes::backend_fields(
                            r[i],
                        )[j]);
                    } else {
                        assert(probes::backend_fields(ds[i])[j] == probes::backend_fields(r[i])[j]);
                    }
                }
            },
            Err(_) => {},
        }
    }
}

// ───────────────────────── the renaming fits ─────────────────────────

/// Whether no declaration holds a name that a lifted probe is printed under.
pub open spec fn fresh_names(q: ProgramV) -> bool {
    let g = merge::merged_program(q).decls;
    let a = rename::anonymous_names(g, g.len());
    forall|i: int, n: Seq<char>|
        0 <= i < g.len() && #[trigger] invariance::holds_name(g[i], n) ==> !gives(a, n)
}

pub(crate) proof fn lemma_holds_bare(d: DeclV, n: Seq<char>)
    requires
        invariance::holds_name(layout::bare_decl(d), n),
    ensures
        invariance::holds_name(d, n),
{
    match d {
        DeclV::Backend { name, body: Some(fs), .. } => {
            if n != name {
                let bs = layout::bare_fields(fs);
                let i = choose|i: int|
                    0 <= i < bs.len() && rename::ref_of(#[trigger] bs[i]) == Some(n);
                assert(rename::ref_of(fs[i]) == Some(n));
            }
        },
        DeclV::Sub { name, body, .. } => {
            if n != name {
                naming::lemma_body_uses(body);
            }
        },
        _ => {},
    }
}

/// On declarations that hold none of the names given, changing back changes
/// nothing.
proof fn lemma_same_renaming(g: Seq<DeclV>, a: RenamingV)
    requires
        forall|i: int, n: Seq<char>|
            0 <= i < g.len() && #[trigger] invariance::holds_name(g[i], n) ==> !gives(a, n),
    ensures
        renaming::renamed_decls(g, exchanged(a)) == renaming::renamed_decls(g, a),
{
    let m = exchanged(a);
    let none = RenamingV::empty();
    assert forall|i: int| 0 <= i < g.len() implies renaming::renamed_decl(#[trigger] g[i], m)
        == renaming::renamed_decl(g[i], a) by {
        let d = g[i];
        assert forall|n: Seq<char>| #[trigger] invariance::holds_name(
            d,
            n,
        ) implies invariance::agree_on(n, m, a, none) && invariance::agree_on(n, m, m, none) by {
            assert(invariance::holds_name(g[i], n));
        }
        invariance::lemma_holds_agree(d, m, a, none);
        invariance::lemma_twice_decl(d, m, a, none);
        invariance::lemma_holds_agree(d, m, m, none);
        invariance::lemma_twice_decl(d, m, m, none);
    }
    assert(renaming::renamed_decls(g, m) =~= renaming::renamed_decls(g, a));
}

pub(crate) proof fn lemma_probe_resolved(ds: Seq<DeclV>, i: int, k: Kind)
    requires
        invariance::distinct_names(ds),
        0 <= i < ds.len(),
        ds[i] is Probe,
        k != Kind::Probe,
    ensures
        rename::resolved(
            rename::decl_table(ds, ds.len()),
            invariance::before_dead(ds, k),
            ast::decl_name(ds[i]),
        ) is Some,
        rename::resolved(
            rename::decl_table(ds, ds.len()),
            rename::all_names(ds),
            ast::decl_name(ds[i]),
        ) is Some,
{
    invariance::lemma_table_holds(ds, ds.len(), i);
    numbering::lemma_probes_are_named(ds, k);
    assert(rename::kind_of(ds[i]) == Some(Kind::Probe));
}

proof fn lemma_ordered(ds: Seq<DeclV>, a: RenamingV, k: Kind)
    requires
        invariance::distinct_names(ds),
        only_probes_lifted(ds),
        a == rename::anonymous_names(ds, ds.len()),
        forall|i: int, n: Seq<char>|
            0 <= i < ds.len() && #[trigger] invariance::holds_name(ds[i], n) ==> !gives(a, n),
    ensures
        invariance::ordered_by_canonical_names(
            exchanged(a),
            rename::decl_table(ds, ds.len()),
            invariance::before_dead(ds, k),
            k,
            ds,
        ),
{
    let t = rename::decl_table(ds, ds.len());
    let c = invariance::before_dead(ds, k);
    let m = exchanged(a);
    assert forall|i: int, n: Seq<char>|
        0 <= i < ds.len() && rename::unused(c, k, ds[i]) && #[trigger] invariance::holds_name(
            ds[i],
            n,
        ) implies n == ast::decl_name(ds[i]) || rename::resolved(t, c, n) is Some
        || renaming::new_name(m, n) == n by {
        if a.contains_key(n) && k != Kind::Probe {
            let j = lemma_key(ds, ds.len(), n);
            assert(ds[j] is Probe);
            lemma_probe_resolved(ds, j, k);
        }
    }
}

/// Changing the names of the lifted probes leaves the canonical names alone.
pub(crate) proof fn lemma_exchange_fits(p: ProgramV, specs: Map<Seq<char>, VmodSpec>, q: ProgramV)
    requires
        speakable(p.decls),
        normalize::prepared(p, specs) == Ok::<ProgramV, ErrV>(q),
        fresh_names(q),
        invariance::distinct_names(equivalence::plain_decls(q)),
    ensures
        ({
            let g = merge::merged_program(q).decls;
            let m = exchanged(rename::anonymous_names(g, g.len()));
            &&& renaming::renamed_decls(g, m) == rename::merged_only(q).decls
            &&& invariance::fits_decls(m, equivalence::plain_decls(q))
        }),
{
    let g = merge::merged_program(q).decls;
    let ds = equivalence::plain_decls(q);
    let a = rename::anonymous_names(g, g.len());
    let m = exchanged(a);
    let t = rename::decl_table(ds, ds.len());
    naming::lemma_anonymous_names(g, g.len());
    lemma_same_renaming(g, a);
    lemma_exchanged(g);
    lemma_prepared(p, specs);
    assert forall|i: int| 0 <= i < ds.len() && rename::is_anonymous(#[trigger] ds[i]) implies ds[i]
        is Probe by {
        assert(rename::is_anonymous(g[i]));
    }
    assert forall|i: int, n: Seq<char>|
        0 <= i < ds.len() && #[trigger] invariance::holds_name(ds[i], n) implies !gives(a, n) by {
        assert(ds[i] == layout::bare_decl(g[i]));
        lemma_holds_bare(g[i], n);
    }
    lemma_ordered(ds, a, Kind::Probe);
    lemma_ordered(ds, a, Kind::Backend);
    lemma_ordered(ds, a, Kind::Acl);
    lemma_ordered(ds, a, Kind::Sub);
    assert forall|i: int, n: Seq<char>|
        0 <= i < ds.len() && #[trigger] invariance::holds_name(ds[i], n) implies rename::resolved(
        t,
        rename::all_names(ds),
        n,
    ) is Some || renaming::new_name(m, n) == n by {
        if a.contains_key(n) {
            let j = lemma_key(ds, ds.len(), n);
            assert(ds[j] is Probe);
            lemma_probe_resolved(ds, j, Kind::Sub);
        }
    }
}

} // verus!
