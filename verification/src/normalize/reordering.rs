//! Neither the order of the declarations nor the names that were chosen show in
//! the canonical form, also where unused declarations are the same but for their
//! names.

use crate::ast;
use crate::ast::{DeclV, ProgramV};
use crate::canon;
use crate::normalize::crossing;
use crate::normalize::invariance;
use crate::normalize::merge;
use crate::normalize::rename;
use crate::normalize::rename::{DeclTableV, Kind, NamesV};
use crate::normalize::renaming;
use crate::normalize::renaming::RenamingV;
use crate::normalize::shuffled_hooks;
use crate::normalize::sort;
use crate::order;
use crate::order::KeyV;
use crate::uses;
use crate::uses::UseV;
use vstd::prelude::*;
use vstd::string::*;

verus! {

// ───────────────────────── ties ─────────────────────────

/// Whether two unused declarations of a kind are ordered by nothing but the
/// order in which they stand.
pub open spec fn tie(t: DeclTableV, c: NamesV, k: Kind, d: DeclV, e: DeclV) -> bool {
    &&& rename::unused(c, k, d)
    &&& rename::unused(c, k, e)
    &&& rename::dead_key(t, c, d) == rename::dead_key(t, c, e)
    &&& ast::decl_name(d) != ast::decl_name(e)
}

/// Whether two declarations are the same but for their names.
pub open spec fn same_but_for_name(d: DeclV, e: DeclV) -> bool {
    renaming::renamed_decl(d, map![ast::decl_name(d) => ast::decl_name(e)]) == e
}

/// Whether no other declaration names this one.
pub open spec fn named_by_itself(ds: Seq<DeclV>, d: DeclV) -> bool {
    forall|j: int|
        0 <= j < ds.len() && invariance::holds_name(#[trigger] ds[j], ast::decl_name(d)) ==> ds[j]
            == d
}

/// Whether a declaration that is tied with another one can stand in its place:
/// they are the same but for their names, and no other declaration names it.
pub open spec fn harmless(ds: Seq<DeclV>, d: DeclV, e: DeclV) -> bool {
    &&& same_but_for_name(d, e)
    &&& named_by_itself(ds, d)
}

/// Whether all ties of a kind are harmless.
pub open spec fn harmless_ties(t: DeclTableV, c: NamesV, k: Kind, ds: Seq<DeclV>) -> bool {
    forall|i: int, j: int|
        0 <= i < ds.len() && 0 <= j < ds.len() && #[trigger] tie(t, c, k, ds[i], ds[j])
            ==> harmless(ds, ds[i], ds[j])
}

/// Whether the order of declarations leaves nothing open that shows: no name is
/// declared twice, and unused declarations that are ordered by the same are the
/// same but for names that no other declaration uses.
pub open spec fn settled(ds: Seq<DeclV>) -> bool {
    let t = rename::decl_table(ds, ds.len());
    &&& invariance::distinct_names(ds)
    &&& harmless_ties(t, invariance::before_dead(ds, Kind::Probe), Kind::Probe, ds)
    &&& harmless_ties(t, invariance::before_dead(ds, Kind::Backend), Kind::Backend, ds)
    &&& harmless_ties(t, invariance::before_dead(ds, Kind::Acl), Kind::Acl, ds)
    &&& harmless_ties(t, invariance::before_dead(ds, Kind::Sub), Kind::Sub, ds)
}

/// Renamings that agree on the names that a declaration holds rename it alike.
pub(crate) proof fn lemma_same_names(d: DeclV, m: RenamingV, r: RenamingV)
    requires
        forall|n: Seq<char>| #[trigger]
            invariance::holds_name(d, n) ==> renaming::new_name(m, n) == renaming::new_name(r, n),
    ensures
        renaming::renamed_decl(d, m) == renaming::renamed_decl(d, r),
{
    let none = RenamingV::empty();
    shuffled_hooks::lemma_stays(d, none);
    assert forall|n: Seq<char>| #[trigger] invariance::holds_name(d, n) implies invariance::agree_on(
        n,
        none,
        m,
        r,
    ) by {}
    invariance::lemma_holds_agree(d, none, m, r);
    invariance::lemma_twice_decl(d, none, m, r);
}

/// A name that a renamed declaration holds is a renamed name that it held.
proof fn lemma_held_before(d: DeclV, m: RenamingV, x: Seq<char>) -> (n: Seq<char>)
    requires
        invariance::holds_name(renaming::renamed_decl(d, m), x),
    ensures
        invariance::holds_name(d, n),
        renaming::new_name(m, n) == x,
{
    let r = renaming::renamed_decl(d, m);
    let own = ast::decl_name(d);
    if x == renaming::new_name(m, own) {
        assert(invariance::holds_name(d, own));
        own
    } else {
        match d {
            DeclV::Backend { body: Some(fs), .. } => {
                let gs = renaming::renamed_fields(fs, m);
                assert(r->Backend_body == Some(gs));
                let i = choose|i: int|
                    0 <= i < gs.len() && rename::ref_of(#[trigger] gs[i]) == Some(x);
                assert(gs[i] == renaming::renamed_field(fs[i], m));
                let n = rename::ref_of(fs[i])->0;
                assert(rename::ref_of(fs[i]) == Some(n));
                assert(invariance::holds_name(d, n));
                n
            },
            DeclV::Sub { body, .. } => {
                let us = uses::body_uses(body);
                let vs = uses::body_uses(renaming::renamed_stmts(body, m));
                invariance::lemma_stmts_uses(body, body.len(), m);
                assert(vs == invariance::renamed_uses(us, m));
                assert(r->Sub_body == renaming::renamed_stmts(body, m));
                let v = choose|v: UseV| #[trigger] vs.contains(v) && invariance::use_name(v) == x;
                let i = choose|i: int| 0 <= i < vs.len() && vs[i] == v;
                assert(us.contains(us[i]));
                let n = invariance::use_name(us[i]);
                assert(invariance::holds_name(d, n));
                n
            },
            _ => own,
        }
    }
}

proof fn lemma_harmless_renamed(m: RenamingV, ds: Seq<DeclV>, d: DeclV, e: DeclV)
    requires
        invariance::one_to_one(m),
        harmless(ds, d, e),
        rename::kind_of(d) is Some,
        rename::kind_of(e) is Some,
    ensures
        harmless(
            renaming::renamed_decls(ds, m),
            renaming::renamed_decl(d, m),
            renaming::renamed_decl(e, m),
        ),
{
    let r = renaming::renamed_decls(ds, m);
    let (x, y) = (renaming::renamed_decl(d, m), renaming::renamed_decl(e, m));
    let (n, o) = (ast::decl_name(d), ast::decl_name(e));
    invariance::lemma_decl_facts(m, d);
    invariance::lemma_decl_facts(m, e);
    let (p, q) = (renaming::new_name(m, n), renaming::new_name(m, o));
    let s = map![n => o];
    let u = map![p => q];
    let both = Map::new(
        |z: Seq<char>| true,
        |z: Seq<char>| renaming::new_name(m, renaming::new_name(s, z)),
    );
    assert forall|z: Seq<char>| #[trigger] invariance::holds_name(d, z) implies invariance::agree_on(
        z,
        s,
        both,
        m,
    ) && invariance::agree_on(z, m, both, u) by {
        assert(renaming::new_name(m, z) == p ==> z == n);
    }
    invariance::lemma_holds_agree(d, s, both, m);
    invariance::lemma_twice_decl(d, s, both, m);
    invariance::lemma_holds_agree(d, m, both, u);
    invariance::lemma_twice_decl(d, m, both, u);
    assert(same_but_for_name(x, y));
    assert forall|j: int| 0 <= j < r.len() && invariance::holds_name(#[trigger] r[j], p) implies r[j]
        == x by {
        assert(r[j] == renaming::renamed_decl(ds[j], m));
        let z = lemma_held_before(ds[j], m, p);
        assert(renaming::new_name(m, z) == renaming::new_name(m, n));
        assert(z == n);
        assert(ds[j] == d);
    }
}

proof fn lemma_ties_renamed(
    m: RenamingV,
    t: DeclTableV,
    u: DeclTableV,
    a: NamesV,
    b: NamesV,
    k: Kind,
    ds: Seq<DeclV>,
)
    requires
        invariance::one_to_one(m),
        invariance::leaves_kept(m),
        invariance::alike_tables(m, t, u),
        invariance::alike(m, a, b),
        invariance::ordered_by_canonical_names(m, t, a, k, ds),
        harmless_ties(t, a, k, ds),
    ensures
        harmless_ties(u, b, k, renaming::renamed_decls(ds, m)),
{
    let r = renaming::renamed_decls(ds, m);
    assert forall|i: int, j: int|
        0 <= i < r.len() && 0 <= j < r.len() && #[trigger] tie(u, b, k, r[i], r[j]) implies harmless(
        r,
        r[i],
        r[j],
    ) by {
        invariance::lemma_alike_unused(m, a, b, k, ds[i]);
        invariance::lemma_alike_unused(m, a, b, k, ds[j]);
        invariance::lemma_dead_key(m, t, u, a, b, k, ds, i);
        invariance::lemma_dead_key(m, t, u, a, b, k, ds, j);
        invariance::lemma_decl_facts(m, ds[i]);
        invariance::lemma_decl_facts(m, ds[j]);
        assert(tie(t, a, k, ds[i], ds[j]));
        lemma_harmless_renamed(m, ds, ds[i], ds[j]);
    }
}

/// What the order leaves open does not depend on the names.
proof fn lemma_settled_renamed(m: RenamingV, ds: Seq<DeclV>)
    requires
        invariance::fits_decls(m, ds),
        settled(ds),
    ensures
        settled(renaming::renamed_decls(ds, m)),
{
    let r = renaming::renamed_decls(ds, m);
    let t = rename::decl_table(ds, ds.len());
    let u = rename::decl_table(r, r.len());
    invariance::lemma_alike_all(m, ds);
    assert forall|i: int, j: int|
        0 <= i < j < r.len() && rename::kind_of(#[trigger] r[i]) is Some && rename::kind_of(
            #[trigger] r[j],
        ) is Some implies ast::decl_name(r[i]) != ast::decl_name(r[j]) by {
        invariance::lemma_decl_facts(m, ds[i]);
        invariance::lemma_decl_facts(m, ds[j]);
        assert(ast::decl_name(ds[i]) != ast::decl_name(ds[j]));
    }
    let ap = invariance::before_dead(ds, Kind::Probe);
    let bp = invariance::before_dead(r, Kind::Probe);
    lemma_ties_renamed(m, t, u, ap, bp, Kind::Probe, ds);
    let ab = invariance::before_dead(ds, Kind::Backend);
    let bb = invariance::before_dead(r, Kind::Backend);
    lemma_ties_renamed(m, t, u, ab, bb, Kind::Backend, ds);
    let ac = invariance::before_dead(ds, Kind::Acl);
    let bc = invariance::before_dead(r, Kind::Acl);
    lemma_ties_renamed(m, t, u, ac, bc, Kind::Acl, ds);
    let sa = invariance::before_dead(ds, Kind::Sub);
    let sb = invariance::before_dead(r, Kind::Sub);
    lemma_ties_renamed(m, t, u, sa, sb, Kind::Sub, ds);
}

// ───────────────────────── neighbours change places ─────────────────────────

/// A list in which two neighbours have changed places.
pub open spec fn swapped<T>(a: Seq<T>, i: int) -> Seq<T> {
    a.update(i, a[i + 1]).update(i + 1, a[i])
}

pub(crate) proof fn lemma_swapped<T>(a: Seq<T>, i: int)
    requires
        0 <= i < a.len() - 1,
    ensures
        swapped(a, i).to_multiset() == a.to_multiset(),
{
    broadcast use {vstd::seq_lib::group_to_multiset_ensures, vstd::multiset::group_multiset_axioms};

    let b = swapped(a, i);
    assert(a.remove(i) =~= b.remove(i + 1));
    assert(a.contains(a[i]));
    assert(b[i + 1] == a[i]);
    assert(b.contains(a[i]));
    let rest = a.remove(i);
    assert(a.to_multiset() =~= rest.to_multiset().insert(a[i]));
    assert(b.to_multiset() =~= rest.to_multiset().insert(a[i]));
}

pub(crate) proof fn lemma_swapped_hooks(a: Seq<DeclV>, i: int, n: nat)
    requires
        0 <= i < a.len() - 1,
        i + 2 <= n <= a.len(),
        !(invariance::is_other_hook(a[i]) && invariance::is_other_hook(a[i + 1])),
    ensures
        invariance::other_hooks(swapped(a, i), n) == invariance::other_hooks(a, n),
    decreases n,
{
    let b = swapped(a, i);
    if n == i + 2 {
        lemma_same_first_hooks(a, b, i as nat);
        reveal_with_fuel(invariance::other_hooks, 3);
        assert(b[n - 1] == a[i] && b[n - 2] == a[i + 1]);
    } else {
        lemma_swapped_hooks(a, i, (n - 1) as nat);
        assert(b[n - 1] == a[n - 1]);
    }
}

proof fn lemma_same_first_hooks(a: Seq<DeclV>, b: Seq<DeclV>, n: nat)
    requires
        n <= a.len(),
        n <= b.len(),
        forall|i: int| 0 <= i < n ==> a[i] == b[i],
    ensures
        invariance::other_hooks(a, n) == invariance::other_hooks(b, n),
    decreases n,
{
    if n > 0 {
        lemma_same_first_hooks(a, b, (n - 1) as nat);
    }
}

proof fn lemma_same_first_dead(
    t: DeclTableV,
    c: NamesV,
    k: Kind,
    a: Seq<DeclV>,
    b: Seq<DeclV>,
    n: nat,
)
    requires
        n <= a.len(),
        n <= b.len(),
        forall|i: int| 0 <= i < n ==> a[i] == b[i],
    ensures
        rename::dead_first(t, c, k, a, n) == rename::dead_first(t, c, k, b, n),
    decreases n,
{
    if n > 0 {
        lemma_same_first_dead(t, c, k, a, b, (n - 1) as nat);
    }
}

proof fn lemma_of_key_push<T>(s: Seq<(KeyV, T)>, x: (KeyV, T), k: KeyV)
    ensures
        order::of_key(s.push(x), k) == if x.0 == k {
            order::of_key(s, k).push(x)
        } else {
            order::of_key(s, k)
        },
{
    assert(s.push(x).drop_last() =~= s);
}

proof fn lemma_swapped_dead(
    t: DeclTableV,
    c: NamesV,
    k: Kind,
    a: Seq<DeclV>,
    i: int,
    n: nat,
    key: KeyV,
)
    requires
        0 <= i < a.len() - 1,
        i + 2 <= n <= a.len(),
        invariance::distinct_names(a),
        !tie(t, c, k, a[i], a[i + 1]),
    ensures
        order::of_key(rename::dead_first(t, c, k, a, n), key) == order::of_key(
            rename::dead_first(t, c, k, swapped(a, i), n),
            key,
        ),
    decreases n,
{
    let b = swapped(a, i);
    let f = rename::dead_first(t, c, k, a, (n - 1) as nat);
    let g = rename::dead_first(t, c, k, b, (n - 1) as nat);
    if n == i + 2 {
        lemma_same_first_dead(t, c, k, a, b, i as nat);
        reveal_with_fuel(rename::dead_first, 3);
        let p = rename::dead_first(t, c, k, a, i as nat);
        assert(b[i] == a[i + 1] && b[i + 1] == a[i]);
        let x = (rename::dead_key(t, c, a[i]), ast::decl_name(a[i]));
        let y = (rename::dead_key(t, c, a[i + 1]), ast::decl_name(a[i + 1]));
        lemma_of_key_push(p, x, key);
        lemma_of_key_push(p, y, key);
        lemma_of_key_push(p.push(x), y, key);
        lemma_of_key_push(p.push(y), x, key);
        if rename::unused(c, k, a[i]) && rename::unused(c, k, a[i + 1]) {
            assert(ast::decl_name(a[i]) != ast::decl_name(a[i + 1]));
            assert(x.0 != y.0);
        }
    } else {
        lemma_swapped_dead(t, c, k, a, i, (n - 1) as nat, key);
        assert(b[n - 1] == a[n - 1]);
        let x = (rename::dead_key(t, c, a[n - 1]), ast::decl_name(a[n - 1]));
        lemma_of_key_push(f, x, key);
        lemma_of_key_push(g, x, key);
    }
}

pub(crate) proof fn lemma_swapped_given(t: DeclTableV, c: NamesV, k: Kind, a: Seq<DeclV>, i: int)
    requires
        0 <= i < a.len() - 1,
        invariance::distinct_names(a),
        !tie(t, c, k, a[i], a[i + 1]),
    ensures
        rename::dead_given(t, c, k, a) == rename::dead_given(t, c, k, swapped(a, i)),
{
    let b = swapped(a, i);
    let f = rename::dead_first(t, c, k, a, a.len());
    let g = rename::dead_first(t, c, k, b, b.len());
    assert forall|key: KeyV| #[trigger] order::of_key(f, key) == order::of_key(g, key) by {
        lemma_swapped_dead(t, c, k, a, i, a.len(), key);
    }
    order::law_order_within_keys_is_all(f, g);
}

/// Whether two neighbours are tied.
pub open spec fn tied_at(a: Seq<DeclV>, i: int, k: Kind) -> bool {
    tie(
        rename::decl_table(a, a.len()),
        invariance::before_dead(a, k),
        k,
        a[i],
        a[i + 1],
    )
}

proof fn lemma_swapped_names(a: Seq<DeclV>, i: int)
    requires
        0 <= i < a.len() - 1,
        invariance::distinct_names(a),
        !(invariance::is_other_hook(a[i]) && invariance::is_other_hook(a[i + 1])),
        !tied_at(a, i, Kind::Probe),
        !tied_at(a, i, Kind::Backend),
        !tied_at(a, i, Kind::Acl),
        !tied_at(a, i, Kind::Sub),
    ensures
        rename::all_names(a) == rename::all_names(swapped(a, i)),
        rename::decl_table(a, a.len()) == rename::decl_table(swapped(a, i), a.len()),
        forall|k: Kind| #[trigger]
            invariance::before_dead(a, k) == invariance::before_dead(swapped(a, i), k),
        invariance::distinct_names(swapped(a, i)),
{
    let b = swapped(a, i);
    lemma_swapped(a, i);
    invariance::lemma_distinct_reordered(a, b);
    invariance::lemma_same_table(a, b);
    lemma_swapped_hooks(a, i, a.len());
    let t = rename::decl_table(a, a.len());
    let c = rename::known_entered(t, rename::no_names(), ast::builtin_subs().len());
    invariance::lemma_others_are_hooks(t, c, a, a.len());
    invariance::lemma_others_are_hooks(t, c, b, b.len());
    let c0 = rename::names_used(t, a);
    lemma_swapped_given(t, c0, Kind::Probe, a, i);
    let c1 = rename::dead_given(t, c0, Kind::Probe, a);
    invariance::lemma_same_default(t, c1, a, b);
    let c2 = rename::default_given(t, c1, a);
    lemma_swapped_given(t, c2, Kind::Backend, a, i);
    let c3 = rename::dead_given(t, c2, Kind::Backend, a);
    lemma_swapped_given(t, c3, Kind::Acl, a, i);
    let c4 = rename::dead_given(t, c3, Kind::Acl, a);
    lemma_swapped_given(t, c4, Kind::Sub, a, i);
}

pub(crate) proof fn lemma_ties_reordered(t: DeclTableV, c: NamesV, k: Kind, a: Seq<DeclV>, b: Seq<DeclV>)
    requires
        a.to_multiset() == b.to_multiset(),
        harmless_ties(t, c, k, a),
    ensures
        harmless_ties(t, c, k, b),
{
    invariance::lemma_same_members(a, b);
    assert forall|i: int, j: int|
        0 <= i < b.len() && 0 <= j < b.len() && #[trigger] tie(t, c, k, b[i], b[j]) implies harmless(
        b,
        b[i],
        b[j],
    ) by {
        assert(b.contains(b[i]) && b.contains(b[j]));
        assert(a.contains(b[i]) && a.contains(b[j]));
        let p = choose|p: int| 0 <= p < a.len() && a[p] == b[i];
        let q = choose|q: int| 0 <= q < a.len() && a[q] == b[j];
        assert(tie(t, c, k, a[p], a[q]));
        assert(harmless(a, a[p], a[q]));
        assert forall|l: int|
            0 <= l < b.len() && invariance::holds_name(
                #[trigger] b[l],
                ast::decl_name(b[i]),
            ) implies b[l] == b[i] by {
            assert(b.contains(b[l]));
            assert(a.contains(b[l]));
            let o = choose|o: int| 0 <= o < a.len() && a[o] == b[l];
            assert(invariance::holds_name(a[o], ast::decl_name(a[p])));
        }
    }
}

/// What is the same of two orders of the same declarations.
spec fn one_form(a: Seq<DeclV>, b: Seq<DeclV>) -> bool {
    rename::canonical_decls(a).to_multiset() == rename::canonical_decls(b).to_multiset()
}

proof fn lemma_tied_form(a: Seq<DeclV>, i: int, k: Kind)
    requires
        0 <= i < a.len() - 1,
        settled(a),
        k != Kind::Obj,
        tied_at(a, i, k),
    ensures
        settled(swapped(a, i)),
        one_form(a, swapped(a, i)),
{
    let t = rename::decl_table(a, a.len());
    let c = invariance::before_dead(a, k);
    assert(tie(t, c, k, a[i], a[i + 1]));
    assert(tie(t, c, k, a[i + 1], a[i]));
    crossing::lemma_crossed_form(a, i, k);
    crossing::lemma_crossed_settled(a, i, k);
}

proof fn lemma_swapped_form(a: Seq<DeclV>, i: int)
    requires
        0 <= i < a.len() - 1,
        settled(a),
        !(invariance::is_other_hook(a[i]) && invariance::is_other_hook(a[i + 1])),
    ensures
        settled(swapped(a, i)),
        one_form(a, swapped(a, i)),
{
    let b = swapped(a, i);
    if tied_at(a, i, Kind::Probe) {
        lemma_tied_form(a, i, Kind::Probe);
    } else if tied_at(a, i, Kind::Backend) {
        lemma_tied_form(a, i, Kind::Backend);
    } else if tied_at(a, i, Kind::Acl) {
        lemma_tied_form(a, i, Kind::Acl);
    } else if tied_at(a, i, Kind::Sub) {
        lemma_tied_form(a, i, Kind::Sub);
    } else {
        lemma_swapped(a, i);
        lemma_swapped_names(a, i);
        let t = rename::decl_table(a, a.len());
        lemma_ties_reordered(t, invariance::before_dead(a, Kind::Probe), Kind::Probe, a, b);
        lemma_ties_reordered(t, invariance::before_dead(a, Kind::Backend), Kind::Backend, a, b);
        lemma_ties_reordered(t, invariance::before_dead(a, Kind::Acl), Kind::Acl, a, b);
        lemma_ties_reordered(t, invariance::before_dead(a, Kind::Sub), Kind::Sub, a, b);
        let r = rename::renaming_of(t, rename::all_names(a));
        let f = |d: DeclV| renaming::renamed_decl(d, r);
        invariance::lemma_mapped_multiset(a, b, f);
        assert(rename::canonical_decls(a) =~= Seq::new(a.len(), |l: int| f(a[l])));
        assert(rename::canonical_decls(b) =~= Seq::new(b.len(), |l: int| f(b[l])));
    }
}

// ───────────────────────── any other order ─────────────────────────

/// A list with one of its items moved behind the ones up to `n`.
spec fn moved_back<T>(a: Seq<T>, j: int, n: int) -> Seq<T>
    decreases n - j,
{
    if j + 1 >= n {
        a
    } else {
        moved_back(swapped(a, j), j + 1, n)
    }
}

proof fn lemma_moved_back(a: Seq<DeclV>, j: int, n: int)
    requires
        0 <= j < n <= a.len(),
        settled(a),
        invariance::is_other_hook(a[j]) ==> forall|l: int|
            j < l < n ==> !invariance::is_other_hook(#[trigger] a[l]),
    ensures
        ({
            let b = moved_back(a, j, n);
            &&& b.len() == a.len()
            &&& settled(b)
            &&& one_form(a, b)
            &&& b[n - 1] == a[j]
            &&& forall|l: int| n <= l < a.len() ==> #[trigger] b[l] == a[l]
            &&& b.take(n).to_multiset() == a.take(n).to_multiset()
            &&& invariance::other_hooks(b, n as nat) == invariance::other_hooks(a, n as nat)
        }),
    decreases n - j,
{
    if j + 1 < n {
        let s = swapped(a, j);
        lemma_swapped_form(a, j);
        lemma_swapped(a.take(n), j);
        assert(swapped(a.take(n), j) =~= s.take(n));
        lemma_swapped_hooks(a, j, n as nat);
        assert forall|l: int| j + 1 < l < n && invariance::is_other_hook(a[j]) implies !invariance::is_other_hook(
            #[trigger] s[l],
        ) by {
            assert(s[l] == a[l]);
        }
        lemma_moved_back(s, j + 1, n);
    }
}

proof fn lemma_hook_last(a: Seq<DeclV>, n: nat, l: int) -> (h: int)
    requires
        0 <= l < n <= a.len(),
        invariance::is_other_hook(a[l]),
    ensures
        l <= h < n,
        invariance::is_other_hook(a[h]),
        invariance::other_hooks(a, n).len() > 0,
        invariance::other_hooks(a, n).last() == a[h],
    decreases n,
{
    if invariance::is_other_hook(a[n - 1]) {
        n - 1
    } else {
        lemma_hook_last(a, (n - 1) as nat, l)
    }
}

proof fn lemma_reordered_form(a: Seq<DeclV>, b: Seq<DeclV>, n: nat)
    requires
        settled(a),
        a.len() == b.len(),
        n <= a.len(),
        forall|l: int| n <= l < a.len() ==> #[trigger] a[l] == b[l],
        a.take(n as int).to_multiset() == b.take(n as int).to_multiset(),
        invariance::other_hooks(a, n) == invariance::other_hooks(b, n),
    ensures
        one_form(a, b),
    decreases n,
{
    broadcast use {vstd::seq_lib::group_to_multiset_ensures, vstd::multiset::group_multiset_axioms};

    if n == 0 {
        assert(a =~= b);
    } else {
        let x = b[n - 1];
        let (f, g) = (a.take(n as int), b.take(n as int));
        invariance::lemma_same_members(f, g);
        assert(g[n - 1] == x);
        assert(g.contains(x));
        assert(f.contains(x));
        let j = choose|j: int| 0 <= j < f.len() && f[j] == x;
        assert(a[j] == x);
        if invariance::is_other_hook(x) {
            assert(invariance::other_hooks(b, n).last() == x);
            assert forall|l: int| j < l < n implies !invariance::is_other_hook(#[trigger] a[l]) by {
                if invariance::is_other_hook(a[l]) {
                    let h = lemma_hook_last(a, n, l);
                    assert(ast::decl_name(a[j]) != ast::decl_name(a[h]));
                }
            }
        }
        let c = moved_back(a, j, n as int);
        lemma_moved_back(a, j, n as int);
        let m = (n - 1) as nat;
        let e = c.take(n as int);
        assert(e =~= c.take(m as int).push(x));
        assert(g =~= b.take(m as int).push(x));
        assert(c.take(m as int).to_multiset() =~= e.to_multiset().remove(x));
        assert(b.take(m as int).to_multiset() =~= g.to_multiset().remove(x));
        if invariance::is_other_hook(x) {
            assert(invariance::other_hooks(c, n).drop_last() =~= invariance::other_hooks(c, m));
            assert(invariance::other_hooks(b, n).drop_last() =~= invariance::other_hooks(b, m));
        }
        lemma_reordered_form(c, b, m);
    }
}

/// The order of the declarations does not matter to what they become: however they
/// stand, renaming them gives the same declarations. The hooks outside the fixed
/// order are followed in the order in which they stand, so they keep theirs.
pub proof fn law_order_does_not_matter(a: Seq<DeclV>, b: Seq<DeclV>)
    requires
        a.to_multiset() == b.to_multiset(),
        invariance::other_hooks(a, a.len()) == invariance::other_hooks(b, b.len()),
        settled(a),
    ensures
        rename::canonical_decls(a).to_multiset() == rename::canonical_decls(b).to_multiset(),
{
    invariance::lemma_same_members(a, b);
    assert(a.take(a.len() as int) =~= a);
    assert(b.take(b.len() as int) =~= b);
    lemma_reordered_form(a, b, a.len());
}

/// The order of the declarations does not matter: however they stand, renaming
/// and sorting them gives the same canonical form.
pub proof fn law_declaration_order_does_not_matter(p: ProgramV, q: ProgramV)
    requires
        p.decls.to_multiset() == q.decls.to_multiset(),
        invariance::other_hooks(p.decls, p.decls.len()) == invariance::other_hooks(
            q.decls,
            q.decls.len(),
        ),
        settled(p.decls),
        invariance::texts_tell(rename::canonical_decls(p.decls)),
    ensures
        canon::program_json(sort::sorted_program(rename::renamed_program(p)))
            == canon::program_json(sort::sorted_program(rename::renamed_program(q))),
{
    let a = p.decls;
    let b = q.decls;
    invariance::lemma_distinct_reordered(a, b);
    lemma_declared_once(a);
    lemma_declared_once(b);
    merge::law_merging_is_done_once(p);
    merge::law_merging_is_done_once(q);
    law_order_does_not_matter(a, b);
    invariance::lemma_same_sorted_json(rename::canonical_decls(a), rename::canonical_decls(b));
}

proof fn lemma_declared_once(ds: Seq<DeclV>)
    requires
        invariance::distinct_names(ds),
    ensures
        merge::declared_once(ds),
{
    assert forall|i: int, j: int, name: Seq<char>|
        0 <= i < j < ds.len() && ast::builtin_name(name) && #[trigger] merge::is_sub(
            ds[i],
            name,
        ) implies !#[trigger] merge::is_sub(ds[j], name) by {
        if merge::is_sub(ds[j], name) {
            assert(rename::kind_of(ds[i]) is Some && rename::kind_of(ds[j]) is Some);
        }
    }
}

/// Neither the names that were chosen nor the order of the declarations
/// matters: where one program is another one with its declarations in another
/// order and under other names, their canonical forms are the same.
pub proof fn law_equivalent_programs_have_one_form(p: ProgramV, q: ProgramV, m: RenamingV)
    requires
        invariance::fits_decls(m, p.decls),
        renaming::renamed_decls(p.decls, m).to_multiset() == q.decls.to_multiset(),
        invariance::other_hooks(q.decls, q.decls.len()) == invariance::other_hooks(
            renaming::renamed_decls(p.decls, m),
            p.decls.len(),
        ),
        settled(p.decls),
        invariance::texts_tell(rename::canonical_decls(p.decls)),
    ensures
        canon::program_json(sort::sorted_program(rename::renamed_program(p)))
            == canon::program_json(sort::sorted_program(rename::renamed_program(q))),
{
    let a = p.decls;
    let r = renaming::renamed_decls(a, m);
    let b = q.decls;
    lemma_settled_renamed(m, a);
    invariance::lemma_distinct_reordered(r, b);
    lemma_declared_once(a);
    lemma_declared_once(b);
    merge::law_merging_is_done_once(p);
    merge::law_merging_is_done_once(q);
    invariance::law_chosen_names_do_not_matter(a, m);
    law_order_does_not_matter(r, b);
    invariance::lemma_same_sorted_json(rename::canonical_decls(a), rename::canonical_decls(b));
}

} // verus!
