//! Two unused declarations that are the same but for their names, and that no
//! other one names, get the same canonical form in either order.

use crate::ast;
use crate::ast::{DeclV, FieldV, StmtV};
use crate::normalize::invariance;
use crate::normalize::numbering;
use crate::normalize::rename;
use crate::normalize::rename::{AssignedV, DeclTableV, Kind, NamesV};
use crate::normalize::renaming;
use crate::normalize::renaming::RenamingV;
use crate::normalize::reordering;
use crate::order;
use crate::order::KeyV;
use crate::uses;
use crate::uses::UseV;
use vstd::prelude::*;
use vstd::string::*;

verus! {

// ───────────────────────── where objects come from ─────────────────────────

/// Whether an object is made in a subroutine that has its canonical name.
spec fn made_in(t: DeclTableV, c: NamesV, x: Seq<char>, y: Seq<char>) -> bool {
    &&& rename::body_of(t, y) is Some
    &&& uses::body_uses(rename::body_of(t, y)->0).contains(UseV::Object(x))
    &&& rename::assigned_name(c.assigned, Kind::Sub, y) is Some
}

/// Whether every object is made in such a subroutine.
spec fn made_somewhere(t: DeclTableV, c: NamesV) -> bool {
    forall|x: Seq<char>| #[trigger]
        c.objects.contains(x) ==> exists|y: Seq<char>| #[trigger] made_in(t, c, x, y)
}

proof fn lemma_made_grows(t: DeclTableV, c: NamesV, e: NamesV)
    requires
        made_somewhere(t, c),
        c.assigned.is_prefix_of(e.assigned),
        e.objects == c.objects,
    ensures
        made_somewhere(t, e),
{
    assert forall|x: Seq<char>| #[trigger] e.objects.contains(x) implies exists|y: Seq<char>|
        #[trigger] made_in(t, e, x, y) by {
        assert(c.objects.contains(x));
        let y = choose|y: Seq<char>| #[trigger] made_in(t, c, x, y);
        numbering::lemma_named_grows(c.assigned, e.assigned, Kind::Sub, y);
        assert(made_in(t, e, x, y));
    }
}

proof fn lemma_made_used_from(t: DeclTableV, c: NamesV, us: Seq<UseV>, i: nat, y: Seq<char>)
    requires
        t.dom().finite(),
        made_somewhere(t, c),
        rename::body_of(t, y) is Some,
        uses::body_uses(rename::body_of(t, y)->0) == us,
        rename::assigned_name(c.assigned, Kind::Sub, y) is Some,
    ensures
        made_somewhere(t, rename::used_from(t, c, us, i)),
    decreases rename::unvisited(t, c.visited), 1nat, us.len() - i,
{
    if i < us.len() {
        let u = us[i as int];
        let next = rename::used(t, c, u);
        assert(us.contains(u));
        lemma_made_used(t, c, u, y);
        rename::lemma_used_grows(t, c, u);
        rename::lemma_unvisited_grows(t, c.visited, next.visited);
        numbering::lemma_named_grows(c.assigned, next.assigned, Kind::Sub, y);
        lemma_made_used_from(t, next, us, i + 1, y);
    }
}

proof fn lemma_made_used(t: DeclTableV, c: NamesV, u: UseV, y: Seq<char>)
    requires
        t.dom().finite(),
        made_somewhere(t, c),
        rename::body_of(t, y) is Some,
        uses::body_uses(rename::body_of(t, y)->0).contains(u),
        rename::assigned_name(c.assigned, Kind::Sub, y) is Some,
    ensures
        made_somewhere(t, rename::used(t, c, u)),
    decreases rename::unvisited(t, c.visited), 0nat, 1nat,
{
    match u {
        UseV::Object(n) => {
            let made = NamesV { objects: c.objects.insert(n), ..c };
            assert forall|x: Seq<char>| #[trigger] made.objects.contains(x) implies exists|
                z: Seq<char>,
            | #[trigger] made_in(t, made, x, z) by {
                if x == n {
                    assert(made_in(t, made, x, y));
                } else {
                    assert(c.objects.contains(x));
                    let z = choose|z: Seq<char>| #[trigger] made_in(t, c, x, z);
                    assert(made_in(t, made, x, z));
                }
            }
            rename::lemma_given_grows(made, Kind::Obj, n);
            lemma_made_grows(t, made, rename::given(made, Kind::Obj, n));
        },
        UseV::Sub(n) => lemma_made_touched(t, c, Kind::Sub, n),
        UseV::Name(n) => if c.objects.contains(n) {
            lemma_made_touched(t, c, Kind::Obj, n);
        } else if t.contains_key(n) && rename::kind_of(t[n]) is Some {
            lemma_made_touched(t, c, rename::kind_of(t[n])->0, n);
        },
    }
}

proof fn lemma_made_touched(t: DeclTableV, c: NamesV, k: Kind, name: Seq<char>)
    requires
        t.dom().finite(),
        made_somewhere(t, c),
    ensures
        made_somewhere(t, rename::touched(t, c, k, name)),
    decreases rename::unvisited(t, c.visited), 0nat, 0nat,
{
    if rename::assigned_name(c.assigned, k, name) is None {
        let c1 = rename::given(c, k, name);
        rename::lemma_given_grows(c, k, name);
        lemma_made_grows(t, c, c1);
        match k {
            Kind::Backend => {
                let fs = rename::fields_of(t, name);
                rename::lemma_probes_grow(c1, fs, fs.len());
                lemma_made_grows(t, c1, rename::probes_given(c1, fs, fs.len()));
            },
            Kind::Sub => {
                let c2 = NamesV { visited: c1.visited.insert(name), ..c1 };
                lemma_made_grows(t, c1, c2);
                numbering::lemma_given_named(c, k, name);
                match rename::body_of(t, name) {
                    Some(body) => if rename::unvisited(t, c2.visited) < rename::unvisited(
                        t,
                        c.visited,
                    ) {
                        lemma_made_used_from(t, c2, uses::body_uses(body), 0, name);
                    },
                    None => {},
                }
            },
            _ => {},
        }
    }
}

proof fn lemma_made_entered(t: DeclTableV, c: NamesV, name: Seq<char>, body: Seq<StmtV>)
    requires
        t.dom().finite(),
        made_somewhere(t, c),
        rename::body_of(t, name) == Some(body),
    ensures
        made_somewhere(t, rename::entered(t, c, name, body)),
{
    let c1 = NamesV { visited: c.visited.insert(name), ..c };
    lemma_made_grows(t, c, c1);
    let c2 = rename::given(c1, Kind::Sub, name);
    rename::lemma_given_grows(c1, Kind::Sub, name);
    lemma_made_grows(t, c1, c2);
    numbering::lemma_given_named(c1, Kind::Sub, name);
    lemma_made_used_from(t, c2, uses::body_uses(body), 0, name);
}

proof fn lemma_made_known(t: DeclTableV, c: NamesV, n: nat)
    requires
        t.dom().finite(),
        made_somewhere(t, c),
    ensures
        made_somewhere(t, rename::known_entered(t, c, n)),
    decreases n,
{
    if n > 0 {
        lemma_made_known(t, c, (n - 1) as nat);
        let before = rename::known_entered(t, c, (n - 1) as nat);
        let name = ast::builtin_subs()[n - 1];
        match rename::body_of(t, name) {
            Some(body) => lemma_made_entered(t, before, name, body),
            None => {},
        }
    }
}

proof fn lemma_made_others(t: DeclTableV, c: NamesV, ds: Seq<DeclV>, n: nat)
    requires
        t == rename::decl_table(ds, ds.len()),
        t.dom().finite(),
        invariance::distinct_names(ds),
        n <= ds.len(),
        made_somewhere(t, c),
    ensures
        made_somewhere(t, rename::others_entered(t, c, ds, n)),
    decreases n,
{
    if n > 0 {
        lemma_made_others(t, c, ds, (n - 1) as nat);
        let before = rename::others_entered(t, c, ds, (n - 1) as nat);
        match ds[n - 1] {
            DeclV::Sub { name, body, .. } => {
                invariance::lemma_table_holds(ds, ds.len(), n - 1);
                if ast::builtin_name(name) && !ast::builtin_subs().contains(name)
                    && !before.visited.contains(name) {
                    lemma_made_entered(t, before, name, body);
                }
            },
            _ => {},
        }
    }
}

/// No object has the name of a declaration that is unused and that no other one
/// names.
proof fn lemma_no_object(ds: Seq<DeclV>, k: Kind, d: DeclV)
    requires
        invariance::distinct_names(ds),
        rename::unused(invariance::before_dead(ds, k), k, d),
        reordering::named_by_itself(ds, d),
        k != Kind::Obj,
    ensures
        !rename::names_used(rename::decl_table(ds, ds.len()), ds).objects.contains(
            ast::decl_name(d),
        ),
{
    let t = rename::decl_table(ds, ds.len());
    let n = ast::decl_name(d);
    rename::lemma_table_finite(ds, ds.len());
    let z = rename::no_names();
    assert(made_somewhere(t, z));
    lemma_made_known(t, z, ast::builtin_subs().len());
    lemma_made_others(t, rename::known_entered(t, z, ast::builtin_subs().len()), ds, ds.len());
    let c = rename::names_used(t, ds);
    if c.objects.contains(n) {
        let y = choose|y: Seq<char>| #[trigger] made_in(t, c, n, y);
        invariance::lemma_table_from(ds, ds.len(), y);
        let j = choose|j: int|
            0 <= j < ds.len() && rename::kind_of(#[trigger] ds[j]) is Some && ast::decl_name(ds[j])
                == y && t[y] == ds[j];
        let us = uses::body_uses(ds[j]->Sub_body);
        assert(us.contains(UseV::Object(n)));
        assert(invariance::use_name(UseV::Object(n)) == n);
        assert(invariance::holds_name(ds[j], n));
        assert(ds[j] == d);
        numbering::lemma_names_grow(ds);
        let e = invariance::before_dead(ds, Kind::Sub);
        numbering::lemma_named_grows(c.assigned, e.assigned, Kind::Sub, y);
    }
}

// ───────────────────────── two names change places ─────────────────────────

/// The renaming that lets two names change places.
pub open spec fn exchange(n: Seq<char>, o: Seq<char>) -> RenamingV {
    map![n => o, o => n]
}

/// Two names of one kind.
pub struct PairV {
    pub kind: Kind,
    pub one: Seq<char>,
    pub two: Seq<char>,
}

/// The name that takes the place of a name of a kind.
pub open spec fn crossed(p: PairV, k: Kind, x: Seq<char>) -> Seq<char> {
    if k == p.kind {
        renaming::new_name(exchange(p.one, p.two), x)
    } else {
        x
    }
}

/// Whether two states are the same but for the two names.
pub open spec fn crosswise(p: PairV, a: NamesV, b: NamesV) -> bool {
    &&& a.assigned.len() == b.assigned.len()
    &&& forall|l: int|
        0 <= l < a.assigned.len() ==> #[trigger] b.assigned[l] == (AssignedV {
            name: crossed(p, a.assigned[l].kind, a.assigned[l].name),
            ..a.assigned[l]
        })
    &&& a.objects == b.objects
    &&& a.visited == b.visited
}

/// Whether neither name stays.
pub open spec fn both_change(p: PairV) -> bool {
    !rename::keeps(p.kind, p.one) && !rename::keeps(p.kind, p.two)
}

proof fn lemma_crossed_twice(p: PairV, k: Kind, x: Seq<char>)
    ensures
        crossed(p, k, crossed(p, k, x)) == x,
{
}

proof fn lemma_crossed_name(
    p: PairV,
    a: Seq<AssignedV>,
    b: Seq<AssignedV>,
    k: Kind,
    x: Seq<char>,
)
    requires
        a.len() == b.len(),
        forall|l: int|
            0 <= l < a.len() ==> #[trigger] b[l] == (AssignedV {
                name: crossed(p, a[l].kind, a[l].name),
                ..a[l]
            }),
    ensures
        rename::assigned_name(b, k, crossed(p, k, x)) == rename::assigned_name(a, k, x),
    decreases a.len(),
{
    if a.len() > 0 {
        lemma_crossed_name(p, a.drop_last(), b.drop_last(), k, x);
        assert(b.last() == b[b.len() - 1]);
        lemma_crossed_twice(p, k, x);
        lemma_crossed_twice(p, k, a.last().name);
    }
}

proof fn lemma_crossed_numbers(p: PairV, a: Seq<AssignedV>, b: Seq<AssignedV>, k: Kind)
    requires
        both_change(p),
        a.len() == b.len(),
        forall|l: int|
            0 <= l < a.len() ==> #[trigger] b[l] == (AssignedV {
                name: crossed(p, a[l].kind, a[l].name),
                ..a[l]
            }),
    ensures
        rename::numbers_of(b, k) == rename::numbers_of(a, k),
    decreases a.len(),
{
    if a.len() > 0 {
        lemma_crossed_numbers(p, a.drop_last(), b.drop_last(), k);
        assert(b.last() == b[b.len() - 1]);
    }
}

proof fn lemma_crossed_given(p: PairV, a: NamesV, b: NamesV, k: Kind, x: Seq<char>)
    requires
        both_change(p),
        crosswise(p, a, b),
    ensures
        crosswise(p, rename::given(a, k, x), rename::given(b, k, crossed(p, k, x))),
{
    lemma_crossed_name(p, a.assigned, b.assigned, k, x);
    lemma_crossed_numbers(p, a.assigned, b.assigned, k);
    assert(rename::keeps(k, crossed(p, k, x)) == rename::keeps(k, x));
    let c = rename::given(a, k, x);
    let e = rename::given(b, k, crossed(p, k, x));
    if rename::assigned_name(a.assigned, k, x) is None {
        if rename::keeps(k, x) {
            assert(crossed(p, k, x) == x);
        }
        assert forall|l: int| 0 <= l < c.assigned.len() implies #[trigger] e.assigned[l] == (
        AssignedV {
            name: crossed(p, c.assigned[l].kind, c.assigned[l].name),
            ..c.assigned[l]
        }) by {
            if l < a.assigned.len() {
                assert(c.assigned[l] == a.assigned[l]);
                assert(e.assigned[l] == b.assigned[l]);
            }
        }
    }
}

proof fn lemma_crossed_all_given(
    p: PairV,
    a: NamesV,
    b: NamesV,
    k: Kind,
    s: Seq<(KeyV, Seq<char>)>,
    r: Seq<(KeyV, Seq<char>)>,
    n: nat,
)
    requires
        both_change(p),
        crosswise(p, a, b),
        n <= s.len(),
        n <= r.len(),
        forall|l: int| 0 <= l < n ==> (#[trigger] r[l]).1 == crossed(p, k, s[l].1),
    ensures
        crosswise(p, rename::all_given(a, k, s, n), rename::all_given(b, k, r, n)),
    decreases n,
{
    if n > 0 {
        lemma_crossed_all_given(p, a, b, k, s, r, (n - 1) as nat);
        assert(r[n - 1].1 == crossed(p, k, s[n - 1].1));
        lemma_crossed_given(
            p,
            rename::all_given(a, k, s, (n - 1) as nat),
            rename::all_given(b, k, r, (n - 1) as nat),
            k,
            s[n - 1].1,
        );
    }
}

proof fn lemma_crossed_probes(p: PairV, a: NamesV, b: NamesV, fs: Seq<FieldV>, n: nat)
    requires
        both_change(p),
        crosswise(p, a, b),
        n <= fs.len(),
        forall|i: int|
            0 <= i < fs.len() ==> rename::ref_of(#[trigger] fs[i]) != Some(p.one) && rename::ref_of(
                fs[i],
            ) != Some(p.two),
    ensures
        crosswise(p, rename::probes_given(a, fs, n), rename::probes_given(b, fs, n)),
    decreases n,
{
    if n > 0 {
        lemma_crossed_probes(p, a, b, fs, (n - 1) as nat);
        match rename::probe_of(fs[n - 1]) {
            Some(x) => {
                assert(rename::ref_of(fs[n - 1]) == Some(x));
                lemma_crossed_given(
                    p,
                    rename::probes_given(a, fs, (n - 1) as nat),
                    rename::probes_given(b, fs, (n - 1) as nat),
                    Kind::Probe,
                    x,
                );
            },
            None => {},
        }
    }
}

// ───────────────────────── the phases ─────────────────────────

/// Whether nothing but declarations of their kind that have these names names them.
spec fn apart(p: PairV, ds: Seq<DeclV>) -> bool {
    forall|j: int, x: Seq<char>|
        0 <= j < ds.len() && #[trigger] invariance::holds_name(ds[j], x) && (x == p.one || x
            == p.two) ==> rename::kind_of(ds[j]) == Some(p.kind) && ast::decl_name(ds[j]) == x
}

proof fn lemma_crossed_resolved(
    p: PairV,
    t: DeclTableV,
    a: NamesV,
    b: NamesV,
    x: Seq<char>,
)
    requires
        crosswise(p, a, b),
        x != p.one,
        x != p.two,
    ensures
        rename::resolved(t, b, x) == rename::resolved(t, a, x),
{
    lemma_crossed_name(p, a.assigned, b.assigned, Kind::Obj, x);
    if t.contains_key(x) && rename::kind_of(t[x]) is Some {
        lemma_crossed_name(p, a.assigned, b.assigned, rename::kind_of(t[x])->0, x);
    }
}

/// What a declaration of another kind is ordered by stays.
proof fn lemma_crossed_key(
    p: PairV,
    t: DeclTableV,
    a: NamesV,
    b: NamesV,
    k: Kind,
    ds: Seq<DeclV>,
    l: int,
)
    requires
        crosswise(p, a, b),
        apart(p, ds),
        k != p.kind,
        0 <= l < ds.len(),
    ensures
        rename::unused(b, k, ds[l]) == rename::unused(a, k, ds[l]),
        rename::unused(a, k, ds[l]) ==> rename::dead_key(t, b, ds[l]) == rename::dead_key(
            t,
            a,
            ds[l],
        ),
{
    let d = ds[l];
    lemma_crossed_name(p, a.assigned, b.assigned, k, ast::decl_name(d));
    if rename::unused(a, k, d) {
        let own = ast::decl_name(d);
        let m = rename::renaming_of(t, a).insert(own, "$self"@);
        let r = rename::renaming_of(t, b).insert(own, "$self"@);
        assert forall|x: Seq<char>| #[trigger] invariance::holds_name(d, x) implies renaming::new_name(
            m,
            x,
        ) == renaming::new_name(r, x) by {
            assert(invariance::holds_name(ds[l], x));
            assert(x != p.one && x != p.two);
            lemma_crossed_resolved(p, t, a, b, x);
        }
        reordering::lemma_same_names(d, m, r);
    }
}

proof fn lemma_crossed_first(
    p: PairV,
    t: DeclTableV,
    a: NamesV,
    b: NamesV,
    k: Kind,
    ds: Seq<DeclV>,
    n: nat,
)
    requires
        crosswise(p, a, b),
        apart(p, ds),
        k != p.kind,
        n <= ds.len(),
    ensures
        rename::dead_first(t, b, k, ds, n) == rename::dead_first(t, a, k, ds, n),
    decreases n,
{
    if n > 0 {
        lemma_crossed_first(p, t, a, b, k, ds, (n - 1) as nat);
        lemma_crossed_key(p, t, a, b, k, ds, n - 1);
    }
}

/// The unused declarations of another kind get the same names.
proof fn lemma_crossed_dead(
    p: PairV,
    t: DeclTableV,
    a: NamesV,
    b: NamesV,
    k: Kind,
    ds: Seq<DeclV>,
)
    requires
        both_change(p),
        crosswise(p, a, b),
        apart(p, ds),
        k != p.kind,
    ensures
        crosswise(p, rename::dead_given(t, a, k, ds), rename::dead_given(t, b, k, ds)),
{
    lemma_crossed_first(p, t, a, b, k, ds, ds.len());
    let s = order::sorted(rename::dead_first(t, a, k, ds, ds.len()));
    lemma_crossed_all_given(p, a, b, k, s, s, s.len());
}

proof fn lemma_crossed_default(p: PairV, a: NamesV, b: NamesV, ds: Seq<DeclV>)
    requires
        both_change(p),
        crosswise(p, a, b),
        apart(p, ds),
        p.kind == Kind::Probe,
    ensures
        ({
            let t = rename::decl_table(ds, ds.len());
            crosswise(p, rename::default_given(t, a, ds), rename::default_given(t, b, ds))
        }),
{
    let t = rename::decl_table(ds, ds.len());
    let x = "default"@;
    lemma_crossed_name(p, a.assigned, b.assigned, Kind::Backend, x);
    lemma_crossed_given(p, a, b, Kind::Backend, x);
    let fs = rename::fields_of(t, x);
    assert forall|i: int| 0 <= i < fs.len() implies rename::ref_of(#[trigger] fs[i]) != Some(p.one)
        && rename::ref_of(fs[i]) != Some(p.two) by {
        invariance::lemma_table_from(ds, ds.len(), x);
        let j = choose|j: int|
            0 <= j < ds.len() && rename::kind_of(#[trigger] ds[j]) is Some && ast::decl_name(ds[j])
                == x && t[x] == ds[j];
        if rename::ref_of(fs[i]) is Some {
            let y = rename::ref_of(fs[i])->0;
            assert(invariance::holds_name(ds[j], y));
        }
    }
    lemma_crossed_probes(
        p,
        rename::given(a, Kind::Backend, x),
        rename::given(b, Kind::Backend, x),
        fs,
        fs.len(),
    );
}

// ───────────────────────── neighbours that are tied ─────────────────────────

/// The names of two neighbours.
spec fn names_at(a: Seq<DeclV>, i: int, k: Kind) -> PairV {
    PairV { kind: k, one: ast::decl_name(a[i]), two: ast::decl_name(a[i + 1]) }
}

/// Whether two neighbours are tied and harmless.
spec fn crossing(a: Seq<DeclV>, i: int, k: Kind) -> bool {
    &&& 0 <= i < a.len() - 1
    &&& k != Kind::Obj
    &&& invariance::distinct_names(a)
    &&& reordering::tied_at(a, i, k)
    &&& reordering::harmless(a, a[i], a[i + 1])
    &&& reordering::harmless(a, a[i + 1], a[i])
}

proof fn lemma_crossing(a: Seq<DeclV>, i: int, k: Kind)
    requires
        crossing(a, i, k),
    ensures
        apart(names_at(a, i, k), a),
        both_change(names_at(a, i, k)),
        crosswise(
            names_at(a, i, k),
            invariance::before_dead(a, k),
            invariance::before_dead(a, k),
        ),
{
    let p = names_at(a, i, k);
    let c = invariance::before_dead(a, k);
    assert forall|j: int, x: Seq<char>|
        0 <= j < a.len() && #[trigger] invariance::holds_name(a[j], x) && (x == p.one || x
            == p.two) implies rename::kind_of(a[j]) == Some(p.kind) && ast::decl_name(a[j]) == x by {
        if x == p.one {
            assert(a[j] == a[i]);
        } else {
            assert(a[j] == a[i + 1]);
        }
    }
    numbering::lemma_named(c.assigned, k, p.one);
    numbering::lemma_named(c.assigned, k, p.two);
    assert forall|l: int| 0 <= l < c.assigned.len() implies #[trigger] c.assigned[l] == (AssignedV {
        name: crossed(p, c.assigned[l].kind, c.assigned[l].name),
        ..c.assigned[l]
    }) by {
        let x = c.assigned[l];
        if x.kind == k {
            assert(x.name != p.one && x.name != p.two);
        }
    }
}

/// The tied neighbours get each other's names.
proof fn lemma_tied_first(a: Seq<DeclV>, i: int, k: Kind, n: nat)
    requires
        crossing(a, i, k),
        n <= a.len(),
    ensures
        ({
            let t = rename::decl_table(a, a.len());
            let c = invariance::before_dead(a, k);
            let p = names_at(a, i, k);
            rename::dead_first(t, c, k, reordering::swapped(a, i), n) == invariance::renamed_pairs(
                rename::dead_first(t, c, k, a, n),
                exchange(p.one, p.two),
            )
        }),
    decreases n,
{
    let t = rename::decl_table(a, a.len());
    let c = invariance::before_dead(a, k);
    let p = names_at(a, i, k);
    let m = exchange(p.one, p.two);
    let b = reordering::swapped(a, i);
    let f = rename::dead_first(t, c, k, a, n);
    let g = rename::dead_first(t, c, k, b, n);
    if n == 0 {
        assert(g =~= invariance::renamed_pairs(f, m));
    } else {
        lemma_tied_first(a, i, k, (n - 1) as nat);
        let l = n - 1;
        let before = rename::dead_first(t, c, k, a, (n - 1) as nat);
        if l == i {
            assert(b[l] == a[i + 1]);
        } else if l == i + 1 {
            assert(b[l] == a[i]);
        } else {
            assert(b[l] == a[l]);
        }
        if rename::unused(c, k, a[l]) {
            let x = (rename::dead_key(t, c, a[l]), ast::decl_name(a[l]));
            if l != i && l != i + 1 {
                if l < i {
                    assert(ast::decl_name(a[l]) != ast::decl_name(a[i]));
                    assert(ast::decl_name(a[l]) != ast::decl_name(a[i + 1]));
                } else {
                    assert(ast::decl_name(a[i]) != ast::decl_name(a[l]));
                    assert(ast::decl_name(a[i + 1]) != ast::decl_name(a[l]));
                }
            }
            assert(invariance::renamed_pairs(before.push(x), m) =~= invariance::renamed_pairs(
                before,
                m,
            ).push((x.0, renaming::new_name(m, x.1))));
        }
    }
}

proof fn lemma_tied_dead(a: Seq<DeclV>, i: int, k: Kind)
    requires
        crossing(a, i, k),
    ensures
        ({
            let t = rename::decl_table(a, a.len());
            let c = invariance::before_dead(a, k);
            crosswise(
                names_at(a, i, k),
                rename::dead_given(t, c, k, a),
                rename::dead_given(t, c, k, reordering::swapped(a, i)),
            )
        }),
{
    let t = rename::decl_table(a, a.len());
    let c = invariance::before_dead(a, k);
    let p = names_at(a, i, k);
    let m = exchange(p.one, p.two);
    let b = reordering::swapped(a, i);
    let f = rename::dead_first(t, c, k, a, a.len());
    lemma_crossing(a, i, k);
    lemma_tied_first(a, i, k, a.len());
    invariance::lemma_renamed_sorted(f, m, f.len());
    let s = order::sorted(f);
    let r = invariance::renamed_pairs(s, m);
    assert(order::sorted(rename::dead_first(t, c, k, b, b.len())) == r);
    lemma_crossed_all_given(p, c, c, k, s, r, s.len());
}

/// Whether the states of two orders are the same, or the same but for two names.
pub open spec fn near(p: PairV, a: NamesV, b: NamesV) -> bool {
    a == b || crosswise(p, a, b)
}

/// What the names of tied neighbours that change places become.
proof fn lemma_crossed_names(a: Seq<DeclV>, i: int, k: Kind)
    requires
        crossing(a, i, k),
    ensures
        ({
            let b = reordering::swapped(a, i);
            let p = names_at(a, i, k);
            &&& rename::decl_table(b, b.len()) == rename::decl_table(a, a.len())
            &&& invariance::before_dead(b, k) == invariance::before_dead(a, k)
            &&& near(
                p,
                invariance::before_dead(a, Kind::Probe),
                invariance::before_dead(b, Kind::Probe),
            )
            &&& near(
                p,
                invariance::before_dead(a, Kind::Backend),
                invariance::before_dead(b, Kind::Backend),
            )
            &&& near(
                p,
                invariance::before_dead(a, Kind::Acl),
                invariance::before_dead(b, Kind::Acl),
            )
            &&& near(
                p,
                invariance::before_dead(a, Kind::Sub),
                invariance::before_dead(b, Kind::Sub),
            )
            &&& crosswise(p, rename::all_names(a), rename::all_names(b))
            &&& invariance::distinct_names(b)
        }),
{
    let b = reordering::swapped(a, i);
    let p = names_at(a, i, k);
    reordering::lemma_swapped(a, i);
    invariance::lemma_distinct_reordered(a, b);
    invariance::lemma_same_table(a, b);
    let t = rename::decl_table(a, a.len());
    assert(!(invariance::is_other_hook(a[i]) && invariance::is_other_hook(a[i + 1]))) by {
        assert(rename::unused(invariance::before_dead(a, k), k, a[i]));
    }
    reordering::lemma_swapped_hooks(a, i, a.len());
    let c = rename::known_entered(t, rename::no_names(), ast::builtin_subs().len());
    invariance::lemma_others_are_hooks(t, c, a, a.len());
    invariance::lemma_others_are_hooks(t, c, b, b.len());
    lemma_crossing(a, i, k);
    lemma_tied_dead(a, i, k);
    let c0 = rename::names_used(t, a);
    let (a1, b1) = (
        rename::dead_given(t, c0, Kind::Probe, a),
        rename::dead_given(t, c0, Kind::Probe, b),
    );
    if k != Kind::Probe {
        reordering::lemma_swapped_given(t, c0, Kind::Probe, a, i);
    }
    invariance::lemma_same_default(t, b1, a, b);
    if k == Kind::Probe {
        lemma_crossed_default(p, a1, b1, a);
    }
    let (a2, b2) = (rename::default_given(t, a1, a), rename::default_given(t, b1, b));
    if k == Kind::Probe {
        lemma_crossed_dead(p, t, a2, b2, Kind::Backend, a);
    }
    if k != Kind::Backend {
        reordering::lemma_swapped_given(t, b2, Kind::Backend, a, i);
    }
    let (a3, b3) = (
        rename::dead_given(t, a2, Kind::Backend, a),
        rename::dead_given(t, b2, Kind::Backend, b),
    );
    if k == Kind::Probe || k == Kind::Backend {
        lemma_crossed_dead(p, t, a3, b3, Kind::Acl, a);
    }
    if k != Kind::Acl {
        reordering::lemma_swapped_given(t, b3, Kind::Acl, a, i);
    }
    let (a4, b4) = (
        rename::dead_given(t, a3, Kind::Acl, a),
        rename::dead_given(t, b3, Kind::Acl, b),
    );
    if k != Kind::Sub {
        lemma_crossed_dead(p, t, a4, b4, Kind::Sub, a);
        reordering::lemma_swapped_given(t, b4, Kind::Sub, a, i);
    }
}

// ───────────────────────── what the neighbours become ─────────────────────────

/// What a declaration becomes under the name of its neighbour is what the
/// neighbour becomes.
proof fn lemma_crossed_decl(d: DeclV, e: DeclV, m: RenamingV, r: RenamingV)
    requires
        reordering::same_but_for_name(d, e),
        renaming::new_name(m, ast::decl_name(e)) == renaming::new_name(r, ast::decl_name(d)),
        forall|x: Seq<char>| #[trigger]
            invariance::holds_name(d, x) && x != ast::decl_name(d) ==> renaming::new_name(m, x)
                == renaming::new_name(r, x),
    ensures
        renaming::renamed_decl(e, m) == renaming::renamed_decl(d, r),
{
    let s = map![ast::decl_name(d) => ast::decl_name(e)];
    assert forall|x: Seq<char>| #[trigger] invariance::holds_name(d, x) implies invariance::agree_on(
        x,
        s,
        r,
        m,
    ) by {}
    invariance::lemma_holds_agree(d, s, r, m);
    invariance::lemma_twice_decl(d, s, r, m);
}

proof fn lemma_same_objects(ds: Seq<DeclV>)
    ensures
        rename::all_names(ds).objects == rename::names_used(
            rename::decl_table(ds, ds.len()),
            ds,
        ).objects,
{
    let t = rename::decl_table(ds, ds.len());
    let c0 = rename::names_used(t, ds);
    lemma_dead_objects(t, c0, Kind::Probe, ds);
    let c1 = rename::dead_given(t, c0, Kind::Probe, ds);
    let x = "default"@;
    let e = rename::given(c1, Kind::Backend, x);
    rename::lemma_probes_grow(e, rename::fields_of(t, x), rename::fields_of(t, x).len());
    let c2 = rename::default_given(t, c1, ds);
    assert(c2.objects == c1.objects);
    lemma_dead_objects(t, c2, Kind::Backend, ds);
    let c3 = rename::dead_given(t, c2, Kind::Backend, ds);
    lemma_dead_objects(t, c3, Kind::Acl, ds);
    lemma_dead_objects(t, rename::dead_given(t, c3, Kind::Acl, ds), Kind::Sub, ds);
}

proof fn lemma_dead_objects(t: DeclTableV, c: NamesV, k: Kind, ds: Seq<DeclV>)
    ensures
        rename::dead_given(t, c, k, ds).objects == c.objects,
{
    let s = order::sorted(rename::dead_first(t, c, k, ds, ds.len()));
    lemma_given_objects(c, k, s, s.len());
}

proof fn lemma_given_objects(c: NamesV, k: Kind, s: Seq<(KeyV, Seq<char>)>, n: nat)
    ensures
        rename::all_given(c, k, s, n).objects == c.objects,
    decreases n,
{
    if n > 0 {
        lemma_given_objects(c, k, s, (n - 1) as nat);
    }
}

/// Tied neighbours that are harmless become the same in either order, and so do
/// all others.
pub(crate) proof fn lemma_crossed_form(a: Seq<DeclV>, i: int, k: Kind)
    requires
        0 <= i < a.len() - 1,
        k != Kind::Obj,
        invariance::distinct_names(a),
        reordering::tied_at(a, i, k),
        reordering::harmless(a, a[i], a[i + 1]),
        reordering::harmless(a, a[i + 1], a[i]),
    ensures
        rename::canonical_decls(reordering::swapped(a, i)) == rename::canonical_decls(a),
{
    let b = reordering::swapped(a, i);
    let p = names_at(a, i, k);
    let t = rename::decl_table(a, a.len());
    let (d, e) = (a[i], a[i + 1]);
    lemma_crossing(a, i, k);
    lemma_crossed_names(a, i, k);
    let (ca, cb) = (rename::all_names(a), rename::all_names(b));
    let (m, r) = (rename::renaming_of(t, ca), rename::renaming_of(t, cb));
    lemma_no_object(a, k, d);
    lemma_no_object(a, k, e);
    lemma_same_objects(a);
    invariance::lemma_table_holds(a, a.len(), i);
    invariance::lemma_table_holds(a, a.len(), i + 1);
    lemma_crossed_name(p, ca.assigned, cb.assigned, k, p.one);
    lemma_crossed_name(p, ca.assigned, cb.assigned, k, p.two);
    assert(crossed(p, k, p.one) == p.two && crossed(p, k, p.two) == p.one);
    numbering::law_every_declaration_is_named(a);
    assert(rename::kind_of(a[i]) == Some(k) && !rename::keeps(k, ast::decl_name(a[i])));
    assert(rename::kind_of(a[i + 1]) == Some(k) && !rename::keeps(k, ast::decl_name(a[i + 1])));
    assert(renaming::new_name(m, p.one) == renaming::new_name(r, p.two));
    assert(renaming::new_name(m, p.two) == renaming::new_name(r, p.one));
    assert forall|x: Seq<char>| x != p.one && x != p.two implies #[trigger] renaming::new_name(m, x)
        == renaming::new_name(r, x) by {
        lemma_crossed_resolved(p, t, ca, cb, x);
    }
    assert forall|x: Seq<char>| #[trigger] invariance::holds_name(d, x) && x != p.one implies x
        != p.two by {
        assert(invariance::holds_name(a[i], x));
    }
    assert forall|x: Seq<char>| #[trigger] invariance::holds_name(e, x) && x != p.two implies x
        != p.one by {
        assert(invariance::holds_name(a[i + 1], x));
    }
    lemma_crossed_decl(d, e, m, r);
    lemma_crossed_decl(e, d, m, r);
    let (x, y) = (rename::canonical_decls(a), rename::canonical_decls(b));
    assert forall|l: int| 0 <= l < a.len() implies x[l] == y[l] by {
        if l != i && l != i + 1 {
            assert(b[l] == a[l]);
            assert forall|z: Seq<char>| #[trigger] invariance::holds_name(
                a[l],
                z,
            ) implies renaming::new_name(m, z) == renaming::new_name(r, z) by {
                if z == p.one || z == p.two {
                    if l < i {
                        assert(ast::decl_name(a[l]) != ast::decl_name(a[i]));
                        assert(ast::decl_name(a[l]) != ast::decl_name(a[i + 1]));
                    } else {
                        assert(ast::decl_name(a[i]) != ast::decl_name(a[l]));
                        assert(ast::decl_name(a[i + 1]) != ast::decl_name(a[l]));
                    }
                }
            }
            reordering::lemma_same_names(a[l], m, r);
        } else if l == i {
            assert(b[l] == e);
        } else {
            assert(b[l] == d);
        }
    }
    assert(x =~= y);
}

proof fn lemma_ties_crossed(a: Seq<DeclV>, i: int, k: Kind, j: Kind)
    requires
        crossing(a, i, k),
        near(
            names_at(a, i, k),
            invariance::before_dead(a, j),
            invariance::before_dead(reordering::swapped(a, i), j),
        ),
        j == k ==> invariance::before_dead(a, j) == invariance::before_dead(
            reordering::swapped(a, i),
            j,
        ),
        reordering::harmless_ties(
            rename::decl_table(a, a.len()),
            invariance::before_dead(a, j),
            j,
            a,
        ),
    ensures
        reordering::harmless_ties(
            rename::decl_table(a, a.len()),
            invariance::before_dead(reordering::swapped(a, i), j),
            j,
            reordering::swapped(a, i),
        ),
{
    let b = reordering::swapped(a, i);
    let p = names_at(a, i, k);
    let t = rename::decl_table(a, a.len());
    let (ca, cb) = (invariance::before_dead(a, j), invariance::before_dead(b, j));
    lemma_crossing(a, i, k);
    if ca != cb {
        assert forall|x: int, y: int|
            0 <= x < a.len() && 0 <= y < a.len() && #[trigger] reordering::tie(
                t,
                cb,
                j,
                a[x],
                a[y],
            ) implies reordering::harmless(a, a[x], a[y]) by {
            lemma_crossed_key(p, t, ca, cb, j, a, x);
            lemma_crossed_key(p, t, ca, cb, j, a, y);
            assert(reordering::tie(t, ca, j, a[x], a[y]));
        }
    }
    reordering::lemma_swapped(a, i);
    reordering::lemma_ties_reordered(t, cb, j, a, b);
}

/// What was settled stays settled where tied neighbours change places.
pub(crate) proof fn lemma_crossed_settled(a: Seq<DeclV>, i: int, k: Kind)
    requires
        0 <= i < a.len() - 1,
        k != Kind::Obj,
        reordering::settled(a),
        reordering::tied_at(a, i, k),
        reordering::harmless(a, a[i], a[i + 1]),
        reordering::harmless(a, a[i + 1], a[i]),
    ensures
        reordering::settled(reordering::swapped(a, i)),
{
    lemma_crossed_names(a, i, k);
    lemma_ties_crossed(a, i, k, Kind::Probe);
    lemma_ties_crossed(a, i, k, Kind::Backend);
    lemma_ties_crossed(a, i, k, Kind::Acl);
    lemma_ties_crossed(a, i, k, Kind::Sub);
}

} // verus!
