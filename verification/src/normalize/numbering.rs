//! What the canonical names are: every declaration gets one, no two share one,
//! and those of a kind are numbered in the order in which they are given.

use crate::ast;
use crate::ast::{DeclV, FieldV, StmtV};
use crate::normalize::invariance;
use crate::normalize::rename;
use crate::normalize::rename::{AssignedV, DeclTableV, Kind, NamesV};
use crate::order;
use crate::order::KeyV;
use crate::text;
use crate::uses;
use crate::uses::UseV;
use vstd::prelude::*;
use vstd::string::*;

verus! {

/// Whether every name got its canonical name in its turn, and only once.
pub open spec fn orderly(s: Seq<AssignedV>) -> bool
    decreases s.len(),
{
    s.len() == 0 || {
        let before = s.drop_last();
        let a = s.last();
        &&& orderly(before)
        &&& rename::assigned_name(before, a.kind, a.name) is None
        &&& a.canonical == rename::next_name(before, a.kind, a.name)
    }
}

/// Whether every object has its canonical name.
pub open spec fn objects_named(c: NamesV) -> bool {
    forall|n: Seq<char>| #[trigger]
        c.objects.contains(n) ==> rename::assigned_name(c.assigned, Kind::Obj, n) is Some
}

/// Whether what is known only grew, and in order.
spec fn follows(a: NamesV, b: NamesV) -> bool {
    &&& a.assigned.is_prefix_of(b.assigned)
    &&& orderly(a.assigned) ==> orderly(b.assigned)
    &&& objects_named(a) ==> objects_named(b)
}

proof fn lemma_given(c: NamesV, k: Kind, name: Seq<char>)
    ensures
        follows(c, rename::given(c, k, name)),
{
    if rename::assigned_name(c.assigned, k, name) is None {
        let x = AssignedV {
            kind: k,
            name,
            canonical: rename::next_name(c.assigned, k, name),
        };
        assert(c.assigned.push(x).drop_last() =~= c.assigned);
        let after = rename::given(c, k, name);
        if objects_named(c) {
            assert forall|n: Seq<char>| #[trigger]
                after.objects.contains(n) implies rename::assigned_name(
                after.assigned,
                Kind::Obj,
                n,
            ) is Some by {
                assert(c.objects.contains(n));
                lemma_named_grows(c.assigned, after.assigned, Kind::Obj, n);
            }
        }
    }
}

proof fn lemma_probes(c: NamesV, fs: Seq<FieldV>, n: nat)
    ensures
        follows(c, rename::probes_given(c, fs, n)),
    decreases n,
{
    if n > 0 {
        lemma_probes(c, fs, (n - 1) as nat);
        let before = rename::probes_given(c, fs, (n - 1) as nat);
        match rename::probe_of(fs[n - 1]) {
            Some(p) => lemma_given(before, Kind::Probe, p),
            None => {},
        }
    }
}

proof fn lemma_used_from(t: DeclTableV, c: NamesV, us: Seq<UseV>, i: nat)
    ensures
        follows(c, rename::used_from(t, c, us, i)),
    decreases rename::unvisited(t, c.visited), 1nat, us.len() - i,
{
    if i < us.len() {
        let next = rename::used(t, c, us[i as int]);
        lemma_used(t, c, us[i as int]);
        if rename::unvisited(t, next.visited) <= rename::unvisited(t, c.visited) {
            lemma_used_from(t, next, us, i + 1);
        }
    }
}

proof fn lemma_used(t: DeclTableV, c: NamesV, u: UseV)
    ensures
        follows(c, rename::used(t, c, u)),
    decreases rename::unvisited(t, c.visited), 0nat, 1nat,
{
    match u {
        UseV::Object(n) => {
            let made = NamesV { objects: c.objects.insert(n), ..c };
            let after = rename::given(made, Kind::Obj, n);
            lemma_given(made, Kind::Obj, n);
            lemma_given_named(made, Kind::Obj, n);
            if objects_named(c) {
                assert forall|x: Seq<char>| #[trigger]
                    after.objects.contains(x) implies rename::assigned_name(
                    after.assigned,
                    Kind::Obj,
                    x,
                ) is Some by {
                    if x != n {
                        assert(c.objects.contains(x));
                        lemma_named_grows(c.assigned, after.assigned, Kind::Obj, x);
                    }
                }
            }
        },
        UseV::Sub(n) => lemma_touched(t, c, Kind::Sub, n),
        UseV::Name(n) => if c.objects.contains(n) {
            lemma_touched(t, c, Kind::Obj, n);
        } else if t.contains_key(n) && rename::kind_of(t[n]) is Some {
            lemma_touched(t, c, rename::kind_of(t[n])->0, n);
        },
    }
}

proof fn lemma_touched(t: DeclTableV, c: NamesV, k: Kind, name: Seq<char>)
    ensures
        follows(c, rename::touched(t, c, k, name)),
    decreases rename::unvisited(t, c.visited), 0nat, 0nat,
{
    if rename::assigned_name(c.assigned, k, name) is None {
        let c1 = rename::given(c, k, name);
        lemma_given(c, k, name);
        match k {
            Kind::Backend => {
                let fs = rename::fields_of(t, name);
                lemma_probes(c1, fs, fs.len());
            },
            Kind::Sub => {
                let c2 = NamesV { visited: c1.visited.insert(name), ..c1 };
                match rename::body_of(t, name) {
                    Some(body) => if rename::unvisited(t, c2.visited) < rename::unvisited(
                        t,
                        c.visited,
                    ) {
                        lemma_used_from(t, c2, uses::body_uses(body), 0);
                    },
                    None => {},
                }
            },
            _ => {},
        }
    }
}

proof fn lemma_entered(t: DeclTableV, c: NamesV, name: Seq<char>, body: Seq<StmtV>)
    ensures
        follows(c, rename::entered(t, c, name, body)),
{
    let c1 = NamesV { visited: c.visited.insert(name), ..c };
    lemma_given(c1, Kind::Sub, name);
    lemma_used_from(t, rename::given(c1, Kind::Sub, name), uses::body_uses(body), 0);
}

proof fn lemma_known(t: DeclTableV, c: NamesV, n: nat)
    ensures
        follows(c, rename::known_entered(t, c, n)),
    decreases n,
{
    if n > 0 {
        lemma_known(t, c, (n - 1) as nat);
        let name = ast::builtin_subs()[n - 1];
        match rename::body_of(t, name) {
            Some(body) => lemma_entered(
                t,
                rename::known_entered(t, c, (n - 1) as nat),
                name,
                body,
            ),
            None => {},
        }
    }
}

proof fn lemma_others(t: DeclTableV, c: NamesV, ds: Seq<DeclV>, n: nat)
    ensures
        follows(c, rename::others_entered(t, c, ds, n)),
    decreases n,
{
    if n > 0 {
        lemma_others(t, c, ds, (n - 1) as nat);
        match ds[n - 1] {
            DeclV::Sub { name, body, .. } => lemma_entered(
                t,
                rename::others_entered(t, c, ds, (n - 1) as nat),
                name,
                body,
            ),
            _ => {},
        }
    }
}

proof fn lemma_all_given(c: NamesV, k: Kind, s: Seq<(KeyV, Seq<char>)>, n: nat)
    requires
        n <= s.len(),
    ensures
        follows(c, rename::all_given(c, k, s, n)),
        forall|i: int|
            0 <= i < n ==> rename::assigned_name(
                rename::all_given(c, k, s, n).assigned,
                k,
                (#[trigger] s[i]).1,
            ) is Some,
    decreases n,
{
    if n > 0 {
        lemma_all_given(c, k, s, (n - 1) as nat);
        let before = rename::all_given(c, k, s, (n - 1) as nat);
        let after = rename::all_given(c, k, s, n);
        lemma_given(before, k, s[n - 1].1);
        lemma_given_named(before, k, s[n - 1].1);
        assert forall|i: int| 0 <= i < n implies rename::assigned_name(
            after.assigned,
            k,
            (#[trigger] s[i]).1,
        ) is Some by {
            if i < n - 1 {
                lemma_named_grows(before.assigned, after.assigned, k, s[i].1);
            }
        }
    }
}

pub(crate) proof fn lemma_given_named(c: NamesV, k: Kind, name: Seq<char>)
    ensures
        rename::assigned_name(rename::given(c, k, name).assigned, k, name) is Some,
{
    let after = rename::given(c, k, name).assigned;
    if rename::assigned_name(c.assigned, k, name) is None {
        assert(after.last().kind == k && after.last().name == name);
    }
}

pub(crate) proof fn lemma_named(s: Seq<AssignedV>, k: Kind, name: Seq<char>)
    ensures
        rename::assigned_name(s, k, name) is Some <==> exists|i: int|
            0 <= i < s.len() && (#[trigger] s[i]).kind == k && s[i].name == name,
    decreases s.len(),
{
    if s.len() > 0 {
        lemma_named(s.drop_last(), k, name);
        if s.last().kind == k && s.last().name == name {
            assert(s[s.len() - 1].kind == k && s[s.len() - 1].name == name);
        } else {
            if rename::assigned_name(s.drop_last(), k, name) is Some {
                let i = choose|i: int|
                    0 <= i < s.len() - 1 && (#[trigger] s.drop_last()[i]).kind == k
                        && s.drop_last()[i].name == name;
                assert(s[i].kind == k && s[i].name == name);
            }
            if exists|i: int| 0 <= i < s.len() && (#[trigger] s[i]).kind == k && s[i].name == name {
                let i = choose|i: int|
                    0 <= i < s.len() && (#[trigger] s[i]).kind == k && s[i].name == name;
                assert(i < s.len() - 1);
                assert(s.drop_last()[i].kind == k && s.drop_last()[i].name == name);
            }
        }
    }
}

pub(crate) proof fn lemma_named_grows(a: Seq<AssignedV>, b: Seq<AssignedV>, k: Kind, name: Seq<char>)
    requires
        a.is_prefix_of(b),
        rename::assigned_name(a, k, name) is Some,
    ensures
        rename::assigned_name(b, k, name) is Some,
{
    lemma_named(a, k, name);
    lemma_named(b, k, name);
    let i = choose|i: int| 0 <= i < a.len() && (#[trigger] a[i]).kind == k && a[i].name == name;
    assert(b[i] == a[i]);
}

proof fn lemma_dead_listed(
    t: DeclTableV,
    c: NamesV,
    k: Kind,
    ds: Seq<DeclV>,
    n: nat,
    i: int,
)
    requires
        0 <= i < n <= ds.len(),
        rename::unused(c, k, ds[i]),
    ensures
        rename::dead_first(t, c, k, ds, n).contains(
            (rename::dead_key(t, c, ds[i]), ast::decl_name(ds[i])),
        ),
    decreases n,
{
    let x = (rename::dead_key(t, c, ds[i]), ast::decl_name(ds[i]));
    let before = rename::dead_first(t, c, k, ds, (n - 1) as nat);
    let all = rename::dead_first(t, c, k, ds, n);
    if i == n - 1 {
        assert(all[before.len() as int] == x);
    } else {
        lemma_dead_listed(t, c, k, ds, (n - 1) as nat, i);
        let j = choose|j: int| 0 <= j < before.len() && before[j] == x;
        assert(all[j] == x);
    }
}

proof fn lemma_dead(t: DeclTableV, c: NamesV, k: Kind, ds: Seq<DeclV>)
    ensures
        follows(c, rename::dead_given(t, c, k, ds)),
        forall|i: int|
            0 <= i < ds.len() && rename::kind_of(#[trigger] ds[i]) == Some(k) && !rename::keeps(
                k,
                ast::decl_name(ds[i]),
            ) ==> rename::assigned_name(
                rename::dead_given(t, c, k, ds).assigned,
                k,
                ast::decl_name(ds[i]),
            ) is Some,
{
    broadcast use {vstd::seq_lib::group_to_multiset_ensures, vstd::multiset::group_multiset_axioms};

    let f = rename::dead_first(t, c, k, ds, ds.len());
    let s = order::sorted(f);
    let after = rename::dead_given(t, c, k, ds);
    lemma_all_given(c, k, s, s.len());
    order::law_sorted_keeps_the_items(f);
    assert forall|i: int|
        0 <= i < ds.len() && rename::kind_of(#[trigger] ds[i]) == Some(k) && !rename::keeps(
            k,
            ast::decl_name(ds[i]),
        ) implies rename::assigned_name(after.assigned, k, ast::decl_name(ds[i])) is Some by {
        let name = ast::decl_name(ds[i]);
        if rename::assigned_name(c.assigned, k, name) is Some {
            lemma_named_grows(c.assigned, after.assigned, k, name);
        } else {
            let x = (rename::dead_key(t, c, ds[i]), name);
            lemma_dead_listed(t, c, k, ds, ds.len(), i);
            assert(f.to_multiset().count(x) > 0);
            assert(s.contains(x));
            let j = choose|j: int| 0 <= j < s.len() && s[j] == x;
            assert(s[j].1 == name);
        }
    }
}

proof fn lemma_default(t: DeclTableV, c: NamesV, ds: Seq<DeclV>)
    ensures
        follows(c, rename::default_given(t, c, ds)),
{
    lemma_touched(t, c, Kind::Backend, "default"@);
}

/// The canonical names are given in order, each only once, and every
/// declaration whose name does not stay gets one.
pub proof fn law_every_declaration_is_named(ds: Seq<DeclV>)
    ensures
        orderly(rename::all_names(ds).assigned),
        forall|i: int, k: Kind|
            0 <= i < ds.len() && #[trigger] rename::kind_of(ds[i]) == Some(k) && !#[trigger] rename::keeps(
                k,
                ast::decl_name(ds[i]),
            ) ==> rename::assigned_name(
                rename::all_names(ds).assigned,
                k,
                ast::decl_name(ds[i]),
            ) is Some,
{
    let t = rename::decl_table(ds, ds.len());
    let n = ast::builtin_subs().len();
    lemma_known(t, rename::no_names(), n);
    lemma_others(t, rename::known_entered(t, rename::no_names(), n), ds, ds.len());
    let c0 = rename::names_used(t, ds);
    lemma_dead(t, c0, Kind::Probe, ds);
    let c1 = rename::dead_given(t, c0, Kind::Probe, ds);
    lemma_default(t, c1, ds);
    let c2 = rename::default_given(t, c1, ds);
    lemma_dead(t, c2, Kind::Backend, ds);
    let c3 = rename::dead_given(t, c2, Kind::Backend, ds);
    lemma_dead(t, c3, Kind::Acl, ds);
    let c4 = rename::dead_given(t, c3, Kind::Acl, ds);
    lemma_dead(t, c4, Kind::Sub, ds);
    let c5 = rename::all_names(ds);
    assert forall|i: int, k: Kind|
        0 <= i < ds.len() && #[trigger] rename::kind_of(ds[i]) == Some(k) && !#[trigger] rename::keeps(
            k,
            ast::decl_name(ds[i]),
        ) implies rename::assigned_name(c5.assigned, k, ast::decl_name(ds[i])) is Some by {
        let name = ast::decl_name(ds[i]);
        match k {
            Kind::Probe => lemma_named_grows(c1.assigned, c5.assigned, k, name),
            Kind::Backend => lemma_named_grows(c3.assigned, c5.assigned, k, name),
            Kind::Acl => lemma_named_grows(c4.assigned, c5.assigned, k, name),
            _ => {},
        }
    }
}

/// What is known when all uses are followed is known when the unused subroutines
/// get their names.
pub(crate) proof fn lemma_names_grow(ds: Seq<DeclV>)
    ensures
        rename::names_used(rename::decl_table(ds, ds.len()), ds).assigned.is_prefix_of(
            invariance::before_dead(ds, Kind::Sub).assigned,
        ),
{
    let t = rename::decl_table(ds, ds.len());
    let c0 = rename::names_used(t, ds);
    lemma_dead(t, c0, Kind::Probe, ds);
    let c1 = rename::dead_given(t, c0, Kind::Probe, ds);
    lemma_default(t, c1, ds);
    let c2 = rename::default_given(t, c1, ds);
    lemma_dead(t, c2, Kind::Backend, ds);
    lemma_dead(t, rename::dead_given(t, c2, Kind::Backend, ds), Kind::Acl, ds);
}

/// Once the unused probes have their names, every probe has one, and so has
/// every object.
pub(crate) proof fn lemma_probes_are_named(ds: Seq<DeclV>, k: Kind)
    requires
        k != Kind::Probe,
    ensures
        objects_named(invariance::before_dead(ds, k)),
        objects_named(rename::all_names(ds)),
        forall|i: int|
            0 <= i < ds.len() && rename::kind_of(#[trigger] ds[i]) == Some(Kind::Probe)
                ==> rename::assigned_name(
                invariance::before_dead(ds, k).assigned,
                Kind::Probe,
                ast::decl_name(ds[i]),
            ) is Some && rename::assigned_name(
                rename::all_names(ds).assigned,
                Kind::Probe,
                ast::decl_name(ds[i]),
            ) is Some,
{
    let t = rename::decl_table(ds, ds.len());
    let n = ast::builtin_subs().len();
    lemma_known(t, rename::no_names(), n);
    lemma_others(t, rename::known_entered(t, rename::no_names(), n), ds, ds.len());
    let c0 = rename::names_used(t, ds);
    lemma_dead(t, c0, Kind::Probe, ds);
    let c1 = rename::dead_given(t, c0, Kind::Probe, ds);
    lemma_default(t, c1, ds);
    let c2 = rename::default_given(t, c1, ds);
    lemma_dead(t, c2, Kind::Backend, ds);
    let c3 = rename::dead_given(t, c2, Kind::Backend, ds);
    lemma_dead(t, c3, Kind::Acl, ds);
    let c4 = rename::dead_given(t, c3, Kind::Acl, ds);
    lemma_dead(t, c4, Kind::Sub, ds);
    assert(objects_named(rename::no_names()));
    let c = invariance::before_dead(ds, k);
    let c5 = rename::all_names(ds);
    assert(c1.assigned.is_prefix_of(c.assigned));
    assert(c1.assigned.is_prefix_of(c5.assigned));
    assert forall|i: int|
        0 <= i < ds.len() && rename::kind_of(#[trigger] ds[i]) == Some(
            Kind::Probe,
        ) implies rename::assigned_name(c.assigned, Kind::Probe, ast::decl_name(ds[i])) is Some
        && rename::assigned_name(c5.assigned, Kind::Probe, ast::decl_name(ds[i])) is Some by {
        let name = ast::decl_name(ds[i]);
        assert(!rename::keeps(Kind::Probe, name));
        lemma_named_grows(c1.assigned, c.assigned, Kind::Probe, name);
        lemma_named_grows(c1.assigned, c5.assigned, Kind::Probe, name);
    }
}

// ───────────────────────── the names ─────────────────────────

pub(crate) proof fn lemma_initials()
    ensures
        rename::prefix(Kind::Backend).len() > 0 && rename::prefix(Kind::Backend)[0] == 'b',
        rename::prefix(Kind::Probe).len() > 0 && rename::prefix(Kind::Probe)[0] == 'p',
        rename::prefix(Kind::Acl).len() > 0 && rename::prefix(Kind::Acl)[0] == 'a',
        rename::prefix(Kind::Sub).len() > 0 && rename::prefix(Kind::Sub)[0] == 's',
        rename::prefix(Kind::Obj).len() > 0 && rename::prefix(Kind::Obj)[0] == 'o',
        "default"@.len() > 0 && "default"@[0] == 'd',
        "vcl_"@.len() > 0 && "vcl_"@[0] == 'v',
{
    reveal_strlit("backend");
    reveal_strlit("probe");
    reveal_strlit("acl");
    reveal_strlit("sub");
    reveal_strlit("obj");
    reveal_strlit("default");
    reveal_strlit("vcl_");
}

pub(crate) proof fn lemma_numbered_initial(k: Kind, n: nat)
    ensures
        rename::numbered(k, n).len() > 0,
        rename::numbered(k, n)[0] == rename::prefix(k)[0],
{
    lemma_initials();
}

pub(crate) proof fn lemma_numbered_injective(k: Kind, m: nat, n: nat)
    requires
        rename::numbered(k, m) == rename::numbered(k, n),
    ensures
        m == n,
{
    let head = rename::prefix(k) + "_"@;
    let x = rename::numbered(k, m);
    let y = rename::numbered(k, n);
    assert(x.skip(head.len() as int) =~= text::nat_text(m));
    assert(y.skip(head.len() as int) =~= text::nat_text(n));
    text::lemma_nat_text_injective(m, n);
}

proof fn lemma_numbers_grow(s: Seq<AssignedV>, i: int, k: Kind)
    requires
        0 <= i <= s.len(),
    ensures
        rename::numbers_of(s.take(i), k) <= rename::numbers_of(s, k),
    decreases s.len(),
{
    if i < s.len() {
        lemma_numbers_grow(s.drop_last(), i, k);
        assert(s.drop_last().take(i) =~= s.take(i));
    } else {
        assert(s.take(i) =~= s);
    }
}

/// The `i`th name to be given is the next one of its kind, unless it stays.
pub proof fn law_names_are_numbered(s: Seq<AssignedV>, i: int)
    requires
        orderly(s),
        0 <= i < s.len(),
    ensures
        s[i].canonical == if rename::keeps(s[i].kind, s[i].name) {
            s[i].name
        } else {
            rename::numbered(s[i].kind, rename::numbers_of(s.take(i), s[i].kind) + 1)
        },
        rename::assigned_name(s.take(i), s[i].kind, s[i].name) is None,
    decreases s.len(),
{
    if i < s.len() - 1 {
        law_names_are_numbered(s.drop_last(), i);
        assert(s.drop_last().take(i) =~= s.take(i));
        assert(s.drop_last()[i] == s[i]);
    } else {
        assert(s.drop_last() =~= s.take(i));
    }
}

/// No two names get the same canonical name.
pub proof fn law_canonical_names_differ(s: Seq<AssignedV>, i: int, j: int)
    requires
        orderly(s),
        0 <= i < j < s.len(),
    ensures
        s[i].canonical != s[j].canonical,
        s[i].kind != s[j].kind || s[i].name != s[j].name,
{
    let a = s[i];
    let b = s[j];
    law_names_are_numbered(s, i);
    law_names_are_numbered(s, j);
    lemma_named(s.take(j), b.kind, b.name);
    assert(s.take(j)[i] == a);
    lemma_initials();
    let m = rename::numbers_of(s.take(i), a.kind) + 1;
    let n = rename::numbers_of(s.take(j), b.kind) + 1;
    lemma_numbered_initial(a.kind, m);
    lemma_numbered_initial(b.kind, n);
    if rename::keeps(a.kind, a.name) {
        lemma_kept_initial(a.kind, a.name);
    }
    if rename::keeps(b.kind, b.name) {
        lemma_kept_initial(b.kind, b.name);
    }
    if a.kind == b.kind && !rename::keeps(a.kind, a.name) && !rename::keeps(b.kind, b.name) {
        let t = s.take(i + 1);
        assert(t.drop_last() =~= s.take(i));
        assert(t.last() == a);
        assert(rename::numbers_of(t, a.kind) == m);
        lemma_numbers_grow(s.take(j), i + 1, a.kind);
        assert(s.take(j).take(i + 1) =~= t);
        if a.canonical == b.canonical {
            lemma_numbered_injective(a.kind, m, n);
        }
    }
}

pub(crate) proof fn lemma_kept_initial(k: Kind, name: Seq<char>)
    requires
        rename::keeps(k, name),
    ensures
        name.len() > 0,
        k == Kind::Sub ==> name[0] == 'v',
        k == Kind::Backend ==> name[0] == 'd',
        k == Kind::Sub || k == Kind::Backend,
{
    lemma_initials();
    if k == Kind::Sub {
        let head = name.subrange(0, "vcl_"@.len() as int);
        assert(head[0] == name[0]);
    }
}

/// Hooks and the backend `default` keep their names. Every other name becomes the word
/// for its kind with a number behind it, and of two names of one kind the one that came
/// later has the larger number.
pub proof fn law_names_tell_their_kind(s: Seq<AssignedV>, i: int, j: int)
    requires
        orderly(s),
        0 <= i < j < s.len(),
    ensures
        ({
            let a = s[i];
            let b = s[j];
            let kept = |x: AssignedV|
                (x.kind is Sub && text::begins_with(x.name, "vcl_"@)) || (x.kind is Backend
                    && x.name == "default"@);
            let word = |k: Kind|
                match k {
                    Kind::Backend => "backend"@,
                    Kind::Probe => "probe"@,
                    Kind::Acl => "acl"@,
                    Kind::Sub => "sub"@,
                    Kind::Obj => "obj"@,
                };
            &&& kept(a) ==> a.canonical == a.name
            &&& kept(b) ==> b.canonical == b.name
            &&& !kept(a) && !kept(b) ==> exists|m: nat, n: nat|
                #![trigger text::nat_text(m), text::nat_text(n)]
                0 < m && 0 < n && a.canonical == word(a.kind) + "_"@ + text::nat_text(m)
                    && b.canonical == word(b.kind) + "_"@ + text::nat_text(n) && (a.kind == b.kind
                    ==> m < n)
        }),
{
    law_names_are_numbered(s, i);
    law_names_are_numbered(s, j);
    let a = s[i];
    let b = s[j];
    let m = rename::numbers_of(s.take(i), a.kind) + 1;
    let n = rename::numbers_of(s.take(j), b.kind) + 1;
    if a.kind == b.kind && !rename::keeps(a.kind, a.name) {
        let t = s.take(i + 1);
        assert(t.drop_last() =~= s.take(i));
        assert(t.last() == a);
        assert(rename::numbers_of(t, a.kind) == m);
        lemma_numbers_grow(s.take(j), i + 1, a.kind);
        assert(s.take(j).take(i + 1) =~= t);
    }
    assert(text::nat_text(m) == text::nat_text(m) && text::nat_text(n) == text::nat_text(n));
}

proof fn lemma_touched_next(t: DeclTableV, c: NamesV, k: Kind, name: Seq<char>)
    requires
        t.dom().finite(),
        rename::assigned_name(c.assigned, k, name) is None,
    ensures
        ({
            let r = rename::touched(t, c, k, name).assigned;
            &&& c.assigned.len() < r.len()
            &&& r[c.assigned.len() as int].kind == k
            &&& r[c.assigned.len() as int].name == name
        }),
{
    let c1 = rename::given(c, k, name);
    let n = c.assigned.len() as int;
    assert(c1.assigned[n].kind == k && c1.assigned[n].name == name);
    match k {
        Kind::Backend => {
            let fs = rename::fields_of(t, name);
            rename::lemma_probes_grow(c1, fs, fs.len());
            let r = rename::probes_given(c1, fs, fs.len()).assigned;
            assert(r[n] == c1.assigned[n]);
        },
        Kind::Sub => {
            if !c1.visited.contains(name) {
                let c2 = NamesV { visited: c1.visited.insert(name), ..c1 };
                match rename::body_of(t, name) {
                    Some(body) => {
                        rename::lemma_used_from_grows(t, c2, uses::body_uses(body), 0);
                        let r = rename::used_from(t, c2, uses::body_uses(body), 0).assigned;
                        assert(r[n] == c2.assigned[n]);
                    },
                    None => {},
                }
            }
        },
        _ => {},
    }
}

/// Names get their numbers in the order in which they are first used: what has a name
/// keeps its place, and the next place goes to what is used next.
pub proof fn law_the_next_use_is_named_next(
    t: DeclTableV,
    c: NamesV,
    us: Seq<UseV>,
    n: Seq<char>,
    k: Kind,
)
    requires
        t.dom().finite(),
        us.len() > 0,
        us[0] == UseV::Name(n),
        !c.objects.contains(n),
        t.contains_key(n) && rename::kind_of(t[n]) == Some(k),
        rename::assigned_name(c.assigned, k, n) is None,
    ensures
        ({
            let r = rename::used_from(t, c, us, 0).assigned;
            &&& c.assigned.is_prefix_of(r)
            &&& c.assigned.len() < r.len()
            &&& r[c.assigned.len() as int].kind == k
            &&& r[c.assigned.len() as int].name == n
        }),
{
    rename::lemma_used_from_grows(t, c, us, 0);
    let next = rename::used(t, c, us[0]);
    rename::lemma_used_grows(t, c, us[0]);
    rename::lemma_unvisited_grows(t, c.visited, next.visited);
    rename::lemma_used_from_grows(t, next, us, 1);
    lemma_touched_next(t, c, k, n);
    let i = c.assigned.len() as int;
    assert(rename::used_from(t, c, us, 0) == rename::used_from(t, next, us, 1));
    assert(rename::used_from(t, next, us, 1).assigned[i] == next.assigned[i]);
}

} // verus!
