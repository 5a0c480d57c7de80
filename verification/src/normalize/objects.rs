//! The objects that a program makes do not depend on the order of its
//! declarations.

use crate::ast::{ArmV, DeclV, StmtV};
use crate::normalize::vmod_args;
use crate::normalize::vmod_args::InstanceV;
use vstd::prelude::*;

verus! {

/// Whether a statement makes an object under a name.
pub open spec fn makes_stmt(s: StmtV, n: Seq<char>, o: InstanceV) -> bool
    decreases s,
{
    match s {
        StmtV::New { name, vmod, ctor, .. } => name == n && o == (InstanceV { vmod, ctor }),
        StmtV::If { arms, else_body, .. } => makes_arms(arms, n, o) || match else_body {
            Some(b) => makes(b, n, o),
            None => false,
        },
        _ => false,
    }
}

/// Whether one of the statements makes an object under a name.
pub open spec fn makes(ss: Seq<StmtV>, n: Seq<char>, o: InstanceV) -> bool
    decreases ss,
{
    exists|i: int| 0 <= i < ss.len() && makes_stmt(#[trigger] ss[i], n, o)
}

/// Whether one of the arms makes an object under a name.
pub open spec fn makes_arms(arms: Seq<ArmV>, n: Seq<char>, o: InstanceV) -> bool
    decreases arms,
{
    exists|i: int| 0 <= i < arms.len() && makes((#[trigger] arms[i]).body, n, o)
}

/// Whether a declaration makes an object under a name.
pub open spec fn makes_decl(d: DeclV, n: Seq<char>, o: InstanceV) -> bool {
    d matches DeclV::Sub { body, .. } && makes(body, n, o)
}

/// Whether one of the declarations makes an object under a name.
pub open spec fn makes_decls(ds: Seq<DeclV>, n: Seq<char>, o: InstanceV) -> bool {
    exists|i: int| 0 <= i < ds.len() && makes_decl(#[trigger] ds[i], n, o)
}

/// Whether all objects of one name are made alike.
pub open spec fn made_alike(ds: Seq<DeclV>) -> bool {
    forall|n: Seq<char>, o: InstanceV, x: InstanceV|
        #[trigger] makes_decls(ds, n, o) && #[trigger] makes_decls(ds, n, x) ==> o == x
}

/// Whether a table holds what another one held and what was made since.
spec fn extends(
    r: Map<Seq<char>, InstanceV>,
    found: Map<Seq<char>, InstanceV>,
    made: spec_fn(Seq<char>, InstanceV) -> bool,
) -> bool {
    &&& forall|n: Seq<char>|
        #[trigger] r.contains_key(n) ==> (found.contains_key(n) && r[n] == found[n]) || made(
            n,
            r[n],
        )
    &&& forall|n: Seq<char>| found.contains_key(n) ==> #[trigger] r.contains_key(n)
    &&& forall|n: Seq<char>, o: InstanceV| #[trigger] made(n, o) ==> r.contains_key(n)
}

spec fn made_upto(ss: Seq<StmtV>, k: nat) -> spec_fn(Seq<char>, InstanceV) -> bool {
    |n: Seq<char>, o: InstanceV|
        exists|i: int| 0 <= i < k && i < ss.len() && makes_stmt(#[trigger] ss[i], n, o)
}

spec fn made_upto_arm(arms: Seq<ArmV>, k: nat) -> spec_fn(Seq<char>, InstanceV) -> bool {
    |n: Seq<char>, o: InstanceV|
        exists|i: int| 0 <= i < k && i < arms.len() && makes((#[trigger] arms[i]).body, n, o)
}

spec fn made_upto_decl(ds: Seq<DeclV>, k: nat) -> spec_fn(Seq<char>, InstanceV) -> bool {
    |n: Seq<char>, o: InstanceV|
        exists|i: int| 0 <= i < k && i < ds.len() && makes_decl(#[trigger] ds[i], n, o)
}

/// One more thing was made.
proof fn lemma_extends_more(
    r: Map<Seq<char>, InstanceV>,
    mid: Map<Seq<char>, InstanceV>,
    found: Map<Seq<char>, InstanceV>,
    f: spec_fn(Seq<char>, InstanceV) -> bool,
    g: spec_fn(Seq<char>, InstanceV) -> bool,
    h: spec_fn(Seq<char>, InstanceV) -> bool,
)
    requires
        extends(mid, found, f),
        extends(r, mid, g),
        forall|n: Seq<char>, o: InstanceV| #[trigger] h(n, o) == (f(n, o) || g(n, o)),
    ensures
        extends(r, found, h),
{
    assert forall|n: Seq<char>| #[trigger] r.contains_key(n) implies (found.contains_key(n) && r[n]
        == found[n]) || h(n, r[n]) by {
        if mid.contains_key(n) && r[n] == mid[n] {
            assert(mid.contains_key(n));
            assert(h(n, r[n]) == (f(n, r[n]) || g(n, r[n])));
        } else {
            assert(g(n, r[n]));
            assert(h(n, r[n]) == (f(n, r[n]) || g(n, r[n])));
        }
    }
    assert forall|n: Seq<char>, o: InstanceV| #[trigger] h(n, o) implies r.contains_key(n) by {
        if f(n, o) {
            assert(mid.contains_key(n));
        }
    }
}

proof fn lemma_instances_in(ss: Seq<StmtV>, k: nat, found: Map<Seq<char>, InstanceV>)
    requires
        k <= ss.len(),
    ensures
        extends(vmod_args::instances_in(ss, k, found), found, made_upto(ss, k)),
    decreases ss, k,
{
    if k > 0 {
        let s = ss[k - 1];
        let f = made_upto(ss, (k - 1) as nat);
        let h = made_upto(ss, k);
        let g = |n: Seq<char>, o: InstanceV| makes_stmt(s, n, o);
        let mid = vmod_args::instances_in(ss, (k - 1) as nat, found);
        let r = vmod_args::instances_in(ss, k, found);
        lemma_instances_in(ss, (k - 1) as nat, found);
        match s {
            StmtV::New { name, vmod, ctor, .. } => {
                let o = InstanceV { vmod, ctor };
                assert(g(name, o));
                assert(extends(r, mid, g));
            },
            StmtV::If { arms, else_body, .. } => {
                let x = vmod_args::instances_in_arms(arms, arms.len(), mid);
                let ga = made_upto_arm(arms, arms.len());
                lemma_instances_in_arms(arms, arms.len(), mid);
                assert forall|n: Seq<char>, o: InstanceV| #[trigger] ga(n, o) == makes_arms(
                    arms,
                    n,
                    o,
                ) by {}
                match else_body {
                    Some(b) => {
                        let gb = made_upto(b, b.len());
                        lemma_instances_in(b, b.len(), x);
                        assert forall|n: Seq<char>, o: InstanceV| #[trigger] gb(n, o) == makes(
                            b,
                            n,
                            o,
                        ) by {}
                        assert forall|n: Seq<char>, o: InstanceV| #[trigger] g(n, o) == (ga(n, o)
                            || gb(n, o)) by {}
                        lemma_extends_more(r, x, mid, ga, gb, g);
                    },
                    None => {
                        assert forall|n: Seq<char>, o: InstanceV| #[trigger] g(n, o) == ga(
                            n,
                            o,
                        ) by {}
                        assert(extends(r, mid, g));
                    },
                }
            },
            _ => {
                assert(extends(r, mid, g));
            },
        }
        assert forall|n: Seq<char>, o: InstanceV| #[trigger] h(n, o) == (f(n, o) || g(n, o)) by {
            if h(n, o) {
                let i = choose|i: int| 0 <= i < k && i < ss.len() && makes_stmt(ss[i], n, o);
                if i < k - 1 {
                    assert(f(n, o));
                }
            }
            if g(n, o) {
                assert(makes_stmt(ss[k - 1], n, o));
            }
        }
        lemma_extends_more(r, mid, found, f, g, h);
    }
}

proof fn lemma_instances_in_arms(arms: Seq<ArmV>, k: nat, found: Map<Seq<char>, InstanceV>)
    requires
        k <= arms.len(),
    ensures
        extends(vmod_args::instances_in_arms(arms, k, found), found, made_upto_arm(arms, k)),
    decreases arms, k,
{
    if k > 0 {
        let b = arms[k - 1].body;
        let f = made_upto_arm(arms, (k - 1) as nat);
        let h = made_upto_arm(arms, k);
        let g = made_upto(b, b.len());
        let mid = vmod_args::instances_in_arms(arms, (k - 1) as nat, found);
        lemma_instances_in_arms(arms, (k - 1) as nat, found);
        lemma_instances_in(b, b.len(), mid);
        assert forall|n: Seq<char>, o: InstanceV| #[trigger] g(n, o) == makes(b, n, o) by {}
        assert forall|n: Seq<char>, o: InstanceV| #[trigger] h(n, o) == (f(n, o) || g(n, o)) by {
            if h(n, o) {
                let i = choose|i: int| 0 <= i < k && i < arms.len() && makes(arms[i].body, n, o);
                if i < k - 1 {
                    assert(f(n, o));
                }
            }
            if g(n, o) {
                assert(makes(arms[k - 1].body, n, o));
            }
        }
        lemma_extends_more(
            vmod_args::instances_in_arms(arms, k, found),
            mid,
            found,
            f,
            g,
            h,
        );
    }
}

proof fn lemma_instances_of(ds: Seq<DeclV>, k: nat)
    requires
        k <= ds.len(),
    ensures
        extends(vmod_args::instances_of(ds, k), Map::empty(), made_upto_decl(ds, k)),
    decreases k,
{
    if k > 0 {
        let d = ds[k - 1];
        let f = made_upto_decl(ds, (k - 1) as nat);
        let h = made_upto_decl(ds, k);
        let g = |n: Seq<char>, o: InstanceV| makes_decl(d, n, o);
        let mid = vmod_args::instances_of(ds, (k - 1) as nat);
        let r = vmod_args::instances_of(ds, k);
        lemma_instances_of(ds, (k - 1) as nat);
        match d {
            DeclV::Sub { body, .. } => {
                let gb = made_upto(body, body.len());
                lemma_instances_in(body, body.len(), mid);
                assert forall|n: Seq<char>, o: InstanceV| #[trigger] g(n, o) == gb(n, o) by {}
                assert(extends(r, mid, g));
            },
            _ => {
                assert(extends(r, mid, g));
            },
        }
        assert forall|n: Seq<char>, o: InstanceV| #[trigger] h(n, o) == (f(n, o) || g(n, o)) by {
            if h(n, o) {
                let i = choose|i: int| 0 <= i < k && i < ds.len() && makes_decl(ds[i], n, o);
                if i < k - 1 {
                    assert(f(n, o));
                }
            }
            if g(n, o) {
                assert(makes_decl(ds[k - 1], n, o));
            }
        }
        lemma_extends_more(r, mid, Map::empty(), f, g, h);
    }
}

/// The objects by their names do not depend on where they are made.
pub proof fn law_objects_by_name(a: Seq<DeclV>, b: Seq<DeclV>)
    requires
        made_alike(a),
        forall|n: Seq<char>, o: InstanceV| #[trigger] makes_decls(a, n, o) == makes_decls(b, n, o),
    ensures
        vmod_args::instances_of(a, a.len()) == vmod_args::instances_of(b, b.len()),
{
    let x = vmod_args::instances_of(a, a.len());
    let y = vmod_args::instances_of(b, b.len());
    let f = made_upto_decl(a, a.len());
    let g = made_upto_decl(b, b.len());
    lemma_instances_of(a, a.len());
    lemma_instances_of(b, b.len());
    assert forall|n: Seq<char>, o: InstanceV| #[trigger] f(n, o) == makes_decls(a, n, o) by {}
    assert forall|n: Seq<char>, o: InstanceV| #[trigger] g(n, o) == makes_decls(b, n, o) by {}
    assert forall|n: Seq<char>| #[trigger] x.contains_key(n) == y.contains_key(n) by {
        if x.contains_key(n) {
            assert(f(n, x[n]));
            assert(makes_decls(a, n, x[n]));
            assert(g(n, x[n]));
        }
        if y.contains_key(n) {
            assert(g(n, y[n]));
            assert(makes_decls(a, n, y[n]) == makes_decls(b, n, y[n]));
            assert(f(n, y[n]));
        }
    }
    assert forall|n: Seq<char>| #[trigger] x.contains_key(n) implies x[n] == y[n] by {
        assert(f(n, x[n]) && makes_decls(a, n, x[n]));
        assert(y.contains_key(n));
        assert(g(n, y[n]));
        assert(makes_decls(a, n, y[n]) == makes_decls(b, n, y[n]));
    }
    assert(x =~= y);
}

} // verus!
