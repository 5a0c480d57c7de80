//! The passes before the renaming do not look at the order of the declarations:
//! declarations in another order become what the declarations become, in another
//! order and with the lifted probes under other names.

use crate::ast;
use crate::ast::{DeclV, ErrV};
use crate::normalize::commuting;
use crate::normalize::fixpoint;
use crate::normalize::invariance;
use crate::normalize::literals;
use crate::normalize::merge;
use crate::normalize::objects;
use crate::normalize::vmod_args;
use crate::normalize::vmod_args::{InstanceV, KnownV};
use crate::vmod::VmodSpec;
use vstd::prelude::*;

verus! {

// ───────────────────────── orders ─────────────────────────

/// Whether a list holds each of the numbers below `n` once.
pub open spec fn is_order(p: Seq<int>, n: nat) -> bool {
    &&& p.len() == n
    &&& forall|i: int| 0 <= i < n ==> 0 <= #[trigger] p[i] < n
    &&& p.no_duplicates()
}

/// Whether the second list is the first one in that order.
pub open spec fn arranged<T>(a: Seq<T>, b: Seq<T>, p: Seq<int>) -> bool {
    &&& is_order(p, a.len())
    &&& b.len() == a.len()
    &&& forall|j: int| 0 <= j < b.len() ==> #[trigger] b[j] == a[p[j]]
}

/// Lists with the same items differ in their order only.
pub(crate) proof fn lemma_arranged<T>(a: Seq<T>, b: Seq<T>) -> (p: Seq<int>)
    requires
        a.to_multiset() == b.to_multiset(),
    ensures
        arranged(a, b, p),
    decreases b.len(),
{
    broadcast use {vstd::seq_lib::group_to_multiset_ensures, vstd::multiset::group_multiset_axioms};

    invariance::lemma_same_members(a, b);
    if b.len() == 0 {
        seq![]
    } else {
        let d = b.last();
        assert(b[b.len() - 1] == d);
        assert(b.contains(d));
        assert(a.contains(d));
        let k = choose|k: int| 0 <= k < a.len() && a[k] == d;
        let a1 = a.remove(k);
        let b1 = b.drop_last();
        assert(b =~= b1.push(d));
        assert(a1.to_multiset() =~= a.to_multiset().remove(d));
        assert(b.to_multiset() =~= b1.to_multiset().insert(d));
        assert(a1.to_multiset() =~= b1.to_multiset());
        let q = lemma_arranged(a1, b1);
        let p = Seq::new(
            q.len(),
            |i: int|
                if q[i] >= k {
                    q[i] + 1
                } else {
                    q[i]
                },
        ).push(k);
        assert forall|j: int| 0 <= j < b.len() implies #[trigger] b[j] == a[p[j]] by {
            if j < b1.len() {
                assert(b1[j] == a1[q[j]]);
            }
        }
        assert forall|i: int, j: int| 0 <= i < p.len() && 0 <= j < p.len() && i != j implies p[i]
            != p[j] by {
            if i < q.len() && j < q.len() {
                assert(q[i] != q[j]);
            }
        }
        p
    }
}

/// Lists that differ in their order only have the same items.
pub(crate) proof fn lemma_same_items<T>(a: Seq<T>, b: Seq<T>, p: Seq<int>)
    requires
        arranged(a, b, p),
    ensures
        a.to_multiset() == b.to_multiset(),
    decreases b.len(),
{
    broadcast use {vstd::seq_lib::group_to_multiset_ensures, vstd::multiset::group_multiset_axioms};

    if b.len() == 0 {
        assert(a =~= b);
    } else {
        let n = b.len() - 1;
        let k = p[n];
        let a1 = a.remove(k);
        let b1 = b.drop_last();
        let q = Seq::new(
            n as nat,
            |i: int|
                if p[i] > k {
                    p[i] - 1
                } else {
                    p[i]
                },
        );
        assert forall|i: int| 0 <= i < n implies 0 <= #[trigger] q[i] < n by {
            assert(p[i] != p[n]);
        }
        assert forall|i: int, j: int| 0 <= i < q.len() && 0 <= j < q.len() && i != j implies q[i]
            != q[j] by {
            assert(p[i] != p[j]);
            assert(p[i] != p[n]);
            assert(p[j] != p[n]);
        }
        assert forall|j: int| 0 <= j < n implies #[trigger] b1[j] == a1[q[j]] by {
            assert(b[j] == a[p[j]]);
            assert(p[j] != p[n]);
        }
        lemma_same_items(a1, b1, q);
        assert(b =~= b1.push(b[n]));
        assert(b[n] == a[k]);
        assert(a1.to_multiset() =~= a.to_multiset().remove(a[k]));
        assert(a.contains(a[k]));
        assert(a.to_multiset().count(a[k]) > 0);
        assert(a.to_multiset() =~= a1.to_multiset().insert(a[k]));
        assert(b.to_multiset() =~= b1.to_multiset().insert(b[n]));
    }
}

/// Every number is somewhere in an order.
pub(crate) proof fn lemma_onto(p: Seq<int>, n: nat)
    requires
        is_order(p, n),
    ensures
        forall|i: int| 0 <= i < n ==> #[trigger] p.contains(i),
{
    let all = vstd::set_lib::set_int_range(0, n as int);
    let got = p.to_set();
    vstd::set_lib::lemma_int_range(0, n as int);
    p.unique_seq_to_set();
    vstd::seq_lib::seq_to_set_is_finite(p);
    assert(got.subset_of(all)) by {
        assert forall|x: int| got.contains(x) implies all.contains(x) by {
            let i = choose|i: int| 0 <= i < p.len() && p[i] == x;
            assert(0 <= p[i] < n);
        }
    }
    vstd::set_lib::lemma_subset_equality(got, all);
    assert forall|i: int| 0 <= i < n implies #[trigger] p.contains(i) by {
        assert(all.contains(i));
        assert(got.contains(i));
    }
}

// ───────────────────────── the passes ─────────────────────────

/// A declaration after the pass over the arguments of vmod calls.
pub open spec fn passed_decl(d: DeclV, k: KnownV) -> core::result::Result<DeclV, ErrV> {
    match d {
        DeclV::Sub { name, body, span } => match vmod_args::pass_stmts(body, k, body.len()) {
            Err(x) => Err(x),
            Ok(b) => Ok(DeclV::Sub { name, body: b, span }),
        },
        d => Ok(d),
    }
}

pub(crate) proof fn lemma_pass_each(ds: Seq<DeclV>, k: KnownV, n: nat)
    requires
        n <= ds.len(),
    ensures
        match vmod_args::pass_decls(ds, k, n) {
            Ok(r) => r.len() == n && forall|i: int|
                0 <= i < n ==> passed_decl(ds[i], k) == core::result::Result::<DeclV, ErrV>::Ok(
                    #[trigger] r[i],
                ),
            Err(_) => exists|i: int| 0 <= i < n && passed_decl(#[trigger] ds[i], k) is Err,
        },
    decreases n,
{
    if n > 0 {
        lemma_pass_each(ds, k, (n - 1) as nat);
        match vmod_args::pass_decls(ds, k, (n - 1) as nat) {
            Ok(_) => {
                assert(passed_decl(ds[n - 1], k) is Err || passed_decl(ds[n - 1], k) is Ok);
            },
            Err(_) => {
                let i = choose|i: int| 0 <= i < n - 1 && passed_decl(#[trigger] ds[i], k) is Err;
                assert(passed_decl(ds[i], k) is Err);
            },
        }
    }
}

proof fn lemma_lit_makes(ds: Seq<DeclV>)
    ensures
        forall|x: Seq<char>, o: InstanceV| #[trigger]
            objects::makes_decls(literals::lit_decls(ds), x, o) == objects::makes_decls(ds, x, o),
{
    let l = literals::lit_decls(ds);
    assert forall|i: int, x: Seq<char>, o: InstanceV|
        0 <= i < l.len() implies #[trigger] objects::makes_decl(l[i], x, o) == objects::makes_decl(
        ds[i],
        x,
        o,
    ) by {
        match ds[i] {
            DeclV::Sub { body, .. } => fixpoint::lemma_lit_makes(body, x, o),
            _ => {},
        }
    }
    fixpoint::lemma_same_objects(l, ds);
}

proof fn lemma_same_known(a: Seq<DeclV>, b: Seq<DeclV>, specs: Map<Seq<char>, VmodSpec>)
    requires
        a.to_multiset() == b.to_multiset(),
        objects::made_alike(a),
    ensures
        commuting::known_of(literals::lit_decls(a), specs) == commuting::known_of(
            literals::lit_decls(b),
            specs,
        ),
{
    lemma_lit_makes(a);
    lemma_lit_makes(b);
    invariance::lemma_same_members(a, b);
    let la = literals::lit_decls(a);
    let lb = literals::lit_decls(b);
    assert forall|x: Seq<char>, o: InstanceV| #[trigger] objects::makes_decls(la, x, o)
        == objects::makes_decls(lb, x, o) by {
        if objects::makes_decls(a, x, o) {
            let i = choose|i: int| 0 <= i < a.len() && objects::makes_decl(#[trigger] a[i], x, o);
            assert(a.contains(a[i]));
            assert(b.contains(a[i]));
            let j = choose|j: int| 0 <= j < b.len() && b[j] == a[i];
            assert(objects::makes_decl(b[j], x, o));
        }
        if objects::makes_decls(b, x, o) {
            let i = choose|i: int| 0 <= i < b.len() && objects::makes_decl(#[trigger] b[i], x, o);
            assert(b.contains(b[i]));
            assert(a.contains(b[i]));
            let j = choose|j: int| 0 <= j < a.len() && a[j] == b[i];
            assert(objects::makes_decl(a[j], x, o));
        }
    }
    objects::law_objects_by_name(la, lb);
}

/// Declarations in another order come out of the first two passes in that order.
pub(crate) proof fn lemma_passed(
    a: Seq<DeclV>,
    b: Seq<DeclV>,
    p: Seq<int>,
    specs: Map<Seq<char>, VmodSpec>,
)
    requires
        arranged(a, b, p),
        objects::made_alike(a),
    ensures
        match (commuting::passed(a, specs), commuting::passed(b, specs)) {
            (Ok(x), Ok(y)) => {
                &&& arranged(x, y, p)
                &&& in_order(a, b) ==> in_order(x, y)
            },
            (Err(_), Err(_)) => true,
            _ => false,
        },
{
    lemma_same_items(a, b, p);
    lemma_same_known(a, b, specs);
    lemma_onto(p, a.len());
    let la = literals::lit_decls(a);
    let lb = literals::lit_decls(b);
    let k = commuting::known_of(la, specs);
    lemma_pass_each(la, k, la.len());
    lemma_pass_each(lb, k, lb.len());
    let g = |d: DeclV| passed_decl(literals::lit_decl(d), k)->Ok_0;
    match (commuting::passed(a, specs), commuting::passed(b, specs)) {
        (Ok(x), Ok(y)) => {
            assert forall|j: int| 0 <= j < y.len() implies #[trigger] y[j] == x[p[j]] by {
                assert(b[j] == a[p[j]]);
                assert(lb[j] == la[p[j]]);
                assert(passed_decl(la[p[j]], k) == core::result::Result::<DeclV, ErrV>::Ok(
                    x[p[j]],
                ));
            }
            if in_order(a, b) {
                assert forall|i: int| 0 <= i < a.len() implies same_head(a[i], #[trigger] x[i])
                    && x[i] == g(a[i]) by {
                    assert(passed_decl(la[i], k) == core::result::Result::<DeclV, ErrV>::Ok(x[i]));
                }
                assert forall|i: int| 0 <= i < b.len() implies same_head(b[i], #[trigger] y[i])
                    && y[i] == g(b[i]) by {
                    assert(passed_decl(lb[i], k) == core::result::Result::<DeclV, ErrV>::Ok(y[i]));
                }
                lemma_in_order_mapped(a, b, x, y, g);
            }
        },
        (Ok(x), Err(_)) => {
            let j = choose|j: int| 0 <= j < lb.len() && passed_decl(#[trigger] lb[j], k) is Err;
            assert(b[j] == a[p[j]]);
            assert(lb[j] == la[p[j]]);
            assert(passed_decl(la[p[j]], k) == core::result::Result::<DeclV, ErrV>::Ok(x[p[j]]));
            assert(false);
        },
        (Err(_), Ok(y)) => {
            let i = choose|i: int| 0 <= i < la.len() && passed_decl(#[trigger] la[i], k) is Err;
            assert(p.contains(i));
            let j = choose|j: int| 0 <= j < p.len() && p[j] == i;
            assert(b[j] == a[p[j]]);
            assert(lb[j] == la[i]);
            assert(passed_decl(lb[j], k) == core::result::Result::<DeclV, ErrV>::Ok(y[j]));
            assert(false);
        },
        _ => {},
    }
}

// ───────────────────────── the pieces of hooks ─────────────────────────

/// Those of the first `n` declarations that are subroutines of a name.
pub open spec fn subs_named(ds: Seq<DeclV>, name: Seq<char>, n: nat) -> Seq<DeclV>
    decreases n,
{
    if n == 0 {
        seq![]
    } else if merge::is_sub(ds[n - 1], name) {
        subs_named(ds, name, (n - 1) as nat).push(ds[n - 1])
    } else {
        subs_named(ds, name, (n - 1) as nat)
    }
}

/// Whether the pieces of every hook stand in the same order, and the hooks
/// outside the fixed order do.
pub open spec fn in_order(a: Seq<DeclV>, b: Seq<DeclV>) -> bool {
    &&& forall|n: Seq<char>|
        ast::builtin_name(n) ==> #[trigger] subs_named(a, n, a.len()) == subs_named(b, n, b.len())
    &&& invariance::other_hooks(a, a.len()) == invariance::other_hooks(b, b.len())
}

/// Whether two declarations are subroutines of one name, or no subroutines.
pub open spec fn same_head(c: DeclV, d: DeclV) -> bool {
    match (c, d) {
        (DeclV::Sub { name: m, .. }, DeclV::Sub { name: n, .. }) => m == n,
        (DeclV::Sub { .. }, _) => false,
        (_, DeclV::Sub { .. }) => false,
        _ => true,
    }
}

proof fn lemma_subs_mapped(
    a: Seq<DeclV>,
    x: Seq<DeclV>,
    g: spec_fn(DeclV) -> DeclV,
    name: Seq<char>,
    n: nat,
)
    requires
        n <= a.len(),
        n <= x.len(),
        forall|i: int| 0 <= i < n ==> same_head(a[i], #[trigger] x[i]) && x[i] == g(a[i]),
    ensures
        subs_named(x, name, n) == subs_named(a, name, n).map_values(g),
        invariance::other_hooks(x, n) == invariance::other_hooks(a, n).map_values(g),
    decreases n,
{
    if n > 0 {
        lemma_subs_mapped(a, x, g, name, (n - 1) as nat);
        assert(same_head(a[n - 1], x[n - 1]) && x[n - 1] == g(a[n - 1]));
    }
    assert(subs_named(x, name, n) =~= subs_named(a, name, n).map_values(g));
    assert(invariance::other_hooks(x, n) =~= invariance::other_hooks(a, n).map_values(g));
}

proof fn lemma_in_order_mapped(
    a: Seq<DeclV>,
    b: Seq<DeclV>,
    x: Seq<DeclV>,
    y: Seq<DeclV>,
    g: spec_fn(DeclV) -> DeclV,
)
    requires
        in_order(a, b),
        x.len() == a.len(),
        y.len() == b.len(),
        forall|i: int| 0 <= i < a.len() ==> same_head(a[i], #[trigger] x[i]) && x[i] == g(a[i]),
        forall|i: int| 0 <= i < b.len() ==> same_head(b[i], #[trigger] y[i]) && y[i] == g(b[i]),
    ensures
        in_order(x, y),
{
    assert forall|n: Seq<char>| ast::builtin_name(n) implies #[trigger] subs_named(x, n, x.len())
        == subs_named(y, n, y.len()) by {
        lemma_subs_mapped(a, x, g, n, a.len());
        lemma_subs_mapped(b, y, g, n, b.len());
        assert(subs_named(a, n, a.len()) == subs_named(b, n, b.len()));
    }
    lemma_subs_mapped(a, x, g, seq![], a.len());
    lemma_subs_mapped(b, y, g, seq![], b.len());
}

/// Lists with the same subroutines at the same places.
pub(crate) proof fn lemma_subs_alone(a: Seq<DeclV>, x: Seq<DeclV>, name: Seq<char>, n: nat)
    requires
        n <= a.len(),
        n <= x.len(),
        forall|i: int| 0 <= i < n && (a[i] is Sub || x[i] is Sub) ==> a[i] == #[trigger] x[i],
    ensures
        subs_named(x, name, n) == subs_named(a, name, n),
        invariance::other_hooks(x, n) == invariance::other_hooks(a, n),
    decreases n,
{
    if n > 0 {
        lemma_subs_alone(a, x, name, (n - 1) as nat);
        assert(a[n - 1] is Sub || x[n - 1] is Sub ==> a[n - 1] == x[n - 1]);
    }
}

/// Behind the last subroutine nothing is picked.
pub(crate) proof fn lemma_no_more_subs(x: Seq<DeclV>, name: Seq<char>, from: nat, n: nat)
    requires
        from <= n <= x.len(),
        forall|i: int| from <= i < n ==> !(#[trigger] x[i] is Sub),
    ensures
        subs_named(x, name, n) == subs_named(x, name, from),
        invariance::other_hooks(x, n) == invariance::other_hooks(x, from),
    decreases n,
{
    if from < n {
        lemma_no_more_subs(x, name, from, (n - 1) as nat);
        assert(!(x[n - 1] is Sub));
    }
}

} // verus!
