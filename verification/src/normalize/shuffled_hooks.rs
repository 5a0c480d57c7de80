//! Merging the pieces of the hooks looks neither at the order of the other
//! declarations nor at names.

use crate::ast;
use crate::ast::{ArgV, ArmV, DeclV, ExprV, StmtV};
use crate::normalize::invariance;
use crate::normalize::merge;
use crate::normalize::renaming;
use crate::normalize::renaming::RenamingV;
use crate::normalize::shuffle;
use vstd::prelude::*;

verus! {

// ───────────────────────── the order of the declarations ─────────────────────────

/// The statements of pieces, one piece behind the other.
spec fn joined(s: Seq<DeclV>) -> Seq<StmtV>
    decreases s.len(),
{
    if s.len() == 0 {
        seq![]
    } else {
        joined(s.drop_last()) + s.last()->Sub_body
    }
}

proof fn lemma_pieces(ds: Seq<DeclV>, name: Seq<char>, n: nat)
    requires
        n <= ds.len(),
    ensures
        merge::pieces(ds, name, n) == joined(shuffle::subs_named(ds, name, n)),
    decreases n,
{
    if n > 0 {
        lemma_pieces(ds, name, (n - 1) as nat);
        let b = shuffle::subs_named(ds, name, (n - 1) as nat);
        if merge::is_sub(ds[n - 1], name) {
            assert(b.push(ds[n - 1]).drop_last() =~= b);
        }
    }
}

/// Whether a declaration is a piece of a hook.
spec fn is_hook(d: DeclV) -> bool {
    d is Sub && ast::builtin_name(d->Sub_name)
}

proof fn lemma_others_count(ds: Seq<DeclV>, d: DeclV)
    requires
        !is_hook(d),
    ensures
        merge::others(ds).to_multiset().count(d) == ds.to_multiset().count(d),
    decreases ds.len(),
{
    broadcast use {vstd::seq_lib::group_to_multiset_ensures, vstd::multiset::group_multiset_axioms};

    if ds.len() > 0 {
        lemma_others_count(ds.drop_last(), d);
        assert(ds =~= ds.drop_last().push(ds.last()));
    } else {
        assert(merge::others(ds) =~= ds);
    }
}

/// Whether the subroutines have no places.
pub open spec fn placeless(ds: Seq<DeclV>) -> bool {
    forall|i: int|
        0 <= i < ds.len() && (#[trigger] ds[i]) is Sub ==> ds[i]->Sub_span == ast::dummy_span()
}

proof fn lemma_placeless(ds: Seq<DeclV>, n: nat)
    requires
        n <= ds.len(),
        placeless(ds),
    ensures
        placeless(merge::merged_first(ds, n)),
    decreases n,
{
    if n > 0 {
        lemma_placeless(ds, (n - 1) as nat);
        let m = merge::merged_first(ds, (n - 1) as nat);
        let d = ds[n - 1];
        if d is Sub {
            merge::lemma_sub_at(m, d->Sub_name, 0);
        }
        let r = merge::merged_first(ds, n);
        assert forall|i: int| 0 <= i < r.len() && (#[trigger] r[i]) is Sub implies r[i]->Sub_span
            == ast::dummy_span() by {
            if i < m.len() {
                assert(m[i] is Sub ==> m[i]->Sub_span == ast::dummy_span());
            }
        }
    }
}

/// A merged hook of one list is one of the other.
proof fn lemma_hook_of_both(a: Seq<DeclV>, b: Seq<DeclV>, d: DeclV)
    requires
        a.to_multiset() == b.to_multiset(),
        shuffle::in_order(a, b),
        placeless(a),
        placeless(b),
        is_hook(d),
        merge::merged_first(a, a.len()).contains(d),
    ensures
        merge::merged_first(b, b.len()).contains(d),
{
    let name = d->Sub_name;
    let x = merge::merged_first(a, a.len());
    let y = merge::merged_first(b, b.len());
    let i = choose|i: int| 0 <= i < x.len() && x[i] == d;
    merge::lemma_joined(a, name, a.len());
    merge::lemma_joined(b, name, b.len());
    merge::lemma_once(a, a.len());
    merge::lemma_sub_at(x, name, 0);
    merge::lemma_sub_at(y, name, 0);
    let at = merge::sub_at(x, name, 0) as int;
    assert(merge::is_sub(x[i], name));
    assert(at <= i);
    assert(merge::is_sub(x[at], name));
    assert(at == i);
    invariance::lemma_same_members(a, b);
    let k = choose|k: int| 0 <= k < a.len() && merge::is_sub(#[trigger] a[k], name);
    assert(a.contains(a[k]));
    assert(b.contains(a[k]));
    let l = choose|l: int| 0 <= l < b.len() && b[l] == a[k];
    assert(merge::is_sub(b[l], name));
    assert(merge::declared(b, name, b.len()));
    let to = merge::sub_at(y, name, 0) as int;
    lemma_pieces(a, name, a.len());
    lemma_pieces(b, name, b.len());
    assert(shuffle::subs_named(a, name, a.len()) == shuffle::subs_named(b, name, b.len()));
    lemma_placeless(a, a.len());
    lemma_placeless(b, b.len());
    assert(x[i] is Sub && y[to] is Sub);
    assert(y[to] == d);
}

proof fn lemma_hook_count(a: Seq<DeclV>, d: DeclV)
    requires
        is_hook(d),
    ensures
        merge::merged_first(a, a.len()).to_multiset().count(d) == (if merge::merged_first(
            a,
            a.len(),
        ).contains(d) {
            1nat
        } else {
            0
        }),
{
    broadcast use {vstd::seq_lib::group_to_multiset_ensures, vstd::multiset::group_multiset_axioms};

    let x = merge::merged_first(a, a.len());
    merge::lemma_once(a, a.len());
    invariance::lemma_twice(x, d);
    x.to_multiset_ensures();
    if x.to_multiset().count(d) >= 2 {
        let (i, j) = choose|i: int, j: int|
            0 <= i < j < x.len() && #[trigger] x[i] == d && #[trigger] x[j] == d;
        assert(merge::is_sub(x[i], d->Sub_name));
        assert(merge::is_sub(x[j], d->Sub_name));
        assert(false);
    }
}

/// Merging declarations in another order gives the same declarations.
pub(crate) proof fn lemma_merged_items(a: Seq<DeclV>, b: Seq<DeclV>)
    requires
        a.to_multiset() == b.to_multiset(),
        shuffle::in_order(a, b),
        placeless(a),
        placeless(b),
    ensures
        merge::merged_first(a, a.len()).to_multiset() == merge::merged_first(
            b,
            b.len(),
        ).to_multiset(),
{
    let x = merge::merged_first(a, a.len());
    let y = merge::merged_first(b, b.len());
    assert forall|d: DeclV| #[trigger] x.to_multiset().count(d) == y.to_multiset().count(d) by {
        if is_hook(d) {
            lemma_hook_count(a, d);
            lemma_hook_count(b, d);
            if x.contains(d) {
                lemma_hook_of_both(a, b, d);
            }
            if y.contains(d) {
                assert(shuffle::in_order(b, a)) by {
                    assert forall|n: Seq<char>|
                        ast::builtin_name(n) implies #[trigger] shuffle::subs_named(b, n, b.len())
                        == shuffle::subs_named(a, n, a.len()) by {
                        assert(shuffle::subs_named(a, n, a.len()) == shuffle::subs_named(
                            b,
                            n,
                            b.len(),
                        ));
                    }
                }
                lemma_hook_of_both(b, a, d);
            }
        } else {
            merge::lemma_others_kept(a, a.len());
            merge::lemma_others_kept(b, b.len());
            assert(a.take(a.len() as int) =~= a);
            assert(b.take(b.len() as int) =~= b);
            lemma_others_count(a, d);
            lemma_others_count(b, d);
            lemma_others_count(x, d);
            lemma_others_count(y, d);
        }
    }
    assert(x.to_multiset() =~= y.to_multiset());
}

// ───────────────────────── hooks outside the fixed order ─────────────────────────

proof fn lemma_hooks_before(m: Seq<DeclV>, d: DeclV, at: int, n: nat)
    requires
        0 <= at < m.len(),
        n <= m.len(),
        n <= at || !invariance::is_other_hook(m[at]) && !invariance::is_other_hook(d),
    ensures
        invariance::other_hooks(m.update(at, d), n) == invariance::other_hooks(m, n),
    decreases n,
{
    if n > 0 {
        lemma_hooks_before(m, d, at, (n - 1) as nat);
    }
}

proof fn lemma_hooks_updated(m: Seq<DeclV>, d: DeclV, at: int, n: nat)
    requires
        0 <= at < n <= m.len(),
        invariance::is_other_hook(m[at]),
        invariance::is_other_hook(d),
    ensures
        invariance::other_hooks(m, at as nat).len() < invariance::other_hooks(m, n).len(),
        invariance::other_hooks(m.update(at, d), n) == invariance::other_hooks(m, n).update(
            invariance::other_hooks(m, at as nat).len() as int,
            d,
        ),
        invariance::other_hooks(m, n)[invariance::other_hooks(m, at as nat).len() as int] == m[at],
    decreases n,
{
    let k = invariance::other_hooks(m, at as nat).len() as int;
    if at == n - 1 {
        lemma_hooks_before(m, d, at, at as nat);
        assert(invariance::other_hooks(m.update(at, d), n) =~= invariance::other_hooks(
            m,
            n,
        ).update(k, d));
    } else {
        lemma_hooks_updated(m, d, at, (n - 1) as nat);
        assert(invariance::other_hooks(m.update(at, d), n) =~= invariance::other_hooks(
            m,
            n,
        ).update(k, d));
    }
}

proof fn lemma_hooks_hold(m: Seq<DeclV>, n: nat)
    requires
        n <= m.len(),
    ensures
        forall|i: int|
            0 <= i < invariance::other_hooks(m, n).len() ==> exists|j: int|
                0 <= j < n && m[j] == #[trigger] invariance::other_hooks(m, n)[i],
    decreases n,
{
    if n > 0 {
        lemma_hooks_hold(m, (n - 1) as nat);
        let b = invariance::other_hooks(m, (n - 1) as nat);
        let all = invariance::other_hooks(m, n);
        assert forall|i: int| 0 <= i < all.len() implies exists|j: int|
            0 <= j < n && m[j] == #[trigger] all[i] by {
            if i < b.len() {
                assert(all[i] == b[i]);
                let j = choose|j: int| 0 <= j < n - 1 && m[j] == b[i];
                assert(m[j] == all[i]);
            } else {
                assert(m[n - 1] == all[i]);
            }
        }
    }
}

proof fn lemma_hook_found(m: Seq<DeclV>, name: Seq<char>)
    requires
        ast::builtin_name(name),
        !ast::builtin_subs().contains(name),
    ensures
        ({
            let h = invariance::other_hooks(m, m.len());
            let at = merge::sub_at(m, name, 0);
            &&& (at < m.len()) == (merge::sub_at(h, name, 0) < h.len())
            &&& at < m.len() ==> merge::sub_at(h, name, 0) == invariance::other_hooks(m, at).len()
        }),
{
    let h = invariance::other_hooks(m, m.len());
    merge::lemma_sub_at(m, name, 0);
    merge::lemma_sub_at(h, name, 0);
    let at = merge::sub_at(m, name, 0);
    let to = merge::sub_at(h, name, 0);
    lemma_hooks_hold(m, m.len());
    if to < h.len() {
        let j = choose|j: int| 0 <= j < m.len() && m[j] == h[to as int];
        assert(merge::is_sub(m[j], name));
    }
    if at < m.len() {
        assert(invariance::is_other_hook(m[at as int]));
        lemma_hooks_updated(m, m[at as int], at as int, m.len());
        let k = invariance::other_hooks(m, at).len();
        assert(merge::is_sub(h[k as int], name));
        assert(to <= k);
        if to < k {
            lemma_hooks_hold(m, at);
            lemma_hooks_start(m, at, m.len());
            let b = invariance::other_hooks(m, at);
            assert(b[to as int] == h[to as int]);
            let j = choose|j: int| 0 <= j < at && m[j] == b[to as int];
            assert(merge::is_sub(m[j], name));
            assert(false);
        }
    }
}

proof fn lemma_hooks_start(m: Seq<DeclV>, i: nat, n: nat)
    requires
        i <= n <= m.len(),
    ensures
        invariance::other_hooks(m, i).is_prefix_of(invariance::other_hooks(m, n)),
    decreases n,
{
    if i < n {
        lemma_hooks_start(m, i, (n - 1) as nat);
    }
}

proof fn lemma_hooks_pushed(m: Seq<DeclV>, d: DeclV)
    ensures
        invariance::other_hooks(m.push(d), m.len() + 1) == (if invariance::is_other_hook(d) {
            invariance::other_hooks(m, m.len()).push(d)
        } else {
            invariance::other_hooks(m, m.len())
        }),
{
    lemma_hooks_same(m, m.push(d), m.len());
}

proof fn lemma_hooks_same(a: Seq<DeclV>, b: Seq<DeclV>, n: nat)
    requires
        n <= a.len(),
        n <= b.len(),
        forall|i: int| 0 <= i < n ==> a[i] == #[trigger] b[i],
    ensures
        invariance::other_hooks(a, n) == invariance::other_hooks(b, n),
    decreases n,
{
    if n > 0 {
        lemma_hooks_same(a, b, (n - 1) as nat);
        assert(a[n - 1] == b[n - 1]);
    }
}

/// The hooks outside the fixed order are merged among themselves.
proof fn lemma_merged_hooks(ds: Seq<DeclV>, n: nat)
    requires
        n <= ds.len(),
    ensures
        ({
            let m = merge::merged_first(ds, n);
            let h = invariance::other_hooks(ds, n);
            invariance::other_hooks(m, m.len()) == merge::merged_first(h, h.len())
        }),
    decreases n,
{
    if n > 0 {
        lemma_merged_hooks(ds, (n - 1) as nat);
        let m = merge::merged_first(ds, (n - 1) as nat);
        let h = invariance::other_hooks(ds, (n - 1) as nat);
        let mh = merge::merged_first(h, h.len());
        let d = ds[n - 1];
        assert(invariance::other_hooks(m, m.len()) == mh);
        if d is Sub {
            merge::lemma_sub_at(m, d->Sub_name, 0);
        }
        if invariance::is_other_hook(d) {
            let name = d->Sub_name;
            lemma_hook_found(m, name);
            let all = h.push(d);
            lemma_merged_same(h, all, h.len());
            assert(merge::merged_first(all, all.len()) == merge::merged_with(mh, d));
            if merge::continues(m, d) {
                let at = merge::sub_at(m, name, 0) as int;
                lemma_hooks_updated(m, merge::with_more(m[at], d->Sub_body), at, m.len());
            } else {
                lemma_hooks_pushed(m, d);
            }
        } else if merge::continues(m, d) {
            let at = merge::sub_at(m, d->Sub_name, 0) as int;
            lemma_hooks_before(m, merge::with_more(m[at], d->Sub_body), at, m.len());
        } else {
            lemma_hooks_pushed(m, d);
        }
    }
}

proof fn lemma_merged_same(a: Seq<DeclV>, b: Seq<DeclV>, n: nat)
    requires
        n <= a.len(),
        n <= b.len(),
        forall|i: int| 0 <= i < n ==> a[i] == #[trigger] b[i],
    ensures
        merge::merged_first(a, n) == merge::merged_first(b, n),
    decreases n,
{
    if n > 0 {
        lemma_merged_same(a, b, (n - 1) as nat);
        assert(a[n - 1] == b[n - 1]);
    }
}

/// Merging keeps the order of the hooks outside the fixed order.
pub(crate) proof fn lemma_merged_order(a: Seq<DeclV>, b: Seq<DeclV>)
    requires
        shuffle::in_order(a, b),
    ensures
        ({
            let x = merge::merged_first(a, a.len());
            let y = merge::merged_first(b, b.len());
            invariance::other_hooks(x, x.len()) == invariance::other_hooks(y, y.len())
        }),
{
    lemma_merged_hooks(a, a.len());
    lemma_merged_hooks(b, b.len());
}

// ───────────────────────── names ─────────────────────────

proof fn lemma_renamed_sub_at(ds: Seq<DeclV>, name: Seq<char>, i: nat, m: RenamingV)
    requires
        invariance::one_to_one(m),
        invariance::leaves_kept(m),
        ast::builtin_name(name),
    ensures
        merge::sub_at(renaming::renamed_decls(ds, m), name, i) == merge::sub_at(ds, name, i),
    decreases ds.len() - i,
{
    if i < ds.len() {
        lemma_renamed_sub_at(ds, name, i + 1, m);
        let r = renaming::renamed_decls(ds, m);
        assert(r[i as int] == renaming::renamed_decl(ds[i as int], m));
        assert(renaming::new_name(m, name) == name);
        match ds[i as int] {
            DeclV::Sub { name: n, .. } => {
                assert(renaming::new_name(m, n) == name ==> n == name);
            },
            _ => {},
        }
    }
}

/// Declarations whose names are replaced are merged with their names replaced.
pub(crate) proof fn lemma_merged_names(ds: Seq<DeclV>, n: nat, m: RenamingV)
    requires
        invariance::one_to_one(m),
        invariance::leaves_kept(m),
        n <= ds.len(),
    ensures
        merge::merged_first(renaming::renamed_decls(ds, m), n) == renaming::renamed_decls(
            merge::merged_first(ds, n),
            m,
        ),
    decreases n,
{
    let r = renaming::renamed_decls(ds, m);
    if n > 0 {
        lemma_merged_names(ds, (n - 1) as nat, m);
        let before = merge::merged_first(ds, (n - 1) as nat);
        let rb = renaming::renamed_decls(before, m);
        let d = ds[n - 1];
        assert(r[n - 1] == renaming::renamed_decl(d, m));
        assert(renaming::renamed_decls(before.push(d), m) =~= rb.push(
            renaming::renamed_decl(d, m),
        ));
        match d {
            DeclV::Sub { name, body, .. } => {
                let z = renaming::new_name(m, name);
                if ast::builtin_name(name) {
                    assert(z == name);
                    lemma_renamed_sub_at(before, name, 0, m);
                    merge::lemma_sub_at(before, name, 0);
                    let i = merge::sub_at(before, name, 0) as int;
                    if merge::continues(before, d) {
                        match before[i] {
                            DeclV::Sub { body: b, .. } => {
                                assert(renaming::renamed_stmts(b + body, m)
                                    =~= renaming::renamed_stmts(b, m) + renaming::renamed_stmts(
                                    body,
                                    m,
                                ));
                            },
                            _ => {},
                        }
                        assert(renaming::renamed_decls(
                            before.update(i, merge::with_more(before[i], body)),
                            m,
                        ) =~= rb.update(
                            i,
                            merge::with_more(
                                renaming::renamed_decl(before[i], m),
                                renaming::renamed_stmts(body, m),
                            ),
                        ));
                    }
                } else if ast::builtin_name(z) {
                    assert(renaming::new_name(m, z) == z);
                    assert(false);
                }
            },
            _ => {},
        }
    } else {
        assert(merge::merged_first(r, 0) =~= renaming::renamed_decls(
            merge::merged_first(ds, 0),
            m,
        ));
    }
}

// ───────────────────────── names that stay ─────────────────────────

proof fn lemma_no_parts(parts: Seq<Seq<char>>)
    ensures
        renaming::renamed_parts(parts, Map::empty()) == parts,
{
    assert(renaming::renamed_parts(parts, Map::empty()) =~= parts);
}

proof fn lemma_no_expr(e: ExprV)
    ensures
        renaming::renamed_expr(e, Map::empty()) == e,
    decreases e,
{
    match e {
        ExprV::Var(parts) => lemma_no_parts(parts),
        ExprV::Call { target, args } => {
            lemma_no_parts(target);
            lemma_no_args(args);
        },
        ExprV::Unary { expr, .. } => lemma_no_expr(*expr),
        ExprV::Binary { lhs, rhs, .. } => {
            lemma_no_expr(*lhs);
            lemma_no_expr(*rhs);
        },
        _ => {},
    }
}

proof fn lemma_no_args(s: Seq<ArgV>)
    ensures
        renaming::renamed_args(s, Map::empty()) == s,
    decreases s,
{
    let r = renaming::renamed_args(s, Map::empty());
    assert forall|i: int| 0 <= i < s.len() implies r[i] == s[i] by {
        lemma_no_expr(s[i].value);
        assert(r[i] == renaming::renamed_arg(s[i], Map::empty()));
    }
    assert(r =~= s);
}

proof fn lemma_no_stmt(s: StmtV)
    ensures
        renaming::renamed_stmt(s, Map::empty()) == s,
    decreases s,
{
    match s {
        StmtV::Assign { rhs, .. } => lemma_no_expr(rhs),
        StmtV::Return { action: Some(a), .. } => {
            let r = renaming::renamed_exprs(a.args, Map::empty());
            assert forall|i: int| 0 <= i < a.args.len() implies r[i] == a.args[i] by {
                lemma_no_expr(a.args[i]);
            }
            assert(r =~= a.args);
        },
        StmtV::Synthetic { value, .. } => lemma_no_expr(value),
        StmtV::If { arms, else_body, .. } => {
            lemma_no_arms(arms);
            match else_body {
                Some(b) => lemma_no_stmts(b),
                None => {},
            }
        },
        StmtV::New { args, .. } => lemma_no_args(args),
        StmtV::Expr { expr, .. } => lemma_no_expr(expr),
        _ => {},
    }
}

proof fn lemma_no_stmts(s: Seq<StmtV>)
    ensures
        renaming::renamed_stmts(s, Map::empty()) == s,
    decreases s,
{
    let r = renaming::renamed_stmts(s, Map::empty());
    assert forall|i: int| 0 <= i < s.len() implies r[i] == s[i] by {
        lemma_no_stmt(s[i]);
        assert(r[i] == renaming::renamed_stmt(s[i], Map::empty()));
    }
    assert(r =~= s);
}

proof fn lemma_no_arms(s: Seq<ArmV>)
    ensures
        renaming::renamed_arms(s, Map::empty()) == s,
    decreases s,
{
    let r = renaming::renamed_arms(s, Map::empty());
    assert forall|i: int| 0 <= i < s.len() implies r[i] == s[i] by {
        lemma_no_expr(s[i].cond);
        lemma_no_stmts(s[i].body);
        assert(r[i] == renaming::renamed_arm(s[i], Map::empty()));
    }
    assert(r =~= s);
}

/// A renaming that leaves every name that a declaration holds leaves the
/// declaration.
pub(crate) proof fn lemma_stays(d: DeclV, m: RenamingV)
    requires
        forall|n: Seq<char>| #[trigger]
            invariance::holds_name(d, n) ==> renaming::new_name(m, n) == n,
    ensures
        renaming::renamed_decl(d, m) == d,
{
    let none = RenamingV::empty();
    match d {
        DeclV::Backend { body: Some(fs), .. } => {
            assert(renaming::renamed_fields(fs, none) =~= fs);
        },
        DeclV::Sub { body, .. } => lemma_no_stmts(body),
        _ => {},
    }
    assert forall|n: Seq<char>| #[trigger] invariance::holds_name(d, n) implies invariance::agree_on(
        n,
        none,
        none,
        m,
    ) by {}
    invariance::lemma_holds_agree(d, none, none, m);
    invariance::lemma_twice_decl(d, none, none, m);
}

} // verus!
