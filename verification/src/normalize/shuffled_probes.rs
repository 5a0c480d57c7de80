//! The order of the backends decides under which names their probes are lifted,
//! and nothing else.

use crate::ast;
use crate::ast::{DeclV, FieldV};
use crate::normalize::invariance;
use crate::normalize::probes;
use crate::normalize::renaming;
use crate::normalize::renaming::RenamingV;
use crate::normalize::shuffle;
use crate::text;
use vstd::prelude::*;
use vstd::string::*;

verus! {

// ───────────────────────── where the probes of a backend go ─────────────────────────

/// The probes written in place in a declaration, counted from one.
spec fn own_probes(d: DeclV) -> Seq<DeclV> {
    probes::field_probes(probes::backend_fields(d), probes::backend_fields(d).len(), 0)
}

/// How many probes are lifted before those of declaration `i`.
spec fn before(ds: Seq<DeclV>, i: int) -> int {
    probes::all_probes(ds, i as nat).len() as int
}

/// A probe under another name.
spec fn under(d: DeclV, name: Seq<char>) -> DeclV {
    match d {
        DeclV::Probe { body, span, .. } => DeclV::Probe { name, body, span },
        d => d,
    }
}

proof fn lemma_field_probes(fs: Seq<FieldV>, n: nat, base: nat)
    requires
        n <= fs.len(),
    ensures
        probes::field_probes(fs, n, base).len() == probes::field_probes(fs, n, 0).len(),
        forall|c: int|
            0 <= c < probes::field_probes(fs, n, base).len() ==> #[trigger] probes::field_probes(
                fs,
                n,
                base,
            )[c] == under(
                probes::field_probes(fs, n, 0)[c],
                probes::anon_name((base + c + 1) as nat),
            ) && probes::field_probes(fs, n, 0)[c] is Probe,
    decreases n,
{
    if n > 0 {
        lemma_field_probes(fs, (n - 1) as nat, base);
        let a = probes::field_probes(fs, (n - 1) as nat, base);
        let all = probes::field_probes(fs, n, base);
        let z = probes::field_probes(fs, (n - 1) as nat, 0);
        let zs = probes::field_probes(fs, n, 0);
        assert forall|c: int| 0 <= c < all.len() implies #[trigger] all[c] == under(
            zs[c],
            probes::anon_name((base + c + 1) as nat),
        ) && zs[c] is Probe by {
            if c < a.len() {
                assert(all[c] == a[c]);
                assert(zs[c] == z[c]);
            }
        }
    }
}

proof fn lemma_before(ds: Seq<DeclV>, i: int)
    requires
        0 <= i < ds.len(),
    ensures
        before(ds, i + 1) == before(ds, i) + own_probes(ds[i]).len(),
{
    let fs = probes::backend_fields(ds[i]);
    lemma_field_probes(fs, fs.len(), probes::all_probes(ds, i as nat).len());
}

proof fn lemma_before_grows(ds: Seq<DeclV>, i: int, j: int)
    requires
        0 <= i <= j <= ds.len(),
    ensures
        before(ds, i) <= before(ds, j),
    decreases j - i,
{
    if i < j {
        lemma_before_grows(ds, i, j - 1);
        lemma_before(ds, j - 1);
    }
}

/// The lifted probe `c` of declaration `i`.
proof fn lemma_lifted_probe(ds: Seq<DeclV>, n: nat, i: int, c: int)
    requires
        0 <= i < n <= ds.len(),
        0 <= c < own_probes(ds[i]).len(),
    ensures
        before(ds, i) + c < before(ds, n as int),
        probes::all_probes(ds, n)[before(ds, i) + c] == under(
            own_probes(ds[i])[c],
            probes::anon_name((before(ds, i) + c + 1) as nat),
        ),
        own_probes(ds[i])[c] is Probe,
    decreases n,
{
    let b = probes::all_probes(ds, (n - 1) as nat);
    let fs = probes::backend_fields(ds[n - 1]);
    lemma_field_probes(fs, fs.len(), b.len());
    lemma_before(ds, n - 1);
    if i == n - 1 {
        let more = probes::field_probes(fs, fs.len(), b.len());
        assert(probes::all_probes(ds, n)[before(ds, i) + c] == more[c]);
    } else {
        lemma_lifted_probe(ds, (n - 1) as nat, i, c);
        assert(probes::all_probes(ds, n)[before(ds, i) + c] == b[before(ds, i) + c]);
    }
}

/// The declaration that a lifted probe comes from.
proof fn lemma_locate(ds: Seq<DeclV>, n: nat, k: int) -> (i: int)
    requires
        n <= ds.len(),
        0 <= k < before(ds, n as int),
    ensures
        0 <= i < n,
        before(ds, i) <= k < before(ds, i) + own_probes(ds[i]).len(),
    decreases n,
{
    if n == 0 {
        assert(false);
        0
    } else {
        lemma_before(ds, n - 1);
        if before(ds, n - 1) <= k {
            n - 1
        } else {
            lemma_locate(ds, (n - 1) as nat, k)
        }
    }
}

// ───────────────────────── the order of the lifted probes ─────────────────────────

/// Where the probes of the first `j` declarations stood before these were put
/// into another order.
spec fn places(x: Seq<DeclV>, p: Seq<int>, j: nat) -> Seq<int>
    decreases j,
{
    if j == 0 {
        seq![]
    } else {
        places(x, p, (j - 1) as nat) + Seq::new(
            own_probes(x[p[j - 1]]).len(),
            |c: int| before(x, p[j - 1]) + c,
        )
    }
}

proof fn lemma_places(x: Seq<DeclV>, y: Seq<DeclV>, p: Seq<int>, n: nat)
    requires
        shuffle::arranged(x, y, p),
        n <= y.len(),
    ensures
        places(x, p, n).len() == before(y, n as int),
    decreases n,
{
    if n > 0 {
        lemma_places(x, y, p, (n - 1) as nat);
        lemma_before(y, n - 1);
        assert(y[n - 1] == x[p[n - 1]]);
    }
}

proof fn lemma_place(x: Seq<DeclV>, y: Seq<DeclV>, p: Seq<int>, n: nat, j: int, c: int)
    requires
        shuffle::arranged(x, y, p),
        0 <= j < n <= y.len(),
        0 <= c < own_probes(y[j]).len(),
    ensures
        0 <= before(y, j) + c < places(x, p, n).len(),
        places(x, p, n)[before(y, j) + c] == before(x, p[j]) + c,
    decreases n,
{
    lemma_places(x, y, p, (n - 1) as nat);
    lemma_places(x, y, p, n);
    lemma_before(y, n - 1);
    assert(y[n - 1] == x[p[n - 1]]);
    assert(y[j] == x[p[j]]);
    if j < n - 1 {
        lemma_place(x, y, p, (n - 1) as nat, j, c);
    }
}

proof fn lemma_places_order(x: Seq<DeclV>, y: Seq<DeclV>, p: Seq<int>)
    requires
        shuffle::arranged(x, y, p),
    ensures
        shuffle::is_order(places(x, p, y.len()), probes::all_probes(x, x.len()).len()),
        probes::all_probes(x, x.len()).len() == probes::all_probes(y, y.len()).len(),
{
    let n = y.len();
    let t = places(x, p, n);
    let size = before(x, n as int);
    lemma_places(x, y, p, n);
    shuffle::lemma_onto(p, n);
    assert forall|k: int| 0 <= k < t.len() implies 0 <= #[trigger] t[k] < size by {
        let j = lemma_locate(y, n, k);
        let c = k - before(y, j);
        assert(y[j] == x[p[j]]);
        lemma_place(x, y, p, n, j, c);
        lemma_lifted_probe(x, n, p[j], c);
    }
    assert forall|k: int, l: int| 0 <= k < t.len() && 0 <= l < t.len() && k != l implies t[k]
        != t[l] by {
        let j = lemma_locate(y, n, k);
        let i = lemma_locate(y, n, l);
        let c = k - before(y, j);
        let d = l - before(y, i);
        assert(y[j] == x[p[j]]);
        assert(y[i] == x[p[i]]);
        lemma_place(x, y, p, n, j, c);
        lemma_place(x, y, p, n, i, d);
        if t[k] == t[l] {
            if p[j] < p[i] {
                lemma_before(x, p[j]);
                lemma_before_grows(x, p[j] + 1, p[i]);
                assert(false);
            } else if p[i] < p[j] {
                lemma_before(x, p[i]);
                lemma_before_grows(x, p[i] + 1, p[j]);
                assert(false);
            } else {
                assert(i == j);
                assert(false);
            }
        }
    }
    let all = vstd::set_lib::set_int_range(0, size);
    let got = t.to_set();
    vstd::set_lib::lemma_int_range(0, size);
    vstd::seq_lib::seq_to_set_is_finite(t);
    t.unique_seq_to_set();
    assert forall|k: int| #[trigger] got.contains(k) == all.contains(k) by {
        if got.contains(k) {
            let l = choose|l: int| 0 <= l < t.len() && t[l] == k;
            assert(0 <= t[l] < size);
        }
        if all.contains(k) {
            let i = lemma_locate(x, n, k);
            let c = k - before(x, i);
            assert(p.contains(i));
            let j = choose|j: int| 0 <= j < p.len() && p[j] == i;
            assert(y[j] == x[p[j]]);
            lemma_place(x, y, p, n, j, c);
            assert(t[before(y, j) + c] == k);
            assert(t.contains(k));
        }
    }
    assert(got =~= all);
}

// ───────────────────────── the names of the lifted probes ─────────────────────────

pub(crate) proof fn lemma_anon(a: nat, b: nat)
    requires
        probes::anon_name(a) == probes::anon_name(b),
    ensures
        a == b,
{
    let h = "$anon_probe_"@;
    let x = text::nat_text(a);
    let y = text::nat_text(b);
    assert(x =~= probes::anon_name(a).subrange(h.len() as int, probes::anon_name(a).len() as int));
    assert(y =~= probes::anon_name(b).subrange(h.len() as int, probes::anon_name(b).len() as int));
    text::lemma_nat_text_injective(a, b);
}

/// A lifted probe has a name that no program can have.
pub(crate) proof fn lemma_unspeakable(k: nat)
    ensures
        text::begins_with(probes::anon_name(k), "$"@),
{
    reveal_strlit("$anon_probe_");
    reveal_strlit("$");
    let n = probes::anon_name(k);
    assert(n[0] == '$');
    assert(n.subrange(0, 1) =~= "$"@);
}

/// Whether lifted probe `k` has another place, and that name before.
spec fn comes_from(t: Seq<int>, n: Seq<char>, k: int) -> bool {
    0 <= k < t.len() && n == probes::anon_name((t[k] + 1) as nat)
}

/// The renaming of the lifted probes that their new places make.
pub(crate) closed spec fn relifted(t: Seq<int>) -> RenamingV {
    Map::new(
        |n: Seq<char>| exists|k: int| comes_from(t, n, k),
        |n: Seq<char>| probes::anon_name(((choose|k: int| comes_from(t, n, k)) + 1) as nat),
    )
}

proof fn lemma_relifted(t: Seq<int>, k: int)
    requires
        shuffle::is_order(t, t.len()),
        0 <= k < t.len(),
    ensures
        renaming::new_name(relifted(t), probes::anon_name((t[k] + 1) as nat)) == probes::anon_name(
            (k + 1) as nat,
        ),
{
    let n = probes::anon_name((t[k] + 1) as nat);
    assert(comes_from(t, n, k));
    let l = choose|l: int| comes_from(t, n, l);
    assert(comes_from(t, n, l));
    assert(0 <= t[k] && 0 <= t[l]);
    lemma_anon((t[k] + 1) as nat, (t[l] + 1) as nat);
    assert(l == k);
}

/// Whether a renaming leaves every name that a program can have.
pub open spec fn moves_lifted(m: RenamingV) -> bool {
    &&& invariance::one_to_one(m)
    &&& forall|n: Seq<char>|
        !text::begins_with(n, "$"@) ==> #[trigger] renaming::new_name(m, n) == n
}

proof fn lemma_relifted_moves(t: Seq<int>)
    requires
        shuffle::is_order(t, t.len()),
    ensures
        moves_lifted(relifted(t)),
{
    let s = relifted(t);
    assert forall|a: Seq<char>, b: Seq<char>| #[trigger] renaming::new_name(s, a)
        == #[trigger] renaming::new_name(s, b) implies a == b by {
        lemma_relifted_apart(t, a, b);
    }
    assert forall|n: Seq<char>| !text::begins_with(n, "$"@) implies #[trigger] renaming::new_name(
        s,
        n,
    ) == n by {
        if s.contains_key(n) {
            let k = choose|k: int| comes_from(t, n, k);
            lemma_unspeakable((t[k] + 1) as nat);
        }
    }
}

proof fn lemma_relifted_apart(t: Seq<int>, a: Seq<char>, b: Seq<char>)
    requires
        shuffle::is_order(t, t.len()),
        renaming::new_name(relifted(t), a) == renaming::new_name(relifted(t), b),
    ensures
        a == b,
{
    let s = relifted(t);
    shuffle::lemma_onto(t, t.len());
    if s.contains_key(a) {
        let k = choose|k: int| comes_from(t, a, k);
        lemma_relifted(t, k);
        if s.contains_key(b) {
            let l = choose|l: int| comes_from(t, b, l);
            lemma_relifted(t, l);
            lemma_anon((k + 1) as nat, (l + 1) as nat);
        } else {
            assert(t.contains(k));
            let l = choose|l: int| 0 <= l < t.len() && t[l] == k;
            assert(comes_from(t, b, l));
        }
    } else if s.contains_key(b) {
        let k = choose|k: int| comes_from(t, b, k);
        lemma_relifted(t, k);
        assert(t.contains(k));
        let l = choose|l: int| 0 <= l < t.len() && t[l] == k;
        assert(comes_from(t, a, l));
    }
}

// ───────────────────────── lifting ─────────────────────────

proof fn lemma_relifted_fields(fs: Seq<FieldV>, from: nat, to: nat, s: RenamingV)
    requires
        renaming::renamed_fields(fs, s) == fs,
        forall|c: int|
            0 <= c < probes::field_probes(fs, fs.len(), 0).len() ==> renaming::new_name(
                s,
                #[trigger] probes::anon_name((from + c + 1) as nat),
            ) == probes::anon_name((to + c + 1) as nat),
    ensures
        probes::lifted_fields(fs, to) == renaming::renamed_fields(
            probes::lifted_fields(fs, from),
            s,
        ),
{
    let a = probes::lifted_fields(fs, to);
    let b = renaming::renamed_fields(probes::lifted_fields(fs, from), s);
    assert forall|i: int| 0 <= i < fs.len() implies #[trigger] a[i] == b[i] by {
        assert(b[i] == renaming::renamed_field(probes::lifted_field(fs, i, from), s));
        assert(renaming::renamed_fields(fs, s)[i] == renaming::renamed_field(fs[i], s));
        lemma_field_probes(fs, i as nat, from);
        lemma_field_probes(fs, i as nat, to);
        let c = probes::field_probes(fs, i as nat, 0).len() as int;
        if fs[i].value is Probe {
            lemma_fewer(fs, i, fs.len());
            assert(renaming::new_name(s, probes::anon_name((from + c + 1) as nat))
                == probes::anon_name((to + c + 1) as nat));
            assert(from + c + 1 == from + probes::field_probes(fs, i as nat, from).len() + 1);
        }
    }
    assert(a =~= b);
}

/// Before a field with a probe stand fewer probes than there are.
proof fn lemma_fewer(fs: Seq<FieldV>, i: int, n: nat)
    requires
        0 <= i < n <= fs.len(),
        fs[i].value is Probe,
    ensures
        probes::field_probes(fs, i as nat, 0).len() < probes::field_probes(fs, n, 0).len(),
    decreases n,
{
    if i < n - 1 {
        lemma_fewer(fs, i, (n - 1) as nat);
    }
}

/// Whether a probe is lifted under a name.
pub open spec fn names_lifted(ds: Seq<DeclV>, n: Seq<char>) -> bool {
    exists|k: int|
        0 <= k < probes::all_probes(ds, ds.len()).len() && ast::decl_name(
            #[trigger] probes::all_probes(ds, ds.len())[k],
        ) == n
}

/// Where declarations are put into another order, lifting gives the same but for
/// the order and the names of the lifted probes.
pub(crate) proof fn lemma_lifted(x: Seq<DeclV>, y: Seq<DeclV>, p: Seq<int>) -> (s: RenamingV)
    requires
        shuffle::arranged(x, y, p),
        forall|r: RenamingV| #[trigger] moves_lifted(r) ==> renaming::renamed_decls(x, r) == x,
    ensures
        moves_lifted(s),
        renaming::renamed_decls(probes::lifted_decls(x), s).to_multiset() == probes::lifted_decls(
            y,
        ).to_multiset(),
        shuffle::in_order(x, y) ==> shuffle::in_order(
            renaming::renamed_decls(probes::lifted_decls(x), s),
            probes::lifted_decls(y),
        ),
        forall|n: Seq<char>| #[trigger]
            renaming::new_name(s, n) != n ==> names_lifted(x, n),
{
    let n = x.len();
    let t = places(x, p, n);
    let s = relifted(t);
    lemma_places_order(x, y, p);
    lemma_relifted_moves(t);
    assert forall|z: Seq<char>| #[trigger] renaming::new_name(s, z) != z implies names_lifted(
        x,
        z,
    ) by {
        let k = choose|k: int| comes_from(t, z, k);
        assert(0 <= t[k] < probes::all_probes(x, n).len());
        let i = lemma_locate(x, n, t[k]);
        lemma_lifted_probe(x, n, i, t[k] - before(x, i));
        assert(ast::decl_name(probes::all_probes(x, n)[t[k]]) == z);
    }
    assert(renaming::renamed_decls(x, s) == x);
    let px = probes::all_probes(x, n);
    let py = probes::all_probes(y, n);
    let lx = probes::lifted_decls(x);
    let rx = renaming::renamed_decls(lx, s);
    let ly = probes::lifted_decls(y);
    let size = px.len();
    let q = p + Seq::new(size, |k: int| n + t[k]);
    assert forall|j: int| 0 <= j < ly.len() implies #[trigger] ly[j] == rx[q[j]] by {
        if j < n {
            lemma_relifted_decl(x, y, p, j);
            assert(lx[p[j]] == probes::lifted_decl(x, p[j]));
        } else {
            let k = j - n;
            let i = lemma_locate(y, n, k);
            let c = k - before(y, i);
            assert(y[i] == x[p[i]]);
            lemma_place(x, y, p, n, i, c);
            lemma_lifted_probe(y, n, i, c);
            lemma_lifted_probe(x, n, p[i], c);
            assert(t[k] == before(x, p[i]) + c);
            lemma_relifted(t, k);
            assert(q[j] == n + t[k]);
            assert(lx[n + t[k]] == px[t[k]]);
            assert(ly[j] == py[k]);
        }
    }
    assert forall|i: int, j: int| 0 <= i < q.len() && 0 <= j < q.len() && i != j implies q[i]
        != q[j] by {
        if i < n && j < n {
            assert(p[i] != p[j]);
        } else if i >= n && j >= n {
            assert(t[i - n] != t[j - n]);
        } else if i < n {
            assert(0 <= p[i] < n);
            assert(0 <= t[j - n]);
        } else {
            assert(0 <= p[j] < n);
            assert(0 <= t[i - n]);
        }
    }
    assert forall|i: int| 0 <= i < q.len() implies 0 <= #[trigger] q[i] < lx.len() by {
        if i < n {
            assert(0 <= p[i] < n);
        } else {
            assert(0 <= t[i - n] < size);
        }
    }
    shuffle::lemma_same_items(rx, ly, q);
    if shuffle::in_order(x, y) {
        lemma_lifted_in_order(x, y, s);
    }
    s
}

proof fn lemma_relifted_decl(x: Seq<DeclV>, y: Seq<DeclV>, p: Seq<int>, j: int)
    requires
        shuffle::arranged(x, y, p),
        0 <= j < y.len(),
        renaming::renamed_decls(x, relifted(places(x, p, x.len()))) == x,
    ensures
        probes::lifted_decl(y, j) == renaming::renamed_decl(
            probes::lifted_decl(x, p[j]),
            relifted(places(x, p, x.len())),
        ),
{
    let n = x.len();
    let t = places(x, p, n);
    let s = relifted(t);
    let i = p[j];
    lemma_places_order(x, y, p);
    assert(y[j] == x[i]);
    assert(renaming::renamed_decls(x, s)[i] == renaming::renamed_decl(x[i], s));
    match x[i] {
        DeclV::Backend { body: Some(fs), .. } => {
            assert(own_probes(x[i]) == probes::field_probes(fs, fs.len(), 0));
            assert forall|c: int|
                0 <= c < probes::field_probes(fs, fs.len(), 0).len() implies renaming::new_name(
                s,
                #[trigger] probes::anon_name((before(x, i) as nat + c + 1) as nat),
            ) == probes::anon_name((before(y, j) as nat + c + 1) as nat) by {
                lemma_place(x, y, p, n, j, c);
                lemma_relifted(t, before(y, j) + c);
            }
            lemma_relifted_fields(fs, before(x, i) as nat, before(y, j) as nat, s);
        },
        _ => {},
    }
}

pub(crate) proof fn lemma_probes_only(ds: Seq<DeclV>, n: nat)
    requires
        n <= ds.len(),
    ensures
        forall|k: int|
            0 <= k < probes::all_probes(ds, n).len() ==> (#[trigger] probes::all_probes(ds, n)[k])
                is Probe,
{
    assert forall|k: int| 0 <= k < probes::all_probes(ds, n).len() implies (
    #[trigger] probes::all_probes(ds, n)[k]) is Probe by {
        let i = lemma_locate(ds, n, k);
        lemma_lifted_probe(ds, n, i, k - before(ds, i));
    }
}

proof fn lemma_lifted_subs(x: Seq<DeclV>, z: Seq<DeclV>, name: Seq<char>)
    requires
        z.len() == probes::lifted_decls(x).len(),
        forall|i: int|
            0 <= i < x.len() && (x[i] is Sub || z[i] is Sub) ==> x[i] == #[trigger] z[i],
        forall|i: int| x.len() <= i < z.len() ==> !(#[trigger] z[i] is Sub),
    ensures
        shuffle::subs_named(z, name, z.len()) == shuffle::subs_named(x, name, x.len()),
        invariance::other_hooks(z, z.len()) == invariance::other_hooks(x, x.len()),
{
    shuffle::lemma_subs_alone(x, z, name, x.len());
    shuffle::lemma_no_more_subs(z, name, x.len(), z.len());
}

proof fn lemma_lifted_in_order(x: Seq<DeclV>, y: Seq<DeclV>, s: RenamingV)
    requires
        shuffle::in_order(x, y),
        renaming::renamed_decls(x, s) == x,
    ensures
        shuffle::in_order(
            renaming::renamed_decls(probes::lifted_decls(x), s),
            probes::lifted_decls(y),
        ),
{
    let lx = probes::lifted_decls(x);
    let rx = renaming::renamed_decls(lx, s);
    let ly = probes::lifted_decls(y);
    lemma_probes_only(x, x.len());
    lemma_probes_only(y, y.len());
    assert forall|i: int| 0 <= i < x.len() && (x[i] is Sub || rx[i] is Sub) implies x[i]
        == #[trigger] rx[i] by {
        assert(lx[i] == probes::lifted_decl(x, i));
        assert(renaming::renamed_decls(x, s)[i] == renaming::renamed_decl(x[i], s));
    }
    assert forall|i: int| x.len() <= i < rx.len() implies !(#[trigger] rx[i] is Sub) by {
        assert(lx[i] == probes::all_probes(x, x.len())[i - x.len()]);
    }
    assert forall|i: int| 0 <= i < y.len() && (y[i] is Sub || ly[i] is Sub) implies y[i]
        == #[trigger] ly[i] by {
        assert(ly[i] == probes::lifted_decl(y, i));
    }
    assert forall|i: int| y.len() <= i < ly.len() implies !(#[trigger] ly[i] is Sub) by {
        assert(ly[i] == probes::all_probes(y, y.len())[i - y.len()]);
    }
    assert forall|n: Seq<char>| ast::builtin_name(n) implies #[trigger] shuffle::subs_named(
        rx,
        n,
        rx.len(),
    ) == shuffle::subs_named(ly, n, ly.len()) by {
        lemma_lifted_subs(x, rx, n);
        lemma_lifted_subs(y, ly, n);
        assert(shuffle::subs_named(x, n, x.len()) == shuffle::subs_named(y, n, y.len()));
    }
    lemma_lifted_subs(x, rx, seq![]);
    lemma_lifted_subs(y, ly, seq![]);
}

// ───────────────────────── names ─────────────────────────

proof fn lemma_renamed_probes(fs: Seq<FieldV>, n: nat, base: nat, m: RenamingV)
    requires
        n <= fs.len(),
        forall|k: nat|
            renaming::new_name(m, #[trigger] probes::anon_name(k)) == probes::anon_name(k),
    ensures
        probes::field_probes(renaming::renamed_fields(fs, m), n, base) == renaming::renamed_decls(
            probes::field_probes(fs, n, base),
            m,
        ),
    decreases n,
{
    let r = renaming::renamed_fields(fs, m);
    if n > 0 {
        lemma_renamed_probes(fs, (n - 1) as nat, base, m);
        assert(r[n - 1] == renaming::renamed_field(fs[n - 1], m));
    }
    assert(probes::field_probes(r, n, base) =~= renaming::renamed_decls(
        probes::field_probes(fs, n, base),
        m,
    ));
}

proof fn lemma_renamed_all(ds: Seq<DeclV>, n: nat, m: RenamingV)
    requires
        n <= ds.len(),
        forall|k: nat|
            renaming::new_name(m, #[trigger] probes::anon_name(k)) == probes::anon_name(k),
    ensures
        probes::all_probes(renaming::renamed_decls(ds, m), n) == renaming::renamed_decls(
            probes::all_probes(ds, n),
            m,
        ),
    decreases n,
{
    let r = renaming::renamed_decls(ds, m);
    if n > 0 {
        lemma_renamed_all(ds, (n - 1) as nat, m);
        let b = probes::all_probes(ds, (n - 1) as nat);
        let fs = probes::backend_fields(ds[n - 1]);
        assert(r[n - 1] == renaming::renamed_decl(ds[n - 1], m));
        assert(probes::backend_fields(r[n - 1]) =~= renaming::renamed_fields(fs, m));
        lemma_renamed_probes(fs, fs.len(), b.len(), m);
    }
    assert(probes::all_probes(r, n) =~= renaming::renamed_decls(probes::all_probes(ds, n), m));
}

/// Declarations whose names are replaced are lifted with their names replaced.
pub(crate) proof fn lemma_lifted_names(ds: Seq<DeclV>, m: RenamingV)
    requires
        forall|k: nat|
            renaming::new_name(m, #[trigger] probes::anon_name(k)) == probes::anon_name(k),
    ensures
        probes::lifted_decls(renaming::renamed_decls(ds, m)) == renaming::renamed_decls(
            probes::lifted_decls(ds),
            m,
        ),
{
    let r = renaming::renamed_decls(ds, m);
    let a = probes::lifted_decls(r);
    let b = renaming::renamed_decls(probes::lifted_decls(ds), m);
    lemma_renamed_all(ds, ds.len(), m);
    assert forall|i: int| 0 <= i < ds.len() implies #[trigger] a[i] == b[i] by {
        lemma_renamed_all(ds, i as nat, m);
        assert(a[i] == probes::lifted_decl(r, i));
        assert(b[i] == renaming::renamed_decl(probes::lifted_decl(ds, i), m));
        match ds[i] {
            DeclV::Backend { body: Some(fs), .. } => {
                let base = probes::all_probes(ds, i as nat).len();
                let rf = renaming::renamed_fields(fs, m);
                let u = probes::lifted_fields(rf, base);
                let v = renaming::renamed_fields(probes::lifted_fields(fs, base), m);
                assert forall|j: int| 0 <= j < fs.len() implies #[trigger] u[j] == v[j] by {
                    lemma_renamed_probes(fs, j as nat, base, m);
                    assert(rf[j] == renaming::renamed_field(fs[j], m));
                    assert(v[j] == renaming::renamed_field(probes::lifted_field(fs, j, base), m));
                }
                assert(u =~= v);
            },
            _ => {},
        }
    }
    assert(a =~= b);
}

} // verus!
