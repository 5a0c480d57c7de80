//! The fifth pass: the order of the declarations.
//!
//! The declarations are sorted by their kind and then by the text of their
//! canonical form, so the order in which they were written no longer shows.

use crate::ast;
use crate::ast::{Decl, DeclV, Program, ProgramV};
use crate::canon;
use crate::json;
use crate::order;
use crate::order::{Key, KeyV};
use vstd::prelude::*;
use vstd::string::*;

verus! {

/// The place of a kind of declaration among the kinds.
pub open spec fn kind_rank(d: DeclV) -> nat {
    match d {
        DeclV::Import { .. } => 0,
        DeclV::Probe { .. } => 1,
        DeclV::Backend { .. } => 2,
        DeclV::Acl { .. } => 3,
        DeclV::Sub { .. } => 4,
    }
}

/// What a declaration is sorted by: its kind, and the text of its canonical
/// form.
pub open spec fn sort_key(d: DeclV) -> KeyV {
    KeyV { rank: kind_rank(d), text: json::compact_text(canon::decl_json(d)) }
}

/// The declarations with their keys.
pub open spec fn keyed(ds: Seq<DeclV>) -> Seq<(KeyV, DeclV)> {
    Seq::new(ds.len(), |i: int| (sort_key(ds[i]), ds[i]))
}

/// The declarations sorted by their keys; those of one key keep their order.
pub open spec fn sorted_decls(ds: Seq<DeclV>) -> Seq<DeclV> {
    let s = order::sorted(keyed(ds));
    Seq::new(s.len(), |i: int| s[i].1)
}

/// What the pass makes of a program.
pub open spec fn sorted_program(p: ProgramV) -> ProgramV {
    ProgramV { decls: sorted_decls(p.decls), ..p }
}

// ───────────────────────── laws ─────────────────────────

proof fn lemma_keyed_inside(ds: Seq<DeclV>, i: int)
    requires
        0 <= i < order::sorted(keyed(ds)).len(),
    ensures
        order::sorted(keyed(ds))[i].0 == sort_key(order::sorted(keyed(ds))[i].1),
{
    broadcast use {vstd::seq_lib::group_to_multiset_ensures, vstd::multiset::group_multiset_axioms};

    let k = keyed(ds);
    let s = order::sorted(k);
    order::law_sorted_keeps_the_items(k);
    assert(s.contains(s[i]));
    assert(s.to_multiset().count(s[i]) > 0);
    assert(k.contains(s[i]));
}

proof fn lemma_keyed_sorted(ds: Seq<DeclV>)
    ensures
        keyed(sorted_decls(ds)) == order::sorted(keyed(ds)),
{
    assert forall|i: int| 0 <= i < sorted_decls(ds).len() implies keyed(sorted_decls(ds))[i]
        == #[trigger] order::sorted(keyed(ds))[i] by {
        lemma_keyed_inside(ds, i);
    }
    assert(keyed(sorted_decls(ds)) =~= order::sorted(keyed(ds)));
}

/// After the pass the declarations stand in the order of their kinds, and
/// those of one kind in the order of their canonical texts.
pub proof fn law_decls_are_in_order(ds: Seq<DeclV>, i: int, j: int)
    requires
        0 <= i < j < sorted_decls(ds).len(),
    ensures
        !order::key_less(sort_key(sorted_decls(ds)[j]), sort_key(sorted_decls(ds)[i])),
        kind_rank(sorted_decls(ds)[i]) <= kind_rank(sorted_decls(ds)[j]),
{
    order::law_sorted_is_in_order(keyed(ds));
    lemma_keyed_sorted(ds);
    let s = order::sorted(keyed(ds));
    assert(keyed(sorted_decls(ds))[i] == s[i]);
    assert(keyed(sorted_decls(ds))[j] == s[j]);
    assert(!order::key_less(s[j].0, s[i].0));
}

/// After the pass imports stand first, probes behind them, and behind those backends,
/// ACLs and subroutines.
pub proof fn law_kinds_are_in_order(ds: Seq<DeclV>, i: int, j: int)
    requires
        0 <= i < j < sorted_decls(ds).len(),
    ensures
        ({
            let a = sorted_decls(ds)[i];
            let b = sorted_decls(ds)[j];
            &&& b is Import ==> a is Import
            &&& b is Probe ==> a is Import || a is Probe
            &&& b is Backend ==> a is Import || a is Probe || a is Backend
            &&& b is Acl ==> !(a is Sub)
        }),
{
    law_decls_are_in_order(ds, i, j);
}

/// The pass keeps the declarations: each occurs as often as before.
pub proof fn law_decls_are_kept(ds: Seq<DeclV>)
    ensures
        sorted_decls(ds).to_multiset() == ds.to_multiset(),
{
    lemma_firsts_multiset(keyed(ds), ds.len());
    assert(keyed(ds).take(ds.len() as int) =~= keyed(ds));
    let firsts = Seq::new(ds.len(), |i: int| keyed(ds)[i].1);
    assert(firsts.take(ds.len() as int) =~= ds);
    let s = order::sorted(keyed(ds));
    assert(sorted_decls(ds) =~= Seq::new(s.len(), |i: int| s[i].1));
}

proof fn lemma_firsts_multiset(k: Seq<(KeyV, DeclV)>, n: nat)
    requires
        n <= k.len(),
    ensures
        ({
            let s = order::sorted_first(k, n);
            Seq::new(s.len(), |i: int| s[i].1).to_multiset() == Seq::new(
                k.len(),
                |i: int| k[i].1,
            ).take(n as int).to_multiset()
        }),
        order::sorted_first(k, n).len() == n,
    decreases n,
{
    broadcast use {vstd::seq_lib::group_to_multiset_ensures, vstd::multiset::group_multiset_axioms};

    let items = Seq::new(k.len(), |i: int| k[i].1);
    let s = order::sorted_first(k, n);
    let t = Seq::new(s.len(), |i: int| s[i].1);
    if n > 0 {
        lemma_firsts_multiset(k, (n - 1) as nat);
        let before = order::sorted_first(k, (n - 1) as nat);
        let b = Seq::new(before.len(), |i: int| before[i].1);
        order::lemma_place(before, k[n - 1].0, 0);
        let p = order::place_for(before, k[n - 1].0, 0) as int;
        let x = k[n - 1].1;
        assert(items.take(n as int) =~= items.take(n - 1).push(x));
        assert(t.remove(p) =~= b);
        assert(t[p] == x && t.contains(x));
        assert(t.to_multiset() =~= b.to_multiset().insert(x));
    } else {
        assert(items.take(0) =~= Seq::empty());
        assert(t =~= Seq::empty());
    }
}

/// A second run of the pass changes nothing.
pub proof fn law_sorting_is_done_once(ds: Seq<DeclV>)
    ensures
        sorted_decls(sorted_decls(ds)) == sorted_decls(ds),
{
    lemma_keyed_sorted(ds);
    order::law_sorting_is_idempotent(keyed(ds));
    assert(sorted_decls(sorted_decls(ds)) =~= sorted_decls(ds));
}

/// The kinds and canonical texts of a list of declarations.
pub open spec fn sort_keys(ds: Seq<DeclV>) -> Seq<KeyV> {
    Seq::new(ds.len(), |i: int| sort_key(ds[i]))
}

/// The order in which the declarations were written does not show: lists of the
/// same canonical texts, however they stand, are sorted into the same texts.
pub proof fn law_written_order_does_not_show(a: Seq<DeclV>, b: Seq<DeclV>)
    requires
        sort_keys(a).to_multiset() == sort_keys(b).to_multiset(),
    ensures
        sort_keys(sorted_decls(a)) == sort_keys(sorted_decls(b)),
{
    assert(order::keys(keyed(a)) =~= sort_keys(a));
    assert(order::keys(keyed(b)) =~= sort_keys(b));
    order::law_order_does_not_matter(keyed(a), keyed(b));
    lemma_keyed_sorted(a);
    lemma_keyed_sorted(b);
    assert(order::keys(keyed(sorted_decls(a))) =~= sort_keys(sorted_decls(a)));
    assert(order::keys(keyed(sorted_decls(b))) =~= sort_keys(sorted_decls(b)));
}

// ───────────────────────── the pass ─────────────────────────

fn rank_of(d: &Decl) -> (r: u64)
    ensures
        r as nat == kind_rank(d@),
{
    match d {
        Decl::Import { .. } => 0,
        Decl::Probe { .. } => 1,
        Decl::Backend { .. } => 2,
        Decl::Acl { .. } => 3,
        Decl::Sub { .. } => 4,
    }
}

/// Runs the pass.
pub fn run(p: &mut Program)
    ensures
        final(p)@ == sorted_program(old(p)@),
{
    let mut decls: Vec<Decl> = Vec::new();
    std::mem::swap(&mut decls, &mut p.decls);
    let ghost list = decls@;
    let ghost lv = ast::decls_view(list);
    let mut pairs: Vec<(Key, Decl)> = Vec::new();
    assert(order::pairs_view(pairs@) =~= keyed(lv).take(0));
    for d in it: decls
        invariant
            it.seq() == list,
            lv == ast::decls_view(list),
            order::pairs_view(pairs@) == keyed(lv).take(it.index() as int),
    {
        let ghost at = it.index() as int;
        let ghost before = pairs@;
        assert(lv[at] == d@);
        let key = Key { rank: rank_of(&d), text: json::compact(&canon::decl_to_json(&d)) };
        assert(key@ =~= sort_key(d@));
        pairs.push((key, d));
        proof {
            assert(order::pairs_view(pairs@) =~= order::pairs_view(before).push((key@, d@)));
            assert(keyed(lv).take(at + 1) =~= keyed(lv).take(at).push((key@, d@)));
        }
    }
    assert(keyed(lv).take(lv.len() as int) =~= keyed(lv));
    let done = order::sort_pairs(pairs);
    let ghost sorted = done@;
    let ghost want = sorted_decls(lv);
    assert(order::pairs_view(sorted) == order::sorted(keyed(lv)));
    let mut out: Vec<Decl> = Vec::new();
    assert(ast::decls_view(out@) =~= want.take(0));
    for x in it: done
        invariant
            it.seq() == sorted,
            want == sorted_decls(lv),
            order::pairs_view(sorted) == order::sorted(keyed(lv)),
            ast::decls_view(out@) == want.take(it.index() as int),
    {
        let ghost at = it.index() as int;
        proof {
            assert(order::pairs_view(sorted)[at] == (x.0@, x.1@));
            ast::lemma_decls_push(out@, x.1);
            assert(want.take(at + 1) =~= want.take(at).push(x.1@));
        }
        out.push(x.1);
    }
    assert(want.take(want.len() as int) =~= want);
    p.decls = out;
}

} // verus!
