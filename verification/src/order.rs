//! The order of texts, and sorting by it.

use crate::text;
use vstd::prelude::*;
use vstd::string::*;

verus! {

// ───────────────────────── the order ─────────────────────────

/// Whether `a` comes before `b`, where they agree on their first `i`
/// characters: at the first difference the smaller character decides, and a
/// text comes before its continuations.
pub open spec fn less_from(a: Seq<char>, b: Seq<char>, i: nat) -> bool
    decreases a.len() - i,
{
    if i >= b.len() {
        false
    } else if i >= a.len() {
        true
    } else if a[i as int] != b[i as int] {
        (a[i as int] as int) < (b[i as int] as int)
    } else {
        less_from(a, b, i + 1)
    }
}

/// Whether `a` comes before `b` in the order of texts.
pub open spec fn text_less(a: Seq<char>, b: Seq<char>) -> bool {
    less_from(a, b, 0)
}

/// What things are sorted by: a rank first, and then a text.
#[verifier::ext_equal]
pub struct KeyV {
    pub rank: nat,
    pub text: Seq<char>,
}

/// Whether one key comes before another.
pub open spec fn key_less(a: KeyV, b: KeyV) -> bool {
    a.rank < b.rank || (a.rank == b.rank && text_less(a.text, b.text))
}

proof fn lemma_less_trans(a: Seq<char>, b: Seq<char>, c: Seq<char>, i: nat)
    requires
        less_from(a, b, i),
        less_from(b, c, i),
    ensures
        less_from(a, c, i),
    decreases a.len() - i,
{
    if i < a.len() && i < b.len() && i < c.len() && a[i as int] == b[i as int] && b[i as int]
        == c[i as int] {
        lemma_less_trans(a, b, c, i + 1);
    }
}

proof fn lemma_less_asym(a: Seq<char>, b: Seq<char>, i: nat)
    requires
        less_from(a, b, i),
    ensures
        !less_from(b, a, i),
    decreases a.len() - i,
{
    if i < a.len() && i < b.len() && a[i as int] == b[i as int] {
        lemma_less_asym(a, b, i + 1);
    }
}

proof fn lemma_less_total(a: Seq<char>, b: Seq<char>, i: nat)
    requires
        i <= a.len(),
        i <= b.len(),
        forall|j: int| 0 <= j < i ==> a[j] == b[j],
        !less_from(a, b, i),
        !less_from(b, a, i),
    ensures
        a == b,
    decreases a.len() - i,
{
    if i < a.len() && i < b.len() {
        lemma_less_total(a, b, i + 1);
    } else {
        assert(a =~= b);
    }
}

/// The order of keys is a strict total order: no key comes before itself or
/// before one that comes before it, the order is transitive, and of two
/// different keys one comes first.
pub proof fn law_keys_are_ordered(a: KeyV, b: KeyV, c: KeyV)
    ensures
        !key_less(a, a),
        key_less(a, b) ==> !key_less(b, a),
        key_less(a, b) && key_less(b, c) ==> key_less(a, c),
        key_less(a, b) || key_less(b, a) || a == b,
{
    if text_less(a.text, a.text) {
        lemma_less_asym(a.text, a.text, 0);
    }
    if text_less(a.text, b.text) {
        lemma_less_asym(a.text, b.text, 0);
    }
    if text_less(a.text, b.text) && text_less(b.text, c.text) {
        lemma_less_trans(a.text, b.text, c.text, 0);
    }
    if !text_less(a.text, b.text) && !text_less(b.text, a.text) {
        lemma_less_total(a.text, b.text, 0);
    }
}

/// Whether a text comes before another.
pub fn text_before(a: &str, b: &str) -> (r: bool)
    ensures
        r == text_less(a@, b@),
{
    let x = text::to_chars(a);
    let y = text::to_chars(b);
    let mut i: usize = 0;
    while i < x.len() && i < y.len() && x[i] == y[i]
        invariant
            i <= x@.len(),
            i <= y@.len(),
            x@ == a@,
            y@ == b@,
            less_from(a@, b@, 0) == less_from(a@, b@, i as nat),
        decreases x@.len() - i,
    {
        i += 1;
    }
    if i >= y.len() {
        false
    } else if i >= x.len() {
        true
    } else {
        let c: char = x[i];
        let d: char = y[i];
        c < d
    }
}

// ───────────────────────── sorting ─────────────────────────

/// The first place at or behind `i` whose key comes behind `k`.
pub open spec fn place_for<T>(s: Seq<(KeyV, T)>, k: KeyV, i: nat) -> nat
    decreases s.len() - i,
{
    if i >= s.len() || key_less(k, s[i as int].0) {
        i
    } else {
        place_for(s, k, i + 1)
    }
}

/// The first `n` items, sorted by their keys. Items of one key keep the order
/// in which they stand.
pub open spec fn sorted_first<T>(s: Seq<(KeyV, T)>, n: nat) -> Seq<(KeyV, T)>
    decreases n,
{
    if n == 0 {
        seq![]
    } else {
        let before = sorted_first(s, (n - 1) as nat);
        before.insert(place_for(before, s[n - 1].0, 0) as int, s[n - 1])
    }
}

/// The items sorted by their keys; items of one key keep their order.
pub open spec fn sorted<T>(s: Seq<(KeyV, T)>) -> Seq<(KeyV, T)> {
    sorted_first(s, s.len())
}

/// Whether no item comes behind one whose key is larger.
pub open spec fn in_order<T>(s: Seq<(KeyV, T)>) -> bool {
    forall|i: int, j: int|
        0 <= i < j < s.len() ==> !key_less((#[trigger] s[j]).0, (#[trigger] s[i]).0)
}

/// The place at which an item is inserted lies in the list.
pub(crate) proof fn lemma_place<T>(s: Seq<(KeyV, T)>, k: KeyV, i: nat)
    requires
        i <= s.len(),
    ensures
        i <= place_for(s, k, i) <= s.len(),
        forall|j: int| i <= j < place_for(s, k, i) ==> !key_less(k, (#[trigger] s[j]).0),
        place_for(s, k, i) < s.len() ==> key_less(k, s[place_for(s, k, i) as int].0),
    decreases s.len() - i,
{
    if i < s.len() && !key_less(k, s[i as int].0) {
        lemma_place(s, k, i + 1);
    }
}

proof fn lemma_insert_in_order<T>(s: Seq<(KeyV, T)>, x: (KeyV, T))
    requires
        in_order(s),
    ensures
        in_order(s.insert(place_for(s, x.0, 0) as int, x)),
{
    let p = place_for(s, x.0, 0) as int;
    lemma_place(s, x.0, 0);
    let t = s.insert(p, x);
    assert forall|i: int, j: int| 0 <= i < j < t.len() implies !key_less(
        (#[trigger] t[j]).0,
        (#[trigger] t[i]).0,
    ) by {
        if j == p {
            assert(t[i] == s[i]);
        } else if i == p {
            assert(t[j] == s[j - 1]);
            let first = s[p];
            if j - 1 > p {
                assert(!key_less(s[j - 1].0, first.0));
            }
            law_keys_are_ordered(x.0, first.0, s[j - 1].0);
            law_keys_are_ordered(s[j - 1].0, x.0, first.0);
        } else {
            let i1 = if i < p { i } else { i - 1 };
            let j1 = if j < p { j } else { j - 1 };
            assert(t[i] == s[i1]);
            assert(t[j] == s[j1]);
        }
    }
}

proof fn lemma_sorted_in_order<T>(s: Seq<(KeyV, T)>, n: nat)
    requires
        n <= s.len(),
    ensures
        in_order(sorted_first(s, n)),
        sorted_first(s, n).len() == n,
    decreases n,
{
    if n > 0 {
        lemma_sorted_in_order(s, (n - 1) as nat);
        let before = sorted_first(s, (n - 1) as nat);
        lemma_insert_in_order(before, s[n - 1]);
        lemma_place(before, s[n - 1].0, 0);
    }
}

/// Sorting puts the items in order.
pub proof fn law_sorted_is_in_order<T>(s: Seq<(KeyV, T)>)
    ensures
        in_order(sorted(s)),
        sorted(s).len() == s.len(),
{
    lemma_sorted_in_order(s, s.len());
}

proof fn lemma_sorted_multiset<T>(s: Seq<(KeyV, T)>, n: nat)
    requires
        n <= s.len(),
    ensures
        sorted_first(s, n).to_multiset() == s.take(n as int).to_multiset(),
    decreases n,
{
    broadcast use {vstd::seq_lib::group_to_multiset_ensures, vstd::multiset::group_multiset_axioms};

    if n > 0 {
        let before = sorted_first(s, (n - 1) as nat);
        lemma_sorted_multiset(s, (n - 1) as nat);
        lemma_sorted_in_order(s, (n - 1) as nat);
        lemma_place(before, s[n - 1].0, 0);
        let p = place_for(before, s[n - 1].0, 0) as int;
        assert(s.take(n as int) =~= s.take(n - 1).push(s[n - 1]));
        let t = before.insert(p, s[n - 1]);
        assert(t.remove(p) =~= before);
        assert(t[p] == s[n - 1] && t.contains(s[n - 1]));
        assert(t.to_multiset() =~= before.to_multiset().insert(s[n - 1]));
    } else {
        assert(s.take(0) =~= Seq::empty());
    }
}

/// Sorting keeps the items: each occurs as often as before.
pub proof fn law_sorted_keeps_the_items<T>(s: Seq<(KeyV, T)>)
    ensures
        sorted(s).to_multiset() == s.to_multiset(),
{
    lemma_sorted_multiset(s, s.len());
    assert(s.take(s.len() as int) =~= s);
}

proof fn lemma_place_at_end<T>(s: Seq<(KeyV, T)>, k: KeyV, i: nat)
    requires
        i <= s.len(),
        forall|j: int| i <= j < s.len() ==> !key_less(k, (#[trigger] s[j]).0),
    ensures
        place_for(s, k, i) == s.len(),
    decreases s.len() - i,
{
    if i < s.len() {
        lemma_place_at_end(s, k, i + 1);
    }
}

proof fn lemma_sorted_of_ordered<T>(s: Seq<(KeyV, T)>, n: nat)
    requires
        in_order(s),
        n <= s.len(),
    ensures
        sorted_first(s, n) == s.take(n as int),
    decreases n,
{
    if n > 0 {
        lemma_sorted_of_ordered(s, (n - 1) as nat);
        let before = s.take(n - 1);
        assert forall|j: int| 0 <= j < before.len() implies !key_less(
            s[n - 1].0,
            (#[trigger] before[j]).0,
        ) by {
            assert(before[j] == s[j]);
        }
        lemma_place_at_end(before, s[n - 1].0, 0);
    }
    assert(sorted_first(s, n) =~= s.take(n as int));
}

/// What is in order is left as it is; so sorting twice is sorting once.
pub proof fn law_sorting_is_idempotent<T>(s: Seq<(KeyV, T)>)
    ensures
        in_order(s) ==> sorted(s) == s,
        sorted(sorted(s)) == sorted(s),
{
    law_sorted_is_in_order(s);
    lemma_sorted_of_ordered(sorted(s), sorted(s).len());
    assert(sorted(s).take(sorted(s).len() as int) =~= sorted(s));
    if in_order(s) {
        lemma_sorted_of_ordered(s, s.len());
        assert(s.take(s.len() as int) =~= s);
    }
}

/// The items of one key, in the order in which they stand.
pub open spec fn of_key<T>(s: Seq<(KeyV, T)>, k: KeyV) -> Seq<(KeyV, T)>
    decreases s.len(),
{
    if s.len() == 0 {
        seq![]
    } else if s.last().0 == k {
        of_key(s.drop_last(), k).push(s.last())
    } else {
        of_key(s.drop_last(), k)
    }
}

proof fn lemma_of_key_add<T>(a: Seq<(KeyV, T)>, b: Seq<(KeyV, T)>, k: KeyV)
    ensures
        of_key(a + b, k) == of_key(a, k) + of_key(b, k),
    decreases b.len(),
{
    if b.len() == 0 {
        assert(a + b =~= a);
        assert(of_key(a, k) + of_key(b, k) =~= of_key(a, k));
    } else {
        assert((a + b).drop_last() =~= a + b.drop_last());
        lemma_of_key_add(a, b.drop_last(), k);
        if b.last().0 == k {
            assert(of_key(a, k) + of_key(b.drop_last(), k).push(b.last()) =~= (of_key(a, k)
                + of_key(b.drop_last(), k)).push(b.last()));
        }
    }
}

proof fn lemma_of_key_none<T>(s: Seq<(KeyV, T)>, k: KeyV)
    requires
        forall|j: int| 0 <= j < s.len() ==> (#[trigger] s[j]).0 != k,
    ensures
        of_key(s, k) == Seq::<(KeyV, T)>::empty(),
    decreases s.len(),
{
    if s.len() > 0 {
        lemma_of_key_none(s.drop_last(), k);
    }
}

proof fn lemma_sorted_stable<T>(s: Seq<(KeyV, T)>, n: nat, k: KeyV)
    requires
        n <= s.len(),
    ensures
        of_key(sorted_first(s, n), k) == of_key(s.take(n as int), k),
    decreases n,
{
    if n > 0 {
        let before = sorted_first(s, (n - 1) as nat);
        let x = s[n - 1];
        lemma_sorted_stable(s, (n - 1) as nat, k);
        lemma_sorted_in_order(s, (n - 1) as nat);
        lemma_place(before, x.0, 0);
        let p = place_for(before, x.0, 0) as int;
        let a = before.take(p);
        let b = before.skip(p);
        assert(before =~= a + b);
        assert(before.insert(p, x) =~= (a + seq![x]) + b);
        lemma_of_key_add(a, b, k);
        lemma_of_key_add(a + seq![x], b, k);
        lemma_of_key_add(a, seq![x], k);
        assert(s.take(n as int) =~= s.take(n - 1) + seq![x]);
        lemma_of_key_add(s.take(n - 1), seq![x], k);
        assert(seq![x].drop_last() =~= Seq::<(KeyV, T)>::empty());
        reveal_with_fuel(of_key, 2);
        if x.0 == k {
            assert forall|j: int| 0 <= j < b.len() implies (#[trigger] b[j]).0 != k by {
                assert(b[j] == before[p + j]);
                if j > 0 {
                    assert(!key_less(before[p + j].0, before[p].0));
                }
                law_keys_are_ordered(x.0, before[p].0, before[p + j].0);
                law_keys_are_ordered(x.0, x.0, x.0);
            }
            lemma_of_key_none(b, k);
            assert((of_key(a, k) + of_key(seq![x], k)) + of_key(b, k) =~= (of_key(a, k) + of_key(
                b,
                k,
            )) + of_key(seq![x], k));
        } else {
            assert(of_key(seq![x], k) =~= Seq::<(KeyV, T)>::empty());
            assert(of_key(a, k) + Seq::<(KeyV, T)>::empty() =~= of_key(a, k));
            assert(of_key(s.take(n - 1), k) + Seq::<(KeyV, T)>::empty() =~= of_key(
                s.take(n - 1),
                k,
            ));
        }
    } else {
        assert(s.take(0) =~= Seq::<(KeyV, T)>::empty());
    }
}

/// Sorting is stable: the items of each key stand in the order in which they
/// stood before.
pub proof fn law_sorting_is_stable<T>(s: Seq<(KeyV, T)>, k: KeyV)
    ensures
        of_key(sorted(s), k) == of_key(s, k),
{
    lemma_sorted_stable(s, s.len(), k);
    assert(s.take(s.len() as int) =~= s);
}

proof fn lemma_held_key<T>(s: Seq<(KeyV, T)>, k: KeyV)
    ensures
        of_key(s, k).len() > 0 ==> exists|i: int| 0 <= i < s.len() && (#[trigger] s[i]).0 == k,
        s.len() > 0 && s.last().0 == k ==> of_key(s, k).len() > 0 && of_key(s, k).last() == s.last(),
{
    if forall|j: int| 0 <= j < s.len() ==> (#[trigger] s[j]).0 != k {
        lemma_of_key_none(s, k);
    }
}

proof fn lemma_one_list<T>(s: Seq<(KeyV, T)>, r: Seq<(KeyV, T)>)
    requires
        in_order(s),
        in_order(r),
        forall|k: KeyV| #[trigger] of_key(s, k) == of_key(r, k),
    ensures
        s == r,
    decreases s.len(),
{
    if s.len() > 0 {
        lemma_held_key(s, s.last().0);
        lemma_held_key(r, s.last().0);
        assert(of_key(s, s.last().0) == of_key(r, s.last().0));
    }
    if r.len() > 0 {
        lemma_held_key(r, r.last().0);
        lemma_held_key(s, r.last().0);
        assert(of_key(s, r.last().0) == of_key(r, r.last().0));
    }
    if s.len() > 0 && r.len() > 0 {
        let (x, y) = (s.last(), r.last());
        let i = choose|i: int| 0 <= i < r.len() && (#[trigger] r[i]).0 == x.0;
        let j = choose|j: int| 0 <= j < s.len() && (#[trigger] s[j]).0 == y.0;
        law_keys_are_ordered(x.0, y.0, x.0);
        law_keys_are_ordered(x.0, x.0, x.0);
        assert(!key_less(r[r.len() - 1].0, r[i].0));
        assert(!key_less(s[s.len() - 1].0, s[j].0));
        assert(x.0 == y.0);
        assert(x == y);
        let (s1, r1) = (s.drop_last(), r.drop_last());
        assert forall|k: KeyV| #[trigger] of_key(s1, k) == of_key(r1, k) by {
            assert(of_key(s, k) == of_key(r, k));
            if x.0 == k {
                assert(of_key(s, k).drop_last() =~= of_key(s1, k));
                assert(of_key(r, k).drop_last() =~= of_key(r1, k));
            }
        }
        lemma_one_list(s1, r1);
        assert(s =~= s1.push(x));
        assert(r =~= r1.push(y));
    } else {
        assert(s =~= r);
    }
}

/// Nothing but the order within each key matters to the sorted list.
pub proof fn law_order_within_keys_is_all<T>(a: Seq<(KeyV, T)>, b: Seq<(KeyV, T)>)
    requires
        forall|k: KeyV| #[trigger] of_key(a, k) == of_key(b, k),
    ensures
        sorted(a) == sorted(b),
{
    law_sorted_is_in_order(a);
    law_sorted_is_in_order(b);
    assert forall|k: KeyV| #[trigger] of_key(sorted(a), k) == of_key(sorted(b), k) by {
        law_sorting_is_stable(a, k);
        law_sorting_is_stable(b, k);
        assert(of_key(a, k) == of_key(b, k));
    }
    lemma_one_list(sorted(a), sorted(b));
}

/// The keys of a list.
pub open spec fn keys<T>(s: Seq<(KeyV, T)>) -> Seq<KeyV> {
    Seq::new(s.len(), |i: int| s[i].0)
}

proof fn lemma_sorted_keys<T>(s: Seq<(KeyV, T)>, n: nat)
    requires
        n <= s.len(),
    ensures
        keys(sorted_first(s, n)).to_multiset() == keys(s).take(n as int).to_multiset(),
    decreases n,
{
    broadcast use {vstd::seq_lib::group_to_multiset_ensures, vstd::multiset::group_multiset_axioms};

    if n > 0 {
        let before = sorted_first(s, (n - 1) as nat);
        let k = s[n - 1].0;
        lemma_sorted_keys(s, (n - 1) as nat);
        lemma_sorted_in_order(s, (n - 1) as nat);
        lemma_place(before, k, 0);
        let p = place_for(before, k, 0) as int;
        assert(keys(s).take(n as int) =~= keys(s).take(n - 1).push(k));
        let t = keys(sorted_first(s, n));
        assert(t.remove(p) =~= keys(before));
        assert(t[p] == k && t.contains(k));
        assert(t.to_multiset() =~= keys(before).to_multiset().insert(k));
    } else {
        assert(keys(s).take(0) =~= Seq::empty());
        assert(keys(sorted_first(s, 0)) =~= Seq::empty());
    }
}

/// The order in which the items come does not matter to the keys of the sorted
/// list: lists with the same keys, however they stand, have the same sorted
/// keys.
pub proof fn law_order_does_not_matter<T>(a: Seq<(KeyV, T)>, b: Seq<(KeyV, T)>)
    requires
        keys(a).to_multiset() == keys(b).to_multiset(),
    ensures
        keys(sorted(a)) == keys(sorted(b)),
{
    lemma_sorted_keys(a, a.len());
    lemma_sorted_keys(b, b.len());
    assert(keys(a).take(a.len() as int) =~= keys(a));
    assert(keys(b).take(b.len() as int) =~= keys(b));
    law_sorted_is_in_order(a);
    law_sorted_is_in_order(b);
    let leq = |x: KeyV, y: KeyV| !key_less(y, x);
    assert forall|x: KeyV, y: KeyV, z: KeyV| #[trigger] leq(x, y) && #[trigger] leq(
        y,
        z,
    ) implies leq(x, z) by {
        law_keys_are_ordered(x, y, z);
        law_keys_are_ordered(z, x, y);
        law_keys_are_ordered(y, z, x);
    }
    assert forall|x: KeyV, y: KeyV| #[trigger] leq(x, y) && #[trigger] leq(y, x) implies x == y by {
        law_keys_are_ordered(x, y, x);
    }
    assert forall|x: KeyV, y: KeyV| #[trigger] leq(x, y) || #[trigger] leq(y, x) by {
        law_keys_are_ordered(x, y, x);
    }
    assert forall|x: KeyV| #[trigger] leq(x, x) by {
        law_keys_are_ordered(x, x, x);
    }
    vstd::seq_lib::lemma_sorted_unique(keys(sorted(a)), keys(sorted(b)), leq);
}

/// A key to sort by.
#[derive(Debug)]
pub struct Key {
    pub rank: u64,
    pub text: String,
}

impl View for Key {
    type V = KeyV;

    open spec fn view(&self) -> KeyV {
        KeyV { rank: self.rank as nat, text: self.text@ }
    }
}

/// Items with their keys.
pub open spec fn pairs_view<T: View>(s: Seq<(Key, T)>) -> Seq<(KeyV, T::V)> {
    Seq::new(s.len(), |i: int| (s[i].0@, s[i].1@))
}

/// Whether one key comes before another.
pub fn key_before(a: &Key, b: &Key) -> (r: bool)
    ensures
        r == key_less(a@, b@),
{
    a.rank < b.rank || (a.rank == b.rank && text_before(a.text.as_str(), b.text.as_str()))
}

/// Sorts items by their keys; items of one key keep their order.
pub fn sort_pairs<T: View>(items: Vec<(Key, T)>) -> (r: Vec<(Key, T)>)
    ensures
        pairs_view(r@) == sorted(pairs_view(items@)),
{
    let ghost list = items@;
    let ghost lv = pairs_view(list);
    let mut out: Vec<(Key, T)> = Vec::new();
    assert(pairs_view(out@) =~= sorted_first(lv, 0));
    for x in it: items
        invariant
            it.seq() == list,
            lv == pairs_view(list),
            pairs_view(out@) == sorted_first(lv, it.index() as nat),
    {
        let ghost at = it.index() as int;
        let ghost before = out@;
        let ghost bv = pairs_view(before);
        assert(lv[at] == (x.0@, x.1@));
        let mut p: usize = 0;
        while p < out.len() && !key_before(&x.0, &out[p].0)
            invariant
                out@ == before,
                bv == pairs_view(before),
                p <= before.len(),
                place_for(bv, x.0@, 0) == place_for(bv, x.0@, p as nat),
            decreases before.len() - p,
        {
            assert(bv[p as int].0 == before[p as int].0@);
            p += 1;
        }
        assert(p < before.len() ==> bv[p as int].0 == before[p as int].0@);
        out.insert(p, x);
        proof {
            assert(pairs_view(out@) =~= bv.insert(p as int, lv[at]));
        }
    }
    out
}

} // verus!
