//! Programs that differ in layout, names, the order of declarations and the way
//! probes are written have one canonical form.

use crate::ast;
use crate::ast::{DeclV, ErrV, ProgramV};
use crate::canon;
use crate::layout;
use crate::layout::checking;
use crate::layout::naming;
use crate::layout::passes;
use crate::layout::whole;
use crate::normalize;
use crate::normalize::commuting;
use crate::normalize::invariance;
use crate::normalize::merge;
use crate::normalize::objects;
use crate::normalize::probes;
use crate::normalize::rename;
use crate::normalize::rename::Kind;
use crate::normalize::renaming;
use crate::normalize::renaming::RenamingV;
use crate::normalize::reordering;
use crate::normalize::shuffle;
use crate::normalize::shuffled_hooks;
use crate::normalize::shuffled_probes;
use crate::normalize::vmod_args::InstanceV;
use crate::readback::lifted;
use crate::symbols;
use crate::symbols::renamed;
use crate::symbols::soundness;
use crate::text;
use crate::vmod::VmodSpec;
use vstd::prelude::*;
use vstd::string::*;

verus! {

/// The declarations of a program without their places, the pieces of its
/// builtin subroutines merged.
pub open spec fn plain_decls(p: ProgramV) -> Seq<DeclV> {
    layout::bare_decls(merge::merged_program(p).decls)
}

/// Whether the second program is the first one with its names changed and its
/// declarations in another order, wherever their parts stand. The hooks outside
/// the fixed order keep theirs.
pub open spec fn renamed_and_reordered(p: ProgramV, q: ProgramV, m: RenamingV) -> bool {
    let a = renaming::renamed_decls(plain_decls(p), m);
    let b = plain_decls(q);
    &&& a.to_multiset() == b.to_multiset()
    &&& invariance::other_hooks(b, b.len()) == invariance::other_hooks(a, a.len())
}

/// Whether the canonical names and the order of the declarations are settled by
/// what the declarations say: no name is declared twice, the unused ones that are
/// ordered by the same are the same but for names that no other one uses, and
/// declarations of one text have one form.
pub open spec fn well_settled(p: ProgramV) -> bool {
    let ds = plain_decls(p);
    &&& reordering::settled(ds)
    &&& invariance::texts_tell(rename::canonical_decls(ds))
}

proof fn lemma_finished_form(p: ProgramV)
    ensures
        canon::program_json(
            normalize::finished(layout::bare_program(merge::merged_program(p)), true),
        ) == canon::program_json(normalize::finished(p, true)),
{
    let q = merge::merged_program(p);
    merge::law_builtins_are_declared_once(p);
    merge::law_merging_is_done_once(q);
    naming::law_finished_without_places(q, true);
    layout::law_canonical_form_has_no_places(normalize::finished(q, true));
}

/// Names, the order of declarations and layout do not matter.
pub proof fn law_equivalent_programs_have_one_form(p: ProgramV, q: ProgramV, m: RenamingV)
    requires
        invariance::fits_decls(m, plain_decls(p)),
        renamed_and_reordered(p, q, m),
        well_settled(p),
    ensures
        canon::program_json(normalize::finished(p, true)) == canon::program_json(
            normalize::finished(q, true),
        ),
{
    let a = layout::bare_program(merge::merged_program(p));
    let b = layout::bare_program(merge::merged_program(q));
    lemma_finished_form(p);
    lemma_finished_form(q);
    reordering::law_equivalent_programs_have_one_form(a, b, m);
}

/// Whether a probe is written in place matters no more than its name, its place
/// among the declarations, or layout.
pub proof fn law_probes_in_place_are_like_named_ones(p: ProgramV, q: ProgramV, m: RenamingV)
    requires
        invariance::fits_decls(m, plain_decls(probes::lifted_program(p))),
        renamed_and_reordered(probes::lifted_program(p), q, m),
        well_settled(probes::lifted_program(p)),
        forall|i: int| 0 <= i < q.decls.len() ==> !probes::holds_probe(#[trigger] q.decls[i]),
    ensures
        canon::program_json(normalize::finished(probes::lifted_program(p), true))
            == canon::program_json(normalize::finished(probes::lifted_program(q), true)),
{
    probes::law_nothing_to_lift(q);
    law_equivalent_programs_have_one_form(probes::lifted_program(p), q, m);
}

// ───────────────────────── source programs ─────────────────────────

/// Whether no declaration holds a name that no program can have.
pub open spec fn speakable_names(ds: Seq<DeclV>) -> bool {
    forall|i: int, n: Seq<char>|
        0 <= i < ds.len() && #[trigger] invariance::holds_name(ds[i], n) ==> !text::begins_with(
            n,
            "$"@,
        )
}

/// Whether a renaming touches nothing but names that the program declares: not
/// the words of the language, the names of hooks and vmods, what the vmods speak
/// of, and names that no program can have.
pub open spec fn touches_own_names(
    m: RenamingV,
    ds: Seq<DeclV>,
    specs: Map<Seq<char>, VmodSpec>,
) -> bool {
    &&& renamed::leaves_others(m, ds, specs)
    &&& commuting::leaves_headers(m)
    &&& forall|n: Seq<char>|
        text::begins_with(n, "$"@) ==> #[trigger] renaming::new_name(m, n) == n
}

/// Whether the second program is the first one with its names changed and its
/// declarations in another order, wherever their parts stand. The pieces of a
/// hook keep their order, and so do the hooks outside the fixed order and the
/// subroutines that make objects.
pub open spec fn moved(p: ProgramV, q: ProgramV, m: RenamingV) -> bool {
    let a = renaming::renamed_decls(layout::bare_decls(p.decls), m);
    let b = layout::bare_decls(q.decls);
    &&& a.to_multiset() == b.to_multiset()
    &&& shuffle::in_order(a, b)
    &&& renamed::makers(b, 0) == renamed::makers(a, 0)
}

/// Whether the vmods have names that a program can have.
pub open spec fn speakable_vmods(specs: Map<Seq<char>, VmodSpec>) -> bool {
    forall|v: Seq<char>| #[trigger] specs.contains_key(v) ==> !text::begins_with(v, "$"@)
}

/// One renaming behind another.
spec fn both(m: RenamingV, s: RenamingV) -> RenamingV {
    Map::new(|n: Seq<char>| true, |n: Seq<char>| renaming::new_name(s, renaming::new_name(m, n)))
}

proof fn lemma_both(ds: Seq<DeclV>, m: RenamingV, s: RenamingV)
    ensures
        renaming::renamed_decls(renaming::renamed_decls(ds, m), s) == renaming::renamed_decls(
            ds,
            both(m, s),
        ),
{
    let r = both(m, s);
    assert forall|i: int| 0 <= i < ds.len() implies renaming::renamed_decl(
        renaming::renamed_decl(#[trigger] ds[i], m),
        s,
    ) == renaming::renamed_decl(ds[i], r) by {
        assert forall|n: Seq<char>| #[trigger] invariance::holds_name(
            ds[i],
            n,
        ) implies invariance::agree_on(n, m, r, s) by {}
        invariance::lemma_holds_agree(ds[i], m, r, s);
        invariance::lemma_twice_decl(ds[i], m, r, s);
    }
    assert(renaming::renamed_decls(renaming::renamed_decls(ds, m), s) =~= renaming::renamed_decls(
        ds,
        r,
    ));
}

/// Words of the language are names that a program can have.
proof fn lemma_words()
    ensures
        !text::begins_with("http"@, "$"@),
        !text::begins_with("default"@, "$"@),
        forall|n: Seq<char>| #[trigger] ast::builtin_name(n) ==> !text::begins_with(n, "$"@),
{
    reveal_strlit("http");
    reveal_strlit("default");
    reveal_strlit("$");
    reveal_strlit("vcl_");
    assert("http"@[0] == 'h');
    assert("default"@[0] == 'd');
    if text::begins_with("http"@, "$"@) {
        assert("http"@.subrange(0, 1)[0] == '$');
    }
    if text::begins_with("default"@, "$"@) {
        assert("default"@.subrange(0, 1)[0] == '$');
    }
    assert forall|n: Seq<char>| #[trigger] ast::builtin_name(n) implies !text::begins_with(
        n,
        "$"@,
    ) by {
        assert(n.subrange(0, 4)[0] == 'v');
        if text::begins_with(n, "$"@) {
            assert(n.subrange(0, 1)[0] == '$');
        }
    }
}

/// What passes look at stays under a renaming of lifted probes.
proof fn lemma_lifted_apart(
    a: Seq<DeclV>,
    x: Seq<DeclV>,
    specs: Map<Seq<char>, VmodSpec>,
    r: RenamingV,
)
    requires
        speakable_names(a),
        speakable_vmods(specs),
        commuting::passed(a, specs) == Ok::<Seq<DeclV>, ErrV>(x),
        shuffled_probes::moves_lifted(r),
    ensures
        renaming::renamed_decls(x, r) == x,
{
    lemma_words();
    assert forall|i: int| 0 <= i < a.len() implies #[trigger] renaming::renamed_decl(a[i], r)
        == a[i] by {
        shuffled_hooks::lemma_stays(a[i], r);
    }
    assert(renaming::renamed_decls(a, r) =~= a);
    assert(renaming::new_name(r, "http"@) == "http"@);
    commuting::law_passes_do_not_look_at_names(a, specs, r);
}

/// A renaming that fits still fits where lifted probes change their names too.
proof fn lemma_fits_both(ds: Seq<DeclV>, m: RenamingV, s: RenamingV)
    requires
        invariance::fits_decls(m, ds),
        invariance::distinct_names(ds),
        shuffled_probes::moves_lifted(s),
        forall|n: Seq<char>| #[trigger]
            renaming::new_name(s, n) != n ==> exists|i: int|
                0 <= i < ds.len() && #[trigger] ds[i] is Probe && ast::decl_name(ds[i]) == n,
    ensures
        invariance::fits_decls(both(m, s), ds),
{
    let r = both(m, s);
    let t = rename::decl_table(ds, ds.len());
    lemma_words();
    assert forall|a: Seq<char>, b: Seq<char>| #[trigger] renaming::new_name(r, a)
        == #[trigger] renaming::new_name(r, b) implies a == b by {
        assert(renaming::new_name(m, a) == renaming::new_name(m, b));
    }
    assert forall|n: Seq<char>| ast::builtin_name(n) || n == "default"@ implies #[trigger]
        renaming::new_name(r, n) == n by {
        assert(renaming::new_name(m, n) == n);
        assert(renaming::new_name(s, n) == n);
    }
    assert forall|i: int, n: Seq<char>|
        0 <= i < ds.len() && #[trigger] invariance::holds_name(ds[i], n) implies rename::resolved(
        t,
        rename::all_names(ds),
        n,
    ) is Some || renaming::new_name(r, n) == n by {
        if renaming::new_name(m, n) == n && renaming::new_name(s, n) != n {
            let j = choose|j: int|
                0 <= j < ds.len() && #[trigger] ds[j] is Probe && ast::decl_name(ds[j]) == n;
            lifted::lemma_probe_resolved(ds, j, Kind::Sub);
        }
    }
    lemma_ordered_both(ds, m, s, Kind::Probe);
    lemma_ordered_both(ds, m, s, Kind::Backend);
    lemma_ordered_both(ds, m, s, Kind::Acl);
    lemma_ordered_both(ds, m, s, Kind::Sub);
}

proof fn lemma_ordered_both(ds: Seq<DeclV>, m: RenamingV, s: RenamingV, k: Kind)
    requires
        invariance::distinct_names(ds),
        invariance::ordered_by_canonical_names(
            m,
            rename::decl_table(ds, ds.len()),
            invariance::before_dead(ds, k),
            k,
            ds,
        ),
        forall|n: Seq<char>| #[trigger]
            renaming::new_name(s, n) != n ==> exists|i: int|
                0 <= i < ds.len() && #[trigger] ds[i] is Probe && ast::decl_name(ds[i]) == n,
    ensures
        invariance::ordered_by_canonical_names(
            both(m, s),
            rename::decl_table(ds, ds.len()),
            invariance::before_dead(ds, k),
            k,
            ds,
        ),
{
    let t = rename::decl_table(ds, ds.len());
    let c = invariance::before_dead(ds, k);
    let r = both(m, s);
    assert forall|i: int, n: Seq<char>|
        0 <= i < ds.len() && rename::unused(c, k, ds[i]) && #[trigger] invariance::holds_name(
            ds[i],
            n,
        ) implies n == ast::decl_name(ds[i]) || rename::resolved(t, c, n) is Some
        || renaming::new_name(r, n) == n by {
        if renaming::new_name(m, n) == n && renaming::new_name(s, n) != n && k != Kind::Probe {
            let j = choose|j: int|
                0 <= j < ds.len() && #[trigger] ds[j] is Probe && ast::decl_name(ds[j]) == n;
            lifted::lemma_probe_resolved(ds, j, k);
        }
    }
}

/// The declarations of a program after the passes, without places.
pub(crate) proof fn lemma_prepared_decls(p: ProgramV, specs: Map<Seq<char>, VmodSpec>)
    ensures
        match (
            normalize::prepared(p, specs),
            commuting::passed(layout::bare_decls(p.decls), specs),
        ) {
            (Ok(r), Ok(x)) => {
                &&& layout::bare_decls(r.decls) == probes::lifted_decls(x)
                &&& plain_decls(r) == merge::merged_first(
                    probes::lifted_decls(x),
                    probes::lifted_decls(x).len(),
                )
            },
            (Err(_), Err(_)) => true,
            _ => false,
        },
{
    passes::law_prepared_without_places(p, specs);
    match normalize::prepared(p, specs) {
        Ok(r) => passes::lemma_merged_program(r),
        Err(_) => {},
    }
}

/// What is known after lifting: the lifted probes of a moved program.
proof fn lemma_moved_forms(
    p: ProgramV,
    q: ProgramV,
    m: RenamingV,
    specs: Map<Seq<char>, VmodSpec>,
    x0: Seq<DeclV>,
    y: Seq<DeclV>,
) -> (s: RenamingV)
    requires
        moved(p, q, m),
        touches_own_names(m, layout::bare_decls(p.decls), specs),
        speakable_names(layout::bare_decls(q.decls)),
        speakable_vmods(specs),
        objects::made_alike(layout::bare_decls(q.decls)),
        commuting::passed(layout::bare_decls(p.decls), specs) == Ok::<Seq<DeclV>, ErrV>(x0),
        commuting::passed(layout::bare_decls(q.decls), specs) == Ok::<Seq<DeclV>, ErrV>(y),
    ensures
        shuffled_probes::moves_lifted(s),
        ({
            let a = renaming::renamed_decls(
                renaming::renamed_decls(probes::lifted_decls(x0), m),
                s,
            );
            let b = probes::lifted_decls(y);
            &&& a.to_multiset() == b.to_multiset()
            &&& shuffle::in_order(a, b)
        }),
        forall|n: Seq<char>| #[trigger]
            renaming::new_name(s, n) != n ==> exists|i: int|
                0 <= i < probes::lifted_decls(x0).len() && #[trigger] probes::lifted_decls(
                    x0,
                )[i] is Probe && ast::decl_name(probes::lifted_decls(x0)[i]) == n,
{
    let pd = layout::bare_decls(p.decls);
    let qd = layout::bare_decls(q.decls);
    let a = renaming::renamed_decls(pd, m);
    let o = shuffle::lemma_arranged(a, qd);
    invariance::lemma_same_members(a, qd);
    assert(objects::made_alike(a)) by {
        lemma_made_alike(qd, a);
    }
    commuting::law_passes_do_not_look_at_names(pd, specs, m);
    let x = renaming::renamed_decls(x0, m);
    assert(commuting::passed(a, specs) == Ok::<Seq<DeclV>, ErrV>(x));
    shuffle::lemma_passed(a, qd, o, specs);
    assert(speakable_names(a)) by {
        assert forall|i: int, n: Seq<char>|
            0 <= i < a.len() && #[trigger] invariance::holds_name(
                a[i],
                n,
            ) implies !text::begins_with(n, "$"@) by {
            assert(a.contains(a[i]));
            assert(qd.contains(a[i]));
            let j = choose|j: int| 0 <= j < qd.len() && qd[j] == a[i];
            assert(invariance::holds_name(qd[j], n));
        }
    }
    assert forall|r: RenamingV| #[trigger]
        shuffled_probes::moves_lifted(r) implies renaming::renamed_decls(x, r) == x by {
        lemma_lifted_apart(a, x, specs, r);
    }
    let s = shuffled_probes::lemma_lifted(x, y, o);
    assert forall|k: nat| renaming::new_name(m, #[trigger] probes::anon_name(k))
        == probes::anon_name(k) by {
        shuffled_probes::lemma_unspeakable(k);
    }
    shuffled_probes::lemma_lifted_names(x0, m);
    let l0 = probes::lifted_decls(x0);
    assert forall|n: Seq<char>| #[trigger] renaming::new_name(s, n) != n implies exists|i: int|
        0 <= i < l0.len() && #[trigger] l0[i] is Probe && ast::decl_name(l0[i]) == n by {
        let px = probes::all_probes(x, x.len());
        let k = choose|k: int| 0 <= k < px.len() && ast::decl_name(#[trigger] px[k]) == n;
        shuffled_probes::lemma_probes_only(x, x.len());
        let i = x.len() + k;
        assert(probes::lifted_decls(x)[i] == px[k]);
        assert(renaming::renamed_decls(l0, m)[i] == renaming::renamed_decl(l0[i], m));
        assert(text::begins_with(n, "$"@));
        assert(renaming::new_name(m, n) == n);
        assert(l0[i] is Probe);
        assert(ast::decl_name(l0[i]) == n);
    }
    s
}

pub(crate) proof fn lemma_made_alike(a: Seq<DeclV>, b: Seq<DeclV>)
    requires
        objects::made_alike(a),
        forall|d: DeclV| #[trigger] b.contains(d) == a.contains(d),
    ensures
        objects::made_alike(b),
{
    assert forall|n: Seq<char>, o: InstanceV| #[trigger]
        objects::makes_decls(b, n, o) implies objects::makes_decls(a, n, o) by {
        let i = choose|i: int| 0 <= i < b.len() && objects::makes_decl(#[trigger] b[i], n, o);
        assert(b.contains(b[i]));
        assert(a.contains(b[i]));
        let j = choose|j: int| 0 <= j < a.len() && a[j] == b[i];
        assert(objects::makes_decl(a[j], n, o));
    }
}

/// Names and the order of declarations do not matter: a program with other names
/// and its declarations in another order is as good, and where nothing is wrong
/// with it, has the same canonical form.
pub proof fn law_names_and_order_do_not_matter(
    p: ProgramV,
    q: ProgramV,
    m: RenamingV,
    specs: Map<Seq<char>, VmodSpec>,
)
    requires
        moved(p, q, m),
        touches_own_names(m, layout::bare_decls(p.decls), specs),
        speakable_names(layout::bare_decls(q.decls)),
        speakable_vmods(specs),
        normalize::prepared(p, specs) matches Ok(r) ==> well_settled(r) && invariance::fits_decls(
            m,
            plain_decls(r),
        ),
    ensures
        match (whole::form(Ok(p), specs, true), whole::form(Ok(q), specs, true)) {
            (Ok((a, _)), Ok((b, _))) => a == b,
            (Err(_), Err(_)) => true,
            _ => false,
        },
{
    let p0 = layout::bare_program(p);
    let q0 = layout::bare_program(q);
    let pd = p0.decls;
    let qd = q0.decls;
    whole::lemma_form_of_bare(p, specs, true);
    whole::lemma_form_of_bare(q, specs, true);
    renamed::law_names_and_order_are_as_good(p0, q0, m, specs);
    checking::law_findings_have_no_places(p, specs);
    checking::law_findings_have_no_places(q, specs);
    if symbols::outcome(p0, specs).error is None {
        soundness::law_objects_are_made_alike(q0, specs);
        lemma_prepared_decls(p, specs);
        lemma_prepared_decls(q, specs);
        let a = renaming::renamed_decls(pd, m);
        let o = shuffle::lemma_arranged(a, qd);
        invariance::lemma_same_members(a, qd);
        lemma_made_alike(qd, a);
        commuting::law_passes_do_not_look_at_names(pd, specs, m);
        shuffle::lemma_passed(a, qd, o, specs);
        match (commuting::passed(pd, specs), commuting::passed(qd, specs)) {
            (Ok(x0), Ok(y)) => lemma_same_form(p, q, m, specs, x0, y),
            _ => {},
        }
    }
}

proof fn lemma_same_form(
    p: ProgramV,
    q: ProgramV,
    m: RenamingV,
    specs: Map<Seq<char>, VmodSpec>,
    x0: Seq<DeclV>,
    y: Seq<DeclV>,
)
    requires
        moved(p, q, m),
        touches_own_names(m, layout::bare_decls(p.decls), specs),
        speakable_names(layout::bare_decls(q.decls)),
        speakable_vmods(specs),
        objects::made_alike(layout::bare_decls(q.decls)),
        commuting::passed(layout::bare_decls(p.decls), specs) == Ok::<Seq<DeclV>, ErrV>(x0),
        commuting::passed(layout::bare_decls(q.decls), specs) == Ok::<Seq<DeclV>, ErrV>(y),
        normalize::prepared(p, specs) matches Ok(r) ==> well_settled(r) && invariance::fits_decls(
            m,
            plain_decls(r),
        ),
    ensures
        match (normalize::prepared(p, specs), normalize::prepared(q, specs)) {
            (Ok(a), Ok(b)) => canon::program_json(normalize::finished(a, true))
                == canon::program_json(normalize::finished(b, true)),
            _ => false,
        },
{
    lemma_prepared_decls(p, specs);
    lemma_prepared_decls(q, specs);
    let pp = normalize::prepared(p, specs)->Ok_0;
    let qq = normalize::prepared(q, specs)->Ok_0;
    let s = lemma_moved_forms(p, q, m, specs, x0, y);
    let l0 = probes::lifted_decls(x0);
    let l1 = renaming::renamed_decls(l0, m);
    let l2 = renaming::renamed_decls(l1, s);
    let ly = probes::lifted_decls(y);
    let g = plain_decls(pp);
    lemma_words();
    assert(invariance::leaves_kept(s));
    shuffled_hooks::lemma_merged_names(l0, l0.len(), m);
    shuffled_hooks::lemma_merged_names(l1, l1.len(), s);
    lemma_both(g, m, s);
    invariance::lemma_same_members(l2, ly);
    assert(shuffled_hooks::placeless(ly)) by {
        assert(ly == layout::bare_decls(qq.decls));
    }
    assert(shuffled_hooks::placeless(l2)) by {
        assert forall|i: int| 0 <= i < l2.len() && (#[trigger] l2[i]) is Sub implies l2[
            i
        ]->Sub_span == ast::dummy_span() by {
            assert(l2.contains(l2[i]));
            assert(ly.contains(l2[i]));
            let j = choose|j: int| 0 <= j < ly.len() && ly[j] == l2[i];
            assert(ly[j] is Sub);
        }
    }
    shuffled_hooks::lemma_merged_items(l2, ly);
    shuffled_hooks::lemma_merged_order(l2, ly);
    assert forall|n: Seq<char>| #[trigger] renaming::new_name(s, n) != n implies exists|i: int|
        0 <= i < g.len() && #[trigger] g[i] is Probe && ast::decl_name(g[i]) == n by {
        let i = choose|i: int|
            0 <= i < l0.len() && #[trigger] l0[i] is Probe && ast::decl_name(l0[i]) == n;
        lifted::lemma_merged_members(l0, l0.len());
        assert(lifted::no_sub(l0[i]));
        assert(g.contains(l0[i]));
        let j = choose|j: int| 0 <= j < g.len() && g[j] == l0[i];
        assert(g[j] is Probe);
    }
    lemma_fits_both(g, m, s);
    law_equivalent_programs_have_one_form(pp, qq, both(m, s));
}

} // verus!
