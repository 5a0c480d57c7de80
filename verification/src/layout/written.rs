//! How literals, probes and the arguments of vmod calls are written does not
//! matter.

use crate::ast;
use crate::ast::{DeclV, ErrV, FieldV, ProgramV};
use crate::canon;
use crate::layout;
use crate::layout::checking;
use crate::layout::equivalence;
use crate::layout::naming;
use crate::layout::passes;
use crate::layout::whole;
use crate::normalize;
use crate::normalize::commuting;
use crate::normalize::fixpoint;
use crate::normalize::invariance;
use crate::normalize::literals;
use crate::normalize::once;
use crate::normalize::probes;
use crate::normalize::renaming;
use crate::normalize::renaming::RenamingV;
use crate::normalize::restyled;
use crate::normalize::shuffle;
use crate::normalize::shuffled_hooks;
use crate::normalize::shuffled_probes;
use crate::normalize::vmod_args;
use crate::symbols;
use crate::symbols::soundness;
use crate::vmod::VmodSpec;
use vstd::prelude::*;

verus! {

// ───────────────────────── literals ─────────────────────────

/// Programs that differ in nothing but how their literals are written have one
/// form: in trailing zeros, the case of headers, masks that are the default, and
/// in where their parts stand.
pub proof fn law_spelling_does_not_matter(
    p: ProgramV,
    q: ProgramV,
    specs: Map<Seq<char>, VmodSpec>,
    rename: bool,
)
    requires
        symbols::outcome(p, specs).error is None,
        symbols::outcome(q, specs).error is None,
        layout::bare_decls(literals::lit_decls(p.decls)) == layout::bare_decls(
            literals::lit_decls(q.decls),
        ),
    ensures
        whole::form(Ok(p), specs, rename) == whole::form(Ok(q), specs, rename),
{
    let a = literals::lit_program(p);
    let b = literals::lit_program(q);
    passes::lemma_pass_program(a, specs);
    passes::lemma_pass_program(b, specs);
    match (vmod_args::pass_program(a, specs), vmod_args::pass_program(b, specs)) {
        (Ok(x), Ok(y)) => {
            passes::lemma_lifted_program(x);
            passes::lemma_lifted_program(y);
            let f = probes::lifted_program(x);
            let g = probes::lifted_program(y);
            naming::law_finished_without_places(f, rename);
            naming::law_finished_without_places(g, rename);
            layout::law_canonical_form_has_no_places(normalize::finished(f, rename));
            layout::law_canonical_form_has_no_places(normalize::finished(g, rename));
            lemma_decls_alone(layout::bare_program(f), layout::bare_program(g), rename);
        },
        _ => {},
    }
}

/// Programs that make the same objects and differ in nothing but the style of
/// their vmod calls have one form: whether arguments are given by position or by
/// name, and whether a default is given or left out.
pub proof fn law_argument_style_does_not_matter(
    p: ProgramV,
    q: ProgramV,
    specs: Map<Seq<char>, VmodSpec>,
    rename: bool,
)
    requires
        symbols::outcome(p, specs).error is None,
        symbols::outcome(q, specs).error is None,
        fixpoint::plain_specs(specs),
        ({
            let a = literals::lit_decls(p.decls);
            let b = literals::lit_decls(q.decls);
            let k = commuting::known_of(a, specs);
            commuting::known_of(b, specs) == k && restyled::restyled_decls(a, b, k)
        }),
    ensures
        match (whole::form(Ok(p), specs, rename), whole::form(Ok(q), specs, rename)) {
            (Ok(a), Ok(b)) => a == b,
            (Err(_), Err(_)) => true,
            _ => false,
        },
{
    let a = literals::lit_program(p);
    let b = literals::lit_program(q);
    let k = commuting::known_of(a.decls, specs);
    assert(once::plain_known(k));
    restyled::law_styles_come_to_the_same(a.decls, b.decls, k);
    match (vmod_args::pass_program(a, specs), vmod_args::pass_program(b, specs)) {
        (Ok(x), Ok(y)) => {
            passes::lemma_lifted_program(x);
            passes::lemma_lifted_program(y);
            let f = probes::lifted_program(x);
            let g = probes::lifted_program(y);
            naming::law_finished_without_places(f, rename);
            naming::law_finished_without_places(g, rename);
            layout::law_canonical_form_has_no_places(normalize::finished(f, rename));
            layout::law_canonical_form_has_no_places(normalize::finished(g, rename));
            lemma_decls_alone(layout::bare_program(f), layout::bare_program(g), rename);
        },
        _ => {},
    }
}

/// Only the declarations of a program matter to its form.
proof fn lemma_decls_alone(p: ProgramV, q: ProgramV, rename: bool)
    requires
        p.decls == q.decls,
    ensures
        canon::program_json(normalize::finished(p, rename)) == canon::program_json(
            normalize::finished(q, rename),
        ),
        normalize::finished_names(p, rename) == normalize::finished_names(q, rename),
{
}

// ───────────────────────── probes ─────────────────────────

proof fn lemma_lit_probes(fs: Seq<FieldV>, n: nat, base: nat)
    requires
        n <= fs.len(),
    ensures
        probes::field_probes(literals::lit_fields(fs), n, base) == literals::lit_decls(
            probes::field_probes(fs, n, base),
        ),
    decreases n,
{
    let l = literals::lit_fields(fs);
    if n > 0 {
        lemma_lit_probes(fs, (n - 1) as nat, base);
        assert(l[n - 1] == literals::lit_field(fs[n - 1]));
    }
    assert(probes::field_probes(l, n, base) =~= literals::lit_decls(
        probes::field_probes(fs, n, base),
    ));
}

proof fn lemma_lit_all_probes(ds: Seq<DeclV>, n: nat)
    requires
        n <= ds.len(),
    ensures
        probes::all_probes(literals::lit_decls(ds), n) == literals::lit_decls(
            probes::all_probes(ds, n),
        ),
    decreases n,
{
    let l = literals::lit_decls(ds);
    if n > 0 {
        lemma_lit_all_probes(ds, (n - 1) as nat);
        let b = probes::all_probes(ds, (n - 1) as nat);
        let fs = probes::backend_fields(ds[n - 1]);
        assert(l[n - 1] == literals::lit_decl(ds[n - 1]));
        assert(probes::backend_fields(l[n - 1]) =~= literals::lit_fields(fs));
        lemma_lit_probes(fs, fs.len(), b.len());
    }
    assert(probes::all_probes(l, n) =~= literals::lit_decls(probes::all_probes(ds, n)));
}

proof fn lemma_lit_lifted(ds: Seq<DeclV>)
    ensures
        literals::lit_decls(probes::lifted_decls(ds)) == probes::lifted_decls(
            literals::lit_decls(ds),
        ),
{
    let l = literals::lit_decls(ds);
    let a = literals::lit_decls(probes::lifted_decls(ds));
    let b = probes::lifted_decls(l);
    lemma_lit_all_probes(ds, ds.len());
    assert forall|i: int| 0 <= i < ds.len() implies #[trigger] a[i] == b[i] by {
        lemma_lit_all_probes(ds, i as nat);
        assert(b[i] == probes::lifted_decl(l, i));
        assert(a[i] == literals::lit_decl(probes::lifted_decl(ds, i)));
        match ds[i] {
            DeclV::Backend { body: Some(fs), .. } => {
                let base = probes::all_probes(ds, i as nat).len();
                let lf = literals::lit_fields(fs);
                let u = probes::lifted_fields(lf, base);
                let v = literals::lit_fields(probes::lifted_fields(fs, base));
                assert forall|j: int| 0 <= j < fs.len() implies #[trigger] u[j] == v[j] by {
                    lemma_lit_probes(fs, j as nat, base);
                    assert(lf[j] == literals::lit_field(fs[j]));
                    assert(v[j] == literals::lit_field(probes::lifted_field(fs, j, base)));
                }
                assert(u =~= v);
            },
            _ => {},
        }
    }
    assert(a =~= b);
}

proof fn lemma_instances_ahead(ds: Seq<DeclV>, n: nat)
    requires
        n <= ds.len(),
    ensures
        vmod_args::instances_of(probes::lifted_decls(ds), n) == vmod_args::instances_of(ds, n),
    decreases n,
{
    if n > 0 {
        lemma_instances_ahead(ds, (n - 1) as nat);
        assert(probes::lifted_decls(ds)[n - 1] == probes::lifted_decl(ds, n - 1));
    }
}

proof fn lemma_instances_lifted(ds: Seq<DeclV>, n: nat)
    requires
        ds.len() <= n <= probes::lifted_decls(ds).len(),
    ensures
        vmod_args::instances_of(probes::lifted_decls(ds), n) == vmod_args::instances_of(
            ds,
            ds.len(),
        ),
    decreases n,
{
    if n == ds.len() {
        lemma_instances_ahead(ds, n);
    } else {
        lemma_instances_lifted(ds, (n - 1) as nat);
        shuffled_probes::lemma_probes_only(ds, ds.len());
        assert(probes::lifted_decls(ds)[n - 1] == probes::all_probes(ds, ds.len())[n - 1
            - ds.len()]);
    }
}

proof fn lemma_same_probes(a: Seq<DeclV>, b: Seq<DeclV>, n: nat)
    requires
        n <= a.len(),
        n <= b.len(),
        forall|i: int|
            0 <= i < n ==> probes::backend_fields(a[i]) == probes::backend_fields(
                #[trigger] b[i],
            ),
    ensures
        probes::all_probes(a, n) == probes::all_probes(b, n),
    decreases n,
{
    if n > 0 {
        lemma_same_probes(a, b, (n - 1) as nat);
        assert(probes::backend_fields(a[n - 1]) == probes::backend_fields(b[n - 1]));
    }
}

/// Lifted declarations come out of the first two passes lifted.
proof fn lemma_passed_lifted(ds: Seq<DeclV>, specs: Map<Seq<char>, VmodSpec>)
    ensures
        match (commuting::passed(ds, specs), commuting::passed(probes::lifted_decls(ds), specs)) {
            (Ok(x), Ok(y)) => y == probes::lifted_decls(x),
            (Err(_), Err(_)) => true,
            _ => false,
        },
{
    let l = literals::lit_decls(ds);
    let g = probes::lifted_decls(l);
    lemma_lit_lifted(ds);
    lemma_instances_lifted(l, g.len());
    let k = commuting::known_of(l, specs);
    assert(commuting::known_of(g, specs) == k);
    shuffle::lemma_pass_each(l, k, l.len());
    shuffle::lemma_pass_each(g, k, g.len());
    shuffled_probes::lemma_probes_only(l, l.len());
    let n = l.len();
    let pl = probes::all_probes(l, n);
    match (commuting::passed(ds, specs), commuting::passed(probes::lifted_decls(ds), specs)) {
        (Ok(x), Ok(y)) => {
            assert forall|i: int| 0 <= i < n implies probes::backend_fields(l[i])
                == probes::backend_fields(#[trigger] x[i]) by {
                assert(shuffle::passed_decl(l[i], k) == Ok::<DeclV, ErrV>(x[i]));
            }
            lemma_same_probes(l, x, n);
            let z = probes::lifted_decls(x);
            assert forall|i: int| 0 <= i < y.len() implies #[trigger] y[i] == z[i] by {
                assert(shuffle::passed_decl(g[i], k) == Ok::<DeclV, ErrV>(y[i]));
                if i < n {
                    lemma_same_probes(l, x, i as nat);
                    assert(g[i] == probes::lifted_decl(l, i));
                    assert(z[i] == probes::lifted_decl(x, i));
                    assert(shuffle::passed_decl(l[i], k) == Ok::<DeclV, ErrV>(x[i]));
                } else {
                    assert(g[i] == pl[i - n]);
                    assert(z[i] == pl[i - n]);
                }
            }
            assert(y =~= z);
        },
        (Ok(x), Err(_)) => {
            let i = choose|i: int|
                0 <= i < g.len() && shuffle::passed_decl(#[trigger] g[i], k) is Err;
            if i < n {
                assert(g[i] == probes::lifted_decl(l, i));
                assert(shuffle::passed_decl(l[i], k) == Ok::<DeclV, ErrV>(x[i]));
            } else {
                assert(g[i] == pl[i - n]);
            }
            assert(false);
        },
        (Err(_), Ok(y)) => {
            let i = choose|i: int|
                0 <= i < n && shuffle::passed_decl(#[trigger] l[i], k) is Err;
            assert(g[i] == probes::lifted_decl(l, i));
            assert(shuffle::passed_decl(g[i], k) == Ok::<DeclV, ErrV>(y[i]));
            assert(false);
        },
        _ => {},
    }
}

/// Whether the second program is the first one with the probes that are written
/// in place declared under names, with its names changed and its declarations in
/// another order.
pub open spec fn declared_apart(p: ProgramV, q: ProgramV, m: RenamingV) -> bool {
    let a = renaming::renamed_decls(probes::lifted_decls(layout::bare_decls(p.decls)), m);
    let b = layout::bare_decls(q.decls);
    &&& a.to_multiset() == b.to_multiset()
    &&& shuffle::in_order(a, b)
}

/// Whether a probe is written in place or declared under a name does not matter.
pub proof fn law_probes_in_place_do_not_matter(
    p: ProgramV,
    q: ProgramV,
    m: RenamingV,
    specs: Map<Seq<char>, VmodSpec>,
)
    requires
        symbols::outcome(p, specs).error is None,
        symbols::outcome(q, specs).error is None,
        declared_apart(p, q, m),
        commuting::leaves_headers(m),
        commuting::leaves_vmods(m, specs),
        commuting::leaves_sigs(m, specs),
        invariance::leaves_kept(m),
        normalize::prepared(p, specs) matches Ok(r) ==> equivalence::well_settled(r)
            && invariance::fits_decls(m, equivalence::plain_decls(r)),
    ensures
        match (whole::form(Ok(p), specs, true), whole::form(Ok(q), specs, true)) {
            (Ok((a, _)), Ok((b, _))) => a == b,
            (Err(_), Err(_)) => true,
            _ => false,
        },
{
    let pd = layout::bare_decls(p.decls);
    let qd = layout::bare_decls(q.decls);
    let l = probes::lifted_decls(pd);
    let a = renaming::renamed_decls(l, m);
    checking::law_findings_have_no_places(q, specs);
    soundness::law_objects_are_made_alike(layout::bare_program(q), specs);
    equivalence::lemma_prepared_decls(p, specs);
    equivalence::lemma_prepared_decls(q, specs);
    invariance::lemma_same_members(a, qd);
    equivalence::lemma_made_alike(qd, a);
    let o = shuffle::lemma_arranged(a, qd);
    lemma_passed_lifted(pd, specs);
    commuting::law_passes_do_not_look_at_names(l, specs, m);
    shuffle::lemma_passed(a, qd, o, specs);
    match (commuting::passed(pd, specs), commuting::passed(qd, specs)) {
        (Ok(x), Ok(y)) => {
            assert(commuting::passed(a, specs) == Ok::<Seq<DeclV>, ErrV>(
                renaming::renamed_decls(probes::lifted_decls(x), m),
            ));
            lemma_declared_form(p, q, m, specs, x, y, o);
        },
        _ => {},
    }
}

proof fn lemma_declared_form(
    p: ProgramV,
    q: ProgramV,
    m: RenamingV,
    specs: Map<Seq<char>, VmodSpec>,
    x: Seq<DeclV>,
    y: Seq<DeclV>,
    o: Seq<int>,
)
    requires
        invariance::one_to_one(m),
        invariance::leaves_kept(m),
        commuting::passed(layout::bare_decls(p.decls), specs) == Ok::<Seq<DeclV>, ErrV>(x),
        commuting::passed(layout::bare_decls(q.decls), specs) == Ok::<Seq<DeclV>, ErrV>(y),
        shuffle::arranged(renaming::renamed_decls(probes::lifted_decls(x), m), y, o),
        shuffle::in_order(renaming::renamed_decls(probes::lifted_decls(x), m), y),
        normalize::prepared(p, specs) matches Ok(r) ==> equivalence::well_settled(r)
            && invariance::fits_decls(m, equivalence::plain_decls(r)),
    ensures
        match (normalize::prepared(p, specs), normalize::prepared(q, specs)) {
            (Ok(a), Ok(b)) => canon::program_json(normalize::finished(a, true))
                == canon::program_json(normalize::finished(b, true)),
            _ => false,
        },
{
    equivalence::lemma_prepared_decls(p, specs);
    equivalence::lemma_prepared_decls(q, specs);
    let l0 = probes::lifted_decls(x);
    let l1 = renaming::renamed_decls(l0, m);
    let pp = normalize::prepared(p, specs)->Ok_0;
    let qq = normalize::prepared(q, specs)->Ok_0;
    lemma_no_probes_left(x, y, m, o);
    shuffle::lemma_same_items(l1, y, o);
    invariance::lemma_same_members(l1, y);
    assert(y == layout::bare_decls(qq.decls));
    assert(shuffled_hooks::placeless(y));
    assert(shuffled_hooks::placeless(l1)) by {
        assert forall|i: int| 0 <= i < l1.len() && (#[trigger] l1[i]) is Sub implies l1[
            i
        ]->Sub_span == ast::dummy_span() by {
            assert(l1.contains(l1[i]));
            assert(y.contains(l1[i]));
            let j = choose|j: int| 0 <= j < y.len() && y[j] == l1[i];
            assert(y[j] is Sub);
        }
    }
    shuffled_hooks::lemma_merged_names(l0, l0.len(), m);
    shuffled_hooks::lemma_merged_items(l1, y);
    shuffled_hooks::lemma_merged_order(l1, y);
    equivalence::law_equivalent_programs_have_one_form(pp, qq, m);
}

proof fn lemma_no_probes_left(x: Seq<DeclV>, y: Seq<DeclV>, m: RenamingV, o: Seq<int>)
    requires
        shuffle::arranged(renaming::renamed_decls(probes::lifted_decls(x), m), y, o),
    ensures
        probes::lifted_decls(y) == y,
{
    let l0 = probes::lifted_decls(x);
    let none = ProgramV {
        vcl_version: ast::dummy_span(),
        decls: x,
        comments: ast::CommentMapV::empty(),
        trailing_comments: seq![],
    };
    probes::law_no_probe_in_place(none);
    assert forall|j: int| 0 <= j < y.len() implies !probes::holds_probe(#[trigger] y[j]) by {
        let d = l0[o[j]];
        assert(y[j] == renaming::renamed_decl(d, m));
        assert(probes::lifted_program(none).decls[o[j]] == d);
        assert(!probes::holds_probe(d));
        let fs = probes::backend_fields(d);
        let gs = probes::backend_fields(y[j]);
        if probes::holds_probe(y[j]) {
            let i = choose|i: int| 0 <= i < gs.len() && (#[trigger] gs[i]).value is Probe;
            assert(gs[i] == renaming::renamed_field(fs[i], m));
            assert(fs[i].value is Probe);
            assert(false);
        }
    }
    let all = ProgramV { decls: y, ..none };
    probes::law_nothing_to_lift(all);
}

} // verus!
