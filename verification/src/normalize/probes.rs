//! The third pass: probes written in place.
//!
//! Every probe that is written in place in a backend becomes a declaration of
//! its own, behind the others, and the backend refers to it by name. The names
//! count the probes in the order in which they stand; they begin with `$`, so no
//! name of a program can be one of them.

use crate::ast;
use crate::ast::{Decl, DeclV, Field, FieldV, FieldValue, FieldValueV, Program, ProgramV, Span};
use crate::text;
use vstd::prelude::*;
use vstd::string::*;

verus! {

/// The name of the `n`th probe that is lifted.
pub open spec fn anon_name(n: nat) -> Seq<char> {
    "$anon_probe_"@ + text::nat_text(n)
}

/// The probes written in place among the first `n` fields, as declarations,
/// where `base` others were lifted before.
pub open spec fn field_probes(fs: Seq<FieldV>, n: nat, base: nat) -> Seq<DeclV>
    decreases n,
{
    if n == 0 {
        seq![]
    } else {
        let before = field_probes(fs, (n - 1) as nat, base);
        match fs[n - 1].value {
            FieldValueV::Probe(body) => before.push(
                DeclV::Probe {
                    name: anon_name(base + before.len() + 1),
                    body,
                    span: fs[n - 1].span,
                },
            ),
            _ => before,
        }
    }
}

/// The `i`th field, with a probe written in place replaced by its name.
pub open spec fn lifted_field(fs: Seq<FieldV>, i: int, base: nat) -> FieldV {
    match fs[i].value {
        FieldValueV::Probe(_) => FieldV {
            value: FieldValueV::ProbeRef(
                anon_name(base + field_probes(fs, i as nat, base).len() + 1),
            ),
            ..fs[i]
        },
        _ => fs[i],
    }
}

/// All fields, with the probes written in place replaced by their names.
pub open spec fn lifted_fields(fs: Seq<FieldV>, base: nat) -> Seq<FieldV> {
    Seq::new(fs.len(), |i: int| lifted_field(fs, i, base))
}

/// The fields of a backend.
pub open spec fn backend_fields(d: DeclV) -> Seq<FieldV> {
    match d {
        DeclV::Backend { body: Some(fs), .. } => fs,
        _ => seq![],
    }
}

/// The probes written in place in the first `n` declarations.
pub open spec fn all_probes(ds: Seq<DeclV>, n: nat) -> Seq<DeclV>
    decreases n,
{
    if n == 0 {
        seq![]
    } else {
        let before = all_probes(ds, (n - 1) as nat);
        let fs = backend_fields(ds[n - 1]);
        before + field_probes(fs, fs.len(), before.len())
    }
}

/// The `i`th declaration, with its probes replaced by their names.
pub open spec fn lifted_decl(ds: Seq<DeclV>, i: int) -> DeclV {
    match ds[i] {
        DeclV::Backend { name, none, body: Some(fs), span } => DeclV::Backend {
            name,
            none,
            body: Some(lifted_fields(fs, all_probes(ds, i as nat).len())),
            span,
        },
        d => d,
    }
}

/// The declarations with their probes replaced, and then the probes.
pub open spec fn lifted_decls(ds: Seq<DeclV>) -> Seq<DeclV> {
    Seq::new(ds.len(), |i: int| lifted_decl(ds, i)) + all_probes(ds, ds.len())
}

/// What the pass makes of a program.
pub open spec fn lifted_program(p: ProgramV) -> ProgramV {
    ProgramV { decls: lifted_decls(p.decls), ..p }
}

// ───────────────────────── laws ─────────────────────────

/// Whether a backend holds a probe written in place.
pub open spec fn holds_probe(d: DeclV) -> bool {
    exists|i: int|
        0 <= i < backend_fields(d).len() && (#[trigger] backend_fields(d)[i]).value is Probe
}

proof fn lemma_field_probes_are_probes(fs: Seq<FieldV>, n: nat, base: nat)
    ensures
        forall|i: int|
            0 <= i < field_probes(fs, n, base).len() ==> #[trigger] field_probes(
                fs,
                n,
                base,
            )[i] is Probe,
    decreases n,
{
    if n > 0 {
        lemma_field_probes_are_probes(fs, (n - 1) as nat, base);
    }
}

pub(crate) proof fn lemma_all_probes_are_probes(ds: Seq<DeclV>, n: nat)
    ensures
        forall|i: int| 0 <= i < all_probes(ds, n).len() ==> #[trigger] all_probes(ds, n)[i] is Probe,
    decreases n,
{
    if n > 0 {
        lemma_all_probes_are_probes(ds, (n - 1) as nat);
        let before = all_probes(ds, (n - 1) as nat);
        let fs = backend_fields(ds[n - 1]);
        lemma_field_probes_are_probes(fs, fs.len(), before.len());
    }
}

/// After the pass no backend holds a probe written in place.
pub proof fn law_no_probe_in_place(p: ProgramV)
    ensures
        forall|i: int|
            0 <= i < lifted_program(p).decls.len() ==> !holds_probe(
                #[trigger] lifted_program(p).decls[i],
            ),
{
    let ds = p.decls;
    lemma_all_probes_are_probes(ds, ds.len());
    assert forall|i: int| 0 <= i < lifted_program(p).decls.len() implies !holds_probe(
        #[trigger] lifted_program(p).decls[i],
    ) by {
        let d = lifted_program(p).decls[i];
        if i < ds.len() {
            assert(d == lifted_decl(ds, i));
            assert forall|j: int| 0 <= j < backend_fields(d).len() implies !((
            #[trigger] backend_fields(d)[j]).value is Probe) by {
                let fs = backend_fields(ds[i]);
                assert(backend_fields(d)[j] == lifted_field(fs, j, all_probes(ds, i as nat).len()));
            }
        } else {
            assert(d == all_probes(ds, ds.len())[i - ds.len()]);
            assert(backend_fields(d).len() == 0);
        }
    }
}

proof fn lemma_no_field_probes(fs: Seq<FieldV>, n: nat, base: nat)
    requires
        n <= fs.len(),
        forall|i: int| 0 <= i < fs.len() ==> !((#[trigger] fs[i]).value is Probe),
    ensures
        field_probes(fs, n, base).len() == 0,
    decreases n,
{
    if n > 0 {
        lemma_no_field_probes(fs, (n - 1) as nat, base);
    }
}

proof fn lemma_no_probes(ds: Seq<DeclV>, n: nat)
    requires
        n <= ds.len(),
        forall|i: int| 0 <= i < ds.len() ==> !holds_probe(#[trigger] ds[i]),
    ensures
        all_probes(ds, n) == Seq::<DeclV>::empty(),
    decreases n,
{
    if n > 0 {
        lemma_no_probes(ds, (n - 1) as nat);
        assert(!holds_probe(ds[n - 1]));
        let fs = backend_fields(ds[n - 1]);
        lemma_no_field_probes(fs, fs.len(), 0);
    }
    assert(all_probes(ds, n) =~= Seq::<DeclV>::empty());
}

/// A program without probes written in place is left as it is.
pub proof fn law_nothing_to_lift(p: ProgramV)
    requires
        forall|i: int| 0 <= i < p.decls.len() ==> !holds_probe(#[trigger] p.decls[i]),
    ensures
        lifted_program(p) == p,
{
    let ds = p.decls;
    lemma_no_probes(ds, ds.len());
    assert forall|i: int| 0 <= i < ds.len() implies lifted_decl(ds, i) == #[trigger] ds[i] by {
        assert(!holds_probe(ds[i]));
        if let DeclV::Backend { body: Some(fs), .. } = ds[i] {
            assert(lifted_fields(fs, all_probes(ds, i as nat).len()) =~= fs) by {
                assert forall|j: int| 0 <= j < fs.len() implies !((#[trigger] fs[j]).value
                    is Probe) by {
                    assert(backend_fields(ds[i])[j] == fs[j]);
                }
            }
        }
    }
    assert(lifted_decls(ds) =~= ds);
}

/// The pass is done once: a second run changes nothing.
pub proof fn law_lifting_is_idempotent(p: ProgramV)
    ensures
        lifted_program(lifted_program(p)) == lifted_program(p),
{
    law_no_probe_in_place(p);
    law_nothing_to_lift(lifted_program(p));
}

// ───────────────────────── the pass ─────────────────────────

/// The probes lifted so far, as declarations.
spec fn lifted_view(s: Seq<(Vec<Field>, Span)>) -> Seq<DeclV> {
    Seq::new(
        s.len(),
        |i: int|
            DeclV::Probe {
                name: anon_name((i + 1) as nat),
                body: ast::fields_view(s[i].0@),
                span: s[i].1,
            },
    )
}

fn name_of(n: u64) -> (r: String)
    ensures
        r@ == anon_name(n as nat),
{
    let mut r = "$anon_probe_".to_string();
    r.append(text::u64_text(n).as_str());
    r
}

fn lift_fields(fs: Vec<Field>, lifted: &mut Vec<(Vec<Field>, Span)>) -> (r: Vec<Field>)
    ensures
        ast::fields_view(r@) == lifted_fields(ast::fields_view(fs@), old(lifted)@.len()),
        lifted_view(final(lifted)@) == lifted_view(old(lifted)@) + field_probes(
            ast::fields_view(fs@),
            fs@.len(),
            old(lifted)@.len(),
        ),
{
    let ghost list = fs@;
    let ghost lv = ast::fields_view(list);
    let ghost base = lifted@.len();
    let ghost before = lifted_view(lifted@);
    let mut out: Vec<Field> = Vec::new();
    assert(before =~= before + field_probes(lv, 0, base));
    for f in it: fs
        invariant
            it.seq() == list,
            lv == ast::fields_view(list),
            before.len() == base,
            ast::fields_view(out@) == lifted_fields(lv, base).take(it.index() as int),
            lifted_view(lifted@) == before + field_probes(lv, it.index() as nat, base),
    {
        let ghost at = it.index() as int;
        assert(lv[at] == f@);
        let ghost done = field_probes(lv, at as nat, base);
        assert(lifted@.len() == lifted_view(lifted@).len());
        let next = match f.value {
            FieldValue::Probe(body) => {
                let ghost held = lifted@;
                lifted.push((body, f.span));
                let n: u64 = lifted.len() as u64;
                proof {
                    assert(lifted_view(lifted@) =~= lifted_view(held).push(
                        DeclV::Probe {
                            name: anon_name(base + done.len() + 1),
                            body: ast::fields_view(body@),
                            span: f.span,
                        },
                    ));
                    assert(lifted_view(lifted@) =~= before + field_probes(
                        lv,
                        (at + 1) as nat,
                        base,
                    ));
                }
                Field { name: f.name, value: FieldValue::ProbeRef(name_of(n)), span: f.span }
            },
            other => Field { name: f.name, value: other, span: f.span },
        };
        proof {
            assert(next@ == lifted_field(lv, at, base));
            ast::lemma_fields_push(out@, next);
            assert(lifted_fields(lv, base).take(at + 1) =~= lifted_fields(lv, base).take(at).push(
                lifted_field(lv, at, base),
            ));
        }
        out.push(next);
    }
    assert(lifted_fields(lv, base).take(lv.len() as int) =~= lifted_fields(lv, base));
    out
}

/// Runs the pass.
pub fn run(p: &mut Program)
    ensures
        final(p)@ == lifted_program(old(p)@),
{
    let mut decls: Vec<Decl> = Vec::new();
    std::mem::swap(&mut decls, &mut p.decls);
    let ghost list = decls@;
    let ghost lv = ast::decls_view(list);
    let mut out: Vec<Decl> = Vec::new();
    let mut lifted: Vec<(Vec<Field>, Span)> = Vec::new();
    assert(lifted_view(lifted@) =~= all_probes(lv, 0));
    let ghost whole = Seq::new(lv.len(), |i: int| lifted_decl(lv, i));
    for d in it: decls
        invariant
            it.seq() == list,
            lv == ast::decls_view(list),
            whole == Seq::new(lv.len(), |i: int| lifted_decl(lv, i)),
            ast::decls_view(out@) == whole.take(it.index() as int),
            lifted_view(lifted@) == all_probes(lv, it.index() as nat),
    {
        let ghost at = it.index() as int;
        assert(lv[at] == d@);
        assert(lifted@.len() == lifted_view(lifted@).len());
        let ghost before = lifted_view(lifted@);
        let next = match d {
            Decl::Backend { name, none, body: Some(fs), span } => {
                let fields = lift_fields(fs, &mut lifted);
                Decl::Backend { name, none, body: Some(fields), span }
            },
            other => other,
        };
        proof {
            assert(next@ == lifted_decl(lv, at));
            ast::lemma_decls_push(out@, next);
            assert(whole.take(at + 1) =~= whole.take(at).push(lifted_decl(lv, at)));
            assert(lifted_view(lifted@) =~= all_probes(lv, (at + 1) as nat));
        }
        out.push(next);
    }
    let ghost probes = lifted@;
    let total: usize = lifted.len();
    let mut n: u64 = 0;
    assert(ast::decls_view(out@) =~= whole + lifted_view(probes).take(0));
    for x in it: lifted
        invariant
            it.seq() == probes,
            probes.len() == total,
            n == it.index(),
            ast::decls_view(out@) == whole + lifted_view(probes).take(it.index() as int),
    {
        let ghost at = it.index() as int;
        n += 1;
        let next = Decl::Probe { name: name_of(n), body: x.0, span: x.1 };
        proof {
            assert(next@ == lifted_view(probes)[at]);
            ast::lemma_decls_push(out@, next);
            assert(lifted_view(probes).take(at + 1) =~= lifted_view(probes).take(at).push(next@));
            assert(whole + lifted_view(probes).take(at + 1) =~= (whole + lifted_view(probes).take(
                at,
            )).push(next@));
        }
        out.push(next);
    }
    assert(lifted_view(probes).take(probes.len() as int) =~= lifted_view(probes));
    p.decls = out;
}

proof fn lemma_field_probe_at(fs: Seq<FieldV>, n: nat, base: nat, j: int)
    requires
        0 <= j < n <= fs.len(),
        fs[j].value is Probe,
    ensures
        ({
            let k = field_probes(fs, j as nat, base).len();
            &&& k < field_probes(fs, n, base).len()
            &&& field_probes(fs, n, base)[k as int] == (DeclV::Probe {
                name: anon_name(base + k + 1),
                body: fs[j].value->Probe_0,
                span: fs[j].span,
            })
        }),
    decreases n,
{
    if j < n - 1 {
        lemma_field_probe_at(fs, (n - 1) as nat, base, j);
    }
}

proof fn lemma_probes_of(ds: Seq<DeclV>, n: nat, i: int, k: int)
    requires
        0 <= i < n <= ds.len(),
        ({
            let before = all_probes(ds, i as nat).len();
            let fs = backend_fields(ds[i]);
            0 <= k < field_probes(fs, fs.len(), before).len()
        }),
    ensures
        ({
            let before = all_probes(ds, i as nat).len();
            let fs = backend_fields(ds[i]);
            &&& before + k < all_probes(ds, n).len()
            &&& all_probes(ds, n)[before + k] == field_probes(fs, fs.len(), before)[k]
        }),
    decreases n,
{
    if i < n - 1 {
        lemma_probes_of(ds, (n - 1) as nat, i, k);
    }
}

/// A probe that stands in a backend becomes a declaration with the same fields, and the
/// backend names it where it stood; every other field and every other declaration stays
/// as it is.
pub proof fn law_probes_in_place_are_declared(ds: Seq<DeclV>, i: int, j: int)
    requires
        0 <= i < ds.len(),
    ensures
        ({
            let r = lifted_decls(ds);
            match (ds[i], r[i]) {
                (
                    DeclV::Backend { name: m, none: p, body: Some(fs), span: s },
                    DeclV::Backend { name: n, none: q, body: Some(gs), span: t },
                ) => m == n && p == q && s == t && fs.len() == gs.len() && (0 <= j < fs.len() ==> {
                    &&& gs[j].name == fs[j].name && gs[j].span == fs[j].span
                    &&& match fs[j].value {
                        FieldValueV::Probe(body) => gs[j].value matches FieldValueV::ProbeRef(n)
                            && exists|k: int|
                            ds.len() <= k < r.len() && (#[trigger] r[k] matches DeclV::Probe {
                                name,
                                body: b,
                                ..
                            } && name == n && b == body),
                        v => gs[j].value == v,
                    }
                }),
                (DeclV::Backend { body: Some(_), .. }, _) => false,
                (d, e) => d == e,
            }
        }),
{
    let r = lifted_decls(ds);
    assert(r[i] == lifted_decl(ds, i));
    match ds[i] {
        DeclV::Backend { body: Some(fs), .. } => {
            let base = all_probes(ds, i as nat).len();
            if 0 <= j < fs.len() && fs[j].value is Probe {
                let k = field_probes(fs, j as nat, base).len();
                lemma_field_probe_at(fs, fs.len(), base, j);
                lemma_probes_of(ds, ds.len(), i, k as int);
                let at = ds.len() + base + k;
                assert(r[at as int] == all_probes(ds, ds.len())[(base + k) as int]);
            }
        },
        _ => {},
    }
}

} // verus!
