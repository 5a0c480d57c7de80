//! What is printed under canonical names has the canonical form of the program
//! that was printed.

use crate::ast;
use crate::ast::{DeclV, ErrV, ProgramV};
use crate::canon;
use crate::layout;
use crate::layout::equivalence;
use crate::layout::naming;
use crate::layout::passes;
use crate::layout::whole;
use crate::lexer;
use crate::normalize;
use crate::normalize::commuting;
use crate::normalize::fixpoint;
use crate::normalize::invariance;
use crate::normalize::literals;
use crate::normalize::merge;
use crate::normalize::numbering;
use crate::normalize::objects;
use crate::normalize::once;
use crate::normalize::probes;
use crate::normalize::rename;
use crate::normalize::rename::{AssignedV, Kind};
use crate::normalize::renaming;
use crate::normalize::renaming::RenamingV;
use crate::normalize::sort;
use crate::normalize::vmod_args::InstanceV;
use crate::parser;
use crate::pipeline;
use crate::printer;
use crate::readback;
use crate::readback::described;
use crate::readback::fixpoint as printing;
use crate::readback::lifted;
use crate::readback::names;
use crate::readback::prepared;
use crate::readback::source;
use crate::readback::writable;
use crate::symbols;
use crate::symbols::soundness;
use crate::uses;
use crate::uses::UseV;
use crate::vmod::VmodSpec;
use vstd::prelude::*;
use vstd::string::*;

verus! {

// ───────────────────────── a renaming of all names ─────────────────────────

/// The canonical names of declarations, as a renaming.
pub open spec fn canonical_names(ds: Seq<DeclV>) -> RenamingV {
    rename::renaming_of(rename::decl_table(ds, ds.len()), rename::all_names(ds))
}

/// Whether a renaming changes a name.
pub open spec fn changes(r: RenamingV, n: Seq<char>) -> bool {
    r.contains_key(n) && r[n] != n
}

/// Whether a renaming gives that name to another one.
pub open spec fn gives(r: RenamingV, n: Seq<char>) -> bool {
    exists|x: Seq<char>| #[trigger] changes(r, x) && r[x] == n
}

/// Whether a name can be in no program, nor be that of a lifted probe.
pub open spec fn strange(n: Seq<char>) -> bool {
    !writable::usual(n)
}

/// A renaming that makes room for the names that it gives.
pub open spec fn spread(r: RenamingV) -> RenamingV {
    Map::new(
        |n: Seq<char>| true,
        |n: Seq<char>|
            if changes(r, n) {
                r[n]
            } else if gives(r, n) || strange(n) {
                seq!['$', '$'] + n
            } else {
                n
            },
    )
}

/// Whether different names get different new names, none of them strange.
spec fn differs(r: RenamingV) -> bool {
    &&& forall|a: Seq<char>, b: Seq<char>| #[trigger]
        changes(r, a) && #[trigger] changes(r, b) && r[a] == r[b] ==> a == b
    &&& forall|a: Seq<char>| #[trigger] changes(r, a) ==> !strange(r[a])
}

proof fn lemma_spread(r: RenamingV)
    requires
        differs(r),
    ensures
        invariance::one_to_one(spread(r)),
{
    let m = spread(r);
    let two = seq!['$', '$'];
    assert forall|a: Seq<char>, b: Seq<char>|
        #[trigger] renaming::new_name(m, a) == #[trigger] renaming::new_name(m, b) implies a
        == b by {
        let x = renaming::new_name(m, a);
        assert(strange(two + a) && strange(two + b)) by {
            assert((two + a)[0] == '$' && (two + a)[1] == '$');
            assert((two + b)[0] == '$' && (two + b)[1] == '$');
        }
        let far_a = !changes(r, a) && (gives(r, a) || strange(a));
        let far_b = !changes(r, b) && (gives(r, b) || strange(b));
        if far_a && far_b {
            assert((two + a).skip(2) =~= a);
            assert((two + b).skip(2) =~= b);
        } else if far_a {
            assert(strange(x));
            if changes(r, b) {
                assert(!strange(r[b]));
            }
        } else if far_b {
            assert(strange(x));
            if changes(r, a) {
                assert(!strange(r[a]));
            }
        } else if changes(r, a) && !changes(r, b) {
            assert(gives(r, b));
        } else if changes(r, b) && !changes(r, a) {
            assert(gives(r, a));
        }
    }
}

// ───────────────────────── the canonical names ─────────────────────────

/// The place at which a name got its canonical name.
proof fn lemma_assigned_at(s: Seq<AssignedV>, k: Kind, n: Seq<char>) -> (i: int)
    requires
        rename::assigned_name(s, k, n) is Some,
    ensures
        0 <= i < s.len(),
        s[i].kind == k,
        s[i].name == n,
        s[i].canonical == rename::assigned_name(s, k, n)->0,
    decreases s.len(),
{
    if s.last().kind == k && s.last().name == n {
        s.len() - 1
    } else {
        lemma_assigned_at(s.drop_last(), k, n)
    }
}

/// The kind under which a name is resolved.
proof fn lemma_resolved_at(ds: Seq<DeclV>, n: Seq<char>) -> (i: int)
    requires
        canonical_names(ds).contains_key(n),
    ensures
        ({
            let s = rename::all_names(ds).assigned;
            &&& 0 <= i < s.len()
            &&& s[i].name == n
            &&& s[i].canonical == canonical_names(ds)[n]
        }),
{
    let t = rename::decl_table(ds, ds.len());
    let c = rename::all_names(ds);
    if c.objects.contains(n) {
        lemma_assigned_at(c.assigned, Kind::Obj, n)
    } else {
        lemma_assigned_at(c.assigned, rename::kind_of(t[n])->0, n)
    }
}

proof fn lemma_given_name(ds: Seq<DeclV>, n: Seq<char>)
    requires
        changes(canonical_names(ds), n),
    ensures
        ({
            let x = canonical_names(ds)[n];
            &&& x.len() > 0
            &&& x[0] == 'b' || x[0] == 'p' || x[0] == 'a' || x[0] == 's' || x[0] == 'o'
            &&& writable::numbered_word(x)
        }),
{
    let c = rename::all_names(ds);
    numbering::law_every_declaration_is_named(ds);
    let i = lemma_resolved_at(ds, n);
    numbering::law_names_are_numbered(c.assigned, i);
    let k = c.assigned[i].kind;
    numbering::lemma_initials();
    numbering::lemma_numbered_initial(k, rename::numbers_of(c.assigned.take(i), k) + 1);
    writable::lemma_numbered(k, rename::numbers_of(c.assigned.take(i), k) + 1);
}

proof fn lemma_differs(ds: Seq<DeclV>)
    ensures
        differs(canonical_names(ds)),
        forall|a: Seq<char>, b: Seq<char>|
            #[trigger] canonical_names(ds).contains_key(a)
                && #[trigger] canonical_names(ds).contains_key(b) && canonical_names(ds)[a]
                == canonical_names(ds)[b] ==> a == b,
{
    let r = canonical_names(ds);
    let s = rename::all_names(ds).assigned;
    numbering::law_every_declaration_is_named(ds);
    assert forall|a: Seq<char>, b: Seq<char>|
        #[trigger] r.contains_key(a) && #[trigger] r.contains_key(b) && r[a] == r[b] implies a
        == b by {
        let i = lemma_resolved_at(ds, a);
        let j = lemma_resolved_at(ds, b);
        if i < j {
            numbering::law_canonical_names_differ(s, i, j);
        } else if j < i {
            numbering::law_canonical_names_differ(s, j, i);
        }
    }
    assert forall|a: Seq<char>| #[trigger] changes(r, a) implies !strange(r[a]) by {
        lemma_given_name(ds, a);
    }
}

/// Whether the canonical names can be given: the words that always stay keep
/// their names, and no name that gets no canonical one is one of them.
pub open spec fn names_fit(ds: Seq<DeclV>) -> bool {
    let r = canonical_names(ds);
    &&& invariance::leaves_kept(r)
    &&& renaming::new_name(r, "http"@) == "http"@
    &&& forall|i: int, n: Seq<char>|
        0 <= i < ds.len() && #[trigger] invariance::holds_name(ds[i], n) && gives(r, n)
            ==> r.contains_key(n)
}

/// Whether the unused declarations of a kind are ordered by canonical names
/// alone.
pub open spec fn kind_ordered(ds: Seq<DeclV>, k: Kind) -> bool {
    invariance::ordered_by_canonical_names(
        canonical_names(ds),
        rename::decl_table(ds, ds.len()),
        invariance::before_dead(ds, k),
        k,
        ds,
    )
}

/// Whether the canonical names can stand for the names of declarations: they can
/// be given, and the unused declarations are ordered by them alone.
pub open spec fn named_apart(ds: Seq<DeclV>) -> bool {
    &&& names_fit(ds)
    &&& kind_ordered(ds, Kind::Probe)
    &&& kind_ordered(ds, Kind::Backend)
    &&& kind_ordered(ds, Kind::Acl)
    &&& kind_ordered(ds, Kind::Sub)
}

spec fn usual_names(ds: Seq<DeclV>) -> bool {
    forall|i: int, n: Seq<char>|
        0 <= i < ds.len() && #[trigger] invariance::holds_name(ds[i], n) ==> writable::usual(n)
}

proof fn lemma_spread_agrees(ds: Seq<DeclV>, i: int, n: Seq<char>)
    requires
        names_fit(ds),
        usual_names(ds),
        0 <= i < ds.len(),
        invariance::holds_name(ds[i], n),
    ensures
        renaming::new_name(spread(canonical_names(ds)), n) == renaming::new_name(
            canonical_names(ds),
            n,
        ),
{
    let r = canonical_names(ds);
    lemma_differs(ds);
    if !changes(r, n) && gives(r, n) {
        let x = choose|x: Seq<char>| #[trigger] changes(r, x) && r[x] == n;
        assert(r.contains_key(n) && r.contains_key(x));
    }
}

proof fn lemma_spread_names(ds: Seq<DeclV>)
    requires
        names_fit(ds),
        usual_names(ds),
    ensures
        invariance::leaves_kept(spread(canonical_names(ds))),
        commuting::leaves_headers(spread(canonical_names(ds))),
        renaming::renamed_decls(ds, spread(canonical_names(ds))) == renaming::renamed_decls(
            ds,
            canonical_names(ds),
        ),
{
    let r = canonical_names(ds);
    let m = spread(r);
    lemma_differs(ds);
    lemma_spread(r);
    numbering::lemma_initials();
    assert forall|n: Seq<char>| ast::builtin_name(n) || n == "default"@ implies
        #[trigger] renaming::new_name(m, n) == n by {
        assert(renaming::new_name(r, n) == n);
        if ast::builtin_name(n) {
            let head = n.subrange(0, "vcl_"@.len() as int);
            assert(head[0] == n[0]);
        }
        if gives(r, n) {
            let x = choose|x: Seq<char>| #[trigger] changes(r, x) && r[x] == n;
            lemma_given_name(ds, x);
        }
    }
    reveal_strlit("http");
    if gives(r, "http"@) {
        let x = choose|x: Seq<char>| #[trigger] changes(r, x) && r[x] == "http"@;
        lemma_given_name(ds, x);
    }
    assert forall|i: int, n: Seq<char>|
        0 <= i < ds.len() && #[trigger] invariance::holds_name(ds[i], n) implies renaming::new_name(
        m,
        n,
    ) == renaming::new_name(r, n) by {
        lemma_spread_agrees(ds, i, n);
    }
    lemma_renamed_alike(ds, m, r);
}

proof fn lemma_spread_fits(ds: Seq<DeclV>)
    requires
        named_apart(ds),
        usual_names(ds),
    ensures
        invariance::fits_decls(spread(canonical_names(ds)), ds),
{
    lemma_spread_names(ds);
    let t = rename::decl_table(ds, ds.len());
    let c = rename::all_names(ds);
    let r = canonical_names(ds);
    let m = spread(r);
    assert forall|i: int, n: Seq<char>|
        0 <= i < ds.len() && #[trigger] invariance::holds_name(ds[i], n) implies (rename::resolved(
        t,
        c,
        n,
    ) is Some || renaming::new_name(m, n) == n) && renaming::new_name(m, n) == renaming::new_name(
        r,
        n,
    ) by {
        lemma_spread_agrees(ds, i, n);
    }
}

proof fn lemma_bare_holds(d: DeclV, n: Seq<char>)
    requires
        invariance::holds_name(d, n),
    ensures
        invariance::holds_name(layout::bare_decl(d), n),
{
    let b = layout::bare_decl(d);
    match d {
        DeclV::Backend { name, body: Some(fs), .. } => {
            let bs = layout::bare_fields(fs);
            if n != name {
                let i = choose|i: int|
                    0 <= i < fs.len() && rename::ref_of(#[trigger] fs[i]) == Some(n);
                assert(bs.len() == fs.len() && bs[i] == layout::bare_field(fs[i]));
                assert(rename::ref_of(bs[i]) == Some(n));
            }
        },
        DeclV::Sub { name, body, .. } => {
            naming::lemma_body_uses(body);
            let bs = layout::bare_stmts(body);
            assert(b->Sub_body == bs && b->Sub_name == name);
            if n != name {
                assert(exists|u: UseV| #[trigger]
                    uses::body_uses(body).contains(u) && invariance::use_name(u) == n);
                let u = choose|u: UseV| #[trigger]
                    uses::body_uses(body).contains(u) && invariance::use_name(u) == n;
                assert(uses::body_uses(bs).contains(u) && invariance::use_name(u) == n);
                assert(uses::body_uses(b->Sub_body).contains(u));
            }
        },
        _ => {},
    }
}

/// Where declarations stand does not matter to their names.
proof fn lemma_bare_names(g: Seq<DeclV>)
    requires
        names_fit(layout::bare_decls(g)),
    ensures
        names_fit(g),
        canonical_names(layout::bare_decls(g)) == canonical_names(g),
{
    let ds = layout::bare_decls(g);
    naming::law_names_have_no_places(g);
    naming::lemma_table(g, g.len());
    naming::lemma_renaming_of(rename::decl_table(g, g.len()), rename::all_names(g));
    let r = canonical_names(g);
    assert(canonical_names(ds) == r);
    assert forall|i: int, n: Seq<char>|
        0 <= i < g.len() && #[trigger] invariance::holds_name(g[i], n) && gives(r, n) implies
        r.contains_key(n) by {
        lemma_bare_holds(g[i], n);
        assert(invariance::holds_name(ds[i], n));
    }
}

/// Renamings that agree on the names that are held come to the same.
proof fn lemma_renamed_alike(ds: Seq<DeclV>, m: RenamingV, r: RenamingV)
    requires
        forall|i: int, n: Seq<char>|
            0 <= i < ds.len() && #[trigger] invariance::holds_name(ds[i], n)
                ==> renaming::new_name(m, n) == renaming::new_name(r, n),
    ensures
        renaming::renamed_decls(ds, m) == renaming::renamed_decls(ds, r),
{
    let none = RenamingV::empty();
    assert forall|i: int| 0 <= i < ds.len() implies renaming::renamed_decl(#[trigger] ds[i], m)
        == renaming::renamed_decl(ds[i], r) by {
        let d = ds[i];
        assert forall|n: Seq<char>| #[trigger] invariance::holds_name(
            d,
            n,
        ) implies invariance::agree_on(n, m, r, none) && invariance::agree_on(n, m, m, none) by {
            assert(invariance::holds_name(ds[i], n));
        }
        invariance::lemma_holds_agree(d, m, r, none);
        invariance::lemma_twice_decl(d, m, r, none);
        invariance::lemma_holds_agree(d, m, m, none);
        invariance::lemma_twice_decl(d, m, m, none);
    }
    assert(renaming::renamed_decls(ds, m) =~= renaming::renamed_decls(ds, r));
}

// ───────────────────────── the passes again ─────────────────────────

/// Whether making room for the canonical names leaves what the descriptions of
/// vmods speak of.
pub open spec fn leaves_specs(ds: Seq<DeclV>, specs: Map<Seq<char>, VmodSpec>) -> bool {
    let m = spread(canonical_names(ds));
    commuting::leaves_vmods(m, specs) && commuting::leaves_sigs(m, specs)
}

/// The passes leave a program under canonical names alone.
proof fn lemma_passes_again(p: ProgramV, specs: Map<Seq<char>, VmodSpec>)
    requires
        once::ascii_decls(p.decls),
        fixpoint::plain_specs(specs),
        objects::made_alike(p.decls),
        normalize::prepared(p, specs) matches Ok(q) && ({
            let g = merge::merged_program(q).decls;
            &&& names_fit(g)
            &&& usual_names(g)
            &&& leaves_specs(g, specs)
            &&& objects::made_alike(normalize::finished(q, true).decls)
        }),
    ensures
        ({
            let n = normalize::finished(normalize::prepared(p, specs)->Ok_0, true);
            normalize::prepared(n, specs) == Ok::<ProgramV, ErrV>(n)
        }),
{
    let q = normalize::prepared(p, specs)->Ok_0;
    let g = merge::merged_program(q).decls;
    let n = normalize::finished(q, true);
    let m = spread(canonical_names(g));
    let k = commuting::known_of(g, specs);
    fixpoint::lemma_merged_again(p, specs);
    lemma_spread_names(g);
    let r = renaming::renamed_decls(g, m);
    assert forall|i: int| 0 <= i < g.len() implies literals::lit_decl(#[trigger] g[i]) == g[i] by {
        assert(fixpoint::done_decl(g[i], k));
    }
    assert(literals::lit_decls(g) =~= g);
    fixpoint::lemma_decls_again(g, k, g.len());
    assert(g.take(g.len() as int) =~= g);
    commuting::law_passes_do_not_look_at_names(g, specs, m);
    assert forall|i: int| 0 <= i < r.len() implies literals::lit_decl(#[trigger] r[i]) == r[i] by {
        commuting::lemma_lit_decl(g[i], m);
    }
    assert(literals::lit_decls(r) =~= r);
    let j = commuting::known_of(r, specs);
    assert(once::plain_known(j));
    fixpoint::lemma_pass_decls(r, j, r.len());
    assert(fixpoint::done_decls(r, j));
    fixpoint::lemma_renamed_probes(g, m);
    fixpoint::lemma_sorted(r, j);
    fixpoint::lemma_sorted_probes(r);
    assert(n.decls == sort::sorted_decls(r));
    assert forall|x: Seq<char>, o: InstanceV| #[trigger] objects::makes_decls(n.decls, x, o)
        == objects::makes_decls(r, x, o) by {}
    objects::law_objects_by_name(n.decls, r);
    fixpoint::lemma_left_alone(n, specs);
}

// ───────────────────────── the fixpoint ─────────────────────────

/// Whether what is printed of a prepared program under canonical names stands for
/// it: it is valid, the canonical names can stand for its names and leave what the
/// vmods speak of, and nothing about the order of the declarations is left open.
pub open spec fn stands_renamed(q: ProgramV, specs: Map<Seq<char>, VmodSpec>) -> bool {
    let n = normalize::finished(q, true);
    let ds = equivalence::plain_decls(q);
    let a = rename::canonical_decls(ds);
    let b = equivalence::plain_decls(n);
    &&& symbols::outcome(n, specs).error is None
    &&& named_apart(ds)
    &&& leaves_specs(ds, specs)
    &&& equivalence::well_settled(q)
    &&& invariance::other_hooks(b, b.len()) == invariance::other_hooks(a, a.len())
}

/// Whether a valid program is printed under canonical names as a valid program
/// that stands for it: no argument is left out before another one, and the pieces
/// of its subroutines meet as they should.
pub open spec fn prints_renamed(p: ProgramV, specs: Map<Seq<char>, VmodSpec>) -> bool {
    &&& symbols::outcome(p, specs).error is None
    &&& writable::pieces_meet(p.decls)
    &&& normalize::prepared(p, specs) matches Ok(q) && described::full_bodies(q.decls)
        && stands_renamed(q, specs)
}

/// The text that is printed for a program under canonical names.
pub open spec fn renamed_text(p: ProgramV, specs: Map<Seq<char>, VmodSpec>) -> Seq<char> {
    match pipeline::prepared(p, specs, true) {
        Ok((q, _)) => printer::program_text(q),
        Err(_) => seq![],
    }
}

proof fn lemma_renamed_and_reordered(q: ProgramV)
    requires
        names_fit(equivalence::plain_decls(q)),
        usual_names(merge::merged_program(q).decls),
        usual_names(equivalence::plain_decls(q)),
        ({
            let a = rename::canonical_decls(equivalence::plain_decls(q));
            let b = equivalence::plain_decls(normalize::finished(q, true));
            invariance::other_hooks(b, b.len()) == invariance::other_hooks(a, a.len())
        }),
    ensures
        equivalence::renamed_and_reordered(
            q,
            normalize::finished(q, true),
            spread(canonical_names(equivalence::plain_decls(q))),
        ),
{
    let g = merge::merged_program(q).decls;
    let ds = equivalence::plain_decls(q);
    let n = normalize::finished(q, true);
    let m = spread(canonical_names(g));
    lemma_bare_names(g);
    lemma_spread_names(g);
    lemma_spread_names(ds);
    let r = renaming::renamed_decls(g, m);
    assert(rename::canonical_decls(g) == r);
    assert(n.decls == sort::sorted_decls(r));
    merge::law_builtins_are_declared_once(q);
    printing::lemma_renamed_once(g, m);
    printing::lemma_sorted_once(r);
    merge::law_merging_is_done_once(n);
    assert(equivalence::plain_decls(n) == layout::bare_decls(n.decls));
    passes::lemma_sorted_decls(r);
    naming::law_names_have_no_places(g);
    sort::law_decls_are_kept(layout::bare_decls(r));
}

/// The canonical form of a source text that was printed under canonical names is
/// the one that the text had.
pub proof fn law_printing_renamed_is_a_fixpoint(t: Seq<char>, specs: Map<Seq<char>, VmodSpec>)
    requires
        source::plain_source(t),
        fixpoint::plain_specs(specs),
        parser::program_of(lexer::lex_alone(t)) matches Ok(p) && prints_renamed(p, specs),
    ensures
        ({
            let p = parser::program_of(lexer::lex_alone(t))->Ok_0;
            match (
                whole::form(Ok(p), specs, true),
                whole::form(
                    parser::program_of(lexer::lex_alone(renamed_text(p, specs))),
                    specs,
                    true,
                ),
            ) {
                (Ok((before, _)), Ok((after, _))) => before == after,
                _ => false,
            }
        }),
{
    let p = parser::program_of(lexer::lex_alone(t))->Ok_0;
    let q = normalize::prepared(p, specs)->Ok_0;
    let n = normalize::finished(q, true);
    let g = merge::merged_program(q).decls;
    let ds = equivalence::plain_decls(q);
    source::law_what_is_read_can_be_written(t);
    source::law_paths_that_are_read_are_ascii(t);
    names::law_names_that_are_read_are_speakable(t);
    writable::law_what_is_printed_can_be_written(p, specs, true);
    assert forall|i: int, x: Seq<char>|
        0 <= i < ds.len() && #[trigger] invariance::holds_name(ds[i], x) implies writable::usual(
        x,
    ) by {
        assert(ds[i] == layout::bare_decl(g[i]));
        lifted::lemma_holds_bare(g[i], x);
    }
    lemma_bare_names(g);
    soundness::law_objects_are_made_alike(p, specs);
    soundness::law_objects_are_made_alike(n, specs);
    lemma_passes_again(p, specs);
    lemma_renamed_and_reordered(q);
    lemma_spread_fits(ds);
    readback::law_printed_programs_keep_their_form(n, specs, true);
    equivalence::law_equivalent_programs_have_one_form(q, n, spread(canonical_names(ds)));
    assert(canon::program_json(normalize::finished(q, true)) == canon::program_json(
        normalize::finished(n, true),
    ));
}

/// The same where no vmod is described: no argument is left out there, and nothing
/// is spoken of.
pub proof fn law_printing_renamed_alone_is_a_fixpoint(t: Seq<char>)
    requires
        source::plain_source(t),
        parser::program_of(lexer::lex_alone(t)) matches Ok(p) && ({
            let q = probes::lifted_program(literals::lit_program(p));
            &&& symbols::outcome(p, Map::empty()).error is None
            &&& writable::pieces_meet(p.decls)
            &&& stands_renamed(q, Map::empty())
        }),
    ensures
        ({
            let p = parser::program_of(lexer::lex_alone(t))->Ok_0;
            match (
                whole::form(Ok(p), Map::empty(), true),
                whole::form(
                    parser::program_of(lexer::lex_alone(renamed_text(p, Map::empty()))),
                    Map::empty(),
                    true,
                ),
            ) {
                (Ok((before, _)), Ok((after, _))) => before == after,
                _ => false,
            }
        }),
{
    prepared::law_calls_stay_without_descriptions(
        parser::program_of(lexer::lex_alone(t))->Ok_0,
    );
    prepared::law_bodies_stay_writable(t);
    law_printing_renamed_is_a_fixpoint(t, Map::empty());
}

} // verus!
