//! Printing is a fixpoint: the canonical form of a program that was printed is
//! the one that the program had.

use crate::ast;
use crate::ast::{ArgV, ArmV, DeclV, ExprV, ProgramV, StmtV};
use crate::canon;
use crate::layout;
use crate::layout::checking;
use crate::layout::equivalence;
use crate::layout::naming;
use crate::layout::passes;
use crate::layout::whole;
use crate::lexer;
use crate::normalize;
use crate::normalize::fixpoint;
use crate::normalize::invariance;
use crate::normalize::merge;
use crate::normalize::numbering;
use crate::normalize::once;
use crate::normalize::rename;
use crate::normalize::rename::Kind;
use crate::normalize::renaming;
use crate::normalize::renaming::RenamingV;
use crate::normalize::sort;
use crate::parser;
use crate::pipeline;
use crate::printer;
use crate::readback;
use crate::readback::described;
use crate::readback::lifted;
use crate::readback::names;
use crate::readback::source;
use crate::readback::writable;
use crate::symbols;
use crate::symbols::soundness;
use crate::text;
use crate::vmod::VmodSpec;
use vstd::prelude::*;
use vstd::string::*;

verus! {

// ───────────────────────── names that no program can have ─────────────────────────

/// Whether a renaming gives new names to nothing but names that no program can
/// have.
pub open spec fn unspeakable(m: RenamingV) -> bool {
    forall|n: Seq<char>| #[trigger] m.contains_key(n) ==> text::begins_with(n, "$"@)
}

proof fn lemma_anonymous(ds: Seq<DeclV>, n: nat)
    requires
        n <= ds.len(),
    ensures
        unspeakable(rename::anonymous_names(ds, n)),
    decreases n,
{
    if n > 0 {
        lemma_anonymous(ds, (n - 1) as nat);
    }
}

proof fn lemma_name_stays(n: Seq<char>, m: RenamingV)
    requires
        readback::is_name(n),
        unspeakable(m),
    ensures
        renaming::new_name(m, n) == n,
{
    reveal_strlit("$");
    if text::begins_with(n, "$"@) {
        assert(n[0] == "$"@[0]);
    }
}

proof fn lemma_parts_stay(parts: Seq<Seq<char>>, m: RenamingV)
    requires
        readback::is_dotted(parts),
        unspeakable(m),
    ensures
        renaming::renamed_parts(parts, m) == parts,
{
    assert(readback::is_name(parts[0]));
    lemma_name_stays(parts[0], m);
    assert(renaming::renamed_parts(parts, m) =~= parts);
}

proof fn lemma_expr_stays(e: ExprV, m: RenamingV)
    requires
        readback::can_expr(e),
        unspeakable(m),
    ensures
        renaming::renamed_expr(e, m) == e,
    decreases e,
{
    match e {
        ExprV::Var(parts) => lemma_parts_stay(parts, m),
        ExprV::Call { target, args } => {
            lemma_parts_stay(target, m);
            lemma_args_stay(args, m);
        },
        ExprV::Unary { expr, .. } => lemma_expr_stays(*expr, m),
        ExprV::Binary { lhs, rhs, .. } => {
            lemma_expr_stays(*lhs, m);
            lemma_expr_stays(*rhs, m);
        },
        _ => {},
    }
}

proof fn lemma_args_stay(args: Seq<ArgV>, m: RenamingV)
    requires
        readback::can_args(args),
        unspeakable(m),
    ensures
        renaming::renamed_args(args, m) == args,
    decreases args,
{
    let r = renaming::renamed_args(args, m);
    assert forall|i: int| 0 <= i < args.len() implies #[trigger] r[i] == args[i] by {
        assert(readback::can_arg(args[i]));
        lemma_expr_stays(args[i].value, m);
    }
    assert(r =~= args);
}

proof fn lemma_exprs_stay(es: Seq<ExprV>, m: RenamingV)
    requires
        readback::can_exprs(es),
        unspeakable(m),
    ensures
        renaming::renamed_exprs(es, m) == es,
{
    let r = renaming::renamed_exprs(es, m);
    assert forall|i: int| 0 <= i < es.len() implies #[trigger] r[i] == es[i] by {
        assert(readback::can_expr(es[i]));
        lemma_expr_stays(es[i], m);
    }
    assert(r =~= es);
}

proof fn lemma_stmt_stays(s: StmtV, m: RenamingV)
    requires
        readback::can_stmt(s),
        unspeakable(m),
    ensures
        renaming::renamed_stmt(s, m) == s,
    decreases s,
{
    match s {
        StmtV::Assign { rhs, .. } => lemma_expr_stays(rhs, m),
        StmtV::Call { sub, .. } => lemma_name_stays(sub, m),
        StmtV::Return { action, .. } => match action {
            Some(a) => lemma_exprs_stay(a.args, m),
            None => {},
        },
        StmtV::Synthetic { value, .. } => lemma_expr_stays(value, m),
        StmtV::If { arms, else_body, .. } => {
            lemma_arms_stay(arms, m);
            match else_body {
                Some(b) => lemma_stmts_stay(b, m),
                None => {},
            }
        },
        StmtV::New { name, args, .. } => {
            lemma_name_stays(name, m);
            lemma_args_stay(args, m);
        },
        StmtV::Expr { expr, .. } => match expr {
            ExprV::Call { target, args } => {
                lemma_parts_stay(target, m);
                lemma_args_stay(args, m);
            },
            _ => {},
        },
        _ => {},
    }
}

proof fn lemma_stmts_stay(ss: Seq<StmtV>, m: RenamingV)
    requires
        readback::can_stmts(ss),
        unspeakable(m),
    ensures
        renaming::renamed_stmts(ss, m) == ss,
    decreases ss,
{
    let r = renaming::renamed_stmts(ss, m);
    assert forall|i: int| 0 <= i < ss.len() implies #[trigger] r[i] == ss[i] by {
        assert(readback::can_stmt(ss[i]));
        lemma_stmt_stays(ss[i], m);
    }
    assert(r =~= ss);
}

proof fn lemma_arms_stay(arms: Seq<ArmV>, m: RenamingV)
    requires
        readback::can_arms(arms),
        unspeakable(m),
    ensures
        renaming::renamed_arms(arms, m) == arms,
    decreases arms,
{
    let r = renaming::renamed_arms(arms, m);
    assert forall|i: int| 0 <= i < arms.len() implies #[trigger] r[i] == arms[i] by {
        assert(readback::can_arm(arms[i]));
        lemma_expr_stays(arms[i].cond, m);
        lemma_stmts_stay(arms[i].body, m);
    }
    assert(r =~= arms);
}

/// Whether the subroutines have texts that stand for them.
pub open spec fn can_bodies(ds: Seq<DeclV>) -> bool {
    forall|i: int|
        0 <= i < ds.len() ==> ((#[trigger] ds[i]) matches DeclV::Sub { body, .. }
            ==> readback::can_stmts(body))
}

proof fn lemma_bodies_stay(ds: Seq<DeclV>, m: RenamingV)
    requires
        can_bodies(ds),
        unspeakable(m),
    ensures
        fixpoint::bodies_stay(ds, m),
{
    assert forall|i: int| 0 <= i < ds.len() implies ((#[trigger] ds[i]) matches DeclV::Sub {
        body,
        ..
    } ==> renaming::renamed_stmts(body, m) == body) by {
        match ds[i] {
            DeclV::Sub { body, .. } => lemma_stmts_stay(body, m),
            _ => {},
        }
    }
}

// ───────────────────────── merged once ─────────────────────────

pub(crate) proof fn lemma_sorted_once(ds: Seq<DeclV>)
    requires
        merge::declared_once(ds),
    ensures
        merge::declared_once(sort::sorted_decls(ds)),
{
    let r = sort::sorted_decls(ds);
    sort::law_decls_are_kept(ds);
    invariance::lemma_same_members(r, ds);
    assert forall|i: int, j: int, name: Seq<char>|
        0 <= i < j < r.len() && ast::builtin_name(name) && #[trigger] merge::is_sub(
            r[i],
            name,
        ) implies !#[trigger] merge::is_sub(r[j], name) by {
        if merge::is_sub(r[j], name) {
            if r[i] == r[j] {
                invariance::lemma_twice(r, r[i]);
                invariance::lemma_twice(ds, r[i]);
                let (a, b) = choose|a: int, b: int|
                    0 <= a < b < ds.len() && #[trigger] ds[a] == r[i] && #[trigger] ds[b] == r[i];
                assert(merge::is_sub(ds[a], name) && merge::is_sub(ds[b], name));
            } else {
                assert(r.contains(r[i]) && r.contains(r[j]));
                let a = choose|a: int| 0 <= a < ds.len() && ds[a] == r[i];
                let b = choose|b: int| 0 <= b < ds.len() && ds[b] == r[j];
                assert(merge::is_sub(ds[a], name) && merge::is_sub(ds[b], name));
            }
        }
    }
}

pub(crate) proof fn lemma_renamed_once(ds: Seq<DeclV>, m: RenamingV)
    requires
        merge::declared_once(ds),
        invariance::one_to_one(m),
        invariance::leaves_kept(m),
    ensures
        merge::declared_once(renaming::renamed_decls(ds, m)),
{
    let r = renaming::renamed_decls(ds, m);
    assert forall|i: int, j: int, name: Seq<char>|
        0 <= i < j < r.len() && ast::builtin_name(name) && #[trigger] merge::is_sub(
            r[i],
            name,
        ) implies !#[trigger] merge::is_sub(r[j], name) by {
        if merge::is_sub(r[j], name) {
            assert(renaming::new_name(m, name) == name);
            assert(merge::is_sub(ds[i], name) && merge::is_sub(ds[j], name));
        }
    }
}

// ───────────────────────── the fixpoint ─────────────────────────

/// The program that is printed for a prepared program.
pub open spec fn printed(q: ProgramV) -> ProgramV {
    normalize::finished(q, false)
}

/// Whether the order in which declarations are printed leaves the canonical
/// form alone: the hooks outside the fixed order are in theirs, and nothing is
/// left open.
pub open spec fn printed_in_order(q: ProgramV) -> bool {
    let a = layout::bare_decls(rename::merged_only(q).decls);
    let b = equivalence::plain_decls(printed(q));
    &&& invariance::other_hooks(b, b.len()) == invariance::other_hooks(a, a.len())
    &&& equivalence::well_settled(q)
}

proof fn lemma_printed_decls(q: ProgramV, m: RenamingV)
    requires
        renaming::renamed_decls(merge::merged_program(q).decls, m) == rename::merged_only(q).decls,
        invariance::one_to_one(m),
        invariance::leaves_kept(m),
        printed_in_order(q),
    ensures
        equivalence::renamed_and_reordered(q, printed(q), m),
{
    let g = merge::merged_program(q).decls;
    let n = printed(q);
    let r = renaming::renamed_decls(g, m);
    merge::law_builtins_are_declared_once(q);
    lemma_renamed_once(g, m);
    lemma_sorted_once(r);
    assert(n.decls == sort::sorted_decls(r));
    merge::law_merging_is_done_once(n);
    assert(equivalence::plain_decls(n) == layout::bare_decls(n.decls));
    passes::lemma_sorted_decls(r);
    naming::lemma_renamed_decls(g, m);
    sort::law_decls_are_kept(layout::bare_decls(r));
}

/// Whether a valid program is printed as a valid program that stands for it:
/// all that it says can be written, no name that a lifted probe is printed under
/// is in use, and nothing about the order of the declarations is left open.
pub open spec fn prints_well(p: ProgramV, specs: Map<Seq<char>, VmodSpec>) -> bool {
    &&& symbols::outcome(p, specs).error is None
    &&& match normalize::prepared(p, specs) {
        Ok(q) => {
            &&& can_bodies(q.decls)
            &&& readback::can_program(printed(q))
            &&& symbols::outcome(printed(q), specs).error is None
            &&& lifted::fresh_names(q)
            &&& printed_in_order(q)
        },
        Err(_) => false,
    }
}

/// The text that is printed for a program.
pub open spec fn printed_text(p: ProgramV, specs: Map<Seq<char>, VmodSpec>) -> Seq<char> {
    match pipeline::prepared(p, specs, false) {
        Ok((q, _)) => printer::program_text(q),
        Err(_) => seq![],
    }
}

/// The canonical form of a program that was printed is the one that the program
/// had: `dump` gives the same for what `print` gives as for what it was given.
pub proof fn law_printing_is_a_fixpoint(p: ProgramV, specs: Map<Seq<char>, VmodSpec>)
    requires
        lifted::speakable(p.decls),
        once::ascii_decls(p.decls),
        fixpoint::plain_specs(specs),
        prints_well(p, specs),
    ensures
        match (
            whole::form(Ok(p), specs, true),
            whole::form(
                parser::program_of(lexer::lex_alone(printed_text(p, specs))),
                specs,
                true,
            ),
        ) {
            (Ok((before, _)), Ok((after, _))) => before == after,
            _ => false,
        },
{
    let q = normalize::prepared(p, specs)->Ok_0;
    let n = printed(q);
    let g = merge::merged_program(q).decls;
    lemma_anonymous(g, g.len());
    lemma_bodies_stay(q.decls, rename::anonymous_names(g, g.len()));
    soundness::law_objects_are_made_alike(p, specs);
    fixpoint::law_passes_are_done_once(p, specs);
    readback::law_printed_programs_keep_their_form(n, specs, true);
    let m = lifted::exchanged(rename::anonymous_names(g, g.len()));
    lifted::lemma_exchange_fits(p, specs, q);
    lemma_printed_decls(q, m);
    equivalence::law_equivalent_programs_have_one_form(q, n, m);
    assert(canon::program_json(normalize::finished(q, true)) == canon::program_json(
        normalize::finished(n, true),
    ));
}

/// Whether the source of a valid program is printed as that of a valid program
/// that stands for it: no argument is left out before another one, the pieces of
/// its subroutines meet as they should, no name that a lifted probe is printed
/// under is in use, and nothing about the order of the declarations is left open.
pub open spec fn prints_fully(p: ProgramV, specs: Map<Seq<char>, VmodSpec>) -> bool {
    &&& symbols::outcome(p, specs).error is None
    &&& writable::pieces_meet(p.decls)
    &&& match normalize::prepared(p, specs) {
        Ok(q) => {
            &&& described::full_bodies(q.decls)
            &&& symbols::outcome(printed(q), specs).error is None
            &&& lifted::fresh_names(q)
            &&& printed_in_order(q)
        },
        Err(_) => false,
    }
}

/// The same for every source text; that what is printed can be written follows.
pub proof fn law_printing_texts_is_a_fixpoint(t: Seq<char>, specs: Map<Seq<char>, VmodSpec>)
    requires
        source::plain_source(t),
        fixpoint::plain_specs(specs),
        parser::program_of(lexer::lex_alone(t)) matches Ok(p) && prints_fully(p, specs),
    ensures
        ({
            let p = parser::program_of(lexer::lex_alone(t))->Ok_0;
            match (
                whole::form(Ok(p), specs, true),
                whole::form(
                    parser::program_of(lexer::lex_alone(printed_text(p, specs))),
                    specs,
                    true,
                ),
            ) {
                (Ok((before, _)), Ok((after, _))) => before == after,
                _ => false,
            }
        }),
{
    let p = parser::program_of(lexer::lex_alone(t))->Ok_0;
    names::law_names_that_are_read_are_speakable(t);
    source::law_paths_that_are_read_are_ascii(t);
    source::law_what_is_read_can_be_written(t);
    writable::law_what_is_printed_can_be_written(p, specs, false);
    law_printing_is_a_fixpoint(p, specs);
}

// ───────────────────────── printing again ─────────────────────────

proof fn lemma_nothing_renamed(ds: Seq<DeclV>)
    requires
        can_bodies(ds),
    ensures
        renaming::renamed_decls(ds, Map::empty()) == ds,
{
    let none = RenamingV::empty();
    let r = renaming::renamed_decls(ds, none);
    lemma_bodies_stay(ds, none);
    assert forall|i: int| 0 <= i < ds.len() implies #[trigger] r[i] == ds[i] by {
        match ds[i] {
            DeclV::Backend { body: Some(fs), .. } => {
                assert(renaming::renamed_fields(fs, none) =~= fs);
            },
            _ => {},
        }
    }
    assert(r =~= ds);
}

proof fn lemma_given_names(ds: Seq<DeclV>, n: nat)
    requires
        n <= ds.len(),
    ensures
        forall|x: Seq<char>|
            #[trigger] rename::anonymous_names(ds, n).contains_key(x) ==> !ast::builtin_name(
                rename::anonymous_names(ds, n)[x],
            ),
    decreases n,
{
    if n > 0 {
        lemma_given_names(ds, (n - 1) as nat);
        numbering::lemma_initials();
        let d = ds[n - 1];
        if rename::is_anonymous(d) {
            let k = rename::kind_of(d)->0;
            let c = rename::anonymous_count(ds, k, n);
            numbering::lemma_numbered_initial(k, c);
            assert(rename::prefix(k)[0] != 'v') by {
                match k {
                    Kind::Backend => {},
                    Kind::Probe => {},
                    Kind::Acl => {},
                    Kind::Sub => {},
                    Kind::Obj => {},
                }
            }
            assert(!ast::builtin_name(rename::numbered(k, c))) by {
                if ast::builtin_name(rename::numbered(k, c)) {
                    assert(rename::numbered(k, c)[0] == "vcl_"@[0]);
                }
            }
        }
        let before = rename::anonymous_names(ds, (n - 1) as nat);
        let now = rename::anonymous_names(ds, n);
        assert forall|x: Seq<char>| #[trigger] now.contains_key(x) implies !ast::builtin_name(
            now[x],
        ) by {
            if !rename::is_anonymous(d) || x != ast::decl_name(d) {
                assert(before.contains_key(x));
            }
        }
    }
}

proof fn lemma_no_anonymous(ds: Seq<DeclV>, n: nat)
    requires
        n <= ds.len(),
        readback::can_decls(ds),
    ensures
        rename::anonymous_names(ds, n) == RenamingV::empty(),
    decreases n,
{
    if n > 0 {
        lemma_no_anonymous(ds, (n - 1) as nat);
        let d = ds[n - 1];
        assert(readback::can_decl(d));
        reveal_strlit("$");
        if rename::is_anonymous(d) {
            assert(ast::decl_name(d)[0] == "$"@[0]);
        }
    }
}

/// What was printed is printed as it is.
pub proof fn law_printed_is_printed(q: ProgramV)
    requires
        readback::can_program(printed(q)),
    ensures
        printed(printed(q)) == printed(q),
{
    let n = printed(q);
    let g = merge::merged_program(q).decls;
    let a = rename::anonymous_names(g, g.len());
    let r = renaming::renamed_decls(g, a);
    merge::law_builtins_are_declared_once(q);
    lemma_given_names(g, g.len());
    assert(merge::declared_once(r)) by {
        assert forall|i: int, j: int, name: Seq<char>|
            0 <= i < j < r.len() && ast::builtin_name(name) && #[trigger] merge::is_sub(
                r[i],
                name,
            ) implies !#[trigger] merge::is_sub(r[j], name) by {
            if merge::is_sub(r[j], name) {
                assert(merge::is_sub(g[i], name) && merge::is_sub(g[j], name));
            }
        }
    }
    lemma_sorted_once(r);
    merge::law_merging_is_done_once(n);
    lemma_no_anonymous(n.decls, n.decls.len());
    assert(can_bodies(n.decls)) by {
        assert forall|i: int| 0 <= i < n.decls.len() implies ((#[trigger] n.decls[i]) matches
            DeclV::Sub { body, .. } ==> readback::can_stmts(body)) by {
            assert(readback::can_decl(n.decls[i]));
        }
    }
    lemma_nothing_renamed(n.decls);
    sort::law_sorting_is_done_once(r);
}

/// What is printed of a program that was printed is the same program, up to
/// places and comments.
pub proof fn law_printing_again_changes_nothing(p: ProgramV, specs: Map<Seq<char>, VmodSpec>)
    requires
        once::ascii_decls(p.decls),
        fixpoint::plain_specs(specs),
        symbols::outcome(p, specs).error is None,
        match normalize::prepared(p, specs) {
            Ok(q) => {
                &&& can_bodies(q.decls)
                &&& readback::can_program(printed(q))
                &&& symbols::outcome(printed(q), specs).error is None
            },
            Err(_) => false,
        },
    ensures
        match normalize::prepared(p, specs) {
            Ok(q) => match parser::program_of(
                lexer::lex_alone(printer::program_text(printed(q))),
            ) {
                Ok(r) => pipeline::prepared(r, specs, false) matches Ok((again, _))
                    && layout::bare_program(again) == layout::bare_program(printed(q)),
                Err(_) => false,
            },
            Err(_) => false,
        },
{
    let q = normalize::prepared(p, specs)->Ok_0;
    let n = printed(q);
    let g = merge::merged_program(q).decls;
    lemma_anonymous(g, g.len());
    lemma_bodies_stay(q.decls, rename::anonymous_names(g, g.len()));
    soundness::law_objects_are_made_alike(p, specs);
    fixpoint::law_passes_are_done_once(p, specs);
    readback::law_printed_programs_are_read_back(n);
    law_printed_is_printed(q);
    let r = parser::program_of(lexer::lex_alone(printer::program_text(n)))->Ok_0;
    checking::law_findings_have_no_places(n, specs);
    checking::law_findings_have_no_places(r, specs);
    passes::law_prepared_without_places(n, specs);
    passes::law_prepared_without_places(r, specs);
    let s = normalize::prepared(r, specs)->Ok_0;
    naming::law_finished_without_places(s, false);
    naming::law_finished_without_places(n, false);
}

/// The same for every source text.
pub proof fn law_printing_texts_again_changes_nothing(t: Seq<char>, specs: Map<Seq<char>, VmodSpec>)
    requires
        source::plain_source(t),
        fixpoint::plain_specs(specs),
        parser::program_of(lexer::lex_alone(t)) matches Ok(p) && prints_fully(p, specs),
    ensures
        ({
            let p = parser::program_of(lexer::lex_alone(t))->Ok_0;
            let q = normalize::prepared(p, specs)->Ok_0;
            parser::program_of(lexer::lex_alone(printer::program_text(printed(q)))) matches Ok(r)
                && (pipeline::prepared(r, specs, false) matches Ok((again, _))
                && layout::bare_program(again) == layout::bare_program(printed(q)))
        }),
{
    let p = parser::program_of(lexer::lex_alone(t))->Ok_0;
    names::law_names_that_are_read_are_speakable(t);
    source::law_paths_that_are_read_are_ascii(t);
    source::law_what_is_read_can_be_written(t);
    writable::law_what_is_printed_can_be_written(p, specs, false);
    law_printing_again_changes_nothing(p, specs);
}

} // verus!
