//! Programs that differ in layout only have one canonical form.

use crate::ast::{ErrV, NameEntryV, ProgramV};
use crate::canon;
use crate::inclusion;
use crate::inclusion::{Sources, StepV};
use crate::json::JsonV;
use crate::layout;
use crate::layout::checking;
use crate::layout::lexing;
use crate::layout::naming;
use crate::layout::parsing;
use crate::layout::passes;
use crate::layout::splicing;
use crate::lexer;
use crate::lexer::StreamV;
use crate::normalize;
use crate::parser;
use crate::pipeline;
use crate::statements;
use crate::vmod::VmodSpec;
use vstd::prelude::*;

verus! {

/// What is compared of a program: its canonical form and its renamings, or what
/// is wrong with it.
pub open spec fn form(
    p: core::result::Result<ProgramV, ErrV>,
    specs: Map<Seq<char>, VmodSpec>,
    rename: bool,
) -> core::result::Result<(JsonV, Seq<NameEntryV>), Seq<char>> {
    match p {
        Err(e) => Err(e.msg),
        Ok(q) => match pipeline::prepared(q, specs, rename) {
            Err(e) => Err(e.msg),
            Ok((r, names)) => Ok((canon::program_json(r), names)),
        },
    }
}

pub(crate) proof fn lemma_form_of_bare(p: ProgramV, specs: Map<Seq<char>, VmodSpec>, rename: bool)
    ensures
        form(Ok(p), specs, rename) == form(Ok(layout::bare_program(p)), specs, rename),
{
    checking::law_findings_have_no_places(p, specs);
    passes::law_prepared_without_places(p, specs);
    match normalize::prepared(p, specs) {
        Ok(q) => {
            naming::law_finished_without_places(q, rename);
            layout::law_canonical_form_has_no_places(normalize::finished(q, rename));
        },
        Err(_) => {},
    }
}

/// Programs that differ in nothing but their places and comments have one form.
pub proof fn law_places_do_not_matter(
    p: ProgramV,
    q: ProgramV,
    specs: Map<Seq<char>, VmodSpec>,
    rename: bool,
)
    requires
        layout::bare_program(p) == layout::bare_program(q),
    ensures
        form(Ok(p), specs, rename) == form(Ok(q), specs, rename),
{
    lemma_form_of_bare(p, specs, rename);
    lemma_form_of_bare(q, specs, rename);
}

/// Streams with the same tokens stand for programs of one form.
pub proof fn law_layout_does_not_matter(
    a: StreamV,
    b: StreamV,
    specs: Map<Seq<char>, VmodSpec>,
    rename: bool,
)
    requires
        parsing::same_tokens(statements::input(a.lexed), statements::input(b.lexed)),
    ensures
        form(parser::program_of(Ok(a)), specs, rename) == form(
            parser::program_of(Ok(b)),
            specs,
            rename,
        ),
{
    parsing::law_only_tokens_matter(statements::input(a.lexed), statements::input(b.lexed));
    match (parser::program_of(Ok(a)), parser::program_of(Ok(b))) {
        (Ok(p), Ok(q)) => law_places_do_not_matter(p, q, specs, rename),
        _ => {},
    }
}

/// Formatting does not matter: whatever white space and comments stand between
/// two parts of a text, the program that it stands for has one form.
pub proof fn law_formatting_does_not_matter(
    s: Seq<char>,
    g: Seq<char>,
    h: Seq<char>,
    t: Seq<char>,
    specs: Map<Seq<char>, VmodSpec>,
    rename: bool,
)
    requires
        lexing::is_closed(s),
        lexing::is_gap(g),
        lexing::is_gap(h),
    ensures
        form(parser::program_of(lexer::lex_alone(s + g + t)), specs, rename) == form(
            parser::program_of(lexer::lex_alone(s + h + t)),
            specs,
            rename,
        ),
{
    lexing::law_gaps_are_equal(s, g, h, t);
    law_same_tokens_same_form(s + g + t, s + h + t, specs, rename);
}

/// Between two parts of a text that meet without a token lying across their
/// border, white space and comments can be put or left out.
pub proof fn law_white_space_is_optional(
    s: Seq<char>,
    g: Seq<char>,
    t: Seq<char>,
    specs: Map<Seq<char>, VmodSpec>,
    rename: bool,
)
    requires
        lexing::is_closed(s),
        lexing::is_gap(g),
        lexing::parts_meet(s, t),
    ensures
        form(parser::program_of(lexer::lex_alone(s + g + t)), specs, rename) == form(
            parser::program_of(lexer::lex_alone(s + t)),
            specs,
            rename,
        ),
{
    lexing::law_gaps_can_be_left_out(s, g, t);
    law_same_tokens_same_form(s + g + t, s + t, specs, rename);
}

/// Texts with the same tokens stand for programs of one form.
pub proof fn law_same_tokens_same_form(
    s: Seq<char>,
    t: Seq<char>,
    specs: Map<Seq<char>, VmodSpec>,
    rename: bool,
)
    requires
        lexing::tokens_of(s) == lexing::tokens_of(t),
    ensures
        form(parser::program_of(lexer::lex_alone(s)), specs, rename) == form(
            parser::program_of(lexer::lex_alone(t)),
            specs,
            rename,
        ),
{
    lexing::law_same_tokens_same_stream(s, t);
    match (lexer::lex_alone(s), lexer::lex_alone(t)) {
        (Ok(a), Ok(b)) => law_layout_does_not_matter(a, b, specs, rename),
        _ => {},
    }
}

/// How a program is split over files does not matter: where the files of two
/// programs hold the same tokens, with those of an included file in the place
/// of the inclusion, the programs have one form.
pub proof fn law_split_over_files_does_not_matter(
    fs: Sources,
    path: Seq<char>,
    dirs: Seq<Seq<char>>,
    gs: Sources,
    other: Seq<char>,
    others: Seq<Seq<char>>,
    specs: Map<Seq<char>, VmodSpec>,
    rename: bool,
)
    requires
        splicing::flat_file(fs, path, dirs, seq![]) is Some,
        splicing::flat_file(fs, path, dirs, seq![]) == splicing::flat_file(
            gs,
            other,
            others,
            seq![],
        ),
    ensures
        match (inclusion::lex_files(fs, path, dirs), inclusion::lex_files(gs, other, others)) {
            (StepV::Done(a), StepV::Done(b)) => form(
                parser::program_of(Ok(a)),
                specs,
                rename,
            ) == form(parser::program_of(Ok(b)), specs, rename),
            _ => false,
        },
{
    splicing::law_same_tokens_same_stream(fs, path, dirs, gs, other, others);
    match (inclusion::lex_files(fs, path, dirs), inclusion::lex_files(gs, other, others)) {
        (StepV::Done(a), StepV::Done(b)) => law_layout_does_not_matter(a, b, specs, rename),
        _ => {},
    }
}

} // verus!
