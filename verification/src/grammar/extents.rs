//! Where what is read stands: from the start of its first token to the end of its last.

use crate::ast;
use crate::ast::Span;
use crate::grammar;
use crate::grammar::{InputV, Parse, PlaceV};
use vstd::prelude::*;

verus! {

/// Whether a span goes from the start of the token at one place to the end of the token
/// before another.
pub open spec fn extends(inp: InputV, from: PlaceV, to: PlaceV, span: Span) -> bool {
    &&& span.file == inp.toks[from.pos as int].span.file
    &&& span.lo == inp.toks[from.pos as int].span.lo
    &&& span.hi == inp.toks[to.pos - 1].span.hi
}

/// Whether a span starts where the token at a place starts and ends where the token
/// before another place ends.
spec fn reaches(inp: InputV, start: Span, to: PlaceV, span: Span) -> bool {
    &&& span.file == start.file
    &&& span.lo == start.lo
    &&& span.hi == inp.toks[to.pos - 1].span.hi
}

proof fn lemma_if(inp: InputV, at: PlaceV, start: Span, arms: Seq<ast::ArmV>)
    ensures
        grammar::p_if_rest(inp, at, start, arms) matches Parse::Read(x, s) ==> x is If && reaches(
            inp,
            start,
            s,
            ast::stmt_span(x),
        ),
    decreases grammar::left(inp, at),
{
    reveal(grammar::another_arm);
    match grammar::another_arm(inp, at) {
        Some(n) => match grammar::p_arm(inp, PlaceV { pos: at.pos + n, ..at }) {
            Parse::Bad(_) => {},
            Parse::Read(a, s) => if grammar::moved(inp, at, s) {
                lemma_if(inp, s, start, arms.push(a));
            },
        },
        None => {},
    }
}

/// A statement that is read stands from the start of its first token to the end of its
/// last.
#[verifier::rlimit(60)]
pub proof fn law_statements_span_their_tokens(inp: InputV, at: PlaceV)
    ensures
        grammar::p_stmt(inp, at) matches Parse::Read(x, s) ==> extends(
            inp,
            at,
            s,
            ast::stmt_span(x),
        ),
{
    reveal(grammar::p_set);
    reveal(grammar::p_unset);
    reveal(grammar::p_call);
    reveal(grammar::p_return);
    reveal(grammar::p_synthetic);
    reveal(grammar::p_new);
    reveal(grammar::p_expr_stmt);
    let start = grammar::here(inp, at);
    match grammar::p_arm(inp, grammar::next(at)) {
        Parse::Bad(_) => {},
        Parse::Read(a, s) => lemma_if(inp, s, start, seq![a]),
    }
}

/// A field that is read stands from the start of its first token to the end of its last.
pub proof fn law_fields_span_their_tokens(inp: InputV, at: PlaceV)
    ensures
        grammar::p_field(inp, at) matches Parse::Read(x, s) ==> extends(inp, at, s, x.span),
{
}

/// An address that is read stands from the start of its first token to the end of its
/// last.
pub proof fn law_addresses_span_their_tokens(inp: InputV, at: PlaceV)
    ensures
        grammar::p_acl_entry(inp, at) matches Parse::Read(x, s) ==> extends(inp, at, s, x.span),
{
    reveal(grammar::p_acl_entry);
}

/// A declaration that is read stands from the start of its first token to the end of
/// its last.
pub proof fn law_declarations_span_their_tokens(inp: InputV, at: PlaceV)
    ensures
        grammar::p_top_decl(inp, at) matches Parse::Read(x, s) ==> extends(
            inp,
            at,
            s,
            ast::decl_span(x),
        ),
{
    reveal(grammar::p_top_decl);
    reveal(grammar::p_import);
    reveal(grammar::p_backend);
    reveal(grammar::p_probe);
    reveal(grammar::p_acl);
    reveal(grammar::p_sub);
}

} // verus!
