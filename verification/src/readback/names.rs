//! The names that a program can have: no name that is read begins with the sign
//! under which probes are lifted.

use crate::ast;
use crate::ast::{DeclV, FieldV, Span};
use crate::grammar;
use crate::grammar::{InputV, Parse, PlaceV};
use crate::lexer;
use crate::lexer::{ItemV, LexedV, TokV, TokenV};
use crate::normalize::probes;
use crate::normalize::rename;
use crate::parser;
use crate::readback::lifted;
use crate::readback::words;
use crate::statements;
use crate::text;
use vstd::prelude::*;
use vstd::string::*;
use vstd::utf8::*;

verus! {

/// Whether a token is no name that begins with the sign.
spec fn unsigned(t: TokV) -> bool {
    t matches TokV::Ident(n) ==> !text::begins_with(n, "$"@)
}

/// Whether that holds of all tokens.
spec fn all_unsigned(ts: Seq<TokenV>) -> bool {
    forall|i: int| 0 <= i < ts.len() ==> unsigned((#[trigger] ts[i]).tok)
}

proof fn lemma_ident_bytes(b: Seq<u8>, p: nat)
    requires
        p <= b.len(),
    ensures
        p <= lexer::ident_end(b, p) <= b.len(),
        p < b.len() && lexer::is_ident_byte(b[p as int]) ==> p < lexer::ident_end(b, p),
        forall|i: int| p <= i < lexer::ident_end(b, p) ==> lexer::is_ident_byte(#[trigger] b[i]),
    decreases b.len() - p,
{
    if p < b.len() && lexer::is_ident_byte(b[p as int]) {
        lemma_ident_bytes(b, p + 1);
    }
}

proof fn lemma_ident(b: Seq<u8>, p: nat)
    requires
        p < b.len(),
        lexer::is_letter(b[p as int]) || b[p as int] == lexer::UNDERSCORE,
    ensures
        !text::begins_with(text::text_of(b, p as int, lexer::ident_end(b, p) as int), "$"@),
{
    lemma_ident_bytes(b, p);
    let e = lexer::ident_end(b, p);
    let s = b.subrange(p as int, e as int);
    let w = Seq::new(s.len(), |i: int| s[i] as char);
    assert forall|i: int| 0 <= i < w.len() implies words::plain(#[trigger] w[i]) by {
        assert(lexer::is_ident_byte(b[p + i]));
    }
    words::lemma_plain(w);
    assert(encode_utf8(w) =~= s);
    encode_utf8_decode_utf8(w);
    reveal_strlit("$");
    if text::begins_with(w, "$"@) {
        assert(w[0] == "$"@[0]);
    }
}

proof fn lemma_lexed(b: Seq<u8>, file: u32, p: nat, prev: Option<nat>, done: LexedV)
    requires
        p <= b.len(),
        all_unsigned(done.tokens),
    ensures
        lexer::lex_from(b, file, p, prev, done) matches Ok(l) ==> all_unsigned(l.tokens),
    decreases b.len() - p,
{
    match lexer::item_at(b, p) {
        ItemV::Space(n) => if p < n <= b.len() {
            lemma_lexed(b, file, n, prev, done);
        },
        ItemV::Comment(n) => if p < n <= b.len() {
            let more = lexer::RawCommentV {
                text: text::text_of(b, p as int, n as int),
                span: lexer::span_of(file, p, n),
                standalone: match prev {
                    Some(e) => lexer::newline_between(b, e, p),
                    None => true,
                },
            };
            let next = LexedV { comments: done.comments.push(more), ..done };
            lemma_lexed(b, file, n, prev, next);
        },
        ItemV::Token(n, t) => if p < n <= b.len() {
            if t is Ident {
                lemma_ident(b, p);
            }
            let more = TokenV { tok: t, span: lexer::span_of(file, p, n) };
            let next = LexedV { tokens: done.tokens.push(more), ..done };
            lemma_lexed(b, file, n, Some(n), next);
        },
        _ => {},
    }
}

proof fn lemma_ident_read(inp: InputV, at: PlaceV)
    requires
        all_unsigned(inp.toks),
    ensures
        grammar::p_ident(inp, at) matches Parse::Read(n, _) ==> !text::begins_with(n, "$"@),
{
    let t = grammar::tok(inp, at);
    if t is Ident {
        assert(unsigned(t));
    }
}

/// Whether a field refers to no probe by a name that begins with the sign.
spec fn unsigned_ref(f: FieldV) -> bool {
    rename::ref_of(f) matches Some(n) ==> !text::begins_with(n, "$"@)
}

/// Whether that holds of all fields.
spec fn unsigned_refs(fs: Seq<FieldV>) -> bool {
    forall|i: int| 0 <= i < fs.len() ==> unsigned_ref(#[trigger] fs[i])
}

/// Whether neither the name of a declaration nor a reference in it begins with
/// the sign.
spec fn unsigned_decl(d: DeclV) -> bool {
    !rename::is_anonymous(d) && unsigned_refs(probes::backend_fields(d))
}

/// Whether that holds of all declarations.
spec fn unsigned_decls(ds: Seq<DeclV>) -> bool {
    forall|i: int| 0 <= i < ds.len() ==> unsigned_decl(#[trigger] ds[i])
}

proof fn lemma_field_read(inp: InputV, at: PlaceV)
    requires
        all_unsigned(inp.toks),
    ensures
        grammar::p_field(inp, at) matches Parse::Read(f, _) ==> unsigned_ref(f),
{
    reveal_with_fuel(grammar::p_field, 2);
    reveal_with_fuel(grammar::p_field_value, 2);
    match grammar::p_expect(inp, at, TokV::Dot) {
        Parse::Bad(_) => {},
        Parse::Read(_, s) => match grammar::p_ident(inp, s) {
            Parse::Bad(_) => {},
            Parse::Read(_, s2) => match grammar::p_expect(inp, s2, TokV::Eq) {
                Parse::Bad(_) => {},
                Parse::Read(_, s3) => lemma_ident_read(inp, s3),
            },
        },
    }
}

proof fn lemma_fields_read(inp: InputV, at: PlaceV, prev: Option<Span>, done: Seq<FieldV>)
    requires
        all_unsigned(inp.toks),
        unsigned_refs(done),
    ensures
        grammar::p_fields(inp, at, prev, done) matches Parse::Read(fs, _) ==> unsigned_refs(fs),
    decreases grammar::left(inp, at),
{
    reveal_with_fuel(grammar::p_fields, 2);
    if !(grammar::tok(inp, at) is RBrace) {
        let from = grammar::gap_before(inp, at, prev);
        lemma_field_read(inp, from);
        match grammar::p_field(inp, from) {
            Parse::Bad(_) => {},
            Parse::Read(f, s) => if grammar::moved(inp, at, s) {
                lemma_fields_read(inp, s, Some(f.span), done.push(f));
            },
        }
    }
}

proof fn lemma_decl_read(inp: InputV, at: PlaceV)
    requires
        all_unsigned(inp.toks),
    ensures
        grammar::p_top_decl(inp, at) matches Parse::Read(d, _) ==> unsigned_decl(d),
{
    reveal(grammar::p_top_decl);
    reveal(grammar::p_import);
    reveal(grammar::p_backend);
    reveal(grammar::p_field_block);
    reveal(grammar::p_probe);
    reveal(grammar::p_acl);
    reveal(grammar::p_sub);
    let start = grammar::here(inp, at);
    lemma_ident_read(inp, grammar::next(at));
    match grammar::p_ident(inp, grammar::next(at)) {
        Parse::Bad(_) => {},
        Parse::Read(_, s) => match grammar::p_expect(inp, s, TokV::LBrace) {
            Parse::Bad(_) => {},
            Parse::Read(_, s2) => lemma_fields_read(inp, s2, Some(start), seq![]),
        },
    }
}

proof fn lemma_decls_read(
    inp: InputV,
    at: PlaceV,
    version: Span,
    prev: Option<Span>,
    decls: Seq<DeclV>,
)
    requires
        all_unsigned(inp.toks),
        unsigned_decls(decls),
    ensures
        grammar::p_decls(inp, at, version, prev, decls) matches Ok(p) ==> unsigned_decls(p.decls),
    decreases grammar::left(inp, at),
{
    reveal_with_fuel(grammar::p_decls, 2);
    if grammar::tok(inp, at) is Eof {
    } else if grammar::tok(inp, at) == TokV::Ident("vcl"@) {
        match grammar::p_further_vcl(inp, at) {
            Parse::Bad(_) => {},
            Parse::Read(_, s) => if grammar::moved(inp, at, s) {
                lemma_decls_read(inp, s, version, prev, decls);
            },
        }
    } else {
        let from = grammar::gap_before(inp, at, prev);
        lemma_decl_read(inp, from);
        match grammar::p_top_decl(inp, from) {
            Parse::Bad(_) => {},
            Parse::Read(d, s) => if grammar::moved(inp, at, s) {
                let span = Some(ast::decl_span(d));
                lemma_decls_read(inp, s, version, span, decls.push(d));
            },
        }
    }
}

proof fn lemma_unsigned(ds: Seq<DeclV>)
    requires
        unsigned_decls(ds),
    ensures
        lifted::speakable(ds),
        lifted::speakable_refs(ds),
{
    assert forall|i: int| 0 <= i < ds.len() implies !rename::is_anonymous(#[trigger] ds[i]) by {
        assert(unsigned_decl(ds[i]));
    }
    assert forall|i: int, j: int|
        0 <= i < ds.len() && 0 <= j < probes::backend_fields(ds[i]).len() implies (rename::ref_of(
        #[trigger] probes::backend_fields(ds[i])[j],
    ) matches Some(n) ==> !text::begins_with(n, "$"@)) by {
        assert(unsigned_decl(ds[i]));
        assert(unsigned_ref(probes::backend_fields(ds[i])[j]));
    }
}

/// No declaration of a program that was read, and no reference in a backend,
/// has a name that only a lifted probe can have.
pub proof fn law_names_that_are_read_are_speakable(t: Seq<char>)
    ensures
        parser::program_of(lexer::lex_alone(t)) matches Ok(p) ==> lifted::speakable(p.decls)
            && lifted::speakable_refs(p.decls),
{
    let b = encode_utf8(t);
    lemma_lexed(b, 0, 0, None, lexer::nothing_lexed());
    match lexer::lex_alone(t) {
        Ok(s) => {
            let inp = statements::input(s.lexed);
            reveal(grammar::p_program);
            let start = PlaceV { pos: 0, cidx: 0, out: Map::empty() };
            match grammar::p_vcl_decl(inp, start) {
                Parse::Bad(_) => {},
                Parse::Read(version, at) => {
                    lemma_decls_read(inp, at, version, None, seq![]);
                    match grammar::p_decls(inp, at, version, None, seq![]) {
                        Ok(p) => lemma_unsigned(p.decls),
                        Err(_) => {},
                    }
                },
            }
        },
        Err(_) => {},
    }
}

} // verus!
