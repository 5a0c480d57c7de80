//! The parser: a token stream to a syntax tree, by the rules in
//! [`crate::grammar`].

use crate::ast;
use crate::ast::{
    AclEntry, AclEntryV, CommentMap, Decl, DeclV, ErrV, Field, FieldV, FieldValue, FieldValueV,
    Program, ProgramV, SourceMap, Span, VclError, VclResult,
};
use crate::grammar;
use crate::grammar::{Parse, VersionV};
use crate::inclusion;
use crate::inclusion::{Sources, Step, StepV};
use crate::lexer;
use crate::lexer::{Lexed, StreamV, Tok, TokV};
use crate::statements;
use crate::statements::{
    advance, error, expect, expect_any_ident, expect_ident_kw, expect_str, finish_gap, found, gap,
    gap_before, is_ident, parse_block, parse_expr, peek, peek_at, peek_span, prev_span, semi_from,
    span_from, Cursor,
};
use crate::text;
use crate::vclshow;
use crate::vclshow::DumpV;
use vstd::prelude::*;
use vstd::string::*;

verus! {

broadcast use ast::group_views;

spec fn fields_result(r: VclResult<Vec<Field>>) -> core::result::Result<Seq<FieldV>, ErrV> {
    match r {
        Ok(v) => Ok(ast::fields_view(v@)),
        Err(e) => Err(e@),
    }
}

spec fn field_result(r: VclResult<Field>) -> core::result::Result<FieldV, ErrV> {
    match r {
        Ok(v) => Ok(v@),
        Err(e) => Err(e@),
    }
}

spec fn field_value_result(r: VclResult<FieldValue>) -> core::result::Result<FieldValueV, ErrV> {
    match r {
        Ok(v) => Ok(v@),
        Err(e) => Err(e@),
    }
}

spec fn entry_result(r: VclResult<AclEntry>) -> core::result::Result<AclEntryV, ErrV> {
    match r {
        Ok(v) => Ok(v@),
        Err(e) => Err(e@),
    }
}

spec fn entries_result(r: VclResult<Vec<AclEntry>>) -> core::result::Result<Seq<AclEntryV>, ErrV> {
    match r {
        Ok(v) => Ok(ast::acl_entries_view(v@)),
        Err(e) => Err(e@),
    }
}

spec fn mask_result(r: VclResult<Option<u8>>) -> core::result::Result<Option<u8>, ErrV> {
    match r {
        Ok(v) => Ok(v),
        Err(e) => Err(e@),
    }
}

spec fn decl_result(r: VclResult<Decl>) -> core::result::Result<DeclV, ErrV> {
    match r {
        Ok(v) => Ok(v@),
        Err(e) => Err(e@),
    }
}

/// What a result with a program says.
pub open spec fn program_result(r: VclResult<Program>) -> core::result::Result<ProgramV, ErrV> {
    match r {
        Ok(p) => Ok(p@),
        Err(e) => Err(e@),
    }
}

// ───────────────────────── fields ─────────────────────────

/// Fields up to and with the closing brace, behind those in `done`.
fn parse_fields(l: &Lexed, p: &mut Cursor, prev: Option<Span>, done: Vec<Field>) -> (r: VclResult<
    Vec<Field>,
>)
    requires
        statements::inside(*l, *old(p)),
    ensures
        statements::said(
            grammar::p_fields(statements::input(l@), old(p)@, prev, ast::fields_view(done@)),
            fields_result(r),
            final(p)@,
        ),
        r is Ok ==> statements::advanced(*l, *old(p), *final(p)),
    decreases l.tokens@.len() - old(p).pos, 31nat,
{
    let mut fields = done;
    let mut before: Option<Span> = prev;
    loop
        invariant
            statements::kept(*l, *old(p), *p),
            grammar::p_fields(statements::input(l@), old(p)@, prev, ast::fields_view(done@))
                == grammar::p_fields(
                statements::input(l@),
                p@,
                before,
                ast::fields_view(fields@),
            ),
        decreases l.tokens@.len() - p.pos,
    {
        match peek(l, p) {
            Tok::RBrace => {
                let lo: u32 = peek_span(l, p).lo;
                advance(l, p);
                finish_gap(l, p, before, lo);
                return Ok(fields);
            },
            _ => {
                gap_before(l, p, before);
                let f = parse_field(l, p)?;
                before = Some(f.span);
                fields.push(f);
            },
        }
    }
}

fn parse_field(l: &Lexed, p: &mut Cursor) -> (r: VclResult<Field>)
    requires
        statements::inside(*l, *old(p)),
    ensures
        statements::said(
            grammar::p_field(statements::input(l@), old(p)@),
            field_result(r),
            final(p)@,
        ),
        r is Ok ==> statements::advanced(*l, *old(p), *final(p)),
    decreases l.tokens@.len() - old(p).pos, 30nat,
{
    let start: Span = peek_span(l, p);
    expect(l, p, Tok::Dot)?;
    let name = expect_any_ident(l, p)?;
    expect(l, p, Tok::Eq)?;
    let value = parse_field_value(l, p, start)?;
    if matches!(value, FieldValue::Probe(_)) {
        let end: Span = prev_span(l, p);
        return Ok(Field { name, value, span: span_from(start, end) });
    }
    let span: Span = semi_from(l, p, start)?;
    Ok(Field { name, value, span })
}

/// Whether the next token is a bare name with a semicolon behind it.
fn at_probe_ref(l: &Lexed, p: &Cursor) -> (r: bool)
    requires
        statements::inside(*l, *p),
    ensures
        r == ({
            let t = grammar::tok(statements::input(l@), p@);
            t is Ident && t != TokV::Ident("true"@) && t != TokV::Ident("false"@)
                && grammar::tok_at(statements::input(l@), p@, 1) is Semi
        }),
{
    matches!(peek(l, p), Tok::Ident(_)) && !is_ident(l, p, "true") && !is_ident(l, p, "false")
        && matches!(peek_at(l, p, 1), Tok::Semi)
}

fn parse_field_value(l: &Lexed, p: &mut Cursor, start: Span) -> (r: VclResult<FieldValue>)
    requires
        statements::inside(*l, *old(p)),
    ensures
        statements::said(
            grammar::p_field_value(statements::input(l@), old(p)@, start),
            field_value_result(r),
            final(p)@,
        ),
        r is Ok ==> statements::advanced(*l, *old(p), *final(p)),
    decreases l.tokens@.len() - old(p).pos, 32nat,
{
    if matches!(peek(l, p), Tok::LBrace) {
        advance(l, p);
        let none: Vec<Field> = Vec::new();
        assert(ast::fields_view(none@) =~= Seq::<FieldV>::empty());
        let fields = parse_fields(l, p, Some(start), none)?;
        return Ok(FieldValue::Probe(fields));
    }
    if at_probe_ref(l, p) {
        if let Tok::Ident(n) = peek(l, p) {
            let name = n.clone();
            advance(l, p);
            return Ok(FieldValue::ProbeRef(name));
        }
    }
    if matches!(peek(l, p), Tok::Str(_)) && matches!(peek_at(l, p, 1), Tok::Str(_)) {
        let strs = parse_strings(l, p);
        return Ok(FieldValue::StringList(strs));
    }
    let e = parse_expr(l, p)?;
    Ok(FieldValue::Expr(e))
}

/// Adjacent strings.
fn parse_strings(l: &Lexed, p: &mut Cursor) -> (r: Vec<String>)
    requires
        statements::inside(*l, *old(p)),
        grammar::tok(statements::input(l@), old(p)@) is Str,
    ensures
        (text::texts(r@), final(p)@) == grammar::p_strings(
            statements::input(l@),
            old(p)@,
            seq![],
        ),
        statements::advanced(*l, *old(p), *final(p)),
{
    let mut strs: Vec<String> = Vec::new();
    assert(text::texts(strs@) =~= Seq::<Seq<char>>::empty());
    let ghost inp = statements::input(l@);
    proof {
        reveal(grammar::p_strings);
    }
    loop
        invariant
            statements::kept(*l, *old(p), *p),
            inp == statements::input(l@),
            p.pos == old(p).pos ==> grammar::tok(inp, p@) is Str,
            grammar::p_strings(inp, old(p)@, seq![]) == grammar::p_strings(
                inp,
                p@,
                text::texts(strs@),
            ),
        decreases l.tokens@.len() - p.pos,
    {
        proof {
            reveal(grammar::p_strings);
        }
        match peek(l, p) {
            Tok::Str(s) => {
                strs.push(s.clone());
                advance(l, p);
            },
            _ => {
                return strs;
            },
        }
    }
}

// ───────────────────────── lists of addresses ─────────────────────────

fn parse_mask(l: &Lexed, p: &mut Cursor) -> (r: VclResult<Option<u8>>)
    requires
        statements::inside(*l, *old(p)),
    ensures
        statements::said(
            grammar::p_mask(statements::input(l@), old(p)@),
            mask_result(r),
            final(p)@,
        ),
        r is Ok ==> statements::kept(*l, *old(p), *final(p)),
{
    proof {
        reveal(grammar::p_mask);
    }
    if !matches!(peek(l, p), Tok::Slash) {
        return Ok(None);
    }
    advance(l, p);
    match peek(l, p) {
        Tok::Num(n) => {
            advance(l, p);
            match text::parse_unsigned(n.as_str(), u8::MAX as u64) {
                Some(v) => Ok(Some(v as u8)),
                None => Err(error(l, p, "invalid ACL mask".to_string())),
            }
        },
        _ => Err(found(l, p, "expected mask number, found ")),
    }
}

fn parse_acl_entry(l: &Lexed, p: &mut Cursor) -> (r: VclResult<AclEntry>)
    requires
        statements::inside(*l, *old(p)),
    ensures
        statements::said(
            grammar::p_acl_entry(statements::input(l@), old(p)@),
            entry_result(r),
            final(p)@,
        ),
        r is Ok ==> statements::advanced(*l, *old(p), *final(p)),
{
    proof {
        reveal(grammar::p_acl_entry);
    }
    let start: Span = peek_span(l, p);
    let negated = matches!(peek(l, p), Tok::Bang);
    if negated {
        advance(l, p);
    }
    let addr = expect_str(l, p)?;
    let mask: Option<u8> = parse_mask(l, p)?;
    let span: Span = semi_from(l, p, start)?;
    Ok(AclEntry { negated, addr, mask, span })
}

/// Entries up to and with the closing brace, behind those in `done`.
fn parse_acl_entries(l: &Lexed, p: &mut Cursor, prev: Option<Span>, done: Vec<AclEntry>) -> (r:
    VclResult<Vec<AclEntry>>)
    requires
        statements::inside(*l, *old(p)),
    ensures
        statements::said(
            grammar::p_acl_entries(
                statements::input(l@),
                old(p)@,
                prev,
                ast::acl_entries_view(done@),
            ),
            entries_result(r),
            final(p)@,
        ),
        r is Ok ==> statements::advanced(*l, *old(p), *final(p)),
{
    let mut entries = done;
    let mut before: Option<Span> = prev;
    loop
        invariant
            statements::kept(*l, *old(p), *p),
            grammar::p_acl_entries(
                statements::input(l@),
                old(p)@,
                prev,
                ast::acl_entries_view(done@),
            ) == grammar::p_acl_entries(
                statements::input(l@),
                p@,
                before,
                ast::acl_entries_view(entries@),
            ),
        decreases l.tokens@.len() - p.pos,
    {
        proof {
            reveal(grammar::p_acl_entries);
        }
        match peek(l, p) {
            Tok::RBrace => {
                let lo: u32 = peek_span(l, p).lo;
                advance(l, p);
                finish_gap(l, p, before, lo);
                return Ok(entries);
            },
            _ => {
                gap_before(l, p, before);
                let e = parse_acl_entry(l, p)?;
                before = Some(e.span);
                entries.push(e);
            },
        }
    }
}

// ───────────────────────── declarations ─────────────────────────

fn parse_top_decl(l: &Lexed, p: &mut Cursor) -> (r: VclResult<Decl>)
    requires
        statements::inside(*l, *old(p)),
    ensures
        statements::said(
            grammar::p_top_decl(statements::input(l@), old(p)@),
            decl_result(r),
            final(p)@,
        ),
        r is Ok ==> statements::advanced(*l, *old(p), *final(p)),
{
    proof {
        reveal(grammar::p_top_decl);
    }
    let start: Span = peek_span(l, p);
    if let Tok::Ident(kw) = peek(l, p) {
        if text::str_eq(kw.as_str(), "import") {
            advance(l, p);
            return parse_import(l, p, start);
        }
        if text::str_eq(kw.as_str(), "backend") {
            advance(l, p);
            return parse_backend(l, p, start);
        }
        if text::str_eq(kw.as_str(), "probe") {
            advance(l, p);
            return parse_probe(l, p, start);
        }
        if text::str_eq(kw.as_str(), "acl") {
            advance(l, p);
            return parse_acl(l, p, start);
        }
        if text::str_eq(kw.as_str(), "sub") {
            advance(l, p);
            return parse_sub(l, p, start);
        }
    }
    Err(
        found(
            l,
            p,
            "expected top-level declaration (import/backend/probe/acl/sub), found ",
        ),
    )
}

fn parse_import(l: &Lexed, p: &mut Cursor, start: Span) -> (r: VclResult<Decl>)
    requires
        statements::inside(*l, *old(p)),
    ensures
        statements::said(
            grammar::p_import(statements::input(l@), old(p)@, start),
            decl_result(r),
            final(p)@,
        ),
        r is Ok ==> statements::advanced(*l, *old(p), *final(p)),
{
    proof {
        reveal(grammar::p_import);
    }
    let name = expect_any_ident(l, p)?;
    if is_ident(l, p, "from") {
        advance(l, p);
        let from = expect_str(l, p)?;
        let span: Span = semi_from(l, p, start)?;
        return Ok(Decl::Import { name, from: Some(from), span });
    }
    let span: Span = semi_from(l, p, start)?;
    Ok(Decl::Import { name, from: None, span })
}

/// Fields in braces.
fn parse_field_block(l: &Lexed, p: &mut Cursor, start: Span) -> (r: VclResult<Vec<Field>>)
    requires
        statements::inside(*l, *old(p)),
    ensures
        statements::said(
            grammar::p_field_block(statements::input(l@), old(p)@, start),
            fields_result(r),
            final(p)@,
        ),
        r is Ok ==> statements::advanced(*l, *old(p), *final(p)),
{
    proof {
        reveal(grammar::p_field_block);
    }
    expect(l, p, Tok::LBrace)?;
    let none: Vec<Field> = Vec::new();
    assert(ast::fields_view(none@) =~= Seq::<FieldV>::empty());
    parse_fields(l, p, Some(start), none)
}

fn parse_backend(l: &Lexed, p: &mut Cursor, start: Span) -> (r: VclResult<Decl>)
    requires
        statements::inside(*l, *old(p)),
    ensures
        statements::said(
            grammar::p_backend(statements::input(l@), old(p)@, start),
            decl_result(r),
            final(p)@,
        ),
        r is Ok ==> statements::advanced(*l, *old(p), *final(p)),
{
    proof {
        reveal(grammar::p_backend);
    }
    let name = expect_any_ident(l, p)?;
    if is_ident(l, p, "none") {
        advance(l, p);
        let span: Span = semi_from(l, p, start)?;
        return Ok(Decl::Backend { name, none: true, body: None, span });
    }
    let fields = parse_field_block(l, p, start)?;
    let end: Span = prev_span(l, p);
    Ok(Decl::Backend { name, none: false, body: Some(fields), span: span_from(start, end) })
}

fn parse_probe(l: &Lexed, p: &mut Cursor, start: Span) -> (r: VclResult<Decl>)
    requires
        statements::inside(*l, *old(p)),
    ensures
        statements::said(
            grammar::p_probe(statements::input(l@), old(p)@, start),
            decl_result(r),
            final(p)@,
        ),
        r is Ok ==> statements::advanced(*l, *old(p), *final(p)),
{
    proof {
        reveal(grammar::p_probe);
    }
    let name = expect_any_ident(l, p)?;
    let body = parse_field_block(l, p, start)?;
    let end: Span = prev_span(l, p);
    Ok(Decl::Probe { name, body, span: span_from(start, end) })
}

fn parse_acl(l: &Lexed, p: &mut Cursor, start: Span) -> (r: VclResult<Decl>)
    requires
        statements::inside(*l, *old(p)),
    ensures
        statements::said(
            grammar::p_acl(statements::input(l@), old(p)@, start),
            decl_result(r),
            final(p)@,
        ),
        r is Ok ==> statements::advanced(*l, *old(p), *final(p)),
{
    proof {
        reveal(grammar::p_acl);
    }
    let name = expect_any_ident(l, p)?;
    expect(l, p, Tok::LBrace)?;
    let none: Vec<AclEntry> = Vec::new();
    assert(ast::acl_entries_view(none@) =~= Seq::<AclEntryV>::empty());
    let entries = parse_acl_entries(l, p, Some(start), none)?;
    let end: Span = prev_span(l, p);
    Ok(Decl::Acl { name, entries, span: span_from(start, end) })
}

fn parse_sub(l: &Lexed, p: &mut Cursor, start: Span) -> (r: VclResult<Decl>)
    requires
        statements::inside(*l, *old(p)),
    ensures
        statements::said(
            grammar::p_sub(statements::input(l@), old(p)@, start),
            decl_result(r),
            final(p)@,
        ),
        r is Ok ==> statements::advanced(*l, *old(p), *final(p)),
{
    proof {
        reveal(grammar::p_sub);
    }
    let name = expect_any_ident(l, p)?;
    let body = parse_block(l, p, Some(start))?;
    let end: Span = prev_span(l, p);
    Ok(Decl::Sub { name, body, span: span_from(start, end) })
}

// ───────────────────────── the program ─────────────────────────

/// The two parts of a version number, and where it stands.
fn parse_version_numbers(l: &Lexed, p: &mut Cursor) -> (r: VclResult<(String, String, Span)>)
    requires
        statements::inside(*l, *old(p)),
    ensures
        match r {
            Ok((major, minor, span)) => grammar::p_version(statements::input(l@), old(p)@)
                == Parse::Read(
                VersionV { major: major@, minor: minor@, span },
                final(p)@,
            ),
            Err(e) => grammar::p_version(statements::input(l@), old(p)@) == Parse::<
                VersionV,
            >::Bad(e@),
        },
        r is Ok ==> statements::advanced(*l, *old(p), *final(p)),
{
    proof {
        reveal(grammar::p_version);
    }
    let start: Span = peek_span(l, p);
    match peek(l, p) {
        Tok::Num(n) => {
            advance(l, p);
            let v = text::to_chars(n.as_str());
            let d: usize = text::find_char(&v, '.', 0);
            if d < v.len() {
                return Ok(
                    (text::from_chars(&v, 0, d), text::from_chars(&v, d + 1, v.len()), start),
                );
            }
            expect(l, p, Tok::Dot)?;
            let end: Span = peek_span(l, p);
            match peek(l, p) {
                Tok::Num(m) => {
                    advance(l, p);
                    Ok((n.clone(), m.clone(), span_from(start, end)))
                },
                _ => Err(found(l, p, "expected version minor number, found ")),
            }
        },
        _ => Err(found(l, p, "expected VCL version number, found ")),
    }
}

fn parse_vcl_decl(l: &Lexed, p: &mut Cursor) -> (r: VclResult<Span>)
    requires
        statements::inside(*l, *old(p)),
    ensures
        statements::said(
            grammar::p_vcl_decl(statements::input(l@), old(p)@),
            statements::span_result(r),
            final(p)@,
        ),
        r is Ok ==> statements::advanced(*l, *old(p), *final(p)),
{
    proof {
        reveal(grammar::p_vcl_decl);
    }
    let start: Span = expect_ident_kw(l, p, "vcl")?;
    let (major, minor, at) = parse_version_numbers(l, p)?;
    if !text::str_eq(major.as_str(), "4") || !text::str_eq(minor.as_str(), "1") {
        return Err(VclError::new(at, "only VCL 4.1 supported".to_string()));
    }
    semi_from(l, p, start)
}

/// Reads a further `vcl X.Y;` and makes nothing of it.
fn parse_secondary_vcl_decl(l: &Lexed, p: &mut Cursor) -> (r: VclResult<()>)
    requires
        statements::inside(*l, *old(p)),
        grammar::tok(statements::input(l@), old(p)@) is Ident,
    ensures
        match r {
            Ok(_) => grammar::p_further_vcl(statements::input(l@), old(p)@) == Parse::Read(
                (),
                final(p)@,
            ),
            Err(e) => grammar::p_further_vcl(statements::input(l@), old(p)@) == Parse::<()>::Bad(
                e@,
            ),
        },
        r is Ok ==> statements::advanced(*l, *old(p), *final(p)),
{
    proof {
        reveal(grammar::p_further_vcl);
    }
    advance(l, p);
    let _ = parse_version_numbers(l, p)?;
    expect(l, p, Tok::Semi)?;
    Ok(())
}

/// Parses a token stream.
pub fn parse_tokens(l: &Lexed) -> (r: VclResult<Program>)
    requires
        statements::input(l@).ended(),
    ensures
        program_result(r) == grammar::p_program(statements::input(l@)),
{
    proof {
        reveal(grammar::p_program);
    }
    let ghost inp = statements::input(l@);
    let mut c = Cursor { pos: 0, cidx: 0, out: CommentMap::default() };
    let version: Span = parse_vcl_decl(l, &mut c)?;
    let mut decls: Vec<Decl> = Vec::new();
    let mut prev: Option<Span> = None;
    assert(ast::decls_view(decls@) =~= Seq::<DeclV>::empty());
    loop
        invariant
            inp == statements::input(l@),
            statements::inside(*l, c),
            grammar::p_program(inp) == grammar::p_decls(
                inp,
                c@,
                version,
                prev,
                ast::decls_view(decls@),
            ),
        decreases l.tokens@.len() - c.pos,
    {
        proof {
            reveal(grammar::p_decls);
        }
        if matches!(peek(l, &c), Tok::Eof) {
            let lo: u32 = peek_span(l, &c).lo;
            let over = gap(l, &mut c, prev, lo, None);
            return Ok(
                Program {
                    vcl_version: version,
                    decls,
                    comments: c.out,
                    trailing_comments: over,
                },
            );
        }
        if is_ident(l, &c, "vcl") {
            parse_secondary_vcl_decl(l, &mut c)?;
        } else {
            gap_before(l, &mut c, prev);
            let d = parse_top_decl(l, &mut c)?;
            prev = Some(d.span());
            decls.push(d);
        }
    }
}

// ───────────────────────── whole inputs ─────────────────────────

/// The program that a stream stands for.
pub open spec fn program_of(s: core::result::Result<StreamV, ErrV>) -> core::result::Result<
    ProgramV,
    ErrV,
> {
    match s {
        Ok(v) => grammar::p_program(statements::input(v.lexed)),
        Err(e) => Err(e),
    }
}

/// Parses a text as a file of its own.
pub fn parse_str(src: &str) -> (r: VclResult<Program>)
    ensures
        program_result(r) == program_of(lexer::lex_alone(src@)),
{
    let (l, _) = lexer::lex_str_full(src)?;
    parse_tokens(&l)
}

/// Whether a result with a program and its files is what a stream stands for.
pub open spec fn parsed(
    r: VclResult<(Program, SourceMap)>,
    s: core::result::Result<StreamV, ErrV>,
) -> bool {
    match r {
        Ok((p, sm)) => s matches Ok(v) && program_of(s) == core::result::Result::<
            ProgramV,
            ErrV,
        >::Ok(p@) && sm@ == v.files,
        Err(e) => program_of(s) == core::result::Result::<ProgramV, ErrV>::Err(e@),
    }
}

fn parse_stream(l: &Lexed, sm: SourceMap, Ghost(s): Ghost<StreamV>) -> (r: VclResult<
    (Program, SourceMap),
>)
    requires
        statements::input(l@).ended(),
        s == (StreamV { lexed: l@, files: sm@ }),
    ensures
        parsed(r, Ok(s)),
{
    let p = parse_tokens(l)?;
    Ok((p, sm))
}

/// Parses the program whose root file stands at `path`, or says what has to be
/// known of the file system first.
pub fn parse_file(path: &str, dirs: &Vec<String>, fs: &Sources) -> (r: Step<(Program, SourceMap)>)
    ensures
        match r {
            Step::Need(q) => inclusion::lex_files(*fs, path@, text::texts(dirs@)) == StepV::<
                StreamV,
            >::Need(q@),
            Step::Done(x) => match inclusion::lex_files(*fs, path@, text::texts(dirs@)) {
                StepV::Need(_) => false,
                StepV::Fault(e) => parsed(x, Err(e)),
                StepV::Done(s) => parsed(x, Ok(s)),
            },
        },
{
    match inclusion::lex(path, dirs, fs) {
        Step::Need(q) => Step::Need(q),
        Step::Done(Err(e)) => Step::Done(Err(e)),
        Step::Done(Ok((l, sm))) => {
            let ghost s = StreamV { lexed: l@, files: sm@ };
            Step::Done(parse_stream(&l, sm, Ghost(s)))
        },
    }
}

/// Parses the text of a dump. Nothing comes back where a chunk of it ends
/// inside a character or its index leaves no next index.
pub fn parse_vcl_show_text(t: &str) -> (r: Option<VclResult<(Program, SourceMap)>>)
    ensures
        match vclshow::dump(t@) {
            DumpV::Cut => r is None,
            DumpV::Fault(e) => r matches Some(x) && parsed(x, Err(e)),
            DumpV::Chunks(c) => r matches Some(x) && parsed(x, lexer::lex_chunks(c)),
        },
{
    match vclshow::parse_dump(t) {
        None => None,
        Some(Err(e)) => Some(Err(e)),
        Some(Ok(chunks)) => match lexer::lex_from_vcl_show_full(&chunks) {
            Err(e) => Some(Err(e)),
            Ok((l, sm)) => {
                let ghost s = StreamV { lexed: l@, files: sm@ };
                Some(parse_stream(&l, sm, Ghost(s)))
            },
        },
    }
}

} // verus!
