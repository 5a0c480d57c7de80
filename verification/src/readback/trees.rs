//! The tokens of a program stand for the program.

use crate::ast;
use crate::ast::{AclEntryV, DeclV, ExprV, FieldV, FieldValueV, ProgramV, Span};
use crate::grammar;
use crate::grammar::{InputV, Parse, PlaceV};
use crate::layout;
use crate::layout::parsing;
use crate::lexer::TokV;
use crate::normalize::spelling;
use crate::printer;
use crate::readback;
use crate::readback::blocks;
use crate::readback::terms;
use crate::readback::terms::{holds, kind_at};
use crate::text;
use vstd::prelude::*;
use vstd::string::*;

verus! {

// ───────────────────────── fields ─────────────────────────

proof fn lemma_strings_toks(l: Seq<Seq<char>>, n: nat)
    ensures
        readback::strings_toks(l, n).len() == n,
        forall|i: int| 0 <= i < n ==> #[trigger] readback::strings_toks(l, n)[i] == TokV::Str(l[i]),
    decreases n,
{
    if n > 0 {
        lemma_strings_toks(l, (n - 1) as nat);
    }
}

proof fn lemma_strings(inp: InputV, at: PlaceV, pos: nat, l: Seq<Seq<char>>, i: nat)
    requires
        i <= l.len(),
        holds(inp, pos, readback::strings_toks(l, l.len())),
        !(kind_at(inp, pos + l.len()) is Str),
        at.pos == pos + i,
    ensures
        grammar::p_strings(inp, at, l.take(i as int)).0 == l,
        grammar::p_strings(inp, at, l.take(i as int)).1.pos == pos + l.len(),
    decreases l.len() - i,
{
    reveal_with_fuel(grammar::p_strings, 2);
    reveal(holds);
    let k = readback::strings_toks(l, l.len());
    lemma_strings_toks(l, l.len());
    if i < l.len() {
        assert(inp.toks[pos + i as int].tok == k[i as int]);
        assert(l.take(i as int).push(l[i as int]) =~= l.take(i as int + 1));
        lemma_strings(inp, grammar::next(at), pos, l, i + 1);
    } else {
        assert(l.take(i as int) =~= l);
    }
}

/// Whether the value of a field is read, up to places.
pub open spec fn reads_value(r: Parse<FieldValueV>, v: FieldValueV, pos: nat) -> bool {
    match r {
        Parse::Read(x, s) => layout::bare_value(x) == layout::bare_value(v) && s.pos == pos,
        Parse::Bad(_) => false,
    }
}

proof fn lemma_expr_value(inp: InputV, at: PlaceV, start: Span, e: ExprV)
    requires
        readback::can_expr(e),
        !printer::is_word(e),
        holds(inp, at.pos, readback::expr_toks(e)),
        kind_at(inp, at.pos + readback::expr_toks(e).len()) is Semi,
    ensures
        reads_value(
            grammar::p_field_value(inp, at, start),
            FieldValueV::Expr(e),
            at.pos + readback::expr_toks(e).len(),
        ),
{
    let k = readback::expr_toks(e);
    terms::lemma_starts(e);
    terms::lemma_first(inp, at.pos, k);
    terms::lemma_expr(inp, at, e);
    assert(grammar::tok(inp, at) == k[0]);
    assert(grammar::tok_at(inp, at, 1) == kind_at(inp, at.pos + 1));
    if k[0] is Ident && k.len() == 1 {
        assert(e is Bool);
    }
}

/// A single name in parentheses is an expression.
proof fn lemma_word_value(inp: InputV, at: PlaceV, start: Span, e: ExprV)
    requires
        readback::can_expr(e),
        printer::is_word(e),
        holds(inp, at.pos, readback::word_toks(e, readback::expr_toks(e))),
        kind_at(inp, at.pos + readback::expr_toks(e).len() + 2) is Semi,
    ensures
        reads_value(
            grammar::p_field_value(inp, at, start),
            FieldValueV::Expr(e),
            at.pos + readback::expr_toks(e).len() + 2,
        ),
{
    let k = readback::expr_toks(e);
    let close = seq![TokV::RParen];
    terms::lemma_head(inp, at.pos, TokV::LParen, k + close);
    terms::lemma_in_parentheses(inp, at, e);
}

proof fn lemma_list_value(inp: InputV, at: PlaceV, start: Span, l: Seq<Seq<char>>)
    requires
        l.len() >= 2,
        holds(inp, at.pos, readback::strings_toks(l, l.len())),
        kind_at(inp, at.pos + l.len()) is Semi,
    ensures
        reads_value(
            grammar::p_field_value(inp, at, start),
            FieldValueV::StringList(l),
            at.pos + l.len(),
        ),
{
    let k = readback::strings_toks(l, l.len());
    lemma_strings_toks(l, l.len());
    terms::lemma_first(inp, at.pos, k);
    assert(k[0] == TokV::Str(l[0]) && k[1] == TokV::Str(l[1]));
    assert(l.take(0) =~= seq![]);
    lemma_strings(inp, at, at.pos, l, 0);
}

/// What stands behind a value that is read: its semicolon, or nothing behind a
/// probe in place.
spec fn value_end(v: FieldValueV) -> nat {
    if v is Probe {
        0
    } else {
        1
    }
}

proof fn lemma_value(inp: InputV, at: PlaceV, start: Span, v: FieldValueV)
    requires
        readback::can_value(v),
        holds(inp, at.pos, readback::value_toks(v)),
    ensures
        readback::value_toks(v).len() > value_end(v),
        reads_value(
            grammar::p_field_value(inp, at, start),
            v,
            (at.pos + readback::value_toks(v).len() - value_end(v)) as nat,
        ),
        v is Probe || kind_at(
            inp,
            (at.pos + readback::value_toks(v).len() - 1) as nat,
        ) is Semi,
    decreases v, 0nat, 0nat,
{
    let end = seq![TokV::Semi];
    match v {
        FieldValueV::Expr(e) => {
            let k = readback::word_toks(e, readback::expr_toks(e));
            terms::lemma_starts(e);
            terms::lemma_split(inp, at.pos, k, end);
            terms::lemma_one(inp, at.pos + k.len(), TokV::Semi);
            if printer::is_word(e) {
                lemma_word_value(inp, at, start, e);
            } else {
                lemma_expr_value(inp, at, start, e);
            }
        },
        FieldValueV::ProbeRef(n) => {
            terms::lemma_head(inp, at.pos, TokV::Ident(n), end);
            terms::lemma_one(inp, at.pos + 1, TokV::Semi);
        },
        FieldValueV::StringList(l) => {
            let k = readback::strings_toks(l, l.len());
            lemma_strings_toks(l, l.len());
            terms::lemma_split(inp, at.pos, k, end);
            terms::lemma_one(inp, at.pos + k.len(), TokV::Semi);
            lemma_list_value(inp, at, start, l);
        },
        FieldValueV::Probe(fs) => {
            let k = readback::fields_toks(fs, fs.len());
            terms::lemma_head(inp, at.pos, TokV::LBrace, k + seq![TokV::RBrace]);
            terms::lemma_split(inp, at.pos + 1, k, seq![TokV::RBrace]);
            terms::lemma_one(inp, at.pos + 1 + k.len(), TokV::RBrace);
            assert(readback::fields_toks(fs, 0) =~= seq![]);
            lemma_fields(inp, grammar::next(at), at.pos + 1, fs, 0, Some(start), seq![]);
        },
    }
}

proof fn lemma_field(inp: InputV, at: PlaceV, f: FieldV)
    requires
        readback::can_field(f),
        holds(inp, at.pos, readback::field_toks(f)),
    ensures
        at.pos < inp.toks.len(),
        grammar::tok(inp, at) is Dot,
        readback::field_toks(f).len() > 0,
        match grammar::p_field(inp, at) {
            Parse::Read(x, s) => layout::bare_field(x) == layout::bare_field(f) && s.pos == at.pos
                + readback::field_toks(f).len(),
            _ => false,
        },
    decreases f, 0nat, 0nat,
{
    let v = readback::value_toks(f.value);
    terms::lemma_head(inp, at.pos, TokV::Dot, readback::word(f.name) + (seq![TokV::Eq] + v));
    terms::lemma_head(inp, at.pos + 1, TokV::Ident(f.name), seq![TokV::Eq] + v);
    terms::lemma_head(inp, at.pos + 2, TokV::Eq, v);
    let start = grammar::here(inp, at);
    let s = grammar::next(grammar::next(grammar::next(at)));
    lemma_value(inp, s, start, f.value);
    match grammar::p_field_value(inp, s, start) {
        Parse::Read(x, t) => {
            assert(x is Probe == f.value is Probe);
        },
        _ => {},
    }
}

proof fn lemma_fields_start(inp: InputV, pos: nat, fs: Seq<FieldV>, i: nat, n: nat)
    requires
        i <= n <= fs.len(),
        holds(inp, pos, readback::fields_toks(fs, n)),
    ensures
        holds(inp, pos, readback::fields_toks(fs, i)),
    decreases n,
{
    if i < n {
        terms::lemma_split(
            inp,
            pos,
            readback::fields_toks(fs, (n - 1) as nat),
            readback::field_toks(fs[n - 1]),
        );
        lemma_fields_start(inp, pos, fs, i, (n - 1) as nat);
    }
}

proof fn lemma_field_place(inp: InputV, pos: nat, fs: Seq<FieldV>, i: nat)
    requires
        i < fs.len(),
        holds(inp, pos, readback::fields_toks(fs, fs.len())),
    ensures
        holds(inp, pos + readback::fields_toks(fs, i).len(), readback::field_toks(fs[i as int])),
        readback::fields_toks(fs, i + 1).len() == readback::fields_toks(fs, i).len()
            + readback::field_toks(fs[i as int]).len(),
{
    lemma_fields_start(inp, pos, fs, i + 1, fs.len());
    terms::lemma_split(
        inp,
        pos,
        readback::fields_toks(fs, i),
        readback::field_toks(fs[i as int]),
    );
}

/// Whether fields are read, up to places.
pub open spec fn reads_fields(r: Parse<Seq<FieldV>>, fs: Seq<FieldV>, pos: nat) -> bool {
    match r {
        Parse::Read(x, s) => layout::bare_fields(x) == layout::bare_fields(fs) && s.pos == pos,
        Parse::Bad(_) => false,
    }
}

proof fn lemma_fields(
    inp: InputV,
    at: PlaceV,
    pos: nat,
    fs: Seq<FieldV>,
    i: nat,
    prev: Option<Span>,
    done: Seq<FieldV>,
)
    requires
        readback::can_fields(fs),
        i <= fs.len(),
        holds(inp, pos, readback::fields_toks(fs, fs.len())),
        kind_at(inp, pos + readback::fields_toks(fs, fs.len()).len()) is RBrace,
        at.pos == pos + readback::fields_toks(fs, i).len(),
        done.len() == i,
        forall|j: int|
            0 <= j < i ==> layout::bare_field(#[trigger] done[j]) == layout::bare_field(fs[j]),
    ensures
        reads_fields(
            grammar::p_fields(inp, at, prev, done),
            fs,
            pos + readback::fields_toks(fs, fs.len()).len() + 1,
        ),
    decreases fs, 0nat, fs.len() - i,
{
    if i == fs.len() {
        parsing::lemma_finish_gap(inp, grammar::next(at), prev, grammar::here(inp, at).lo);
        assert(layout::bare_fields(done) =~= layout::bare_fields(fs));
    } else {
        let f = fs[i as int];
        assert(readback::can_field(f));
        lemma_field_place(inp, pos, fs, i);
        let g = grammar::gap_before(inp, at, prev);
        parsing::lemma_gap_before(inp, at, prev);
        lemma_field(inp, g, f);
        assert(grammar::tok(inp, g) == grammar::tok(inp, at));
        match grammar::p_field(inp, g) {
            Parse::Read(y, s) => {
                let more = done.push(y);
                assert forall|j: int| 0 <= j < i + 1 implies layout::bare_field(
                    #[trigger] more[j],
                ) == layout::bare_field(fs[j]) by {
                    if j < i {
                        assert(more[j] == done[j]);
                    }
                }
                lemma_fields(inp, s, pos, fs, i + 1, Some(y.span), more);
            },
            _ => {},
        }
    }
}

/// The tokens of fields in braces stand for the fields.
proof fn lemma_field_block(inp: InputV, at: PlaceV, start: Span, fs: Seq<FieldV>)
    requires
        readback::can_fields(fs),
        holds(inp, at.pos, readback::braced(readback::fields_toks(fs, fs.len()))),
    ensures
        grammar::tok(inp, at) is LBrace,
        reads_fields(
            grammar::p_field_block(inp, at, start),
            fs,
            at.pos + readback::fields_toks(fs, fs.len()).len() + 2,
        ),
{
    reveal(grammar::p_field_block);
    let k = readback::fields_toks(fs, fs.len());
    terms::lemma_head(inp, at.pos, TokV::LBrace, k + seq![TokV::RBrace]);
    terms::lemma_split(inp, at.pos + 1, k, seq![TokV::RBrace]);
    terms::lemma_one(inp, at.pos + 1 + k.len(), TokV::RBrace);
    assert(readback::fields_toks(fs, 0) =~= seq![]);
    lemma_fields(inp, grammar::next(at), at.pos + 1, fs, 0, Some(start), seq![]);
}

// ───────────────────────── addresses ─────────────────────────

proof fn lemma_mask(m: u8)
    ensures
        text::unsigned_value(text::nat_text(m as nat), u8::MAX as nat) == Some(m as nat),
{
    let t = text::nat_text(m as nat);
    spelling::lemma_digits_of_nat(m as nat);
    assert(text::is_digit(t[0]));
    assert(text::unsigned_digits(t) == t);
}

proof fn lemma_masked(inp: InputV, at: PlaceV, mask: Option<u8>)
    requires
        holds(
            inp,
            at.pos,
            (match mask {
                Some(m) => seq![TokV::Slash, TokV::Num(text::nat_text(m as nat))],
                None => seq![],
            }) + seq![TokV::Semi],
        ),
    ensures
        match grammar::p_mask(inp, at) {
            Parse::Read(x, s) => x == mask && grammar::tok(inp, s) is Semi && s.pos == at.pos
                + if mask is Some {
                2nat
            } else {
                0nat
            },
            _ => false,
        },
{
    reveal(grammar::p_mask);
    let end = seq![TokV::Semi];
    match mask {
        Some(m) => {
            let n = text::nat_text(m as nat);
            assert(seq![TokV::Slash, TokV::Num(n)] + end =~= seq![TokV::Slash] + (seq![
                TokV::Num(n),
            ] + end));
            terms::lemma_head(inp, at.pos, TokV::Slash, seq![TokV::Num(n)] + end);
            terms::lemma_head(inp, at.pos + 1, TokV::Num(n), end);
            terms::lemma_one(inp, at.pos + 2, TokV::Semi);
            lemma_mask(m);
        },
        None => {
            assert(Seq::<TokV>::empty() + end =~= end);
            terms::lemma_one(inp, at.pos, TokV::Semi);
        },
    }
}

proof fn lemma_entry(inp: InputV, at: PlaceV, e: AclEntryV)
    requires
        holds(inp, at.pos, readback::entry_toks(e)),
    ensures
        at.pos < inp.toks.len(),
        !(grammar::tok(inp, at) is RBrace),
        readback::entry_toks(e).len() > 0,
        match grammar::p_acl_entry(inp, at) {
            Parse::Read(x, s) => layout::bare_entry(x) == layout::bare_entry(e) && s.pos == at.pos
                + readback::entry_toks(e).len(),
            _ => false,
        },
{
    reveal(grammar::p_acl_entry);
    let m = (match e.mask {
        Some(m) => seq![TokV::Slash, TokV::Num(text::nat_text(m as nat))],
        None => seq![],
    }) + seq![TokV::Semi];
    let k = seq![TokV::Str(e.addr)] + m;
    let from = if e.negated {
        grammar::next(at)
    } else {
        at
    };
    if e.negated {
        terms::lemma_head(inp, at.pos, TokV::Bang, k);
    } else {
        assert(Seq::<TokV>::empty() + k =~= k);
    }
    terms::lemma_head(inp, from.pos, TokV::Str(e.addr), m);
    lemma_masked(inp, grammar::next(from), e.mask);
}

proof fn lemma_entries_start(inp: InputV, pos: nat, es: Seq<AclEntryV>, i: nat, n: nat)
    requires
        i <= n <= es.len(),
        holds(inp, pos, readback::entries_toks(es, n)),
    ensures
        holds(inp, pos, readback::entries_toks(es, i)),
    decreases n,
{
    if i < n {
        terms::lemma_split(
            inp,
            pos,
            readback::entries_toks(es, (n - 1) as nat),
            readback::entry_toks(es[n - 1]),
        );
        lemma_entries_start(inp, pos, es, i, (n - 1) as nat);
    }
}

proof fn lemma_entries(
    inp: InputV,
    at: PlaceV,
    pos: nat,
    es: Seq<AclEntryV>,
    i: nat,
    prev: Option<Span>,
    done: Seq<AclEntryV>,
)
    requires
        i <= es.len(),
        holds(inp, pos, readback::entries_toks(es, es.len())),
        kind_at(inp, pos + readback::entries_toks(es, es.len()).len()) is RBrace,
        at.pos == pos + readback::entries_toks(es, i).len(),
        done.len() == i,
        forall|j: int|
            0 <= j < i ==> layout::bare_entry(#[trigger] done[j]) == layout::bare_entry(es[j]),
    ensures
        match grammar::p_acl_entries(inp, at, prev, done) {
            Parse::Read(x, s) => layout::bare_entries(x) == layout::bare_entries(es) && s.pos
                == pos + readback::entries_toks(es, es.len()).len() + 1,
            _ => false,
        },
    decreases es.len() - i,
{
    reveal_with_fuel(grammar::p_acl_entries, 2);
    if i == es.len() {
        parsing::lemma_finish_gap(inp, grammar::next(at), prev, grammar::here(inp, at).lo);
        assert(layout::bare_entries(done) =~= layout::bare_entries(es));
    } else {
        let e = es[i as int];
        lemma_entries_start(inp, pos, es, i + 1, es.len());
        terms::lemma_split(inp, pos, readback::entries_toks(es, i), readback::entry_toks(e));
        let g = grammar::gap_before(inp, at, prev);
        parsing::lemma_gap_before(inp, at, prev);
        lemma_entry(inp, g, e);
        assert(grammar::tok(inp, g) == grammar::tok(inp, at));
        match grammar::p_acl_entry(inp, g) {
            Parse::Read(y, s) => {
                let more = done.push(y);
                assert forall|j: int| 0 <= j < i + 1 implies layout::bare_entry(
                    #[trigger] more[j],
                ) == layout::bare_entry(es[j]) by {
                    if j < i {
                        assert(more[j] == done[j]);
                    }
                }
                lemma_entries(inp, s, pos, es, i + 1, Some(y.span), more);
            },
            _ => {},
        }
    }
}

// ───────────────────────── declarations ─────────────────────────

/// Whether a declaration is read, up to places.
pub open spec fn reads_decl(r: Parse<DeclV>, d: DeclV, pos: nat) -> bool {
    match r {
        Parse::Read(x, s) => layout::bare_decl(x) == layout::bare_decl(d) && s.pos == pos,
        Parse::Bad(_) => false,
    }
}

proof fn lemma_import(
    inp: InputV,
    at: PlaceV,
    start: Span,
    name: Seq<char>,
    from: Option<Seq<char>>,
)
    requires
        holds(
            inp,
            at.pos,
            readback::word(name) + (match from {
                Some(f) => readback::word("from"@) + (seq![TokV::Str(f)] + seq![TokV::Semi]),
                None => seq![TokV::Semi],
            }),
        ),
    ensures
        reads_decl(
            grammar::p_import(inp, at, start),
            DeclV::Import { name, from, span: start },
            at.pos + if from is Some {
                4nat
            } else {
                2nat
            },
        ),
{
    reveal(grammar::p_import);
    let end = seq![TokV::Semi];
    match from {
        Some(f) => {
            let k = seq![TokV::Str(f)] + end;
            terms::lemma_head(inp, at.pos, TokV::Ident(name), readback::word("from"@) + k);
            terms::lemma_head(inp, at.pos + 1, TokV::Ident("from"@), k);
            terms::lemma_head(inp, at.pos + 2, TokV::Str(f), end);
            terms::lemma_one(inp, at.pos + 3, TokV::Semi);
        },
        None => {
            terms::lemma_head(inp, at.pos, TokV::Ident(name), end);
            terms::lemma_one(inp, at.pos + 1, TokV::Semi);
        },
    }
}

proof fn lemma_backend(
    inp: InputV,
    at: PlaceV,
    start: Span,
    name: Seq<char>,
    body: Option<Seq<FieldV>>,
)
    requires
        match body {
            Some(fs) => readback::can_fields(fs),
            None => true,
        },
        holds(
            inp,
            at.pos,
            readback::word(name) + (match body {
                Some(fs) => readback::braced(readback::fields_toks(fs, fs.len())),
                None => readback::word("none"@) + seq![TokV::Semi],
            }),
        ),
    ensures
        reads_decl(
            grammar::p_backend(inp, at, start),
            DeclV::Backend { name, none: body is None, body, span: start },
            at.pos + match body {
                Some(fs) => readback::fields_toks(fs, fs.len()).len() + 3,
                None => 3nat,
            },
        ),
{
    reveal(grammar::p_backend);
    let end = seq![TokV::Semi];
    match body {
        Some(fs) => {
            let k = readback::braced(readback::fields_toks(fs, fs.len()));
            terms::lemma_head(inp, at.pos, TokV::Ident(name), k);
            lemma_field_block(inp, grammar::next(at), start, fs);
        },
        None => {
            terms::lemma_head(inp, at.pos, TokV::Ident(name), readback::word("none"@) + end);
            terms::lemma_head(inp, at.pos + 1, TokV::Ident("none"@), end);
            terms::lemma_one(inp, at.pos + 2, TokV::Semi);
        },
    }
}

proof fn lemma_probe(inp: InputV, at: PlaceV, start: Span, name: Seq<char>, body: Seq<FieldV>)
    requires
        readback::can_fields(body),
        holds(
            inp,
            at.pos,
            readback::word(name) + readback::braced(readback::fields_toks(body, body.len())),
        ),
    ensures
        reads_decl(
            grammar::p_probe(inp, at, start),
            DeclV::Probe { name, body, span: start },
            at.pos + readback::fields_toks(body, body.len()).len() + 3,
        ),
{
    reveal(grammar::p_probe);
    let k = readback::braced(readback::fields_toks(body, body.len()));
    terms::lemma_head(inp, at.pos, TokV::Ident(name), k);
    lemma_field_block(inp, grammar::next(at), start, body);
}

proof fn lemma_acl(inp: InputV, at: PlaceV, start: Span, name: Seq<char>, entries: Seq<AclEntryV>)
    requires
        holds(
            inp,
            at.pos,
            readback::word(name) + readback::braced(
                readback::entries_toks(entries, entries.len()),
            ),
        ),
    ensures
        reads_decl(
            grammar::p_acl(inp, at, start),
            DeclV::Acl { name, entries, span: start },
            at.pos + readback::entries_toks(entries, entries.len()).len() + 3,
        ),
{
    reveal(grammar::p_acl);
    let k = readback::entries_toks(entries, entries.len());
    let close = seq![TokV::RBrace];
    terms::lemma_head(inp, at.pos, TokV::Ident(name), readback::braced(k));
    terms::lemma_head(inp, at.pos + 1, TokV::LBrace, k + close);
    terms::lemma_split(inp, at.pos + 2, k, close);
    terms::lemma_one(inp, at.pos + 2 + k.len(), TokV::RBrace);
    assert(readback::entries_toks(entries, 0) =~= seq![]);
    let s = grammar::next(grammar::next(at));
    lemma_entries(inp, s, at.pos + 2, entries, 0, Some(start), seq![]);
}

proof fn lemma_sub(inp: InputV, at: PlaceV, start: Span, name: Seq<char>, body: Seq<ast::StmtV>)
    requires
        readback::can_stmts(body),
        holds(
            inp,
            at.pos,
            readback::word(name) + readback::braced(readback::stmts_toks(body, body.len())),
        ),
    ensures
        reads_decl(
            grammar::p_sub(inp, at, start),
            DeclV::Sub { name, body, span: start },
            at.pos + readback::stmts_toks(body, body.len()).len() + 3,
        ),
{
    reveal(grammar::p_sub);
    let k = readback::braced(readback::stmts_toks(body, body.len()));
    terms::lemma_head(inp, at.pos, TokV::Ident(name), k);
    blocks::lemma_block(inp, grammar::next(at), body, Some(start));
}

/// The words that start declarations differ.
proof fn lemma_keywords()
    ensures
        "import"@ != "vcl"@,
        "backend"@ != "vcl"@ && "backend"@ != "import"@,
        "probe"@ != "vcl"@ && "probe"@ != "import"@ && "probe"@ != "backend"@,
        "acl"@ != "vcl"@ && "acl"@ != "import"@ && "acl"@ != "backend"@ && "acl"@ != "probe"@,
        "sub"@ != "vcl"@ && "sub"@ != "import"@ && "sub"@ != "backend"@ && "sub"@ != "probe"@
            && "sub"@ != "acl"@,
{
    reveal_strlit("vcl");
    reveal_strlit("import");
    reveal_strlit("backend");
    reveal_strlit("probe");
    reveal_strlit("acl");
    reveal_strlit("sub");
    assert("vcl"@.len() == 3 && "import"@.len() == 6 && "backend"@.len() == 7 && "probe"@.len() == 5
        && "acl"@.len() == 3 && "sub"@.len() == 3);
    assert("vcl"@[0] == 'v' && "acl"@[0] == 'a' && "sub"@[0] == 's');
}

proof fn lemma_decl(inp: InputV, at: PlaceV, d: DeclV)
    requires
        readback::can_decl(d),
        holds(inp, at.pos, readback::decl_toks(d)),
    ensures
        at.pos < inp.toks.len(),
        readback::decl_toks(d).len() > 0,
        grammar::tok(inp, at) is Ident,
        grammar::tok(inp, at) != TokV::Ident("vcl"@),
        reads_decl(grammar::p_top_decl(inp, at), d, at.pos + readback::decl_toks(d).len()),
{
    reveal(grammar::p_top_decl);
    lemma_keywords();
    let start = grammar::here(inp, at);
    let n = grammar::next(at);
    let end = seq![TokV::Semi];
    match d {
        DeclV::Import { name, from, .. } => {
            let k = readback::word(name) + (match from {
                Some(f) => readback::word("from"@) + (seq![TokV::Str(f)] + end),
                None => end,
            });
            terms::lemma_head(inp, at.pos, TokV::Ident("import"@), k);
            lemma_import(inp, n, start, name, from);
        },
        DeclV::Backend { name, none, body, .. } => {
            let k = readback::word(name) + (match body {
                Some(fs) => readback::braced(readback::fields_toks(fs, fs.len())),
                None => readback::word("none"@) + end,
            });
            terms::lemma_head(inp, at.pos, TokV::Ident("backend"@), k);
            lemma_backend(inp, n, start, name, body);
        },
        DeclV::Probe { name, body, .. } => {
            let k = readback::word(name) + readback::braced(
                readback::fields_toks(body, body.len()),
            );
            terms::lemma_head(inp, at.pos, TokV::Ident("probe"@), k);
            lemma_probe(inp, n, start, name, body);
        },
        DeclV::Acl { name, entries, .. } => {
            let k = readback::word(name) + readback::braced(
                readback::entries_toks(entries, entries.len()),
            );
            terms::lemma_head(inp, at.pos, TokV::Ident("acl"@), k);
            lemma_acl(inp, n, start, name, entries);
        },
        DeclV::Sub { name, body, .. } => {
            let k = readback::word(name) + readback::braced(
                readback::stmts_toks(body, body.len()),
            );
            terms::lemma_head(inp, at.pos, TokV::Ident("sub"@), k);
            lemma_sub(inp, n, start, name, body);
        },
    }
}

proof fn lemma_decls_start(inp: InputV, pos: nat, ds: Seq<DeclV>, i: nat, n: nat)
    requires
        i <= n <= ds.len(),
        holds(inp, pos, readback::decls_toks(ds, n)),
    ensures
        holds(inp, pos, readback::decls_toks(ds, i)),
    decreases n,
{
    if i < n {
        terms::lemma_split(
            inp,
            pos,
            readback::decls_toks(ds, (n - 1) as nat),
            readback::decl_toks(ds[n - 1]),
        );
        lemma_decls_start(inp, pos, ds, i, (n - 1) as nat);
    }
}

proof fn lemma_decls(
    inp: InputV,
    at: PlaceV,
    pos: nat,
    ds: Seq<DeclV>,
    i: nat,
    version: Span,
    prev: Option<Span>,
    done: Seq<DeclV>,
)
    requires
        readback::can_decls(ds),
        i <= ds.len(),
        holds(inp, pos, readback::decls_toks(ds, ds.len())),
        kind_at(inp, pos + readback::decls_toks(ds, ds.len()).len()) is Eof,
        at.pos == pos + readback::decls_toks(ds, i).len(),
        done.len() == i,
        forall|j: int|
            0 <= j < i ==> layout::bare_decl(#[trigger] done[j]) == layout::bare_decl(ds[j]),
    ensures
        match grammar::p_decls(inp, at, version, prev, done) {
            Ok(q) => layout::bare_decls(q.decls) == layout::bare_decls(ds),
            Err(_) => false,
        },
    decreases ds.len() - i,
{
    reveal_with_fuel(grammar::p_decls, 2);
    if i == ds.len() {
        assert(layout::bare_decls(done) =~= layout::bare_decls(ds));
    } else {
        let d = ds[i as int];
        assert(readback::can_decl(d));
        lemma_decls_start(inp, pos, ds, i + 1, ds.len());
        terms::lemma_split(inp, pos, readback::decls_toks(ds, i), readback::decl_toks(d));
        let g = grammar::gap_before(inp, at, prev);
        parsing::lemma_gap_before(inp, at, prev);
        lemma_decl(inp, g, d);
        assert(grammar::tok(inp, g) == grammar::tok(inp, at));
        match grammar::p_top_decl(inp, g) {
            Parse::Read(y, s) => {
                let more = done.push(y);
                assert forall|j: int| 0 <= j < i + 1 implies layout::bare_decl(#[trigger] more[j])
                    == layout::bare_decl(ds[j]) by {
                    if j < i {
                        assert(more[j] == done[j]);
                    }
                }
                lemma_decls(inp, s, pos, ds, i + 1, version, Some(ast::decl_span(y)), more);
            },
            _ => {},
        }
    }
}

proof fn lemma_version(inp: InputV, at: PlaceV, rest: Seq<TokV>)
    requires
        holds(
            inp,
            at.pos,
            seq![TokV::Ident("vcl"@), TokV::Num("4.1"@), TokV::Semi] + rest,
        ),
    ensures
        holds(inp, at.pos + 3, rest),
        grammar::p_vcl_decl(inp, at) matches Parse::Read(_, s) && s.pos == at.pos + 3,
{
    reveal(grammar::p_vcl_decl);
    reveal(grammar::p_version);
    let n = "4.1"@;
    let k = seq![TokV::Semi] + rest;
    assert(seq![TokV::Ident("vcl"@), TokV::Num(n), TokV::Semi] + rest =~= seq![
        TokV::Ident("vcl"@),
    ] + (seq![TokV::Num(n)] + k));
    terms::lemma_head(inp, at.pos, TokV::Ident("vcl"@), seq![TokV::Num(n)] + k);
    terms::lemma_head(inp, at.pos + 1, TokV::Num(n), k);
    terms::lemma_head(inp, at.pos + 2, TokV::Semi, rest);
    reveal_strlit("4.1");
    reveal_strlit("4");
    reveal_strlit("1");
    assert(text::next_char(n, '.', 1) == 1);
    assert(text::next_char(n, '.', 0) == 1);
    assert(n.subrange(0, 1) =~= "4"@);
    assert(n.subrange(2, 3) =~= "1"@);
}

/// A stream of the tokens of a printable program, and an end token behind them,
/// stands for that program.
pub proof fn law_tokens_stand_for_the_program(inp: InputV, p: ProgramV)
    requires
        readback::can_decls(p.decls),
        holds(inp, 0, readback::program_toks(p)),
        kind_at(inp, readback::program_toks(p).len()) is Eof,
    ensures
        match grammar::p_program(inp) {
            Ok(q) => layout::bare_program(q) == layout::bare_program(p),
            Err(_) => false,
        },
{
    reveal(grammar::p_program);
    let at = PlaceV { pos: 0, cidx: 0, out: Map::empty() };
    lemma_version(inp, at, readback::decls_toks(p.decls, p.decls.len()));
    match grammar::p_vcl_decl(inp, at) {
        Parse::Read(version, s) => {
            assert(readback::decls_toks(p.decls, 0) =~= seq![]);
            lemma_decls(inp, s, 3, p.decls, 0, version, None, seq![]);
        },
        _ => {},
    }
}

} // verus!
