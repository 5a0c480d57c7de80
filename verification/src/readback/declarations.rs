//! The declarations of a printable program are read as their tokens.

use crate::ast;
use crate::ast::{AclEntryV, CommentMapV, DeclV, ExprV, FieldV, FieldValueV, ProgramV};
use crate::decimal;
use crate::layout::lexing;
use crate::layout::lexing::{joined, tokens_of};
use crate::lexer::TokV;
use crate::printer;
use crate::printer::BlankRule;
use crate::readback;
use crate::readback::lines;
use crate::readback::lines::{firm, firm_line, quiet, read_lines};
use crate::readback::words;
use crate::text;
use vstd::prelude::*;
use vstd::string::*;

verus! {

// ───────────────────────── fields ─────────────────────────

proof fn lemma_strings(l: Seq<Seq<char>>, n: nat, t: Seq<char>)
    requires
        forall|i: int| 0 <= i < l.len() ==> readback::can_quote(#[trigger] l[i]),
        1 <= n <= l.len(),
        t.len() > 0 ==> t[0] != '"',
    ensures
        tokens_of(
            text::join_first(Seq::new(l.len(), |i: int| printer::string_text(l[i])), " "@, n) + t,
        ) == joined(Ok(readback::strings_toks(l, n)), tokens_of(t)),
    decreases n,
{
    let parts = Seq::new(l.len(), |i: int| printer::string_text(l[i]));
    words::lemma_string(l[n - 1], t);
    let last = printer::string_text(l[n - 1]) + t;
    if n == 1 {
        assert(readback::strings_toks(l, 1) =~= seq![TokV::Str(l[0])]) by {
            assert(readback::strings_toks(l, 0) =~= seq![]);
        }
    } else {
        reveal_strlit(" ");
        let before = text::join_first(parts, " "@, (n - 1) as nat);
        let rest = seq![' '] + last;
        assert(text::join_first(parts, " "@, n) + t =~= before + rest);
        lemma_strings(l, (n - 1) as nat, rest);
        words::lemma_skip(seq![' '], last);
        words::lemma_joined(
            readback::strings_toks(l, (n - 1) as nat),
            seq![TokV::Str(l[n - 1])],
            tokens_of(t),
        );
    }
}

proof fn lemma_ended_lines(ls: Seq<Seq<char>>, n: nat)
    requires
        1 <= n <= ls.len(),
    ensures
        printer::ended_lines(ls, n) == text::join_first(ls, "\n"@, n) + "\n"@,
    decreases n,
{
    if n == 1 {
        assert(printer::ended_lines(ls, 0) =~= seq![]);
        assert(printer::ended_lines(ls, 1) =~= ls[0] + "\n"@);
    } else {
        lemma_ended_lines(ls, (n - 1) as nat);
    }
}

/// Lines that are all ended are read before what stands behind them.
proof fn lemma_ended(ls: Seq<Seq<char>>, t: Seq<char>)
    requires
        read_lines(ls) is Ok,
    ensures
        tokens_of(printer::ended_lines(ls, ls.len()) + t) == joined(read_lines(ls), tokens_of(t)),
{
    if ls.len() == 0 {
        assert(printer::ended_lines(ls, 0) + t =~= t);
        words::lemma_joined_nothing(tokens_of(t));
    } else {
        reveal_strlit("\n");
        assert("\n"@ =~= seq!['\n']);
        lemma_ended_lines(ls, ls.len());
        lexing::law_newlines_separate(text::join(ls, "\n"@), t);
    }
}

/// A single name in parentheses.
proof fn lemma_word_value(e: ExprV, t: Seq<char>)
    requires
        readback::can_expr(e),
        words::stops(t),
    ensures
        tokens_of(("("@ + printer::expr_text(e) + ")"@) + t) == lexing::joined(
            Ok(seq![TokV::LParen] + (readback::expr_toks(e) + seq![TokV::RParen])),
            tokens_of(t),
        ),
{
    reveal_strlit("(");
    reveal_strlit(")");
    let close = seq![')'] + t;
    let inner = printer::expr_text(e) + close;
    let k = readback::expr_toks(e);
    assert(("("@ + printer::expr_text(e) + ")"@) + t =~= seq!['('] + inner);
    words::lemma_expr_first(e);
    assert(inner[0] == printer::expr_text(e)[0]);
    words::lemma_mark('(', inner);
    words::lemma_expr(e, close);
    words::lemma_mark(')', t);
    words::lemma_joined(k, seq![TokV::RParen], tokens_of(t));
    words::lemma_joined(seq![TokV::LParen], k + seq![TokV::RParen], tokens_of(t));
}

/// A value on one line, with its semicolon and something quiet behind it.
proof fn lemma_short_value(v: FieldValueV, cm: CommentMapV, t: Seq<char>)
    requires
        readback::can_value(v),
        !(v is Probe),
        quiet(t),
    ensures
        tokens_of(printer::field_value_text(v, cm) + (";"@ + t)) == Ok::<Seq<TokV>, Seq<char>>(
            readback::value_toks(v),
        ),
{
    reveal_strlit(";");
    let end = seq![';'] + t;
    assert(";"@ + t =~= end);
    lines::lemma_semi(t);
    match v {
        FieldValueV::Expr(e) => if printer::is_word(e) {
            lemma_word_value(e, end);
        } else {
            words::lemma_expr(e, end);
        },
        FieldValueV::ProbeRef(n) => words::lemma_name(n, end),
        FieldValueV::StringList(l) => lemma_strings(l, l.len(), end),
        FieldValueV::Probe(_) => {},
    }
}

/// A probe in place, with something quiet behind it.
proof fn lemma_probe_value(fs: Seq<FieldV>, cm: CommentMapV, t: Seq<char>)
    requires
        readback::can_fields(fs),
        lines::can_comments(cm),
        quiet(t),
    ensures
        tokens_of(printer::field_value_text(FieldValueV::Probe(fs), cm) + t) == Ok::<
            Seq<TokV>,
            Seq<char>,
        >(readback::braced(readback::fields_toks(fs, fs.len()))),
    decreases fs, fs.len() + 1,
{
    reveal_strlit("{\n");
    reveal_strlit("    }");
    let v = FieldValueV::Probe(fs);
    let inner = printer::fields_lines(fs, "        "@, cm, fs.len());
    let margin = seq![' ', ' ', ' ', ' '];
    let close = margin + (seq!['}'] + t);
    let rest = printer::ended_lines(inner, inner.len()) + close;
    let nl = seq!['\n'];
    assert(printer::field_value_text(v, cm) + t =~= seq!['{'] + (nl + rest));
    words::lemma_mark('{', nl + rest);
    words::lemma_skip(nl, rest);
    lines::lemma_margins();
    lemma_fields(fs, "        "@, cm, fs.len());
    lemma_ended(inner, close);
    words::lemma_skip(margin, seq!['}'] + t);
    words::lemma_mark('}', t);
    let k = readback::fields_toks(fs, fs.len());
    assert(seq![TokV::LBrace] + (k + (seq![TokV::RBrace] + Seq::<TokV>::empty()))
        =~= readback::braced(k));
}

proof fn lemma_field(f: FieldV, cm: CommentMapV)
    requires
        readback::can_field(f),
        lines::can_comments(cm),
    ensures
        firm_line(printer::field_text(f, cm), readback::field_toks(f)),
    decreases f, 0nat,
{
    reveal_strlit(".");
    reveal_strlit(" = ");
    reveal_strlit("");
    let l = printer::field_text(f, cm);
    assert forall|t: Seq<char>| quiet(t) implies tokens_of(#[trigger] (l + t)) == Ok::<
        Seq<TokV>,
        Seq<char>,
    >(readback::field_toks(f)) by {
        let v = printer::field_value_text(f.value, cm) + if f.value is Probe {
            t
        } else {
            ";"@ + t
        };
        let x = f.name + (" = "@ + v);
        assert(l + t =~= seq!['.'] + x);
        assert(x[0] == f.name[0]);
        words::lemma_mark('.', x);
        words::lemma_name(f.name, " = "@ + v);
        lines::lemma_equals(v);
        match f.value {
            FieldValueV::Probe(fs) => lemma_probe_value(fs, cm, t),
            _ => lemma_short_value(f.value, cm, t),
        }
    }
}

/// Fields are read as their tokens.
pub(crate) proof fn lemma_fields(fs: Seq<FieldV>, ind: Seq<char>, cm: CommentMapV, n: nat)
    requires
        readback::can_fields(fs),
        lines::is_margin(ind),
        lines::can_comments(cm),
        n <= fs.len(),
    ensures
        read_lines(printer::fields_lines(fs, ind, cm, n)) == Ok::<Seq<TokV>, Seq<char>>(
            readback::fields_toks(fs, n),
        ),
    decreases fs, n,
{
    if n > 0 {
        let f = fs[n - 1];
        assert(readback::can_field(f));
        lemma_fields(fs, ind, cm, (n - 1) as nat);
        lemma_field(f, cm);
        let k = readback::field_toks(f);
        let core = seq![ind + printer::field_text(f, cm)];
        lines::lemma_firm_margin(ind, printer::field_text(f, cm), k);
        lines::lemma_firm_only(ind + printer::field_text(f, cm), k);
        lines::lemma_item(cm, f.span, ind, n == 1, BlankRule::IfLeading, core, k);
        lines::lemma_lines_add(
            printer::fields_lines(fs, ind, cm, (n - 1) as nat),
            printer::item_lines(cm, f.span, ind, n == 1, BlankRule::IfLeading, core),
        );
    }
}

// ───────────────────────── addresses ─────────────────────────

proof fn lemma_masked(addr: Seq<char>, mask: Option<u8>, t: Seq<char>)
    requires
        quiet(t),
        readback::can_quote(addr),
    ensures
        tokens_of(
            match mask {
                Some(m) => printer::string_text(addr) + " / "@ + text::nat_text(m as nat) + ";"@,
                None => printer::string_text(addr) + ";"@,
            } + t,
        ) == Ok::<Seq<TokV>, Seq<char>>(
            seq![TokV::Str(addr)] + ((match mask {
                Some(m) => seq![TokV::Slash, TokV::Num(text::nat_text(m as nat))],
                None => seq![],
            }) + seq![TokV::Semi]),
        ),
{
    reveal_strlit(" / ");
    reveal_strlit(";");
    let end = seq![';'] + t;
    lines::lemma_semi(t);
    let a = printer::string_text(addr);
    match mask {
        Some(m) => {
            let n = text::nat_text(m as nat);
            let sp = seq![' '];
            let x = n + end;
            let rest = sp + (seq!['/'] + (sp + x));
            assert(a + " / "@ + n + ";"@ + t =~= a + rest);
            words::lemma_string(addr, rest);
            words::lemma_skip(sp, seq!['/'] + (sp + x));
            words::lemma_mark('/', sp + x);
            words::lemma_skip(sp, x);
            words::lemma_whole_number(m as nat);
            words::lemma_number(n, end);
            assert(seq![TokV::Slash, TokV::Num(n)] + seq![TokV::Semi] =~= seq![TokV::Slash] + (seq![
                TokV::Num(n),
            ] + seq![TokV::Semi]));
        },
        None => {
            assert(a + ";"@ + t =~= a + end);
            words::lemma_string(addr, end);
            assert(Seq::<TokV>::empty() + seq![TokV::Semi] =~= seq![TokV::Semi]);
        },
    }
}

proof fn lemma_entry(e: AclEntryV)
    requires
        readback::can_quote(e.addr),
    ensures
        firm_line(printer::acl_entry_text(e), readback::entry_toks(e)),
{
    reveal_strlit("!");
    reveal_strlit("");
    let l = printer::acl_entry_text(e);
    let x = match e.mask {
        Some(m) => printer::string_text(e.addr) + " / "@ + text::nat_text(m as nat) + ";"@,
        None => printer::string_text(e.addr) + ";"@,
    };
    assert forall|t: Seq<char>| quiet(t) implies tokens_of(#[trigger] (l + t)) == Ok::<
        Seq<TokV>,
        Seq<char>,
    >(readback::entry_toks(e)) by {
        lemma_masked(e.addr, e.mask, t);
        let k = tokens_of(x + t)->Ok_0;
        if e.negated {
            assert(l + t =~= seq!['!'] + (x + t));
            reveal_strlit("{\"");
            reveal_strlit("\"");
            assert((x + t)[0] == printer::string_text(e.addr)[0]);
            words::lemma_mark('!', x + t);
        } else {
            assert(l + t =~= x + t);
            assert(Seq::<TokV>::empty() + k =~= k);
        }
    }
}

proof fn lemma_entries(es: Seq<AclEntryV>, cm: CommentMapV, n: nat)
    requires
        forall|i: int| 0 <= i < es.len() ==> readback::can_quote((#[trigger] es[i]).addr),
        lines::can_comments(cm),
        n <= es.len(),
    ensures
        read_lines(printer::entries_lines(es, cm, n)) == Ok::<Seq<TokV>, Seq<char>>(
            readback::entries_toks(es, n),
        ),
    decreases n,
{
    if n > 0 {
        let e = es[n - 1];
        lemma_entries(es, cm, (n - 1) as nat);
        lemma_entry(e);
        let ind = "    "@;
        let k = readback::entry_toks(e);
        let core = seq![ind + printer::acl_entry_text(e)];
        lines::lemma_margins();
        lines::lemma_firm_margin(ind, printer::acl_entry_text(e), k);
        lines::lemma_firm_only(ind + printer::acl_entry_text(e), k);
        lines::lemma_item(cm, e.span, ind, n == 1, BlankRule::IfLeading, core, k);
        lines::lemma_lines_add(
            printer::entries_lines(es, cm, (n - 1) as nat),
            printer::item_lines(cm, e.span, ind, n == 1, BlankRule::IfLeading, core),
        );
    }
}

// ───────────────────────── declarations ─────────────────────────

/// The head of a declaration with a body.
proof fn lemma_head(w: Seq<char>, name: Seq<char>)
    requires
        readback::is_name(w),
        readback::is_name(name),
    ensures
        firm_line(
            w + (seq![' '] + (name + (seq![' '] + seq!['{']))),
            readback::word(w) + (readback::word(name) + seq![TokV::LBrace]),
        ),
{
    let l = w + (seq![' '] + (name + (seq![' '] + seq!['{'])));
    let k = readback::word(w) + (readback::word(name) + seq![TokV::LBrace]);
    assert forall|t: Seq<char>| quiet(t) implies tokens_of(#[trigger] (l + t)) == Ok::<
        Seq<TokV>,
        Seq<char>,
    >(k) by {
        let open = seq!['{'] + t;
        assert(l + t =~= w + (seq![' '] + (name + (seq![' '] + open))));
        lines::lemma_word(w, name + (seq![' '] + open));
        lines::lemma_word(name, open);
        words::lemma_mark('{', t);
        assert(seq![TokV::LBrace] + Seq::<TokV>::empty() =~= seq![TokV::LBrace]);
    }
}

/// A declaration with a body is read as its head, the body and a brace.
proof fn lemma_block(
    head: Seq<char>,
    w: Seq<char>,
    name: Seq<char>,
    body: Seq<Seq<char>>,
    k: Seq<TokV>,
)
    requires
        readback::is_name(w),
        readback::is_name(name),
        head == w + (seq![' '] + (name + (seq![' '] + seq!['{']))),
        read_lines(body) == Ok::<Seq<TokV>, Seq<char>>(k),
    ensures
        firm(
            seq![head] + body + seq!["}"@],
            readback::word(w) + (readback::word(name) + readback::braced(k)),
        ),
{
    lemma_head(w, name);
    lines::lemma_arm_close(false, false);
    lines::lemma_line("}"@);
    let close = seq!["}"@];
    lines::lemma_lines_add(body, close);
    let h = readback::word(w) + (readback::word(name) + seq![TokV::LBrace]);
    lines::lemma_firm_first(head, h, body + close, k + seq![TokV::RBrace]);
    assert(seq![head] + (body + close) =~= seq![head] + body + close);
    assert(h + (k + seq![TokV::RBrace]) =~= readback::word(w) + (readback::word(name)
        + readback::braced(k)));
}

/// The line of an import.
spec fn import_line(name: Seq<char>, from: Option<Seq<char>>) -> Seq<char> {
    match from {
        Some(f) => "import "@ + name + " from "@ + printer::string_text(f) + ";"@,
        None => "import "@ + name + ";"@,
    }
}

/// The tokens of an import.
spec fn import_toks(name: Seq<char>, from: Option<Seq<char>>) -> Seq<TokV> {
    readback::word("import"@) + (readback::word(name) + (match from {
        Some(f) => readback::word("from"@) + (seq![TokV::Str(f)] + seq![TokV::Semi]),
        None => seq![TokV::Semi],
    }))
}

proof fn lemma_import(name: Seq<char>, from: Option<Seq<char>>)
    requires
        readback::is_name(name),
        match from {
            Some(f) => readback::can_quote(f),
            None => true,
        },
    ensures
        firm_line(import_line(name, from), import_toks(name, from)),
{
    let l = import_line(name, from);
    assert forall|t: Seq<char>| quiet(t) implies tokens_of(#[trigger] (l + t)) == Ok::<
        Seq<TokV>,
        Seq<char>,
    >(import_toks(name, from)) by {
        lemma_import_line(name, from, t);
    }
}

proof fn lemma_import_line(name: Seq<char>, from: Option<Seq<char>>, t: Seq<char>)
    requires
        readback::is_name(name),
        match from {
            Some(f) => readback::can_quote(f),
            None => true,
        },
        quiet(t),
    ensures
        tokens_of(import_line(name, from) + t) == Ok::<Seq<TokV>, Seq<char>>(
            import_toks(name, from),
        ),
{
    reveal_strlit("import ");
    reveal_strlit("import");
    reveal_strlit(" from ");
    reveal_strlit("from");
    reveal_strlit(";");
    let end = seq![';'] + t;
    let sp = seq![' '];
    lines::lemma_is_import();
    lines::lemma_is_from();
    lines::lemma_semi(t);
    match from {
        Some(f) => {
            let x = printer::string_text(f) + end;
            let y = "from"@ + (sp + x);
            assert(import_line(name, from) + t =~= "import"@ + (sp + (name + (sp + y))));
            lines::lemma_word("import"@, name + (sp + y));
            lines::lemma_word(name, y);
            lines::lemma_word("from"@, x);
            words::lemma_string(f, end);
        },
        None => {
            assert(import_line(name, from) + t =~= "import"@ + (sp + (name + end)));
            lines::lemma_word("import"@, name + end);
            words::lemma_name(name, end);
        },
    }
}

proof fn lemma_backend_none(name: Seq<char>)
    requires
        readback::is_name(name),
    ensures
        firm_line(
            "backend "@ + name + " none;"@,
            readback::word("backend"@) + (readback::word(name) + (readback::word("none"@) + seq![
                TokV::Semi,
            ])),
        ),
{
    reveal_strlit("backend ");
    reveal_strlit("backend");
    reveal_strlit(" none;");
    reveal_strlit("none");
    let l = "backend "@ + name + " none;"@;
    let k = readback::word("backend"@) + (readback::word(name) + (readback::word("none"@) + seq![
        TokV::Semi,
    ]));
    assert forall|t: Seq<char>| quiet(t) implies tokens_of(#[trigger] (l + t)) == Ok::<
        Seq<TokV>,
        Seq<char>,
    >(k) by {
        let end = seq![';'] + t;
        let sp = seq![' '];
        let x = "none"@ + end;
        assert(l + t =~= "backend"@ + (sp + (name + (sp + x))));
        lines::lemma_is_backend();
        lines::lemma_is_none();
        lines::lemma_word("backend"@, name + (sp + x));
        lines::lemma_word(name, x);
        words::lemma_name("none"@, end);
        lines::lemma_semi(t);
    }
}

/// A declaration is read as its tokens.
proof fn lemma_decl(d: DeclV, cm: CommentMapV)
    requires
        readback::can_decl(d),
        lines::can_comments(cm),
    ensures
        firm(printer::decl_lines(d, cm), readback::decl_toks(d)),
{
    reveal_strlit(" {");
    let open = seq![' '] + seq!['{'];
    assert(" {"@ =~= open);
    let ind = "    "@;
    lines::lemma_margins();
    match d {
        DeclV::Import { name, from, .. } => {
            lemma_import(name, from);
            lines::lemma_firm_only(import_line(name, from), import_toks(name, from));
        },
        DeclV::Backend { name, none, body, .. } => match body {
            Some(fs) => {
                reveal_strlit("backend ");
                reveal_strlit("backend");
                let head = "backend "@ + name + " {"@;
                assert(head =~= "backend"@ + (seq![' '] + (name + open)));
                lines::lemma_is_backend();
                lemma_fields(fs, ind, cm, fs.len());
                lemma_block(
                    head,
                    "backend"@,
                    name,
                    printer::fields_lines(fs, ind, cm, fs.len()),
                    readback::fields_toks(fs, fs.len()),
                );
            },
            None => {
                lemma_backend_none(name);
                lines::lemma_firm_only("backend "@ + name + " none;"@, readback::decl_toks(d));
            },
        },
        DeclV::Probe { name, body, .. } => {
            reveal_strlit("probe ");
            reveal_strlit("probe");
            let head = "probe "@ + name + " {"@;
            assert(head =~= "probe"@ + (seq![' '] + (name + open)));
            lines::lemma_is_probe();
            lemma_fields(body, ind, cm, body.len());
            lemma_block(
                head,
                "probe"@,
                name,
                printer::fields_lines(body, ind, cm, body.len()),
                readback::fields_toks(body, body.len()),
            );
        },
        DeclV::Acl { name, entries, .. } => {
            reveal_strlit("acl ");
            reveal_strlit("acl");
            let head = "acl "@ + name + " {"@;
            assert(head =~= "acl"@ + (seq![' '] + (name + open)));
            lines::lemma_is_acl();
            lemma_entries(entries, cm, entries.len());
            lemma_block(
                head,
                "acl"@,
                name,
                printer::entries_lines(entries, cm, entries.len()),
                readback::entries_toks(entries, entries.len()),
            );
        },
        DeclV::Sub { name, body, .. } => {
            reveal_strlit("sub ");
            reveal_strlit("sub");
            let head = "sub "@ + name + " {"@;
            assert(head =~= "sub"@ + (seq![' '] + (name + open)));
            lines::lemma_is_sub();
            lines::lemma_stmts(body, ind, cm, body.len());
            lemma_block(
                head,
                "sub"@,
                name,
                printer::stmts_lines(body, ind, cm, body.len()),
                readback::stmts_toks(body, body.len()),
            );
        },
    }
}

proof fn lemma_decls(ds: Seq<DeclV>, cm: CommentMapV, n: nat)
    requires
        readback::can_decls(ds),
        lines::can_comments(cm),
        n <= ds.len(),
    ensures
        read_lines(printer::decls_lines(ds, cm, n)) == Ok::<Seq<TokV>, Seq<char>>(
            readback::decls_toks(ds, n),
        ),
    decreases n,
{
    if n > 0 {
        let d = ds[n - 1];
        assert(readback::can_decl(d));
        lemma_decls(ds, cm, (n - 1) as nat);
        lemma_decl(d, cm);
        let core = printer::decl_lines(d, cm);
        let k = readback::decl_toks(d);
        lines::lemma_item(cm, ast::decl_span(d), seq![], n == 1, BlankRule::Always, core, k);
        lines::lemma_lines_add(
            printer::decls_lines(ds, cm, (n - 1) as nat),
            printer::item_lines(cm, ast::decl_span(d), seq![], n == 1, BlankRule::Always, core),
        );
    }
}

proof fn lemma_version_line()
    ensures
        tokens_of("vcl 4.1;"@) == Ok::<Seq<TokV>, Seq<char>>(
            seq![TokV::Ident("vcl"@), TokV::Num("4.1"@), TokV::Semi],
        ),
{
    reveal_strlit("vcl 4.1;");
    reveal_strlit("vcl");
    reveal_strlit("4.1");
    let n = "4.1"@;
    let none = Seq::<char>::empty();
    let end = seq![';'] + none;
    lines::lemma_nothing_is_quiet();
    assert("vcl 4.1;"@ =~= "vcl"@ + (seq![' '] + (n + end)));
    lines::lemma_is_vcl();
    lines::lemma_word("vcl"@, n + end);
    lemma_version_number();
    words::lemma_number(n, end);
    lines::lemma_semi(none);
    assert(readback::word("vcl"@) + (seq![TokV::Num(n)] + seq![TokV::Semi]) =~= seq![
        TokV::Ident("vcl"@),
        TokV::Num(n),
        TokV::Semi,
    ]);
}

proof fn lemma_version_number()
    ensures
        decimal::decimal_value("4.1"@) is Some,
        text::next_char("4.1"@, '.', 0) == 1,
{
    reveal_strlit("4.1");
    let n = "4.1"@;
    assert(n[0] == '4' && n[1] == '.' && n[2] == '1');
    assert(text::next_char(n, '.', 1) == 1);
    assert(text::next_char(n, '.', 0) == 1);
    let whole = n.subrange(0, 1);
    let frac = n.subrange(2, 3);
    assert(whole[0] == '4' && frac[0] == '1');
    assert(decimal::all_digits(whole));
    assert(decimal::all_digits(frac));
}

/// The text of a printable program is read as the tokens of the program.
pub proof fn law_text_has_the_tokens_of_the_program(p: ProgramV)
    requires
        readback::can_decls(p.decls),
        lines::can_comments(p.comments),
        lines::can_block(p.trailing_comments),
    ensures
        tokens_of(printer::program_text(p)) == Ok::<Seq<TokV>, Seq<char>>(
            readback::program_toks(p),
        ),
{
    lemma_version_line();
    lines::lemma_line("vcl 4.1;"@);
    lemma_decls(p.decls, p.comments, p.decls.len());
    let head = seq!["vcl 4.1;"@];
    let body = printer::decls_lines(p.decls, p.comments, p.decls.len());
    lines::lemma_lines_add(head, body);
    lines::lemma_blank_block(p.trailing_comments, seq![]);
    let tail = if p.trailing_comments.len() > 0 {
        seq![Seq::<char>::empty()] + printer::block_lines(
            p.trailing_comments,
            seq![],
            p.trailing_comments.len(),
        )
    } else {
        seq![]
    };
    lines::lemma_lines_add(head + body, tail);
    let k = readback::program_toks(p);
    assert(k + Seq::<TokV>::empty() =~= k);
}

} // verus!
