//! The lines of a printable program are read as the tokens of the program.

use crate::ast;
use crate::ast::{
    ArgV, ArmV, CommentMapV, CommentV, ExprV, NodeCommentsV, ReturnActionV, Span, StmtV,
};
use crate::layout::lexing;
use crate::layout::lexing::{joined, tokens_of};
use crate::lexer::TokV;
use crate::printer;
use crate::printer::BlankRule;
use crate::readback;
use crate::readback::words;
use crate::text;
use vstd::prelude::*;
use vstd::string::*;

verus! {

// ───────────────────────── words ─────────────────────────

proof fn lemma_is_set()
    ensures
        readback::is_name("set"@),
{
    reveal_strlit("set");
}

proof fn lemma_is_unset()
    ensures
        readback::is_name("unset"@),
{
    reveal_strlit("unset");
}

proof fn lemma_is_call()
    ensures
        readback::is_name("call"@),
{
    reveal_strlit("call");
}

proof fn lemma_is_return()
    ensures
        readback::is_name("return"@),
{
    reveal_strlit("return");
}

proof fn lemma_is_synthetic()
    ensures
        readback::is_name("synthetic"@),
{
    reveal_strlit("synthetic");
}

proof fn lemma_is_new()
    ensures
        readback::is_name("new"@),
{
    reveal_strlit("new");
}

proof fn lemma_is_if()
    ensures
        readback::is_name("if"@),
{
    reveal_strlit("if");
}

proof fn lemma_is_else()
    ensures
        readback::is_name("else"@),
{
    reveal_strlit("else");
}

pub(crate) proof fn lemma_is_import()
    ensures
        readback::is_name("import"@),
{
    reveal_strlit("import");
}

pub(crate) proof fn lemma_is_from()
    ensures
        readback::is_name("from"@),
{
    reveal_strlit("from");
}

pub(crate) proof fn lemma_is_backend()
    ensures
        readback::is_name("backend"@),
{
    reveal_strlit("backend");
}

pub(crate) proof fn lemma_is_none()
    ensures
        readback::is_name("none"@),
{
    reveal_strlit("none");
}

pub(crate) proof fn lemma_is_probe()
    ensures
        readback::is_name("probe"@),
{
    reveal_strlit("probe");
}

pub(crate) proof fn lemma_is_acl()
    ensures
        readback::is_name("acl"@),
{
    reveal_strlit("acl");
}

pub(crate) proof fn lemma_is_sub()
    ensures
        readback::is_name("sub"@),
{
    reveal_strlit("sub");
}

pub(crate) proof fn lemma_is_vcl()
    ensures
        readback::is_name("vcl"@),
{
    reveal_strlit("vcl");
}

/// A word and a space behind it are read as the word.
pub(crate) proof fn lemma_word(w: Seq<char>, t: Seq<char>)
    requires
        readback::is_name(w),
    ensures
        tokens_of(w + (seq![' '] + t)) == joined(Ok(readback::word(w)), tokens_of(t)),
{
    words::lemma_name(w, seq![' '] + t);
    words::lemma_skip(seq![' '], t);
}

// ───────────────────────── lines ─────────────────────────

/// The tokens of lines, or what is wrong with them.
pub open spec fn read_lines(lines: Seq<Seq<char>>) -> core::result::Result<Seq<TokV>, Seq<char>> {
    if lines.len() == 0 {
        Ok(seq![])
    } else {
        tokens_of(text::join(lines, "\n"@))
    }
}

pub(crate) proof fn lemma_join_add(a: Seq<Seq<char>>, b: Seq<Seq<char>>, n: nat)
    requires
        a.len() > 0,
        1 <= n <= b.len(),
    ensures
        text::join_first(a + b, "\n"@, a.len() + n) == text::join(a, "\n"@) + "\n"@
            + text::join_first(b, "\n"@, n),
    decreases n,
{
    let t = a + b;
    assert(t[a.len() + n - 1] == b[n - 1]);
    if n == 1 {
        lemma_join_same(t, a, a.len());
        assert(text::join_first(t, "\n"@, a.len() + 1) == text::join_first(t, "\n"@, a.len())
            + "\n"@ + b[0]);
    } else {
        lemma_join_add(a, b, (n - 1) as nat);
        let x = text::join(a, "\n"@) + "\n"@;
        let y = text::join_first(b, "\n"@, (n - 1) as nat);
        assert(a.len() + n - 1 == a.len() + (n - 1) as nat);
        assert((x + y) + "\n"@ + b[n - 1] =~= x + (y + "\n"@ + b[n - 1]));
    }
}

pub(crate) proof fn lemma_join_same(a: Seq<Seq<char>>, b: Seq<Seq<char>>, n: nat)
    requires
        n <= a.len(),
        n <= b.len(),
        forall|i: int| 0 <= i < n ==> #[trigger] a[i] == b[i],
    ensures
        text::join_first(a, "\n"@, n) == text::join_first(b, "\n"@, n),
    decreases n,
{
    if n > 1 {
        lemma_join_same(a, b, (n - 1) as nat);
    }
}

/// Lines behind other lines are read behind them.
pub(crate) proof fn lemma_lines_add(a: Seq<Seq<char>>, b: Seq<Seq<char>>)
    requires
        read_lines(a) is Ok,
    ensures
        read_lines(a + b) == joined(read_lines(a), read_lines(b)),
{
    if a.len() == 0 {
        assert(a + b =~= b);
        words::lemma_joined_nothing(read_lines(b));
    } else if b.len() == 0 {
        assert(a + b =~= a);
        assert(read_lines(a)->Ok_0 + Seq::<TokV>::empty() =~= read_lines(a)->Ok_0);
    } else {
        reveal_strlit("\n");
        let nl = seq!['\n'];
        assert("\n"@ =~= nl);
        lemma_join_add(a, b, b.len());
        lexing::law_newlines_separate(text::join(a, "\n"@), text::join(b, "\n"@));
    }
}

pub(crate) proof fn lemma_line(l: Seq<char>)
    ensures
        read_lines(seq![l]) == tokens_of(l),
{
    assert(text::join(seq![l], "\n"@) == seq![l][0]);
}

/// Whether a text is made of spaces.
pub open spec fn is_margin(ind: Seq<char>) -> bool {
    forall|i: int| 0 <= i < ind.len() ==> #[trigger] ind[i] == ' '
}

pub(crate) proof fn lemma_margins()
    ensures
        is_margin("    "@),
        is_margin("        "@),
{
    reveal_strlit("    ");
    reveal_strlit("        ");
}

proof fn lemma_deeper(ind: Seq<char>)
    requires
        is_margin(ind),
    ensures
        is_margin(printer::deeper(ind)),
{
    lemma_margins();
    let d = printer::deeper(ind);
    assert forall|i: int| 0 <= i < d.len() implies #[trigger] d[i] == ' ' by {
        if i < ind.len() {
            assert(d[i] == ind[i]);
        } else {
            assert(d[i] == "    "@[i - ind.len()]);
        }
    }
}

// ───────────────────────── comments ─────────────────────────

/// Whether a text can stand behind a line without being read.
pub open spec fn quiet(t: Seq<char>) -> bool {
    &&& t.len() == 0 || t[0] == ' '
    &&& tokens_of(t) == Ok::<Seq<TokV>, Seq<char>>(seq![])
}

/// Whether the lines of a comment are not read, whatever their margin.
pub open spec fn can_comment(c: CommentV) -> bool {
    forall|ind: Seq<char>|
        is_margin(ind) ==> read_lines(#[trigger] printer::comment_lines(c, ind)) == Ok::<
            Seq<TokV>,
            Seq<char>,
        >(seq![])
}

/// Whether comments are not read where they are printed.
pub open spec fn can_block(cs: Seq<CommentV>) -> bool {
    forall|i: int| 0 <= i < cs.len() ==> can_comment(#[trigger] cs[i])
}

/// Whether the comments of a node are not read where they are printed.
pub open spec fn can_node(n: NodeCommentsV) -> bool {
    &&& can_block(n.leading)
    &&& can_block(n.after)
    &&& match n.trailing {
        Some(t) => tokens_of(printer::one_line(t)) == Ok::<Seq<TokV>, Seq<char>>(seq![]),
        None => true,
    }
}

/// Whether all comments of a program are not read where they are printed.
pub open spec fn can_comments(cm: CommentMapV) -> bool {
    forall|span: Span| can_node(#[trigger] ast::comments_at(cm, span))
}

/// Whether lines are read as the tokens, also with something quiet behind the
/// first one.
pub open spec fn firm(lines: Seq<Seq<char>>, k: Seq<TokV>) -> bool {
    &&& lines.len() > 0
    &&& forall|t: Seq<char>|
        quiet(t) ==> read_lines(#[trigger] lines.update(0, lines[0] + t)) == Ok::<
            Seq<TokV>,
            Seq<char>,
        >(k)
}

/// Whether a line is read as the tokens, also with something quiet behind it.
pub open spec fn firm_line(l: Seq<char>, k: Seq<TokV>) -> bool {
    forall|t: Seq<char>|
        quiet(t) ==> tokens_of(#[trigger] (l + t)) == Ok::<Seq<TokV>, Seq<char>>(k)
}

pub(crate) proof fn lemma_nothing_is_quiet()
    ensures
        quiet(Seq::empty()),
{
    lemma_blank();
}

/// Lines that are firm are read.
pub(crate) proof fn lemma_firm(lines: Seq<Seq<char>>, k: Seq<TokV>)
    requires
        firm(lines, k),
    ensures
        read_lines(lines) == Ok::<Seq<TokV>, Seq<char>>(k),
{
    let none = Seq::<char>::empty();
    lemma_nothing_is_quiet();
    assert(lines[0] + none =~= lines[0]);
    assert(lines.update(0, lines[0] + none) =~= lines);
}

/// A firm line and other lines behind it are firm.
pub(crate) proof fn lemma_firm_first(
    l: Seq<char>,
    k: Seq<TokV>,
    rest: Seq<Seq<char>>,
    more: Seq<TokV>,
)
    requires
        firm_line(l, k),
        read_lines(rest) == Ok::<Seq<TokV>, Seq<char>>(more),
    ensures
        firm(seq![l] + rest, k + more),
{
    let all = seq![l] + rest;
    assert forall|t: Seq<char>| quiet(t) implies read_lines(
        #[trigger] all.update(0, all[0] + t),
    ) == Ok::<Seq<TokV>, Seq<char>>(k + more) by {
        let first = seq![l + t];
        assert(tokens_of(l + t) == Ok::<Seq<TokV>, Seq<char>>(k));
        assert(all.update(0, all[0] + t) =~= first + rest);
        lemma_line(l + t);
        lemma_lines_add(first, rest);
    }
}

/// Firm lines and other lines behind them are firm.
proof fn lemma_firm_add(
    lines: Seq<Seq<char>>,
    k: Seq<TokV>,
    rest: Seq<Seq<char>>,
    more: Seq<TokV>,
)
    requires
        firm(lines, k),
        read_lines(rest) == Ok::<Seq<TokV>, Seq<char>>(more),
    ensures
        firm(lines + rest, k + more),
{
    let all = lines + rest;
    assert forall|t: Seq<char>| quiet(t) implies read_lines(
        #[trigger] all.update(0, all[0] + t),
    ) == Ok::<Seq<TokV>, Seq<char>>(k + more) by {
        let first = lines.update(0, lines[0] + t);
        assert(read_lines(first) == Ok::<Seq<TokV>, Seq<char>>(k));
        assert(all.update(0, all[0] + t) =~= first + rest);
        lemma_lines_add(first, rest);
    }
}

/// A firm line by itself is firm.
pub(crate) proof fn lemma_firm_only(l: Seq<char>, k: Seq<TokV>)
    requires
        firm_line(l, k),
    ensures
        firm(seq![l], k),
{
    let none = Seq::<Seq<char>>::empty();
    lemma_firm_first(l, k, none, seq![]);
    assert(seq![l] + none =~= seq![l]);
    assert(k + Seq::<TokV>::empty() =~= k);
}

/// A margin does not matter to a firm line.
pub(crate) proof fn lemma_firm_margin(ind: Seq<char>, l: Seq<char>, k: Seq<TokV>)
    requires
        is_margin(ind),
        firm_line(l, k),
    ensures
        firm_line(ind + l, k),
{
    assert forall|t: Seq<char>| quiet(t) implies tokens_of(#[trigger] ((ind + l) + t)) == Ok::<
        Seq<TokV>,
        Seq<char>,
    >(k) by {
        assert((ind + l) + t =~= ind + (l + t));
        assert(tokens_of(l + t) == Ok::<Seq<TokV>, Seq<char>>(k));
        words::lemma_skip(ind, l + t);
    }
}

proof fn lemma_block_lines(cs: Seq<CommentV>, ind: Seq<char>, n: nat)
    requires
        can_block(cs),
        is_margin(ind),
        n <= cs.len(),
    ensures
        read_lines(printer::block_lines(cs, ind, n)) == Ok::<Seq<TokV>, Seq<char>>(seq![]),
    decreases n,
{
    if n > 0 {
        lemma_block_lines(cs, ind, (n - 1) as nat);
        assert(can_comment(cs[n - 1]));
        lemma_lines_add(
            printer::block_lines(cs, ind, (n - 1) as nat),
            printer::comment_lines(cs[n - 1], ind),
        );
        assert(Seq::<TokV>::empty() + Seq::<TokV>::empty() =~= Seq::<TokV>::empty());
    }
}

/// A blank line and comments are not read.
pub(crate) proof fn lemma_blank_block(cs: Seq<CommentV>, ind: Seq<char>)
    requires
        can_block(cs),
        is_margin(ind),
    ensures
        read_lines(
            seq![Seq::<char>::empty()] + printer::block_lines(cs, ind, cs.len()),
        ) == Ok::<Seq<TokV>, Seq<char>>(seq![]),
        read_lines(seq![Seq::<char>::empty()]) == Ok::<Seq<TokV>, Seq<char>>(seq![]),
{
    lemma_line(Seq::empty());
    lemma_blank();
    lemma_block_lines(cs, ind, cs.len());
    lemma_lines_add(
        seq![Seq::<char>::empty()],
        printer::block_lines(cs, ind, cs.len()),
    );
    assert(Seq::<TokV>::empty() + Seq::<TokV>::empty() =~= Seq::<TokV>::empty());
}

/// The lines of an item with its trailing comment are read as the item.
proof fn lemma_trailing(core: Seq<Seq<char>>, trailing: Option<Seq<char>>, k: Seq<TokV>)
    requires
        firm(core, k),
        match trailing {
            Some(t) => tokens_of(printer::one_line(t)) == Ok::<Seq<TokV>, Seq<char>>(seq![]),
            None => true,
        },
    ensures
        read_lines(printer::with_trailing(core, trailing)) == Ok::<Seq<TokV>, Seq<char>>(k),
{
    match trailing {
        Some(t) => {
            reveal_strlit("  ");
            let x = "  "@ + printer::one_line(t);
            words::lemma_skip("  "@, printer::one_line(t));
            assert(x[0] == ' ');
            assert(quiet(x));
            assert(core[0] + "  "@ + printer::one_line(t) =~= core[0] + x);
        },
        None => lemma_firm(core, k),
    }
}

/// An item with its comments is read as the item.
pub(crate) proof fn lemma_item(
    cm: CommentMapV,
    span: Span,
    ind: Seq<char>,
    first: bool,
    rule: BlankRule,
    core: Seq<Seq<char>>,
    k: Seq<TokV>,
)
    requires
        can_comments(cm),
        is_margin(ind),
        firm(core, k),
    ensures
        read_lines(printer::item_lines(cm, span, ind, first, rule, core)) == Ok::<
            Seq<TokV>,
            Seq<char>,
        >(k),
{
    let c = ast::comments_at(cm, span);
    assert(can_node(c));
    let gap = !first && match rule {
        BlankRule::Always => true,
        BlankRule::IfLeading => c.leading.len() > 0,
        BlankRule::Never => false,
    };
    let head = if gap {
        seq![Seq::<char>::empty()]
    } else {
        seq![]
    };
    let tail = if c.after.len() > 0 {
        seq![Seq::<char>::empty()] + printer::block_lines(c.after, ind, c.after.len())
    } else {
        seq![]
    };
    let lead = printer::block_lines(c.leading, ind, c.leading.len());
    let mid = printer::with_trailing(core, c.trailing);
    let none = Seq::<TokV>::empty();
    lemma_blank_block(c.after, ind);
    lemma_block_lines(c.leading, ind, c.leading.len());
    lemma_trailing(core, c.trailing, k);
    lemma_lines_add(head, lead);
    lemma_lines_add(head + lead, mid);
    lemma_lines_add(head + lead + mid, tail);
    assert(none + none =~= none);
    assert(none + k =~= k);
    assert(k + none =~= k);
}

pub(crate) proof fn lemma_blank()
    ensures
        tokens_of(Seq::<char>::empty()) == Ok::<Seq<TokV>, Seq<char>>(seq![]),
{
    reveal(lexing::tokens_of);
}

// ───────────────────────── statements ─────────────────────────

pub(crate) proof fn lemma_semi(t: Seq<char>)
    requires
        quiet(t),
    ensures
        tokens_of(seq![';'] + t) == Ok::<Seq<TokV>, Seq<char>>(seq![TokV::Semi]),
{
    words::lemma_mark(';', t);
    assert(seq![TokV::Semi] + Seq::<TokV>::empty() =~= seq![TokV::Semi]);
}

pub(crate) proof fn lemma_equals(t: Seq<char>)
    ensures
        tokens_of(" = "@ + t) == joined(Ok(seq![TokV::Eq]), tokens_of(t)),
{
    reveal_strlit(" = ");
    let sp = seq![' '];
    assert(" = "@ + t =~= sp + (seq!['='] + (sp + t)));
    words::lemma_skip(sp, seq!['='] + (sp + t));
    words::lemma_mark('=', sp + t);
    words::lemma_skip(sp, t);
}

proof fn lemma_assign(lhs: Seq<Seq<char>>, rhs: ExprV, t: Seq<char>)
    requires
        quiet(t),
        readback::is_dotted(lhs),
        readback::can_expr(rhs),
    ensures
        tokens_of(
            "set "@ + text::join(lhs, "."@) + " = "@ + printer::expr_text(rhs) + ";"@ + t,
        ) == Ok::<Seq<TokV>, Seq<char>>(
            readback::word("set"@) + (readback::dotted_toks(lhs, lhs.len()) + (seq![TokV::Eq] + (
            readback::expr_toks(rhs) + seq![TokV::Semi]))),
        ),
{
    reveal_strlit("set ");
    reveal_strlit("set");
    reveal_strlit(" = ");
    reveal_strlit(";");
    let end = seq![';'] + t;
    let e = printer::expr_text(rhs) + end;
    let x = " = "@ + e;
    let d = text::join(lhs, "."@) + x;
    assert("set "@ + text::join(lhs, "."@) + " = "@ + printer::expr_text(rhs) + ";"@ + t
        =~= "set"@ + (seq![' '] + d));
    lemma_is_set();
    lemma_word("set"@, d);
    words::lemma_dotted(lhs, lhs.len(), x);
    lemma_equals(e);
    words::lemma_expr(rhs, end);
    lemma_semi(t);
}

proof fn lemma_unset(lhs: Seq<Seq<char>>, t: Seq<char>)
    requires
        quiet(t),
        readback::is_dotted(lhs),
    ensures
        tokens_of("unset "@ + text::join(lhs, "."@) + ";"@ + t) == Ok::<Seq<TokV>, Seq<char>>(
            readback::word("unset"@) + (readback::dotted_toks(lhs, lhs.len()) + seq![TokV::Semi]),
        ),
{
    reveal_strlit("unset ");
    reveal_strlit("unset");
    reveal_strlit(";");
    let end = seq![';'] + t;
    let d = text::join(lhs, "."@) + end;
    assert("unset "@ + text::join(lhs, "."@) + ";"@ + t =~= "unset"@ + (seq![' '] + d));
    lemma_is_unset();
    lemma_word("unset"@, d);
    words::lemma_dotted(lhs, lhs.len(), end);
    lemma_semi(t);
}

proof fn lemma_call(sub: Seq<char>, t: Seq<char>)
    requires
        quiet(t),
        readback::is_name(sub),
    ensures
        tokens_of("call "@ + sub + ";"@ + t) == Ok::<Seq<TokV>, Seq<char>>(
            readback::word("call"@) + (readback::word(sub) + seq![TokV::Semi]),
        ),
{
    reveal_strlit("call ");
    reveal_strlit("call");
    reveal_strlit(";");
    let end = seq![';'] + t;
    assert("call "@ + sub + ";"@ + t =~= "call"@ + (seq![' '] + (sub + end)));
    lemma_is_call();
    lemma_word("call"@, sub + end);
    words::lemma_name(sub, end);
    lemma_semi(t);
}

proof fn lemma_exprs(es: Seq<ExprV>, n: nat, t: Seq<char>)
    requires
        readback::can_exprs(es),
        1 <= n <= es.len(),
        words::stops(t),
    ensures
        tokens_of(text::join_first(printer::expr_texts(es), ", "@, n) + t) == joined(
            Ok(readback::exprs_toks(es, n)),
            tokens_of(t),
        ),
    decreases n,
{
    let parts = printer::expr_texts(es);
    let e = es[n - 1];
    assert(readback::can_expr(e));
    words::lemma_expr(e, t);
    assert(parts[n - 1] == printer::expr_text(e));
    if n > 1 {
        reveal_strlit(", ");
        let before = text::join_first(parts, ", "@, (n - 1) as nat);
        let last = printer::expr_text(e) + t;
        let rest = seq![','] + (seq![' '] + last);
        assert(text::join_first(parts, ", "@, n) + t =~= before + rest);
        lemma_exprs(es, (n - 1) as nat, rest);
        words::lemma_mark(',', seq![' '] + last);
        words::lemma_skip(seq![' '], last);
        words::lemma_joined(seq![TokV::Comma], readback::expr_toks(e), tokens_of(t));
        words::lemma_joined(
            readback::exprs_toks(es, (n - 1) as nat),
            seq![TokV::Comma] + readback::expr_toks(e),
            tokens_of(t),
        );
    }
}

proof fn lemma_exprs_first(es: Seq<ExprV>, n: nat)
    requires
        readback::can_exprs(es),
        1 <= n <= es.len(),
    ensures
        text::join_first(printer::expr_texts(es), ", "@, n).len() > 0,
        words::plain(text::join_first(printer::expr_texts(es), ", "@, n)[0]),
    decreases n,
{
    assert(readback::can_expr(es[0]));
    words::lemma_expr_first(es[0]);
    if n > 1 {
        lemma_exprs_first(es, (n - 1) as nat);
    }
}

proof fn lemma_return_plain(a: ReturnActionV, t: Seq<char>)
    requires
        quiet(t),
        readback::is_name(a.name),
        a.args.len() == 0,
    ensures
        tokens_of(printer::return_text(Some(a)) + ";"@ + t) == Ok::<Seq<TokV>, Seq<char>>(
            readback::word("return"@) + (readback::action_toks(Some(a)) + seq![TokV::Semi]),
        ),
{
    reveal_strlit("return");
    reveal_strlit("return (");
    reveal_strlit(")");
    reveal_strlit(";");
    let end = seq![';'] + t;
    let close = seq![')'] + end;
    let x = a.name + close;
    lemma_is_return();
    lemma_semi(t);
    words::lemma_mark(')', end);
    assert(printer::return_text(Some(a)) + ";"@ + t =~= "return"@ + (seq![' '] + (seq!['('] + x)));
    lemma_word("return"@, seq!['('] + x);
    assert(x[0] == a.name[0]);
    words::lemma_mark('(', x);
    words::lemma_name(a.name, close);
    assert(readback::action_toks(Some(a)) + seq![TokV::Semi] =~= seq![TokV::LParen] + (
    readback::word(a.name) + (seq![TokV::RParen] + seq![TokV::Semi])));
}

proof fn lemma_return_args(a: ReturnActionV, t: Seq<char>)
    requires
        quiet(t),
        readback::is_name(a.name),
        readback::can_exprs(a.args),
        a.args.len() > 0,
    ensures
        tokens_of(printer::return_text(Some(a)) + ";"@ + t) == Ok::<Seq<TokV>, Seq<char>>(
            readback::word("return"@) + (readback::action_toks(Some(a)) + seq![TokV::Semi]),
        ),
{
    reveal_strlit("return");
    reveal_strlit("return (");
    reveal_strlit(" (");
    reveal_strlit("))");
    reveal_strlit(";");
    let end = seq![';'] + t;
    let close = seq![')'] + end;
    let list = text::join(printer::expr_texts(a.args), ", "@);
    let closes = seq![')'] + close;
    let inner = list + closes;
    let x = a.name + (seq![' '] + (seq!['('] + inner));
    lemma_is_return();
    lemma_semi(t);
    words::lemma_mark(')', end);
    assert(printer::return_text(Some(a)) + ";"@ + t =~= "return"@ + (seq![' '] + (seq!['('] + x)));
    lemma_word("return"@, seq!['('] + x);
    assert(x[0] == a.name[0]);
    words::lemma_mark('(', x);
    lemma_word(a.name, seq!['('] + inner);
    lemma_exprs_first(a.args, a.args.len());
    assert(inner[0] == list[0]);
    words::lemma_mark('(', inner);
    lemma_exprs(a.args, a.args.len(), closes);
    words::lemma_mark(')', close);
    let k = readback::exprs_toks(a.args, a.args.len());
    assert(readback::action_toks(Some(a)) + seq![TokV::Semi] =~= seq![TokV::LParen] + (
    readback::word(a.name) + (seq![TokV::LParen] + (k + (seq![TokV::RParen] + (seq![TokV::RParen]
        + seq![TokV::Semi]))))));
}

proof fn lemma_return(action: Option<ReturnActionV>, t: Seq<char>)
    requires
        quiet(t),
        match action {
            Some(a) => readback::is_name(a.name) && readback::can_exprs(a.args),
            None => true,
        },
    ensures
        tokens_of(printer::return_text(action) + ";"@ + t) == Ok::<Seq<TokV>, Seq<char>>(
            readback::word("return"@) + (readback::action_toks(action) + seq![TokV::Semi]),
        ),
{
    match action {
        None => {
            reveal_strlit("return");
            reveal_strlit(";");
            lemma_is_return();
            lemma_semi(t);
            let end = seq![';'] + t;
            assert(printer::return_text(action) + ";"@ + t =~= "return"@ + end);
            words::lemma_name("return"@, end);
            assert(readback::action_toks(action) + seq![TokV::Semi] =~= seq![TokV::Semi]);
        },
        Some(a) => if a.args.len() == 0 {
            lemma_return_plain(a, t);
        } else {
            lemma_return_args(a, t);
        },
    }
}

proof fn lemma_synthetic(value: ExprV, t: Seq<char>)
    requires
        quiet(t),
        readback::can_expr(value),
    ensures
        tokens_of("synthetic ("@ + printer::expr_text(value) + ")"@ + ";"@ + t) == Ok::<
            Seq<TokV>,
            Seq<char>,
        >(
            readback::word("synthetic"@) + (seq![TokV::LParen] + (readback::expr_toks(value) + (seq![
                TokV::RParen,
            ] + seq![TokV::Semi]))),
        ),
{
    reveal_strlit("synthetic (");
    reveal_strlit("synthetic");
    reveal_strlit(")");
    reveal_strlit(";");
    let end = seq![';'] + t;
    let close = seq![')'] + end;
    let e = printer::expr_text(value) + close;
    assert("synthetic ("@ + printer::expr_text(value) + ")"@ + ";"@ + t =~= "synthetic"@ + (seq![
        ' ',
    ] + (seq!['('] + e)));
    lemma_is_synthetic();
    lemma_word("synthetic"@, seq!['('] + e);
    words::lemma_expr_first(value);
    assert(e[0] == printer::expr_text(value)[0]);
    words::lemma_mark('(', e);
    words::lemma_expr(value, close);
    words::lemma_mark(')', end);
    lemma_semi(t);
}

/// A call behind its target, with its semicolon.
proof fn lemma_call_tail(args: Seq<ArgV>, sep: Seq<char>, t: Seq<char>)
    requires
        quiet(t),
        readback::can_args(args),
        words::names_arg(sep),
    ensures
        tokens_of(
            seq!['('] + (text::join(printer::arg_texts(args, sep, args.len()), ", "@) + (seq![
                ')',
                ';',
            ] + t)),
        ) == Ok::<Seq<TokV>, Seq<char>>(readback::call_toks(args) + seq![TokV::Semi]),
{
    let end = seq![';'] + t;
    let close = seq![')'] + end;
    assert(close =~= seq![')', ';'] + t);
    let list = text::join(printer::arg_texts(args, sep, args.len()), ", "@);
    let inner = list + close;
    words::lemma_args(args, sep, args.len(), close);
    if args.len() > 0 {
        words::lemma_args_first(args, sep, args.len());
        assert(inner[0] == list[0]);
    } else {
        assert(inner =~= close);
    }
    words::lemma_mark('(', inner);
    words::lemma_mark(')', end);
    lemma_semi(t);
    let k = readback::args_toks(args, args.len());
    assert(readback::call_toks(args) + seq![TokV::Semi] =~= seq![TokV::LParen] + (k + (seq![
        TokV::RParen,
    ] + seq![TokV::Semi])));
}

/// A line with a margin is read as the line without it.
pub(crate) proof fn lemma_margin_line(ind: Seq<char>, l: Seq<char>)
    requires
        is_margin(ind),
    ensures
        read_lines(seq![ind + l]) == tokens_of(l),
{
    lemma_line(ind + l);
    words::lemma_skip(ind, l);
}

proof fn lemma_new_line(
    name: Seq<char>,
    vmod: Seq<char>,
    ctor: Seq<char>,
    args: Seq<ArgV>,
    t: Seq<char>,
)
    requires
        quiet(t),
        readback::is_name(name),
        readback::is_name(vmod),
        readback::is_name(ctor),
        readback::can_args(args),
    ensures
        tokens_of(
            "new "@ + name + " = "@ + vmod + "."@ + ctor + "("@ + text::join(
                printer::arg_texts(args, " = "@, args.len()),
                ", "@,
            ) + ");"@ + t,
        ) == Ok::<Seq<TokV>, Seq<char>>(
            readback::word("new"@) + (readback::word(name) + (seq![TokV::Eq] + (readback::word(vmod)
                + (seq![TokV::Dot] + (readback::word(ctor) + (readback::call_toks(args) + seq![
                TokV::Semi,
            ])))))),
        ),
{
    reveal_strlit("new ");
    reveal_strlit("new");
    reveal_strlit(" = ");
    reveal_strlit(".");
    reveal_strlit("(");
    reveal_strlit(");");
    let list = text::join(printer::arg_texts(args, " = "@, args.len()), ", "@);
    let tail = seq!['('] + (list + (seq![')', ';'] + t));
    let c = ctor + tail;
    let d = seq!['.'] + c;
    let v = vmod + d;
    let q = " = "@ + v;
    assert("new "@ + name + " = "@ + vmod + "."@ + ctor + "("@ + list + ");"@ + t =~= "new"@ + (
    seq![' '] + (name + q)));
    lemma_is_new();
    lemma_word("new"@, name + q);
    words::lemma_name(name, q);
    lemma_equals(v);
    words::lemma_name(vmod, d);
    assert(c[0] == ctor[0]);
    words::lemma_mark('.', c);
    words::lemma_name(ctor, tail);
    lemma_call_tail(args, " = "@, t);
}

proof fn lemma_call_line(target: Seq<Seq<char>>, args: Seq<ArgV>, t: Seq<char>)
    requires
        quiet(t),
        readback::is_dotted(target),
        readback::can_args(args),
    ensures
        tokens_of(
            text::join(target, "."@) + "("@ + text::join(
                printer::arg_texts(args, "="@, args.len()),
                ", "@,
            ) + ");"@ + t,
        ) == Ok::<Seq<TokV>, Seq<char>>(
            readback::dotted_toks(target, target.len()) + (readback::call_toks(args) + seq![
                TokV::Semi,
            ]),
        ),
{
    reveal_strlit("(");
    reveal_strlit(");");
    let list = text::join(printer::arg_texts(args, "="@, args.len()), ", "@);
    let tail = seq!['('] + (list + (seq![')', ';'] + t));
    assert(text::join(target, "."@) + "("@ + list + ");"@ + t =~= text::join(target, "."@) + tail);
    words::lemma_dotted(target, target.len(), tail);
    lemma_call_tail(args, "="@, t);
}

// ───────────────────────── calls over several lines ─────────────────────────

proof fn lemma_shown(args: Seq<ArgV>, n: nat)
    requires
        readback::can_args(args),
        n <= args.len(),
    ensures
        printer::shown(args, n) == n,
    decreases n,
{
    if n > 0 {
        lemma_shown(args, (n - 1) as nat);
        assert(readback::can_arg(args[n - 1]));
    }
}

/// The tokens of an argument and of the comma behind it.
spec fn comma_toks(a: ArgV, more: bool) -> Seq<TokV> {
    readback::arg_toks(a) + if more {
        seq![TokV::Comma]
    } else {
        seq![]
    }
}

proof fn lemma_arg_line(a: ArgV, sep: Seq<char>, more: bool)
    requires
        readback::can_arg(a),
        words::names_arg(sep),
    ensures
        firm_line(
            printer::arg_text(a, sep) + if more {
                ","@
            } else {
                ""@
            },
            comma_toks(a, more),
        ),
{
    reveal_strlit(",");
    reveal_strlit("");
    let l = printer::arg_text(a, sep) + if more {
        ","@
    } else {
        ""@
    };
    assert forall|t: Seq<char>| quiet(t) implies tokens_of(#[trigger] (l + t)) == Ok::<
        Seq<TokV>,
        Seq<char>,
    >(comma_toks(a, more)) by {
        let k = readback::arg_toks(a);
        if more {
            let rest = seq![','] + t;
            assert(l + t =~= printer::arg_text(a, sep) + rest);
            words::lemma_mark(',', t);
            words::lemma_arg(a, sep, rest);
            assert(seq![TokV::Comma] + Seq::<TokV>::empty() =~= seq![TokV::Comma]);
        } else {
            assert(l + t =~= printer::arg_text(a, sep) + t);
            words::lemma_arg(a, sep, t);
        }
    }
}

/// The tokens of the first `n` arguments, with the comma behind the last one
/// where others follow.
spec fn listed_toks(args: Seq<ArgV>, n: nat) -> Seq<TokV> {
    readback::args_toks(args, n) + if 0 < n < args.len() {
        seq![TokV::Comma]
    } else {
        seq![]
    }
}

proof fn lemma_arg_item(
    a: ArgV,
    cm: CommentMapV,
    ind: Seq<char>,
    sep: Seq<char>,
    first: bool,
    more: bool,
)
    requires
        readback::can_arg(a),
        words::names_arg(sep),
        can_comments(cm),
        is_margin(ind),
    ensures
        read_lines(
            printer::item_lines(
                cm,
                a.span,
                ind,
                first,
                BlankRule::Never,
                seq![ind + printer::arg_text(a, sep) + (if more {
                    ","@
                } else {
                    ""@
                })],
            ),
        ) == Ok::<Seq<TokV>, Seq<char>>(comma_toks(a, more)),
{
    let comma = if more {
        ","@
    } else {
        ""@
    };
    let l = printer::arg_text(a, sep) + comma;
    let k = comma_toks(a, more);
    lemma_arg_line(a, sep, more);
    assert(ind + printer::arg_text(a, sep) + comma =~= ind + l);
    lemma_firm_margin(ind, l, k);
    lemma_firm_only(ind + l, k);
    lemma_item(cm, a.span, ind, first, BlankRule::Never, seq![ind + l], k);
}

proof fn lemma_listed(args: Seq<ArgV>, n: nat)
    requires
        0 < n <= args.len(),
    ensures
        listed_toks(args, (n - 1) as nat) + comma_toks(args[n - 1], n < args.len())
            == listed_toks(args, n),
{
    let a = readback::arg_toks(args[n - 1]);
    let b = readback::args_toks(args, (n - 1) as nat);
    let c = if n < args.len() {
        seq![TokV::Comma]
    } else {
        seq![]
    };
    if n == 1 {
        assert(Seq::<TokV>::empty() + Seq::<TokV>::empty() + (a + c) =~= a + c);
    } else {
        assert((b + seq![TokV::Comma]) + (a + c) =~= (b + (seq![TokV::Comma] + a)) + c);
    }
}

proof fn lemma_arg_lines(args: Seq<ArgV>, cm: CommentMapV, ind: Seq<char>, sep: Seq<char>, n: nat)
    requires
        readback::can_args(args),
        words::names_arg(sep),
        can_comments(cm),
        is_margin(ind),
        n <= args.len(),
    ensures
        read_lines(printer::arg_lines(args, cm, ind, sep, n)) == Ok::<Seq<TokV>, Seq<char>>(
            listed_toks(args, n),
        ),
    decreases n,
{
    if n == 0 {
        assert(listed_toks(args, 0) =~= seq![]);
    } else {
        let a = args[n - 1];
        assert(readback::can_arg(a) && !(a.value is Omitted));
        lemma_shown(args, n);
        lemma_shown(args, (n - 1) as nat);
        lemma_shown(args, args.len());
        lemma_arg_lines(args, cm, ind, sep, (n - 1) as nat);
        lemma_arg_item(a, cm, ind, sep, n == 1, n < args.len());
        let comma = if n < args.len() {
            ","@
        } else {
            ""@
        };
        let item = printer::item_lines(
            cm,
            a.span,
            ind,
            n == 1,
            BlankRule::Never,
            seq![ind + printer::arg_text(a, sep) + comma],
        );
        lemma_lines_add(printer::arg_lines(args, cm, ind, sep, (n - 1) as nat), item);
        lemma_listed(args, n);
    }
}

/// What a call is read as behind its target, over several lines.
proof fn lemma_spread_call(
    prefix: Seq<char>,
    k: Seq<TokV>,
    args: Seq<ArgV>,
    cm: CommentMapV,
    ind: Seq<char>,
    sep: Seq<char>,
)
    requires
        firm_line(prefix + "("@, k + seq![TokV::LParen]),
        readback::can_args(args),
        words::names_arg(sep),
        can_comments(cm),
        is_margin(ind),
    ensures
        firm(
            seq![prefix + "("@] + printer::arg_lines(
                args,
                cm,
                printer::deeper(ind),
                sep,
                args.len(),
            ) + seq![ind + ");"@],
            k + (readback::call_toks(args) + seq![TokV::Semi]),
        ),
{
    reveal_strlit(");");
    let none = Seq::<char>::empty();
    let first = prefix + "("@;
    let body = printer::arg_lines(args, cm, printer::deeper(ind), sep, args.len());
    let last = seq![ind + ");"@];
    lemma_deeper(ind);
    lemma_arg_lines(args, cm, printer::deeper(ind), sep, args.len());
    let list = readback::args_toks(args, args.len());
    assert(listed_toks(args, args.len()) =~= list);
    assert(");"@ =~= seq![')'] + (seq![';'] + none));
    lemma_nothing_is_quiet();
    lemma_semi(none);
    words::lemma_mark(')', seq![';'] + none);
    lemma_margin_line(ind, ");"@);
    lemma_lines_add(body, last);
    let more = list + (seq![TokV::RParen] + seq![TokV::Semi]);
    lemma_firm_first(first, k + seq![TokV::LParen], body + last, more);
    assert(seq![first] + (body + last) =~= seq![first] + body + last);
    assert((k + seq![TokV::LParen]) + more =~= k + (readback::call_toks(args) + seq![TokV::Semi]));
}

/// The start of a `new` over several lines.
proof fn lemma_new_start(name: Seq<char>, vmod: Seq<char>, ctor: Seq<char>)
    requires
        readback::is_name(name),
        readback::is_name(vmod),
        readback::is_name(ctor),
    ensures
        firm_line(
            "new "@ + name + " = "@ + vmod + "."@ + ctor + "("@,
            (readback::word("new"@) + (readback::word(name) + (seq![TokV::Eq] + (readback::word(
                vmod,
            ) + (seq![TokV::Dot] + readback::word(ctor)))))) + seq![TokV::LParen],
        ),
{
    reveal_strlit("new ");
    reveal_strlit("new");
    reveal_strlit(" = ");
    reveal_strlit(".");
    reveal_strlit("(");
    let l = "new "@ + name + " = "@ + vmod + "."@ + ctor + "("@;
    let k = (readback::word("new"@) + (readback::word(name) + (seq![TokV::Eq] + (readback::word(
        vmod,
    ) + (seq![TokV::Dot] + readback::word(ctor)))))) + seq![TokV::LParen];
    assert forall|t: Seq<char>| quiet(t) implies tokens_of(#[trigger] (l + t)) == Ok::<
        Seq<TokV>,
        Seq<char>,
    >(k) by {
        let tail = seq!['('] + t;
        let c = ctor + tail;
        let d = seq!['.'] + c;
        let v = vmod + d;
        let q = " = "@ + v;
        assert(l + t =~= "new"@ + (seq![' '] + (name + q)));
        lemma_is_new();
        lemma_word("new"@, name + q);
        words::lemma_name(name, q);
        lemma_equals(v);
        words::lemma_name(vmod, d);
        assert(c[0] == ctor[0]);
        words::lemma_mark('.', c);
        words::lemma_name(ctor, tail);
        words::lemma_mark('(', t);
        assert(readback::word("new"@) + (readback::word(name) + (seq![TokV::Eq] + (readback::word(
            vmod,
        ) + (seq![TokV::Dot] + (readback::word(ctor) + (seq![TokV::LParen]
            + Seq::<TokV>::empty())))))) =~= k);
    }
}

/// The start of a call over several lines.
proof fn lemma_call_start(target: Seq<Seq<char>>)
    requires
        readback::is_dotted(target),
    ensures
        firm_line(
            text::join(target, "."@) + "("@,
            readback::dotted_toks(target, target.len()) + seq![TokV::LParen],
        ),
{
    reveal_strlit("(");
    let l = text::join(target, "."@) + "("@;
    let k = readback::dotted_toks(target, target.len()) + seq![TokV::LParen];
    assert forall|t: Seq<char>| quiet(t) implies tokens_of(#[trigger] (l + t)) == Ok::<
        Seq<TokV>,
        Seq<char>,
    >(k) by {
        let tail = seq!['('] + t;
        assert(l + t =~= text::join(target, "."@) + tail);
        words::lemma_dotted(target, target.len(), tail);
        words::lemma_mark('(', t);
        assert(seq![TokV::LParen] + Seq::<TokV>::empty() =~= seq![TokV::LParen]);
    }
}

// ───────────────────────── the lines of statements ─────────────────────────

/// A statement on one line is firm where its text is.
proof fn lemma_one_line(x: Seq<char>, ind: Seq<char>, k: Seq<TokV>)
    requires
        is_margin(ind),
        firm_line(x + ";"@, k),
    ensures
        firm(seq![ind + x + ";"@], k),
{
    assert(ind + x + ";"@ =~= ind + (x + ";"@));
    lemma_firm_margin(ind, x + ";"@, k);
    lemma_firm_only(ind + (x + ";"@), k);
}

proof fn lemma_new_stmt(s: StmtV, ind: Seq<char>, cm: CommentMapV)
    requires
        s is New,
        readback::can_stmt(s),
        is_margin(ind),
        can_comments(cm),
    ensures
        firm(printer::stmt_lines(s, ind, cm), readback::stmt_toks(s)),
{
    match s {
        StmtV::New { name, vmod, ctor, args, .. } => {
            let prefix = ind + "new "@ + name + " = "@ + vmod + "."@ + ctor;
            if printer::any_commented(args, cm, args.len()) {
                let l = "new "@ + name + " = "@ + vmod + "."@ + ctor + "("@;
                let k = readback::word("new"@) + (readback::word(name) + (seq![TokV::Eq] + (
                readback::word(vmod) + (seq![TokV::Dot] + readback::word(ctor)))));
                lemma_new_start(name, vmod, ctor);
                lemma_firm_margin(ind, l, k + seq![TokV::LParen]);
                assert(prefix + "("@ =~= ind + l);
                lemma_spread_call(prefix, k, args, cm, ind, " = "@);
                assert(k + (readback::call_toks(args) + seq![TokV::Semi]) =~= readback::stmt_toks(s));
            } else {
                let list = text::join(printer::arg_texts(args, " = "@, args.len()), ", "@);
                let l = "new "@ + name + " = "@ + vmod + "."@ + ctor + "("@ + list + ");"@;
                assert(prefix + "("@ + list + ");"@ =~= ind + l);
                assert forall|t: Seq<char>| quiet(t) implies tokens_of(#[trigger] (l + t)) == Ok::<
                    Seq<TokV>,
                    Seq<char>,
                >(readback::stmt_toks(s)) by {
                    lemma_new_line(name, vmod, ctor, args, t);
                }
                lemma_firm_margin(ind, l, readback::stmt_toks(s));
                lemma_firm_only(ind + l, readback::stmt_toks(s));
            }
        },
        _ => {},
    }
}

proof fn lemma_expr_stmt(s: StmtV, ind: Seq<char>, cm: CommentMapV)
    requires
        s is Expr,
        readback::can_stmt(s),
        is_margin(ind),
        can_comments(cm),
    ensures
        firm(printer::stmt_lines(s, ind, cm), readback::stmt_toks(s)),
{
    match s {
        StmtV::Expr { expr: ExprV::Call { target, args }, .. } => {
            let prefix = ind + text::join(target, "."@);
            let d = readback::dotted_toks(target, target.len());
            assert(readback::stmt_toks(s) =~= d + (readback::call_toks(args) + seq![TokV::Semi]));
            if printer::any_commented(args, cm, args.len()) {
                let l = text::join(target, "."@) + "("@;
                lemma_call_start(target);
                lemma_firm_margin(ind, l, d + seq![TokV::LParen]);
                assert(prefix + "("@ =~= ind + l);
                lemma_spread_call(prefix, d, args, cm, ind, "="@);
            } else {
                let list = text::join(printer::arg_texts(args, "="@, args.len()), ", "@);
                let l = text::join(target, "."@) + "("@ + list + ");"@;
                assert(prefix + "("@ + list + ");"@ =~= ind + l);
                assert forall|t: Seq<char>| quiet(t) implies tokens_of(#[trigger] (l + t)) == Ok::<
                    Seq<TokV>,
                    Seq<char>,
                >(readback::stmt_toks(s)) by {
                    lemma_call_line(target, args, t);
                }
                lemma_firm_margin(ind, l, readback::stmt_toks(s));
                lemma_firm_only(ind + l, readback::stmt_toks(s));
            }
        },
        StmtV::Expr { expr: ExprV::CSource(c), .. } => {
            let l = printer::stmt_text(s);
            let k = readback::stmt_toks(s);
            assert(k =~= seq![TokV::CSource(c)]);
            assert forall|t: Seq<char>| quiet(t) implies tokens_of(#[trigger] (l + t)) == Ok::<
                Seq<TokV>,
                Seq<char>,
            >(k) by {
                words::lemma_embedded(c, t);
                assert(k + Seq::<TokV>::empty() =~= k);
            }
            lemma_firm_margin(ind, l, k);
            lemma_firm_only(ind + l, k);
        },
        _ => {},
    }
}

/// A statement on one line.
proof fn lemma_short_stmt(s: StmtV)
    requires
        readback::can_stmt(s),
        s is Assign || s is Unset || s is Call || s is Return || s is Synthetic,
    ensures
        firm_line(printer::stmt_text(s) + ";"@, readback::stmt_toks(s)),
{
    let l = printer::stmt_text(s) + ";"@;
    assert forall|t: Seq<char>| quiet(t) implies tokens_of(#[trigger] (l + t)) == Ok::<
        Seq<TokV>,
        Seq<char>,
    >(readback::stmt_toks(s)) by {
        match s {
            StmtV::Assign { lhs, rhs, .. } => lemma_assign(lhs, rhs, t),
            StmtV::Unset { lhs, .. } => lemma_unset(lhs, t),
            StmtV::Call { sub, .. } => lemma_call(sub, t),
            StmtV::Return { action, .. } => lemma_return(action, t),
            StmtV::Synthetic { value, .. } => lemma_synthetic(value, t),
            _ => {},
        }
    }
}

/// A statement is read as its tokens.
proof fn lemma_stmt(s: StmtV, ind: Seq<char>, cm: CommentMapV)
    requires
        readback::can_stmt(s),
        is_margin(ind),
        can_comments(cm),
    ensures
        firm(printer::stmt_lines(s, ind, cm), readback::stmt_toks(s)),
    decreases s, 1nat,
{
    match s {
        StmtV::If { .. } => lemma_if(s, ind, cm),
        StmtV::New { .. } => lemma_new_stmt(s, ind, cm),
        StmtV::Expr { .. } => lemma_expr_stmt(s, ind, cm),
        _ => {
            lemma_short_stmt(s);
            lemma_one_line(printer::stmt_text(s), ind, readback::stmt_toks(s));
        },
    }
}

/// Statements are read as their tokens.
pub(crate) proof fn lemma_stmts(ss: Seq<StmtV>, ind: Seq<char>, cm: CommentMapV, n: nat)
    requires
        readback::can_stmts(ss),
        is_margin(ind),
        can_comments(cm),
        n <= ss.len(),
    ensures
        read_lines(printer::stmts_lines(ss, ind, cm, n)) == Ok::<Seq<TokV>, Seq<char>>(
            readback::stmts_toks(ss, n),
        ),
    decreases ss, n,
{
    if n > 0 {
        let x = ss[n - 1];
        assert(readback::can_stmt(x));
        lemma_stmts(ss, ind, cm, (n - 1) as nat);
        lemma_stmt(x, ind, cm);
        let core = printer::stmt_lines(x, ind, cm);
        let k = readback::stmt_toks(x);
        lemma_item(cm, ast::stmt_span(x), ind, n == 1, BlankRule::IfLeading, core, k);
        lemma_lines_add(
            printer::stmts_lines(ss, ind, cm, (n - 1) as nat),
            printer::item_lines(cm, ast::stmt_span(x), ind, n == 1, BlankRule::IfLeading, core),
        );
    }
}

/// The head of an arm.
proof fn lemma_arm_head(cond: ExprV, first: bool, t: Seq<char>)
    requires
        quiet(t),
        readback::can_expr(cond),
    ensures
        tokens_of(
            (if first {
                "if"@
            } else {
                "else if"@
            }) + " ("@ + printer::expr_text(cond) + ") {"@ + t,
        ) == Ok::<Seq<TokV>, Seq<char>>(
            (if first {
                readback::word("if"@)
            } else {
                readback::word("else"@) + readback::word("if"@)
            }) + (seq![TokV::LParen] + (readback::expr_toks(cond) + seq![
                TokV::RParen,
                TokV::LBrace,
            ])),
        ),
{
    reveal_strlit("if");
    reveal_strlit("else");
    reveal_strlit("else if");
    reveal_strlit(" (");
    reveal_strlit(") {");
    let open = seq!['{'] + t;
    let close = seq![')'] + (seq![' '] + open);
    let e = printer::expr_text(cond) + close;
    let p = seq!['('] + e;
    let i = "if"@ + (seq![' '] + p);
    assert("if"@ + " ("@ + printer::expr_text(cond) + ") {"@ + t =~= i);
    assert("else if"@ + " ("@ + printer::expr_text(cond) + ") {"@ + t =~= "else"@ + (seq![' ']
        + i));
    lemma_is_if();
    lemma_is_else();
    lemma_word("else"@, i);
    lemma_word("if"@, p);
    words::lemma_expr_first(cond);
    assert(e[0] == printer::expr_text(cond)[0]);
    words::lemma_mark('(', e);
    words::lemma_expr(cond, close);
    words::lemma_mark(')', seq![' '] + open);
    words::lemma_skip(seq![' '], open);
    words::lemma_mark('{', t);
    let k = readback::expr_toks(cond);
    let w = readback::word("if"@);
    let tail = seq![TokV::LParen] + (k + (seq![TokV::RParen] + (seq![TokV::LBrace] + Seq::<
        TokV,
    >::empty())));
    assert(tail =~= seq![TokV::LParen] + (k + seq![TokV::RParen, TokV::LBrace]));
    assert(readback::word("else"@) + (w + tail) =~= (readback::word("else"@) + w) + tail);
}

/// The line behind the body of an arm.
pub(crate) proof fn lemma_arm_close(more: bool, has_else: bool)
    ensures
        tokens_of(
            if more {
                "} "@
            } else if has_else {
                "} else {"@
            } else {
                "}"@
            },
        ) == Ok::<Seq<TokV>, Seq<char>>(
            if !more && has_else {
                seq![TokV::RBrace] + (readback::word("else"@) + seq![TokV::LBrace])
            } else {
                seq![TokV::RBrace]
            },
        ),
{
    reveal_strlit("} ");
    reveal_strlit("} else {");
    reveal_strlit("}");
    reveal_strlit("else");
    let none = Seq::<char>::empty();
    let sp = seq![' '];
    lemma_blank();
    assert("}"@ =~= seq!['}'] + none);
    assert("} "@ =~= seq!['}'] + (sp + none));
    words::lemma_mark('}', none);
    words::lemma_mark('}', sp + none);
    words::lemma_skip(sp, none);
    let open = seq!['{'] + none;
    let e = "else"@ + (sp + open);
    assert("} else {"@ =~= seq!['}'] + (sp + e));
    words::lemma_mark('}', sp + e);
    words::lemma_skip(sp, e);
    lemma_is_else();
    lemma_word("else"@, open);
    words::lemma_mark('{', none);
    assert(seq![TokV::RBrace] + Seq::<TokV>::empty() =~= seq![TokV::RBrace]);
    assert(seq![TokV::LBrace] + Seq::<TokV>::empty() =~= seq![TokV::LBrace]);
}

/// The lines of one arm, with the line that ends it.
spec fn arm_piece(
    a: ArmV,
    first: bool,
    more: bool,
    has_else: bool,
    ind: Seq<char>,
    cm: CommentMapV,
) -> Seq<Seq<char>> {
    seq![
        ind + (if first {
            "if"@
        } else {
            "else if"@
        }) + " ("@ + printer::expr_text(a.cond) + ") {"@,
    ] + (printer::stmts_lines(a.body, printer::deeper(ind), cm, a.body.len()) + seq![
        ind + if more {
            "} "@
        } else if has_else {
            "} else {"@
        } else {
            "}"@
        },
    ])
}

/// The tokens of one arm.
spec fn arm_toks(a: ArmV, first: bool) -> Seq<TokV> {
    (if first {
        readback::word("if"@)
    } else {
        readback::word("else"@) + readback::word("if"@)
    }) + (seq![TokV::LParen] + (readback::expr_toks(a.cond) + (seq![TokV::RParen, TokV::LBrace] + (
    readback::stmts_toks(a.body, a.body.len()) + seq![TokV::RBrace]))))
}

/// What stands behind the last arm on the line that ends it.
spec fn else_head(more: bool, has_else: bool) -> Seq<TokV> {
    if has_else && !more {
        readback::word("else"@) + seq![TokV::LBrace]
    } else {
        seq![]
    }
}

proof fn lemma_firm_head(cond: ExprV, first: bool)
    requires
        readback::can_expr(cond),
    ensures
        firm_line(
            (if first {
                "if"@
            } else {
                "else if"@
            }) + " ("@ + printer::expr_text(cond) + ") {"@,
            (if first {
                readback::word("if"@)
            } else {
                readback::word("else"@) + readback::word("if"@)
            }) + (seq![TokV::LParen] + (readback::expr_toks(cond) + seq![
                TokV::RParen,
                TokV::LBrace,
            ])),
        ),
{
    let l = (if first {
        "if"@
    } else {
        "else if"@
    }) + " ("@ + printer::expr_text(cond) + ") {"@;
    let k = (if first {
        readback::word("if"@)
    } else {
        readback::word("else"@) + readback::word("if"@)
    }) + (seq![TokV::LParen] + (readback::expr_toks(cond) + seq![TokV::RParen, TokV::LBrace]));
    assert forall|t: Seq<char>| quiet(t) implies tokens_of(#[trigger] (l + t)) == Ok::<
        Seq<TokV>,
        Seq<char>,
    >(k) by {
        lemma_arm_head(cond, first, t);
    }
}

proof fn lemma_arm_piece(
    a: ArmV,
    first: bool,
    more: bool,
    has_else: bool,
    ind: Seq<char>,
    cm: CommentMapV,
)
    requires
        readback::can_arm(a),
        is_margin(ind),
        can_comments(cm),
    ensures
        firm(
            arm_piece(a, first, more, has_else, ind, cm),
            arm_toks(a, first) + else_head(more, has_else),
        ),
    decreases a, 0nat,
{
    let head = (if first {
        "if"@
    } else {
        "else if"@
    }) + " ("@ + printer::expr_text(a.cond) + ") {"@;
    let close = if more {
        "} "@
    } else if has_else {
        "} else {"@
    } else {
        "}"@
    };
    let w = if first {
        readback::word("if"@)
    } else {
        readback::word("else"@) + readback::word("if"@)
    };
    let h = w + (seq![TokV::LParen] + (readback::expr_toks(a.cond) + seq![
        TokV::RParen,
        TokV::LBrace,
    ]));
    let body = printer::stmts_lines(a.body, printer::deeper(ind), cm, a.body.len());
    lemma_firm_head(a.cond, first);
    lemma_firm_margin(ind, head, h);
    lemma_arm_close(more, has_else);
    lemma_deeper(ind);
    lemma_stmts(a.body, printer::deeper(ind), cm, a.body.len());
    lemma_margin_line(ind, close);
    let y = body + seq![ind + close];
    assert(arm_piece(a, first, more, has_else, ind, cm) =~= seq![ind + head] + y) by {
        assert(ind + (if first {
            "if"@
        } else {
            "else if"@
        }) + " ("@ + printer::expr_text(a.cond) + ") {"@ =~= ind + head);
    }
    lemma_lines_add(body, seq![ind + close]);
    let b = readback::stmts_toks(a.body, a.body.len());
    let c = tokens_of(close)->Ok_0;
    let e = else_head(more, has_else);
    assert(c =~= seq![TokV::RBrace] + e);
    lemma_firm_first(ind + head, h, y, b + c);
    lemma_assemble(w, readback::expr_toks(a.cond), b, e);
}

proof fn lemma_assemble(w: Seq<TokV>, k: Seq<TokV>, b: Seq<TokV>, e: Seq<TokV>)
    ensures
        (w + (seq![TokV::LParen] + (k + seq![TokV::RParen, TokV::LBrace]))) + (b + (seq![
            TokV::RBrace,
        ] + e)) == (w + (seq![TokV::LParen] + (k + (seq![TokV::RParen, TokV::LBrace] + (b + seq![
            TokV::RBrace,
        ]))))) + e,
{
    let x = (w + (seq![TokV::LParen] + (k + seq![TokV::RParen, TokV::LBrace]))) + (b + (seq![
        TokV::RBrace,
    ] + e));
    let y = (w + (seq![TokV::LParen] + (k + (seq![TokV::RParen, TokV::LBrace] + (b + seq![
        TokV::RBrace,
    ]))))) + e;
    assert(x =~= y);
}

proof fn lemma_arms_parts(
    arms: Seq<ArmV>,
    has_else: bool,
    ind: Seq<char>,
    cm: CommentMapV,
    n: nat,
)
    requires
        1 <= n <= arms.len(),
    ensures
        printer::arms_lines(arms, has_else, ind, cm, n) == printer::arms_lines(
            arms,
            has_else,
            ind,
            cm,
            (n - 1) as nat,
        ) + arm_piece(arms[n - 1], n == 1, n < arms.len(), has_else, ind, cm),
        readback::arms_toks(arms, n) == readback::arms_toks(arms, (n - 1) as nat) + arm_toks(
            arms[n - 1],
            n == 1,
        ),
{
    let before = printer::arms_lines(arms, has_else, ind, cm, (n - 1) as nat);
    let piece = arm_piece(arms[n - 1], n == 1, n < arms.len(), has_else, ind, cm);
    assert(printer::arms_lines(arms, has_else, ind, cm, n) =~= before + piece);
}

/// The arms of an `if` are read as their tokens; where there is an `else`, its
/// head stands on the line that ends the last arm.
proof fn lemma_arms(arms: Seq<ArmV>, has_else: bool, ind: Seq<char>, cm: CommentMapV, n: nat)
    requires
        readback::can_arms(arms),
        is_margin(ind),
        can_comments(cm),
        1 <= n <= arms.len(),
    ensures
        firm(
            printer::arms_lines(arms, has_else, ind, cm, n),
            readback::arms_toks(arms, n) + else_head(n < arms.len(), has_else),
        ),
    decreases arms, n,
{
    let a = arms[n - 1];
    assert(readback::can_arm(a));
    let piece = arm_piece(a, n == 1, n < arms.len(), has_else, ind, cm);
    let tail = else_head(n < arms.len(), has_else);
    lemma_arm_piece(a, n == 1, n < arms.len(), has_else, ind, cm);
    let before = printer::arms_lines(arms, has_else, ind, cm, (n - 1) as nat);
    let done = readback::arms_toks(arms, (n - 1) as nat);
    lemma_arms_parts(arms, has_else, ind, cm, n);
    if n == 1 {
        assert(before + piece =~= piece);
        assert(done + arm_toks(a, true) =~= arm_toks(a, true));
    } else {
        lemma_arms(arms, has_else, ind, cm, (n - 1) as nat);
        assert(done + else_head(true, has_else) =~= done);
        lemma_firm(piece, arm_toks(a, false) + tail);
        lemma_firm_add(before, done, piece, arm_toks(a, false) + tail);
        assert(done + (arm_toks(a, false) + tail) =~= (done + arm_toks(a, false)) + tail);
    }
}

proof fn lemma_if(s: StmtV, ind: Seq<char>, cm: CommentMapV)
    requires
        s is If,
        readback::can_stmt(s),
        is_margin(ind),
        can_comments(cm),
    ensures
        firm(printer::stmt_lines(s, ind, cm), readback::stmt_toks(s)),
    decreases s, 0nat,
{
    match s {
        StmtV::If { arms, else_body, .. } => {
            let x = printer::arms_lines(arms, else_body is Some, ind, cm, arms.len());
            lemma_arms(arms, else_body is Some, ind, cm, arms.len());
            let done = readback::arms_toks(arms, arms.len());
            match else_body {
                Some(b) => {
                    let body = printer::stmts_lines(b, printer::deeper(ind), cm, b.len());
                    lemma_deeper(ind);
                    lemma_stmts(b, printer::deeper(ind), cm, b.len());
                    lemma_margin_line(ind, "}"@);
                    lemma_arm_close(false, false);
                    let y = body + seq![ind + "}"@];
                    lemma_lines_add(body, seq![ind + "}"@]);
                    let k = readback::stmts_toks(b, b.len());
                    lemma_firm_add(
                        x,
                        done + (readback::word("else"@) + seq![TokV::LBrace]),
                        y,
                        k + seq![TokV::RBrace],
                    );
                    assert((done + (readback::word("else"@) + seq![TokV::LBrace])) + (k + seq![
                        TokV::RBrace,
                    ]) =~= readback::stmt_toks(s));
                },
                None => {
                    assert(printer::stmt_lines(s, ind, cm) =~= x);
                    assert(done + Seq::<TokV>::empty() =~= readback::stmt_toks(s));
                },
            }
        },
        _ => {},
    }
}

} // verus!
