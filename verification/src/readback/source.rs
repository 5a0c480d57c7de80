//! What is read can be written: the program of a source text has a text that
//! stands for it.

use crate::ast;
use crate::ast::{
    AclEntryV, ArgV, ArmV, CommentMapV, CommentV, DeclV, ExprV, FieldV, FieldValueV, NodeCommentsV,
    Span, StmtV,
};
use crate::decimal;
use crate::grammar;
use crate::grammar::{InputV, Parse, PlaceV};
use crate::layout;
use crate::layout::lexing;
use crate::layout::parsing;
use crate::layout::whole;
use crate::lexer;
use crate::lexer::{ItemV, LexedV, RawCommentV, TokV, TokenV};
use crate::normalize::once;
use crate::parser;
use crate::pipeline;
use crate::printer;
use crate::readback;
use crate::readback::lines;
use crate::readback::remarks;
use crate::readback::words;
use crate::statements;
use crate::text;
use crate::vmod::VmodSpec;
use vstd::prelude::*;
use vstd::string::*;
use vstd::utf8::*;

verus! {

// ───────────────────────── tokens ─────────────────────────

/// Whether a token is one that can be written as it is printed: no string holds
/// what ends it, and a whole number of seconds fits in 64 bits.
pub open spec fn writable(t: TokV) -> bool {
    match t {
        TokV::Str(s) => readback::can_quote(s),
        TokV::Duration(n, u) => grammar::duration_token(n, u) matches Ok(ExprV::Duration(d)) ==> (
        d.scale == 0 ==> d.num <= u64::MAX) && d.scale + 3 <= usize::MAX,
        _ => true,
    }
}

/// Whether that holds of all tokens.
pub open spec fn all_writable(ts: Seq<TokenV>) -> bool {
    forall|i: int| 0 <= i < ts.len() ==> writable((#[trigger] ts[i]).tok)
}

/// Whether a token is what the source can hold: a name or a numeral is one, and
/// C source does not hold what ends it.
spec fn sound(t: TokV) -> bool {
    match t {
        TokV::Ident(n) => readback::is_name(n),
        TokV::Num(n) => decimal::decimal_value(n) is Some,
        TokV::CSource(c) => readback::can_embed(c),
        _ => true,
    }
}

spec fn all_sound(ts: Seq<TokenV>) -> bool {
    forall|i: int| 0 <= i < ts.len() ==> sound((#[trigger] ts[i]).tok)
}

/// Whether all comments are comments by themselves.
spec fn all_remarks(cs: Seq<RawCommentV>) -> bool {
    forall|i: int| 0 <= i < cs.len() ==> remarks::is_remark((#[trigger] cs[i]).text)
}

/// The characters of bytes that are characters by themselves.
spec fn letters(b: Seq<u8>, p: nat, e: nat) -> Seq<char> {
    Seq::new((e - p) as nat, |i: int| b[p + i] as char)
}

proof fn lemma_letters(b: Seq<u8>, p: nat, e: nat)
    requires
        p <= e <= b.len(),
        forall|i: int|
            p <= i < e ==> lexer::is_ident_byte(#[trigger] b[i]) || b[i] == lexer::DOT,
    ensures
        text::text_of(b, p as int, e as int) == letters(b, p, e),
{
    let s = b.subrange(p as int, e as int);
    let w = letters(b, p, e);
    assert forall|i: int| 0 <= i < w.len() implies words::plain(#[trigger] w[i]) by {
        assert(lexer::is_ident_byte(b[p + i]) || b[p + i] == lexer::DOT);
    }
    words::lemma_plain(w);
    assert(encode_utf8(w) =~= s);
    encode_utf8_decode_utf8(w);
}

proof fn lemma_ident_bytes(b: Seq<u8>, p: nat)
    requires
        p <= b.len(),
    ensures
        p <= lexer::ident_end(b, p) <= b.len(),
        p < b.len() && lexer::is_ident_byte(b[p as int]) ==> p < lexer::ident_end(b, p),
        forall|i: int| p <= i < lexer::ident_end(b, p) ==> lexer::is_ident_byte(#[trigger] b[i]),
    decreases b.len() - p,
{
    if p < b.len() && lexer::is_ident_byte(b[p as int]) {
        lemma_ident_bytes(b, p + 1);
    }
}

proof fn lemma_digit_bytes(b: Seq<u8>, p: nat)
    requires
        p <= b.len(),
    ensures
        p <= lexer::digits_end(b, p) <= b.len(),
        p < b.len() && lexer::is_digit(b[p as int]) ==> p < lexer::digits_end(b, p),
        forall|i: int| p <= i < lexer::digits_end(b, p) ==> lexer::is_digit(#[trigger] b[i]),
    decreases b.len() - p,
{
    if p < b.len() && lexer::is_digit(b[p as int]) {
        lemma_digit_bytes(b, p + 1);
    }
}

proof fn lemma_ident(b: Seq<u8>, p: nat)
    requires
        p < b.len(),
        lexer::is_letter(b[p as int]) || b[p as int] == lexer::UNDERSCORE,
    ensures
        readback::is_name(text::text_of(b, p as int, lexer::ident_end(b, p) as int)),
{
    lemma_ident_bytes(b, p);
    let e = lexer::ident_end(b, p);
    lemma_letters(b, p, e);
    let w = letters(b, p, e);
    assert forall|i: int| 0 <= i < w.len() implies readback::in_name(#[trigger] w[i]) by {
        assert(lexer::is_ident_byte(b[p + i]));
    }
    assert(w[0] == b[p as int] as char);
}

proof fn lemma_first_point(s: Seq<char>, from: nat, k: nat)
    requires
        from <= k <= s.len(),
        forall|i: int| from <= i < k ==> #[trigger] s[i] != '.',
        k < s.len() ==> s[k as int] == '.',
    ensures
        text::next_char(s, '.', from) == k,
    decreases k - from,
{
    if from < k {
        lemma_first_point(s, from + 1, k);
    }
}

proof fn lemma_digits(b: Seq<u8>, p: nat, e: nat, w: Seq<char>, lo: int, hi: int)
    requires
        p <= e <= b.len(),
        w == letters(b, p, e),
        0 <= lo < hi <= w.len(),
        forall|i: int| p + lo <= i < p + hi ==> lexer::is_digit(#[trigger] b[i]),
    ensures
        decimal::all_digits(w.subrange(lo, hi)),
{
    let v = w.subrange(lo, hi);
    assert forall|i: int| 0 <= i < v.len() implies text::is_digit(#[trigger] v[i]) by {
        assert(lexer::is_digit(b[p + lo + i]));
        assert(v[i] == b[p + lo + i] as char);
    }
}

proof fn lemma_numeral(b: Seq<u8>, p: nat)
    requires
        p < b.len(),
        lexer::is_digit(b[p as int]),
    ensures
        decimal::decimal_value(
            text::text_of(b, p as int, lexer::number_end(b, p) as int),
        ) is Some,
{
    lemma_digit_bytes(b, p);
    let m = lexer::digits_end(b, p);
    let e = lexer::number_end(b, p);
    if e != m {
        lemma_digit_bytes(b, m + 1);
    }
    assert forall|i: int| p <= i < e implies lexer::is_ident_byte(#[trigger] b[i]) || b[i]
        == lexer::DOT by {
        if i < m {
            assert(lexer::is_digit(b[i]));
        } else if i > m {
            assert(lexer::is_digit(b[i]));
        }
    }
    lemma_letters(b, p, e);
    let w = letters(b, p, e);
    let k = (m - p) as nat;
    assert forall|i: int| 0 <= i < k implies #[trigger] w[i] != '.' by {
        assert(lexer::is_digit(b[p + i]));
    }
    lemma_first_point(w, 0, k);
    lemma_digits(b, p, e, w, 0, k as int);
    if e != m {
        lemma_digits(b, p, e, w, k as int + 1, w.len() as int);
    }
}

proof fn lemma_pair(b: Seq<u8>, p: nat, x: u8, y: u8)
    ensures
        lexer::find_pair(b, p, x, y) matches Some(e) ==> {
            &&& p <= e && e + 1 < b.len()
            &&& b[e as int] == x && b[e as int + 1] == y
            &&& forall|j: int| p <= j < e ==> !(#[trigger] b[j] == x && b[j + 1] == y)
        },
    decreases b.len() - p,
{
    if p + 1 < b.len() {
        lemma_pair(b, p + 1, x, y);
    }
}

/// A text before the first pair of marks holds no such pair.
proof fn lemma_between(b: Seq<u8>, lo: nat, e: nat, x: u8, y: u8)
    requires
        valid_utf8(b),
        lo >= 1,
        b[lo - 1] < 128,
        x < 128,
        y < 128,
        lexer::find_pair(b, lo, x, y) == Some(e),
    ensures
        lo <= e && e + 1 < b.len(),
        b[e as int] == x,
        b[e as int + 1] == y,
        ({
            let c = text::text_of(b, lo as int, e as int);
            &&& encode_utf8(c) == b.subrange(lo as int, e as int)
            &&& forall|i: int|
                0 <= i < c.len() - 1 ==> !(#[trigger] c[i] as int == x as int && c[i + 1] as int
                    == y as int)
        }),
{
    lemma_pair(b, lo, x, y);
    text::lemma_ascii_boundary(b, lo - 1);
    text::lemma_ascii_boundary(b, e as int);
    let s = b.subrange(lo as int, e as int);
    lemma_slice(b, lo, e);
    let c = text::text_of(b, lo as int, e as int);
    assert forall|i: int| 0 <= i < c.len() - 1 implies !(#[trigger] c[i] as int == x as int && c[i
        + 1] as int == y as int) by {
        if c[i] as int == x as int && c[i + 1] as int == y as int {
            let p = seq![c[i], c[i + 1]];
            let (a, z) = (c.take(i), c.skip(i + 2));
            assert(c =~= a + (p + z));
            lexing::lemma_encode_add(a, p + z);
            lexing::lemma_encode_add(p, z);
            assert(words::plain(p[0]) && words::plain(p[1]));
            words::lemma_plain(p);
            let k = encode_utf8(a).len();
            assert(s[k as int] == encode_utf8(p)[0] && s[k as int + 1] == encode_utf8(p)[1]);
            assert(b[lo as int + k as int] == s[k as int] && b[lo as int + k as int + 1] == s[k as int + 1]);
        }
    }
}

/// The text between two places at which characters start is encoded there.
proof fn lemma_slice(b: Seq<u8>, lo: nat, hi: nat)
    requires
        valid_utf8(b),
        lo <= hi <= b.len(),
        is_char_boundary(b, lo as int),
        is_char_boundary(b, hi as int),
    ensures
        encode_utf8(text::text_of(b, lo as int, hi as int)) == b.subrange(lo as int, hi as int),
{
    valid_utf8_split(b, lo as int);
    text::lemma_boundary_in_tail(b, lo as int, hi as int);
    let tail = b.subrange(lo as int, b.len() as int);
    valid_utf8_split(tail, hi - lo);
    let s = b.subrange(lo as int, hi as int);
    assert(tail.subrange(0, hi - lo) =~= s);
    decode_utf8_encode_utf8(s);
}

proof fn lemma_embedded(b: Seq<u8>, p: nat, e: nat)
    requires
        valid_utf8(b),
        p + 1 < b.len(),
        b[p as int + 1] == lexer::LEFT_BRACE,
        lexer::find_pair(b, p + 2, lexer::RIGHT_BRACE, lexer::LETTER_C) == Some(e),
    ensures
        readback::can_embed(text::text_of(b, p as int + 2, e as int)),
{
    reveal(readback::can_embed);
    lemma_between(b, p + 2, e, lexer::RIGHT_BRACE, lexer::LETTER_C);
    let c = text::text_of(b, p as int + 2, e as int);
    assert forall|i: int| 0 <= i < c.len() - 1 implies !(#[trigger] c[i] == '}' && c[i + 1]
        == 'C') by {
        assert(!(c[i] as int == lexer::RIGHT_BRACE as int && c[i + 1] as int
            == lexer::LETTER_C as int));
    }
}

proof fn lemma_line_bytes(b: Seq<u8>, p: nat)
    requires
        p <= b.len(),
    ensures
        p <= ast::line_end(b, p) <= b.len(),
        forall|i: int| p <= i < ast::line_end(b, p) ==> #[trigger] b[i] != ast::NEWLINE,
        ast::line_end(b, p) < b.len() ==> b[ast::line_end(b, p) as int] == ast::NEWLINE,
    decreases b.len() - p,
{
    if p < b.len() && b[p as int] != ast::NEWLINE {
        lemma_line_bytes(b, p + 1);
    }
}

proof fn lemma_line_comment(b: Seq<u8>, p: nat)
    requires
        valid_utf8(b),
        p < b.len(),
        b[p as int] == lexer::HASH || (b[p as int] == lexer::SLASH && p + 1 < b.len() && b[p as int
            + 1] == lexer::SLASH),
    ensures
        remarks::is_remark(text::text_of(b, p as int, ast::line_end(b, p) as int)),
{
    lemma_line_bytes(b, p);
    let e = ast::line_end(b, p);
    text::lemma_ascii_boundary(b, p as int);
    if e < b.len() {
        text::lemma_ascii_boundary(b, e as int);
    } else {
        is_char_boundary_start_end_of_seq(b);
    }
    lemma_slice(b, p, e);
    let s = b.subrange(p as int, e as int);
    let t = text::text_of(b, p as int, e as int);
    assert(p < e) by {
        assert(b[p as int] != ast::NEWLINE);
    }
    assert(s.len() > 0);
    if t.len() == 0 {
        assert(encode_utf8(t) =~= seq![]);
    }
    words::lemma_first(t);
    assert(s[0] == b[p as int]);
    lemma_ascii_start(t);
    if b[p as int] == lexer::SLASH {
        assert(b[p as int + 1] != ast::NEWLINE);
        assert(p + 1 < e);
        assert(s[1] == b[p as int + 1]);
        let r = t.drop_first();
        let one = seq![t[0]];
        assert(t =~= one + r);
        lexing::lemma_encode_add(one, r);
        words::lemma_plain(one);
        if r.len() == 0 {
            assert(encode_utf8(r) =~= seq![]);
        }
        lemma_ascii_start(r);
        assert(encode_utf8(r)[0] == s[1]);
        assert(t[1] == r[0]);
    }
    if t.contains('\n') {
        let i = choose|i: int| 0 <= i < t.len() && t[i] == '\n';
        let x = seq!['\n'];
        let (a, z) = (t.take(i), t.skip(i + 1));
        assert(t =~= a + (x + z));
        lexing::lemma_encode_add(a, x + z);
        lexing::lemma_encode_add(x, z);
        words::lemma_plain(x);
        let k = encode_utf8(a).len();
        assert(s[k as int] == encode_utf8(x)[0]);
        assert(b[p as int + k as int] == s[k as int]);
    }
}

/// Where the first byte is a character by itself, it is the first character.
proof fn lemma_ascii_start(t: Seq<char>)
    requires
        t.len() > 0,
        encode_utf8(t)[0] < 128,
    ensures
        t[0] as int == encode_utf8(t)[0] as int,
        words::plain(t[0]),
{
    words::lemma_first(t);
}

proof fn lemma_block_comment(b: Seq<u8>, p: nat, e: nat)
    requires
        valid_utf8(b),
        p + 1 < b.len(),
        b[p as int] == lexer::SLASH,
        b[p as int + 1] == lexer::STAR,
        lexer::find_pair(b, p + 2, lexer::STAR, lexer::SLASH) == Some(e),
    ensures
        remarks::is_remark(text::text_of(b, p as int, e as int + 2)),
{
    lemma_between(b, p + 2, e, lexer::STAR, lexer::SLASH);
    let c = text::text_of(b, p as int + 2, e as int);
    let open = seq!['/', '*'];
    let close = seq!['*', '/'];
    let t = open + (c + close);
    words::lemma_plain(open);
    words::lemma_plain(close);
    lexing::lemma_encode_add(open, c + close);
    lexing::lemma_encode_add(c, close);
    assert(encode_utf8(t) =~= b.subrange(p as int, e as int + 2));
    encode_utf8_decode_utf8(t);
    let n = t.len() as int;
    assert forall|i: int| 2 <= i < n - 3 implies !(#[trigger] t[i] == '*' && t[i + 1] == '/') by {
        assert(t[i] == c[i - 2] && t[i + 1] == c[i - 1]);
        assert(!(c[i - 2] as int == lexer::STAR as int && c[i - 2 + 1] as int
            == lexer::SLASH as int));
    }
    assert(remarks::is_block_remark(t));
}

proof fn lemma_comment(b: Seq<u8>, p: nat)
    requires
        valid_utf8(b),
    ensures
        lexer::item_at(b, p) matches ItemV::Comment(n) ==> remarks::is_remark(
            text::text_of(b, p as int, n as int),
        ),
{
    if p < b.len() {
        let c = b[p as int];
        if c == lexer::HASH || (c == lexer::SLASH && p + 1 < b.len() && b[p as int + 1]
            == lexer::SLASH) {
            lemma_line_comment(b, p);
        } else if c == lexer::SLASH && p + 1 < b.len() && b[p as int + 1] == lexer::STAR {
            match lexer::find_pair(b, p + 2, lexer::STAR, lexer::SLASH) {
                Some(e) => lemma_block_comment(b, p, e),
                None => {},
            }
        }
    }
}

proof fn lemma_item(b: Seq<u8>, p: nat)
    requires
        valid_utf8(b),
    ensures
        lexer::item_at(b, p) matches ItemV::Token(_, t) ==> sound(t),
{
    if p < b.len() {
        let c = b[p as int];
        if p + 1 < b.len() && c == lexer::LETTER_C && b[p as int + 1] == lexer::LEFT_BRACE {
            match lexer::find_pair(b, p + 2, lexer::RIGHT_BRACE, lexer::LETTER_C) {
                Some(e) => lemma_embedded(b, p, e),
                None => {},
            }
        }
        if lexer::is_letter(c) || c == lexer::UNDERSCORE {
            lemma_ident(b, p);
        }
        if lexer::is_digit(c) {
            lemma_numeral(b, p);
        }
    }
}

proof fn lemma_lexed(b: Seq<u8>, file: u32, p: nat, prev: Option<nat>, done: LexedV)
    requires
        valid_utf8(b),
        p <= b.len(),
        all_sound(done.tokens),
        all_remarks(done.comments),
    ensures
        lexer::lex_from(b, file, p, prev, done) matches Ok(l) ==> all_sound(l.tokens)
            && all_remarks(l.comments),
    decreases b.len() - p,
{
    match lexer::item_at(b, p) {
        ItemV::Space(n) => if p < n <= b.len() {
            lemma_lexed(b, file, n, prev, done);
        },
        ItemV::Comment(n) => if p < n <= b.len() {
            let more = lexer::RawCommentV {
                text: text::text_of(b, p as int, n as int),
                span: lexer::span_of(file, p, n),
                standalone: match prev {
                    Some(e) => lexer::newline_between(b, e, p),
                    None => true,
                },
            };
            lemma_comment(b, p);
            let next = LexedV { comments: done.comments.push(more), ..done };
            lemma_lexed(b, file, n, prev, next);
        },
        ItemV::Token(n, t) => if p < n <= b.len() {
            lemma_item(b, p);
            let more = TokenV { tok: t, span: lexer::span_of(file, p, n) };
            let next = LexedV { tokens: done.tokens.push(more), ..done };
            lemma_lexed(b, file, n, Some(n), next);
        },
        _ => {},
    }
}

// ───────────────────────── expressions ─────────────────────────

/// Whether all tokens can be read and written.
spec fn good(inp: InputV) -> bool {
    all_sound(inp.toks) && all_writable(inp.toks) && all_remarks(inp.comments)
}

proof fn lemma_tok(inp: InputV, at: PlaceV)
    requires
        good(inp),
    ensures
        sound(grammar::tok(inp, at)),
        writable(grammar::tok(inp, at)),
{
}

/// Whether a comment is not read where it is printed: it is one comment, or it
/// stands at the left margin and is made of some.
pub open spec fn fine_comment(c: CommentV) -> bool {
    remarks::is_remark(c.text) || (c.unindented && remarks::is_joined(c.text))
}

/// Whether that holds of all comments.
pub open spec fn fine_block(cs: Seq<CommentV>) -> bool {
    forall|i: int| 0 <= i < cs.len() ==> fine_comment(#[trigger] cs[i])
}

/// Whether that holds of the comments of a node.
pub open spec fn fine_node(n: NodeCommentsV) -> bool {
    &&& fine_block(n.leading)
    &&& fine_block(n.after)
    &&& n.trailing matches Some(t) ==> remarks::is_joined(t)
}

/// Whether that holds of all comments of a program.
#[verifier::opaque]
pub open spec fn kept(m: CommentMapV) -> bool {
    forall|k: u64| #[trigger] m.contains_key(k) ==> fine_node(m[k])
}

proof fn lemma_no_comments()
    ensures
        kept(CommentMapV::empty()),
{
    reveal(kept);
}

proof fn lemma_before(cs: Seq<RawCommentV>, i: nat, lo: u32)
    ensures
        i <= lexer::comments_before(cs, i, lo),
        i <= cs.len() ==> lexer::comments_before(cs, i, lo) <= cs.len(),
    decreases cs.len() - i,
{
    if i < cs.len() && cs[i as int].span.lo < lo {
        lemma_before(cs, i + 1, lo);
    }
}

proof fn lemma_inline_end(d: Seq<RawCommentV>, i: nat)
    requires
        i <= d.len(),
    ensures
        i <= grammar::inline_end(d, i) <= d.len(),
    decreases d.len() - i,
{
    if i < d.len() && !d[i as int].standalone {
        lemma_inline_end(d, i + 1);
    }
}

proof fn lemma_route(out: CommentMapV, d: Seq<RawCommentV>, prev: Option<Span>, follow: Option<Span>)
    requires
        kept(out),
        all_remarks(d),
    ensures
        kept(grammar::route(out, d, prev, follow).0),
        fine_block(grammar::route(out, d, prev, follow).1),
{
    reveal(kept);
    lemma_inline_end(d, 0);
    let k = if prev is Some {
        grammar::inline_end(d, 0)
    } else {
        0
    };
    let ts = grammar::comment_texts(d, k);
    if k > 0 {
        assert forall|i: int| 0 <= i < ts.len() implies remarks::is_remark(#[trigger] ts[i]) by {
            assert(ts[i] == d[i].text);
        }
        assert(remarks::joins(ts, text::join(ts, "\n"@)));
    }
    let lead = grammar::leading_from(d, k);
    assert forall|i: int| 0 <= i < lead.len() implies fine_comment(#[trigger] lead[i]) by {
        assert(lead[i].text == d[k + i].text);
    }
}

/// Whether the comments before a place are handed out, and as they should be.
spec fn fit(inp: InputV, at: PlaceV) -> bool {
    kept(at.out) && at.cidx <= inp.comments.len()
}

proof fn lemma_gap(inp: InputV, at: PlaceV, prev: Option<Span>, lo: u32, follow: Option<Span>)
    requires
        good(inp),
        fit(inp, at),
    ensures
        fit(inp, grammar::gap(inp, at, prev, lo, follow).0),
        fine_block(grammar::gap(inp, at, prev, lo, follow).1),
{
    reveal(grammar::gap);
    lemma_before(inp.comments, at.cidx, lo);
    let e = lexer::comments_before(inp.comments, at.cidx, lo);
    let d = inp.comments.subrange(at.cidx as int, e as int);
    assert(all_remarks(d)) by {
        assert forall|i: int| 0 <= i < d.len() implies remarks::is_remark(
            (#[trigger] d[i]).text,
        ) by {
            assert(d[i] == inp.comments[at.cidx + i]);
        }
    }
    lemma_route(at.out, d, prev, follow);
}

proof fn lemma_gap_before(inp: InputV, at: PlaceV, prev: Option<Span>)
    requires
        good(inp),
        fit(inp, at),
    ensures
        fit(inp, grammar::gap_before(inp, at, prev)),
{
    reveal(grammar::gap_before);
    let h = grammar::here(inp, at);
    lemma_gap(inp, at, prev, h.lo, Some(h));
}

proof fn lemma_finish_gap(inp: InputV, at: PlaceV, prev: Option<Span>, lo: u32)
    requires
        good(inp),
        fit(inp, at),
    ensures
        fit(inp, grammar::finish_gap(inp, at, prev, lo)),
{
    reveal(grammar::finish_gap);
    lemma_gap(inp, at, prev, lo, None);
    reveal(kept);
}

spec fn good_expr(inp: InputV, r: Parse<ExprV>) -> bool {
    r matches Parse::Read(e, z) ==> fit(inp, z) && readback::can_expr(e)
}

spec fn good_args(inp: InputV, r: Parse<Seq<ArgV>>) -> bool {
    r matches Parse::Read(s, z) ==> fit(inp, z) && readback::can_args(s)
}

spec fn good_exprs(inp: InputV, r: Parse<Seq<ExprV>>) -> bool {
    r matches Parse::Read(s, z) ==> fit(inp, z) && readback::can_exprs(s)
}

proof fn lemma_dotted_rest(inp: InputV, at: PlaceV, parts: Seq<Seq<char>>)
    requires
        good(inp),
        fit(inp, at),
        readback::is_dotted(parts),
    ensures
        grammar::p_dotted_rest(inp, at, parts) matches Parse::Read(r, z) ==> fit(inp, z) && readback::is_dotted(r)
            && r[0] == parts[0],
    decreases grammar::left(inp, at),
{
    reveal_with_fuel(grammar::p_dotted_rest, 2);
    if grammar::tok(inp, at) is Dot {
        lemma_tok(inp, grammar::next(at));
        match grammar::p_ident(inp, grammar::next(at)) {
            Parse::Read(n, s) => if grammar::moved(inp, at, s) {
                lemma_dotted_rest(inp, s, parts.push(n));
            },
            _ => {},
        }
    }
}

proof fn lemma_dotted(inp: InputV, at: PlaceV)
    requires
        good(inp),
        fit(inp, at),
    ensures
        grammar::p_dotted(inp, at) matches Parse::Read(r, z) ==> fit(inp, z) && readback::is_dotted(r)
            && grammar::tok(inp, at) == TokV::Ident(r[0]),
{
    reveal(grammar::p_dotted);
    lemma_tok(inp, at);
    match grammar::p_ident(inp, at) {
        Parse::Read(n, s) => lemma_dotted_rest(inp, s, seq![n]),
        _ => {},
    }
}

proof fn lemma_reduced(n: nat, k: nat)
    ensures
        decimal::reduce(n, k).lowest(),
    decreases k,
{
    if k > 0 && n % 10 == 0 {
        lemma_reduced(n / 10, (k - 1) as nat);
    }
}

proof fn lemma_time(n: Seq<char>, u: Seq<char>)
    requires
        writable(TokV::Duration(n, u)),
    ensures
        grammar::duration_token(n, u) matches Ok(e) ==> readback::can_expr(e),
{
    match decimal::decimal_value(n) {
        Some(d) => {
            lemma_reduced(d.num, d.scale + 3);
            lemma_reduced(d.num * 1, d.scale);
            lemma_reduced(d.num * 60, d.scale);
            lemma_reduced(d.num * 3600, d.scale);
            lemma_reduced(d.num * 86400, d.scale);
            lemma_reduced(d.num * 604800, d.scale);
            lemma_reduced(d.num * 31557600, d.scale);
        },
        None => {},
    }
}

proof fn lemma_expr(inp: InputV, at: PlaceV)
    requires
        good(inp),
        fit(inp, at),
    ensures
        good_expr(inp, grammar::p_expr(inp, at)),
    decreases grammar::left(inp, at), 8nat,
{
    lemma_or(inp, at);
}

proof fn lemma_or(inp: InputV, at: PlaceV)
    requires
        good(inp),
        fit(inp, at),
    ensures
        good_expr(inp, grammar::p_or(inp, at)),
    decreases grammar::left(inp, at), 7nat,
{
    lemma_and(inp, at);
    match grammar::p_and(inp, at) {
        Parse::Read(l, s) => if grammar::moved(inp, at, s) {
            lemma_or_rest(inp, s, l);
        },
        _ => {},
    }
}

proof fn lemma_or_rest(inp: InputV, at: PlaceV, l: ExprV)
    requires
        good(inp),
        fit(inp, at),
        readback::can_expr(l),
    ensures
        good_expr(inp, grammar::p_or_rest(inp, at, l)),
    decreases grammar::left(inp, at), 7nat,
{
    if grammar::tok(inp, at) is OrOr {
        lemma_and(inp, grammar::next(at));
        match grammar::p_and(inp, grammar::next(at)) {
            Parse::Read(r, s) => if grammar::moved(inp, at, s) {
                lemma_or_rest(inp, s, grammar::binary(ast::BinOp::Or, l, r));
            },
            _ => {},
        }
    }
}

proof fn lemma_and(inp: InputV, at: PlaceV)
    requires
        good(inp),
        fit(inp, at),
    ensures
        good_expr(inp, grammar::p_and(inp, at)),
    decreases grammar::left(inp, at), 6nat,
{
    lemma_cmp(inp, at);
    match grammar::p_cmp(inp, at) {
        Parse::Read(l, s) => if grammar::moved(inp, at, s) {
            lemma_and_rest(inp, s, l);
        },
        _ => {},
    }
}

proof fn lemma_and_rest(inp: InputV, at: PlaceV, l: ExprV)
    requires
        good(inp),
        fit(inp, at),
        readback::can_expr(l),
    ensures
        good_expr(inp, grammar::p_and_rest(inp, at, l)),
    decreases grammar::left(inp, at), 6nat,
{
    if grammar::tok(inp, at) is AndAnd {
        lemma_cmp(inp, grammar::next(at));
        match grammar::p_cmp(inp, grammar::next(at)) {
            Parse::Read(r, s) => if grammar::moved(inp, at, s) {
                lemma_and_rest(inp, s, grammar::binary(ast::BinOp::And, l, r));
            },
            _ => {},
        }
    }
}

proof fn lemma_cmp(inp: InputV, at: PlaceV)
    requires
        good(inp),
        fit(inp, at),
    ensures
        good_expr(inp, grammar::p_cmp(inp, at)),
    decreases grammar::left(inp, at), 5nat,
{
    lemma_add(inp, at);
    match grammar::p_add(inp, at) {
        Parse::Read(l, s) => if grammar::comparison(grammar::tok(inp, s)) is Some && grammar::moved(
            inp,
            at,
            grammar::next(s),
        ) {
            lemma_add(inp, grammar::next(s));
        },
        _ => {},
    }
}

proof fn lemma_add(inp: InputV, at: PlaceV)
    requires
        good(inp),
        fit(inp, at),
    ensures
        good_expr(inp, grammar::p_add(inp, at)),
    decreases grammar::left(inp, at), 4nat,
{
    lemma_mul(inp, at);
    match grammar::p_mul(inp, at) {
        Parse::Read(l, s) => if grammar::moved(inp, at, s) {
            lemma_add_rest(inp, s, l);
        },
        _ => {},
    }
}

proof fn lemma_add_rest(inp: InputV, at: PlaceV, l: ExprV)
    requires
        good(inp),
        fit(inp, at),
        readback::can_expr(l),
    ensures
        good_expr(inp, grammar::p_add_rest(inp, at, l)),
    decreases grammar::left(inp, at), 4nat,
{
    if grammar::sum_op(grammar::tok(inp, at)) is Some {
        lemma_mul(inp, grammar::next(at));
        match grammar::p_mul(inp, grammar::next(at)) {
            Parse::Read(r, s) => if grammar::moved(inp, at, s) {
                lemma_add_rest(inp, s, grammar::binary(grammar::sum_op(grammar::tok(inp, at))->0, l, r));
            },
            _ => {},
        }
    }
}

proof fn lemma_mul(inp: InputV, at: PlaceV)
    requires
        good(inp),
        fit(inp, at),
    ensures
        good_expr(inp, grammar::p_mul(inp, at)),
    decreases grammar::left(inp, at), 3nat,
{
    lemma_unary(inp, at);
    match grammar::p_unary(inp, at) {
        Parse::Read(l, s) => if grammar::moved(inp, at, s) {
            lemma_mul_rest(inp, s, l);
        },
        _ => {},
    }
}

proof fn lemma_mul_rest(inp: InputV, at: PlaceV, l: ExprV)
    requires
        good(inp),
        fit(inp, at),
        readback::can_expr(l),
    ensures
        good_expr(inp, grammar::p_mul_rest(inp, at, l)),
    decreases grammar::left(inp, at), 3nat,
{
    if grammar::product_op(grammar::tok(inp, at)) is Some {
        lemma_unary(inp, grammar::next(at));
        match grammar::p_unary(inp, grammar::next(at)) {
            Parse::Read(r, s) => if grammar::moved(inp, at, s) {
                lemma_mul_rest(inp, s, grammar::binary(grammar::product_op(grammar::tok(inp, at))->0, l, r));
            },
            _ => {},
        }
    }
}

proof fn lemma_unary(inp: InputV, at: PlaceV)
    requires
        good(inp),
        fit(inp, at),
    ensures
        good_expr(inp, grammar::p_unary(inp, at)),
    decreases grammar::left(inp, at), 2nat,
{
    if grammar::unary_op(grammar::tok(inp, at)) is Some {
        lemma_unary(inp, grammar::next(at));
    } else {
        lemma_primary(inp, at);
    }
}

proof fn lemma_primary(inp: InputV, at: PlaceV)
    requires
        good(inp),
        fit(inp, at),
    ensures
        good_expr(inp, grammar::p_primary(inp, at)),
    decreases grammar::left(inp, at), 1nat,
{
    lemma_tok(inp, at);
    match grammar::tok(inp, at) {
        TokV::Duration(n, u) => lemma_time(n, u),
        TokV::LParen => lemma_expr(inp, grammar::next(at)),
        TokV::Ident(n) => {
            lemma_dotted(inp, at);
            match grammar::p_dotted(inp, at) {
                Parse::Read(parts, s) => if grammar::tok(inp, s) is LParen && grammar::moved(
                    inp,
                    at,
                    s,
                ) {
                    lemma_call_args(inp, s);
                },
                _ => {},
            }
        },
        _ => {},
    }
}

proof fn lemma_call_args(inp: InputV, at: PlaceV)
    requires
        good(inp),
        fit(inp, at),
    ensures
        good_args(inp, grammar::p_call_args(inp, at)),
    decreases grammar::left(inp, at), 12nat,
{
    match grammar::p_expect(inp, at, TokV::LParen) {
        Parse::Read(_, s) => if !(grammar::tok(inp, s) is RParen) {
            lemma_arg_list(inp, s, None, seq![]);
        },
        _ => {},
    }
}

#[verifier::spinoff_prover]
#[verifier::rlimit(60)]
proof fn lemma_arg_list(inp: InputV, at: PlaceV, prev: Option<Span>, done: Seq<ArgV>)
    requires
        good(inp),
        fit(inp, at),
        readback::can_args(done),
    ensures
        good_args(inp, grammar::p_arg_list(inp, at, prev, done)),
    decreases grammar::left(inp, at), 11nat,
{
    let g = grammar::gap_before(inp, at, prev);
    parsing::lemma_gap_before(inp, at, prev);
    lemma_gap_before(inp, at, prev);
    lemma_arg(inp, g);
    match grammar::p_arg(inp, g) {
        Parse::Read(a, s) => {
            assert(readback::can_args(done.push(a)));
            lemma_finish_gap(inp, s, Some(a.span), grammar::here(inp, s).lo);
            if grammar::tok(inp, s) is Comma && grammar::moved(inp, at, grammar::next(s)) {
                lemma_arg_list(inp, grammar::next(s), Some(a.span), done.push(a));
            }
        },
        _ => {},
    }
}

proof fn lemma_arg(inp: InputV, at: PlaceV)
    requires
        good(inp),
        fit(inp, at),
    ensures
        grammar::p_arg(inp, at) matches Parse::Read(a, z) ==> fit(inp, z) && readback::can_arg(a),
    decreases grammar::left(inp, at), 10nat,
{
    lemma_tok(inp, at);
    let named = grammar::tok(inp, at) is Ident && grammar::tok_at(inp, at, 1) is Eq && !(
    grammar::tok_at(inp, at, 2) is EqEq);
    if named {
        lemma_expr(inp, grammar::next(grammar::next(at)));
    } else {
        lemma_expr(inp, at);
    }
}

proof fn lemma_expr_list(inp: InputV, at: PlaceV, done: Seq<ExprV>)
    requires
        good(inp),
        fit(inp, at),
        readback::can_exprs(done),
    ensures
        good_exprs(inp, grammar::p_expr_list(inp, at, done)),
    decreases grammar::left(inp, at), 9nat,
{
    lemma_expr(inp, at);
    match grammar::p_expr(inp, at) {
        Parse::Read(x, s) => {
            assert(readback::can_exprs(done.push(x)));
            if grammar::tok(inp, s) is Comma && grammar::moved(inp, at, grammar::next(s)) {
                lemma_expr_list(inp, grammar::next(s), done.push(x));
            }
        },
        _ => {},
    }
}

// ───────────────────────── statements ─────────────────────────

/// Whether a token goes on with an `if`.
spec fn continues(t: TokV) -> bool {
    t == TokV::Ident("else"@) || t == TokV::Ident("elsif"@) || t == TokV::Ident("elseif"@)
}

/// Whether a statement can be written, and starts and ends where it should.
spec fn good_stmt(inp: InputV, at: PlaceV, r: Parse<StmtV>) -> bool {
    r matches Parse::Read(x, s) ==> {
        &&& fit(inp, s)
        &&& readback::can_stmt(x)
        &&& readback::goes_on_if(x) ==> continues(grammar::tok(inp, at))
        &&& readback::open_if(x) ==> !continues(grammar::tok(inp, s))
    }
}

spec fn good_stmts(inp: InputV, r: Parse<Seq<StmtV>>) -> bool {
    r matches Parse::Read(s, z) ==> fit(inp, z) && readback::can_stmts(s)
}

proof fn lemma_set(inp: InputV, at: PlaceV, start: Span)
    requires
        good(inp),
        fit(inp, at),
    ensures
        grammar::p_set(inp, at, start) matches Parse::Read(x, z) ==> fit(inp, z) && x is Assign
            && readback::can_stmt(x),
{
    reveal(grammar::p_set);
    lemma_dotted(inp, at);
    match grammar::p_dotted(inp, at) {
        Parse::Read(_, s) => match grammar::p_expect(inp, s, TokV::Eq) {
            Parse::Read(_, s2) => lemma_expr(inp, s2),
            _ => {},
        },
        _ => {},
    }
}

proof fn lemma_unset(inp: InputV, at: PlaceV, start: Span)
    requires
        good(inp),
        fit(inp, at),
    ensures
        grammar::p_unset(inp, at, start) matches Parse::Read(x, z) ==> fit(inp, z) && x is Unset
            && readback::can_stmt(x),
{
    reveal(grammar::p_unset);
    lemma_dotted(inp, at);
}

proof fn lemma_call(inp: InputV, at: PlaceV, start: Span)
    requires
        good(inp),
        fit(inp, at),
    ensures
        grammar::p_call(inp, at, start) matches Parse::Read(x, z) ==> fit(inp, z) && x is Call
            && readback::can_stmt(x),
{
    reveal(grammar::p_call);
    lemma_tok(inp, at);
}

proof fn lemma_action(inp: InputV, at: PlaceV)
    requires
        good(inp),
        fit(inp, at),
    ensures
        grammar::p_action(inp, at) matches Parse::Read(a, z) ==> fit(inp, z) && readback::is_name(a.name)
            && readback::can_exprs(a.args),
{
    reveal(grammar::p_action);
    reveal(grammar::p_action_args);
    lemma_tok(inp, at);
    match grammar::p_ident(inp, at) {
        Parse::Read(_, s) => lemma_expr_list(inp, grammar::next(s), seq![]),
        _ => {},
    }
}

proof fn lemma_return(inp: InputV, at: PlaceV, start: Span)
    requires
        good(inp),
        fit(inp, at),
    ensures
        grammar::p_return(inp, at, start) matches Parse::Read(x, z) ==> fit(inp, z) && x is Return
            && readback::can_stmt(x),
{
    reveal(grammar::p_return);
    lemma_action(inp, grammar::next(at));
}

proof fn lemma_condition(inp: InputV, at: PlaceV)
    requires
        good(inp),
        fit(inp, at),
    ensures
        good_expr(inp, grammar::p_condition(inp, at)),
{
    reveal(grammar::p_condition);
    match grammar::p_expect(inp, at, TokV::LParen) {
        Parse::Read(_, s) => lemma_expr(inp, s),
        _ => {},
    }
}

proof fn lemma_synthetic(inp: InputV, at: PlaceV, start: Span)
    requires
        good(inp),
        fit(inp, at),
    ensures
        grammar::p_synthetic(inp, at, start) matches Parse::Read(x, z) ==> fit(inp, z) && x is Synthetic
            && readback::can_stmt(x),
{
    reveal(grammar::p_synthetic);
    lemma_condition(inp, at);
}

proof fn lemma_new(inp: InputV, at: PlaceV, start: Span)
    requires
        good(inp),
        fit(inp, at),
    ensures
        grammar::p_new(inp, at, start) matches Parse::Read(x, z) ==> fit(inp, z) && x is New && readback::can_stmt(
            x,
        ),
{
    reveal(grammar::p_new);
    let s2 = grammar::next(grammar::next(at));
    let s4 = grammar::next(grammar::next(s2));
    lemma_tok(inp, at);
    lemma_tok(inp, s2);
    lemma_tok(inp, s4);
    lemma_call_args(inp, grammar::next(s4));
}

proof fn lemma_expr_stmt(inp: InputV, at: PlaceV, start: Span)
    requires
        good(inp),
        fit(inp, at),
        grammar::tok(inp, at) matches TokV::Ident(kw) && !readback::is_keyword(kw),
    ensures
        good_stmt(inp, at, grammar::p_expr_stmt(inp, at, start)),
{
    reveal(grammar::p_expr_stmt);
    lemma_dotted(inp, at);
    match grammar::p_dotted(inp, at) {
        Parse::Read(_, s) => lemma_call_args(inp, s),
        _ => {},
    }
}

proof fn lemma_block(inp: InputV, at: PlaceV, enclosing: Option<Span>)
    requires
        good(inp),
        fit(inp, at),
    ensures
        good_stmts(inp, grammar::p_block(inp, at, enclosing)),
    decreases grammar::left(inp, at), 22nat,
{
    match grammar::p_expect(inp, at, TokV::LBrace) {
        Parse::Read(_, s) => lemma_stmts(inp, s, enclosing, seq![]),
        _ => {},
    }
}

proof fn lemma_stmts(inp: InputV, at: PlaceV, prev: Option<Span>, done: Seq<StmtV>)
    requires
        good(inp),
        fit(inp, at),
        readback::can_stmts(done),
        done.len() > 0 && readback::open_if(done.last()) ==> !continues(grammar::tok(inp, at)),
    ensures
        good_stmts(inp, grammar::p_stmts(inp, at, prev, done)),
    decreases grammar::left(inp, at), 21nat,
{
    let g = grammar::gap_before(inp, at, prev);
    parsing::lemma_gap_before(inp, at, prev);
    lemma_gap_before(inp, at, prev);
    lemma_finish_gap(inp, grammar::next(at), prev, grammar::here(inp, at).lo);
    if !(grammar::tok(inp, at) is RBrace) && !(grammar::tok(inp, at) is Eof) {
        lemma_stmt(inp, g);
        match grammar::p_stmt(inp, g) {
            Parse::Read(x, s) => if grammar::moved(inp, at, s) {
                let more = done.push(x);
                assert forall|i: int| 0 < i < more.len() implies #[trigger] readback::ended_before(
                    more,
                    i,
                ) by {
                    if i < done.len() {
                        assert(readback::ended_before(done, i));
                    } else {
                        assert(grammar::tok(inp, g) == grammar::tok(inp, at));
                    }
                }
                assert(readback::can_stmts(more));
                lemma_stmts(inp, s, Some(ast::stmt_span(x)), more);
            },
            _ => {},
        }
    }
}

proof fn lemma_stmt(inp: InputV, at: PlaceV)
    requires
        good(inp),
        fit(inp, at),
    ensures
        good_stmt(inp, at, grammar::p_stmt(inp, at)),
    decreases grammar::left(inp, at), 20nat,
{
    lemma_tok(inp, at);
    let start = grammar::here(inp, at);
    let n = grammar::next(at);
    match grammar::tok(inp, at) {
        TokV::Ident(kw) => if kw == "set"@ {
            lemma_set(inp, n, start);
        } else if kw == "unset"@ {
            lemma_unset(inp, n, start);
        } else if kw == "call"@ {
            lemma_call(inp, n, start);
        } else if kw == "return"@ {
            lemma_return(inp, n, start);
        } else if kw == "synthetic"@ {
            lemma_synthetic(inp, n, start);
        } else if kw == "new"@ {
            lemma_new(inp, n, start);
        } else if kw == "if"@ {
            lemma_if(inp, n, start);
        } else {
            lemma_expr_stmt(inp, at, start);
        },
        _ => {},
    }
}

proof fn lemma_arm(inp: InputV, at: PlaceV)
    requires
        good(inp),
        fit(inp, at),
    ensures
        grammar::p_arm(inp, at) matches Parse::Read(a, z) ==> fit(inp, z) && readback::can_arm(a),
    decreases grammar::left(inp, at), 23nat,
{
    lemma_condition(inp, at);
    match grammar::p_condition(inp, at) {
        Parse::Read(_, s) => if grammar::moved(inp, at, s) {
            lemma_block(inp, s, None);
        },
        _ => {},
    }
}

/// Whether an `if` can be written and ends where it should.
spec fn good_if(inp: InputV, r: Parse<StmtV>) -> bool {
    r matches Parse::Read(x, s) ==> {
        &&& fit(inp, s)
        &&& x is If
        &&& readback::can_stmt(x)
        &&& readback::open_if(x) ==> !continues(grammar::tok(inp, s))
    }
}

proof fn lemma_if(inp: InputV, at: PlaceV, start: Span)
    requires
        good(inp),
        fit(inp, at),
    ensures
        good_if(inp, grammar::p_if(inp, at, start)),
    decreases grammar::left(inp, at), 24nat,
{
    lemma_arm(inp, at);
    match grammar::p_arm(inp, at) {
        Parse::Read(a, s) => if grammar::moved(inp, at, s) {
            assert(readback::can_arms(seq![a]));
            lemma_if_rest(inp, s, start, seq![a]);
        },
        _ => {},
    }
}

proof fn lemma_if_rest(inp: InputV, at: PlaceV, start: Span, arms: Seq<ArmV>)
    requires
        good(inp),
        fit(inp, at),
        arms.len() > 0,
        readback::can_arms(arms),
    ensures
        good_if(inp, grammar::p_if_rest(inp, at, start, arms)),
    decreases grammar::left(inp, at), 24nat,
{
    reveal(grammar::another_arm);
    match grammar::another_arm(inp, at) {
        Some(n) => {
            let from = PlaceV { pos: at.pos + n, ..at };
            lemma_arm(inp, from);
            match grammar::p_arm(inp, from) {
                Parse::Read(a, s) => if grammar::moved(inp, at, s) {
                    assert(readback::can_arms(arms.push(a)));
                    lemma_if_rest(inp, s, start, arms.push(a));
                },
                _ => {},
            }
        },
        None => if grammar::tok(inp, at) == TokV::Ident("else"@) {
            lemma_block(inp, grammar::next(at), None);
        },
    }
}

// ───────────────────────── declarations ─────────────────────────

spec fn good_fields(inp: InputV, r: Parse<Seq<FieldV>>) -> bool {
    r matches Parse::Read(s, z) ==> fit(inp, z) && readback::can_fields(s)
}

proof fn lemma_strings(inp: InputV, at: PlaceV, done: Seq<Seq<char>>)
    requires
        good(inp),
        fit(inp, at),
        forall|i: int| 0 <= i < done.len() ==> readback::can_quote(#[trigger] done[i]),
    ensures
        ({
            let l = grammar::p_strings(inp, at, done).0;
            &&& fit(inp, grammar::p_strings(inp, at, done).1)
            &&& l.len() >= done.len()
            &&& grammar::tok(inp, at) is Str ==> l.len() > done.len()
            &&& grammar::tok(inp, at) is Str && grammar::tok_at(inp, at, 1) is Str ==> l.len()
                >= done.len() + 2
            &&& forall|i: int| 0 <= i < l.len() ==> readback::can_quote(#[trigger] l[i])
        }),
    decreases grammar::left(inp, at),
{
    reveal_with_fuel(grammar::p_strings, 2);
    lemma_tok(inp, at);
    match grammar::tok(inp, at) {
        TokV::Str(s) => lemma_strings(inp, grammar::next(at), done.push(s)),
        _ => {},
    }
}

proof fn lemma_fields(inp: InputV, at: PlaceV, prev: Option<Span>, done: Seq<FieldV>)
    requires
        good(inp),
        fit(inp, at),
        readback::can_fields(done),
    ensures
        good_fields(inp, grammar::p_fields(inp, at, prev, done)),
    decreases grammar::left(inp, at), 31nat,
{
    let g = grammar::gap_before(inp, at, prev);
    parsing::lemma_gap_before(inp, at, prev);
    lemma_gap_before(inp, at, prev);
    lemma_finish_gap(inp, grammar::next(at), prev, grammar::here(inp, at).lo);
    if !(grammar::tok(inp, at) is RBrace) {
        lemma_field(inp, g);
        match grammar::p_field(inp, g) {
            Parse::Read(f, s) => if grammar::moved(inp, at, s) {
                assert(readback::can_fields(done.push(f)));
                lemma_fields(inp, s, Some(f.span), done.push(f));
            },
            _ => {},
        }
    }
}

proof fn lemma_field(inp: InputV, at: PlaceV)
    requires
        good(inp),
        fit(inp, at),
    ensures
        grammar::p_field(inp, at) matches Parse::Read(f, z) ==> fit(inp, z) && readback::can_field(f),
    decreases grammar::left(inp, at), 30nat,
{
    let s1 = grammar::next(at);
    let s3 = grammar::next(grammar::next(s1));
    lemma_tok(inp, s1);
    if grammar::moved(inp, at, s3) {
        lemma_field_value(inp, s3, grammar::here(inp, at));
    }
}

proof fn lemma_field_value(inp: InputV, at: PlaceV, start: Span)
    requires
        good(inp),
        fit(inp, at),
    ensures
        grammar::p_field_value(inp, at, start) matches Parse::Read(v, z) ==> fit(inp, z) && readback::can_value(v),
    decreases grammar::left(inp, at), 32nat,
{
    lemma_tok(inp, at);
    if grammar::tok(inp, at) is LBrace {
        lemma_fields(inp, grammar::next(at), Some(start), seq![]);
    } else {
        lemma_strings(inp, at, seq![]);
        lemma_expr(inp, at);
    }
}

proof fn lemma_acl_entries(inp: InputV, at: PlaceV, prev: Option<Span>, done: Seq<AclEntryV>)
    requires
        good(inp),
        fit(inp, at),
        forall|i: int| 0 <= i < done.len() ==> readback::can_quote((#[trigger] done[i]).addr),
    ensures
        grammar::p_acl_entries(inp, at, prev, done) matches Parse::Read(s, z) ==> fit(inp, z) && forall|i: int|
            0 <= i < s.len() ==> readback::can_quote((#[trigger] s[i]).addr),
    decreases grammar::left(inp, at),
{
    reveal_with_fuel(grammar::p_acl_entries, 2);
    reveal(grammar::p_acl_entry);
    reveal(grammar::p_mask);
    let g = grammar::gap_before(inp, at, prev);
    lemma_gap_before(inp, at, prev);
    lemma_finish_gap(inp, grammar::next(at), prev, grammar::here(inp, at).lo);
    lemma_tok(inp, g);
    lemma_tok(inp, grammar::next(g));
    if !(grammar::tok(inp, at) is RBrace) {
        match grammar::p_acl_entry(inp, g) {
            Parse::Read(x, s) => if grammar::moved(inp, at, s) {
                lemma_acl_entries(inp, s, Some(x.span), done.push(x));
            },
            _ => {},
        }
    }
}

proof fn lemma_import(inp: InputV, at: PlaceV, start: Span)
    requires
        good(inp),
        fit(inp, at),
    ensures
        grammar::p_import(inp, at, start) matches Parse::Read(d, z) ==> fit(inp, z) && readback::can_decl(d),
{
    reveal(grammar::p_import);
    lemma_tok(inp, at);
    lemma_tok(inp, grammar::next(grammar::next(at)));
}

proof fn lemma_field_block(inp: InputV, at: PlaceV, start: Span)
    requires
        good(inp),
        fit(inp, at),
    ensures
        good_fields(inp, grammar::p_field_block(inp, at, start)),
{
    reveal(grammar::p_field_block);
    lemma_fields(inp, grammar::next(at), Some(start), seq![]);
}

proof fn lemma_backend(inp: InputV, at: PlaceV, start: Span)
    requires
        good(inp),
        fit(inp, at),
    ensures
        grammar::p_backend(inp, at, start) matches Parse::Read(d, z) ==> fit(inp, z) && readback::can_decl(d),
{
    reveal(grammar::p_backend);
    lemma_tok(inp, at);
    lemma_field_block(inp, grammar::next(at), start);
}

proof fn lemma_probe(inp: InputV, at: PlaceV, start: Span)
    requires
        good(inp),
        fit(inp, at),
    ensures
        grammar::p_probe(inp, at, start) matches Parse::Read(d, z) ==> fit(inp, z) && readback::can_decl(d),
{
    reveal(grammar::p_probe);
    lemma_tok(inp, at);
    lemma_field_block(inp, grammar::next(at), start);
}

proof fn lemma_acl(inp: InputV, at: PlaceV, start: Span)
    requires
        good(inp),
        fit(inp, at),
    ensures
        grammar::p_acl(inp, at, start) matches Parse::Read(d, z) ==> fit(inp, z) && readback::can_decl(d),
{
    reveal(grammar::p_acl);
    lemma_tok(inp, at);
    lemma_acl_entries(inp, grammar::next(grammar::next(at)), Some(start), seq![]);
}

proof fn lemma_sub(inp: InputV, at: PlaceV, start: Span)
    requires
        good(inp),
        fit(inp, at),
    ensures
        grammar::p_sub(inp, at, start) matches Parse::Read(d, z) ==> fit(inp, z) && readback::can_decl(d),
{
    reveal(grammar::p_sub);
    lemma_tok(inp, at);
    lemma_block(inp, grammar::next(at), Some(start));
}

proof fn lemma_decl(inp: InputV, at: PlaceV)
    requires
        good(inp),
        fit(inp, at),
    ensures
        grammar::p_top_decl(inp, at) matches Parse::Read(d, z) ==> fit(inp, z) && readback::can_decl(d),
{
    reveal(grammar::p_top_decl);
    let start = grammar::here(inp, at);
    let n = grammar::next(at);
    lemma_import(inp, n, start);
    lemma_backend(inp, n, start);
    lemma_probe(inp, n, start);
    lemma_acl(inp, n, start);
    lemma_sub(inp, n, start);
}

proof fn lemma_decls(
    inp: InputV,
    at: PlaceV,
    version: Span,
    prev: Option<Span>,
    decls: Seq<DeclV>,
)
    requires
        good(inp),
        fit(inp, at),
        readback::can_decls(decls),
    ensures
        grammar::p_decls(inp, at, version, prev, decls) matches Ok(p) ==> readback::can_decls(
            p.decls,
        ) && kept(p.comments) && fine_block(p.trailing_comments),
    decreases grammar::left(inp, at),
{
    reveal_with_fuel(grammar::p_decls, 2);
    if grammar::tok(inp, at) is Eof {
        lemma_gap(inp, at, prev, grammar::here(inp, at).lo, None);
    } else if grammar::tok(inp, at) == TokV::Ident("vcl"@) {
        reveal(grammar::p_further_vcl);
        reveal(grammar::p_version);
        match grammar::p_further_vcl(inp, at) {
            Parse::Bad(_) => {},
            Parse::Read(_, s) => if grammar::moved(inp, at, s) {
                lemma_decls(inp, s, version, prev, decls);
            },
        }
    } else {
        let from = grammar::gap_before(inp, at, prev);
        lemma_gap_before(inp, at, prev);
        lemma_decl(inp, from);
        match grammar::p_top_decl(inp, from) {
            Parse::Bad(_) => {},
            Parse::Read(d, s) => if grammar::moved(inp, at, s) {
                let span = Some(ast::decl_span(d));
                lemma_decls(inp, s, version, span, decls.push(d));
            },
        }
    }
}

// ───────────────────────── paths ─────────────────────────

proof fn lemma_ascii_path(parts: Seq<Seq<char>>)
    requires
        readback::is_dotted(parts),
    ensures
        once::ascii_path(parts),
{
    assert forall|i: int| 0 <= i < parts.len() implies text::is_ascii_text(#[trigger] parts[i]) by {
        assert(readback::is_name(parts[i]));
        assert forall|j: int| 0 <= j < parts[i].len() implies (#[trigger] parts[i][j])
            < '\u{80}' by {
            assert(readback::in_name(parts[i][j]));
        }
    }
}

proof fn lemma_ascii_expr(e: ExprV)
    requires
        readback::can_expr(e),
    ensures
        once::ascii_expr(e),
    decreases e, 0nat,
{
    match e {
        ExprV::Var(parts) => lemma_ascii_path(parts),
        ExprV::Call { target, args } => {
            lemma_ascii_path(target);
            lemma_ascii_args(args);
        },
        ExprV::Unary { expr, .. } => lemma_ascii_expr(*expr),
        ExprV::Binary { lhs, rhs, .. } => {
            lemma_ascii_expr(*lhs);
            lemma_ascii_expr(*rhs);
        },
        _ => {},
    }
}

proof fn lemma_ascii_args(s: Seq<ArgV>)
    requires
        readback::can_args(s),
    ensures
        once::ascii_args(s),
    decreases s, 0nat,
{
    assert forall|i: int| 0 <= i < s.len() implies once::ascii_arg(#[trigger] s[i]) by {
        assert(readback::can_arg(s[i]));
        lemma_ascii_expr(s[i].value);
    }
}

proof fn lemma_ascii_stmt(s: StmtV)
    requires
        readback::can_stmt(s),
    ensures
        once::ascii_stmt(s),
    decreases s, 0nat,
{
    match s {
        StmtV::Assign { rhs, .. } => lemma_ascii_expr(rhs),
        StmtV::Return { action, .. } => match action {
            Some(a) => {
                assert forall|i: int| 0 <= i < a.args.len() implies once::ascii_expr(
                    #[trigger] a.args[i],
                ) by {
                    lemma_ascii_expr(a.args[i]);
                }
            },
            None => {},
        },
        StmtV::Synthetic { value, .. } => lemma_ascii_expr(value),
        StmtV::If { arms, else_body, .. } => {
            lemma_ascii_arms(arms);
            match else_body {
                Some(b) => lemma_ascii_stmts(b),
                None => {},
            }
        },
        StmtV::New { args, .. } => lemma_ascii_args(args),
        StmtV::Expr { expr, .. } => match expr {
            ExprV::Call { target, args } => {
                lemma_ascii_path(target);
                lemma_ascii_args(args);
            },
            _ => {},
        },
        _ => {},
    }
}

proof fn lemma_ascii_stmts(s: Seq<StmtV>)
    requires
        readback::can_stmts(s),
    ensures
        once::ascii_stmts(s),
    decreases s, 0nat,
{
    assert forall|i: int| 0 <= i < s.len() implies once::ascii_stmt(#[trigger] s[i]) by {
        lemma_ascii_stmt(s[i]);
    }
}

proof fn lemma_ascii_arms(s: Seq<ArmV>)
    requires
        readback::can_arms(s),
    ensures
        once::ascii_arms(s),
    decreases s, 0nat,
{
    assert forall|i: int| 0 <= i < s.len() implies once::ascii_arm(#[trigger] s[i]) by {
        assert(readback::can_arm(s[i]));
        lemma_ascii_expr(s[i].cond);
        lemma_ascii_stmts(s[i].body);
    }
}

proof fn lemma_ascii_fields(s: Seq<FieldV>)
    requires
        readback::can_fields(s),
    ensures
        once::ascii_fields(s),
    decreases s, 0nat,
{
    assert forall|i: int| 0 <= i < s.len() implies once::ascii_field(#[trigger] s[i]) by {
        assert(readback::can_field(s[i]) && readback::can_value(s[i].value));
        match s[i].value {
            FieldValueV::Expr(e) => lemma_ascii_expr(e),
            FieldValueV::Probe(fs) => lemma_ascii_fields(fs),
            _ => {},
        }
        assert(once::ascii_value(s[i].value));
    }
}

proof fn lemma_ascii_decl(d: DeclV)
    requires
        readback::can_decl(d),
    ensures
        once::ascii_decl(d),
{
    match d {
        DeclV::Backend { body, .. } => match body {
            Some(fs) => lemma_ascii_fields(fs),
            None => {},
        },
        DeclV::Probe { body, .. } => lemma_ascii_fields(body),
        DeclV::Sub { body, .. } => lemma_ascii_stmts(body),
        _ => {},
    }
}

// ───────────────────────── source texts ─────────────────────────

/// Whether a source text holds no string and no duration that cannot be written
/// as it is printed.
pub open spec fn plain_source(t: Seq<char>) -> bool {
    lexer::lex_alone(t) matches Ok(s) ==> all_writable(s.lexed.tokens)
}

/// Comments that are kept are not read where they are printed.
pub(crate) proof fn lemma_kept(m: CommentMapV, cs: Seq<CommentV>)
    requires
        kept(m),
        fine_block(cs),
    ensures
        lines::can_comments(m),
        lines::can_block(cs),
{
    reveal(kept);
    assert forall|span: Span| lines::can_node(#[trigger] ast::comments_at(m, span)) by {
        let n = ast::comments_at(m, span);
        lemma_fine(n.leading);
        lemma_fine(n.after);
        match n.trailing {
            Some(t) => remarks::law_trailing_remarks_are_not_read(t),
            None => {},
        }
    }
    lemma_fine(cs);
}

proof fn lemma_fine(cs: Seq<CommentV>)
    requires
        fine_block(cs),
    ensures
        lines::can_block(cs),
{
    assert forall|i: int| 0 <= i < cs.len() implies lines::can_comment(#[trigger] cs[i]) by {
        assert(fine_comment(cs[i]));
        if remarks::is_remark(cs[i].text) {
            remarks::law_lines_of_remarks_are_not_read(cs[i]);
        } else {
            remarks::law_joined_remarks_are_not_read(cs[i]);
        }
    }
}

/// All that is read from a source text can be written.
pub proof fn law_what_is_read_can_be_written(t: Seq<char>)
    requires
        plain_source(t),
    ensures
        parser::program_of(lexer::lex_alone(t)) matches Ok(p) ==> readback::can_program(p)
            && kept(p.comments) && fine_block(p.trailing_comments),
{
    let b = encode_utf8(t);
    encode_utf8_valid_utf8(t);
    lemma_lexed(b, 0, 0, None, lexer::nothing_lexed());
    match lexer::lex_alone(t) {
        Ok(s) => {
            let inp = statements::input(s.lexed);
            reveal(grammar::p_program);
            let start = PlaceV { pos: 0, cidx: 0, out: Map::empty() };
            reveal(grammar::p_vcl_decl);
            reveal(grammar::p_version);
            lemma_no_comments();
            match grammar::p_vcl_decl(inp, start) {
                Parse::Bad(_) => {},
                Parse::Read(version, at) => {
                    lemma_decls(inp, at, version, None, seq![]);
                    match grammar::p_decls(inp, at, version, None, seq![]) {
                        Ok(p) => lemma_kept(p.comments, p.trailing_comments),
                        Err(_) => {},
                    }
                },
            }
        },
        Err(_) => {},
    }
}

/// The paths that are read from a source text are ASCII texts.
pub proof fn law_paths_that_are_read_are_ascii(t: Seq<char>)
    requires
        plain_source(t),
    ensures
        parser::program_of(lexer::lex_alone(t)) matches Ok(p) ==> once::ascii_decls(p.decls),
{
    law_what_is_read_can_be_written(t);
    match parser::program_of(lexer::lex_alone(t)) {
        Ok(p) => {
            assert forall|i: int| 0 <= i < p.decls.len() implies once::ascii_decl(
                #[trigger] p.decls[i],
            ) by {
                lemma_ascii_decl(p.decls[i]);
            }
        },
        Err(_) => {},
    }
}

/// The program of a source text, printed with or without its comments, is read
/// back as the same program.
pub proof fn law_sources_are_read_back(t: Seq<char>)
    requires
        plain_source(t),
    ensures
        parser::program_of(lexer::lex_alone(t)) matches Ok(p) ==> {
            &&& parser::program_of(lexer::lex_alone(printer::program_text(p))) matches Ok(q)
                && layout::bare_program(q) == layout::bare_program(p)
            &&& parser::program_of(
                lexer::lex_alone(printer::program_text(pipeline::uncommented(p))),
            ) matches Ok(q) && layout::bare_program(q) == layout::bare_program(p)
        },
{
    law_what_is_read_can_be_written(t);
    match parser::program_of(lexer::lex_alone(t)) {
        Ok(p) => {
            let n = pipeline::uncommented(p);
            assert(readback::can_program(n));
            readback::law_printed_programs_are_read_back(p);
            readback::law_printed_programs_are_read_back(n);
        },
        Err(_) => {},
    }
}

/// The program of a source text, printed with or without its comments, has the
/// canonical form that it had.
pub proof fn law_sources_keep_their_form(
    t: Seq<char>,
    specs: Map<Seq<char>, VmodSpec>,
    rename: bool,
)
    requires
        plain_source(t),
    ensures
        parser::program_of(lexer::lex_alone(t)) matches Ok(p) ==> {
            &&& whole::form(
                parser::program_of(lexer::lex_alone(printer::program_text(p))),
                specs,
                rename,
            ) == whole::form(Ok(p), specs, rename)
            &&& whole::form(
                parser::program_of(
                    lexer::lex_alone(printer::program_text(pipeline::uncommented(p))),
                ),
                specs,
                rename,
            ) == whole::form(Ok(p), specs, rename)
        },
{
    law_sources_are_read_back(t);
    match parser::program_of(lexer::lex_alone(t)) {
        Ok(p) => {
            let n = pipeline::uncommented(p);
            let q = parser::program_of(lexer::lex_alone(printer::program_text(p)))->Ok_0;
            let r = parser::program_of(lexer::lex_alone(printer::program_text(n)))->Ok_0;
            whole::law_places_do_not_matter(q, p, specs, rename);
            whole::law_places_do_not_matter(r, p, specs, rename);
        },
        Err(_) => {},
    }
}

} // verus!
