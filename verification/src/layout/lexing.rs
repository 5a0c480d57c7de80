//! White space and comments separate tokens and are nothing else.

use crate::ast;
use crate::ast::NEWLINE;
use crate::layout::parsing;
use crate::lexer;
use crate::lexer::{ItemV, LexedV, TokV, TokenV, HASH, SLASH};
use crate::statements;
use crate::text;
use vstd::prelude::*;
use vstd::utf8::*;

verus! {

/// Tokens without their places.
pub open spec fn kinds(s: Seq<TokenV>) -> Seq<TokV> {
    Seq::new(s.len(), |i: int| s[i].tok)
}

/// The tokens from `p` on, or what is wrong with them.
pub open spec fn tokens_from(b: Seq<u8>, p: nat) -> core::result::Result<Seq<TokV>, Seq<char>>
    decreases b.len() - p,
{
    match lexer::item_at(b, p) {
        ItemV::End => Ok(seq![]),
        ItemV::Space(n) => if p < n <= b.len() {
            tokens_from(b, n)
        } else {
            Ok(seq![])
        },
        ItemV::Comment(n) => if p < n <= b.len() {
            tokens_from(b, n)
        } else {
            Ok(seq![])
        },
        ItemV::Token(n, t) => if p < n <= b.len() {
            joined(Ok(seq![t]), tokens_from(b, n))
        } else {
            Ok(seq![])
        },
        ItemV::Fault(_, m) => Err(m),
    }
}

/// Tokens and more tokens behind them, or the first that is wrong.
pub open spec fn joined(
    a: core::result::Result<Seq<TokV>, Seq<char>>,
    b: core::result::Result<Seq<TokV>, Seq<char>>,
) -> core::result::Result<Seq<TokV>, Seq<char>> {
    match (a, b) {
        (Ok(x), Ok(y)) => Ok(x + y),
        (Err(m), _) => Err(m),
        (_, Err(m)) => Err(m),
    }
}

/// The tokens of a text, or what is wrong with it.
#[verifier::opaque]
pub open spec fn tokens_of(t: Seq<char>) -> core::result::Result<Seq<TokV>, Seq<char>> {
    tokens_from(encode_utf8(t), 0)
}

proof fn lemma_lexed(b: Seq<u8>, file: u32, p: nat, prev: Option<nat>, done: LexedV)
    ensures
        match (lexer::lex_from(b, file, p, prev, done), tokens_from(b, p)) {
            (Ok(l), Ok(k)) => kinds(l.tokens) == kinds(done.tokens) + k,
            (Err(e), Err(m)) => e.msg == m,
            _ => false,
        },
    decreases b.len() - p,
{
    match lexer::item_at(b, p) {
        ItemV::Space(n) => if p < n <= b.len() {
            lemma_lexed(b, file, n, prev, done);
        },
        ItemV::Comment(n) => if p < n <= b.len() {
            let c = lexer::RawCommentV {
                text: text::text_of(b, p as int, n as int),
                span: lexer::span_of(file, p, n),
                standalone: match prev {
                    Some(e) => lexer::newline_between(b, e, p),
                    None => true,
                },
            };
            lemma_lexed(b, file, n, prev, LexedV { comments: done.comments.push(c), ..done });
        },
        ItemV::Token(n, t) => if p < n <= b.len() {
            let x = TokenV { tok: t, span: lexer::span_of(file, p, n) };
            lemma_lexed(b, file, n, Some(n), LexedV { tokens: done.tokens.push(x), ..done });
            assert(kinds(done.tokens.push(x)) =~= kinds(done.tokens).push(t));
            match tokens_from(b, n) {
                Ok(k) => {
                    assert(kinds(done.tokens).push(t) + k =~= kinds(done.tokens) + (seq![t] + k));
                },
                Err(_) => {},
            }
        },
        _ => {},
    }
    assert(kinds(done.tokens) + Seq::<TokV>::empty() =~= kinds(done.tokens));
}

/// The tokens of a file are the tokens of its text, whatever its number.
pub proof fn law_file_has_the_tokens_of_its_text(t: Seq<char>, file: u32)
    ensures
        match (lexer::lex_text(t, file), tokens_of(t)) {
            (Ok(l), Ok(k)) => kinds(l.tokens) == k,
            (Err(e), Err(m)) => e.msg == m,
            _ => false,
        },
{
    reveal(tokens_of);
    lemma_lexed(encode_utf8(t), file, 0, None, lexer::nothing_lexed());
    match tokens_of(t) {
        Ok(k) => {
            assert(kinds(lexer::nothing_lexed().tokens) + k =~= k);
        },
        Err(_) => {},
    }
}

// ───────────────────────── what stands at a place ─────────────────────────

/// Whether a comment that ends with its line starts at `p`.
pub open spec fn line_comment_at(b: Seq<u8>, p: nat) -> bool {
    p < b.len() && (b[p as int] == HASH || (b[p as int] == SLASH && p + 1 < b.len() && b[p as int
        + 1] == SLASH))
}

/// Whether the text from `p` on ends in a comment whose line does not end.
pub open spec fn ends_in_comment(b: Seq<u8>, p: nat) -> bool
    decreases b.len() - p,
{
    match lexer::item_at(b, p) {
        ItemV::Space(n) => p < n <= b.len() && ends_in_comment(b, n),
        ItemV::Comment(n) => p < n <= b.len() && ((line_comment_at(b, p) && n == b.len())
            || ends_in_comment(b, n)),
        ItemV::Token(n, _) => p < n <= b.len() && ends_in_comment(b, n),
        _ => false,
    }
}

/// Whether an item, space or comment ends at `q` when the text is read from
/// `p` on.
pub open spec fn reaches(b: Seq<u8>, p: nat, q: nat) -> bool
    decreases b.len() - p,
{
    p == q || match lexer::item_at(b, p) {
        ItemV::Space(n) => p < n <= b.len() && n <= q && reaches(b, n, q),
        ItemV::Comment(n) => p < n <= b.len() && n <= q && reaches(b, n, q),
        ItemV::Token(n, _) => p < n <= b.len() && n <= q && reaches(b, n, q),
        _ => false,
    }
}

// ── a text behind another one ──

proof fn lemma_shift_ident(a: Seq<u8>, c: Seq<u8>, p: nat)
    ensures
        lexer::ident_end(a + c, a.len() + p) == a.len() + lexer::ident_end(c, p),
    decreases c.len() - p,
{
    if p < c.len() && lexer::is_ident_byte(c[p as int]) {
        lemma_shift_ident(a, c, p + 1);
    }
}

proof fn lemma_shift_digits(a: Seq<u8>, c: Seq<u8>, p: nat)
    ensures
        lexer::digits_end(a + c, a.len() + p) == a.len() + lexer::digits_end(c, p),
    decreases c.len() - p,
{
    if p < c.len() && lexer::is_digit(c[p as int]) {
        lemma_shift_digits(a, c, p + 1);
    }
}

proof fn lemma_digits_end(b: Seq<u8>, p: nat)
    requires
        p <= b.len(),
    ensures
        p <= lexer::digits_end(b, p) <= b.len(),
        forall|i: int| p <= i < lexer::digits_end(b, p) ==> lexer::is_digit(#[trigger] b[i]),
        lexer::digits_end(b, p) < b.len() ==> !lexer::is_digit(
            b[lexer::digits_end(b, p) as int],
        ),
    decreases b.len() - p,
{
    if p < b.len() && lexer::is_digit(b[p as int]) {
        lemma_digits_end(b, p + 1);
    }
}

proof fn lemma_shift_pair(a: Seq<u8>, c: Seq<u8>, p: nat, x: u8, y: u8)
    ensures
        lexer::find_pair(a + c, a.len() + p, x, y) == match lexer::find_pair(c, p, x, y) {
            Some(e) => Some(a.len() + e),
            None => None,
        },
    decreases c.len() - p,
{
    if p + 1 < c.len() && !(c[p as int] == x && c[p as int + 1] == y) {
        lemma_shift_pair(a, c, p + 1, x, y);
    }
}

proof fn lemma_shift_triple(a: Seq<u8>, c: Seq<u8>, p: nat)
    ensures
        lexer::find_triple_quote(a + c, a.len() + p) == match lexer::find_triple_quote(c, p) {
            Some(e) => Some(a.len() + e),
            None => None,
        },
    decreases c.len() - p,
{
    if p + 2 < c.len() && !(c[p as int] == lexer::QUOTE && c[p as int + 1] == lexer::QUOTE && c[p as int
        + 2] == lexer::QUOTE) {
        lemma_shift_triple(a, c, p + 1);
    }
}

proof fn lemma_shift_quote(a: Seq<u8>, c: Seq<u8>, p: nat)
    ensures
        lexer::quote_or_newline(a + c, a.len() + p) == a.len() + lexer::quote_or_newline(c, p),
    decreases c.len() - p,
{
    if p < c.len() && c[p as int] != lexer::QUOTE && c[p as int] != NEWLINE {
        lemma_shift_quote(a, c, p + 1);
    }
}

pub(crate) proof fn lemma_shift_line(a: Seq<u8>, c: Seq<u8>, p: nat)
    ensures
        ast::line_end(a + c, a.len() + p) == a.len() + ast::line_end(c, p),
    decreases c.len() - p,
{
    if p < c.len() && c[p as int] != NEWLINE {
        lemma_shift_line(a, c, p + 1);
    }
}

pub(crate) proof fn lemma_shift_text(a: Seq<u8>, c: Seq<u8>, lo: nat, hi: nat)
    requires
        lo <= hi <= c.len(),
    ensures
        text::text_of(a + c, (a.len() + lo) as int, (a.len() + hi) as int) == text::text_of(
            c,
            lo as int,
            hi as int,
        ),
{
    assert((a + c).subrange((a.len() + lo) as int, (a.len() + hi) as int) =~= c.subrange(
        lo as int,
        hi as int,
    ));
}

/// An item with its end moved.
pub open spec fn shifted(i: ItemV, k: nat) -> ItemV {
    match i {
        ItemV::End => ItemV::End,
        ItemV::Space(n) => ItemV::Space(k + n),
        ItemV::Comment(n) => ItemV::Comment(k + n),
        ItemV::Token(n, t) => ItemV::Token(k + n, t),
        ItemV::Fault(n, m) => ItemV::Fault(k + n, m),
    }
}

proof fn lemma_pair_found(b: Seq<u8>, p: nat, x: u8, y: u8)
    ensures
        match lexer::find_pair(b, p, x, y) {
            Some(e) => p <= e && e + 2 <= b.len() && b[e as int] == x && b[e as int + 1] == y
                && forall|i: int|
                p <= i < e ==> !(#[trigger] b[i] == x && b[i + 1] == y),
            None => forall|i: int|
                p <= i && i + 1 < b.len() ==> !(#[trigger] b[i] == x && b[i + 1] == y),
        },
    decreases b.len() - p,
{
    if p + 1 < b.len() && !(b[p as int] == x && b[p as int + 1] == y) {
        lemma_pair_found(b, p + 1, x, y);
    }
}

proof fn lemma_triple_found(b: Seq<u8>, p: nat)
    ensures
        match lexer::find_triple_quote(b, p) {
            Some(e) => p <= e && e + 3 <= b.len(),
            None => true,
        },
    decreases b.len() - p,
{
    if p + 2 < b.len() && !(b[p as int] == lexer::QUOTE && b[p as int + 1] == lexer::QUOTE && b[p as int
        + 2] == lexer::QUOTE) {
        lemma_triple_found(b, p + 1);
    }
}

proof fn lemma_ident_end(b: Seq<u8>, p: nat)
    requires
        p <= b.len(),
    ensures
        p <= lexer::ident_end(b, p) <= b.len(),
    decreases b.len() - p,
{
    if p < b.len() && lexer::is_ident_byte(b[p as int]) {
        lemma_ident_end(b, p + 1);
    }
}

proof fn lemma_quote_end(b: Seq<u8>, p: nat)
    requires
        p <= b.len(),
    ensures
        p <= lexer::quote_or_newline(b, p) <= b.len(),
    decreases b.len() - p,
{
    if p < b.len() && b[p as int] != lexer::QUOTE && b[p as int] != NEWLINE {
        lemma_quote_end(b, p + 1);
    }
}

proof fn lemma_number_end(b: Seq<u8>, p: nat)
    requires
        p <= b.len(),
    ensures
        p <= lexer::number_end(b, p) <= b.len(),
{
    lemma_digits_end(b, p);
    let e = lexer::digits_end(b, p);
    if e + 1 < b.len() {
        lemma_digits_end(b, e + 1);
    }
}

proof fn lemma_shift_number(a: Seq<u8>, c: Seq<u8>, p: nat)
    requires
        p < c.len(),
    ensures
        lexer::number_at(a + c, a.len() + p) == shifted(lexer::number_at(c, p), a.len()),
{
    lemma_shift_digits(a, c, p);
    let e = lexer::digits_end(c, p);
    lemma_shift_digits(a, c, e + 1);
    lemma_number_end(c, p);
    let n = lexer::number_end(c, p);
    assert(lexer::number_end(a + c, a.len() + p) == a.len() + n);
    lemma_shift_text(a, c, p, n);
    assert(lexer::long_unit(a + c, a.len() + n) == lexer::long_unit(c, n));
    assert(lexer::short_unit(a + c, a.len() + n) == lexer::short_unit(c, n));
}

proof fn lemma_shift_string(a: Seq<u8>, c: Seq<u8>, p: nat)
    requires
        p < c.len(),
    ensures
        lexer::string_at(a + c, a.len() + p) == shifted(lexer::string_at(c, p), a.len()),
{
    lemma_shift_triple(a, c, p + 3);
    lemma_triple_found(c, p + 3);
    match lexer::find_triple_quote(c, p + 3) {
        Some(e) => lemma_shift_text(a, c, p + 3, e),
        None => {},
    }
    lemma_shift_quote(a, c, p + 1);
    lemma_quote_end(c, p + 1);
    lemma_shift_text(a, c, p + 1, lexer::quote_or_newline(c, p + 1));
}

proof fn lemma_shift_operator(a: Seq<u8>, c: Seq<u8>, p: nat)
    requires
        p < c.len(),
    ensures
        lexer::operator_at(a + c, a.len() + p) == shifted(lexer::operator_at(c, p), a.len()),
{
    let b = a + c;
    assert(b[(a.len() + p) as int] == c[p as int]);
    if p + 1 < c.len() {
        assert(b[(a.len() + p) as int + 1] == c[p as int + 1]);
    }
}

pub(crate) proof fn lemma_shift_item(a: Seq<u8>, c: Seq<u8>, p: nat)
    ensures
        lexer::item_at(a + c, a.len() + p) == shifted(lexer::item_at(c, p), a.len()),
{
    let b = a + c;
    if p < c.len() {
        assert(b[(a.len() + p) as int] == c[p as int]);
        if p + 1 < c.len() {
            assert(b[(a.len() + p) as int + 1] == c[p as int + 1]);
        }
        lemma_shift_line(a, c, p);
        lemma_shift_pair(a, c, p + 2, lexer::STAR, SLASH);
        lemma_shift_pair(a, c, p + 2, lexer::RIGHT_BRACE, lexer::LETTER_C);
        lemma_shift_pair(a, c, p + 2, lexer::QUOTE, lexer::RIGHT_BRACE);
        lemma_pair_found(c, p + 2, lexer::RIGHT_BRACE, lexer::LETTER_C);
        lemma_pair_found(c, p + 2, lexer::QUOTE, lexer::RIGHT_BRACE);
        match lexer::find_pair(c, p + 2, lexer::RIGHT_BRACE, lexer::LETTER_C) {
            Some(e) => lemma_shift_text(a, c, p + 2, e),
            None => {},
        }
        match lexer::find_pair(c, p + 2, lexer::QUOTE, lexer::RIGHT_BRACE) {
            Some(e) => lemma_shift_text(a, c, p + 2, e),
            None => {},
        }
        lemma_shift_ident(a, c, p);
        lemma_ident_end(c, p);
        lemma_shift_text(a, c, p, lexer::ident_end(c, p));
        lemma_shift_number(a, c, p);
        lemma_shift_string(a, c, p);
        lemma_shift_operator(a, c, p);
    }
}

pub(crate) proof fn lemma_shift_tokens(a: Seq<u8>, c: Seq<u8>, p: nat)
    ensures
        tokens_from(a + c, a.len() + p) == tokens_from(c, p),
    decreases c.len() - p,
{
    lemma_shift_item(a, c, p);
    match lexer::item_at(c, p) {
        ItemV::Space(n) => if p < n <= c.len() {
            lemma_shift_tokens(a, c, n);
        },
        ItemV::Comment(n) => if p < n <= c.len() {
            lemma_shift_tokens(a, c, n);
        },
        ItemV::Token(n, _) => if p < n <= c.len() {
            lemma_shift_tokens(a, c, n);
        },
        _ => {},
    }
}

// ── a text before another one ──

proof fn lemma_before_ident(a: Seq<u8>, c: Seq<u8>, p: nat)
    requires
        p <= a.len(),
    ensures
        lexer::ident_end(a, p) <= a.len(),
        lexer::ident_end(a + c, p) == if lexer::ident_end(a, p) < a.len() {
            lexer::ident_end(a, p)
        } else {
            lexer::ident_end(a + c, a.len())
        },
        lexer::ident_end(a + c, a.len()) >= a.len(),
    decreases a.len() - p,
{
    if p < a.len() && lexer::is_ident_byte(a[p as int]) {
        assert((a + c)[p as int] == a[p as int]);
        lemma_before_ident(a, c, p + 1);
    } else {
        if p < a.len() {
            assert((a + c)[p as int] == a[p as int]);
        }
        lemma_ident_end(a + c, a.len());
    }
}

proof fn lemma_before_digits(a: Seq<u8>, c: Seq<u8>, p: nat)
    requires
        p <= a.len(),
    ensures
        lexer::digits_end(a, p) <= a.len(),
        lexer::digits_end(a + c, p) == if lexer::digits_end(a, p) < a.len() {
            lexer::digits_end(a, p)
        } else {
            lexer::digits_end(a + c, a.len())
        },
        lexer::digits_end(a + c, a.len()) >= a.len(),
    decreases a.len() - p,
{
    if p < a.len() && lexer::is_digit(a[p as int]) {
        assert((a + c)[p as int] == a[p as int]);
        lemma_before_digits(a, c, p + 1);
    } else {
        if p < a.len() {
            assert((a + c)[p as int] == a[p as int]);
        }
        lemma_digits_end(a + c, a.len());
    }
}

proof fn lemma_before_pair(a: Seq<u8>, c: Seq<u8>, p: nat, x: u8, y: u8)
    ensures
        match lexer::find_pair(a, p, x, y) {
            Some(e) => e + 2 <= a.len() && p <= e && lexer::find_pair(a + c, p, x, y) == Some(e),
            None => match lexer::find_pair(a + c, p, x, y) {
                Some(e) => e + 2 > a.len(),
                None => true,
            },
        },
    decreases a.len() - p,
{
    if p + 1 < a.len() {
        assert((a + c)[p as int] == a[p as int]);
        assert((a + c)[p as int + 1] == a[p as int + 1]);
        if !(a[p as int] == x && a[p as int + 1] == y) {
            lemma_before_pair(a, c, p + 1, x, y);
        }
    } else {
        lemma_pair_found(a + c, p, x, y);
    }
}

proof fn lemma_before_triple(a: Seq<u8>, c: Seq<u8>, p: nat)
    ensures
        match lexer::find_triple_quote(a, p) {
            Some(e) => e + 3 <= a.len() && p <= e && lexer::find_triple_quote(a + c, p) == Some(e),
            None => match lexer::find_triple_quote(a + c, p) {
                Some(e) => e + 3 > a.len(),
                None => true,
            },
        },
    decreases a.len() - p,
{
    if p + 2 < a.len() {
        assert((a + c)[p as int] == a[p as int]);
        assert((a + c)[p as int + 1] == a[p as int + 1]);
        assert((a + c)[p as int + 2] == a[p as int + 2]);
        if !(a[p as int] == lexer::QUOTE && a[p as int + 1] == lexer::QUOTE && a[p as int + 2]
            == lexer::QUOTE) {
            lemma_before_triple(a, c, p + 1);
        }
    } else {
        lemma_triple_found(a + c, p);
    }
}

proof fn lemma_before_quote(a: Seq<u8>, c: Seq<u8>, p: nat)
    requires
        p <= a.len(),
    ensures
        lexer::quote_or_newline(a, p) <= a.len(),
        if lexer::quote_or_newline(a, p) < a.len() {
            lexer::quote_or_newline(a + c, p) == lexer::quote_or_newline(a, p)
        } else {
            lexer::quote_or_newline(a + c, p) >= a.len()
        },
    decreases a.len() - p,
{
    if p < a.len() {
        assert((a + c)[p as int] == a[p as int]);
        if a[p as int] != lexer::QUOTE && a[p as int] != NEWLINE {
            lemma_before_quote(a, c, p + 1);
        }
    } else {
        lemma_quote_end(a + c, p);
    }
}

pub(crate) proof fn lemma_line_end(b: Seq<u8>, p: nat)
    requires
        p <= b.len(),
    ensures
        p <= ast::line_end(b, p) <= b.len(),
    decreases b.len() - p,
{
    if p < b.len() && b[p as int] != NEWLINE {
        lemma_line_end(b, p + 1);
    }
}

proof fn lemma_before_line(a: Seq<u8>, c: Seq<u8>, p: nat)
    requires
        p <= a.len(),
    ensures
        ast::line_end(a, p) <= a.len(),
        if ast::line_end(a, p) < a.len() {
            ast::line_end(a + c, p) == ast::line_end(a, p)
        } else {
            ast::line_end(a + c, p) >= a.len()
        },
    decreases a.len() - p,
{
    if p < a.len() {
        assert((a + c)[p as int] == a[p as int]);
        if a[p as int] != NEWLINE {
            lemma_before_line(a, c, p + 1);
        }
    } else {
        lemma_line_end(a + c, p);
    }
}

proof fn lemma_before_text(a: Seq<u8>, c: Seq<u8>, lo: nat, hi: nat)
    requires
        lo <= hi <= a.len(),
    ensures
        text::text_of(a + c, lo as int, hi as int) == text::text_of(a, lo as int, hi as int),
{
    assert((a + c).subrange(lo as int, hi as int) =~= a.subrange(lo as int, hi as int));
}

/// Where an item ends.
pub open spec fn item_end(i: ItemV) -> nat {
    match i {
        ItemV::End => 0,
        ItemV::Space(n) => n,
        ItemV::Comment(n) => n,
        ItemV::Token(n, _) => n,
        ItemV::Fault(n, _) => n,
    }
}

/// Whether an item is read whole in a text, whatever comes behind it.
pub open spec fn settled(i: ItemV, j: ItemV, a: Seq<u8>, c: Seq<u8>) -> bool {
    &&& !(i is End) && !(i is Fault) && item_end(i) <= a.len() ==> j == i
    &&& !(j is End) && !(j is Fault) && c.len() > 0 && lexer::is_space(c[0]) && !(j is Comment)
        ==> i == j
}

proof fn lemma_before_number(a: Seq<u8>, c: Seq<u8>, p: nat)
    requires
        p < a.len(),
    ensures
        settled(lexer::number_at(a + c, p), lexer::number_at(a, p), a, c),
{
    let b = a + c;
    lemma_before_digits(a, c, p);
    let e = lexer::digits_end(a, p);
    let f = lexer::digits_end(b, p);
    lemma_digits_end(a, p);
    lemma_digits_end(b, p);
    assert(forall|i: int| 0 <= i < a.len() ==> #[trigger] b[i] == a[i]);
    if c.len() > 0 {
        assert(b[a.len() as int] == c[0]);
    }
    if e + 1 < a.len() {
        lemma_before_digits(a, c, e + 1);
        lemma_digits_end(b, e + 1);
        lemma_digits_end(a, e + 1);
    }
    if f + 1 < b.len() {
        lemma_digits_end(b, f + 1);
    }
    lemma_number_end(a, p);
    lemma_number_end(b, p);
    let n = lexer::number_end(b, p);
    if n <= a.len() {
        lemma_before_text(a, c, p, n);
        assert(lexer::number_end(a, p) == n);
    }
    let m = lexer::number_end(a, p);
    lemma_before_text(a, c, p, m);
}

proof fn lemma_before_string(a: Seq<u8>, c: Seq<u8>, p: nat)
    requires
        p < a.len(),
    ensures
        settled(lexer::string_at(a + c, p), lexer::string_at(a, p), a, c),
{
    let b = a + c;
    assert(forall|i: int| 0 <= i < a.len() ==> #[trigger] b[i] == a[i]);
    if c.len() > 0 {
        assert(b[a.len() as int] == c[0]);
    }
    lemma_before_triple(a, c, p + 3);
    match lexer::find_triple_quote(a, p + 3) {
        Some(e) => lemma_before_text(a, c, p + 3, e),
        None => {},
    }
    lemma_before_quote(a, c, p + 1);
    lemma_quote_end(a, p + 1);
    lemma_before_text(a, c, p + 1, lexer::quote_or_newline(a, p + 1));
}

proof fn lemma_before_operator(a: Seq<u8>, c: Seq<u8>, p: nat)
    requires
        p < a.len(),
    ensures
        settled(lexer::operator_at(a + c, p), lexer::operator_at(a, p), a, c),
{
    let b = a + c;
    assert(forall|i: int| 0 <= i < a.len() ==> #[trigger] b[i] == a[i]);
    if c.len() > 0 {
        assert(b[a.len() as int] == c[0]);
    }
}

pub(crate) proof fn lemma_before_item(a: Seq<u8>, c: Seq<u8>, p: nat)
    requires
        p < a.len(),
    ensures
        settled(lexer::item_at(a + c, p), lexer::item_at(a, p), a, c),
{
    let b = a + c;
    assert(forall|i: int| 0 <= i < a.len() ==> #[trigger] b[i] == a[i]);
    if c.len() > 0 {
        assert(b[a.len() as int] == c[0]);
    }
    let x = a[p as int];
    if x == HASH || x == SLASH {
        lemma_before_line(a, c, p);
        lemma_before_pair(a, c, p + 2, lexer::STAR, SLASH);
        lemma_before_operator(a, c, p);
        if x == SLASH && p + 1 < b.len() && b[p as int + 1] == SLASH {
            lemma_line_end(b, p + 2);
            assert(ast::line_end(b, p) == ast::line_end(b, p + 1));
            assert(ast::line_end(b, p + 1) == ast::line_end(b, p + 2));
        }
    } else if x == lexer::LETTER_C || lexer::is_letter(x) || x == lexer::UNDERSCORE {
        lemma_before_pair(a, c, p + 2, lexer::RIGHT_BRACE, lexer::LETTER_C);
        match lexer::find_pair(a, p + 2, lexer::RIGHT_BRACE, lexer::LETTER_C) {
            Some(e) => lemma_before_text(a, c, p + 2, e),
            None => {},
        }
        lemma_before_ident(a, c, p);
        lemma_ident_end(a, p);
        lemma_before_text(a, c, p, lexer::ident_end(a, p));
    } else if lexer::is_digit(x) {
        lemma_before_number(a, c, p);
    } else if x == lexer::QUOTE {
        lemma_before_string(a, c, p);
    } else {
        lemma_before_pair(a, c, p + 2, lexer::QUOTE, lexer::RIGHT_BRACE);
        match lexer::find_pair(a, p + 2, lexer::QUOTE, lexer::RIGHT_BRACE) {
            Some(e) => lemma_before_text(a, c, p + 2, e),
            None => {},
        }
        lemma_before_operator(a, c, p);
    }
}

/// Space, and a comment that is ended, are the same whatever comes behind.
proof fn lemma_before_gap(a: Seq<u8>, c: Seq<u8>, p: nat)
    requires
        p < a.len(),
        lexer::item_at(a, p) is Space || (lexer::item_at(a, p) is Comment && !(line_comment_at(a, p)
            && item_end(lexer::item_at(a, p)) == a.len())),
    ensures
        lexer::item_at(a + c, p) == lexer::item_at(a, p),
{
    let b = a + c;
    assert(forall|i: int| 0 <= i < a.len() ==> #[trigger] b[i] == a[i]);
    lemma_before_line(a, c, p);
    lemma_before_pair(a, c, p + 2, lexer::STAR, SLASH);
}

proof fn lemma_split(a: Seq<u8>, c: Seq<u8>, p: nat)
    requires
        p <= a.len(),
        reaches(a + c, p, a.len()),
    ensures
        tokens_from(a + c, p) == joined(tokens_from(a, p), tokens_from(c, 0)),
        tokens_from(a, p) is Ok,
    decreases a.len() - p,
{
    let b = a + c;
    if p == a.len() {
        lemma_shift_tokens(a, c, 0);
        match tokens_from(c, 0) {
            Ok(k) => {
                assert(Seq::<TokV>::empty() + k =~= k);
            },
            Err(_) => {},
        }
    } else {
        lemma_before_item(a, c, p);
        let n = item_end(lexer::item_at(b, p));
        lemma_split(a, c, n);
        match lexer::item_at(b, p) {
            ItemV::Token(_, t) => match (tokens_from(a, n), tokens_from(c, 0)) {
                (Ok(x), Ok(y)) => {
                    assert(seq![t] + (x + y) =~= (seq![t] + x) + y);
                },
                _ => {},
            },
            _ => {},
        }
    }
}

proof fn lemma_reaches_end(a: Seq<u8>, c: Seq<u8>, p: nat)
    requires
        p <= a.len(),
        tokens_from(a, p) is Ok,
        !ends_in_comment(a, p),
        (c.len() > 0 && lexer::is_space(c[0])) || tokens_from(a, p) == Ok::<Seq<TokV>, Seq<char>>(
            seq![],
        ),
    ensures
        reaches(a + c, p, a.len()),
    decreases a.len() - p,
{
    if p < a.len() {
        lemma_item_ends(a, p);
        lemma_before_item(a, c, p);
        match lexer::item_at(a, p) {
            ItemV::Space(n) => {
                lemma_before_gap(a, c, p);
                lemma_reaches_end(a, c, n);
            },
            ItemV::Comment(n) => {
                lemma_before_gap(a, c, p);
                lemma_reaches_end(a, c, n);
            },
            ItemV::Token(n, t) => {
                match tokens_from(a, n) {
                    Ok(x) => {
                        assert((seq![t] + x).len() > 0);
                    },
                    Err(_) => {},
                }
                lemma_reaches_end(a, c, n);
            },
            _ => {},
        }
    }
}

proof fn lemma_line_ends(a: Seq<u8>, c: Seq<u8>, p: nat)
    requires
        p <= a.len(),
        ast::line_end(a, p) == a.len(),
        c.len() > 0,
        c[0] == NEWLINE,
    ensures
        ast::line_end(a + c, p) == a.len(),
    decreases a.len() - p,
{
    let b = a + c;
    if p < a.len() {
        assert(b[p as int] == a[p as int]);
        lemma_line_ends(a, c, p + 1);
    } else {
        assert(b[p as int] == c[0]);
    }
}

/// A newline ends whatever stands before it.
pub(crate) proof fn lemma_reaches_newline(a: Seq<u8>, c: Seq<u8>, p: nat)
    requires
        p <= a.len(),
        tokens_from(a, p) is Ok,
        c.len() > 0,
        c[0] == NEWLINE,
    ensures
        reaches(a + c, p, a.len()),
    decreases a.len() - p,
{
    if p < a.len() {
        lemma_item_ends(a, p);
        lemma_before_item(a, c, p);
        match lexer::item_at(a, p) {
            ItemV::Space(n) => {
                lemma_before_gap(a, c, p);
                lemma_reaches_newline(a, c, n);
            },
            ItemV::Comment(n) => {
                if line_comment_at(a, p) && n == a.len() {
                    assert((a + c)[p as int] == a[p as int]);
                    if p + 1 < a.len() {
                        assert((a + c)[p as int + 1] == a[p as int + 1]);
                    }
                    lemma_line_ends(a, c, p);
                } else {
                    lemma_before_gap(a, c, p);
                }
                lemma_reaches_newline(a, c, n);
            },
            ItemV::Token(n, _) => lemma_reaches_newline(a, c, n),
            _ => {},
        }
    }
}

proof fn lemma_item_ends(b: Seq<u8>, p: nat)
    requires
        p < b.len(),
    ensures
        !(lexer::item_at(b, p) is End),
        !(lexer::item_at(b, p) is Fault) ==> p < item_end(lexer::item_at(b, p)) <= b.len(),
{
    lemma_line_end(b, p);
    lemma_pair_found(b, p + 2, lexer::STAR, SLASH);
    lemma_pair_found(b, p + 2, lexer::RIGHT_BRACE, lexer::LETTER_C);
    lemma_pair_found(b, p + 2, lexer::QUOTE, lexer::RIGHT_BRACE);
    lemma_ident_end(b, p + 1);
    lemma_triple_found(b, p + 3);
    lemma_quote_end(b, p + 1);
    lemma_digits_end(b, p);
    lemma_number_end(b, p);
    if lexer::is_digit(b[p as int]) {
        lemma_digits_end(b, p + 1);
        let e = lexer::digits_end(b, p);
        if e + 1 < b.len() {
            lemma_digits_end(b, e + 1);
        }
    }
    if b[p as int] != NEWLINE {
        lemma_line_end(b, p + 1);
    }
}

// ───────────────────────── texts ─────────────────────────

pub(crate) proof fn lemma_encode_add(s: Seq<char>, t: Seq<char>)
    ensures
        encode_utf8(s + t) == encode_utf8(s) + encode_utf8(t),
    decreases s.len(),
{
    if s.len() == 0 {
        assert(s + t =~= t);
        assert(encode_utf8(s) + encode_utf8(t) =~= encode_utf8(t));
    } else {
        lemma_encode_add(s.drop_first(), t);
        assert((s + t).drop_first() =~= s.drop_first() + t);
        let x = encode_scalar(s[0] as u32);
        assert(x + (encode_utf8(s.drop_first()) + encode_utf8(t)) =~= (x + encode_utf8(
            s.drop_first(),
        )) + encode_utf8(t));
    }
}

/// Whether a text is nothing but white space and comments, and starts with
/// white space. A comment that ends with its line is ended.
pub open spec fn is_gap(g: Seq<char>) -> bool {
    let b = encode_utf8(g);
    &&& b.len() > 0 && lexer::is_space(b[0])
    &&& tokens_from(b, 0) == Ok::<Seq<TokV>, Seq<char>>(seq![])
    &&& !ends_in_comment(b, 0)
}

/// Whether all tokens of a text are right, and it does not end in a comment
/// whose line does not end.
pub open spec fn is_closed(s: Seq<char>) -> bool {
    let b = encode_utf8(s);
    &&& tokens_from(b, 0) is Ok
    &&& !ends_in_comment(b, 0)
}

/// Whether no token lies across the border of two texts.
pub open spec fn parts_meet(s: Seq<char>, t: Seq<char>) -> bool {
    reaches(encode_utf8(s + t), 0, encode_utf8(s).len())
}

/// Where no token lies across the border of two texts, the tokens of both
/// together are those of the one and then those of the other.
pub proof fn law_tokens_of_parts(s: Seq<char>, t: Seq<char>)
    requires
        parts_meet(s, t),
    ensures
        tokens_of(s + t) == joined(tokens_of(s), tokens_of(t)),
{
    reveal(tokens_of);
    lemma_encode_add(s, t);
    lemma_split(encode_utf8(s), encode_utf8(t), 0);
}

/// White space and comments between two texts separate their tokens and do
/// nothing else.
pub proof fn law_gaps_separate(s: Seq<char>, g: Seq<char>, t: Seq<char>)
    requires
        is_closed(s),
        is_gap(g),
    ensures
        tokens_of(s + g + t) == joined(tokens_of(s), tokens_of(t)),
{
    reveal(tokens_of);
    let a = encode_utf8(s);
    let b = encode_utf8(g);
    let c = encode_utf8(t);
    lemma_encode_add(s + g, t);
    lemma_encode_add(s, g);
    assert((a + b) + c =~= a + (b + c));
    assert((b + c)[0] == b[0]);
    lemma_reaches_end(a, b + c, 0);
    lemma_split(a, b + c, 0);
    lemma_reaches_end(b, c, 0);
    lemma_split(b, c, 0);
    match tokens_from(c, 0) {
        Ok(k) => {
            assert(Seq::<TokV>::empty() + k =~= k);
        },
        Err(_) => {},
    }
}

/// A newline between two texts separates their tokens, and ends a comment.
pub proof fn law_newlines_separate(s: Seq<char>, t: Seq<char>)
    requires
        tokens_of(s) is Ok,
    ensures
        tokens_of(s + seq!['\n'] + t) == joined(tokens_of(s), tokens_of(t)),
{
    reveal(tokens_of);
    let g = seq!['\n'];
    let a = encode_utf8(s);
    let b = encode_utf8(g);
    let c = encode_utf8(t);
    lemma_encode_add(s + g, t);
    lemma_encode_add(s, g);
    lemma_newline_byte();
    assert((a + b) + c =~= a + (b + c));
    assert((b + c)[0] == NEWLINE);
    lemma_reaches_newline(a, b + c, 0);
    lemma_split(a, b + c, 0);
    assert(lexer::item_at(b + c, 0) == ItemV::Space(1));
    lemma_shift_tokens(b, c, 0);
}

pub(crate) proof fn lemma_newline_byte()
    ensures
        encode_utf8(seq!['\n']) == seq![NEWLINE],
{
    let g = seq!['\n'];
    assert(is_ascii_chars(g));
    is_ascii_chars_encode_utf8(g);
    assert(g[0] as u8 == 10u8);
    assert(encode_utf8(g)[0] == NEWLINE);
    assert(encode_utf8(g) =~= seq![NEWLINE]);
}

/// What white space and comments stand between two texts does not matter.
pub proof fn law_gaps_are_equal(s: Seq<char>, g: Seq<char>, h: Seq<char>, t: Seq<char>)
    requires
        is_closed(s),
        is_gap(g),
        is_gap(h),
    ensures
        tokens_of(s + g + t) == tokens_of(s + h + t),
{
    law_gaps_separate(s, g, t);
    law_gaps_separate(s, h, t);
}

/// Where no token lies across the border of two texts, white space and comments
/// between them can as well be left out.
pub proof fn law_gaps_can_be_left_out(s: Seq<char>, g: Seq<char>, t: Seq<char>)
    requires
        is_closed(s),
        is_gap(g),
        parts_meet(s, t),
    ensures
        tokens_of(s + g + t) == tokens_of(s + t),
{
    law_gaps_separate(s, g, t);
    law_tokens_of_parts(s, t);
}

/// The streams of two texts with the same tokens hold the same tokens.
pub proof fn law_same_tokens_same_stream(s: Seq<char>, t: Seq<char>)
    requires
        tokens_of(s) == tokens_of(t),
    ensures
        match (lexer::lex_alone(s), lexer::lex_alone(t)) {
            (Ok(x), Ok(y)) => parsing::same_tokens(
                statements::input(x.lexed),
                statements::input(y.lexed),
            ),
            (Err(e), Err(f)) => e.msg == f.msg,
            _ => false,
        },
{
    law_file_has_the_tokens_of_its_text(s, 0);
    law_file_has_the_tokens_of_its_text(t, 0);
    match (lexer::lex_text(s, 0), lexer::lex_text(t, 0)) {
        (Ok(x), Ok(y)) => lemma_ended_alike(
            x,
            y,
            seq![ast::FileV { path: "<test>"@, text: s }],
            seq![ast::FileV { path: "<test>"@, text: t }],
        ),
        _ => {},
    }
}

pub(crate) proof fn lemma_ended_alike(
    x: LexedV,
    y: LexedV,
    fs: Seq<ast::FileV>,
    gs: Seq<ast::FileV>,
)
    requires
        kinds(x.tokens) == kinds(y.tokens),
    ensures
        parsing::same_tokens(
            statements::input(lexer::ended(x, fs).lexed),
            statements::input(lexer::ended(y, gs).lexed),
        ),
{
    let a = statements::input(lexer::ended(x, fs).lexed);
    let b = statements::input(lexer::ended(y, gs).lexed);
    assert(x.tokens.len() == kinds(x.tokens).len());
    assert(y.tokens.len() == kinds(y.tokens).len());
    assert forall|i: int| 0 <= i < a.toks.len() implies (#[trigger] a.toks[i]).tok
        == b.toks[i].tok by {
        if i < x.tokens.len() {
            assert(kinds(x.tokens)[i] == kinds(y.tokens)[i]);
        }
    }
}

} // verus!
