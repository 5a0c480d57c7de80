//! Where the tokens and comments of a text stand when another text comes before
//! it.

use crate::ast::{ErrV, Span, NEWLINE};
use crate::layout::lexing;
use crate::lexer;
use crate::lexer::{ItemV, LexedV, RawCommentV, TokenV};
use crate::text;
use vstd::prelude::*;
use vstd::utf8::*;

verus! {

/// A place that is moved by `k` bytes.
pub open spec fn moved_span(s: Span, k: nat) -> Span {
    Span { file: s.file, lo: (s.lo + k) as u32, hi: (s.hi + k) as u32 }
}

/// Tokens and comments that are moved by `k` bytes.
pub open spec fn moved(l: LexedV, k: nat) -> LexedV {
    LexedV {
        tokens: Seq::new(
            l.tokens.len(),
            |i: int| TokenV { tok: l.tokens[i].tok, span: moved_span(l.tokens[i].span, k) },
        ),
        comments: Seq::new(
            l.comments.len(),
            |i: int|
                RawCommentV {
                    text: l.comments[i].text,
                    span: moved_span(l.comments[i].span, k),
                    standalone: l.comments[i].standalone,
                },
        ),
    }
}

/// Tokens and comments, and more behind them.
pub open spec fn followed(a: LexedV, b: LexedV) -> LexedV {
    LexedV { tokens: a.tokens + b.tokens, comments: a.comments + b.comments }
}

/// Whether the last token before is as far away in both texts: where there is
/// none in one, a newline comes before the other.
spec fn same_before(a: Seq<u8>, c: Seq<u8>, x: Option<nat>, y: Option<nat>) -> bool {
    match (x, y) {
        (None, None) => true,
        (None, Some(e)) => e < a.len() && a.last() == NEWLINE,
        (Some(e), Some(f)) => f == a.len() + e && e <= c.len(),
        _ => false,
    }
}

proof fn lemma_standalone(a: Seq<u8>, c: Seq<u8>, p: nat, x: Option<nat>, y: Option<nat>)
    requires
        same_before(a, c, x, y),
        p <= c.len(),
    ensures
        (match y {
            Some(e) => lexer::newline_between(a + c, e, a.len() + p),
            None => true,
        }) == (match x {
            Some(e) => lexer::newline_between(c, e, p),
            None => true,
        }),
{
    let b = a + c;
    match (x, y) {
        (None, Some(_)) => {
            assert(b[a.len() - 1] == NEWLINE);
        },
        (Some(e), Some(f)) => {
            if lexer::newline_between(c, e, p) {
                let i = choose|i: int| e <= i < p && #[trigger] c[i] == NEWLINE;
                assert(b[a.len() + i] == NEWLINE);
            }
            if lexer::newline_between(b, f, a.len() + p) {
                let i = choose|i: int| f <= i < a.len() + p && #[trigger] b[i] == NEWLINE;
                assert(c[i - a.len()] == NEWLINE);
            }
        },
        _ => {},
    }
}

/// A text is read behind another one as it is read alone, moved.
proof fn lemma_behind(
    a: Seq<u8>,
    c: Seq<u8>,
    file: u32,
    p: nat,
    x: Option<nat>,
    y: Option<nat>,
    base: LexedV,
    done: LexedV,
    all: LexedV,
)
    requires
        p <= c.len(),
        a.len() + c.len() <= u32::MAX,
        same_before(a, c, x, y),
        all == followed(base, moved(done, a.len())),
    ensures
        match (
            lexer::lex_from(c, file, p, x, done),
            lexer::lex_from(a + c, file, a.len() + p, y, all),
        ) {
            (Ok(l), Ok(r)) => r == followed(base, moved(l, a.len())),
            (Err(e), Err(f)) => e.msg == f.msg,
            _ => false,
        },
    decreases c.len() - p,
{
    let b = a + c;
    lexing::lemma_shift_item(a, c, p);
    match lexer::item_at(c, p) {
        ItemV::Space(n) => if p < n <= c.len() {
            lemma_behind(a, c, file, n, x, y, base, done, all);
        },
        ItemV::Comment(n) => if p < n <= c.len() {
            lemma_standalone(a, c, p, x, y);
            lexing::lemma_shift_text(a, c, p, n);
            let one = RawCommentV {
                text: text::text_of(c, p as int, n as int),
                span: lexer::span_of(file, p, n),
                standalone: match x {
                    Some(e) => lexer::newline_between(c, e, p),
                    None => true,
                },
            };
            let two = RawCommentV {
                text: text::text_of(b, (a.len() + p) as int, (a.len() + n) as int),
                span: lexer::span_of(file, a.len() + p, a.len() + n),
                standalone: match y {
                    Some(e) => lexer::newline_between(b, e, a.len() + p),
                    None => true,
                },
            };
            let d = LexedV { comments: done.comments.push(one), ..done };
            let e = LexedV { comments: all.comments.push(two), ..all };
            assert(two.span == moved_span(one.span, a.len()));
            assert(e =~= followed(base, moved(d, a.len())));
            lemma_behind(a, c, file, n, x, y, base, d, e);
        },
        ItemV::Token(n, t) => if p < n <= c.len() {
            let one = TokenV { tok: t, span: lexer::span_of(file, p, n) };
            let two = TokenV { tok: t, span: lexer::span_of(file, a.len() + p, a.len() + n) };
            let d = LexedV { tokens: done.tokens.push(one), ..done };
            let e = LexedV { tokens: all.tokens.push(two), ..all };
            assert(two.span == moved_span(one.span, a.len()));
            assert(e =~= followed(base, moved(d, a.len())));
            lemma_behind(a, c, file, n, Some(n), Some(a.len() + n), base, d, e);
        },
        _ => {},
    }
}

/// A text is read before another one as it is read alone.
proof fn lemma_ahead(
    a: Seq<u8>,
    c: Seq<u8>,
    file: u32,
    p: nat,
    prev: Option<nat>,
    done: LexedV,
) -> (r: (Option<nat>, LexedV))
    requires
        p <= a.len(),
        prev matches Some(e) ==> e <= p,
        lexing::reaches(a + c, p, a.len()),
    ensures
        lexer::lex_from(a, file, p, prev, done) == Ok::<LexedV, ErrV>(r.1),
        lexer::lex_from(a + c, file, p, prev, done) == lexer::lex_from(
            a + c,
            file,
            a.len(),
            r.0,
            r.1,
        ),
        r.0 matches Some(e) ==> e <= a.len(),
    decreases a.len() - p,
{
    let b = a + c;
    if p == a.len() {
        (prev, done)
    } else {
        lexing::lemma_before_item(a, c, p);
        match lexer::item_at(b, p) {
            ItemV::Space(n) => lemma_ahead(a, c, file, n, prev, done),
            ItemV::Comment(n) => {
                assert(b.subrange(p as int, n as int) =~= a.subrange(p as int, n as int));
                match prev {
                    Some(e) => {
                        if lexer::newline_between(a, e, p) {
                            let i = choose|i: int| e <= i < p && #[trigger] a[i] == NEWLINE;
                            assert(b[i] == NEWLINE);
                        }
                        if lexer::newline_between(b, e, p) {
                            let i = choose|i: int| e <= i < p && #[trigger] b[i] == NEWLINE;
                            assert(a[i] == NEWLINE);
                        }
                    },
                    None => {},
                }
                let x = RawCommentV {
                    text: text::text_of(b, p as int, n as int),
                    span: lexer::span_of(file, p, n),
                    standalone: match prev {
                        Some(e) => lexer::newline_between(b, e, p),
                        None => true,
                    },
                };
                lemma_ahead(
                    a,
                    c,
                    file,
                    n,
                    prev,
                    LexedV { comments: done.comments.push(x), ..done },
                )
            },
            ItemV::Token(n, t) => {
                let x = TokenV { tok: t, span: lexer::span_of(file, p, n) };
                lemma_ahead(
                    a,
                    c,
                    file,
                    n,
                    Some(n),
                    LexedV { tokens: done.tokens.push(x), ..done },
                )
            },
            _ => (prev, done),
        }
    }
}

/// A newline between two texts separates them: the tokens and comments of the
/// first text stand where they stood, and those of the second text are moved by
/// the length of the first text and the newline.
pub proof fn law_newlines_move_what_follows(s: Seq<char>, t: Seq<char>, file: u32)
    requires
        lexing::tokens_of(s) is Ok,
        encode_utf8(s).len() + 1 + encode_utf8(t).len() <= u32::MAX,
    ensures
        match (
            lexer::lex_text(s, file),
            lexer::lex_text(t, file),
            lexer::lex_text(s + seq!['\n'] + t, file),
        ) {
            (Ok(a), Ok(b), Ok(r)) => r == followed(a, moved(b, encode_utf8(s).len() + 1)),
            (Ok(_), Err(e), Err(f)) => e.msg == f.msg,
            _ => false,
        },
{
    reveal(lexing::tokens_of);
    let g = seq!['\n'];
    let a = encode_utf8(s);
    let n = encode_utf8(g);
    let c = encode_utf8(t);
    lexing::lemma_encode_add(s + g, t);
    lexing::lemma_encode_add(s, g);
    lexing::lemma_newline_byte();
    assert((a + n) + c =~= a + (n + c));
    assert((n + c)[0] == NEWLINE);
    lexing::lemma_reaches_newline(a, n + c, 0);
    let (prev, l) = lemma_ahead(a, n + c, file, 0, None, lexer::nothing_lexed());
    let b = (a + n) + c;
    lexing::lemma_shift_item(a, n + c, 0);
    assert(lexer::item_at(n + c, 0) == ItemV::Space(1));
    assert(lexer::lex_from(b, file, a.len(), prev, l) == lexer::lex_from(
        b,
        file,
        a.len() + 1,
        prev,
        l,
    ));
    assert((a + n).last() == NEWLINE);
    assert(l =~= followed(l, moved(lexer::nothing_lexed(), a.len() + 1)));
    lemma_behind(a + n, c, file, 0, None, prev, l, lexer::nothing_lexed(), l);
}

} // verus!
