//! Where tokens and comments stand: inside their file, one behind the other.

use crate::ast::Span;
use crate::lexer;
use crate::lexer::{ItemV, LexedV, RawCommentV, TokenV};
use crate::text;
use vstd::prelude::*;
use vstd::utf8::*;

verus! {

/// Whether a span is a place of a file of `n` bytes that is not empty.
pub open spec fn inside(s: Span, file: u32, n: nat) -> bool {
    s.file == file && s.lo < s.hi <= n
}

/// Whether tokens and comments stand in the first `n` bytes of a file, the
/// tokens one behind the other, and so the comments.
pub open spec fn in_places(l: LexedV, file: u32, n: nat) -> bool {
    &&& forall|i: int| 0 <= i < l.tokens.len() ==> inside((#[trigger] l.tokens[i]).span, file, n)
    &&& forall|i: int|
        0 <= i < l.comments.len() ==> inside((#[trigger] l.comments[i]).span, file, n)
    &&& forall|i: int, j: int|
        0 <= i < j < l.tokens.len() ==> (#[trigger] l.tokens[i]).span.hi <= (
        #[trigger] l.tokens[j]).span.lo
    &&& forall|i: int, j: int|
        0 <= i < j < l.comments.len() ==> (#[trigger] l.comments[i]).span.hi <= (
        #[trigger] l.comments[j]).span.lo
    &&& forall|i: int, j: int|
        0 <= i < l.tokens.len() && 0 <= j < l.comments.len() ==> (#[trigger] l.tokens[i]).span.hi
            <= (#[trigger] l.comments[j]).span.lo || l.comments[j].span.hi
            <= l.tokens[i].span.lo
}

proof fn lemma_places(b: Seq<u8>, file: u32, p: nat, prev: Option<nat>, done: LexedV)
    requires
        p <= b.len() <= u32::MAX,
        in_places(done, file, p),
    ensures
        lexer::lex_from(b, file, p, prev, done) matches Ok(l) ==> in_places(l, file, b.len()),
    decreases b.len() - p,
{
    match lexer::item_at(b, p) {
        ItemV::Space(n) => if p < n <= b.len() {
            lemma_places(b, file, n, prev, done);
        },
        ItemV::Comment(n) => if p < n <= b.len() {
            let more = RawCommentV {
                text: text::text_of(b, p as int, n as int),
                span: lexer::span_of(file, p, n),
                standalone: match prev {
                    Some(e) => lexer::newline_between(b, e, p),
                    None => true,
                },
            };
            let next = LexedV { comments: done.comments.push(more), ..done };
            lemma_places(b, file, n, prev, next);
        },
        ItemV::Token(n, t) => if p < n <= b.len() {
            let more = TokenV { tok: t, span: lexer::span_of(file, p, n) };
            let next = LexedV { tokens: done.tokens.push(more), ..done };
            lemma_places(b, file, n, Some(n), next);
        },
        _ => {},
    }
}

/// The tokens and the comments of a text stand inside it, in order, and none
/// overlaps another.
pub proof fn law_tokens_stand_in_order(t: Seq<char>, file: u32)
    requires
        encode_utf8(t).len() <= u32::MAX,
    ensures
        lexer::lex_text(t, file) matches Ok(l) ==> in_places(l, file, encode_utf8(t).len()),
{
    lemma_places(encode_utf8(t), file, 0, None, lexer::nothing_lexed());
}

} // verus!
