//! How a program is split over files does not matter: an inclusion stands for
//! the tokens of the file.

use crate::ast;
use crate::ast::Span;
use crate::inclusion;
use crate::inclusion::{FilesV, SourceV, Sources, StepV, MAX_DEPTH};
use crate::layout::lexing;
use crate::layout::parsing;
use crate::lexer;
use crate::lexer::{LexedV, TokV};
use crate::statements;
use vstd::prelude::*;

verus! {

/// Whether an inclusion starts at `i`.
pub open spec fn includes_at(t: Seq<TokV>, i: nat) -> bool {
    &&& i + 2 < t.len()
    &&& t[i as int] == TokV::Ident("include"@)
    &&& t[i as int + 1] is Str
    &&& t[i as int + 2] is Semi
}

/// The file that an included path leads to.
pub open spec fn found(fs: Sources, dirs: Seq<Seq<char>>, path: Seq<char>) -> Option<Seq<char>> {
    match inclusion::resolve_from(fs, dirs, 0, path, ast::dummy_span()) {
        StepV::Done(p) => Some(p),
        _ => None,
    }
}

/// Tokens and more tokens behind them, where there are both.
pub open spec fn both(a: Option<Seq<TokV>>, b: Option<Seq<TokV>>) -> Option<Seq<TokV>> {
    match (a, b) {
        (Some(x), Some(y)) => Some(x + y),
        _ => None,
    }
}

/// The tokens of a file, with those of the files that it includes in their
/// places. There are none where a file is missing or wrong.
pub open spec fn flat_file(
    fs: Sources,
    path: Seq<char>,
    dirs: Seq<Seq<char>>,
    stack: Seq<Seq<char>>,
) -> Option<Seq<TokV>>
    decreases MAX_DEPTH - stack.len(), 1nat, 0nat,
{
    if stack.len() >= MAX_DEPTH || !fs.files@.contains_key(path) {
        None
    } else {
        match fs.files@[path]@ {
            SourceV::Text { canonical, dir, content } => if inclusion::first_of(stack, canonical, 0)
                < stack.len() {
                None
            } else {
                match lexing::tokens_of(content) {
                    Ok(toks) => flat_tokens(fs, dirs, dir, stack.push(canonical), toks, 0),
                    Err(_) => None,
                }
            },
            _ => None,
        }
    }
}

/// The tokens from `i` on, with those of the included files in their places.
pub open spec fn flat_tokens(
    fs: Sources,
    dirs: Seq<Seq<char>>,
    dir: Seq<char>,
    stack: Seq<Seq<char>>,
    toks: Seq<TokV>,
    i: nat,
) -> Option<Seq<TokV>>
    decreases MAX_DEPTH + 1 - stack.len(), 0nat, toks.len() - i,
{
    if i >= toks.len() {
        Some(seq![])
    } else if includes_at(toks, i) {
        match found(fs, seq![dir] + dirs, toks[i as int + 1]->Str_0) {
            Some(p) => if stack.len() > MAX_DEPTH {
                None
            } else {
                both(
                    flat_file(fs, p, dirs, stack),
                    flat_tokens(fs, dirs, dir, stack, toks, i + 3),
                )
            },
            None => None,
        }
    } else {
        both(Some(seq![toks[i as int]]), flat_tokens(fs, dirs, dir, stack, toks, i + 1))
    }
}

proof fn lemma_resolved(
    fs: Sources,
    dirs: Seq<Seq<char>>,
    k: nat,
    path: Seq<char>,
    x: Span,
    y: Span,
)
    ensures
        match (
            inclusion::resolve_from(fs, dirs, k, path, x),
            inclusion::resolve_from(fs, dirs, k, path, y),
        ) {
            (StepV::Done(p), StepV::Done(q)) => p == q,
            (StepV::Need(p), StepV::Need(q)) => p == q,
            (StepV::Fault(e), StepV::Fault(f)) => e.msg == f.msg,
            _ => false,
        },
    decreases dirs.len() - k,
{
    if k < dirs.len() {
        lemma_resolved(fs, dirs, k + 1, path, x, y);
    }
}

/// Whether splicing adds these tokens, or comes to no end where there are none.
spec fn adds(r: StepV<FilesV>, st: FilesV, k: Option<Seq<TokV>>) -> bool {
    match (r, k) {
        (StepV::Done(s), Some(x)) => lexing::kinds(s.out.tokens) == lexing::kinds(st.out.tokens)
            + x,
        (StepV::Done(_), None) => false,
        (_, Some(_)) => false,
        _ => true,
    }
}

proof fn lemma_spliced_file(
    fs: Sources,
    path: Seq<char>,
    dirs: Seq<Seq<char>>,
    stack: Seq<Seq<char>>,
    at: Option<Span>,
    st: FilesV,
)
    ensures
        adds(
            inclusion::splice_from(fs, path, dirs, stack, at, st),
            st,
            flat_file(fs, path, dirs, stack),
        ),
    decreases MAX_DEPTH - stack.len(), 1nat, 0nat,
{
    if stack.len() < MAX_DEPTH && fs.files@.contains_key(path) {
        match fs.files@[path]@ {
            SourceV::Text { canonical, dir, content } => {
                let file = st.files.len() as u32;
                lexing::law_file_has_the_tokens_of_its_text(content, file);
                let added = FilesV {
                    files: st.files.push(ast::FileV { path, text: content }),
                    ..st
                };
                match lexer::lex_text(content, file) {
                    Ok(raw) => lemma_spliced_tokens(
                        fs,
                        dirs,
                        dir,
                        stack.push(canonical),
                        raw,
                        0,
                        0,
                        added,
                    ),
                    Err(_) => {},
                }
            },
            _ => {},
        }
    }
}

proof fn lemma_spliced_tokens(
    fs: Sources,
    dirs: Seq<Seq<char>>,
    dir: Seq<char>,
    stack: Seq<Seq<char>>,
    raw: LexedV,
    i: nat,
    c: nat,
    st: FilesV,
)
    requires
        stack.len() <= MAX_DEPTH,
    ensures
        adds(
            inclusion::splice_tokens(fs, dirs, dir, stack, raw, i, c, st),
            st,
            flat_tokens(fs, dirs, dir, stack, lexing::kinds(raw.tokens), i),
        ),
    decreases MAX_DEPTH + 1 - stack.len(), 0nat, raw.tokens.len() - i,
{
    let toks = lexing::kinds(raw.tokens);
    let old_kinds = lexing::kinds(st.out.tokens);
    if i >= raw.tokens.len() {
        assert(old_kinds + Seq::<TokV>::empty() =~= old_kinds);
    } else if lexer::inclusion_at(raw.tokens, i) {
        assert(includes_at(toks, i));
        let n = lexer::comments_before(raw.comments, c, raw.tokens[i as int + 2].span.lo);
        let at = raw.tokens[i as int + 1].span;
        let path = raw.tokens[i as int + 1].tok->Str_0;
        let here = FilesV { out: lexer::with_comments(st.out, raw.comments, c, n), ..st };
        lemma_resolved(fs, seq![dir] + dirs, 0, path, at, ast::dummy_span());
        match inclusion::resolve_from(fs, seq![dir] + dirs, 0, path, at) {
            StepV::Done(p) => {
                lemma_spliced_file(fs, p, dirs, stack, Some(at), here);
                match inclusion::splice_from(fs, p, dirs, stack, Some(at), here) {
                    StepV::Done(s) => {
                        lemma_spliced_tokens(fs, dirs, dir, stack, raw, i + 3, n, s);
                        match (
                            flat_file(fs, p, dirs, stack),
                            flat_tokens(fs, dirs, dir, stack, toks, i + 3),
                        ) {
                            (Some(x), Some(y)) => {
                                assert((old_kinds + x) + y =~= old_kinds + (x + y));
                            },
                            _ => {},
                        }
                    },
                    _ => {},
                }
            },
            _ => {},
        }
    } else {
        assert(!includes_at(toks, i));
        let t = raw.tokens[i as int];
        let n = lexer::comments_before(raw.comments, c, t.span.lo);
        let s = FilesV {
            out: lexer::with_token(lexer::with_comments(st.out, raw.comments, c, n), t),
            ..st
        };
        lemma_spliced_tokens(fs, dirs, dir, stack, raw, i + 1, n, s);
        assert(lexing::kinds(s.out.tokens) =~= old_kinds.push(t.tok));
        match flat_tokens(fs, dirs, dir, stack, toks, i + 1) {
            Some(y) => {
                assert(old_kinds.push(t.tok) + y =~= old_kinds + (seq![toks[i as int]] + y));
            },
            None => {},
        }
    }
}

/// The stream of a program holds the tokens of its files, those of an included
/// file in the place of the inclusion, and an end token.
pub proof fn law_stream_holds_the_tokens_of_the_files(
    fs: Sources,
    path: Seq<char>,
    dirs: Seq<Seq<char>>,
)
    ensures
        match (inclusion::lex_files(fs, path, dirs), flat_file(fs, path, dirs, seq![])) {
            (StepV::Done(v), Some(k)) => lexing::kinds(v.lexed.tokens) == k.push(TokV::Eof),
            (StepV::Done(_), None) => false,
            (_, Some(_)) => false,
            _ => true,
        },
{
    let st = FilesV { files: seq![], out: lexer::nothing_lexed() };
    lemma_spliced_file(fs, path, dirs, seq![], None, st);
    match (
        inclusion::splice_from(fs, path, dirs, seq![], None, st),
        flat_file(fs, path, dirs, seq![]),
    ) {
        (StepV::Done(s), Some(k)) => {
            assert(lexing::kinds(st.out.tokens) + k =~= k);
            let v = lexer::ended(s.out, s.files);
            assert(lexing::kinds(v.lexed.tokens) =~= lexing::kinds(s.out.tokens).push(TokV::Eof));
        },
        _ => {},
    }
}

/// Two programs whose files hold the same tokens have streams that hold the
/// same tokens.
pub proof fn law_same_tokens_same_stream(
    fs: Sources,
    path: Seq<char>,
    dirs: Seq<Seq<char>>,
    gs: Sources,
    other: Seq<char>,
    others: Seq<Seq<char>>,
)
    requires
        flat_file(fs, path, dirs, seq![]) is Some,
        flat_file(fs, path, dirs, seq![]) == flat_file(gs, other, others, seq![]),
    ensures
        match (inclusion::lex_files(fs, path, dirs), inclusion::lex_files(gs, other, others)) {
            (StepV::Done(x), StepV::Done(y)) => parsing::same_tokens(
                statements::input(x.lexed),
                statements::input(y.lexed),
            ),
            _ => false,
        },
{
    law_stream_holds_the_tokens_of_the_files(fs, path, dirs);
    law_stream_holds_the_tokens_of_the_files(gs, other, others);
    match (inclusion::lex_files(fs, path, dirs), inclusion::lex_files(gs, other, others)) {
        (StepV::Done(x), StepV::Done(y)) => lemma_same_kinds(x.lexed, y.lexed),
        _ => {},
    }
}

pub(crate) proof fn lemma_same_kinds(x: LexedV, y: LexedV)
    requires
        lexing::kinds(x.tokens) == lexing::kinds(y.tokens),
    ensures
        parsing::same_tokens(statements::input(x), statements::input(y)),
{
    assert(x.tokens.len() == lexing::kinds(x.tokens).len());
    assert(y.tokens.len() == lexing::kinds(y.tokens).len());
    assert forall|i: int| 0 <= i < x.tokens.len() implies (#[trigger] x.tokens[i]).tok
        == y.tokens[i].tok by {
        assert(lexing::kinds(x.tokens)[i] == lexing::kinds(y.tokens)[i]);
    }
}

// ───────────────────────── inclusions ─────────────────────────

/// The tokens of an inclusion.
pub open spec fn inclusion_of(path: Seq<char>) -> Seq<TokV> {
    seq![TokV::Ident("include"@), TokV::Str(path), TokV::Semi]
}

/// Whether no inclusion that starts in the one list ends in the other.
pub open spec fn apart(a: Seq<TokV>, b: Seq<TokV>) -> bool {
    forall|i: nat| i < a.len() && #[trigger] includes_at(a + b, i) ==> i + 3 <= a.len()
}

proof fn lemma_flat_tail(
    fs: Sources,
    dirs: Seq<Seq<char>>,
    dir: Seq<char>,
    stack: Seq<Seq<char>>,
    a: Seq<TokV>,
    b: Seq<TokV>,
    i: nat,
)
    ensures
        flat_tokens(fs, dirs, dir, stack, a + b, a.len() + i) == flat_tokens(
            fs,
            dirs,
            dir,
            stack,
            b,
            i,
        ),
    decreases b.len() - i,
{
    let t = a + b;
    if i < b.len() {
        assert(t[(a.len() + i) as int] == b[i as int]);
        if i + 2 < b.len() {
            assert(t[(a.len() + i) as int + 1] == b[i as int + 1]);
            assert(t[(a.len() + i) as int + 2] == b[i as int + 2]);
        }
        assert(includes_at(t, a.len() + i) == includes_at(b, i));
        if includes_at(b, i) {
            lemma_flat_tail(fs, dirs, dir, stack, a, b, i + 3);
        } else {
            lemma_flat_tail(fs, dirs, dir, stack, a, b, i + 1);
        }
    }
}

proof fn lemma_flat_parts(
    fs: Sources,
    dirs: Seq<Seq<char>>,
    dir: Seq<char>,
    stack: Seq<Seq<char>>,
    a: Seq<TokV>,
    b: Seq<TokV>,
    i: nat,
)
    requires
        i <= a.len(),
        apart(a, b),
    ensures
        flat_tokens(fs, dirs, dir, stack, a + b, i) == both(
            flat_tokens(fs, dirs, dir, stack, a, i),
            flat_tokens(fs, dirs, dir, stack, b, 0),
        ),
    decreases a.len() - i,
{
    let t = a + b;
    let rest = flat_tokens(fs, dirs, dir, stack, b, 0);
    if i == a.len() {
        lemma_flat_tail(fs, dirs, dir, stack, a, b, 0);
        match rest {
            Some(y) => {
                assert(Seq::<TokV>::empty() + y =~= y);
            },
            None => {},
        }
    } else {
        assert(t[i as int] == a[i as int]);
        if i + 2 < a.len() {
            assert(t[i as int + 1] == a[i as int + 1]);
            assert(t[i as int + 2] == a[i as int + 2]);
        }
        assert(includes_at(t, i) == includes_at(a, i));
        let n = if includes_at(a, i) {
            i + 3
        } else {
            i + 1
        };
        lemma_flat_parts(fs, dirs, dir, stack, a, b, n);
        let first = if includes_at(a, i) {
            match found(fs, seq![dir] + dirs, a[i as int + 1]->Str_0) {
                Some(p) => flat_file(fs, p, dirs, stack),
                None => None,
            }
        } else {
            Some(seq![a[i as int]])
        };
        match (first, flat_tokens(fs, dirs, dir, stack, a, n), rest) {
            (Some(x), Some(y), Some(z)) => {
                assert(x + (y + z) =~= (x + y) + z);
            },
            _ => {},
        }
    }
}

/// An inclusion stands for the tokens of the file that it names, between the
/// tokens before it and the tokens behind it.
pub proof fn law_inclusion_stands_for_its_file(
    fs: Sources,
    dirs: Seq<Seq<char>>,
    dir: Seq<char>,
    stack: Seq<Seq<char>>,
    a: Seq<TokV>,
    path: Seq<char>,
    b: Seq<TokV>,
)
    requires
        stack.len() <= MAX_DEPTH,
        apart(a, inclusion_of(path) + b),
    ensures
        flat_tokens(fs, dirs, dir, stack, a + (inclusion_of(path) + b), 0) == both(
            flat_tokens(fs, dirs, dir, stack, a, 0),
            both(
                match found(fs, seq![dir] + dirs, path) {
                    Some(p) => flat_file(fs, p, dirs, stack),
                    None => None,
                },
                flat_tokens(fs, dirs, dir, stack, b, 0),
            ),
        ),
{
    let t = inclusion_of(path) + b;
    lemma_flat_parts(fs, dirs, dir, stack, a, t, 0);
    assert(t[0] == TokV::Ident("include"@) && t[1] == TokV::Str(path) && t[2] is Semi);
    assert(includes_at(t, 0));
    lemma_flat_tail(fs, dirs, dir, stack, inclusion_of(path), b, 0);
}

/// Without inclusions the tokens stay as they are.
pub proof fn law_nothing_included(
    fs: Sources,
    dirs: Seq<Seq<char>>,
    dir: Seq<char>,
    stack: Seq<Seq<char>>,
    toks: Seq<TokV>,
)
    requires
        forall|i: nat| !#[trigger] includes_at(toks, i),
    ensures
        flat_tokens(fs, dirs, dir, stack, toks, 0) == Some(toks),
{
    lemma_nothing_included(fs, dirs, dir, stack, toks, 0);
    assert(toks.skip(0) =~= toks);
}

proof fn lemma_nothing_included(
    fs: Sources,
    dirs: Seq<Seq<char>>,
    dir: Seq<char>,
    stack: Seq<Seq<char>>,
    toks: Seq<TokV>,
    i: nat,
)
    requires
        i <= toks.len(),
        forall|i: nat| !#[trigger] includes_at(toks, i),
    ensures
        flat_tokens(fs, dirs, dir, stack, toks, i) == Some(toks.skip(i as int)),
    decreases toks.len() - i,
{
    if i < toks.len() {
        assert(!includes_at(toks, i));
        lemma_nothing_included(fs, dirs, dir, stack, toks, i + 1);
        assert(seq![toks[i as int]] + toks.skip(i as int + 1) =~= toks.skip(i as int));
    } else {
        assert(toks.skip(i as int) =~= seq![]);
    }
}

} // verus!
