//! A dump that lists the files of a program in the order in which they are
//! included stands for the same program as the files.

use crate::ast;
use crate::ast::{ErrV, FileV, NEWLINE};
use crate::inclusion;
use crate::inclusion::{SourceV, Sources, StepV, MAX_DEPTH};
use crate::layout::lexing;
use crate::layout::parsing;
use crate::layout::splicing;
use crate::layout::whole;
use crate::lexer;
use crate::lexer::{LexedV, ShowV, TokV, TokenV};
use crate::parser;
use crate::statements;
use crate::text;
use crate::vclshow;
use crate::vclshow::ChunkV;
use crate::vmod::VmodSpec;
use vstd::prelude::*;
use vstd::string::*;
use vstd::utf8::*;

verus! {

/// The chunk behind those of a file and of the files that it includes, where
/// the chunks from `at` on are these files in this order.
pub open spec fn listed_file(
    fs: Sources,
    path: Seq<char>,
    dirs: Seq<Seq<char>>,
    stack: Seq<Seq<char>>,
    chunks: Seq<ChunkV>,
    at: nat,
) -> Option<nat>
    decreases MAX_DEPTH - stack.len(), 1nat, 0nat,
{
    if stack.len() >= MAX_DEPTH || !fs.files@.contains_key(path) || at >= chunks.len() {
        None
    } else {
        match fs.files@[path]@ {
            SourceV::Text { canonical, dir, content } => if content != chunks[at as int].content {
                None
            } else {
                match lexing::tokens_of(content) {
                    Ok(toks) => listed_tokens(
                        fs,
                        dirs,
                        dir,
                        stack.push(canonical),
                        toks,
                        0,
                        chunks,
                        at + 1,
                    ),
                    Err(_) => None,
                }
            },
            _ => None,
        }
    }
}

/// The chunk behind those of the files that the tokens from `i` on include,
/// where the chunks from `at` on are these files in this order.
pub open spec fn listed_tokens(
    fs: Sources,
    dirs: Seq<Seq<char>>,
    dir: Seq<char>,
    stack: Seq<Seq<char>>,
    toks: Seq<TokV>,
    i: nat,
    chunks: Seq<ChunkV>,
    at: nat,
) -> Option<nat>
    decreases MAX_DEPTH + 1 - stack.len(), 0nat, toks.len() - i,
{
    if i >= toks.len() {
        Some(at)
    } else if splicing::includes_at(toks, i) {
        match splicing::found(fs, seq![dir] + dirs, toks[i as int + 1]->Str_0) {
            Some(p) => if stack.len() > MAX_DEPTH {
                None
            } else {
                match listed_file(fs, p, dirs, stack, chunks, at) {
                    Some(n) => listed_tokens(fs, dirs, dir, stack, toks, i + 3, chunks, n),
                    None => None,
                }
            },
            None => None,
        }
    } else {
        listed_tokens(fs, dirs, dir, stack, toks, i + 1, chunks, at)
    }
}

/// Whether a dump lists the files of a program, and at most the builtin code
/// behind them.
pub open spec fn lists(
    chunks: Seq<ChunkV>,
    fs: Sources,
    path: Seq<char>,
    dirs: Seq<Seq<char>>,
) -> bool {
    match listed_file(fs, path, dirs, seq![], chunks, 0) {
        Some(n) => n == chunks.len() || (n + 1 == chunks.len() && chunks[n as int].filename
            == "Builtin"@),
        None => false,
    }
}

/// Whether splicing chunks adds these tokens and ends before chunk `n`.
spec fn adds(
    r: core::result::Result<ShowV, ast::ErrV>,
    st: ShowV,
    k: Option<Seq<TokV>>,
    n: nat,
) -> bool {
    match (r, k) {
        (Ok(s), Some(x)) => lexing::kinds(s.out.tokens) == lexing::kinds(st.out.tokens) + x
            && s.next == n,
        _ => false,
    }
}

proof fn lemma_chunk(
    fs: Sources,
    path: Seq<char>,
    dirs: Seq<Seq<char>>,
    stack: Seq<Seq<char>>,
    chunks: Seq<ChunkV>,
    at: nat,
    st: ShowV,
)
    requires
        listed_file(fs, path, dirs, stack, chunks, at) is Some,
        splicing::flat_file(fs, path, dirs, stack) is Some,
        st.next == at + 1,
    ensures
        at < listed_file(fs, path, dirs, stack, chunks, at)->0 <= chunks.len(),
        adds(
            lexer::splice_chunk_from(chunks, at, st),
            st,
            splicing::flat_file(fs, path, dirs, stack),
            listed_file(fs, path, dirs, stack, chunks, at)->0,
        ),
    decreases MAX_DEPTH - stack.len(), 1nat, 0nat,
{
    match fs.files@[path]@ {
        SourceV::Text { canonical, dir, content } => {
            let file = st.files.len() as u32;
            let c = chunks[at as int];
            lexing::law_file_has_the_tokens_of_its_text(content, file);
            let added = ShowV {
                files: st.files.push(ast::FileV { path: c.filename, text: c.content }),
                ..st
            };
            match lexer::lex_text(content, file) {
                Ok(raw) => lemma_chunk_tokens(
                    fs,
                    dirs,
                    dir,
                    stack.push(canonical),
                    raw,
                    0,
                    0,
                    chunks,
                    added,
                ),
                Err(_) => {},
            }
        },
        _ => {},
    }
}

proof fn lemma_chunk_tokens(
    fs: Sources,
    dirs: Seq<Seq<char>>,
    dir: Seq<char>,
    stack: Seq<Seq<char>>,
    raw: LexedV,
    i: nat,
    c: nat,
    chunks: Seq<ChunkV>,
    st: ShowV,
)
    requires
        stack.len() <= MAX_DEPTH,
        st.next <= chunks.len(),
        listed_tokens(fs, dirs, dir, stack, lexing::kinds(raw.tokens), i, chunks, st.next) is Some,
        splicing::flat_tokens(fs, dirs, dir, stack, lexing::kinds(raw.tokens), i) is Some,
    ensures
        st.next <= listed_tokens(
            fs,
            dirs,
            dir,
            stack,
            lexing::kinds(raw.tokens),
            i,
            chunks,
            st.next,
        )->0 <= chunks.len(),
        adds(
            lexer::splice_chunk_tokens(chunks, raw, i, c, st),
            st,
            splicing::flat_tokens(fs, dirs, dir, stack, lexing::kinds(raw.tokens), i),
            listed_tokens(fs, dirs, dir, stack, lexing::kinds(raw.tokens), i, chunks, st.next)->0,
        ),
    decreases MAX_DEPTH + 1 - stack.len(), 0nat, raw.tokens.len() - i,
{
    let toks = lexing::kinds(raw.tokens);
    let old_kinds = lexing::kinds(st.out.tokens);
    if i >= raw.tokens.len() {
        assert(old_kinds + Seq::<TokV>::empty() =~= old_kinds);
    } else if lexer::inclusion_at(raw.tokens, i) {
        assert(splicing::includes_at(toks, i));
        let n = lexer::comments_before(raw.comments, c, raw.tokens[i as int + 2].span.lo);
        let here = ShowV {
            next: st.next + 1,
            out: lexer::with_comments(st.out, raw.comments, c, n),
            ..st
        };
        let p = splicing::found(fs, seq![dir] + dirs, toks[i as int + 1]->Str_0)->0;
        lemma_chunk(fs, p, dirs, stack, chunks, st.next, here);
        match lexer::splice_chunk_from(chunks, st.next, here) {
            Ok(s) => {
                lemma_chunk_tokens(fs, dirs, dir, stack, raw, i + 3, n, chunks, s);
                let x = splicing::flat_file(fs, p, dirs, stack)->0;
                let y = splicing::flat_tokens(fs, dirs, dir, stack, toks, i + 3)->0;
                assert((old_kinds + x) + y =~= old_kinds + (x + y));
            },
            Err(_) => {},
        }
    } else {
        assert(!splicing::includes_at(toks, i));
        let t = raw.tokens[i as int];
        let n = lexer::comments_before(raw.comments, c, t.span.lo);
        let s = ShowV {
            out: lexer::with_token(lexer::with_comments(st.out, raw.comments, c, n), t),
            ..st
        };
        lemma_chunk_tokens(fs, dirs, dir, stack, raw, i + 1, n, chunks, s);
        assert(lexing::kinds(s.out.tokens) =~= old_kinds.push(t.tok));
        let y = splicing::flat_tokens(fs, dirs, dir, stack, toks, i + 1)->0;
        assert(old_kinds.push(t.tok) + y =~= old_kinds + (seq![toks[i as int]] + y));
    }
}

/// A dump that lists the files of a program holds the same tokens as the files.
pub proof fn law_dump_holds_the_tokens_of_the_files(
    chunks: Seq<ChunkV>,
    fs: Sources,
    path: Seq<char>,
    dirs: Seq<Seq<char>>,
)
    requires
        lists(chunks, fs, path, dirs),
        splicing::flat_file(fs, path, dirs, seq![]) is Some,
    ensures
        match (lexer::lex_chunks(chunks), inclusion::lex_files(fs, path, dirs)) {
            (Ok(a), StepV::Done(b)) => parsing::same_tokens(
                statements::input(a.lexed),
                statements::input(b.lexed),
            ),
            _ => false,
        },
{
    let st = ShowV { next: 1, files: seq![], out: lexer::nothing_lexed() };
    lemma_chunk(fs, path, dirs, seq![], chunks, 0, st);
    splicing::law_stream_holds_the_tokens_of_the_files(fs, path, dirs);
    let k = splicing::flat_file(fs, path, dirs, seq![])->0;
    match lexer::splice_chunk_from(chunks, 0, st) {
        Ok(s) => {
            assert(lexing::kinds(st.out.tokens) + k =~= k);
            let left = lexer::names_from(chunks, s.next);
            if s.next < chunks.len() {
                assert(left[0] == chunks[s.next as int].filename);
            }
            let v = lexer::ended(s.out, s.files);
            assert(lexing::kinds(v.lexed.tokens) =~= lexing::kinds(s.out.tokens).push(TokV::Eof));
            match inclusion::lex_files(fs, path, dirs) {
                StepV::Done(b) => splicing::lemma_same_kinds(v.lexed, b.lexed),
                _ => {},
            }
        },
        Err(_) => {},
    }
}

/// A dump that lists the files of a program stands for a program of the same
/// form as the files.
pub proof fn law_dump_stands_for_the_files(
    chunks: Seq<ChunkV>,
    fs: Sources,
    path: Seq<char>,
    dirs: Seq<Seq<char>>,
    specs: Map<Seq<char>, VmodSpec>,
    rename: bool,
)
    requires
        lists(chunks, fs, path, dirs),
        splicing::flat_file(fs, path, dirs, seq![]) is Some,
    ensures
        match (lexer::lex_chunks(chunks), inclusion::lex_files(fs, path, dirs)) {
            (Ok(a), StepV::Done(b)) => whole::form(
                parser::program_of(Ok(a)),
                specs,
                rename,
            ) == whole::form(parser::program_of(Ok(b)), specs, rename),
            _ => false,
        },
{
    law_dump_holds_the_tokens_of_the_files(chunks, fs, path, dirs);
    match (lexer::lex_chunks(chunks), inclusion::lex_files(fs, path, dirs)) {
        (Ok(a), StepV::Done(b)) => whole::law_layout_does_not_matter(a, b, specs, rename),
        _ => {},
    }
}

// ───────────────────────── headings ─────────────────────────

proof fn lemma_skip_breaks(a: Seq<u8>, c: Seq<u8>, p: nat)
    ensures
        vclshow::skip_breaks(a + c, a.len() + p) == a.len() + vclshow::skip_breaks(c, p),
    decreases c.len() - p,
{
    if p < c.len() {
        assert((a + c)[(a.len() + p) as int] == c[p as int]);
        lemma_skip_breaks(a, c, p + 1);
    }
}

proof fn lemma_boundary(a: Seq<u8>, c: Seq<u8>, p: nat)
    requires
        p <= c.len(),
        valid_utf8(a + c),
        valid_utf8(c),
    ensures
        is_char_boundary(a + c, (a.len() + p) as int) == is_char_boundary(c, p as int),
{
    let b = a + c;
    if p == c.len() {
        is_char_boundary_start_end_of_seq(b);
        is_char_boundary_start_end_of_seq(c);
    } else {
        assert(b[(a.len() + p) as int] == c[p as int]);
        is_char_boundary_iff_not_is_continuation_byte(b, (a.len() + p) as int);
        is_char_boundary_iff_not_is_continuation_byte(c, p as int);
    }
}

/// A dump is read behind other text as it is read alone.
proof fn lemma_dump_behind(a: Seq<u8>, c: Seq<u8>, p: nat, done: Seq<ChunkV>)
    requires
        p <= c.len(),
        valid_utf8(a + c),
        valid_utf8(c),
    ensures
        vclshow::dump_from(a + c, a.len() + p, done) == vclshow::dump_from(c, p, done),
    decreases c.len() - p,
{
    let b = a + c;
    let m = vclshow::marker();
    lexing::lemma_shift_line(a, c, p);
    lexing::lemma_line_end(c, p);
    let e = ast::line_end(c, p);
    if p < c.len() {
        if p + m.len() <= c.len() {
            assert(b.subrange((a.len() + p) as int, (a.len() + p + m.len()) as int) =~= c.subrange(
                p as int,
                (p + m.len()) as int,
            ));
        }
        if vclshow::bytes_at(c, p, m) && e < c.len() {
            vclshow::lemma_marker();
            assert forall|i: int| p <= i < p + m.len() implies c[i] != NEWLINE by {
                assert(c.subrange(p as int, (p + m.len()) as int)[i - p] == m[i - p]);
            }
            vclshow::lemma_line_end_behind(c, p, m.len());
            lexing::lemma_shift_text(a, c, p + m.len(), e);
            match vclshow::read_marker(text::text_of(c, (p + m.len()) as int, e as int)) {
                Ok(x) => {
                    let end = e + 1 + x.len;
                    lemma_skip_breaks(a, c, end);
                    let n = vclshow::skip_breaks(c, end);
                    if end <= c.len() {
                        lemma_boundary(a, c, end);
                        lexing::lemma_shift_text(a, c, e + 1, end);
                        if p < n <= c.len() {
                            lemma_dump_behind(
                                a,
                                c,
                                n,
                                done.push(
                                    ChunkV {
                                        index: x.index as u32,
                                        declared_len: x.len as u32,
                                        filename: x.filename,
                                        content: text::text_of(c, e as int + 1, end as int),
                                    },
                                ),
                            );
                        }
                    }
                },
                Err(_) => {},
            }
        }
    }
}

proof fn lemma_line_ahead(a: Seq<u8>, c: Seq<u8>, p: nat)
    requires
        ast::line_end(a, p) < a.len(),
    ensures
        ast::line_end(a + c, p) == ast::line_end(a, p),
    decreases a.len() - p,
{
    if p < a.len() {
        assert((a + c)[p as int] == a[p as int]);
        if a[p as int] != NEWLINE {
            lemma_line_ahead(a, c, p + 1);
        }
    }
}

proof fn lemma_rule_ahead(a: Seq<u8>, c: Seq<u8>, lo: nat, hi: nat)
    requires
        hi <= a.len(),
        vclshow::rule_line(a, lo, hi),
    ensures
        vclshow::rule_line(a + c, lo, hi),
{
    let k = choose|k: int| #[trigger] vclshow::dashes_upto(a, lo, k, hi);
    assert forall|j: int| lo <= j < hi implies (a + c)[j] == a[j] by {}
    assert(vclshow::dashes_upto(a + c, lo, k, hi));
}

/// Whether a text is a heading: a line of dashes, a line that begins with
/// `Item`, and a line of dashes.
pub open spec fn is_heading(h: Seq<char>) -> bool {
    let b = encode_utf8(h);
    b.len() > 0 && vclshow::chunks_start(b) == b.len()
}

/// The heading of a dump does not matter.
pub proof fn law_a_heading_does_not_matter(h: Seq<char>, t: Seq<char>)
    requires
        is_heading(h),
        vclshow::chunks_start(encode_utf8(t)) == 0,
    ensures
        vclshow::dump(h + t) == vclshow::dump(t),
{
    let a = encode_utf8(h);
    let c = encode_utf8(t);
    lexing::lemma_encode_add(h, t);
    encode_utf8_valid_utf8(h + t);
    encode_utf8_valid_utf8(t);
    let l1 = ast::line_end(a, 0);
    let l2 = ast::line_end(a, l1 + 1);
    let l3 = ast::line_end(a, l2 + 1);
    let item = encode_utf8("Item"@);
    lemma_line_ahead(a, c, 0);
    lemma_line_ahead(a, c, l1 + 1);
    lemma_line_ahead(a, c, l2 + 1);
    lemma_rule_ahead(a, c, 0, l1);
    lemma_rule_ahead(a, c, l2 + 1, l3);
    assert((a + c).subrange((l1 + 1) as int, (l1 + 1 + item.len()) as int) =~= a.subrange(
        (l1 + 1) as int,
        (l1 + 1 + item.len()) as int,
    ));
    assert(vclshow::chunks_start(a + c) == a.len());
    lemma_dump_behind(a, c, 0, seq![]);
}

// ───────────────────────── the paths of inclusions ─────────────────────────

/// Whether two streams of tokens are the same but for the paths that they
/// include.
pub open spec fn same_but_paths(a: Seq<TokenV>, b: Seq<TokenV>) -> bool {
    &&& a.len() == b.len()
    &&& forall|i: int|
        0 <= i < a.len() ==> (#[trigger] a[i]).tok == b[i].tok || (i > 0 && lexer::inclusion_at(
            a,
            (i - 1) as nat,
        ) && b[i].tok is Str)
}

/// Whether the chunks of two dumps are the same but for the paths that they
/// include.
pub open spec fn chunks_but_paths(a: Seq<ChunkV>, b: Seq<ChunkV>) -> bool {
    &&& a.len() == b.len()
    &&& forall|i: int| #![trigger a[i]]
        0 <= i < a.len() ==> a[i].filename == b[i].filename && forall|f: u32|
            match (
                #[trigger] lexer::lex_text(a[i].content, f),
                lexer::lex_text(b[i].content, f),
            ) {
                (Ok(x), Ok(y)) => same_but_paths(x.tokens, y.tokens),
                (Err(e), Err(g)) => e.msg == g.msg,
                _ => false,
            }
}

/// Whether two dumps are spliced as far, and have the same tokens.
spec fn as_far(
    x: core::result::Result<ShowV, ErrV>,
    y: core::result::Result<ShowV, ErrV>,
    n: nat,
) -> bool {
    match (x, y) {
        (Ok(s), Ok(t)) => same_state(s, t) && s.next <= n,
        (Err(e), Err(f)) => e.msg == f.msg,
        _ => false,
    }
}

spec fn same_state(s: ShowV, t: ShowV) -> bool {
    &&& s.next == t.next
    &&& s.files.len() == t.files.len()
    &&& lexing::kinds(s.out.tokens) == lexing::kinds(t.out.tokens)
}

proof fn lemma_chunk_paths(a: Seq<ChunkV>, b: Seq<ChunkV>, idx: nat, s: ShowV, t: ShowV)
    requires
        chunks_but_paths(a, b),
        idx < a.len(),
        same_state(s, t),
        s.next <= a.len(),
    ensures
        as_far(lexer::splice_chunk_from(a, idx, s), lexer::splice_chunk_from(b, idx, t), a.len()),
    decreases a.len() - s.next, 1nat, 0nat,
{
    let c = a[idx as int];
    let d = b[idx as int];
    let f = s.files.len() as u32;
    match (lexer::lex_text(c.content, f), lexer::lex_text(d.content, f)) {
        (Ok(x), Ok(y)) => {
            let s1 = ShowV {
                files: s.files.push(FileV { path: c.filename, text: c.content }),
                ..s
            };
            let t1 = ShowV {
                files: t.files.push(FileV { path: d.filename, text: d.content }),
                ..t
            };
            lemma_tokens_paths(a, b, x, y, 0, 0, 0, s1, t1);
        },
        _ => {},
    }
}

proof fn lemma_tokens_paths(
    a: Seq<ChunkV>,
    b: Seq<ChunkV>,
    x: LexedV,
    y: LexedV,
    i: nat,
    c: nat,
    d: nat,
    s: ShowV,
    t: ShowV,
)
    requires
        chunks_but_paths(a, b),
        same_but_paths(x.tokens, y.tokens),
        i > 0 ==> !lexer::inclusion_at(x.tokens, (i - 1) as nat),
        same_state(s, t),
        s.next <= a.len(),
    ensures
        as_far(
            lexer::splice_chunk_tokens(a, x, i, c, s),
            lexer::splice_chunk_tokens(b, y, i, d, t),
            a.len(),
        ),
    decreases a.len() - s.next, 0nat, x.tokens.len() - i,
{
    let p = x.tokens;
    let q = y.tokens;
    if i < p.len() {
        assert(p[i as int].tok == q[i as int].tok);
        if i + 2 < p.len() {
            assert(p[i as int + 1].tok == q[i as int + 1].tok || q[i as int + 1].tok is Str);
            assert(p[i as int + 2].tok == q[i as int + 2].tok || (lexer::inclusion_at(p, i + 1)
                && q[i as int + 2].tok is Str));
        }
        assert(lexer::inclusion_at(p, i) == lexer::inclusion_at(q, i));
        if lexer::inclusion_at(p, i) {
            let m = lexer::comments_before(x.comments, c, p[i as int + 2].span.lo);
            let n = lexer::comments_before(y.comments, d, q[i as int + 2].span.lo);
            let s0 = ShowV { out: lexer::with_comments(s.out, x.comments, c, m), ..s };
            let t0 = ShowV { out: lexer::with_comments(t.out, y.comments, d, n), ..t };
            if s.next < a.len() {
                let s1 = ShowV { next: s.next + 1, ..s0 };
                let t1 = ShowV { next: t.next + 1, ..t0 };
                lemma_chunk_paths(a, b, s.next, s1, t1);
                match (
                    lexer::splice_chunk_from(a, s.next, s1),
                    lexer::splice_chunk_from(b, t.next, t1),
                ) {
                    (Ok(s2), Ok(t2)) => if s.next < s2.next <= a.len() {
                        lemma_tokens_paths(a, b, x, y, i + 3, m, n, s2, t2);
                    },
                    _ => {},
                }
            }
        } else {
            let v = p[i as int];
            let w = q[i as int];
            let m = lexer::comments_before(x.comments, c, v.span.lo);
            let n = lexer::comments_before(y.comments, d, w.span.lo);
            let s1 = ShowV {
                out: lexer::with_token(lexer::with_comments(s.out, x.comments, c, m), v),
                ..s
            };
            let t1 = ShowV {
                out: lexer::with_token(lexer::with_comments(t.out, y.comments, d, n), w),
                ..t
            };
            assert(lexing::kinds(s1.out.tokens) =~= lexing::kinds(s.out.tokens).push(v.tok));
            assert(lexing::kinds(t1.out.tokens) =~= lexing::kinds(t.out.tokens).push(w.tok));
            lemma_tokens_paths(a, b, x, y, i + 1, m, n, s1, t1);
        }
    }
}

/// The path of an inclusion does not matter in a dump: the next chunk is taken
/// for it, whatever the path says.
pub proof fn law_paths_do_not_matter_in_dumps(a: Seq<ChunkV>, b: Seq<ChunkV>)
    requires
        chunks_but_paths(a, b),
    ensures
        match (lexer::lex_chunks(a), lexer::lex_chunks(b)) {
            (Ok(x), Ok(y)) => parsing::same_tokens(
                statements::input(x.lexed),
                statements::input(y.lexed),
            ),
            (Err(e), Err(f)) => e.msg == f.msg,
            _ => false,
        },
{
    if a.len() > 0 {
        let s = ShowV { next: 1, files: seq![], out: lexer::nothing_lexed() };
        lemma_chunk_paths(a, b, 0, s, s);
        match (lexer::splice_chunk_from(a, 0, s), lexer::splice_chunk_from(b, 0, s)) {
            (Ok(u), Ok(v)) => {
                let g = lexer::names_from(a, u.next);
                let h = lexer::names_from(b, v.next);
                assert forall|i: int| 0 <= i < g.len() implies #[trigger] g[i] == h[i] by {
                    assert(a[u.next + i].filename == b[u.next + i].filename);
                }
                assert(g =~= h);
                let x = lexer::ended(u.out, u.files).lexed.tokens;
                let y = lexer::ended(v.out, v.files).lexed.tokens;
                let k = lexing::kinds(u.out.tokens);
                let l = lexing::kinds(v.out.tokens);
                assert(k.len() == u.out.tokens.len() && l.len() == v.out.tokens.len());
                assert forall|i: int| 0 <= i < x.len() implies (#[trigger] x[i]).tok == y[i].tok by {
                    if i < u.out.tokens.len() {
                        assert(k[i] == u.out.tokens[i].tok);
                        assert(l[i] == v.out.tokens[i].tok);
                    }
                }
            },
            _ => {},
        }
    }
}

} // verus!
