//! Asking about files comes to an end that does not depend on the way there:
//! only what is not known is asked for, and what was settled stays settled when
//! more is known.

use crate::ast::{ErrV, Span};
use crate::inclusion;
use crate::inclusion::{FilesV, QuestionV, SourceV, Sources, StepV};
use crate::lexer;
use crate::lexer::LexedV;
use vstd::prelude::*;
use vstd::string::*;

verus! {

/// Whether the answer to a question is known.
pub open spec fn known(fs: Sources, q: QuestionV) -> bool {
    match q {
        QuestionV::File(path) => fs.files@.contains_key(path),
        QuestionV::Lookup { dir, path } => inclusion::looked_up(
            fs.lookups@,
            fs.lookups@.len(),
            dir,
            path,
        ) is Some,
    }
}

/// Whether all that is known in `a` is known in `b`.
pub open spec fn learned(a: Sources, b: Sources) -> bool {
    &&& forall|path: Seq<char>| #[trigger]
        a.files@.contains_key(path) ==> b.files@.contains_key(path) && b.files@[path]@
            == a.files@[path]@
    &&& forall|dir: Seq<char>, path: Seq<char>|
        (#[trigger] inclusion::looked_up(a.lookups@, a.lookups@.len(), dir, path)) is Some
            ==> inclusion::looked_up(b.lookups@, b.lookups@.len(), dir, path)
            == inclusion::looked_up(a.lookups@, a.lookups@.len(), dir, path)
}

proof fn lemma_resolve(
    a: Sources,
    b: Sources,
    dirs: Seq<Seq<char>>,
    k: nat,
    path: Seq<char>,
    at: Span,
)
    requires
        learned(a, b),
    ensures
        inclusion::resolve_from(a, dirs, k, path, at) matches StepV::Need(q) ==> !known(a, q),
        !(inclusion::resolve_from(a, dirs, k, path, at) is Need) ==> inclusion::resolve_from(
            b,
            dirs,
            k,
            path,
            at,
        ) == inclusion::resolve_from(a, dirs, k, path, at),
    decreases dirs.len() - k,
{
    if k < dirs.len() {
        lemma_resolve(a, b, dirs, k + 1, path, at);
    }
}

proof fn lemma_splice(
    a: Sources,
    b: Sources,
    path: Seq<char>,
    dirs: Seq<Seq<char>>,
    stack: Seq<Seq<char>>,
    at: Option<Span>,
    st: FilesV,
)
    requires
        learned(a, b),
    ensures
        inclusion::splice_from(a, path, dirs, stack, at, st) matches StepV::Need(q) ==> !known(
            a,
            q,
        ),
        !(inclusion::splice_from(a, path, dirs, stack, at, st) is Need) ==> inclusion::splice_from(
            b,
            path,
            dirs,
            stack,
            at,
            st,
        ) == inclusion::splice_from(a, path, dirs, stack, at, st),
    decreases inclusion::MAX_DEPTH - stack.len(), 1nat, 0nat,
{
    if stack.len() < inclusion::MAX_DEPTH && a.files@.contains_key(path) {
        let s = a.files@[path]@;
        let canonical = inclusion::canonical_of(s);
        match s {
            SourceV::Text { dir, content, .. } => {
                let added = FilesV {
                    files: st.files.push(crate::ast::FileV { path, text: content }),
                    ..st
                };
                match lexer::lex_text(content, st.files.len() as u32) {
                    Ok(raw) => lemma_tokens(
                        a,
                        b,
                        dirs,
                        dir,
                        stack.push(canonical),
                        raw,
                        0,
                        0,
                        added,
                    ),
                    Err(_) => {},
                }
            },
            _ => {},
        }
    }
}

proof fn lemma_tokens(
    a: Sources,
    b: Sources,
    dirs: Seq<Seq<char>>,
    dir: Seq<char>,
    stack: Seq<Seq<char>>,
    raw: LexedV,
    i: nat,
    c: nat,
    st: FilesV,
)
    requires
        learned(a, b),
    ensures
        inclusion::splice_tokens(a, dirs, dir, stack, raw, i, c, st) matches StepV::Need(q)
            ==> !known(a, q),
        !(inclusion::splice_tokens(a, dirs, dir, stack, raw, i, c, st) is Need)
            ==> inclusion::splice_tokens(b, dirs, dir, stack, raw, i, c, st)
            == inclusion::splice_tokens(a, dirs, dir, stack, raw, i, c, st),
    decreases inclusion::MAX_DEPTH + 1 - stack.len(), 0nat, raw.tokens.len() - i,
{
    if i >= raw.tokens.len() {
    } else if lexer::inclusion_at(raw.tokens, i) {
        let n = lexer::comments_before(raw.comments, c, raw.tokens[i as int + 2].span.lo);
        let at = raw.tokens[i as int + 1].span;
        let here = FilesV { out: lexer::with_comments(st.out, raw.comments, c, n), ..st };
        let path = raw.tokens[i as int + 1].tok->Str_0;
        lemma_resolve(a, b, seq![dir] + dirs, 0, path, at);
        match inclusion::resolve_from(a, seq![dir] + dirs, 0, path, at) {
            StepV::Done(p) => if stack.len() <= inclusion::MAX_DEPTH {
                lemma_splice(a, b, p, dirs, stack, Some(at), here);
                match inclusion::splice_from(a, p, dirs, stack, Some(at), here) {
                    StepV::Done(s) => lemma_tokens(a, b, dirs, dir, stack, raw, i + 3, n, s),
                    _ => {},
                }
            },
            _ => {},
        }
    } else {
        let t = raw.tokens[i as int];
        let n = lexer::comments_before(raw.comments, c, t.span.lo);
        let next = FilesV {
            out: lexer::with_token(lexer::with_comments(st.out, raw.comments, c, n), t),
            ..st
        };
        lemma_tokens(a, b, dirs, dir, stack, raw, i + 1, n, next);
    }
}

/// Only what is not known is asked for.
pub proof fn law_questions_are_new(fs: Sources, path: Seq<char>, dirs: Seq<Seq<char>>)
    ensures
        inclusion::lex_files(fs, path, dirs) matches StepV::Need(q) ==> !known(fs, q),
{
    let start = FilesV { files: seq![], out: lexer::nothing_lexed() };
    lemma_splice(fs, fs, path, dirs, seq![], None, start);
}

/// What was settled stays settled, whatever else is found out.
pub proof fn law_answers_are_settled(
    a: Sources,
    b: Sources,
    path: Seq<char>,
    dirs: Seq<Seq<char>>,
)
    requires
        learned(a, b),
        !(inclusion::lex_files(a, path, dirs) is Need),
    ensures
        inclusion::lex_files(b, path, dirs) == inclusion::lex_files(a, path, dirs),
{
    let start = FilesV { files: seq![], out: lexer::nothing_lexed() };
    lemma_splice(a, b, path, dirs, seq![], None, start);
}

/// An included path is the one that was found in the first directory that has it; where
/// no directory has it, that is an error.
pub proof fn law_the_first_directory_counts(
    fs: Sources,
    dirs: Seq<Seq<char>>,
    k: nat,
    i: nat,
    path: Seq<char>,
    at: Span,
)
    requires
        k <= i <= dirs.len(),
        forall|j: int|
            k <= j < i ==> inclusion::looked_up(
                fs.lookups@,
                fs.lookups@.len(),
                #[trigger] dirs[j],
                path,
            ) == Some(None::<Seq<char>>),
    ensures
        i == dirs.len() ==> inclusion::resolve_from(fs, dirs, k, path, at) == StepV::<
            Seq<char>,
        >::Fault(
            (ErrV { span: Some(at), msg: "include file not found: "@ + path }),
        ),
        i < dirs.len() ==> (inclusion::looked_up(
            fs.lookups@,
            fs.lookups@.len(),
            dirs[i as int],
            path,
        ) matches Some(Some(p)) ==> inclusion::resolve_from(fs, dirs, k, path, at) == StepV::Done(
            p,
        )),
        i < dirs.len() ==> (inclusion::looked_up(
            fs.lookups@,
            fs.lookups@.len(),
            dirs[i as int],
            path,
        ) is None ==> inclusion::resolve_from(fs, dirs, k, path, at) == StepV::<Seq<char>>::Need(
            QuestionV::Lookup { dir: dirs[i as int], path },
        )),
    decreases i - k,
{
    if k < i {
        let d = dirs[k as int];
        law_the_first_directory_counts(fs, dirs, k + 1, i, path, at);
    }
}

proof fn lemma_first_of(stack: Seq<Seq<char>>, p: Seq<char>, from: nat)
    ensures
        inclusion::first_of(stack, p, from) < stack.len() <==> exists|i: int|
            from <= i < stack.len() && #[trigger] stack[i] == p,
    decreases stack.len() - from,
{
    if from < stack.len() && stack[from as int] != p {
        lemma_first_of(stack, p, from + 1);
    }
}

/// A file that is being read does not include itself, directly or through others: that
/// is an error, and nothing is read of it.
pub proof fn law_no_file_includes_itself(
    fs: Sources,
    path: Seq<char>,
    dirs: Seq<Seq<char>>,
    stack: Seq<Seq<char>>,
    at: Option<Span>,
    st: FilesV,
)
    requires
        fs.files@.contains_key(path),
        fs.files@[path]@ matches SourceV::Text { canonical, .. } && stack.contains(canonical),
    ensures
        inclusion::splice_from(fs, path, dirs, stack, at, st) is Fault,
{
    let c = fs.files@[path]@->Text_canonical;
    let i = choose|i: int| 0 <= i < stack.len() && stack[i] == c;
    lemma_first_of(stack, c, 0);
}

} // verus!
