//! Lexing a program that is spread over files.
//!
//! The library reads no files. [`lex`] works on what is known of the file
//! system so far ([`Sources`]) and either comes to an end or says what it has to
//! know next ([`Question`]); the caller finds that out, adds it and calls again.

use crate::ast;
use crate::ast::{ErrV, FileV, SourceMap, Span, VclError, VclResult};
use crate::lexer;
use crate::lexer::{Lexed, LexedV, StreamV, Tok};
use crate::table::Table;
use crate::text;
use vstd::prelude::*;
use vstd::string::*;
use vstd::utf8::*;

pub mod progress;

verus! {

/// How deep inclusions may nest.
pub const MAX_DEPTH: usize = 32;

/// What is known of a file.
#[derive(Debug)]
pub enum Source {
    /// Its canonical path cannot be found, for this reason.
    Unopenable(String),
    /// It cannot be read, for this reason.
    Unreadable { canonical: String, reason: String },
    /// Its text, and the directory in which its relative inclusions are looked
    /// up first.
    Text { canonical: String, dir: String, content: String },
}

/// What is known of a file.
#[verifier::ext_equal]
pub enum SourceV {
    Unopenable(Seq<char>),
    Unreadable { canonical: Seq<char>, reason: Seq<char> },
    Text { canonical: Seq<char>, dir: Seq<char>, content: Seq<char> },
}

impl View for Source {
    type V = SourceV;

    open spec fn view(&self) -> SourceV {
        match self {
            Source::Unopenable(e) => SourceV::Unopenable(e@),
            Source::Unreadable { canonical, reason } => SourceV::Unreadable {
                canonical: canonical@,
                reason: reason@,
            },
            Source::Text { canonical, dir, content } => SourceV::Text {
                canonical: canonical@,
                dir: dir@,
                content: content@,
            },
        }
    }
}

/// Whether a path names an existing file in a directory, and by which path.
#[derive(Debug)]
pub struct Lookup {
    pub dir: String,
    pub path: String,
    pub found: Option<String>,
}

/// What is known of the file system.
#[derive(Debug)]
pub struct Sources {
    pub lookups: Vec<Lookup>,
    pub files: Table<Source>,
}

/// What has to be known of the file system.
#[derive(Debug)]
pub enum Question {
    /// What the file at this path holds.
    File(String),
    /// Whether this path names an existing file in the directory.
    Lookup { dir: String, path: String },
}

/// What has to be known of the file system.
#[verifier::ext_equal]
pub enum QuestionV {
    File(Seq<char>),
    Lookup { dir: Seq<char>, path: Seq<char> },
}

impl View for Question {
    type V = QuestionV;

    open spec fn view(&self) -> QuestionV {
        match self {
            Question::File(p) => QuestionV::File(p@),
            Question::Lookup { dir, path } => QuestionV::Lookup { dir: dir@, path: path@ },
        }
    }
}

/// The answer to a lookup among the first `n`: the latest one counts.
pub open spec fn looked_up(l: Seq<Lookup>, n: nat, dir: Seq<char>, path: Seq<char>) -> Option<
    Option<Seq<char>>,
>
    decreases n,
{
    if n == 0 {
        None
    } else if l[n - 1].dir@ == dir && l[n - 1].path@ == path {
        Some(text::opt_text(l[n - 1].found))
    } else {
        looked_up(l, (n - 1) as nat, dir, path)
    }
}

impl Sources {
    /// Nothing is known.
    pub fn new() -> (r: Self)
        ensures
            r.lookups@.len() == 0,
            r.files@ == Map::<Seq<char>, Source>::empty(),
    {
        Sources { lookups: Vec::new(), files: Table::new() }
    }

    /// The answer to a lookup.
    fn look_up(&self, dir: &str, path: &str) -> (r: Option<&Option<String>>)
        ensures
            match r {
                Some(f) => looked_up(self.lookups@, self.lookups@.len(), dir@, path@) == Some(
                    text::opt_text(*f),
                ),
                None => looked_up(self.lookups@, self.lookups@.len(), dir@, path@) is None,
            },
    {
        let mut n: usize = self.lookups.len();
        while n > 0
            invariant
                n <= self.lookups@.len(),
                looked_up(self.lookups@, n as nat, dir@, path@) == looked_up(
                    self.lookups@,
                    self.lookups@.len(),
                    dir@,
                    path@,
                ),
            decreases n,
        {
            let l = &self.lookups[n - 1];
            if text::str_eq(l.dir.as_str(), dir) && text::str_eq(l.path.as_str(), path) {
                return Some(&l.found);
            }
            n -= 1;
        }
        None
    }
}

// ───────────────────────── the meaning ─────────────────────────

/// Where the splicing of files stands: the files and the stream so far.
#[verifier::ext_equal]
pub struct FilesV {
    pub files: Seq<FileV>,
    pub out: LexedV,
}

/// What splicing comes to.
#[verifier::ext_equal]
pub enum StepV<T> {
    Need(QuestionV),
    Fault(ErrV),
    Done(T),
}

/// Looks an included path up in the directories from `k` on.
pub open spec fn resolve_from(
    fs: Sources,
    dirs: Seq<Seq<char>>,
    k: nat,
    path: Seq<char>,
    at: Span,
) -> StepV<Seq<char>>
    decreases dirs.len() - k,
{
    if k >= dirs.len() {
        StepV::Fault(ast::err_at(at, "include file not found: "@ + path))
    } else {
        match looked_up(fs.lookups@, fs.lookups@.len(), dirs[k as int], path) {
            None => StepV::Need(QuestionV::Lookup { dir: dirs[k as int], path }),
            Some(Some(p)) => StepV::Done(p),
            Some(None) => resolve_from(fs, dirs, k + 1, path, at),
        }
    }
}

/// The place of an error about a file: where it is included, if it is.
pub open spec fn place(at: Option<Span>) -> Span {
    match at {
        Some(s) => s,
        None => ast::dummy_span(),
    }
}

/// The first index at which a path stands on the stack, or its height.
pub open spec fn first_of(stack: Seq<Seq<char>>, p: Seq<char>, from: nat) -> nat
    decreases stack.len() - from,
{
    if from >= stack.len() || stack[from as int] == p {
        from
    } else {
        first_of(stack, p, from + 1)
    }
}

/// The canonical path of a file that can be opened.
pub open spec fn canonical_of(s: SourceV) -> Seq<char> {
    match s {
        SourceV::Unopenable(_) => seq![],
        SourceV::Unreadable { canonical, .. } => canonical,
        SourceV::Text { canonical, .. } => canonical,
    }
}

/// Whether the file at `path` is known with its text, and is not being spliced.
pub open spec fn readable(fs: Sources, path: Seq<char>, stack: Seq<Seq<char>>) -> bool {
    &&& stack.len() < MAX_DEPTH
    &&& fs.files@.contains_key(path)
    &&& fs.files@[path]@ is Text
    &&& first_of(stack, canonical_of(fs.files@[path]@), 0) >= stack.len()
}

/// Splices the file at `path`. `stack` holds the canonical paths of the files
/// that are being spliced, the outermost first.
pub open spec fn splice_from(
    fs: Sources,
    path: Seq<char>,
    dirs: Seq<Seq<char>>,
    stack: Seq<Seq<char>>,
    at: Option<Span>,
    st: FilesV,
) -> StepV<FilesV>
    decreases MAX_DEPTH - stack.len(), 1nat, 0nat,
{
    if stack.len() >= MAX_DEPTH {
        StepV::Fault(
            ast::err_at(place(at), "include depth exceeds "@ + text::nat_text(MAX_DEPTH as nat)),
        )
    } else if !fs.files@.contains_key(path) {
        StepV::Need(QuestionV::File(path))
    } else {
        let s = fs.files@[path]@;
        let canonical = canonical_of(s);
        let k = first_of(stack, canonical, 0);
        match s {
            SourceV::Unopenable(e) => StepV::Fault(
                ast::err_at(place(at), "cannot open '"@ + path + "': "@ + e),
            ),
            _ => if k < stack.len() {
                StepV::Fault(
                    ast::err_at(
                        place(at),
                        "circular include: "@ + text::join(
                            stack.subrange(k as int, stack.len() as int),
                            " -> "@,
                        ) + " -> "@ + canonical,
                    ),
                )
            } else {
                match s {
                    SourceV::Text { dir, content, .. } => {
                        let added = FilesV {
                            files: st.files.push(FileV { path, text: content }),
                            ..st
                        };
                        match lexer::lex_text(content, st.files.len() as u32) {
                            Err(e) => StepV::Fault(e),
                            Ok(raw) => splice_tokens(
                                fs,
                                dirs,
                                dir,
                                stack.push(canonical),
                                raw,
                                0,
                                0,
                                added,
                            ),
                        }
                    },
                    SourceV::Unreadable { reason, .. } => StepV::Fault(
                        ast::err_at(place(at), "cannot read '"@ + path + "': "@ + reason),
                    ),
                    SourceV::Unopenable(e) => StepV::Fault(
                        ast::err_at(place(at), "cannot open '"@ + path + "': "@ + e),
                    ),
                }
            },
        }
    }
}

/// Splices the tokens of a file from `i` on and its comments from `c` on. An
/// included path is looked up beside the file first, and then in `dirs`.
pub open spec fn splice_tokens(
    fs: Sources,
    dirs: Seq<Seq<char>>,
    dir: Seq<char>,
    stack: Seq<Seq<char>>,
    raw: LexedV,
    i: nat,
    c: nat,
    st: FilesV,
) -> StepV<FilesV>
    decreases MAX_DEPTH + 1 - stack.len(), 0nat, raw.tokens.len() - i,
{
    if i >= raw.tokens.len() {
        StepV::Done(
            FilesV { out: lexer::with_comments(st.out, raw.comments, c, raw.comments.len()), ..st },
        )
    } else if lexer::inclusion_at(raw.tokens, i) {
        let n = lexer::comments_before(raw.comments, c, raw.tokens[i as int + 2].span.lo);
        let at = raw.tokens[i as int + 1].span;
        let here = FilesV { out: lexer::with_comments(st.out, raw.comments, c, n), ..st };
        match resolve_from(fs, seq![dir] + dirs, 0, raw.tokens[i as int + 1].tok->Str_0, at) {
            StepV::Need(q) => StepV::Need(q),
            StepV::Fault(e) => StepV::Fault(e),
            StepV::Done(p) => if stack.len() > MAX_DEPTH {
                StepV::Done(st)
            } else {
                match splice_from(fs, p, dirs, stack, Some(at), here) {
                    StepV::Done(s) => splice_tokens(fs, dirs, dir, stack, raw, i + 3, n, s),
                    other => other,
                }
            },
        }
    } else {
        let t = raw.tokens[i as int];
        let n = lexer::comments_before(raw.comments, c, t.span.lo);
        splice_tokens(
            fs,
            dirs,
            dir,
            stack,
            raw,
            i + 1,
            n,
            FilesV {
                out: lexer::with_token(lexer::with_comments(st.out, raw.comments, c, n), t),
                ..st
            },
        )
    }
}

/// The stream of the program whose root file stands at `path`.
pub open spec fn lex_files(fs: Sources, path: Seq<char>, dirs: Seq<Seq<char>>) -> StepV<StreamV> {
    match splice_from(
        fs,
        path,
        dirs,
        seq![],
        None,
        FilesV { files: seq![], out: lexer::nothing_lexed() },
    ) {
        StepV::Need(q) => StepV::Need(q),
        StepV::Fault(e) => StepV::Fault(e),
        StepV::Done(s) => StepV::Done(lexer::ended(s.out, s.files)),
    }
}

// ───────────────────────── doing it ─────────────────────────

/// What splicing comes to.
pub enum Step<T> {
    /// Something has to be known first.
    Need(Question),
    /// The end: a result or an error.
    Done(VclResult<T>),
}

/// What a step that has come to nothing yet says.
spec fn stopped<T, U>(r: Step<T>) -> StepV<U> {
    match r {
        Step::Need(q) => StepV::Need(q@),
        Step::Done(Err(e)) => StepV::Fault(e@),
        Step::Done(Ok(_)) => arbitrary(),
    }
}

fn error_at(at: Option<Span>, msg: String) -> (r: VclError)
    ensures
        r@ == ast::err_at(place(at), msg@),
{
    match at {
        Some(s) => VclError::new(s, msg),
        None => VclError::new(Span::dummy(), msg),
    }
}

/// Looks an included path up beside the including file and in the given
/// directories.
fn resolve(fs: &Sources, dir: &str, dirs: &Vec<String>, path: &str, at: Span) -> (r: Step<String>)
    ensures
        match r {
            Step::Done(Ok(p)) => resolve_from(
                *fs,
                seq![dir@] + text::texts(dirs@),
                0,
                path@,
                at,
            ) == StepV::Done(p@),
            _ => resolve_from(*fs, seq![dir@] + text::texts(dirs@), 0, path@, at) == stopped::<
                String,
                Seq<char>,
            >(r),
        },
{
    let ghost all = seq![dir@] + text::texts(dirs@);
    let mut k: usize = 0;
    while k <= dirs.len()
        invariant
            all == seq![dir@] + text::texts(dirs@),
            k <= dirs.len() + 1,
            resolve_from(*fs, all, k as nat, path@, at) == resolve_from(*fs, all, 0, path@, at),
        decreases dirs.len() + 1 - k,
    {
        let d: &str = if k == 0 {
            dir
        } else {
            dirs[k - 1].as_str()
        };
        assert(all[k as int] == d@);
        match fs.look_up(d, path) {
            None => {
                return Step::Need(
                    Question::Lookup { dir: d.to_string(), path: path.to_string() },
                );
            },
            Some(found) => {
                if let Some(p) = found {
                    return Step::Done(Ok(p.clone()));
                }
            },
        }
        assert(resolve_from(*fs, all, (k + 1) as nat, path@, at) == resolve_from(
            *fs,
            all,
            0,
            path@,
            at,
        ));
        if k == dirs.len() {
            let mut m = "include file not found: ".to_string();
            m.append(path);
            return Step::Done(Err(VclError::new(at, m)));
        }
        k += 1;
    }
    let mut m = "include file not found: ".to_string();
    m.append(path);
    Step::Done(Err(VclError::new(at, m)))
}

/// The error of a file that is being spliced already.
fn circular(stack: &Vec<String>, canonical: &str, at: Option<Span>) -> (r: Option<VclError>)
    ensures
        ({
            let s = text::texts(stack@);
            let k = first_of(s, canonical@, 0);
            match r {
                None => k >= s.len(),
                Some(e) => k < s.len() && e@ == ast::err_at(
                    place(at),
                    "circular include: "@ + text::join(
                        s.subrange(k as int, s.len() as int),
                        " -> "@,
                    ) + " -> "@ + canonical@,
                ),
            }
        }),
{
    let ghost s = text::texts(stack@);
    let mut k: usize = 0;
    while k < stack.len() && !text::str_eq(stack[k].as_str(), canonical)
        invariant
            s == text::texts(stack@),
            k <= stack.len(),
            first_of(s, canonical@, k as nat) == first_of(s, canonical@, 0),
        decreases stack.len() - k,
    {
        k += 1;
    }
    if k >= stack.len() {
        return None;
    }
    let mut cycle: Vec<String> = Vec::new();
    let mut i: usize = k;
    while i < stack.len()
        invariant
            k <= i <= stack.len(),
            cycle.len() == i - k,
            forall|j: int| 0 <= j < cycle.len() ==> (#[trigger] cycle@[j])@ == stack@[k + j]@,
        decreases stack.len() - i,
    {
        cycle.push(stack[i].clone());
        i += 1;
    }
    assert(text::texts(cycle@) =~= s.subrange(k as int, s.len() as int));
    let mut m = "circular include: ".to_string();
    m.append(text::join_strings(&cycle, " -> ").as_str());
    m.append(" -> ");
    m.append(canonical);
    Some(error_at(at, m))
}

fn splice_file(
    fs: &Sources,
    path: &str,
    dirs: &Vec<String>,
    stack: &mut Vec<String>,
    at: Option<Span>,
    sm: &mut SourceMap,
    out: &mut Lexed,
) -> (r: Step<()>)
    requires
        old(stack)@.len() <= MAX_DEPTH,
    ensures
        ({
            let want = splice_from(
                *fs,
                path@,
                text::texts(dirs@),
                text::texts(old(stack)@),
                at,
                FilesV { files: old(sm)@, out: old(out)@ },
            );
            match r {
                Step::Done(Ok(_)) => {
                    &&& want == StepV::Done(FilesV { files: final(sm)@, out: final(out)@ })
                    &&& final(stack)@ == old(stack)@
                    &&& final(sm)@.len() > 0
                },
                _ => {
                    &&& want == stopped::<(), FilesV>(r)
                    &&& !readable(*fs, path@, text::texts(old(stack)@)) ==> {
                        &&& final(stack)@ == old(stack)@
                        &&& final(sm)@ == old(sm)@
                        &&& final(out)@ == old(out)@
                    }
                },
            }
        }),
    decreases MAX_DEPTH - old(stack)@.len(),
{
    if stack.len() >= MAX_DEPTH {
        let mut m = "include depth exceeds ".to_string();
        m.append(text::u64_text(MAX_DEPTH as u64).as_str());
        return Step::Done(Err(error_at(at, m)));
    }
    let source = match fs.files.get(path) {
        Some(s) => s,
        None => {
            return Step::Need(Question::File(path.to_string()));
        },
    };
    let (canonical, dir, content) = match source {
        Source::Unopenable(reason) => {
            let mut m = "cannot open '".to_string();
            m.append(path);
            m.append("': ");
            m.append(reason.as_str());
            return Step::Done(Err(error_at(at, m)));
        },
        Source::Unreadable { canonical, reason } => {
            if let Some(e) = circular(stack, canonical.as_str(), at) {
                return Step::Done(Err(e));
            }
            let mut m = "cannot read '".to_string();
            m.append(path);
            m.append("': ");
            m.append(reason.as_str());
            return Step::Done(Err(error_at(at, m)));
        },
        Source::Text { canonical, dir, content } => {
            if let Some(e) = circular(stack, canonical.as_str(), at) {
                return Step::Done(Err(e));
            }
            (canonical, dir, content)
        },
    };
    let id: u32 = sm.add(path.to_string(), content.clone());
    let raw = match lexer::lex_single_file(content.as_str(), id) {
        Ok(l) => l,
        Err(e) => {
            return Step::Done(Err(e));
        },
    };
    let ghost before = stack@;
    stack.push(canonical.clone());
    let ghost dv = text::texts(dirs@);
    let ghost sv = text::texts(before).push(canonical@);
    let ghost goal = splice_from(
        *fs,
        path@,
        dv,
        text::texts(before),
        at,
        FilesV { files: old(sm)@, out: old(out)@ },
    );
    proof {
        text::lemma_texts_push(before, stack@.last());
        assert(before.push(stack@.last()) =~= stack@);
    }
    let mut i: usize = 0;
    let mut c: usize = 0;
    while i < raw.tokens.len()
        invariant
            i <= raw@.tokens.len(),
            c <= raw@.comments.len(),
            dv == text::texts(dirs@),
            sv == text::texts(stack@),
            before == old(stack)@,
            readable(*fs, path@, text::texts(before)),
            stack@.len() == before.len() + 1,
            stack@.drop_last() == before,
            stack@.len() <= MAX_DEPTH,
            sm@.len() > 0,
            goal == splice_tokens(
                *fs,
                dv,
                dir@,
                sv,
                raw@,
                i as nat,
                c as nat,
                FilesV { files: sm@, out: out@ },
            ),
            goal == splice_from(
                *fs,
                path@,
                dv,
                text::texts(before),
                at,
                FilesV { files: old(sm)@, out: old(out)@ },
            ),
        decreases raw@.tokens.len() - i,
    {
        if lexer::inclusion(&raw, i) {
            c = lexer::pass_comments(&raw, c, raw.tokens[i + 2].span.lo, out);
            let inc_at: Span = raw.tokens[i + 1].span;
            if let Tok::Str(inc) = &raw.tokens[i + 1].tok {
                let p = match resolve(fs, dir.as_str(), dirs, inc.as_str(), inc_at) {
                    Step::Done(Ok(p)) => p,
                    Step::Done(Err(e)) => {
                        return Step::Done(Err(e));
                    },
                    Step::Need(q) => {
                        return Step::Need(q);
                    },
                };
                match splice_file(fs, p.as_str(), dirs, stack, Some(inc_at), sm, out) {
                    Step::Done(Ok(_)) => {},
                    Step::Done(Err(e)) => {
                        return Step::Done(Err(e));
                    },
                    Step::Need(q) => {
                        return Step::Need(q);
                    },
                }
            }
            i += 3;
        } else {
            c = lexer::pass_comments(&raw, c, raw.tokens[i].span.lo, out);
            out.push_token(raw.tokens[i].clone());
            i += 1;
        }
    }
    lexer::pass_all_comments(&raw, c, out);
    stack.pop();
    assert(stack@ =~= before);
    Step::Done(Ok(()))
}

/// Lexes the program whose root file stands at `path`, with every inclusion
/// spliced in and an end token behind it; see [`lex_files`].
pub fn lex(path: &str, dirs: &Vec<String>, fs: &Sources) -> (r: Step<(Lexed, SourceMap)>)
    ensures
        ({
            let want = lex_files(*fs, path@, text::texts(dirs@));
            match r {
                Step::Need(q) => want == StepV::<StreamV>::Need(q@),
                Step::Done(Err(e)) => want == StepV::<StreamV>::Fault(e@),
                Step::Done(Ok((l, sm))) => want == StepV::Done(
                    StreamV { lexed: l@, files: sm@ },
                ),
            }
        }),
{
    let mut sm = SourceMap::default();
    let mut out = Lexed::new();
    let mut stack: Vec<String> = Vec::new();
    assert(text::texts(stack@) =~= Seq::<Seq<char>>::empty());
    match splice_file(fs, path, dirs, &mut stack, None, &mut sm, &mut out) {
        Step::Need(q) => Step::Need(q),
        Step::Done(Err(e)) => Step::Done(Err(e)),
        Step::Done(Ok(_)) => {
            let l = lexer::end_stream(out, &sm);
            Step::Done(Ok((l, sm)))
        },
    }
}

} // verus!
