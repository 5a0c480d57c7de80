//! The syntax tree of a VCL program, source positions, diagnostics and source
//! comments.
//!
//! Every type has a view: the same tree over character sequences. Contracts
//! throughout the crate speak of the views.

use crate::decimal;
use crate::decimal::{Decimal, DecimalV};
use crate::text;
use std::collections::HashMap;
use vstd::prelude::*;
use vstd::string::*;
use vstd::utf8::*;

pub mod builder;
pub mod clones;
pub mod lines;

verus! {

broadcast use vstd::std_specs::hash::group_hash_axioms;

// ───────────────────────── source positions ─────────────────────────

/// A range of bytes in one source file.
#[derive(Debug, Clone, Copy, PartialEq, Eq, Structural)]
pub struct Span {
    /// Index into `SourceMap::files`.
    pub file: u32,
    /// Byte offset, inclusive.
    pub lo: u32,
    /// Byte offset, exclusive.
    pub hi: u32,
}

impl Span {
    /// The empty range at the start of the first file.
    pub fn dummy() -> (r: Self)
        ensures
            r == (Span { file: 0, lo: 0, hi: 0 }),
    {
        Span { file: 0, lo: 0, hi: 0 }
    }
}

/// The empty range at the start of the first file.
pub open spec fn dummy_span() -> Span {
    Span { file: 0, lo: 0, hi: 0 }
}

/// The source files of a program, by number: path and text.
#[derive(Debug, PartialEq)]
pub struct SourceMap {
    pub files: Vec<(String, String)>,
}

/// A source file: path and text.
#[verifier::ext_equal]
pub struct FileV {
    pub path: Seq<char>,
    pub text: Seq<char>,
}

impl View for SourceMap {
    type V = Seq<FileV>;

    open spec fn view(&self) -> Seq<FileV> {
        Seq::new(
            self.files@.len(),
            |i: int| FileV { path: self.files@[i].0@, text: self.files@[i].1@ },
        )
    }
}

impl Default for SourceMap {
    fn default() -> (r: Self)
        ensures
            r@ == Seq::<FileV>::empty(),
    {
        let r = SourceMap { files: Vec::new() };
        assert(r@ =~= Seq::<FileV>::empty());
        r
    }
}

/// The byte that ends a line.
pub const NEWLINE: u8 = 10;

/// The smaller of two numbers.
pub open spec fn least(a: nat, b: nat) -> nat {
    if a <= b {
        a
    } else {
        b
    }
}

/// How many lines end before byte offset `n`.
pub open spec fn newlines_before(b: Seq<u8>, n: nat) -> nat
    decreases n,
{
    if n == 0 {
        0
    } else {
        newlines_before(b, (n - 1) as nat) + if b[n - 1] == NEWLINE {
            1nat
        } else {
            0nat
        }
    }
}

/// Where the line that holds byte offset `n` starts.
pub open spec fn line_start(b: Seq<u8>, n: nat) -> nat
    decreases n,
{
    if n == 0 || b[n - 1] == NEWLINE {
        n
    } else {
        line_start(b, (n - 1) as nat)
    }
}

/// Where the line that holds byte offset `n` ends: at the next newline, or at
/// the end of the text.
pub open spec fn line_end(b: Seq<u8>, n: nat) -> nat
    decreases b.len() - n,
{
    if n >= b.len() || b[n as int] == NEWLINE {
        n
    } else {
        line_end(b, n + 1)
    }
}

/// The byte offset at which a span starts, cut to the end of the text.
pub open spec fn span_start(b: Seq<u8>, span: Span) -> nat {
    least(span.lo as nat, b.len())
}

/// Whether a span can be shown: its file exists, and it starts at a character.
pub open spec fn span_shown(files: Seq<FileV>, span: Span) -> bool {
    &&& span.file < files.len()
    &&& {
        let b = encode_utf8(files[span.file as int].text);
        is_char_boundary(b, span_start(b, span) as int)
    }
}

/// The line number of a span, from one; at most `u32::MAX`.
pub open spec fn span_line(b: Seq<u8>, span: Span) -> nat {
    least(newlines_before(b, span_start(b, span)) + 1, u32::MAX as nat)
}

/// The column of a span in bytes, from one; at most `u32::MAX`.
pub open spec fn span_column(b: Seq<u8>, span: Span) -> nat {
    let n = span_start(b, span);
    least((n - line_start(b, n) + 1) as nat, u32::MAX as nat)
}

/// The text of the line on which a span starts.
pub open spec fn span_line_text(b: Seq<u8>, span: Span) -> Seq<char> {
    let n = span_start(b, span);
    text::text_of(b, line_start(b, n) as int, line_end(b, n) as int)
}

pub(crate) proof fn lemma_newlines_bound(b: Seq<u8>, n: nat)
    ensures
        newlines_before(b, n) <= n,
    decreases n,
{
    if n > 0 {
        lemma_newlines_bound(b, (n - 1) as nat);
    }
}

impl SourceMap {
    /// Adds a file and returns its number.
    pub fn add(&mut self, path: String, text: String) -> (r: u32)
        ensures
            final(self)@ == old(self)@.push(FileV { path: path@, text: text@ }),
            r == old(self)@.len() as u32,
    {
        let ghost before = self@;
        self.files.push((path, text));
        assert(self@ =~= before.push(FileV { path: path@, text: text@ }));
        (self.files.len() - 1) as u32
    }

    /// The byte offset at which a span starts, cut to the end of the text.
    fn start(&self, span: Span) -> (r: usize)
        requires
            span.file < self@.len(),
        ensures
            r == span_start(encode_utf8(self@[span.file as int].text), span),
    {
        let len: usize = self.files[span.file as usize].1.as_str().as_bytes().len();
        if (span.lo as usize) < len {
            span.lo as usize
        } else {
            len
        }
    }

    /// Where the line that holds byte offset `n` starts.
    fn line_start_at(b: &[u8], n: usize) -> (r: usize)
        requires
            n <= b.len(),
        ensures
            r == line_start(b@, n as nat),
            r <= n,
            r == 0 || b@[r - 1] == NEWLINE,
    {
        let mut i: usize = n;
        while i > 0 && b[i - 1] != NEWLINE
            invariant
                i <= n <= b.len(),
                line_start(b@, i as nat) == line_start(b@, n as nat),
            decreases i,
        {
            i -= 1;
        }
        i
    }

    /// The path, the line and the column (both from one) of a span's start.
    pub fn resolve(&self, span: Span) -> (r: (&String, u32, u32))
        requires
            span.file < self@.len(),
        ensures
            r.0@ == self@[span.file as int].path,
            r.1 == span_line(encode_utf8(self@[span.file as int].text), span),
            r.2 == span_column(encode_utf8(self@[span.file as int].text), span),
            r.2 >= 1,
    {
        let n: usize = self.start(span);
        let file = &self.files[span.file as usize];
        let b = file.1.as_str().as_bytes();
        let mut count: u32 = 0;
        let mut i: usize = 0;
        while i < n
            invariant
                i <= n <= b.len(),
                n <= u32::MAX,
                count == newlines_before(b@, i as nat),
            decreases n - i,
        {
            proof {
                lemma_newlines_bound(b@, i as nat);
            }
            if b[i] == NEWLINE {
                count += 1;
            }
            i += 1;
        }
        let start: usize = Self::line_start_at(b, n);
        (&file.0, count.saturating_add(1), ((n - start) as u32).saturating_add(1))
    }

    /// The text of the line on which a span starts.
    pub fn line_text(&self, span: Span) -> (r: String)
        requires
            span_shown(self@, span),
        ensures
            r@ == span_line_text(encode_utf8(self@[span.file as int].text), span),
    {
        let n: usize = self.start(span);
        let t = &self.files[span.file as usize].1;
        let b = t.as_str().as_bytes();
        let start: usize = Self::line_start_at(b, n);
        let mut end: usize = n;
        while end < b.len() && b[end] != NEWLINE
            invariant
                n <= end <= b.len(),
                line_end(b@, end as nat) == line_end(b@, n as nat),
            decreases b.len() - end,
        {
            end += 1;
        }
        proof {
            encode_utf8_valid_utf8(t@);
            is_char_boundary_start_end_of_seq(b@);
            if start > 0 {
                text::lemma_ascii_boundary(b@, start - 1);
            }
            if end < b.len() {
                text::lemma_ascii_boundary(b@, end as int);
            }
        }
        text::slice_text(t.as_str(), start, end)
    }

    /// Whether a span can be shown.
    pub fn shows(&self, span: Span) -> (r: bool)
        ensures
            r == span_shown(self@, span),
    {
        if span.file as usize >= self.files.len() {
            return false;
        }
        let n: usize = self.start(span);
        let t = &self.files[span.file as usize].1;
        proof {
            encode_utf8_valid_utf8(t@);
        }
        t.as_str().is_char_boundary(n)
    }
}

// ───────────────────────── diagnostics ─────────────────────────

/// An error in the input, with the place it was found at where there is one.
#[derive(Debug, PartialEq)]
pub struct VclError {
    pub span: Option<Span>,
    pub msg: String,
}

/// An error in the input.
#[verifier::ext_equal]
pub struct ErrV {
    pub span: Option<Span>,
    pub msg: Seq<char>,
}

impl View for VclError {
    type V = ErrV;

    open spec fn view(&self) -> ErrV {
        ErrV { span: self.span, msg: self.msg@ }
    }
}

/// The error with this message at this place.
pub open spec fn err_at(span: Span, msg: Seq<char>) -> ErrV {
    ErrV { span: Some(span), msg }
}

/// The text that an error is shown as: path, line and column, the message, the
/// source line, and a caret below the column.
pub open spec fn rendered(e: ErrV, files: Seq<FileV>) -> Seq<char> {
    match e.span {
        None => e.msg,
        Some(span) => {
            let f = files[span.file as int];
            let b = encode_utf8(f.text);
            f.path + ":"@ + text::nat_text(span_line(b, span)) + ":"@ + text::nat_text(
                span_column(b, span),
            ) + ": "@ + e.msg + "\n  "@ + span_line_text(b, span) + "\n  "@ + text::repeated(
                " "@,
                (span_column(b, span) - 1) as nat,
            ) + "^"@
        },
    }
}

impl VclError {
    /// An error at a place in the source.
    pub fn new(span: Span, msg: String) -> (r: Self)
        ensures
            r@ == err_at(span, msg@),
    {
        VclError { span: Some(span), msg }
    }

    /// The text that the error is shown as.
    pub fn render(&self, sm: &SourceMap) -> (r: String)
        requires
            self.span matches Some(span) ==> span_shown(sm@, span),
        ensures
            r@ == rendered(self@, sm@),
    {
        match self.span {
            Some(span) => {
                let (path, line, col) = sm.resolve(span);
                let src = sm.line_text(span);
                let mut s = path.clone();
                s.append(":");
                s.append(text::u64_text(line as u64).as_str());
                s.append(":");
                s.append(text::u64_text(col as u64).as_str());
                s.append(": ");
                s.append(self.msg.as_str());
                s.append("\n  ");
                s.append(src.as_str());
                s.append("\n  ");
                s.append(text::repeat(" ", col as usize - 1).as_str());
                s.append("^");
                s
            },
            None => self.msg.clone(),
        }
    }
}

/// The outcome of a step that can find an error in the input.
pub type VclResult<T> = core::result::Result<T, VclError>;

// ───────────────────────── source comments ─────────────────────────

/// One source comment, word for word.
#[derive(Debug, PartialEq)]
pub struct LeadingComment {
    /// The text with its delimiters (`#`, `//`, or `/* ... */`).
    pub text: String,
    /// Whether the comment is printed at the left margin whatever the depth
    /// of the node that it stands with.
    pub unindented: bool,
}

/// One source comment.
#[verifier::ext_equal]
pub struct CommentV {
    pub text: Seq<char>,
    pub unindented: bool,
}

impl View for LeadingComment {
    type V = CommentV;

    open spec fn view(&self) -> CommentV {
        CommentV { text: self.text@, unindented: self.unindented }
    }
}

impl Clone for LeadingComment {
    fn clone(&self) -> (r: Self)
        ensures
            r@ == self@,
    {
        LeadingComment { text: self.text.clone(), unindented: self.unindented }
    }
}

/// The comments of a list.
pub open spec fn comments_view(s: Seq<LeadingComment>) -> Seq<CommentV> {
    Seq::new(s.len(), |i: int| s[i]@)
}

/// The comments that stand with one node of the tree.
#[derive(Debug, Clone, PartialEq)]
pub struct NodeComments {
    /// Comment lines right before the node.
    pub leading: Vec<LeadingComment>,
    /// The comment on the node's own line.
    pub trailing: Option<String>,
    /// Comments behind the last node of a list.
    pub after: Vec<LeadingComment>,
}

/// The comments that stand with one node.
#[verifier::ext_equal]
pub struct NodeCommentsV {
    pub leading: Seq<CommentV>,
    pub trailing: Option<Seq<char>>,
    pub after: Seq<CommentV>,
}

impl View for NodeComments {
    type V = NodeCommentsV;

    open spec fn view(&self) -> NodeCommentsV {
        NodeCommentsV {
            leading: comments_view(self.leading@),
            trailing: text::opt_text(self.trailing),
            after: comments_view(self.after@),
        }
    }
}

/// No comments.
pub open spec fn no_comments() -> NodeCommentsV {
    NodeCommentsV { leading: seq![], trailing: None, after: seq![] }
}

impl Default for NodeComments {
    fn default() -> (r: Self)
        ensures
            r@ == no_comments(),
    {
        let r = NodeComments { leading: Vec::new(), trailing: None, after: Vec::new() };
        assert(r@ =~= no_comments());
        r
    }
}

/// The number under which the comments of the node at `span` are kept: it is
/// made of the file and the offset at which the node starts.
pub open spec fn comment_key(span: Span) -> u64 {
    (span.file as u64 * 0x1_0000_0000 + span.lo as u64) as u64
}

/// The comments of a whole program, by the place at which their node starts.
#[derive(Debug, Clone, PartialEq)]
pub struct CommentMap {
    by_start: HashMap<u64, NodeComments>,
}

/// The comments of a program, by the key of their node.
pub type CommentMapV = Map<u64, NodeCommentsV>;

impl View for CommentMap {
    type V = CommentMapV;

    closed spec fn view(&self) -> CommentMapV {
        Map::new(
            |k: u64| self.by_start@.contains_key(k),
            |k: u64| self.by_start@[k]@,
        )
    }
}

impl Default for CommentMap {
    fn default() -> (r: Self)
        ensures
            r@ == CommentMapV::empty(),
    {
        let r = CommentMap { by_start: HashMap::new() };
        assert(r@ =~= CommentMapV::empty());
        r
    }
}

/// The comments kept for the node at `span`.
pub open spec fn comments_at(m: CommentMapV, span: Span) -> NodeCommentsV {
    if m.contains_key(comment_key(span)) {
        m[comment_key(span)]
    } else {
        no_comments()
    }
}

impl CommentMap {
    fn key(span: Span) -> (r: u64)
        ensures
            r == comment_key(span),
    {
        span.file as u64 * 0x1_0000_0000 + span.lo as u64
    }

    /// The comments of the node that starts where `span` starts.
    pub fn get(&self, span: Span) -> (r: Option<&NodeComments>)
        ensures
            match r {
                Some(c) => self@.contains_key(comment_key(span)) && self@[comment_key(span)] == c@,
                None => !self@.contains_key(comment_key(span)),
            },
    {
        self.by_start.get(&Self::key(span))
    }

    /// The comments of the node that starts where `span` starts, to be
    /// changed; none at first.
    pub fn entry(&mut self, span: Span) -> (r: &mut NodeComments)
        ensures
            r@ == comments_at(old(self)@, span),
            final(self)@ == old(self)@.insert(comment_key(span), final(r)@),
    {
        self.by_start.entry(Self::key(span)).or_insert(NodeComments::default())
    }

    /// Removes the comments of a node and returns them.
    pub fn take(&mut self, span: Span) -> (r: Option<NodeComments>)
        ensures
            match r {
                Some(c) => old(self)@.contains_key(comment_key(span))
                    && old(self)@[comment_key(span)] == c@,
                None => !old(self)@.contains_key(comment_key(span)),
            },
            final(self)@ == old(self)@.remove(comment_key(span)),
    {
        let ghost before = self@;
        let k: u64 = Self::key(span);
        let r = self.by_start.remove(&k);
        assert(self@ =~= before.remove(k));
        r
    }
}

// ───────────────────────── the tree ─────────────────────────

/// A whole program.
#[derive(Debug, Clone, PartialEq)]
pub struct Program {
    /// The place of the `vcl` version declaration.
    pub vcl_version: Span,
    pub decls: Vec<Decl>,
    /// The comments of every declaration, statement, field, ACL entry and
    /// argument.
    pub comments: CommentMap,
    /// Comments behind the last declaration.
    pub trailing_comments: Vec<LeadingComment>,
}

/// A top-level declaration.
#[derive(Debug, PartialEq)]
#[allow(inconsistent_fields)]
pub enum Decl {
    Import { name: String, from: Option<String>, span: Span },
    /// `backend x none;` has `none` set and no body.
    Backend { name: String, none: bool, body: Option<Vec<Field>>, span: Span },
    Probe { name: String, body: Vec<Field>, span: Span },
    Acl { name: String, entries: Vec<AclEntry>, span: Span },
    Sub { name: String, body: Vec<Stmt>, span: Span },
}

/// A `.name = value;` line of a backend or a probe.
#[derive(Debug, PartialEq)]
pub struct Field {
    /// The name without its leading dot.
    pub name: String,
    pub value: FieldValue,
    pub span: Span,
}

/// The value of a field.
#[derive(Debug, PartialEq)]
pub enum FieldValue {
    Expr(Expr),
    /// A probe written in place: `.probe = { .url = "/"; }`.
    Probe(Vec<Field>),
    /// A probe by name: `.probe = my_probe;`.
    ProbeRef(String),
    /// Two or more adjacent strings.
    StringList(Vec<String>),
}

/// One address of an ACL.
#[derive(Debug, PartialEq)]
pub struct AclEntry {
    pub negated: bool,
    pub addr: String,
    pub mask: Option<u8>,
    pub span: Span,
}

/// A statement.
#[derive(Debug, PartialEq)]
pub enum Stmt {
    /// `set lhs = rhs;`
    Assign { lhs: Lvalue, rhs: Expr, span: Span },
    Unset { lhs: Lvalue, span: Span },
    Call { sub: String, span: Span },
    /// A bare `return;` has no action.
    Return { action: Option<ReturnAction>, span: Span },
    Synthetic { value: Expr, span: Span },
    /// The first arm is the `if`; the others are the `elsif` of any spelling.
    If { arms: Vec<(Expr, Vec<Stmt>)>, else_body: Option<Vec<Stmt>>, span: Span },
    /// `new name = vmod.ctor(args);`
    New { name: String, vmod: String, ctor: String, args: Vec<Arg>, span: Span },
    /// A bare call: `std.log("x");`
    Expr { expr: Expr, span: Span },
}

/// What a `return` statement asks for.
#[derive(Debug, PartialEq)]
pub struct ReturnAction {
    pub name: String,
    pub args: Vec<Expr>,
}

/// The target of a `set` or `unset`: `req.http.cookie`.
#[derive(Debug, PartialEq)]
pub struct Lvalue {
    pub parts: Vec<String>,
}

/// An expression.
#[derive(Debug, PartialEq)]
#[allow(inconsistent_fields)]
pub enum Expr {
    Str(String),
    /// A number as it was written.
    Num(String),
    /// Seconds.
    Duration(Decimal),
    /// Bytes.
    Bytes(u64),
    Bool(bool),
    /// Stands for an optional argument that is left out or has its default.
    Omitted,
    /// An inline C block, word for word.
    CSource(String),
    /// A variable or a bare symbol.
    Var(Vec<String>),
    /// `std.tolower(...)`, `myobj.method(...)`, `regsub(...)`.
    Call { target: Vec<String>, args: Vec<Arg> },
    Unary { op: UnOp, expr: Box<Expr> },
    Binary { op: BinOp, lhs: Box<Expr>, rhs: Box<Expr> },
}

/// An argument of a call.
#[derive(Debug, PartialEq)]
pub struct Arg {
    /// The name of a named argument.
    pub name: Option<String>,
    pub value: Expr,
    pub span: Span,
}

/// A unary operator.
#[derive(Debug, Clone, Copy, PartialEq, Eq, Structural)]
pub enum UnOp {
    Not,
    Neg,
}

/// A binary operator.
#[derive(Debug, Clone, Copy, PartialEq, Eq, Structural)]
pub enum BinOp {
    Eq,
    Ne,
    Match,
    NotMatch,
    Lt,
    Le,
    Gt,
    Ge,
    And,
    Or,
    Add,
    Sub,
    Mul,
    Div,
}

/// The renamings of a program: kind, canonical name and original name, in the
/// order in which the canonical names were given.
#[derive(Debug, Clone, PartialEq)]
pub struct NameMap {
    pub entries: Vec<(String, String, String)>,
}

/// One renaming.
#[verifier::ext_equal]
pub struct NameEntryV {
    pub kind: Seq<char>,
    pub canonical: Seq<char>,
    pub original: Seq<char>,
}

impl View for NameMap {
    type V = Seq<NameEntryV>;

    open spec fn view(&self) -> Seq<NameEntryV> {
        name_entries(self.entries@)
    }
}

/// The renamings of a list.
pub open spec fn name_entries(s: Seq<(String, String, String)>) -> Seq<NameEntryV> {
    Seq::new(
        s.len(),
        |i: int| NameEntryV { kind: s[i].0@, canonical: s[i].1@, original: s[i].2@ },
    )
}

impl Default for NameMap {
    fn default() -> (r: Self)
        ensures
            r@ == Seq::<NameEntryV>::empty(),
    {
        let r = NameMap { entries: Vec::new() };
        assert(r@ =~= Seq::<NameEntryV>::empty());
        r
    }
}

// ───────────────────────── views of the tree ─────────────────────────

#[verifier::ext_equal]
pub struct ProgramV {
    pub vcl_version: Span,
    pub decls: Seq<DeclV>,
    pub comments: CommentMapV,
    pub trailing_comments: Seq<CommentV>,
}

#[verifier::ext_equal]
#[allow(inconsistent_fields)]
pub enum DeclV {
    Import { name: Seq<char>, from: Option<Seq<char>>, span: Span },
    Backend { name: Seq<char>, none: bool, body: Option<Seq<FieldV>>, span: Span },
    Probe { name: Seq<char>, body: Seq<FieldV>, span: Span },
    Acl { name: Seq<char>, entries: Seq<AclEntryV>, span: Span },
    Sub { name: Seq<char>, body: Seq<StmtV>, span: Span },
}

#[verifier::ext_equal]
pub struct FieldV {
    pub name: Seq<char>,
    pub value: FieldValueV,
    pub span: Span,
}

#[verifier::ext_equal]
pub enum FieldValueV {
    Expr(ExprV),
    Probe(Seq<FieldV>),
    ProbeRef(Seq<char>),
    StringList(Seq<Seq<char>>),
}

#[verifier::ext_equal]
pub struct AclEntryV {
    pub negated: bool,
    pub addr: Seq<char>,
    pub mask: Option<u8>,
    pub span: Span,
}

#[verifier::ext_equal]
pub enum StmtV {
    Assign { lhs: Seq<Seq<char>>, rhs: ExprV, span: Span },
    Unset { lhs: Seq<Seq<char>>, span: Span },
    Call { sub: Seq<char>, span: Span },
    Return { action: Option<ReturnActionV>, span: Span },
    Synthetic { value: ExprV, span: Span },
    If { arms: Seq<ArmV>, else_body: Option<Seq<StmtV>>, span: Span },
    New { name: Seq<char>, vmod: Seq<char>, ctor: Seq<char>, args: Seq<ArgV>, span: Span },
    Expr { expr: ExprV, span: Span },
}

/// One arm of an `if`: its condition and its body.
#[verifier::ext_equal]
pub struct ArmV {
    pub cond: ExprV,
    pub body: Seq<StmtV>,
}

#[verifier::ext_equal]
pub struct ReturnActionV {
    pub name: Seq<char>,
    pub args: Seq<ExprV>,
}

#[verifier::ext_equal]
#[allow(inconsistent_fields)]
pub enum ExprV {
    Str(Seq<char>),
    Num(Seq<char>),
    Duration(DecimalV),
    Bytes(u64),
    Bool(bool),
    Omitted,
    CSource(Seq<char>),
    Var(Seq<Seq<char>>),
    Call { target: Seq<Seq<char>>, args: Seq<ArgV> },
    Unary { op: UnOp, expr: Box<ExprV> },
    Binary { op: BinOp, lhs: Box<ExprV>, rhs: Box<ExprV> },
}

#[verifier::ext_equal]
pub struct ArgV {
    pub name: Option<Seq<char>>,
    pub value: ExprV,
    pub span: Span,
}

pub open spec fn expr_view(e: Expr) -> ExprV
    decreases e,
{
    match e {
        Expr::Str(s) => ExprV::Str(s@),
        Expr::Num(s) => ExprV::Num(s@),
        Expr::Duration(d) => ExprV::Duration(d@),
        Expr::Bytes(n) => ExprV::Bytes(n),
        Expr::Bool(b) => ExprV::Bool(b),
        Expr::Omitted => ExprV::Omitted,
        Expr::CSource(s) => ExprV::CSource(s@),
        Expr::Var(parts) => ExprV::Var(text::texts(parts@)),
        Expr::Call { target, args } => ExprV::Call {
            target: text::texts(target@),
            args: args_view(args@),
        },
        Expr::Unary { op, expr } => ExprV::Unary { op, expr: Box::new(expr_view(*expr)) },
        Expr::Binary { op, lhs, rhs } => ExprV::Binary {
            op,
            lhs: Box::new(expr_view(*lhs)),
            rhs: Box::new(expr_view(*rhs)),
        },
    }
}

pub open spec fn arg_view(a: Arg) -> ArgV
    decreases a,
{
    ArgV { name: text::opt_text(a.name), value: expr_view(a.value), span: a.span }
}

pub open spec fn args_view(s: Seq<Arg>) -> Seq<ArgV>
    decreases s,
{
    Seq::new(
        s.len(),
        |i: int|
            if 0 <= i < s.len() {
                arg_view(s[i])
            } else {
                arbitrary()
            },
    )
}

pub open spec fn exprs_view(s: Seq<Expr>) -> Seq<ExprV> {
    Seq::new(s.len(), |i: int| expr_view(s[i]))
}

pub open spec fn action_view(a: ReturnAction) -> ReturnActionV {
    ReturnActionV { name: a.name@, args: exprs_view(a.args@) }
}

pub open spec fn opt_action_view(a: Option<ReturnAction>) -> Option<ReturnActionV> {
    match a {
        Some(x) => Some(action_view(x)),
        None => None,
    }
}

pub open spec fn stmt_view(s: Stmt) -> StmtV
    decreases s,
{
    match s {
        Stmt::Assign { lhs, rhs, span } => StmtV::Assign {
            lhs: text::texts(lhs.parts@),
            rhs: expr_view(rhs),
            span,
        },
        Stmt::Unset { lhs, span } => StmtV::Unset { lhs: text::texts(lhs.parts@), span },
        Stmt::Call { sub, span } => StmtV::Call { sub: sub@, span },
        Stmt::Return { action, span } => StmtV::Return { action: opt_action_view(action), span },
        Stmt::Synthetic { value, span } => StmtV::Synthetic { value: expr_view(value), span },
        Stmt::If { arms, else_body, span } => StmtV::If {
            arms: arms_view(arms@),
            else_body: match else_body {
                Some(b) => Some(stmts_view(b@)),
                None => None,
            },
            span,
        },
        Stmt::New { name, vmod, ctor, args, span } => StmtV::New {
            name: name@,
            vmod: vmod@,
            ctor: ctor@,
            args: args_view(args@),
            span,
        },
        Stmt::Expr { expr, span } => StmtV::Expr { expr: expr_view(expr), span },
    }
}

pub open spec fn stmts_view(s: Seq<Stmt>) -> Seq<StmtV>
    decreases s,
{
    Seq::new(
        s.len(),
        |i: int|
            if 0 <= i < s.len() {
                stmt_view(s[i])
            } else {
                arbitrary()
            },
    )
}

pub open spec fn arm_view(a: (Expr, Vec<Stmt>)) -> ArmV
    decreases a,
{
    ArmV { cond: expr_view(a.0), body: stmts_view(a.1@) }
}

pub open spec fn arms_view(s: Seq<(Expr, Vec<Stmt>)>) -> Seq<ArmV>
    decreases s,
{
    Seq::new(
        s.len(),
        |i: int|
            if 0 <= i < s.len() {
                arm_view(s[i])
            } else {
                arbitrary()
            },
    )
}

pub open spec fn field_view(f: Field) -> FieldV
    decreases f,
{
    FieldV { name: f.name@, value: field_value_view(f.value), span: f.span }
}

pub open spec fn field_value_view(v: FieldValue) -> FieldValueV
    decreases v,
{
    match v {
        FieldValue::Expr(e) => FieldValueV::Expr(expr_view(e)),
        FieldValue::Probe(fs) => FieldValueV::Probe(fields_view(fs@)),
        FieldValue::ProbeRef(n) => FieldValueV::ProbeRef(n@),
        FieldValue::StringList(l) => FieldValueV::StringList(text::texts(l@)),
    }
}

pub open spec fn fields_view(s: Seq<Field>) -> Seq<FieldV>
    decreases s,
{
    Seq::new(
        s.len(),
        |i: int|
            if 0 <= i < s.len() {
                field_view(s[i])
            } else {
                arbitrary()
            },
    )
}

pub open spec fn acl_entry_view(e: AclEntry) -> AclEntryV {
    AclEntryV { negated: e.negated, addr: e.addr@, mask: e.mask, span: e.span }
}

pub open spec fn acl_entries_view(s: Seq<AclEntry>) -> Seq<AclEntryV> {
    Seq::new(s.len(), |i: int| acl_entry_view(s[i]))
}

pub open spec fn opt_fields_view(b: Option<Vec<Field>>) -> Option<Seq<FieldV>> {
    match b {
        Some(fs) => Some(fields_view(fs@)),
        None => None,
    }
}

pub open spec fn decl_view(d: Decl) -> DeclV {
    match d {
        Decl::Import { name, from, span } => DeclV::Import {
            name: name@,
            from: text::opt_text(from),
            span,
        },
        Decl::Backend { name, none, body, span } => DeclV::Backend {
            name: name@,
            none,
            body: opt_fields_view(body),
            span,
        },
        Decl::Probe { name, body, span } => DeclV::Probe {
            name: name@,
            body: fields_view(body@),
            span,
        },
        Decl::Acl { name, entries, span } => DeclV::Acl {
            name: name@,
            entries: acl_entries_view(entries@),
            span,
        },
        Decl::Sub { name, body, span } => DeclV::Sub { name: name@, body: stmts_view(body@), span },
    }
}

pub open spec fn decls_view(s: Seq<Decl>) -> Seq<DeclV> {
    Seq::new(s.len(), |i: int| decl_view(s[i]))
}

impl View for Program {
    type V = ProgramV;

    open spec fn view(&self) -> ProgramV {
        ProgramV {
            vcl_version: self.vcl_version,
            decls: decls_view(self.decls@),
            comments: self.comments@,
            trailing_comments: comments_view(self.trailing_comments@),
        }
    }
}

impl View for Decl {
    type V = DeclV;

    open spec fn view(&self) -> DeclV {
        decl_view(*self)
    }
}

impl View for Field {
    type V = FieldV;

    open spec fn view(&self) -> FieldV {
        field_view(*self)
    }
}

impl View for FieldValue {
    type V = FieldValueV;

    open spec fn view(&self) -> FieldValueV {
        field_value_view(*self)
    }
}

impl View for AclEntry {
    type V = AclEntryV;

    open spec fn view(&self) -> AclEntryV {
        acl_entry_view(*self)
    }
}

impl View for Stmt {
    type V = StmtV;

    open spec fn view(&self) -> StmtV {
        stmt_view(*self)
    }
}

impl View for ReturnAction {
    type V = ReturnActionV;

    open spec fn view(&self) -> ReturnActionV {
        action_view(*self)
    }
}

impl View for Lvalue {
    type V = Seq<Seq<char>>;

    open spec fn view(&self) -> Seq<Seq<char>> {
        text::texts(self.parts@)
    }
}

impl View for Expr {
    type V = ExprV;

    open spec fn view(&self) -> ExprV {
        expr_view(*self)
    }
}

impl View for Arg {
    type V = ArgV;

    open spec fn view(&self) -> ArgV {
        arg_view(*self)
    }
}

pub broadcast proof fn lemma_args_push(s: Seq<Arg>, x: Arg)
    ensures
        #[trigger] args_view(s.push(x)) == args_view(s).push(arg_view(x)),
{
    assert(args_view(s.push(x)) =~= args_view(s).push(arg_view(x)));
}

pub broadcast proof fn lemma_exprs_push(s: Seq<Expr>, x: Expr)
    ensures
        #[trigger] exprs_view(s.push(x)) == exprs_view(s).push(expr_view(x)),
{
    assert(exprs_view(s.push(x)) =~= exprs_view(s).push(expr_view(x)));
}

pub broadcast proof fn lemma_stmts_push(s: Seq<Stmt>, x: Stmt)
    ensures
        #[trigger] stmts_view(s.push(x)) == stmts_view(s).push(stmt_view(x)),
{
    assert(stmts_view(s.push(x)) =~= stmts_view(s).push(stmt_view(x)));
}

pub broadcast proof fn lemma_arms_push(s: Seq<(Expr, Vec<Stmt>)>, x: (Expr, Vec<Stmt>))
    ensures
        #[trigger] arms_view(s.push(x)) == arms_view(s).push(arm_view(x)),
{
    assert(arms_view(s.push(x)) =~= arms_view(s).push(arm_view(x)));
}

pub broadcast proof fn lemma_fields_push(s: Seq<Field>, x: Field)
    ensures
        #[trigger] fields_view(s.push(x)) == fields_view(s).push(field_view(x)),
{
    assert(fields_view(s.push(x)) =~= fields_view(s).push(field_view(x)));
}

pub broadcast proof fn lemma_acl_entries_push(s: Seq<AclEntry>, x: AclEntry)
    ensures
        #[trigger] acl_entries_view(s.push(x)) == acl_entries_view(s).push(acl_entry_view(x)),
{
    assert(acl_entries_view(s.push(x)) =~= acl_entries_view(s).push(acl_entry_view(x)));
}

pub broadcast proof fn lemma_decls_push(s: Seq<Decl>, x: Decl)
    ensures
        #[trigger] decls_view(s.push(x)) == decls_view(s).push(decl_view(x)),
{
    assert(decls_view(s.push(x)) =~= decls_view(s).push(decl_view(x)));
}

pub broadcast proof fn lemma_comments_push(s: Seq<LeadingComment>, x: LeadingComment)
    ensures
        #[trigger] comments_view(s.push(x)) == comments_view(s).push(x@),
{
    assert(comments_view(s.push(x)) =~= comments_view(s).push(x@));
}

/// A list that grows by one item grows by that item's view.
pub broadcast group group_views {
    lemma_args_push,
    lemma_exprs_push,
    lemma_stmts_push,
    lemma_arms_push,
    lemma_fields_push,
    lemma_acl_entries_push,
    lemma_decls_push,
    lemma_comments_push,
    text::lemma_texts_push,
}

// ───────────────────────── names and places ─────────────────────────

/// The name that a declaration declares.
pub open spec fn decl_name(d: DeclV) -> Seq<char> {
    match d {
        DeclV::Import { name, .. } => name,
        DeclV::Backend { name, .. } => name,
        DeclV::Probe { name, .. } => name,
        DeclV::Acl { name, .. } => name,
        DeclV::Sub { name, .. } => name,
    }
}

/// The place of a declaration.
pub open spec fn decl_span(d: DeclV) -> Span {
    match d {
        DeclV::Import { span, .. } => span,
        DeclV::Backend { span, .. } => span,
        DeclV::Probe { span, .. } => span,
        DeclV::Acl { span, .. } => span,
        DeclV::Sub { span, .. } => span,
    }
}

/// The place of a statement.
pub open spec fn stmt_span(s: StmtV) -> Span {
    match s {
        StmtV::Assign { span, .. } => span,
        StmtV::Unset { span, .. } => span,
        StmtV::Call { span, .. } => span,
        StmtV::Return { span, .. } => span,
        StmtV::Synthetic { span, .. } => span,
        StmtV::If { span, .. } => span,
        StmtV::New { span, .. } => span,
        StmtV::Expr { span, .. } => span,
    }
}

impl Decl {
    /// The name that the declaration declares.
    pub fn name(&self) -> (r: &String)
        ensures
            r@ == decl_name(self@),
    {
        match self {
            Decl::Import { name, .. } => name,
            Decl::Backend { name, .. } => name,
            Decl::Probe { name, .. } => name,
            Decl::Acl { name, .. } => name,
            Decl::Sub { name, .. } => name,
        }
    }

    /// The place of the declaration.
    pub fn span(&self) -> (r: Span)
        ensures
            r == decl_span(self@),
    {
        match self {
            Decl::Import { span, .. } => *span,
            Decl::Backend { span, .. } => *span,
            Decl::Probe { span, .. } => *span,
            Decl::Acl { span, .. } => *span,
            Decl::Sub { span, .. } => *span,
        }
    }
}

impl Stmt {
    /// The place of the statement.
    pub fn span(&self) -> (r: Span)
        ensures
            r == stmt_span(self@),
    {
        match self {
            Stmt::Assign { span, .. } => *span,
            Stmt::Unset { span, .. } => *span,
            Stmt::Call { span, .. } => *span,
            Stmt::Return { span, .. } => *span,
            Stmt::Synthetic { span, .. } => *span,
            Stmt::If { span, .. } => *span,
            Stmt::New { span, .. } => *span,
            Stmt::Expr { span, .. } => *span,
        }
    }
}

// ───────────────────────── built-in subroutines ─────────────────────────

/// The built-in subroutines, in the order in which they are walked.
pub open spec fn builtin_subs() -> Seq<Seq<char>> {
    seq![
        "vcl_init"@,
        "vcl_connect"@,
        "vcl_recv"@,
        "vcl_pipe"@,
        "vcl_pass"@,
        "vcl_hash"@,
        "vcl_purge"@,
        "vcl_hit"@,
        "vcl_miss"@,
        "vcl_deliver"@,
        "vcl_synth"@,
        "vcl_backend_fetch"@,
        "vcl_backend_response"@,
        "vcl_backend_error"@,
        "vcl_fini"@,
    ]
}

fn push_text(list: &mut Vec<String>, t: &str)
    ensures
        text::texts(final(list)@) == text::texts(old(list)@).push(t@),
{
    let ghost before = list@;
    let s = t.to_string();
    list.push(s);
    proof {
        text::lemma_texts_push(before, s);
    }
}

/// The built-in subroutines, in the order in which they are walked.
pub fn builtin_sub_order() -> (r: Vec<String>)
    ensures
        text::texts(r@) == builtin_subs(),
{
    let mut v: Vec<String> = Vec::new();
    push_text(&mut v, "vcl_init");
    push_text(&mut v, "vcl_connect");
    push_text(&mut v, "vcl_recv");
    push_text(&mut v, "vcl_pipe");
    push_text(&mut v, "vcl_pass");
    push_text(&mut v, "vcl_hash");
    push_text(&mut v, "vcl_purge");
    push_text(&mut v, "vcl_hit");
    push_text(&mut v, "vcl_miss");
    push_text(&mut v, "vcl_deliver");
    push_text(&mut v, "vcl_synth");
    push_text(&mut v, "vcl_backend_fetch");
    push_text(&mut v, "vcl_backend_response");
    push_text(&mut v, "vcl_backend_error");
    push_text(&mut v, "vcl_fini");
    assert(text::texts(v@) =~= builtin_subs());
    v
}

/// Whether a name is reserved for built-in subroutines: it begins with `vcl_`.
pub open spec fn builtin_name(name: Seq<char>) -> bool {
    text::begins_with(name, "vcl_"@)
}

/// Whether a name is reserved for built-in subroutines: it begins with `vcl_`.
pub fn is_builtin_sub(name: &str) -> (r: bool)
    ensures
        r == builtin_name(name@),
{
    text::starts_with(name, "vcl_")
}

// ───────────────────────── units ─────────────────────────

/// The seconds that so many of a unit are: a year has 365.25 days.
pub open spec fn duration_value(num: DecimalV, unit: Seq<char>) -> Option<DecimalV> {
    if unit == "ms"@ {
        Some(decimal::reduce(num.num, num.scale + 3))
    } else if unit == "s"@ {
        Some(decimal::reduce(num.num * 1, num.scale))
    } else if unit == "m"@ {
        Some(decimal::reduce(num.num * 60, num.scale))
    } else if unit == "h"@ {
        Some(decimal::reduce(num.num * 3600, num.scale))
    } else if unit == "d"@ {
        Some(decimal::reduce(num.num * 86400, num.scale))
    } else if unit == "w"@ {
        Some(decimal::reduce(num.num * 604800, num.scale))
    } else if unit == "y"@ {
        Some(decimal::reduce(num.num * 31557600, num.scale))
    } else {
        None
    }
}

/// The seconds that so many of a duration unit are.
pub fn duration_secs(num: &Decimal, unit: &str) -> (r: Option<Decimal>)
    requires
        num@.scale + 3 <= usize::MAX,
    ensures
        match r {
            Some(d) => duration_value(num@, unit@) == Some(d@),
            None => duration_value(num@, unit@) is None,
        },
{
    if text::str_eq(unit, "ms") {
        Some(num.shifted(3))
    } else if text::str_eq(unit, "s") {
        Some(num.times(1))
    } else if text::str_eq(unit, "m") {
        Some(num.times(60))
    } else if text::str_eq(unit, "h") {
        Some(num.times(3600))
    } else if text::str_eq(unit, "d") {
        Some(num.times(86400))
    } else if text::str_eq(unit, "w") {
        Some(num.times(604800))
    } else if text::str_eq(unit, "y") {
        Some(num.times(31557600))
    } else {
        None
    }
}

/// The factor of a bytes unit; units are powers of 1024.
pub open spec fn bytes_factor(unit: Seq<char>) -> Option<u64> {
    if unit == "B"@ {
        Some(1)
    } else if unit == "KB"@ {
        Some(0x400)
    } else if unit == "MB"@ {
        Some(0x10_0000)
    } else if unit == "GB"@ {
        Some(0x4000_0000)
    } else if unit == "TB"@ {
        Some(0x100_0000_0000)
    } else {
        None
    }
}

/// The whole bytes that so many of a unit are, at most `u64::MAX`.
pub open spec fn bytes_amount(num: DecimalV, unit: Seq<char>) -> Option<u64> {
    match bytes_factor(unit) {
        Some(f) => {
            let n = (num.num * f as nat) / decimal::pow10(num.scale);
            Some(
                if n <= u64::MAX {
                    n as u64
                } else {
                    u64::MAX
                },
            )
        },
        None => None,
    }
}

/// The whole bytes that so many of a bytes unit are, at most `u64::MAX`.
pub fn bytes_val(num: &Decimal, unit: &str) -> (r: Option<u64>)
    ensures
        r == bytes_amount(num@, unit@),
{
    if text::str_eq(unit, "B") {
        Some(num.floor_times(1))
    } else if text::str_eq(unit, "KB") {
        Some(num.floor_times(0x400))
    } else if text::str_eq(unit, "MB") {
        Some(num.floor_times(0x10_0000))
    } else if text::str_eq(unit, "GB") {
        Some(num.floor_times(0x4000_0000))
    } else if text::str_eq(unit, "TB") {
        Some(num.floor_times(0x100_0000_0000))
    } else {
        None
    }
}

} // verus!
