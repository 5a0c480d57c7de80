//! What the commands do with parsed programs: checking and normalizing one,
//! comparing two, and the texts that are shown.

use crate::ast;
use crate::ast::{
    CommentMap, CommentMapV, ErrV, FileV, NameEntryV, NameMap, Program, ProgramV, SourceMap, Span,
    VclError, VclResult,
};
use crate::canon;
use crate::compare;
use crate::normalize;
use crate::printer;
use crate::symbols;
use crate::table::Table;
use crate::text;
use crate::vmod::VmodSpec;
use vstd::prelude::*;
use vstd::string::*;
use vstd::utf8::*;

verus! {

// ───────────────────────── one program ─────────────────────────

/// What a program becomes: the first error of its names, or the error of its
/// vmod calls, or its canonical form with the renamings.
pub open spec fn prepared(
    p: ProgramV,
    specs: Map<Seq<char>, VmodSpec>,
    rename: bool,
) -> core::result::Result<(ProgramV, Seq<NameEntryV>), ErrV> {
    match symbols::outcome(p, specs).error {
        Some(e) => Err(e),
        None => match normalize::prepared(p, specs) {
            Err(e) => Err(e),
            Ok(q) => Ok((normalize::finished(q, rename), normalize::finished_names(q, rename))),
        },
    }
}

/// Checks the names of a program and brings it into its canonical form. The
/// warnings of the check are added to `warnings`.
pub fn prepare(
    p: Program,
    specs: &Table<VmodSpec>,
    rename: bool,
    warnings: &mut Vec<String>,
) -> (r: VclResult<(Program, NameMap)>)
    ensures
        text::texts(final(warnings)@) == text::texts(old(warnings)@) + symbols::outcome(
            p@,
            specs@,
        ).warnings,
        match (prepared(p@, specs@, rename), r) {
            (Ok(x), Ok(y)) => y.0@ == x.0 && y.1@ == x.1,
            (Err(x), Err(e)) => e@ == x,
            _ => false,
        },
{
    symbols::validate_with_warnings(&p, specs, warnings)?;
    let mut q = p;
    let names = normalize::normalize(&mut q, specs, rename)?;
    Ok((q, names))
}

/// A program without its comments.
pub open spec fn uncommented(p: ProgramV) -> ProgramV {
    ProgramV { comments: CommentMapV::empty(), trailing_comments: seq![], ..p }
}

/// Removes the comments of a program.
pub fn remove_comments(p: &mut Program)
    ensures
        final(p)@ == uncommented(old(p)@),
{
    p.comments = CommentMap::default();
    p.trailing_comments = Vec::new();
    assert(ast::comments_view(p.trailing_comments@) =~= seq![]);
}

// ───────────────────────── two programs ─────────────────────────

/// The report on two programs that differ.
pub open spec fn difference(
    a: ProgramV,
    fa: Seq<FileV>,
    b: ProgramV,
    fb: Seq<FileV>,
    max: nat,
) -> Seq<char> {
    let divs = compare::capped(compare::program_divs(a, b), max);
    compare::divs_report(divs, fa, fb, divs.len()) + if divs.len() >= max {
        "\n… and more divergences exist beyond the reported cap\n"@
    } else {
        ""@
    }
}

/// Compares two programs in canonical form: nothing where they are the same,
/// and else a report on at most `max` places at which they differ.
pub fn report(
    a: &Program,
    sm_a: &SourceMap,
    b: &Program,
    sm_b: &SourceMap,
    max: usize,
) -> (r: Option<String>)
    ensures
        match r {
            None => canon::program_json(a@) == canon::program_json(b@),
            Some(t) => canon::program_json(a@) != canon::program_json(b@) && t@ == difference(
                a@,
                sm_a@,
                b@,
                sm_b@,
                max as nat,
            ),
        },
{
    if canon::canon_eq(a, b) {
        None
    } else {
        let divs = compare::compare(a, b, max);
        Some(compare::render_report(divs.as_slice(), sm_a, sm_b, divs.len() >= max))
    }
}

/// The unified diff that `similar` writes for the lines of two texts.
pub uninterp spec fn unified(a: Seq<char>, b: Seq<char>, radius: usize) -> Seq<char>;

/// `similar::TextDiff::from_lines` on two texts, written by `unified_diff` with
/// `radius` lines of context; the text is [`unified`]. Twice the radius is
/// computed there, so it must be a number of the machine.
#[verifier::external_body]
fn unified_diff(a: &str, b: &str, radius: usize) -> (r: String)
    requires
        radius <= usize::MAX / 2,
    ensures
        r@ == unified(a@, b@, radius),
{
    similar::TextDiff::from_lines(a, b).unified_diff().context_radius(radius).to_string()
}

/// The lines of context in a diff.
pub const CONTEXT: usize = 3;

/// The unified diff of two programs as they are printed.
pub fn diff(a: &Program, b: &Program) -> (r: String)
    ensures
        r@ == unified(printer::program_text(a@), printer::program_text(b@), CONTEXT),
{
    unified_diff(printer::print(a).as_str(), printer::print(b).as_str(), CONTEXT)
}

// ───────────────────────── renamings ─────────────────────────

/// A text filled up with spaces to a width.
pub open spec fn padded(s: Seq<char>, width: nat) -> Seq<char> {
    if s.len() < width {
        s + text::repeated(" "@, (width - s.len()) as nat)
    } else {
        s
    }
}

/// The line of one renaming.
pub open spec fn name_line(e: NameEntryV) -> Seq<char> {
    "  "@ + padded(e.kind, 10) + " "@ + padded(e.canonical, 24) + " <- "@ + e.original + "\n"@
}

/// The lines of the first `n` renamings.
pub open spec fn name_lines(s: Seq<NameEntryV>, n: nat) -> Seq<char>
    decreases n,
{
    if n == 0 {
        ""@
    } else {
        name_lines(s, (n - 1) as nat) + name_line(s[n - 1])
    }
}

fn pad(s: &str, width: usize) -> (r: String)
    ensures
        r@ == padded(s@, width as nat),
{
    let n: usize = text::to_chars(s).len();
    let mut r = s.to_string();
    if n < width {
        r.append(text::repeat(" ", width - n).as_str());
    }
    r
}

fn lines_of(m: &NameMap) -> (r: String)
    ensures
        r@ == name_lines(m@, m@.len()),
{
    let mut r = "".to_string();
    let mut i: usize = 0;
    while i < m.entries.len()
        invariant
            i <= m.entries@.len(),
            r@ == name_lines(m@, i as nat),
        decreases m.entries@.len() - i,
    {
        let ghost before = r@;
        let e = &m.entries[i];
        r.append("  ");
        r.append(pad(e.0.as_str(), 10).as_str());
        r.append(" ");
        r.append(pad(e.1.as_str(), 24).as_str());
        r.append(" <- ");
        r.append(e.2.as_str());
        r.append("\n");
        assert(r@ =~= before + name_line(m@[i as int]));
        i += 1;
    }
    r
}

/// The renamings of two programs, as they are shown.
pub fn names_text(a: &NameMap, b: &NameMap) -> (r: String)
    ensures
        r@ == "names (A: canonical <- original):\n"@ + name_lines(a@, a@.len())
            + "names (B: canonical <- original):\n"@ + name_lines(b@, b@.len()),
{
    let mut r = "names (A: canonical <- original):\n".to_string();
    r.append(lines_of(a).as_str());
    r.append("names (B: canonical <- original):\n");
    r.append(lines_of(b).as_str());
    r
}

// ───────────────────────── errors ─────────────────────────

/// What is shown of an error: its place in the source and its message, or the
/// message alone where the place is not in these files.
pub open spec fn shown(e: ErrV, files: Seq<FileV>) -> Seq<char> {
    match e.span {
        Some(span) if !ast::span_shown(files, span) => e.msg,
        _ => ast::rendered(e, files),
    }
}

/// What is shown of an error in a parsed program.
pub fn error_text(e: &VclError, sm: &SourceMap) -> (r: String)
    ensures
        r@ == shown(e@, sm@),
{
    match e.span {
        Some(span) => {
            if sm.shows(span) {
                e.render(sm)
            } else {
                e.msg.clone()
            }
        },
        None => e.render(sm),
    }
}

/// Whether a place lies in a text of so many bytes.
pub open spec fn lies_in(span: Span, len: nat) -> bool {
    span.file == 0 && span.lo <= len && span.hi <= len
}

/// What is shown of an error in a file that was not parsed: its place, where it
/// is in the file itself and the file can be read.
pub open spec fn parse_shown(
    e: ErrV,
    path: Seq<char>,
    content: Option<Seq<char>>,
) -> Seq<char> {
    match (e.span, content) {
        (Some(span), Some(c)) if lies_in(span, encode_utf8(c).len()) => shown(
            e,
            seq![FileV { path, text: c }],
        ),
        _ => e.msg,
    }
}

/// What is shown of an error in a file that was not parsed. `content` is what
/// the file holds, where it is a plain VCL file that can be read.
pub fn parse_error_text(e: &VclError, path: &str, content: Option<String>) -> (r: String)
    ensures
        r@ == parse_shown(e@, path@, text::opt_text(content)),
{
    match (e.span, content) {
        (Some(span), Some(c)) => {
            let n: usize = c.as_str().as_bytes().len();
            if span.file == 0 && span.lo as usize <= n && span.hi as usize <= n {
                let mut sm = SourceMap::default();
                sm.add(path.to_string(), c);
                assert(sm@ =~= seq![FileV { path: path@, text: c@ }]);
                error_text(e, &sm)
            } else {
                e.msg.clone()
            }
        },
        _ => e.msg.clone(),
    }
}

} // verus!
