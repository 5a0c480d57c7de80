//! Dumps of a whole program: `varnishadm vcl.show -v` writes every file of an
//! inclusion tree into one text, each behind a line
//! `// VCL.SHOW <index> <length> <file name>`.

use crate::ast;
use crate::ast::{ErrV, Span, VclError, VclResult, NEWLINE};
use crate::lexer;
use crate::text;
use vstd::prelude::*;
use vstd::string::*;
use vstd::utf8::*;

pub mod listed;

verus! {

/// One file of a dump.
#[derive(Debug, PartialEq)]
pub struct VclShowChunk {
    pub index: u32,
    /// The length of the content in bytes.
    pub declared_len: u32,
    pub filename: String,
    pub content: String,
}

/// One file of a dump.
#[verifier::ext_equal]
pub struct ChunkV {
    pub index: u32,
    pub declared_len: u32,
    pub filename: Seq<char>,
    pub content: Seq<char>,
}

impl View for VclShowChunk {
    type V = ChunkV;

    open spec fn view(&self) -> ChunkV {
        ChunkV {
            index: self.index,
            declared_len: self.declared_len,
            filename: self.filename@,
            content: self.content@,
        }
    }
}

impl Clone for VclShowChunk {
    fn clone(&self) -> (r: Self)
        ensures
            r@ == self@,
    {
        VclShowChunk {
            index: self.index,
            declared_len: self.declared_len,
            filename: self.filename.clone(),
            content: self.content.clone(),
        }
    }
}

pub open spec fn chunks_view(s: Seq<VclShowChunk>) -> Seq<ChunkV> {
    Seq::new(s.len(), |i: int| s[i]@)
}


// ───────────────────────── the format ─────────────────────────

/// Whether the bytes `s` stand at `p`.
pub open spec fn bytes_at(b: Seq<u8>, p: nat, s: Seq<u8>) -> bool {
    p + s.len() <= b.len() && b.subrange(p as int, (p + s.len()) as int) == s
}

/// What a marker line begins with.
pub open spec fn marker() -> Seq<u8> {
    encode_utf8("// VCL.SHOW "@)
}

/// Whether the line from `lo` to `hi` is a rule: at least three bytes, dashes
/// and then nothing but carriage returns.
pub open spec fn rule_line(b: Seq<u8>, lo: nat, hi: nat) -> bool {
    lo + 3 <= hi && exists|k: int| #[trigger] dashes_upto(b, lo, k, hi)
}

/// Whether dashes stand from `lo` to `k`, and carriage returns from `k` to
/// `hi`.
pub open spec fn dashes_upto(b: Seq<u8>, lo: nat, k: int, hi: nat) -> bool {
    &&& lo <= k <= hi
    &&& forall|j: int| lo <= j < k ==> b[j] == lexer::DASH
    &&& forall|j: int| k <= j < hi ==> b[j] == lexer::CARRIAGE_RETURN
}

/// Where the chunks of a dump start: behind a heading of three lines (a rule,
/// a line that begins with `Item`, and a rule), where there is one.
pub open spec fn chunks_start(b: Seq<u8>) -> nat {
    let l1 = ast::line_end(b, 0);
    let l2 = ast::line_end(b, l1 + 1);
    let l3 = ast::line_end(b, l2 + 1);
    if l1 < b.len() && rule_line(b, 0, l1) && l2 < b.len() && bytes_at(
        b,
        l1 + 1,
        encode_utf8("Item"@),
    ) && l3 < b.len() && rule_line(b, l2 + 1, l3) {
        l3 + 1
    } else {
        0
    }
}

/// Where the line breaks from `p` on end.
pub open spec fn skip_breaks(b: Seq<u8>, p: nat) -> nat
    decreases b.len() - p,
{
    if p < b.len() && (b[p as int] == NEWLINE || b[p as int] == lexer::CARRIAGE_RETURN) {
        skip_breaks(b, p + 1)
    } else {
        p
    }
}

/// The fields of a marker line.
#[verifier::ext_equal]
pub struct MarkerV {
    pub index: nat,
    pub len: nat,
    pub filename: Seq<char>,
}

/// Reads the text of a marker line behind its prefix: the index, the length
/// and the file name, which may hold spaces.
pub open spec fn read_marker(line: Seq<char>) -> core::result::Result<MarkerV, Seq<char>> {
    let parts = text::words_from(line, 0);
    if parts.len() < 3 {
        Err(
            "malformed VCL.SHOW marker: expected at least 3 fields, got "@ + text::nat_text(
                parts.len(),
            ),
        )
    } else {
        match (
            text::unsigned_value(parts[0], u32::MAX as nat),
            text::unsigned_value(parts[1], u32::MAX as nat),
        ) {
            (None, _) => Err("invalid chunk index '"@ + parts[0] + "': expected u32"@),
            (Some(_), None) => Err("invalid declared length '"@ + parts[1] + "': expected u32"@),
            (Some(index), Some(len)) => Ok(
                MarkerV {
                    index,
                    len,
                    filename: text::join(parts.subrange(2, parts.len() as int), " "@),
                },
            ),
        }
    }
}

/// What a dump holds.
#[verifier::ext_equal]
pub enum DumpV {
    Chunks(Seq<ChunkV>),
    Fault(ErrV),
    /// A chunk ends inside a character, or its index leaves no next index.
    Cut,
}

/// A fault of a dump.
pub open spec fn fault(msg: Seq<char>) -> DumpV {
    DumpV::Fault(ast::err_at(ast::dummy_span(), msg))
}

/// What a dump holds from `p` on, behind the chunks in `done`.
pub open spec fn dump_from(b: Seq<u8>, p: nat, done: Seq<ChunkV>) -> DumpV
    decreases b.len() - p,
{
    let e = ast::line_end(b, p);
    if p >= b.len() {
        if done.len() == 0 {
            fault("no VCL.SHOW chunks found in input"@)
        } else {
            DumpV::Chunks(done)
        }
    } else if !bytes_at(b, p, marker()) {
        fault("no VCL.SHOW marker found in input"@)
    } else if e >= b.len() {
        fault("marker line has no newline"@)
    } else {
        match read_marker(text::text_of(b, (p + marker().len()) as int, e as int)) {
            Err(m) => fault(m),
            Ok(m) => {
                let end = e + 1 + m.len;
                let n = skip_breaks(b, end);
                if m.index != done.len() {
                    fault(
                        "chunk index mismatch: expected "@ + text::nat_text(done.len())
                            + ", got "@ + text::nat_text(m.index) + " (filename: "@ + m.filename
                            + ")"@,
                    )
                } else if m.index == u32::MAX {
                    DumpV::Cut
                } else if end > b.len() {
                    fault(
                        "chunk "@ + text::nat_text(m.index) + " ("@ + m.filename
                            + "): content extends past end of input (declared length "@
                            + text::nat_text(m.len) + ")"@,
                    )
                } else if !is_char_boundary(b, end as int) {
                    DumpV::Cut
                } else if p < n <= b.len() {
                    dump_from(
                        b,
                        n,
                        done.push(
                            ChunkV {
                                index: m.index as u32,
                                declared_len: m.len as u32,
                                filename: m.filename,
                                content: text::text_of(b, e as int + 1, end as int),
                            },
                        ),
                    )
                } else {
                    DumpV::Cut
                }
            },
        }
    }
}

/// What a dump holds.
pub open spec fn dump(t: Seq<char>) -> DumpV {
    let b = encode_utf8(t);
    dump_from(b, chunks_start(b), seq![])
}

/// What a result with the chunks of a dump says.
pub open spec fn chunks_result(r: VclResult<Vec<VclShowChunk>>) -> DumpV {
    match r {
        Ok(c) => DumpV::Chunks(chunks_view(c@)),
        Err(e) => DumpV::Fault(e@),
    }
}

// ───────────────────────── reading it ─────────────────────────

/// The position of the newline that ends the line at `pos`.
fn find_line_end(b: &[u8], pos: usize) -> (r: Option<usize>)
    requires
        pos <= b@.len(),
    ensures
        match r {
            Some(e) => e == ast::line_end(b@, pos as nat) && pos <= e < b@.len() && b@[e as int]
                == NEWLINE,
            None => ast::line_end(b@, pos as nat) == b@.len(),
        },
{
    let mut e: usize = pos;
    while e < b.len()
        invariant
            pos <= e <= b@.len(),
            ast::line_end(b@, e as nat) == ast::line_end(b@, pos as nat),
        decreases b@.len() - e,
    {
        if b[e] == NEWLINE {
            return Some(e);
        }
        e += 1;
    }
    None
}

/// Whether the line from `lo` to `hi` is a rule.
fn is_rule(b: &[u8], lo: usize, hi: usize) -> (r: bool)
    requires
        lo <= hi <= b@.len(),
    ensures
        r == rule_line(b@, lo as nat, hi as nat),
{
    if hi - lo < 3 {
        return false;
    }
    let mut k: usize = lo;
    while k < hi && b[k] == lexer::DASH
        invariant
            lo <= k <= hi <= b@.len(),
            forall|j: int| lo <= j < k ==> b@[j] == lexer::DASH,
        ensures
            lo <= k <= hi,
            forall|j: int| lo <= j < k ==> b@[j] == lexer::DASH,
            k < hi ==> b@[k as int] != lexer::DASH,
        decreases hi - k,
    {
        k += 1;
    }
    let mut m: usize = k;
    while m < hi
        invariant
            lo <= k <= m <= hi <= b@.len(),
            forall|j: int| lo <= j < k ==> b@[j] == lexer::DASH,
            k < hi ==> b@[k as int] != lexer::DASH,
            forall|j: int| k <= j < m ==> b@[j] == lexer::CARRIAGE_RETURN,
        decreases hi - m,
    {
        if b[m] != lexer::CARRIAGE_RETURN {
            proof {
                assert forall|q: int| !dashes_upto(b@, lo as nat, q, hi as nat) by {
                    if dashes_upto(b@, lo as nat, q, hi as nat) {
                        assert(q <= k);
                        assert(b@[m as int] == lexer::CARRIAGE_RETURN);
                    }
                }
            }
            return false;
        }
        m += 1;
    }
    assert(dashes_upto(b@, lo as nat, k as int, hi as nat));
    true
}

/// Whether the bytes `s` stand at `p`.
fn stands_at(b: &[u8], p: usize, s: &[u8]) -> (r: bool)
    requires
        p <= b@.len(),
    ensures
        r == bytes_at(b@, p as nat, s@),
{
    if b.len() - p < s.len() {
        return false;
    }
    let n: usize = b.len();
    let mut i: usize = 0;
    while i < s.len()
        invariant
            n == b@.len(),
            i <= s@.len(),
            p + s@.len() <= n,
            forall|j: int| 0 <= j < i ==> b@[p + j] == s@[j],
        decreases s@.len() - i,
    {
        if b[p + i] != s[i] {
            assert(b@.subrange(p as int, p + s@.len())[i as int] != s@[i as int]);
            return false;
        }
        i += 1;
    }
    assert(b@.subrange(p as int, p + s@.len()) =~= s@);
    true
}

/// Where the chunks of a dump start.
fn find_chunks(b: &[u8]) -> (r: usize)
    ensures
        r == chunks_start(b@),
        r <= b@.len(),
{
    let n: usize = b.len();
    assert(n == b@.len());
    if let Some(l1) = find_line_end(b, 0) {
        if is_rule(b, 0, l1) {
            if let Some(l2) = find_line_end(b, l1 + 1) {
                if stands_at(b, l1 + 1, "Item".as_bytes()) {
                    if let Some(l3) = find_line_end(b, l2 + 1) {
                        if is_rule(b, l2 + 1, l3) {
                            return l3 + 1;
                        }
                    }
                }
            }
        }
    }
    0
}

/// The fields of a marker line.
struct Marker {
    index: u32,
    len: u32,
    filename: String,
}

/// Reads the text of a marker line behind its prefix.
fn parse_marker(line: &str) -> (r: core::result::Result<Marker, String>)
    ensures
        match r {
            Ok(m) => read_marker(line@) == core::result::Result::<MarkerV, Seq<char>>::Ok(
                MarkerV { index: m.index as nat, len: m.len as nat, filename: m.filename@ },
            ),
            Err(e) => read_marker(line@) == core::result::Result::<MarkerV, Seq<char>>::Err(e@),
        },
{
    let parts = text::split_words(line);
    assert(parts.len() == text::words_from(line@, 0).len());
    if parts.len() < 3 {
        let mut m = "malformed VCL.SHOW marker: expected at least 3 fields, got ".to_string();
        m.append(text::u64_text(parts.len() as u64).as_str());
        return Err(m);
    }
    assert(text::texts(parts@)[0] == parts@[0]@);
    assert(text::texts(parts@)[1] == parts@[1]@);
    let index: u64 = match text::parse_unsigned(parts[0].as_str(), u32::MAX as u64) {
        Some(v) => v,
        None => {
            let mut m = "invalid chunk index '".to_string();
            m.append(parts[0].as_str());
            m.append("': expected u32");
            return Err(m);
        },
    };
    let len: u64 = match text::parse_unsigned(parts[1].as_str(), u32::MAX as u64) {
        Some(v) => v,
        None => {
            let mut m = "invalid declared length '".to_string();
            m.append(parts[1].as_str());
            m.append("': expected u32");
            return Err(m);
        },
    };
    let mut rest: Vec<String> = Vec::new();
    let mut i: usize = 2;
    while i < parts.len()
        invariant
            2 <= i <= parts.len(),
            rest.len() == i - 2,
            forall|j: int| 0 <= j < rest.len() ==> (#[trigger] rest@[j])@ == parts@[j + 2]@,
        decreases parts.len() - i,
    {
        rest.push(parts[i].clone());
        i += 1;
    }
    assert(text::texts(rest@) =~= text::texts(parts@).subrange(2, parts.len() as int));
    Ok(Marker { index: index as u32, len: len as u32, filename: text::join_strings(&rest, " ") })
}

pub(crate) proof fn lemma_marker()
    ensures
        marker().len() == 12,
        marker()[11] < 128,
        forall|i: int| 0 <= i < 12 ==> marker()[i] != NEWLINE,
{
    reveal_strlit("// VCL.SHOW ");
    is_ascii_chars_encode_utf8("// VCL.SHOW "@);
}

pub(crate) proof fn lemma_line_end_behind(b: Seq<u8>, p: nat, k: nat)
    requires
        p + k <= b.len(),
        forall|i: int| p <= i < p + k ==> b[i] != NEWLINE,
    ensures
        ast::line_end(b, p) >= p + k,
    decreases b.len() - p,
{
    if k > 0 {
        lemma_line_end_behind(b, p + 1, (k - 1) as nat);
    } else if p < b.len() && b[p as int] != NEWLINE {
        lemma_line_end_behind(b, p + 1, 0);
    }
}

fn faulty(msg: String) -> (r: Option<VclResult<Vec<VclShowChunk>>>)
    ensures
        r matches Some(x) && chunks_result(x) == fault(msg@),
{
    Some(Err(VclError::new(Span::dummy(), msg)))
}

/// The chunks of a dump, or nothing where a chunk ends inside a character or
/// its index leaves no next index.
pub fn parse_dump(t: &str) -> (r: Option<VclResult<Vec<VclShowChunk>>>)
    ensures
        match r {
            Some(x) => chunks_result(x) == dump(t@),
            None => dump(t@) is Cut,
        },
{
    let b = t.as_bytes();
    proof {
        encode_utf8_valid_utf8(t@);
        is_char_boundary_start_end_of_seq(b@);
        lemma_marker();
    }
    let prefix = "// VCL.SHOW ".as_bytes();
    let mut chunks: Vec<VclShowChunk> = Vec::new();
    let mut pos: usize = find_chunks(b);
    assert(chunks_view(chunks@) =~= Seq::<ChunkV>::empty());
    while pos < b.len()
        invariant
            b@ == encode_utf8(t@),
            valid_utf8(b@),
            prefix@ == marker(),
            pos <= b@.len(),
            chunks.len() <= u32::MAX,
            dump(t@) == dump_from(b@, pos as nat, chunks_view(chunks@)),
        decreases b@.len() - pos,
    {
        proof {
            lemma_marker();
            is_char_boundary_start_end_of_seq(b@);
        }
        if !stands_at(b, pos, prefix) {
            return faulty("no VCL.SHOW marker found in input".to_string());
        }
        let e: usize = match find_line_end(b, pos) {
            Some(e) => e,
            None => {
                return faulty("marker line has no newline".to_string());
            },
        };
        let from: usize = pos + prefix.len();
        proof {
            assert forall|i: int| pos <= i < pos + 12 implies b@[i] != NEWLINE by {
                assert(b@.subrange(pos as int, pos + 12)[i - pos] == b@[i]);
            }
            lemma_line_end_behind(b@, pos as nat, 12);
            assert(b@.subrange(pos as int, pos + 12)[11] == b@[pos + 11]);
            text::lemma_ascii_boundary(b@, pos + 11);
            text::lemma_ascii_boundary(b@, e as int);
        }
        let line = text::slice_text(t, from, e);
        let m = match parse_marker(line.as_str()) {
            Ok(m) => m,
            Err(msg) => {
                return faulty(msg);
            },
        };
        if m.index as usize != chunks.len() {
            let mut msg = "chunk index mismatch: expected ".to_string();
            msg.append(text::u64_text(chunks.len() as u64).as_str());
            msg.append(", got ");
            msg.append(text::u64_text(m.index as u64).as_str());
            msg.append(" (filename: ");
            msg.append(m.filename.as_str());
            msg.append(")");
            return faulty(msg);
        }
        if m.index == u32::MAX {
            return None;
        }
        let start: usize = e + 1;
        if m.len as usize > b.len() - start {
            let mut msg = "chunk ".to_string();
            msg.append(text::u64_text(m.index as u64).as_str());
            msg.append(" (");
            msg.append(m.filename.as_str());
            msg.append("): content extends past end of input (declared length ");
            msg.append(text::u64_text(m.len as u64).as_str());
            msg.append(")");
            return faulty(msg);
        }
        let end: usize = start + m.len as usize;
        if !t.is_char_boundary(end) {
            return None;
        }
        let content = text::slice_text(t, start, end);
        let mut next: usize = end;
        while next < b.len() && (b[next] == NEWLINE || b[next] == lexer::CARRIAGE_RETURN)
            invariant
                end <= next <= b@.len(),
                skip_breaks(b@, next as nat) == skip_breaks(b@, end as nat),
            decreases b@.len() - next,
        {
            next += 1;
        }
        let ghost before = chunks@;
        chunks.push(
            VclShowChunk { index: m.index, declared_len: m.len, filename: m.filename, content },
        );
        assert(chunks_view(chunks@) =~= chunks_view(before).push(chunks@.last()@));
        pos = next;
    }
    if chunks.len() == 0 {
        return faulty("no VCL.SHOW chunks found in input".to_string());
    }
    Some(Ok(chunks))
}

/// The chunks of a dump, in order: the indices run from zero without a gap,
/// and every content is exactly as long as its marker says.
pub fn parse_chunks(t: &str) -> (r: VclResult<Vec<VclShowChunk>>)
    requires
        !(dump(t@) is Cut),
    ensures
        chunks_result(r) == dump(t@),
{
    parse_dump(t).unwrap()
}

} // verus!
