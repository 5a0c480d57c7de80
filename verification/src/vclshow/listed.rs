//! A dump that lists files is read back as these files.

use crate::ast;
use crate::decimal;
use crate::layout::lexing;
use crate::normalize::spelling;
use crate::readback::words;
use crate::text;
use crate::vclshow;
use crate::vclshow::{ChunkV, DumpV, MarkerV};
use vstd::prelude::*;
use vstd::string::*;
use vstd::utf8::*;

verus! {

/// A file as it is listed: its name, its content, and the line breaks behind it.
pub struct ListedV {
    pub name: Seq<char>,
    pub content: Seq<char>,
    pub gap: Seq<char>,
}

/// Whether a file can be listed: its name is one word, its length fits, and only line
/// breaks stand behind it.
pub open spec fn listable(f: ListedV) -> bool {
    &&& f.name.len() > 0
    &&& forall|i: int| 0 <= i < f.name.len() ==> !text::white_space(#[trigger] f.name[i])
    &&& encode_utf8(f.content).len() <= u32::MAX
    &&& forall|i: int| 0 <= i < f.gap.len() ==> #[trigger] f.gap[i] == '\n' || f.gap[i] == '\r'
}

/// What stands behind the marker in front of a file: its number, its length in bytes,
/// and its name.
pub open spec fn label(i: nat, f: ListedV) -> Seq<char> {
    text::nat_text(i) + seq![' '] + text::nat_text(encode_utf8(f.content).len()) + seq![' ']
        + f.name
}

/// The files from `i` on, each behind its marker.
pub open spec fn listing(fs: Seq<ListedV>, i: nat) -> Seq<char>
    decreases fs.len() - i,
{
    if i >= fs.len() {
        seq![]
    } else {
        let f = fs[i as int];
        ("// VCL.SHOW "@ + label(i, f) + seq!['\n'] + f.content + f.gap) + listing(fs, i + 1)
    }
}

/// A file as it is read.
pub open spec fn chunk(i: nat, f: ListedV) -> ChunkV {
    ChunkV {
        index: i as u32,
        declared_len: encode_utf8(f.content).len() as u32,
        filename: f.name,
        content: f.content,
    }
}

proof fn lemma_word(s: Seq<char>, from: nat, e: nat)
    requires
        from <= e <= s.len(),
        forall|i: int| from <= i < e ==> !text::white_space(#[trigger] s[i]),
        e < s.len() ==> text::white_space(s[e as int]),
    ensures
        text::word_end(s, from) == e,
    decreases e - from,
{
    if from < e {
        lemma_word(s, from + 1, e);
    }
}

proof fn lemma_three_words(a: Seq<char>, b: Seq<char>, c: Seq<char>)
    requires
        a.len() > 0 && b.len() > 0 && c.len() > 0,
        forall|i: int| 0 <= i < a.len() ==> !text::white_space(#[trigger] a[i]),
        forall|i: int| 0 <= i < b.len() ==> !text::white_space(#[trigger] b[i]),
        forall|i: int| 0 <= i < c.len() ==> !text::white_space(#[trigger] c[i]),
    ensures
        text::words_from(a + seq![' '] + b + seq![' '] + c, 0) == seq![a, b, c],
{
    let s = a + seq![' '] + b + seq![' '] + c;
    let p = a.len();
    let q = p + 1 + b.len();
    let r = s.len();
    assert forall|i: int| 0 <= i < p implies !text::white_space(#[trigger] s[i]) by {
        assert(s[i] == a[i]);
    }
    assert forall|i: int| p + 1 <= i < q implies !text::white_space(#[trigger] s[i]) by {
        assert(s[i] == b[i - p - 1]);
    }
    assert forall|i: int| q + 1 <= i < r implies !text::white_space(#[trigger] s[i]) by {
        assert(s[i] == c[i - q - 1]);
    }
    assert(s[p as int] == ' ' && s[q as int] == ' ');
    lemma_word(s, 0, p);
    lemma_word(s, p + 1, q);
    lemma_word(s, q + 1, r);
    assert(text::next_word(s, 0) == 0);
    assert(text::next_word(s, p + 1) == p + 1);
    assert(text::next_word(s, p) == p + 1);
    assert(text::next_word(s, q + 1) == q + 1);
    assert(text::next_word(s, q) == q + 1);
    assert(text::next_word(s, r) == r);
    assert(text::word_end(s, r) == r);
    assert(s.subrange(0, p as int) =~= a);
    assert(s.subrange(p as int + 1, q as int) =~= b);
    assert(s.subrange(q as int + 1, r as int) =~= c);
    assert(text::words_from(s, r) =~= seq![]);
    assert(text::words_from(s, q) =~= seq![c]);
    assert(text::words_from(s, p) =~= seq![b, c]);
    assert(text::words_from(s, 0) =~= seq![a, b, c]);
}

proof fn lemma_digits(n: nat)
    requires
        n <= u32::MAX,
    ensures
        text::nat_text(n).len() > 0,
        forall|i: int|
            0 <= i < text::nat_text(n).len() ==> !text::white_space(#[trigger] text::nat_text(n)[i]),
        text::unsigned_value(text::nat_text(n), u32::MAX as nat) == Some(n),
{
    let t = text::nat_text(n);
    spelling::lemma_digits_of_nat(n);
    assert(decimal::all_digits(t));
    assert forall|i: int| 0 <= i < t.len() implies !text::white_space(#[trigger] t[i]) by {
        assert(text::is_digit(t[i]));
    }
    assert(text::is_digit(t[0]));
}

proof fn lemma_label(i: nat, f: ListedV)
    requires
        listable(f),
        i <= u32::MAX,
    ensures
        vclshow::read_marker(label(i, f)) == Ok::<MarkerV, Seq<char>>(
            MarkerV { index: i, len: encode_utf8(f.content).len(), filename: f.name },
        ),
        !label(i, f).contains('\n'),
{
    let n = encode_utf8(f.content).len();
    let a = text::nat_text(i);
    let b = text::nat_text(n);
    lemma_digits(i);
    lemma_digits(n);
    lemma_three_words(a, b, f.name);
    let parts = text::words_from(label(i, f), 0);
    assert(parts[0] == a && parts[1] == b && parts[2] == f.name);
    let rest = parts.subrange(2, 3);
    assert(rest[0] == f.name);
    assert(text::join(rest, " "@) == f.name);
    let l = label(i, f);
    if l.contains('\n') {
        let k = choose|k: int| 0 <= k < l.len() && l[k] == '\n';
        if k < a.len() {
            assert(a[k] == '\n');
        } else if a.len() < k < a.len() + 1 + b.len() {
            assert(b[k - a.len() - 1] == '\n');
        } else if k > a.len() + 1 + b.len() {
            assert(f.name[k - a.len() - b.len() - 2] == '\n');
        }
    }
}

proof fn lemma_line_at(b: Seq<u8>, p: nat, e: nat)
    requires
        p <= e < b.len(),
        b[e as int] == 10,
        forall|j: int| p <= j < e ==> #[trigger] b[j] != 10,
    ensures
        ast::line_end(b, p) == e,
    decreases e - p,
{
    if p < e {
        lemma_line_at(b, p + 1, e);
    }
}

proof fn lemma_breaks(b: Seq<u8>, p: nat, n: nat)
    requires
        p <= n <= b.len(),
        forall|j: int| p <= j < n ==> #[trigger] b[j] == 10 || b[j] == 13,
        n < b.len() ==> b[n as int] != 10 && b[n as int] != 13,
    ensures
        vclshow::skip_breaks(b, p) == n,
    decreases n - p,
{
    if p < n {
        lemma_breaks(b, p + 1, n);
    }
}

proof fn lemma_no_newline(s: Seq<char>, j: int)
    requires
        !s.contains('\n'),
        0 <= j < encode_utf8(s).len(),
    ensures
        encode_utf8(s)[j] != 10,
{
    if encode_utf8(s)[j] == 10 {
        words::lemma_byte(s, j, '\n');
    }
}

proof fn lemma_marker()
    ensures
        !"// VCL.SHOW "@.contains('\n'),
        encode_utf8("// VCL.SHOW "@).len() > 0,
        encode_utf8("// VCL.SHOW "@)[0] == 47,
{
    reveal_strlit("// VCL.SHOW ");
    let m = "// VCL.SHOW "@;
    assert(m[0] == '/');
    words::lemma_first(m);
}

proof fn lemma_listing_starts(fs: Seq<ListedV>, i: nat)
    requires
        i < fs.len(),
    ensures
        encode_utf8(listing(fs, i)).len() > 0,
        encode_utf8(listing(fs, i))[0] == 47,
{
    let m = "// VCL.SHOW "@;
    let f = fs[i as int];
    let t = listing(fs, i);
    lemma_marker();
    assert(t =~= m + (label(i, f) + seq!['\n'] + f.content + f.gap + listing(fs, i + 1)));
    lexing::lemma_encode_add(
        m,
        label(i, f) + seq!['\n'] + f.content + f.gap + listing(fs, i + 1),
    );
}

/// The bytes of a listed file and of what stands before and behind it.
proof fn lemma_bytes(head: Seq<char>, l: Seq<char>, f: ListedV, rest: Seq<char>)
    ensures
        encode_utf8(
            head + (("// VCL.SHOW "@ + l + seq!['\n'] + f.content + f.gap) + rest),
        ) == encode_utf8(head) + encode_utf8("// VCL.SHOW "@) + encode_utf8(l) + seq![10u8]
            + encode_utf8(f.content) + encode_utf8(f.gap) + encode_utf8(rest),
        encode_utf8(head + ("// VCL.SHOW "@ + l + seq!['\n'] + f.content + f.gap)) == encode_utf8(
            head,
        ) + encode_utf8("// VCL.SHOW "@) + encode_utf8(l) + seq![10u8] + encode_utf8(f.content)
            + encode_utf8(f.gap),
{
    let m = "// VCL.SHOW "@;
    let nl = seq!['\n'];
    lexing::lemma_newline_byte();
    let whole = m + l + nl + f.content + f.gap;
    lexing::lemma_encode_add(head, whole + rest);
    lexing::lemma_encode_add(head, whole);
    lexing::lemma_encode_add(whole, rest);
    lexing::lemma_encode_add(m + l + nl + f.content, f.gap);
    lexing::lemma_encode_add(m + l + nl, f.content);
    lexing::lemma_encode_add(m + l, nl);
    lexing::lemma_encode_add(m, l);
    let h = encode_utf8(head);
    let a = encode_utf8(m);
    let b = encode_utf8(l);
    let c = encode_utf8(f.content);
    let d = encode_utf8(f.gap);
    let r = encode_utf8(rest);
    let n = seq![10u8];
    assert(encode_utf8(nl) =~= n);
    assert(h + (a + b + n + c + d) =~= h + a + b + n + c + d);
    assert(h + ((a + b + n + c + d) + r) =~= h + a + b + n + c + d + r);
}

#[verifier::spinoff_prover]
#[verifier::rlimit(60)]
proof fn lemma_dump(fs: Seq<ListedV>, i: nat, head: Seq<char>, done: Seq<ChunkV>)
    requires
        forall|k: int| 0 <= k < fs.len() ==> listable(#[trigger] fs[k]),
        0 < fs.len() < u32::MAX,
        i <= fs.len(),
        done.len() == i,
    ensures
        vclshow::dump_from(encode_utf8(head + listing(fs, i)), encode_utf8(head).len(), done)
            == DumpV::Chunks(
            done + Seq::new((fs.len() - i) as nat, |k: int| chunk((i + k) as nat, fs[i + k])),
        ),
    decreases fs.len() - i,
{
    let m = "// VCL.SHOW "@;
    let text = head + listing(fs, i);
    let b = encode_utf8(text);
    let p = encode_utf8(head).len();
    let more = Seq::new((fs.len() - i) as nat, |k: int| chunk((i + k) as nat, fs[i + k]));
    if i >= fs.len() {
        assert(text =~= head);
        assert(done + more =~= done);
    } else {
        let f = fs[i as int];
        let l = label(i, f);
        let rest = listing(fs, i + 1);
        lemma_label(i, f);
        lemma_marker();
        lemma_bytes(head, l, f, rest);
        let mb = encode_utf8(m);
        let lb = encode_utf8(l);
        let cb = encode_utf8(f.content);
        let gb = encode_utf8(f.gap);
        let rb = encode_utf8(rest);
        let from = p + mb.len();
        let e = from + lb.len();
        let end = e + 1 + cb.len();
        let n = end + gb.len();
        assert(b.len() == n + rb.len());
        assert(vclshow::bytes_at(b, p, vclshow::marker())) by {
            assert(b.subrange(p as int, (p + mb.len()) as int) =~= mb);
        }
        assert(b[e as int] == 10);
        assert forall|j: int| p <= j < e implies #[trigger] b[j] != 10 by {
            if j < from {
                assert(b[j] == mb[j - p]);
                lemma_no_newline(m, j - p);
            } else {
                assert(b[j] == lb[j - from]);
                lemma_no_newline(l, j - from);
            }
        }
        lemma_line_at(b, p, e);
        assert(b.subrange(from as int, e as int) =~= lb);
        encode_utf8_decode_utf8(l);
        assert(text::text_of(b, from as int, e as int) == l);
        assert(b.subrange(e as int + 1, end as int) =~= cb);
        encode_utf8_decode_utf8(f.content);
        assert(text::text_of(b, e as int + 1, end as int) == f.content);
        words::lemma_plain(f.gap);
        assert forall|j: int| end <= j < n implies #[trigger] b[j] == 10 || b[j] == 13 by {
            assert(b[j] == gb[j - end]);
            assert(f.gap[j - end] == '\n' || f.gap[j - end] == '\r');
        }
        if i + 1 < fs.len() {
            lemma_listing_starts(fs, i + 1);
            assert(b[n as int] == rb[0]);
        } else {
            assert(rest =~= seq![]);
            assert(rb.len() == 0);
        }
        lemma_breaks(b, end, n);
        encode_utf8_valid_utf8(text);
        if end < b.len() {
            assert(b[end as int] < 128);
            text::lemma_ascii_boundary(b, end as int);
        } else {
            is_char_boundary_start_end_of_seq(b);
        }
        let next = head + (m + l + seq!['\n'] + f.content + f.gap);
        assert(next + rest =~= text);
        assert(encode_utf8(next).len() == n);
        lemma_dump(fs, i + 1, next, done.push(chunk(i, f)));
        let less = Seq::new((fs.len() - i - 1) as nat, |k: int| chunk((i + 1 + k) as nat, fs[i + 1 + k]));
        assert(done.push(chunk(i, f)) + less =~= done + more);
    }
}

/// A dump that lists files is read back as these files, in their order, with their names
/// and with every byte of their contents, whatever line breaks stand between them.
pub proof fn law_listed_files_are_read_back(fs: Seq<ListedV>)
    requires
        forall|k: int| 0 <= k < fs.len() ==> listable(#[trigger] fs[k]),
        0 < fs.len() < u32::MAX,
    ensures
        vclshow::dump(listing(fs, 0)) == DumpV::Chunks(
            Seq::new(fs.len(), |k: int| chunk(k as nat, fs[k])),
        ),
{
    let t = listing(fs, 0);
    let b = encode_utf8(t);
    lemma_listing_starts(fs, 0);
    assert(vclshow::chunks_start(b) == 0) by {
        let l = ast::line_end(b, 0);
        if vclshow::rule_line(b, 0, l) {
            let k = choose|k: int| #[trigger] vclshow::dashes_upto(b, 0, k, l);
            assert(b[0] == 45 || b[0] == 13);
        }
    }
    lemma_dump(fs, 0, seq![], seq![]);
    assert(Seq::<char>::empty() + t =~= t);
    assert(encode_utf8(Seq::<char>::empty()).len() == 0);
    let all = Seq::new(fs.len(), |k: int| chunk(k as nat, fs[k]));
    assert(Seq::<ChunkV>::empty() + Seq::new(
        (fs.len() - 0) as nat,
        |k: int| chunk((0 + k) as nat, fs[0 + k]),
    ) =~= all);
}

} // verus!
