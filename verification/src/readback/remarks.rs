//! Comments are not read where they are printed.

use crate::ast;
use crate::ast::CommentV;
use crate::layout::lexing;
use crate::layout::lexing::tokens_of;
use crate::lexer;
use crate::lexer::{ItemV, TokV};
use crate::printer;
use crate::readback::lines;
use crate::readback::lines::read_lines;
use crate::readback::words;
use crate::text;
use vstd::prelude::*;
use vstd::string::*;
use vstd::utf8::*;

verus! {

/// Whether a text is a comment that ends with its line.
pub open spec fn is_line_remark(t: Seq<char>) -> bool {
    &&& t.len() > 0
    &&& t[0] == '#' || (t.len() > 1 && t[0] == '/' && t[1] == '/')
    &&& !t.contains('\n')
}

/// Whether a text is a comment with an end of its own.
pub open spec fn is_block_remark(t: Seq<char>) -> bool {
    let n = t.len();
    &&& n >= 4
    &&& t[0] == '/' && t[1] == '*'
    &&& t[n - 2] == '*' && t[n - 1] == '/'
    &&& forall|i: int| 2 <= i < n - 3 ==> !(#[trigger] t[i] == '*' && t[i + 1] == '/')
}

/// Whether a text is a comment.
pub open spec fn is_remark(t: Seq<char>) -> bool {
    is_line_remark(t) || is_block_remark(t)
}

proof fn lemma_line_end(b: Seq<u8>, p: nat)
    requires
        p <= b.len(),
        forall|i: int| p <= i < b.len() ==> #[trigger] b[i] != ast::NEWLINE,
    ensures
        ast::line_end(b, p) == b.len(),
    decreases b.len() - p,
{
    if p < b.len() {
        lemma_line_end(b, p + 1);
    }
}

proof fn lemma_line_remark(t: Seq<char>)
    requires
        is_line_remark(t),
    ensures
        tokens_of(t) == Ok::<Seq<TokV>, Seq<char>>(seq![]),
{
    reveal(lexing::tokens_of);
    let b = encode_utf8(t);
    words::lemma_first(t);
    assert forall|i: int| 0 <= i < b.len() implies #[trigger] b[i] != ast::NEWLINE by {
        if b[i] == ast::NEWLINE {
            words::lemma_byte(t, i, '\n');
        }
    }
    if t[0] != '#' {
        let open = seq!['/', '/'];
        let r = t.subrange(2, t.len() as int);
        assert(t =~= open + r);
        lexing::lemma_encode_add(open, r);
        words::lemma_plain(open);
        assert(b[0] == encode_utf8(open)[0] && b[1] == encode_utf8(open)[1]);
    }
    lemma_line_end(b, 0);
    assert(lexer::item_at(b, 0) == ItemV::Comment(b.len()));
    assert(lexing::tokens_from(b, b.len()) == Ok::<Seq<TokV>, Seq<char>>(seq![]));
}

/// A comment with an end of its own is skipped.
proof fn lemma_block_remark(t: Seq<char>, x: Seq<char>)
    requires
        is_block_remark(t),
    ensures
        tokens_of(t + x) == tokens_of(x),
{
    reveal(lexing::tokens_of);
    let open = seq!['/', '*'];
    let close = seq!['*', '/'];
    let s = t.subrange(2, t.len() - 2);
    assert(t =~= open + s + close);
    lexing::lemma_encode_add(open + s, close);
    lexing::lemma_encode_add(open, s);
    lexing::lemma_encode_add(t, x);
    words::lemma_plain(open);
    words::lemma_plain(close);
    let m = encode_utf8(s);
    let a = encode_utf8(t);
    let b = a + encode_utf8(x);
    assert(a =~= encode_utf8(open) + m + encode_utf8(close));
    let n = m.len();
    assert(b[0] == encode_utf8(open)[0] && b[1] == encode_utf8(open)[1]);
    assert(b[2 + n as int] == encode_utf8(close)[0]);
    assert(b[3 + n as int] == encode_utf8(close)[1]);
    assert forall|i: int| 2 <= i < 2 + n implies !(#[trigger] b[i] == lexer::STAR && b[i + 1]
        == lexer::SLASH) by {
        assert(b[i] == m[i - 2]);
        if b[i] == lexer::STAR && b[i + 1] == lexer::SLASH {
            if i + 1 < 2 + n {
                assert(b[i + 1] == m[i - 1]);
                words::lemma_byte_pair(s, i - 2, '*', '/');
                let j = choose|j: int|
                    0 <= j < s.len() - 1 && #[trigger] s[j] == '*' && s[j + 1] == '/';
                assert(t[j + 2] == '*' && t[j + 3] == '/');
            }
        }
    }
    words::lemma_pair_span(b, 2, 2 + n, lexer::STAR, lexer::SLASH);
    assert(lexer::item_at(b, 0) == ItemV::Comment(a.len()));
    lexing::lemma_shift_tokens(a, encode_utf8(x), 0);
}

/// A comment is not read.
pub proof fn law_remarks_are_not_read(t: Seq<char>)
    requires
        is_remark(t),
    ensures
        tokens_of(t) == Ok::<Seq<TokV>, Seq<char>>(seq![]),
{
    if is_line_remark(t) {
        lemma_line_remark(t);
    } else {
        let none = Seq::<char>::empty();
        assert(t + none =~= t);
        lemma_block_remark(t, none);
        lines::lemma_blank();
    }
}

// ───────────────────────── comments of several lines ─────────────────────────

/// Whether the end of a comment stands nowhere in a text.
spec fn endless(s: Seq<char>) -> bool {
    forall|i: int| 0 <= i < s.len() - 1 ==> !(#[trigger] s[i] == '*' && s[i + 1] == '/')
}

proof fn lemma_encoded_length(s: Seq<char>)
    ensures
        s.len() <= encode_utf8(s).len(),
    decreases s.len(),
{
    if s.len() > 0 {
        words::lemma_first(s);
        lemma_encoded_length(s.drop_first());
    }
}

/// A line that lost its margin is the rest of the line.
proof fn lemma_cut(l: Seq<char>, n: nat) -> (k: int)
    ensures
        0 <= k <= l.len(),
        printer::cut_margin(l, n) == l.subrange(k, l.len() as int),
        k <= n || k == text::next_word(l, 0),
{
    let b = encode_utf8(l);
    encode_utf8_valid_utf8(l);
    if is_char_boundary(b, n as int) {
        printer::lemma_boundary_inside(b, n as int);
        valid_utf8_split(b, n as int);
        decode_utf8_split(b, n as int);
        encode_utf8_decode_utf8(l);
        let a = decode_utf8(b.subrange(0, n as int));
        let c = decode_utf8(b.subrange(n as int, b.len() as int));
        decode_utf8_encode_utf8(b.subrange(0, n as int));
        lemma_encoded_length(a);
        assert(l == a + c);
        assert(c =~= l.subrange(a.len() as int, l.len() as int));
        a.len() as int
    } else {
        lemma_next_word(l, 0, l.len());
        text::next_word(l, 0) as int
    }
}

proof fn lemma_next_word(l: Seq<char>, from: nat, to: nat)
    requires
        from <= to <= l.len(),
        to < l.len() ==> !text::white_space(l[to as int]),
    ensures
        from <= text::next_word(l, from) <= to,
    decreases l.len() - from,
{
    if from < to {
        if text::white_space(l[from as int]) {
            lemma_next_word(l, from + 1, to);
        }
    }
}

proof fn lemma_margin_before(l: Seq<char>, from: nat, to: nat)
    requires
        from <= to < l.len(),
        l[to as int] != ' ',
        l[to as int] != '\t',
    ensures
        printer::margin(l, from) <= to,
    decreases to - from,
{
    if from < to {
        lemma_margin_before(l, from + 1, to);
    }
}

proof fn lemma_least(lines: Seq<Seq<char>>, n: nat, i: int)
    requires
        0 <= i < n <= lines.len(),
        !text::blank(lines[i]),
    ensures
        printer::least_margin(lines, n) matches Some(m) && m <= printer::margin(lines[i], 0),
    decreases n,
{
    if i < n - 1 {
        lemma_least(lines, (n - 1) as nat, i);
    }
}

/// Where a piece of a text stands: behind a newline and before one, but for the
/// ends of the text.
spec fn stands_at(t: Seq<char>, piece: Seq<char>, a: int, b: int) -> bool {
    &&& 0 <= a <= b <= t.len()
    &&& piece == t.subrange(a, b)
    &&& a > 0 ==> t[a - 1] == '\n'
    &&& b < t.len() ==> t[b] == '\n'
}

proof fn lemma_piece(t: Seq<char>, from: nat, i: int) -> (r: (int, int))
    requires
        from <= t.len(),
        from > 0 ==> t[from - 1] == '\n',
        0 <= i < text::split_from(t, '\n', from).len(),
    ensures
        stands_at(t, text::split_from(t, '\n', from)[i], r.0, r.1),
        i == 0 ==> r.0 == from,
        i > 0 ==> r.0 > from,
        i == text::split_from(t, '\n', from).len() - 1 ==> r.1 == t.len(),
        i < text::split_from(t, '\n', from).len() - 1 ==> r.1 < t.len(),
    decreases t.len() - from,
{
    text::lemma_next_char(t, '\n', from);
    let e = text::next_char(t, '\n', from);
    if e < t.len() {
        let rest = text::split_from(t, '\n', e + 1);
        if i == 0 {
            (from as int, e as int)
        } else {
            assert(text::split_from(t, '\n', from)[i] == rest[i - 1]);
            lemma_piece(t, e + 1, i - 1)
        }
    } else {
        (from as int, t.len() as int)
    }
}

proof fn lemma_endless_join(parts: Seq<Seq<char>>, n: nat)
    requires
        n <= parts.len(),
        forall|i: int| 0 <= i < n ==> endless(#[trigger] parts[i]),
    ensures
        endless(text::join_first(parts, "\n"@, n)),
    decreases n,
{
    if n > 1 {
        lemma_endless_join(parts, (n - 1) as nat);
        reveal_strlit("\n");
        let x = text::join_first(parts, "\n"@, (n - 1) as nat);
        let y = parts[n - 1];
        let z = x + "\n"@ + y;
        assert forall|i: int| 0 <= i < z.len() - 1 implies !(#[trigger] z[i] == '*' && z[i + 1]
            == '/') by {
            if i + 1 < x.len() {
                assert(z[i] == x[i] && z[i + 1] == x[i + 1]);
            } else if i > x.len() {
                assert(z[i] == y[i - x.len() - 1] && z[i + 1] == y[i - x.len()]);
            }
        }
    }
}

/// What stands before the first part stands before all of them.
proof fn lemma_join_behind(x: Seq<char>, parts: Seq<Seq<char>>, n: nat)
    requires
        1 <= n <= parts.len(),
    ensures
        text::join_first(parts.update(0, x + parts[0]), "\n"@, n) == x + text::join_first(
            parts,
            "\n"@,
            n,
        ),
    decreases n,
{
    if n > 1 {
        lemma_join_behind(x, parts, (n - 1) as nat);
        let y = text::join_first(parts, "\n"@, (n - 1) as nat);
        assert((x + y) + "\n"@ + parts[n - 1] =~= x + (y + "\n"@ + parts[n - 1]));
    }
}

/// The lines of a comment with an end of its own, without their first margin,
/// are such a comment.
proof fn lemma_moved(c: CommentV, ind: Seq<char>) -> (v: Seq<char>)
    requires
        is_block_remark(c.text),
        c.text.contains('\n'),
        lines::is_margin(ind),
    ensures
        is_block_remark(v),
        text::join(printer::comment_lines(c, ind), "\n"@) == (if c.unindented {
            seq![]
        } else {
            ind
        }) + v,
{
    let t = c.text;
    let n = t.len() as int;
    let margin = if c.unindented {
        seq![]
    } else {
        ind
    };
    let all = text::split_from(t, '\n', 0);
    let rest = all.subrange(1, all.len() as int);
    let printed = printer::comment_lines(c, ind);
    let last = all.len() - 1;
    let (a0, b0) = lemma_piece(t, 0, 0);
    if last == 0 {
        text::lemma_next_char(t, '\n', 0);
        assert(false);
    }
    assert(b0 >= 2);
    let (a1, b1) = lemma_piece(t, 0, last);
    assert(t[a1 - 1] == '\n');
    assert(a1 <= n - 2);
    let l = all[last];
    assert(l[l.len() - 2] == '*' && l[l.len() - 1] == '/');
    assert(rest[last - 1] == l);
    assert(!text::blank(l));
    lemma_least(rest, rest.len(), last - 1);
    let m = printer::least_margin(rest, rest.len())->0;
    lemma_margin_before(l, 0, (l.len() - 2) as nat);
    lemma_next_word(l, 0, (l.len() - 2) as nat);
    let k = lemma_cut(l, m);
    assert(k <= l.len() - 2);
    let parts = Seq::new(
        all.len(),
        |i: int|
            if i == 0 {
                all[0].subrange(2, all[0].len() as int)
            } else if i == last {
                margin + l.subrange(k, l.len() - 2)
            } else {
                margin + printer::cut_margin(all[i], m)
            },
    );
    assert forall|i: int| 0 <= i < parts.len() implies endless(#[trigger] parts[i]) by {
        let (a, b) = lemma_piece(t, 0, i);
        let p = parts[i];
        if i == 0 {
            assert forall|j: int| 0 <= j < p.len() - 1 implies !(#[trigger] p[j] == '*' && p[j + 1]
                == '/') by {
                assert(p[j] == t[j + 2] && p[j + 1] == t[j + 3]);
            }
        } else {
            let x = lemma_cut(all[i], m);
            let y = if i == last {
                k
            } else {
                x
            };
            let g = margin.len() as int;
            assert forall|j: int| 0 <= j < p.len() - 1 implies !(#[trigger] p[j] == '*' && p[j + 1]
                == '/') by {
                if j >= g {
                    assert(p[j] == t[a + y + j - g] && p[j + 1] == t[a + y + j - g + 1]);
                } else {
                    assert(p[j] == margin[j]);
                }
            }
        }
    }
    lemma_endless_join(parts, parts.len());
    let inner = text::join(parts, "\n"@);
    let open = seq!['/', '*'];
    let close = seq!['*', '/'];
    let v = open + inner + close;
    let head = parts.update(0, (margin + open) + parts[0]);
    lemma_join_behind(margin + open, parts, parts.len());
    assert forall|i: int| 0 <= i < last implies #[trigger] printed[i] == head[i] by {
        if i == 0 {
            assert(margin + all[0] =~= (margin + open) + parts[0]);
        } else {
            assert(rest[i - 1] == all[i]);
        }
    }
    lines::lemma_join_same(printed, head, last as nat);
    assert(printed[last] == margin + printer::cut_margin(l, m));
    assert(printed[last] =~= head[last] + close);
    let before = text::join_first(head, "\n"@, last as nat);
    assert(text::join(printed, "\n"@) == before + "\n"@ + printed[last]);
    assert(text::join(head, "\n"@) == before + "\n"@ + head[last]);
    assert(text::join(printed, "\n"@) =~= text::join(head, "\n"@) + close);
    assert(text::join(head, "\n"@) == (margin + open) + inner);
    assert(text::join(printed, "\n"@) =~= margin + v);
    assert forall|i: int| 2 <= i < v.len() - 3 implies !(#[trigger] v[i] == '*' && v[i + 1]
        == '/') by {
        assert(v[i] == inner[i - 2] && v[i + 1] == inner[i - 1]);
    }
    v
}

/// A comment is not read where it is printed, on one line or on several.
pub proof fn law_lines_of_remarks_are_not_read(c: CommentV)
    requires
        is_remark(c.text),
    ensures
        lines::can_comment(c),
{
    law_remarks_are_not_read(c.text);
    assert forall|ind: Seq<char>| lines::is_margin(ind) implies read_lines(
        #[trigger] printer::comment_lines(c, ind),
    ) == Ok::<Seq<TokV>, Seq<char>>(seq![]) by {
        let margin = if c.unindented {
            seq![]
        } else {
            ind
        };
        if c.text.contains('\n') {
            let v = lemma_moved(c, ind);
            law_remarks_are_not_read(v);
            words::lemma_skip(margin, v);
        } else {
            lines::lemma_margin_line(margin, c.text);
        }
    }
}

// ───────────────────────── comments behind an item ─────────────────────────

proof fn lemma_one_line_remark(t: Seq<char>)
    requires
        is_remark(t),
    ensures
        is_line_remark(t) ==> is_line_remark(printer::one_line(t)),
        is_block_remark(t) ==> is_block_remark(printer::one_line(t)),
{
    let u = printer::one_line(t);
    if is_block_remark(t) {
        assert forall|i: int| 2 <= i < u.len() - 3 implies !(#[trigger] u[i] == '*' && u[i + 1]
            == '/') by {
            if u[i] == '*' && u[i + 1] == '/' {
                assert(t[i] == '*' && t[i + 1] == '/');
            }
        }
    }
    if is_line_remark(t) {
        assert forall|i: int| 0 <= i < u.len() implies #[trigger] u[i] != '\n' by {
            assert(u[i] == t[i] || u[i] == ' ');
        }
    }
}

proof fn lemma_block_remarks(ts: Seq<Seq<char>>, n: nat, x: Seq<char>)
    requires
        1 <= n <= ts.len(),
        forall|i: int| 0 <= i < n ==> is_block_remark(#[trigger] ts[i]),
    ensures
        tokens_of(printer::one_line(text::join_first(ts, "\n"@, n)) + x) == tokens_of(x),
    decreases n,
{
    let last = ts[n - 1];
    let u = printer::one_line(last);
    lemma_one_line_remark(last);
    lemma_block_remark(u, x);
    if n > 1 {
        reveal_strlit("\n");
        let before = text::join_first(ts, "\n"@, (n - 1) as nat);
        let rest = seq![' '] + (u + x);
        assert(printer::one_line(text::join_first(ts, "\n"@, n)) + x =~= printer::one_line(before)
            + rest);
        lemma_block_remarks(ts, (n - 1) as nat, rest);
        words::lemma_skip(seq![' '], u + x);
    }
}

/// Whether a text is made of comments, with newlines between them.
pub open spec fn is_joined(t: Seq<char>) -> bool {
    exists|ts: Seq<Seq<char>>| #[trigger] joins(ts, t)
}

/// Whether the text is made of these comments.
pub open spec fn joins(ts: Seq<Seq<char>>, t: Seq<char>) -> bool {
    &&& ts.len() > 0
    &&& forall|i: int| 0 <= i < ts.len() ==> is_remark(#[trigger] ts[i])
    &&& t == text::join(ts, "\n"@)
}

proof fn lemma_block_or_line(ts: Seq<Seq<char>>, n: nat) -> (j: nat)
    requires
        n <= ts.len(),
        forall|i: int| 0 <= i < ts.len() ==> is_remark(#[trigger] ts[i]),
    ensures
        j <= n,
        forall|i: int| 0 <= i < j ==> is_block_remark(#[trigger] ts[i]),
        j < n ==> is_line_remark(ts[j as int]),
    decreases n,
{
    if n == 0 {
        0
    } else {
        let j = lemma_block_or_line(ts, (n - 1) as nat);
        if j + 1 == n && is_block_remark(ts[j as int]) {
            n
        } else {
            j
        }
    }
}

/// What starts as a comment that ends with its line is one where it stands on
/// one line.
proof fn lemma_line_rest(ts: Seq<Seq<char>>)
    requires
        ts.len() > 0,
        is_line_remark(ts[0]),
    ensures
        is_line_remark(printer::one_line(text::join(ts, "\n"@))),
{
    let t = text::join(ts, "\n"@);
    let u = printer::one_line(t);
    lemma_join_starts(ts, ts.len());
    assert forall|i: int| 0 <= i < u.len() implies #[trigger] u[i] != '\n' by {
        assert(u[i] == t[i] || u[i] == ' ');
    }
    assert(t[0] == ts[0][0]);
    if ts[0].len() > 1 {
        assert(t[1] == ts[0][1]);
    }
}

proof fn lemma_join_starts(ts: Seq<Seq<char>>, n: nat)
    requires
        1 <= n <= ts.len(),
    ensures
        ts[0].is_prefix_of(text::join_first(ts, "\n"@, n)),
    decreases n,
{
    if n > 1 {
        lemma_join_starts(ts, (n - 1) as nat);
    }
}

/// Comments behind an item are not read where they are printed.
pub proof fn law_trailing_remarks_are_not_read(t: Seq<char>)
    requires
        is_joined(t),
    ensures
        tokens_of(printer::one_line(t)) == Ok::<Seq<TokV>, Seq<char>>(seq![]),
{
    let ts = choose|ts: Seq<Seq<char>>| #[trigger] joins(ts, t);
    let n = ts.len();
    let j = lemma_block_or_line(ts, n);
    let none = Seq::<char>::empty();
    reveal_strlit("\n");
    if j == n {
        lemma_block_remarks(ts, n, none);
        assert(printer::one_line(t) + none =~= printer::one_line(t));
        lines::lemma_blank();
    } else if j == 0 {
        lemma_line_rest(ts);
        law_remarks_are_not_read(printer::one_line(t));
    } else {
        let a = ts.take(j as int);
        let b = ts.skip(j as int);
        assert(a + b =~= ts);
        lines::lemma_join_add(a, b, b.len());
        let y = text::join(b, "\n"@);
        lemma_line_rest(b);
        law_remarks_are_not_read(printer::one_line(y));
        let rest = seq![' '] + printer::one_line(y);
        lemma_block_remarks(a, a.len(), rest);
        assert(printer::one_line(t) =~= printer::one_line(text::join(a, "\n"@)) + rest);
        words::lemma_skip(seq![' '], printer::one_line(y));
    }
}

// ───────────────────────── comments at the left margin ─────────────────────────

proof fn lemma_piece_from(t: Seq<char>, from: nat, a: nat) -> (i: int)
    requires
        from <= a <= t.len(),
        a > from ==> t[a - 1] == '\n',
    ensures
        0 <= i < text::split_from(t, '\n', from).len(),
        text::split_from(t, '\n', from)[i] == t.subrange(
            a as int,
            text::next_char(t, '\n', a) as int,
        ),
        a > from ==> i > 0,
    decreases t.len() - from,
{
    text::lemma_next_char(t, '\n', from);
    let e = text::next_char(t, '\n', from);
    if a == from {
        0
    } else {
        assert(e < t.len() && e + 1 <= a);
        lemma_piece_from(t, e + 1, a) + 1
    }
}

proof fn lemma_rejoined(t: Seq<char>, from: nat)
    requires
        from <= t.len(),
    ensures
        text::join(text::split_from(t, '\n', from), "\n"@) == t.subrange(
            from as int,
            t.len() as int,
        ),
    decreases t.len() - from,
{
    text::lemma_next_char(t, '\n', from);
    let e = text::next_char(t, '\n', from);
    if e < t.len() {
        let x = seq![t.subrange(from as int, e as int)];
        let rest = text::split_from(t, '\n', e + 1);
        lemma_rejoined(t, e + 1);
        lines::lemma_join_add(x, rest, rest.len());
        reveal_strlit("\n");
        assert(text::join(x, "\n"@) == x[0]);
        assert(x[0] + "\n"@ + t.subrange(e as int + 1, t.len() as int) =~= t.subrange(
            from as int,
            t.len() as int,
        ));
    }
}

proof fn lemma_nothing_cut(l: Seq<char>)
    ensures
        printer::cut_margin(l, 0) == l,
{
    let b = encode_utf8(l);
    encode_utf8_valid_utf8(l);
    is_char_boundary_start_end_of_seq(b);
    encode_utf8_decode_utf8(l);
    assert(b.subrange(0, b.len() as int) =~= b);
}

proof fn lemma_joined_read(ts: Seq<Seq<char>>, n: nat)
    requires
        n <= ts.len(),
        forall|i: int| 0 <= i < ts.len() ==> is_remark(#[trigger] ts[i]),
    ensures
        read_lines(ts.take(n as int)) == Ok::<Seq<TokV>, Seq<char>>(seq![]),
    decreases n,
{
    if n > 0 {
        let a = ts.take(n - 1);
        let b = seq![ts[n - 1]];
        lemma_joined_read(ts, (n - 1) as nat);
        law_remarks_are_not_read(ts[n - 1]);
        lines::lemma_line(ts[n - 1]);
        lines::lemma_lines_add(a, b);
        words::lemma_joined_nothing(read_lines(b));
        assert(a + b =~= ts.take(n as int));
    }
}

/// Comments that stand at the left margin, one behind the other, are not read
/// where they are printed.
pub proof fn law_joined_remarks_are_not_read(c: CommentV)
    requires
        c.unindented,
        is_joined(c.text),
    ensures
        lines::can_comment(c),
{
    let t = c.text;
    let ts = choose|ts: Seq<Seq<char>>| #[trigger] joins(ts, t);
    let n = ts.len();
    if n == 1 {
        assert(t == ts[0]);
        law_lines_of_remarks_are_not_read(c);
    } else {
        reveal_strlit("\n");
        lemma_joined_read(ts, n);
        assert(ts.take(n as int) =~= ts);
        let a = ts.take(1);
        let b = ts.skip(1);
        assert(a + b =~= ts);
        lines::lemma_join_add(a, b, b.len());
        assert(text::join(a, "\n"@) == ts[0]);
        let k = (ts[0].len() + 1) as nat;
        lemma_join_starts(b, b.len());
        assert(b[0] == ts[1]);
        assert(is_remark(ts[1]));
        let y = text::join(b, "\n"@);
        assert(t =~= ts[0] + "\n"@ + y);
        assert(t[k as int] == y[0] && y[0] == ts[1][0]);
        assert(t[k - 1] == '\n');
        assert(t.contains('\n'));
        let all = text::split_from(t, '\n', 0);
        let rest = all.subrange(1, all.len() as int);
        let i = lemma_piece_from(t, 0, k);
        text::lemma_next_char(t, '\n', k);
        let l = all[i];
        assert(l[0] == t[k as int]);
        assert(rest[i - 1] == l);
        assert(!text::white_space(l[0]));
        assert(!text::blank(l));
        lemma_least(rest, rest.len(), i - 1);
        assert(printer::margin(l, 0) == 0);
        lemma_rejoined(t, 0);
        assert(t.subrange(0, t.len() as int) =~= t);
        assert forall|ind: Seq<char>| lines::is_margin(ind) implies read_lines(
            #[trigger] printer::comment_lines(c, ind),
        ) == Ok::<Seq<TokV>, Seq<char>>(seq![]) by {
            let printed = printer::comment_lines(c, ind);
            assert forall|x: int| 0 <= x < all.len() implies #[trigger] printed[x] == all[x] by {
                if x > 0 {
                    lemma_nothing_cut(rest[x - 1]);
                    assert(Seq::<char>::empty() + rest[x - 1] =~= rest[x - 1]);
                } else {
                    assert(Seq::<char>::empty() + all[0] =~= all[0]);
                }
            }
            assert(printed =~= all);
        }
    }
}

} // verus!
