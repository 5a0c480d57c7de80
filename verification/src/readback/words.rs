//! The text of a printable tree is read as the tokens of the tree.

use crate::ast;
use crate::ast::{ArgV, BinOp, ExprV, UnOp};
use crate::decimal;
use crate::decimal::DecimalV;
use crate::layout::lexing;
use crate::layout::lexing::{joined, tokens_of};
use crate::lexer;
use crate::lexer::{ItemV, TokV};
use crate::normalize::spelling;
use crate::printer;
use crate::readback;
use crate::text;
use vstd::prelude::*;
use vstd::string::*;
use vstd::utf8::*;

verus! {

// ───────────────────────── characters and bytes ─────────────────────────

/// Whether a character is an ASCII character.
pub open spec fn plain(c: char) -> bool {
    (c as int) < 128
}

proof fn lemma_scalar(c: char)
    ensures
        encode_scalar(c as u32).len() > 0,
        plain(c) ==> encode_scalar(c as u32).len() == 1 && encode_scalar(c as u32)[0] as int
            == c as int,
        !plain(c) ==> forall|i: int|
            0 <= i < encode_scalar(c as u32).len() ==> #[trigger] encode_scalar(c as u32)[i] >= 128,
{
    let u = c as u32;
    assert(u as int == c as int);
    if plain(c) {
        assert((u & 0x7F) as u8 as u32 == u) by (bit_vector)
            requires
                u < 128,
        ;
        assert(u as u8 as u32 == u) by (bit_vector)
            requires
                u < 128,
        ;
        assert(leading_byte_width_1(u) as int == u as int);
    } else {
        assert(0xC0u8 | ((u >> 6) & 0x1F) as u8 >= 128) by (bit_vector);
        assert(0xE0u8 | ((u >> 12) & 0xF) as u8 >= 128) by (bit_vector);
        assert(0xF0u8 | ((u >> 18) & 0x7) as u8 >= 128) by (bit_vector);
        assert(0x80u8 | (u & 0x3F) as u8 >= 128) by (bit_vector);
        assert(0x80u8 | ((u >> 6) & 0x3F) as u8 >= 128) by (bit_vector);
        assert(0x80u8 | ((u >> 12) & 0x3F) as u8 >= 128) by (bit_vector);
    }
}

/// The first byte of a text that starts with an ASCII character is that
/// character, and no other text starts with its byte.
pub(crate) proof fn lemma_first(t: Seq<char>)
    requires
        t.len() > 0,
    ensures
        encode_utf8(t).len() > 0,
        plain(t[0]) ==> encode_utf8(t)[0] as int == t[0] as int,
        !plain(t[0]) ==> encode_utf8(t)[0] >= 128,
{
    lemma_scalar(t[0]);
    let head = encode_scalar(t[0] as u32);
    assert(encode_utf8(t) == head + encode_utf8(t.drop_first()));
    assert(encode_utf8(t)[0] == head[0]);
}

pub(crate) proof fn lemma_plain(f: Seq<char>)
    requires
        forall|i: int| 0 <= i < f.len() ==> plain(#[trigger] f[i]),
    ensures
        encode_utf8(f).len() == f.len(),
        forall|i: int| 0 <= i < f.len() ==> #[trigger] encode_utf8(f)[i] as int == f[i] as int,
    decreases f.len(),
{
    if f.len() > 0 {
        lemma_scalar(f[0]);
        let r = f.drop_first();
        assert forall|i: int| 0 <= i < r.len() implies plain(#[trigger] r[i]) by {
            assert(r[i] == f[i + 1]);
        }
        lemma_plain(r);
        let head = encode_scalar(f[0] as u32);
        assert(encode_utf8(f) == head + encode_utf8(r));
        assert forall|i: int| 0 <= i < f.len() implies #[trigger] encode_utf8(f)[i] as int
            == f[i] as int by {
            if i > 0 {
                assert(encode_utf8(r)[i - 1] as int == r[i - 1] as int);
            }
        }
    }
}

/// Where an ASCII byte stands in a text, its character stands there.
pub(crate) proof fn lemma_byte(s: Seq<char>, i: int, x: char)
    requires
        plain(x),
        0 <= i < encode_utf8(s).len(),
        encode_utf8(s)[i] as int == x as int,
    ensures
        s.contains(x),
    decreases s.len(),
{
    if s.len() > 0 {
        lemma_scalar(s[0]);
        let head = encode_scalar(s[0] as u32);
        let r = s.drop_first();
        assert(encode_utf8(s) == head + encode_utf8(r));
        if i < head.len() {
            assert(encode_utf8(s)[i] == head[i]);
            assert(s[0] == x);
        } else {
            lemma_byte(r, i - head.len(), x);
            let j = choose|j: int| 0 <= j < r.len() && r[j] == x;
            assert(s[j + 1] == x);
        }
    }
}

/// Where two ASCII bytes stand side by side, so do their characters.
pub(crate) proof fn lemma_byte_pair(s: Seq<char>, i: int, x: char, y: char)
    requires
        plain(x),
        plain(y),
        0 <= i < encode_utf8(s).len() - 1,
        encode_utf8(s)[i] as int == x as int,
        encode_utf8(s)[i + 1] as int == y as int,
    ensures
        exists|j: int| 0 <= j < s.len() - 1 && #[trigger] s[j] == x && s[j + 1] == y,
    decreases s.len(),
{
    if s.len() > 0 {
        lemma_scalar(s[0]);
        let head = encode_scalar(s[0] as u32);
        let r = s.drop_first();
        assert(encode_utf8(s) == head + encode_utf8(r));
        if i < head.len() {
            assert(encode_utf8(s)[i] == head[i]);
            assert(plain(s[0]));
            assert(s[0] == x);
            assert(encode_utf8(s)[1] == encode_utf8(r)[0]);
            assert(r.len() > 0);
            lemma_first(r);
            assert(r[0] == y);
            assert(s[0] == x && s[1] == y);
        } else {
            lemma_byte_pair(r, i - head.len(), x, y);
            let j = choose|j: int| 0 <= j < r.len() - 1 && #[trigger] r[j] == x && r[j + 1] == y;
            assert(s[j + 1] == x && s[j + 2] == y);
        }
    }
}

proof fn lemma_text(f: Seq<char>, t: Seq<char>, lo: int, mid: Seq<char>)
    requires
        0 <= lo,
        lo + encode_utf8(mid).len() <= encode_utf8(f).len(),
        encode_utf8(f).subrange(lo, lo + encode_utf8(mid).len()) == encode_utf8(mid),
    ensures
        text::text_of(
            encode_utf8(f) + encode_utf8(t),
            lo,
            lo + encode_utf8(mid).len(),
        ) == mid,
{
    let b = encode_utf8(f) + encode_utf8(t);
    let hi = lo + encode_utf8(mid).len();
    assert(b.subrange(lo, hi) =~= encode_utf8(f).subrange(lo, hi));
    encode_utf8_decode_utf8(mid);
}

// ───────────────────────── one token ─────────────────────────

/// Where a token is read at the start of a text, the rest is read behind it.
proof fn lemma_peel(f: Seq<char>, t: Seq<char>, tok: TokV)
    requires
        encode_utf8(f).len() > 0,
        lexer::item_at(encode_utf8(f) + encode_utf8(t), 0) == ItemV::Token(
            encode_utf8(f).len(),
            tok,
        ),
    ensures
        tokens_of(f + t) == joined(Ok(seq![tok]), tokens_of(t)),
{
    reveal(lexing::tokens_of);
    lexing::lemma_encode_add(f, t);
    lexing::lemma_shift_tokens(encode_utf8(f), encode_utf8(t), 0);
}

/// White space before a text is skipped.
pub(crate) proof fn lemma_skip(w: Seq<char>, t: Seq<char>)
    requires
        forall|i: int| 0 <= i < w.len() ==> #[trigger] w[i] == ' ' || w[i] == '\n',
    ensures
        tokens_of(w + t) == tokens_of(t),
    decreases w.len(),
{
    reveal(lexing::tokens_of);
    if w.len() == 0 {
        assert(w + t =~= t);
    } else {
        let r = w.drop_first();
        assert forall|i: int| 0 <= i < r.len() implies #[trigger] r[i] == ' ' || r[i]
            == '\n' by {
            assert(r[i] == w[i + 1]);
        }
        lemma_skip(r, t);
        let c = seq![w[0]];
        assert(w + t =~= c + (r + t));
        lexing::lemma_encode_add(c, r + t);
        lemma_plain(c);
        let b = encode_utf8(c) + encode_utf8(r + t);
        assert(b[0] == encode_utf8(c)[0]);
        assert(lexer::item_at(b, 0) == ItemV::Space(1));
        lexing::lemma_shift_tokens(encode_utf8(c), encode_utf8(r + t), 0);
    }
}

/// Whether a text can stand right behind a name.
pub open spec fn ends_name(t: Seq<char>) -> bool {
    t.len() == 0 || (plain(t[0]) && !readback::in_name(t[0]) && t[0] != '{')
}

proof fn lemma_ident_span(b: Seq<u8>, p: nat, n: nat)
    requires
        p <= n <= b.len(),
        forall|i: int| p <= i < n ==> lexer::is_ident_byte(#[trigger] b[i]),
        n < b.len() ==> !lexer::is_ident_byte(b[n as int]),
    ensures
        lexer::ident_end(b, p) == n,
    decreases n - p,
{
    if p < n {
        lemma_ident_span(b, p + 1, n);
    }
}

/// A name is read as one token.
pub(crate) proof fn lemma_name(f: Seq<char>, t: Seq<char>)
    requires
        readback::is_name(f),
        ends_name(t),
    ensures
        tokens_of(f + t) == joined(Ok(seq![TokV::Ident(f)]), tokens_of(t)),
{
    assert forall|i: int| 0 <= i < f.len() implies plain(#[trigger] f[i]) by {
        assert(readback::in_name(f[i]));
    }
    lemma_plain(f);
    let a = encode_utf8(f);
    let b = a + encode_utf8(t);
    if t.len() > 0 {
        lemma_first(t);
        assert(b[a.len() as int] == encode_utf8(t)[0]);
    }
    assert forall|i: int| 0 <= i < f.len() implies lexer::is_ident_byte(#[trigger] b[i]) by {
        assert(b[i] == a[i]);
        assert(readback::in_name(f[i]));
    }
    lemma_ident_span(b, 0, f.len());
    assert(b[0] as int == f[0] as int);
    if f.len() > 1 {
        assert(lexer::is_ident_byte(b[1]));
    }
    assert(a.subrange(0, a.len() as int) =~= a);
    lemma_text(f, t, 0, f);
    lemma_peel(f, t, TokV::Ident(f));
}

/// The token of a mark of one character.
pub open spec fn mark_tok(c: char) -> Option<TokV> {
    if c == '(' {
        Some(TokV::LParen)
    } else if c == ')' {
        Some(TokV::RParen)
    } else if c == '{' {
        Some(TokV::LBrace)
    } else if c == '}' {
        Some(TokV::RBrace)
    } else if c == ';' {
        Some(TokV::Semi)
    } else if c == ',' {
        Some(TokV::Comma)
    } else if c == '.' {
        Some(TokV::Dot)
    } else if c == '=' {
        Some(TokV::Eq)
    } else if c == '!' {
        Some(TokV::Bang)
    } else if c == '-' {
        Some(TokV::Minus)
    } else if c == '+' {
        Some(TokV::Plus)
    } else if c == '*' {
        Some(TokV::Star)
    } else if c == '/' {
        Some(TokV::Slash)
    } else if c == '~' {
        Some(TokV::Tilde)
    } else if c == '<' {
        Some(TokV::Lt)
    } else if c == '>' {
        Some(TokV::Gt)
    } else {
        None
    }
}

/// Whether a character goes together with a mark before it.
pub open spec fn goes_on(c: char, x: char) -> bool {
    ||| c == '=' && x == '='
    ||| c == '!' && (x == '=' || x == '~')
    ||| (c == '<' || c == '>') && x == '='
    ||| c == '/' && (x == '/' || x == '*')
    ||| c == '{' && x == '"'
}

/// A mark is read as one token.
pub(crate) proof fn lemma_mark(c: char, t: Seq<char>)
    requires
        mark_tok(c) is Some,
        t.len() > 0 ==> plain(t[0]) && !goes_on(c, t[0]),
    ensures
        tokens_of(seq![c] + t) == joined(Ok(seq![mark_tok(c)->0]), tokens_of(t)),
{
    let f = seq![c];
    lemma_plain(f);
    let a = encode_utf8(f);
    let b = a + encode_utf8(t);
    assert(b[0] as int == c as int);
    if t.len() > 0 {
        lemma_first(t);
        assert(b[1] == encode_utf8(t)[0]);
        assert(b[1] as int == t[0] as int);
    }
    lemma_peel(f, t, mark_tok(c)->0);
}

proof fn lemma_quote_span(b: Seq<u8>, p: nat, n: nat)
    requires
        p <= n < b.len(),
        forall|i: int| p <= i < n ==> #[trigger] b[i] != lexer::QUOTE && b[i] != ast::NEWLINE,
        b[n as int] == lexer::QUOTE,
    ensures
        lexer::quote_or_newline(b, p) == n,
    decreases n - p,
{
    if p < n {
        lemma_quote_span(b, p + 1, n);
    }
}

pub(crate) proof fn lemma_pair_span(b: Seq<u8>, p: nat, n: nat, x: u8, y: u8)
    requires
        p <= n,
        n + 1 < b.len(),
        forall|i: int| p <= i < n ==> !(#[trigger] b[i] == x && b[i + 1] == y),
        b[n as int] == x,
        b[n as int + 1] == y,
    ensures
        lexer::find_pair(b, p, x, y) == Some(n),
    decreases n - p,
{
    if p < n {
        lemma_pair_span(b, p + 1, n, x, y);
    }
}

/// A string is read as one token.
pub(crate) proof fn lemma_string(s: Seq<char>, t: Seq<char>)
    requires
        readback::can_quote(s),
        t.len() > 0 ==> t[0] != '"',
    ensures
        tokens_of(printer::string_text(s) + t) == joined(Ok(seq![TokV::Str(s)]), tokens_of(t)),
{
    if s.contains('"') || s.contains('\n') {
        lemma_long_string(s, t);
    } else {
        lemma_short_string(s, t);
    }
}

proof fn lemma_short_string(s: Seq<char>, t: Seq<char>)
    requires
        !s.contains('"'),
        !s.contains('\n'),
        t.len() > 0 ==> t[0] != '"',
    ensures
        tokens_of(printer::string_text(s) + t) == joined(Ok(seq![TokV::Str(s)]), tokens_of(t)),
{
    reveal_strlit("\"");
    let q = seq!['"'];
    assert("\""@ =~= q);
    let f = printer::string_text(s);
    assert(f =~= q + s + q);
    lexing::lemma_encode_add(q + s, q);
    lexing::lemma_encode_add(q, s);
    lemma_plain(q);
    let m = encode_utf8(s);
    let a = encode_utf8(f);
    let b = a + encode_utf8(t);
    assert(a =~= encode_utf8(q) + m + encode_utf8(q));
    let n = m.len();
    assert(b[0] == lexer::QUOTE);
    assert(b[1 + n as int] == lexer::QUOTE);
    assert forall|i: int| 1 <= i < 1 + n implies #[trigger] b[i] != lexer::QUOTE && b[i]
        != ast::NEWLINE by {
        assert(b[i] == m[i - 1]);
        if m[i - 1] == lexer::QUOTE {
            lemma_byte(s, i - 1, '"');
        }
        if m[i - 1] == ast::NEWLINE {
            lemma_byte(s, i - 1, '\n');
        }
    }
    lemma_quote_span(b, 1, 1 + n);
    if n == 0 && t.len() > 0 {
        lemma_first(t);
        assert(b[2] == encode_utf8(t)[0]);
    }
    assert(a.subrange(1, 1 + n as int) =~= m);
    lemma_text(f, t, 1, s);
    lemma_peel(f, t, TokV::Str(s));
}

proof fn lemma_long_string(s: Seq<char>, t: Seq<char>)
    requires
        readback::can_quote(s),
        s.contains('"') || s.contains('\n'),
    ensures
        tokens_of(printer::string_text(s) + t) == joined(Ok(seq![TokV::Str(s)]), tokens_of(t)),
{
    reveal_strlit("{\"");
    reveal_strlit("\"");
    reveal_strlit("}");
    let open = seq!['{', '"'];
    let close = seq!['"', '}'];
    let f = printer::string_text(s);
    assert("{\""@ =~= open);
    assert("\""@ + "}"@ =~= close);
    assert(f =~= open + s + close);
    lexing::lemma_encode_add(open + s, close);
    lexing::lemma_encode_add(open, s);
    lemma_plain(open);
    lemma_plain(close);
    let m = encode_utf8(s);
    let a = encode_utf8(f);
    let b = a + encode_utf8(t);
    assert(a =~= encode_utf8(open) + m + encode_utf8(close));
    let n = m.len();
    assert(b[0] == lexer::LEFT_BRACE && b[1] == lexer::QUOTE);
    assert(b[2 + n as int] == encode_utf8(close)[0]);
    assert(b[3 + n as int] == encode_utf8(close)[1]);
    assert forall|i: int| 2 <= i < 2 + n implies !(#[trigger] b[i] == lexer::QUOTE && b[i + 1]
        == lexer::RIGHT_BRACE) by {
        assert(b[i] == m[i - 2]);
        if b[i] == lexer::QUOTE && b[i + 1] == lexer::RIGHT_BRACE {
            if i + 1 < 2 + n {
                assert(b[i + 1] == m[i - 1]);
                lemma_byte_pair(s, i - 2, '"', '}');
            }
        }
    }
    lemma_pair_span(b, 2, 2 + n, lexer::QUOTE, lexer::RIGHT_BRACE);
    assert(a.subrange(2, 2 + n as int) =~= m);
    lemma_text(f, t, 2, s);
    lemma_peel(f, t, TokV::Str(s));
}

/// C source is read as one token.
pub(crate) proof fn lemma_embedded(s: Seq<char>, t: Seq<char>)
    requires
        readback::can_embed(s),
    ensures
        tokens_of(printer::expr_text(ExprV::CSource(s)) + t) == joined(
            Ok(seq![TokV::CSource(s)]),
            tokens_of(t),
        ),
{
    reveal(readback::can_embed);
    reveal_strlit("C{");
    reveal_strlit("}C");
    let open = seq!['C', '{'];
    let close = seq!['}', 'C'];
    let f = printer::expr_text(ExprV::CSource(s));
    assert("C{"@ =~= open);
    assert("}C"@ =~= close);
    assert(f =~= open + s + close);
    lexing::lemma_encode_add(open + s, close);
    lexing::lemma_encode_add(open, s);
    lemma_plain(open);
    lemma_plain(close);
    let m = encode_utf8(s);
    let a = encode_utf8(f);
    let b = a + encode_utf8(t);
    assert(a =~= encode_utf8(open) + m + encode_utf8(close));
    let n = m.len();
    assert(b[0] == lexer::LETTER_C && b[1] == lexer::LEFT_BRACE);
    assert(b[2 + n as int] == encode_utf8(close)[0]);
    assert(b[3 + n as int] == encode_utf8(close)[1]);
    assert forall|i: int| 2 <= i < 2 + n implies !(#[trigger] b[i] == lexer::RIGHT_BRACE && b[i + 1]
        == lexer::LETTER_C) by {
        assert(b[i] == m[i - 2]);
        if b[i] == lexer::RIGHT_BRACE && b[i + 1] == lexer::LETTER_C {
            if i + 1 < 2 + n {
                assert(b[i + 1] == m[i - 1]);
                lemma_byte_pair(s, i - 2, '}', 'C');
            }
        }
    }
    lemma_pair_span(b, 2, 2 + n, lexer::RIGHT_BRACE, lexer::LETTER_C);
    assert(a.subrange(2, 2 + n as int) =~= m);
    lemma_text(f, t, 2, s);
    lemma_peel(f, t, TokV::CSource(s));
}

// ───────────────────────── numbers ─────────────────────────

proof fn lemma_digits_span(b: Seq<u8>, p: nat, n: nat)
    requires
        p <= n <= b.len(),
        forall|i: int| p <= i < n ==> lexer::is_digit(#[trigger] b[i]),
        n < b.len() ==> !lexer::is_digit(b[n as int]),
    ensures
        lexer::digits_end(b, p) == n,
    decreases n - p,
{
    if p < n {
        lemma_digits_span(b, p + 1, n);
    }
}

proof fn lemma_numeral(n: Seq<char>, t: Seq<char>)
    requires
        decimal::decimal_value(n) is Some,
        t.len() > 0 ==> plain(t[0]) && !text::is_digit(t[0]) && t[0] != '.',
    ensures
        n.len() > 0,
        encode_utf8(n).len() == n.len(),
        lexer::is_digit(encode_utf8(n)[0]),
        lexer::number_end(encode_utf8(n) + encode_utf8(t), 0) == n.len(),
{
    let p = text::next_char(n, '.', 0);
    text::lemma_next_char(n, '.', 0);
    let whole = n.subrange(0, p as int);
    let frac = if p < n.len() {
        n.subrange(p as int + 1, n.len() as int)
    } else {
        seq![]
    };
    assert forall|i: int| 0 <= i < n.len() implies plain(#[trigger] n[i]) && (i != p
        ==> text::is_digit(n[i])) by {
        if i < p {
            assert(whole[i] == n[i]);
        } else if i > p {
            assert(frac[i - p - 1] == n[i]);
        }
    }
    lemma_plain(n);
    let a = encode_utf8(n);
    let b = a + encode_utf8(t);
    if t.len() > 0 {
        lemma_first(t);
        assert(b[a.len() as int] == encode_utf8(t)[0]);
    }
    assert forall|i: int| 0 <= i < n.len() && i != p implies lexer::is_digit(#[trigger] b[i]) by {
        assert(b[i] == a[i]);
        assert(text::is_digit(n[i]));
    }
    assert(whole.len() > 0);
    assert(b[0] == a[0]);
    if p < n.len() {
        assert(b[p as int] == a[p as int]);
        assert(b[p as int] == lexer::DOT);
        lemma_digits_span(b, 0, p);
        assert(frac.len() > 0);
        assert(lexer::is_digit(b[p as int + 1]));
        lemma_digits_span(b, p + 1, n.len());
    } else {
        lemma_digits_span(b, 0, n.len());
    }
}

/// Whether a text can stand right behind an expression.
pub open spec fn stops(t: Seq<char>) -> bool {
    t.len() == 0 || t[0] == ' ' || t[0] == ')' || t[0] == ',' || t[0] == ';'
}

pub(crate) proof fn lemma_number(n: Seq<char>, t: Seq<char>)
    requires
        decimal::decimal_value(n) is Some,
        stops(t),
    ensures
        tokens_of(n + t) == joined(Ok(seq![TokV::Num(n)]), tokens_of(t)),
{
    lemma_numeral(n, t);
    let a = encode_utf8(n);
    let b = a + encode_utf8(t);
    if t.len() > 0 {
        lemma_first(t);
        assert(b[a.len() as int] == encode_utf8(t)[0]);
    }
    assert(b[0] == a[0]);
    assert(a.subrange(0, a.len() as int) =~= a);
    lemma_text(n, t, 0, n);
    lemma_peel(n, t, TokV::Num(n));
}

/// A number and its unit of one letter are read as one token.
proof fn lemma_unit(n: Seq<char>, u: char, t: Seq<char>)
    requires
        decimal::decimal_value(n) is Some,
        u == 's' || u == 'B',
        stops(t),
    ensures
        tokens_of(n.push(u) + t) == joined(
            Ok(
                seq![
                    if u == 's' {
                        TokV::Duration(n, "s"@)
                    } else {
                        TokV::Bytes(n, "B"@)
                    },
                ],
            ),
            tokens_of(t),
        ),
{
    let f = n.push(u);
    let w = seq![u];
    assert(f =~= n + w);
    lexing::lemma_encode_add(n, w);
    lemma_plain(w);
    lemma_numeral(n, w + t);
    lexing::lemma_encode_add(w, t);
    let a = encode_utf8(f);
    let b = a + encode_utf8(t);
    assert(b =~= encode_utf8(n) + encode_utf8(w + t));
    assert(b[0] == encode_utf8(n)[0]);
    assert(b[n.len() as int] == encode_utf8(w)[0]);
    if t.len() > 0 {
        lemma_first(t);
        assert(b[n.len() as int + 1] == encode_utf8(t)[0]);
    }
    assert(a.subrange(0, n.len() as int) =~= encode_utf8(n));
    lemma_text(f, t, 0, n);
    lemma_peel(
        f,
        t,
        if u == 's' {
            TokV::Duration(n, "s"@)
        } else {
            TokV::Bytes(n, "B"@)
        },
    );
}

/// The numeral of a whole number is a number.
pub(crate) proof fn lemma_whole_number(n: nat)
    ensures
        decimal::decimal_value(text::nat_text(n)) == Some(DecimalV { num: n, scale: 0 }),
{
    let d = DecimalV { num: n, scale: 0 };
    spelling::law_numbers_are_read_back(d);
}

// ───────────────────────── expressions ─────────────────────────

/// Tokens that are read one behind the other are read together.
pub(crate) proof fn lemma_joined(
    a: Seq<TokV>,
    b: Seq<TokV>,
    r: core::result::Result<Seq<TokV>, Seq<char>>,
)
    ensures
        joined(Ok(a), joined(Ok(b), r)) == joined(Ok(a + b), r),
{
    match r {
        Ok(c) => {
            assert(a + (b + c) =~= (a + b) + c);
        },
        Err(_) => {},
    }
}

/// The token of a mark of two characters.
pub open spec fn double_tok(c: char, d: char) -> Option<TokV> {
    if c == '=' && d == '=' {
        Some(TokV::EqEq)
    } else if c == '!' && d == '=' {
        Some(TokV::Neq)
    } else if c == '!' && d == '~' {
        Some(TokV::NTilde)
    } else if c == '<' && d == '=' {
        Some(TokV::Leq)
    } else if c == '>' && d == '=' {
        Some(TokV::Geq)
    } else if c == '&' && d == '&' {
        Some(TokV::AndAnd)
    } else if c == '|' && d == '|' {
        Some(TokV::OrOr)
    } else {
        None
    }
}

proof fn lemma_double(c: char, d: char, t: Seq<char>)
    requires
        double_tok(c, d) is Some,
    ensures
        tokens_of(seq![c, d] + t) == joined(Ok(seq![double_tok(c, d)->0]), tokens_of(t)),
{
    let f = seq![c, d];
    lemma_plain(f);
    let a = encode_utf8(f);
    let b = a + encode_utf8(t);
    assert(b[0] == a[0] && b[1] == a[1]);
    assert(b[0] as int == c as int && b[1] as int == d as int);
    lemma_peel(f, t, double_tok(c, d)->0);
}

/// The characters of a binary operator.
spec fn op_marks(op: BinOp) -> (char, Option<char>) {
    match op {
        BinOp::Eq => ('=', Some('=')),
        BinOp::Ne => ('!', Some('=')),
        BinOp::Match => ('~', None),
        BinOp::NotMatch => ('!', Some('~')),
        BinOp::Lt => ('<', None),
        BinOp::Le => ('<', Some('=')),
        BinOp::Gt => ('>', None),
        BinOp::Ge => ('>', Some('=')),
        BinOp::And => ('&', Some('&')),
        BinOp::Or => ('|', Some('|')),
        BinOp::Add => ('+', None),
        BinOp::Sub => ('-', None),
        BinOp::Mul => ('*', None),
        BinOp::Div => ('/', None),
    }
}

proof fn lemma_op_text(op: BinOp)
    ensures
        printer::binary_text(op) == match op_marks(op) {
            (c, Some(d)) => seq![c, d],
            (c, None) => seq![c],
        },
{
    match op {
        BinOp::Eq => reveal_strlit("=="),
        BinOp::Ne => reveal_strlit("!="),
        BinOp::Match => reveal_strlit("~"),
        BinOp::NotMatch => reveal_strlit("!~"),
        BinOp::Lt => reveal_strlit("<"),
        BinOp::Le => reveal_strlit("<="),
        BinOp::Gt => reveal_strlit(">"),
        BinOp::Ge => reveal_strlit(">="),
        BinOp::And => reveal_strlit("&&"),
        BinOp::Or => reveal_strlit("||"),
        BinOp::Add => reveal_strlit("+"),
        BinOp::Sub => reveal_strlit("-"),
        BinOp::Mul => reveal_strlit("*"),
        BinOp::Div => reveal_strlit("/"),
    }
    assert(printer::binary_text(op) =~= match op_marks(op) {
        (c, Some(d)) => seq![c, d],
        (c, None) => seq![c],
    });
}

/// A binary operator between spaces is read as one token.
proof fn lemma_op(op: BinOp, t: Seq<char>)
    ensures
        tokens_of(" "@ + printer::binary_text(op) + " "@ + t) == joined(
            Ok(seq![readback::op_tok(op)]),
            tokens_of(t),
        ),
{
    reveal_strlit(" ");
    let f = printer::binary_text(op);
    let sp = seq![' '];
    assert(" "@ =~= sp);
    let rest = sp + t;
    assert(" "@ + f + " "@ + t =~= sp + (f + rest));
    lemma_skip(sp, f + rest);
    lemma_skip(sp, t);
    lemma_op_text(op);
    match op_marks(op) {
        (c, Some(d)) => lemma_double(c, d, rest),
        (c, None) => lemma_mark(c, rest),
    }
}

/// A dotted name is read part by part.
pub(crate) proof fn lemma_dotted(parts: Seq<Seq<char>>, n: nat, t: Seq<char>)
    requires
        readback::is_dotted(parts),
        1 <= n <= parts.len(),
        ends_name(t),
    ensures
        tokens_of(text::join_first(parts, "."@, n) + t) == joined(
            Ok(readback::dotted_toks(parts, n)),
            tokens_of(t),
        ),
    decreases n,
{
    assert(readback::is_name(parts[n - 1]));
    if n == 1 {
        lemma_name(parts[0], t);
    } else {
        reveal_strlit(".");
        let dot = seq!['.'];
        assert("."@ =~= dot);
        let name = parts[n - 1];
        let before = text::join_first(parts, "."@, (n - 1) as nat);
        let rest = dot + (name + t);
        assert(text::join_first(parts, "."@, n) + t =~= before + rest);
        lemma_dotted(parts, (n - 1) as nat, rest);
        assert((name + t)[0] == name[0]);
        lemma_mark('.', name + t);
        lemma_name(name, t);
        lemma_joined(seq![TokV::Dot], seq![TokV::Ident(name)], tokens_of(t));
        assert(seq![TokV::Dot] + seq![TokV::Ident(name)] =~= seq![
            TokV::Dot,
            TokV::Ident(name),
        ]);
        lemma_joined(
            readback::dotted_toks(parts, (n - 1) as nat),
            seq![TokV::Dot, TokV::Ident(name)],
            tokens_of(t),
        );
    }
}

proof fn lemma_dotted_first(parts: Seq<Seq<char>>, n: nat)
    requires
        readback::is_dotted(parts),
        1 <= n <= parts.len(),
    ensures
        text::join_first(parts, "."@, n).len() > 0,
        text::join_first(parts, "."@, n)[0] == parts[0][0],
    decreases n,
{
    assert(readback::is_name(parts[0]));
    if n > 1 {
        lemma_dotted_first(parts, (n - 1) as nat);
    }
}

/// What an expression starts with: nothing that goes together with a mark
/// before it, but for the quote of a string.
pub(crate) proof fn lemma_expr_first(e: ExprV)
    requires
        readback::can_expr(e),
    ensures
        printer::expr_text(e).len() > 0,
        plain(printer::expr_text(e)[0]),
        printer::expr_text(e)[0] != '=',
        printer::expr_text(e)[0] != '~',
        printer::expr_text(e)[0] != '/',
        printer::expr_text(e)[0] != '*',
    decreases e,
{
    match e {
        ExprV::Str(_) => {
            reveal_strlit("{\"");
            reveal_strlit("\"");
        },
        ExprV::Num(n) => {
            lemma_number_first(n);
        },
        ExprV::Duration(d) => {
            lemma_time_digits(d);
            lemma_number_first(readback::time_digits(d));
            let n = readback::time_digits(d);
            assert(printer::duration_text(d)[0] == n[0]);
        },
        ExprV::Bytes(n) => {
            lemma_whole_number(n as nat);
            lemma_number_first(text::nat_text(n as nat));
            assert(printer::expr_text(e)[0] == text::nat_text(n as nat)[0]);
        },
        ExprV::Bool(_) => {
            reveal_strlit("true");
            reveal_strlit("false");
        },
        ExprV::CSource(_) => {
            reveal_strlit("C{");
        },
        ExprV::Var(parts) => {
            lemma_dotted_first(parts, parts.len());
            assert(readback::is_name(parts[0]));
        },
        ExprV::Call { target, .. } => {
            lemma_dotted_first(target, target.len());
            assert(readback::is_name(target[0]));
            assert(printer::expr_text(e)[0] == text::join(target, "."@)[0]);
        },
        ExprV::Unary { op, expr } => {
            reveal_strlit("!");
            reveal_strlit("-");
            lemma_expr_first(*expr);
        },
        ExprV::Binary { lhs, .. } => {
            lemma_expr_first(*lhs);
            reveal_strlit("(");
            let l = printer::operand_text(*lhs, printer::expr_text(*lhs));
            assert(l.len() > 0);
            assert(printer::expr_text(e)[0] == l[0]);
        },
        _ => {},
    }
}

proof fn lemma_number_first(n: Seq<char>)
    requires
        decimal::decimal_value(n) is Some,
    ensures
        n.len() > 0,
        text::is_digit(n[0]),
{
    let p = text::next_char(n, '.', 0);
    text::lemma_next_char(n, '.', 0);
    let whole = n.subrange(0, p as int);
    assert(whole[0] == n[0]);
}

pub(crate) proof fn lemma_time_digits(d: DecimalV)
    requires
        readback::can_time(d),
    ensures
        decimal::decimal_value(readback::time_digits(d)) == Some(d),
        printer::duration_text(d) == readback::time_digits(d).push('s'),
{
    reveal_strlit("s");
    spelling::law_numbers_are_read_back(d);
    assert(printer::duration_text(d) =~= readback::time_digits(d).push('s'));
}

/// An expression is read as its tokens.
pub(crate) proof fn lemma_expr(e: ExprV, t: Seq<char>)
    requires
        readback::can_expr(e),
        stops(t),
    ensures
        tokens_of(printer::expr_text(e) + t) == joined(
            Ok(readback::expr_toks(e)),
            tokens_of(t),
        ),
    decreases e, 1nat,
{
    match e {
        ExprV::Str(s) => lemma_string(s, t),
        ExprV::Num(n) => lemma_number(n, t),
        ExprV::Duration(d) => {
            lemma_time_digits(d);
            lemma_unit(readback::time_digits(d), 's', t);
        },
        ExprV::Bytes(n) => {
            reveal_strlit("B");
            lemma_whole_number(n as nat);
            assert(printer::expr_text(e) =~= text::nat_text(n as nat).push('B'));
            lemma_unit(text::nat_text(n as nat), 'B', t);
        },
        ExprV::Bool(b) => {
            reveal_strlit("true");
            reveal_strlit("false");
            lemma_name(
                if b {
                    "true"@
                } else {
                    "false"@
                },
                t,
            );
        },
        ExprV::Var(parts) => lemma_dotted(parts, parts.len(), t),
        ExprV::CSource(c) => lemma_embedded(c, t),
        ExprV::Call { .. } => lemma_call_expr(e, t),
        ExprV::Unary { .. } => lemma_unary_expr(e, t),
        ExprV::Binary { .. } => lemma_binary_expr(e, t),
        _ => {},
    }
}

proof fn lemma_call_expr(e: ExprV, t: Seq<char>)
    requires
        readback::can_expr(e),
        e is Call,
        stops(t),
    ensures
        tokens_of(printer::expr_text(e) + t) == joined(
            Ok(readback::expr_toks(e)),
            tokens_of(t),
        ),
    decreases e, 0nat,
{
    match e {
        ExprV::Call { target, args } => {
            reveal_strlit("(");
            reveal_strlit(")");
            let list = text::join(printer::arg_texts(args, "="@, args.len()), ", "@);
            let close = seq![')'] + t;
            let inner = list + close;
            assert(printer::expr_text(e) + t =~= text::join(target, "."@) + (seq!['('] + inner));
            lemma_dotted(target, target.len(), seq!['('] + inner);
            lemma_args(args, "="@, args.len(), close);
            if args.len() > 0 {
                lemma_args_first(args, "="@, args.len());
                assert(inner[0] == list[0]);
            } else {
                assert(inner =~= close);
            }
            lemma_mark('(', inner);
            lemma_mark(')', t);
            let at = readback::args_toks(args, args.len());
            lemma_joined(at, seq![TokV::RParen], tokens_of(t));
            lemma_joined(seq![TokV::LParen], at + seq![TokV::RParen], tokens_of(t));
            lemma_joined(
                readback::dotted_toks(target, target.len()),
                seq![TokV::LParen] + (at + seq![TokV::RParen]),
                tokens_of(t),
            );
        },
        _ => {},
    }
}

proof fn lemma_unary_expr(e: ExprV, t: Seq<char>)
    requires
        readback::can_expr(e),
        e is Unary,
        stops(t),
    ensures
        tokens_of(printer::expr_text(e) + t) == joined(
            Ok(readback::expr_toks(e)),
            tokens_of(t),
        ),
    decreases e, 0nat,
{
    match e {
        ExprV::Unary { op, expr } => {
            reveal_strlit("!");
            reveal_strlit("-");
            let operand = printer::operand_text(*expr, printer::expr_text(*expr));
            let inner = operand + t;
            lemma_expr_first(*expr);
            reveal_strlit("(");
            assert(inner[0] == operand[0]);
            let c = match op {
                UnOp::Not => '!',
                UnOp::Neg => '-',
            };
            assert(printer::expr_text(e) + t =~= seq![c] + inner);
            lemma_mark(c, inner);
            lemma_operand(*expr, t);
            lemma_joined(
                seq![mark_tok(c)->0],
                readback::operand_toks(*expr, readback::expr_toks(*expr)),
                tokens_of(t),
            );
        },
        _ => {},
    }
}

proof fn lemma_binary_expr(e: ExprV, t: Seq<char>)
    requires
        readback::can_expr(e),
        e is Binary,
        stops(t),
    ensures
        tokens_of(printer::expr_text(e) + t) == joined(
            Ok(readback::expr_toks(e)),
            tokens_of(t),
        ),
    decreases e, 0nat,
{
    match e {
        ExprV::Binary { op, lhs, rhs } => {
            reveal_strlit(" ");
            let r = printer::operand_text(*rhs, printer::expr_text(*rhs)) + t;
            let middle = " "@ + printer::binary_text(op) + " "@ + r;
            assert(printer::expr_text(e) + t =~= printer::operand_text(
                *lhs,
                printer::expr_text(*lhs),
            ) + middle);
            assert(middle[0] == ' ');
            lemma_operand(*lhs, middle);
            lemma_op(op, r);
            lemma_operand(*rhs, t);
            let right = readback::operand_toks(*rhs, readback::expr_toks(*rhs));
            lemma_joined(seq![readback::op_tok(op)], right, tokens_of(t));
            lemma_joined(
                readback::operand_toks(*lhs, readback::expr_toks(*lhs)),
                seq![readback::op_tok(op)] + right,
                tokens_of(t),
            );
        },
        _ => {},
    }
}

proof fn lemma_operand(e: ExprV, t: Seq<char>)
    requires
        readback::can_expr(e),
        stops(t),
    ensures
        tokens_of(printer::operand_text(e, printer::expr_text(e)) + t) == joined(
            Ok(readback::operand_toks(e, readback::expr_toks(e))),
            tokens_of(t),
        ),
    decreases e, 2nat,
{
    reveal(readback::operand_toks);
    if e is Binary {
        reveal_strlit("(");
        reveal_strlit(")");
        let close = seq![')'] + t;
        let inner = printer::expr_text(e) + close;
        assert(printer::operand_text(e, printer::expr_text(e)) + t =~= seq!['('] + inner);
        lemma_expr_first(e);
        assert(inner[0] == printer::expr_text(e)[0]);
        lemma_mark('(', inner);
        lemma_expr(e, close);
        lemma_mark(')', t);
        let k = readback::expr_toks(e);
        lemma_joined(k, seq![TokV::RParen], tokens_of(t));
        lemma_joined(seq![TokV::LParen], k + seq![TokV::RParen], tokens_of(t));
        assert(seq![TokV::LParen] + (k + seq![TokV::RParen]) =~= seq![TokV::LParen] + k + seq![
            TokV::RParen,
        ]);
    } else {
        lemma_expr(e, t);
    }
}

// ───────────────────────── arguments ─────────────────────────

/// Whether a text separates the name of an argument from its value.
pub open spec fn names_arg(sep: Seq<char>) -> bool {
    sep == "="@ || sep == " = "@
}

proof fn lemma_arg_texts(args: Seq<ArgV>, sep: Seq<char>, n: nat)
    requires
        readback::can_args(args),
        n <= args.len(),
    ensures
        printer::arg_texts(args, sep, n).len() == n,
        forall|i: int|
            0 <= i < n ==> #[trigger] printer::arg_texts(args, sep, n)[i] == printer::arg_text(
                args[i],
                sep,
            ),
    decreases n,
{
    if n > 0 {
        lemma_arg_texts(args, sep, (n - 1) as nat);
        assert(readback::can_arg(args[n - 1]));
        let before = printer::arg_texts(args, sep, (n - 1) as nat);
        assert(printer::arg_texts(args, sep, n) =~= before.push(
            printer::arg_text(args[n - 1], sep),
        ));
    }
}

proof fn lemma_arg_first(a: ArgV, sep: Seq<char>)
    requires
        readback::can_arg(a),
    ensures
        printer::arg_text(a, sep).len() > 0,
        plain(printer::arg_text(a, sep)[0]),
{
    lemma_expr_first(a.value);
    match a.name {
        Some(n) => {
            assert(printer::arg_text(a, sep)[0] == n[0]);
        },
        None => {},
    }
}

pub(crate) proof fn lemma_args_first(args: Seq<ArgV>, sep: Seq<char>, n: nat)
    requires
        readback::can_args(args),
        1 <= n <= args.len(),
    ensures
        text::join(printer::arg_texts(args, sep, n), ", "@).len() > 0,
        plain(text::join(printer::arg_texts(args, sep, n), ", "@)[0]),
{
    lemma_arg_texts(args, sep, n);
    assert(readback::can_arg(args[0]));
    lemma_arg_first(args[0], sep);
    lemma_join_first(printer::arg_texts(args, sep, n), n);
}

proof fn lemma_join_first(parts: Seq<Seq<char>>, n: nat)
    requires
        1 <= n <= parts.len(),
        parts[0].len() > 0,
    ensures
        text::join_first(parts, ", "@, n).len() > 0,
        text::join_first(parts, ", "@, n)[0] == parts[0][0],
    decreases n,
{
    if n > 1 {
        lemma_join_first(parts, (n - 1) as nat);
    }
}

pub(crate) proof fn lemma_arg(a: ArgV, sep: Seq<char>, t: Seq<char>)
    requires
        readback::can_arg(a),
        names_arg(sep),
        stops(t),
    ensures
        tokens_of(printer::arg_text(a, sep) + t) == joined(Ok(readback::arg_toks(a)), tokens_of(t)),
    decreases a, 0nat,
{
    lemma_expr(a.value, t);
    match a.name {
        Some(n) => {
            reveal_strlit("=");
            reveal_strlit(" = ");
            let v = printer::expr_text(a.value) + t;
            lemma_expr_first(a.value);
            assert(v[0] == printer::expr_text(a.value)[0]);
            let rest = sep + v;
            assert(printer::arg_text(a, sep) + t =~= n + rest);
            assert(rest[0] == sep[0]);
            lemma_name(n, rest);
            if sep == "="@ {
                assert(rest =~= seq!['='] + v);
                lemma_mark('=', v);
            } else {
                let sp = seq![' '];
                assert(rest =~= sp + (seq!['='] + (sp + v)));
                lemma_skip(sp, seq!['='] + (sp + v));
                lemma_mark('=', sp + v);
                lemma_skip(sp, v);
            }
            lemma_joined(seq![TokV::Eq], readback::expr_toks(a.value), tokens_of(t));
            lemma_joined(
                seq![TokV::Ident(n)],
                seq![TokV::Eq] + readback::expr_toks(a.value),
                tokens_of(t),
            );
            assert(seq![TokV::Ident(n)] + (seq![TokV::Eq] + readback::expr_toks(a.value)) =~= seq![
                TokV::Ident(n),
                TokV::Eq,
            ] + readback::expr_toks(a.value));
        },
        None => {},
    }
}

proof fn lemma_args_split(args: Seq<ArgV>, sep: Seq<char>, n: nat, t: Seq<char>)
    requires
        readback::can_args(args),
        1 < n <= args.len(),
    ensures
        text::join(printer::arg_texts(args, sep, n), ", "@) + t == text::join(
            printer::arg_texts(args, sep, (n - 1) as nat),
            ", "@,
        ) + (seq![','] + (seq![' '] + (printer::arg_text(args[n - 1], sep) + t))),
{
    reveal_strlit(", ");
    let parts = printer::arg_texts(args, sep, n);
    let before = printer::arg_texts(args, sep, (n - 1) as nat);
    lemma_arg_texts(args, sep, n);
    lemma_arg_texts(args, sep, (n - 1) as nat);
    assert forall|i: int| 0 <= i < n - 1 implies #[trigger] parts[i] == before[i] by {
        assert(parts[i] == printer::arg_text(args[i], sep));
        assert(before[i] == printer::arg_text(args[i], sep));
    }
    lemma_join_prefix(parts, before, (n - 1) as nat);
    let last = printer::arg_text(args[n - 1], sep);
    assert(parts[n - 1] == last);
    let head = text::join(before, ", "@);
    assert(text::join(parts, ", "@) == head + ", "@ + last);
    assert(head + ", "@ + last + t =~= head + (seq![','] + (seq![' '] + (last + t))));
}

proof fn lemma_args_single(args: Seq<ArgV>, sep: Seq<char>)
    requires
        readback::can_args(args),
        1 <= args.len(),
    ensures
        text::join(printer::arg_texts(args, sep, 1), ", "@) == printer::arg_text(args[0], sep),
{
    lemma_arg_texts(args, sep, 1);
    assert(printer::arg_texts(args, sep, 1)[0] == printer::arg_text(args[0], sep));
}

/// Arguments are read as their tokens.
pub(crate) proof fn lemma_args(args: Seq<ArgV>, sep: Seq<char>, n: nat, t: Seq<char>)
    requires
        readback::can_args(args),
        names_arg(sep),
        n <= args.len(),
        stops(t),
    ensures
        tokens_of(text::join(printer::arg_texts(args, sep, n), ", "@) + t) == joined(
            Ok(readback::args_toks(args, n)),
            tokens_of(t),
        ),
    decreases args, n,
{
    if n == 0 {
        assert(text::join(printer::arg_texts(args, sep, 0), ", "@) + t =~= t);
        lemma_joined_nothing(tokens_of(t));
    } else {
        let a = args[n - 1];
        assert(readback::can_arg(a));
        lemma_arg(a, sep, t);
        if n == 1 {
            lemma_args_single(args, sep);
        } else {
            lemma_args_split(args, sep, n, t);
            let last = printer::arg_text(a, sep) + t;
            let rest = seq![','] + (seq![' '] + last);
            lemma_args(args, sep, (n - 1) as nat, rest);
            lemma_mark(',', seq![' '] + last);
            lemma_skip(seq![' '], last);
            lemma_joined(seq![TokV::Comma], readback::arg_toks(a), tokens_of(t));
            lemma_joined(
                readback::args_toks(args, (n - 1) as nat),
                seq![TokV::Comma] + readback::arg_toks(a),
                tokens_of(t),
            );
        }
    }
}

/// No tokens before others change nothing.
pub(crate) proof fn lemma_joined_nothing(r: core::result::Result<Seq<TokV>, Seq<char>>)
    ensures
        joined(Ok(seq![]), r) == r,
{
    match r {
        Ok(k) => {
            assert(Seq::<TokV>::empty() + k =~= k);
        },
        Err(_) => {},
    }
}

/// The first parts of two lists that agree are joined alike.
pub(crate) proof fn lemma_join_prefix(a: Seq<Seq<char>>, b: Seq<Seq<char>>, n: nat)
    requires
        n <= a.len(),
        n <= b.len(),
        forall|i: int| 0 <= i < n ==> #[trigger] a[i] == b[i],
    ensures
        text::join_first(a, ", "@, n) == text::join_first(b, ", "@, n),
    decreases n,
{
    if n > 1 {
        lemma_join_prefix(a, b, (n - 1) as nat);
    }
}

} // verus!
