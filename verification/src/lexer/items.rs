//! What stands at a place of the source: white space, a comment, or a token that is as
//! long as it can be.

use crate::ast;
use crate::lexer;
use crate::lexer::{ItemV, TokV};
use crate::text;
use vstd::prelude::*;
use vstd::string::*;

verus! {

/// Whether a byte can stand in a name: a letter, a digit, `_` or `-`.
pub open spec fn in_name(c: u8) -> bool {
    97 <= c <= 122 || 65 <= c <= 90 || 48 <= c <= 57 || c == 95 || c == 45
}

/// Whether two bytes stand at `p`.
pub open spec fn two_at(b: Seq<u8>, p: int, x: u8, y: u8) -> bool {
    0 <= p && p + 1 < b.len() && b[p] == x && b[p + 1] == y
}

/// Whether three quotes stand at `p`.
pub open spec fn quotes_at(b: Seq<u8>, p: int) -> bool {
    0 <= p && p + 2 < b.len() && b[p] == 34 && b[p + 1] == 34 && b[p + 2] == 34
}

proof fn lemma_ident_end(b: Seq<u8>, p: nat)
    requires
        p <= b.len(),
    ensures
        p <= lexer::ident_end(b, p) <= b.len(),
        forall|i: int| p <= i < lexer::ident_end(b, p) ==> in_name(#[trigger] b[i]),
        lexer::ident_end(b, p) < b.len() ==> !in_name(b[lexer::ident_end(b, p) as int]),
    decreases b.len() - p,
{
    if p < b.len() && lexer::is_ident_byte(b[p as int]) {
        lemma_ident_end(b, p + 1);
    }
}

proof fn lemma_digits_end(b: Seq<u8>, p: nat)
    requires
        p <= b.len(),
    ensures
        p <= lexer::digits_end(b, p) <= b.len(),
        forall|i: int| p <= i < lexer::digits_end(b, p) ==> 48 <= #[trigger] b[i] <= 57,
        lexer::digits_end(b, p) < b.len() ==> !(48 <= b[lexer::digits_end(b, p) as int] <= 57),
    decreases b.len() - p,
{
    if p < b.len() && lexer::is_digit(b[p as int]) {
        lemma_digits_end(b, p + 1);
    }
}

proof fn lemma_quote(b: Seq<u8>, p: nat)
    requires
        p <= b.len(),
    ensures
        p <= lexer::quote_or_newline(b, p) <= b.len(),
        forall|i: int|
            p <= i < lexer::quote_or_newline(b, p) ==> #[trigger] b[i] != 34 && b[i] != 10,
        lexer::quote_or_newline(b, p) < b.len() ==> b[lexer::quote_or_newline(b, p) as int] == 34
            || b[lexer::quote_or_newline(b, p) as int] == 10,
    decreases b.len() - p,
{
    if p < b.len() && b[p as int] != 34 && b[p as int] != 10 {
        lemma_quote(b, p + 1);
    }
}

proof fn lemma_line_end(b: Seq<u8>, p: nat)
    requires
        p <= b.len(),
    ensures
        p <= ast::line_end(b, p) <= b.len(),
        forall|i: int| p <= i < ast::line_end(b, p) ==> #[trigger] b[i] != 10,
        ast::line_end(b, p) < b.len() ==> b[ast::line_end(b, p) as int] == 10,
    decreases b.len() - p,
{
    if p < b.len() && b[p as int] != 10 {
        lemma_line_end(b, p + 1);
    }
}

proof fn lemma_pair(b: Seq<u8>, p: nat, x: u8, y: u8)
    ensures
        match lexer::find_pair(b, p, x, y) {
            Some(e) => p <= e && two_at(b, e as int, x, y) && forall|i: int|
                p <= i < e ==> !#[trigger] two_at(b, i, x, y),
            None => forall|i: int| p <= i ==> !#[trigger] two_at(b, i, x, y),
        },
    decreases b.len() - p,
{
    if p + 1 < b.len() && !two_at(b, p as int, x, y) {
        lemma_pair(b, p + 1, x, y);
    }
}

proof fn lemma_triple(b: Seq<u8>, p: nat)
    ensures
        match lexer::find_triple_quote(b, p) {
            Some(e) => p <= e && quotes_at(b, e as int) && forall|i: int|
                p <= i < e ==> !#[trigger] quotes_at(b, i),
            None => forall|i: int| p <= i ==> !#[trigger] quotes_at(b, i),
        },
    decreases b.len() - p,
{
    if p + 2 < b.len() && !quotes_at(b, p as int) {
        lemma_triple(b, p + 1);
    }
}

/// White space is a space, a tab, a carriage return or a newline. A comment goes from
/// `#` or `//` to the end of the line, or from `/*` to the first `*/` behind it.
pub proof fn law_gaps_at_a_place(b: Seq<u8>, p: nat)
    requires
        p < b.len(),
    ensures
        ({
            let i = lexer::item_at(b, p);
            let c = b[p as int];
            &&& i is Space <==> c == 32 || c == 9 || c == 13 || c == 10
            &&& i is Space ==> i == ItemV::Space(p + 1)
            &&& i is Comment ==> c == 35 || two_at(b, p as int, 47, 47) || two_at(b, p as int, 47, 42)
            &&& c == 35 || two_at(b, p as int, 47, 47) ==> (i matches ItemV::Comment(n) && p < n
                <= b.len() && (forall|j: int| p <= j < n ==> #[trigger] b[j] != 10) && (n < b.len()
                ==> b[n as int] == 10))
            &&& two_at(b, p as int, 47, 42) ==> {
                ||| i matches ItemV::Comment(n) && p + 4 <= n && two_at(b, n - 2, 42, 47)
                    && forall|j: int| p + 2 <= j < n - 2 ==> !#[trigger] two_at(b, j, 42, 47)
                ||| i is Fault && forall|j: int| p + 2 <= j ==> !#[trigger] two_at(b, j, 42, 47)
            }
        }),
{
    lemma_line_end(b, p);
    lemma_pair(b, p + 2, 42, 47);
    lemma_pair(b, p + 2, 125, 67);
    lemma_pair(b, p + 2, 34, 125);
}

/// A name starts with a letter or `_`, unless that is the start of a `C{` block, and
/// goes on as long as there are letters, digits, `_` and `-`.
pub proof fn law_names_at_a_place(b: Seq<u8>, p: nat)
    requires
        p < b.len(),
    ensures
        ({
            let i = lexer::item_at(b, p);
            let c = b[p as int];
            let starts = (97 <= c <= 122 || 65 <= c <= 90 || c == 95) && !two_at(
                b,
                p as int,
                67,
                123,
            );
            &&& starts <==> (i matches ItemV::Token(_, TokV::Ident(_)))
            &&& starts ==> (i matches ItemV::Token(e, TokV::Ident(t)) && p < e <= b.len() && t
                == text::text_of(b, p as int, e as int) && (forall|j: int|
                p <= j < e ==> in_name(#[trigger] b[j])) && (e < b.len() ==> !in_name(b[e as int])))
        }),
{
    lemma_ident_end(b, p);
}

/// A string stands between quotes on one line, between triple quotes, or between `{"`
/// and the first `"}` behind it; C source stands between `C{` and the first `}C` behind
/// it. What stands between is kept as it is, and without an end there is no token.
pub proof fn law_strings_at_a_place(b: Seq<u8>, p: nat)
    requires
        p < b.len(),
    ensures
        ({
            let i = lexer::item_at(b, p);
            &&& b[p as int] == 34 && !quotes_at(b, p as int) ==> {
                ||| i matches ItemV::Token(e, TokV::Str(t)) && p + 2 <= e <= b.len() && b[e - 1]
                    == 34 && t == text::text_of(b, p as int + 1, e - 1) && forall|j: int|
                    p < j < e - 1 ==> #[trigger] b[j] != 34 && b[j] != 10
                ||| i matches ItemV::Fault(n, _) && (n == b.len() || b[n as int] == 10) && forall|
                    j: int,
                |
                    p < j < n ==> #[trigger] b[j] != 34
            }
            &&& quotes_at(b, p as int) ==> {
                ||| i matches ItemV::Token(e, TokV::Str(t)) && p + 6 <= e && quotes_at(b, e - 3)
                    && t == text::text_of(b, p as int + 3, e - 3) && forall|j: int|
                    p + 3 <= j < e - 3 ==> !#[trigger] quotes_at(b, j)
                ||| i is Fault && forall|j: int| p + 3 <= j ==> !#[trigger] quotes_at(b, j)
            }
            &&& two_at(b, p as int, 123, 34) ==> {
                ||| i matches ItemV::Token(e, TokV::Str(t)) && p + 4 <= e && two_at(
                    b,
                    e - 2,
                    34,
                    125,
                ) && t == text::text_of(b, p as int + 2, e - 2) && forall|j: int|
                    p + 2 <= j < e - 2 ==> !#[trigger] two_at(b, j, 34, 125)
                ||| i is Fault && forall|j: int| p + 2 <= j ==> !#[trigger] two_at(b, j, 34, 125)
            }
            &&& two_at(b, p as int, 67, 123) ==> {
                ||| i matches ItemV::Token(e, TokV::CSource(t)) && p + 4 <= e && two_at(
                    b,
                    e - 2,
                    125,
                    67,
                ) && t == text::text_of(b, p as int + 2, e - 2) && forall|j: int|
                    p + 2 <= j < e - 2 ==> !#[trigger] two_at(b, j, 125, 67)
                ||| i is Fault && forall|j: int| p + 2 <= j ==> !#[trigger] two_at(b, j, 125, 67)
            }
        }),
{
    lemma_quote(b, p + 1);
    if quotes_at(b, p as int) {
        lemma_triple(b, p + 3);
    }
    lemma_pair(b, p + 2, 34, 125);
    lemma_pair(b, p + 2, 125, 67);
}

/// Where the numeral at `p` ends: behind its digits, or behind a point and the digits
/// that stand directly behind the point.
pub open spec fn numeral(b: Seq<u8>, p: int, e: int) -> bool {
    &&& p < e <= b.len()
    &&& e < b.len() ==> !(48 <= b[e] <= 57)
    &&& {
        ||| (forall|j: int| p <= j < e ==> 48 <= #[trigger] b[j] <= 57) && !(e + 1 < b.len() && b[e]
            == 46 && 48 <= b[e + 1] <= 57)
        ||| exists|d: int|
            p < d && d + 1 < e && #[trigger] b[d] == 46 && forall|j: int|
                p <= j < e && j != d ==> 48 <= #[trigger] b[j] <= 57
    }
}

/// A numeral with one of the letters `s`, `m`, `h`, `d`, `w` and `y`, or `ms`, directly
/// behind it is a duration, one with `B`, `KB`, `MB`, `GB` or `TB` a size, and any other
/// a number; the two letters go before the one.
pub proof fn law_numbers_at_a_place(b: Seq<u8>, p: nat, e: nat)
    requires
        p < b.len(),
        48 <= b[p as int] <= 57,
        numeral(b, p as int, e as int),
    ensures
        ({
            let i = lexer::item_at(b, p);
            let n = text::text_of(b, p as int, e as int);
            let k = e as int;
            let next = |c: u8| e < b.len() && b[e as int] == c;
            let two = two_at(b, k, 109, 115) || two_at(b, k, 75, 66) || two_at(b, k, 77, 66)
                || two_at(b, k, 71, 66) || two_at(b, k, 84, 66);
            &&& two_at(b, k, 109, 115) ==> i == ItemV::Token(e + 2, TokV::Duration(n, "ms"@))
            &&& two_at(b, k, 75, 66) ==> i == ItemV::Token(e + 2, TokV::Bytes(n, "KB"@))
            &&& two_at(b, k, 77, 66) ==> i == ItemV::Token(e + 2, TokV::Bytes(n, "MB"@))
            &&& two_at(b, k, 71, 66) ==> i == ItemV::Token(e + 2, TokV::Bytes(n, "GB"@))
            &&& two_at(b, k, 84, 66) ==> i == ItemV::Token(e + 2, TokV::Bytes(n, "TB"@))
            &&& next(115) ==> i == ItemV::Token(e + 1, TokV::Duration(n, "s"@))
            &&& next(109) && !two ==> i == ItemV::Token(e + 1, TokV::Duration(n, "m"@))
            &&& next(104) ==> i == ItemV::Token(e + 1, TokV::Duration(n, "h"@))
            &&& next(100) ==> i == ItemV::Token(e + 1, TokV::Duration(n, "d"@))
            &&& next(119) ==> i == ItemV::Token(e + 1, TokV::Duration(n, "w"@))
            &&& next(121) ==> i == ItemV::Token(e + 1, TokV::Duration(n, "y"@))
            &&& next(66) ==> i == ItemV::Token(e + 1, TokV::Bytes(n, "B"@))
            &&& !two && !next(115) && !next(109) && !next(104) && !next(100) && !next(119) && !next(
                121,
            ) && !next(66) ==> i == ItemV::Token(e, TokV::Num(n))
        }),
{
    lemma_digits_end(b, p);
    let d = lexer::digits_end(b, p);
    assert(d > p);
    if d < b.len() {
        lemma_digits_end(b, d + 1);
    }
    let n = lexer::number_end(b, p);
    if n != e {
        let k = e as int;
        if forall|j: int| p <= j < k ==> 48 <= #[trigger] b[j] <= 57 {
            if d < k {
                assert(48 <= b[d as int] <= 57);
            } else if d > k {
                assert(48 <= b[k] <= 57);
            }
        } else {
            let x = choose|x: int|
                p < x && x + 1 < k && #[trigger] b[x] == 46 && forall|j: int|
                    p <= j < k && j != x ==> 48 <= #[trigger] b[j] <= 57;
            if d < x {
                assert(48 <= b[d as int] <= 57);
            } else if d > x {
                assert(48 <= b[x] <= 57);
            }
            assert(48 <= b[x + 1] <= 57);
            if n < k {
                assert(48 <= b[n as int] <= 57);
            } else {
                assert(48 <= b[k] <= 57);
            }
        }
    }
}

/// A mark of two bytes goes before one of the first of them alone.
pub proof fn law_marks_at_a_place(b: Seq<u8>, p: nat)
    requires
        p < b.len(),
    ensures
        ({
            let i = lexer::item_at(b, p);
            let c = b[p as int];
            let second = |x: u8| p + 1 < b.len() && b[p as int + 1] == x;
            let one = |t: TokV| i == ItemV::Token(p + 1, t);
            let pair = |t: TokV| i == ItemV::Token(p + 2, t);
            &&& c == 61 ==> if second(61) {
                pair(TokV::EqEq)
            } else {
                one(TokV::Eq)
            }
            &&& c == 33 ==> if second(61) {
                pair(TokV::Neq)
            } else if second(126) {
                pair(TokV::NTilde)
            } else {
                one(TokV::Bang)
            }
            &&& c == 60 ==> if second(61) {
                pair(TokV::Leq)
            } else {
                one(TokV::Lt)
            }
            &&& c == 62 ==> if second(61) {
                pair(TokV::Geq)
            } else {
                one(TokV::Gt)
            }
            &&& c == 38 ==> if second(38) {
                pair(TokV::AndAnd)
            } else {
                i is Fault
            }
            &&& c == 124 ==> if second(124) {
                pair(TokV::OrOr)
            } else {
                i is Fault
            }
            &&& c == 126 ==> one(TokV::Tilde)
            &&& c == 43 ==> one(TokV::Plus)
            &&& c == 45 ==> one(TokV::Minus)
            &&& c == 42 ==> one(TokV::Star)
            &&& c == 47 && !second(47) && !second(42) ==> one(TokV::Slash)
            &&& c == 123 && !second(34) ==> one(TokV::LBrace)
            &&& c == 125 ==> one(TokV::RBrace)
            &&& c == 40 ==> one(TokV::LParen)
            &&& c == 41 ==> one(TokV::RParen)
            &&& c == 59 ==> one(TokV::Semi)
            &&& c == 44 ==> one(TokV::Comma)
            &&& c == 46 ==> one(TokV::Dot)
        }),
{
}

} // verus!
