//! How the units of time, the units of size and the addresses of hosts relate.

use crate::ast;
use crate::decimal;
use crate::decimal::{pow10, DecimalV};
use crate::normalize::literals;
use crate::normalize::spelling;
use crate::text;
use vstd::prelude::*;
use vstd::string::*;

verus! {

/// A number with `scale` places behind the point.
pub open spec fn amount(num: nat, scale: nat) -> DecimalV {
    DecimalV { num, scale }
}

proof fn lemma_time_words()
    ensures
        "ms"@ != "s"@,
        "m"@ != "ms"@ && "m"@ != "s"@,
        "h"@ != "ms"@ && "h"@ != "s"@ && "h"@ != "m"@,
        "d"@ != "ms"@ && "d"@ != "s"@ && "d"@ != "m"@ && "d"@ != "h"@,
        "w"@ != "ms"@ && "w"@ != "s"@ && "w"@ != "m"@ && "w"@ != "h"@ && "w"@ != "d"@,
        "y"@ != "ms"@ && "y"@ != "s"@ && "y"@ != "m"@ && "y"@ != "h"@ && "y"@ != "d"@ && "y"@
            != "w"@,
{
    reveal_strlit("ms");
    reveal_strlit("s");
    reveal_strlit("m");
    reveal_strlit("h");
    reveal_strlit("d");
    reveal_strlit("w");
    reveal_strlit("y");
    assert("ms"@.len() == 2);
    assert("s"@[0] == 's' && "m"@[0] == 'm' && "h"@[0] == 'h' && "d"@[0] == 'd' && "w"@[0] == 'w'
        && "y"@[0] == 'y');
}

/// A minute is sixty seconds, an hour sixty minutes, a day twenty-four hours, a week
/// seven days, four years are 1461 days, a second is a thousand milliseconds, so many
/// seconds are that number, and there is no other unit.
pub proof fn law_units_of_time(n: nat, k: nat, unit: Seq<char>)
    ensures
        ast::duration_value(amount(n, k), "m"@) == ast::duration_value(amount(60 * n, k), "s"@),
        ast::duration_value(amount(n, k), "h"@) == ast::duration_value(amount(60 * n, k), "m"@),
        ast::duration_value(amount(n, k), "d"@) == ast::duration_value(amount(24 * n, k), "h"@),
        ast::duration_value(amount(n, k), "w"@) == ast::duration_value(amount(7 * n, k), "d"@),
        ast::duration_value(amount(4 * n, k), "y"@) == ast::duration_value(
            amount(1461 * n, k),
            "d"@,
        ),
        ast::duration_value(amount(n, k), "s"@) == ast::duration_value(amount(1000 * n, k), "ms"@),
        ast::duration_value(amount(n, k), "s"@) matches Some(d) && d.num * pow10(k) == n * pow10(
            d.scale,
        ),
        ast::duration_value(amount(n, k), unit) is Some <==> unit == "ms"@ || unit == "s"@ || unit
            == "m"@ || unit == "h"@ || unit == "d"@ || unit == "w"@ || unit == "y"@,
{
    lemma_time_words();
    assert((1461 * n) * 86400 == (4 * n) * 31557600);
    assert((7 * n) * 86400 == n * 604800);
    assert((24 * n) * 3600 == n * 86400);
    assert((60 * n) * 60 == n * 3600);
    assert((60 * n) * 1 == n * 60);
    assert(spelling::same_number(n, k, 1000 * n, k + 3)) by {
        assert(pow10(k + 3) == 10 * pow10(k + 2));
        assert(pow10(k + 2) == 10 * pow10(k + 1));
        assert(pow10(k + 1) == 10 * pow10(k));
        let p = pow10(k) as int;
        let m = n as int;
        assert(m * (1000 * p) == (1000 * m) * p) by (nonlinear_arith);
    }
    spelling::law_numbers_have_one_form(n, k, 1000 * n, k + 3);
    assert(n * 1 == n);
    spelling::lemma_reduce_value(n, k);
    let d = decimal::reduce(n, k);
    let j = (k - d.scale) as nat;
    spelling::lemma_pow10_add(j, d.scale);
    assert(j + d.scale == k);
    let x = d.num as int;
    let p = pow10(j) as int;
    let q = pow10(d.scale) as int;
    assert(x * (p * q) == (x * p) * q) by (nonlinear_arith);
}

proof fn lemma_size_words()
    ensures
        "KB"@ != "B"@,
        "MB"@ != "B"@ && "MB"@ != "KB"@,
        "GB"@ != "B"@ && "GB"@ != "KB"@ && "GB"@ != "MB"@,
        "TB"@ != "B"@ && "TB"@ != "KB"@ && "TB"@ != "MB"@ && "TB"@ != "GB"@,
{
    reveal_strlit("B");
    reveal_strlit("KB");
    reveal_strlit("MB");
    reveal_strlit("GB");
    reveal_strlit("TB");
    assert("B"@.len() == 1);
    assert("KB"@[0] == 'K' && "MB"@[0] == 'M' && "GB"@[0] == 'G' && "TB"@[0] == 'T');
}

/// Each unit of size is 1024 of the one before it, so many bytes are that number
/// without what stands behind the point, the largest size is the largest number that
/// fits, and there is no other unit.
pub proof fn law_units_of_size(n: nat, k: nat, unit: Seq<char>)
    ensures
        ast::bytes_amount(amount(n, k), "KB"@) == ast::bytes_amount(amount(1024 * n, k), "B"@),
        ast::bytes_amount(amount(n, k), "MB"@) == ast::bytes_amount(amount(1024 * n, k), "KB"@),
        ast::bytes_amount(amount(n, k), "GB"@) == ast::bytes_amount(amount(1024 * n, k), "MB"@),
        ast::bytes_amount(amount(n, k), "TB"@) == ast::bytes_amount(amount(1024 * n, k), "GB"@),
        ast::bytes_amount(amount(n, k), "B"@) matches Some(b) && b * pow10(k) <= n && (n < (b + 1)
            * pow10(k) || b == u64::MAX),
        ast::bytes_amount(amount(n, k), unit) is Some <==> unit == "B"@ || unit == "KB"@ || unit
            == "MB"@ || unit == "GB"@ || unit == "TB"@,
{
    lemma_size_words();
    spelling::lemma_pow10_pos(k);
    assert((1024 * n) * 0x400 == n * 0x10_0000);
    assert((1024 * n) * 0x10_0000 == n * 0x4000_0000);
    assert((1024 * n) * 0x4000_0000 == n * 0x100_0000_0000);
    assert((1024 * n) * 1 == n * 0x400);
    assert(n * 1 == n);
    let p = pow10(k) as int;
    let m = n as int;
    let q = m / p;
    assert(q * p <= m && m < (q + 1) * p && 0 <= q) by (nonlinear_arith)
        requires
            q == m / p,
            p > 0,
            m >= 0,
    ;
    let b = ast::bytes_amount(amount(n, k), "B"@)->0 as int;
    assert(b <= q);
    assert(b * p <= q * p) by (nonlinear_arith)
        requires
            b <= q,
            p > 0,
    ;
}

// ───────────────────────── hosts ─────────────────────────

proof fn lemma_next_from(s: Seq<char>, c: char, from: nat)
    requires
        forall|i: int| from <= i < s.len() ==> s[i] != c,
    ensures
        text::next_char(s, c, from) >= s.len(),
    decreases s.len() - from,
{
    if from < s.len() {
        lemma_next_from(s, c, from + 1);
    }
}

proof fn lemma_four_parts(a: Seq<char>, b: Seq<char>, c: Seq<char>, d: Seq<char>)
    requires
        !a.contains('.'),
        !b.contains('.'),
        !c.contains('.'),
        !d.contains('.'),
    ensures
        text::split_from(a + seq!['.'] + b + seq!['.'] + c + seq!['.'] + d, '.', 0) == seq![
            a,
            b,
            c,
            d,
        ],
{
    let s = a + seq!['.'] + b + seq!['.'] + c + seq!['.'] + d;
    let p = a.len();
    let q = p + 1 + b.len();
    let r = q + 1 + c.len();
    assert forall|i: int| 0 <= i < p implies s[i] != '.' by {
        assert(s[i] == a[i] && a.contains(a[i]));
    }
    assert forall|i: int| p + 1 <= i < q implies s[i] != '.' by {
        assert(s[i] == b[i - p - 1] && b.contains(b[i - p - 1]));
    }
    assert forall|i: int| q + 1 <= i < r implies s[i] != '.' by {
        assert(s[i] == c[i - q - 1] && c.contains(c[i - q - 1]));
    }
    assert forall|i: int| r + 1 <= i < s.len() implies s[i] != '.' by {
        assert(s[i] == d[i - r - 1] && d.contains(d[i - r - 1]));
    }
    assert(s[p as int] == '.' && s[q as int] == '.' && s[r as int] == '.');
    spelling::lemma_next_char_at(s, '.', 0, p);
    spelling::lemma_next_char_at(s, '.', p + 1, q);
    spelling::lemma_next_char_at(s, '.', q + 1, r);
    lemma_next_from(s, '.', r + 1);
    assert(s.subrange(0, p as int) =~= a);
    assert(s.subrange(p as int + 1, q as int) =~= b);
    assert(s.subrange(q as int + 1, r as int) =~= c);
    assert(s.subrange(r as int + 1, s.len() as int) =~= d);
    assert(text::split_from(s, '.', r + 1) == seq![d]);
    assert(text::split_from(s, '.', q + 1) =~= seq![c, d]);
    assert(text::split_from(s, '.', p + 1) =~= seq![b, c, d]);
    assert(text::split_from(s, '.', 0) =~= seq![a, b, c, d]);
}

proof fn lemma_number_text(n: nat)
    ensures
        !text::nat_text(n).contains('.'),
        !text::nat_text(n).contains(':'),
        text::unsigned_value(text::nat_text(n), 255) is Some <==> n <= 255,
{
    let t = text::nat_text(n);
    spelling::lemma_digits_of_nat(n);
    assert(t.len() > 0);
    assert(text::is_digit(t[0]));
    if t.contains('.') {
        let i = choose|i: int| 0 <= i < t.len() && t[i] == '.';
        assert(text::is_digit(t[i]));
    }
    if t.contains(':') {
        let i = choose|i: int| 0 <= i < t.len() && t[i] == ':';
        assert(text::is_digit(t[i]));
    }
}

/// Four numbers with points between them are one host where none is over 255; no mask
/// is known otherwise.
pub proof fn law_four_numbers_are_a_host(a: nat, b: nat, c: nat, d: nat)
    ensures
        literals::host_mask(
            text::nat_text(a) + seq!['.'] + text::nat_text(b) + seq!['.'] + text::nat_text(c)
                + seq!['.'] + text::nat_text(d),
        ) == if a <= 255 && b <= 255 && c <= 255 && d <= 255 {
            Some(32u8)
        } else {
            None
        },
{
    let x = text::nat_text(a);
    let y = text::nat_text(b);
    let z = text::nat_text(c);
    let w = text::nat_text(d);
    lemma_number_text(a);
    lemma_number_text(b);
    lemma_number_text(c);
    lemma_number_text(d);
    let s = x + seq!['.'] + y + seq!['.'] + z + seq!['.'] + w;
    lemma_four_parts(x, y, z, w);
    let parts = text::split_from(s, '.', 0);
    assert(parts[0] == x && parts[1] == y && parts[2] == z && parts[3] == w);
    if s.contains(':') {
        let i = choose|i: int| 0 <= i < s.len() && s[i] == ':';
        let p = x.len();
        let q = p + 1 + y.len();
        let r = q + 1 + z.len();
        if i < p {
            assert(x[i] == ':');
        } else if p < i < q {
            assert(y[i - p - 1] == ':');
        } else if q < i < r {
            assert(z[i - q - 1] == ':');
        } else if r < i {
            assert(w[i - r - 1] == ':');
        }
    }
}

proof fn lemma_pieces(s: Seq<char>, c: char, from: nat, i: int)
    requires
        from <= i < s.len(),
    ensures
        s[i] == c || exists|k: int|
            0 <= k < text::split_from(s, c, from).len() && #[trigger] text::split_from(
                s,
                c,
                from,
            )[k].contains(s[i]),
    decreases s.len() - from,
{
    text::lemma_next_char(s, c, from);
    let e = text::next_char(s, c, from);
    let all = text::split_from(s, c, from);
    if from <= e < s.len() {
        let rest = text::split_from(s, c, e + 1);
        if i < e {
            assert(all[0] == s.subrange(from as int, e as int));
            assert(all[0][i - from] == s[i]);
            assert(all[0].contains(s[i]));
        } else if i > e {
            lemma_pieces(s, c, e + 1, i);
            if s[i] != c {
                let k = choose|k: int| 0 <= k < rest.len() && #[trigger] rest[k].contains(s[i]);
                assert(all[k + 1] == rest[k]);
                assert(all[k + 1].contains(s[i]));
            }
        }
    } else {
        assert(all[0] == s.subrange(from as int, s.len() as int));
        assert(all[0][i - from] == s[i]);
        assert(all[0].contains(s[i]));
    }
}

/// An address with a colon is one host of 128 bits, and an address with anything but
/// digits, points and plus signs in it, a name, has no mask of its own.
pub proof fn law_names_are_no_hosts(addr: Seq<char>, i: int)
    requires
        0 <= i < addr.len(),
        addr[i] != '.' && addr[i] != '+' && !('0' <= addr[i] <= '9'),
    ensures
        addr.contains(':') ==> literals::host_mask(addr) == Some(128u8),
        !addr.contains(':') ==> literals::host_mask(addr) is None,
{
    let parts = text::split_from(addr, '.', 0);
    lemma_pieces(addr, '.', 0, i);
    let k = choose|k: int| 0 <= k < parts.len() && #[trigger] parts[k].contains(addr[i]);
    let t = parts[k];
    let j = choose|j: int| 0 <= j < t.len() && t[j] == addr[i];
    if text::unsigned_value(t, 255) is Some {
        let d = text::unsigned_digits(t);
        if t[0] == '+' {
            assert(d[j - 1] == t[j]);
            assert(text::is_digit(d[j - 1]));
        } else {
            assert(text::is_digit(d[j]));
        }
    }
    assert(text::unsigned_value(parts[k], 255) is None);
}

} // verus!
