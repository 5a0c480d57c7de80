//! How a literal is spelled does not matter: numbers of one value have one
//! form.

use crate::ast;
use crate::decimal;
use crate::decimal::{DecimalV, pow10};
use crate::normalize::literals;
use crate::text;
use vstd::prelude::*;

verus! {

pub(crate) proof fn lemma_pow10_pos(k: nat)
    ensures
        pow10(k) > 0,
    decreases k,
{
    if k > 0 {
        lemma_pow10_pos((k - 1) as nat);
    }
}

pub(crate) proof fn lemma_pow10_add(a: nat, b: nat)
    ensures
        pow10(a + b) == pow10(a) * pow10(b),
    decreases a,
{
    let q = pow10(b) as int;
    if a == 0 {
        assert(1 * q == q);
    } else {
        lemma_pow10_add((a - 1) as nat, b);
        let p = pow10((a - 1) as nat) as int;
        assert(10 * (p * q) == (10 * p) * q) by (nonlinear_arith);
        assert((a - 1) as nat + b == (a + b - 1) as nat);
    }
}

/// Whether `num / 10^scale` and `other / 10^places` are one number.
pub open spec fn same_number(num: nat, scale: nat, other: nat, places: nat) -> bool {
    num * pow10(places) == other * pow10(scale)
}

pub(crate) proof fn lemma_reduce_value(num: nat, scale: nat)
    ensures
        ({
            let d = decimal::reduce(num, scale);
            d.scale <= scale && num == d.num * pow10((scale - d.scale) as nat) && d.lowest()
        }),
    decreases scale,
{
    if scale > 0 && num % 10 == 0 {
        lemma_reduce_value(num / 10, (scale - 1) as nat);
        let d = decimal::reduce(num, scale);
        let k = (scale - 1 - d.scale) as nat;
        let n = d.num as int;
        let p = pow10(k) as int;
        assert(pow10((scale - d.scale) as nat) == 10 * pow10(k));
        assert(n * (10 * p) == 10 * (n * p)) by (nonlinear_arith);
        assert(num == 10 * (num / 10));
    } else {
        assert(num * 1 == num);
    }
}

proof fn lemma_lowest_unique(a: DecimalV, b: DecimalV)
    requires
        a.lowest(),
        b.lowest(),
        a.scale <= b.scale,
        same_number(a.num, a.scale, b.num, b.scale),
    ensures
        a == b,
{
    let k = (b.scale - a.scale) as nat;
    lemma_pow10_pos(a.scale);
    lemma_pow10_add(k, a.scale);
    assert(k + a.scale == b.scale);
    let p = pow10(a.scale) as int;
    let q = pow10(k) as int;
    let x = a.num as int;
    let y = b.num as int;
    assert(x * q == y) by (nonlinear_arith)
        requires
            x * (q * p) == y * p,
            p > 0,
    ;
    if k > 0 {
        let r = pow10((k - 1) as nat) as int;
        assert(q == 10 * r);
        assert(x * (10 * r) == 10 * (x * r)) by (nonlinear_arith);
        assert(y % 10 == 0);
    } else {
        assert(q == 1);
        assert(x * 1 == x);
    }
}

/// Two numbers have one form if and only if they are one number.
pub proof fn law_numbers_have_one_form(num: nat, scale: nat, other: nat, places: nat)
    ensures
        decimal::reduce(num, scale) == decimal::reduce(other, places) <==> same_number(
            num,
            scale,
            other,
            places,
        ),
{
    lemma_reduce_value(num, scale);
    lemma_reduce_value(other, places);
    let a = decimal::reduce(num, scale);
    let b = decimal::reduce(other, places);
    let i = (scale - a.scale) as nat;
    let j = (places - b.scale) as nat;
    lemma_pow10_add(i, a.scale);
    lemma_pow10_add(j, b.scale);
    lemma_pow10_pos(i);
    lemma_pow10_pos(j);
    let x = a.num as int;
    let y = b.num as int;
    let pi = pow10(i) as int;
    let pj = pow10(j) as int;
    let pa = pow10(a.scale) as int;
    let pb = pow10(b.scale) as int;
    assert((x * pi) * (pj * pb) == (pi * pj) * (x * pb)) by (nonlinear_arith);
    assert((y * pj) * (pi * pa) == (pi * pj) * (y * pa)) by (nonlinear_arith);
    assert(pi * pj > 0) by (nonlinear_arith)
        requires
            pi > 0,
            pj > 0,
    ;
    let c = pi * pj;
    let u = x * pb;
    let v = y * pa;
    assert(c * u == c * v <==> u == v) by (nonlinear_arith)
        requires
            c > 0,
    ;
    if same_number(num, scale, other, places) {
        if a.scale <= b.scale {
            lemma_lowest_unique(a, b);
        } else {
            lemma_lowest_unique(b, a);
        }
    }
}

// ───────────────────────── durations and sizes ─────────────────────────

/// How many seconds a unit is: a factor, and how many places it is shifted.
pub open spec fn unit_seconds(unit: Seq<char>) -> Option<(nat, nat)> {
    if unit == "ms"@ {
        Some((1, 3))
    } else if unit == "s"@ {
        Some((1, 0))
    } else if unit == "m"@ {
        Some((60, 0))
    } else if unit == "h"@ {
        Some((3600, 0))
    } else if unit == "d"@ {
        Some((86400, 0))
    } else if unit == "w"@ {
        Some((604800, 0))
    } else if unit == "y"@ {
        Some((31557600, 0))
    } else {
        None
    }
}

/// Whether two durations are the same number of seconds.
pub open spec fn same_seconds(a: DecimalV, u: Seq<char>, b: DecimalV, v: Seq<char>) -> bool {
    match (unit_seconds(u), unit_seconds(v)) {
        (Some((f, i)), Some((g, j))) => same_number(
            a.num * f,
            a.scale + i,
            b.num * g,
            b.scale + j,
        ),
        _ => false,
    }
}

/// The unit of a duration does not matter: two durations have one form if and
/// only if they are the same number of seconds.
pub proof fn law_durations_are_seconds(a: DecimalV, u: Seq<char>, b: DecimalV, v: Seq<char>)
    requires
        unit_seconds(u) is Some,
        unit_seconds(v) is Some,
    ensures
        ast::duration_value(a, u) is Some,
        ast::duration_value(b, v) is Some,
        ast::duration_value(a, u) == ast::duration_value(b, v) <==> same_seconds(a, u, b, v),
{
    let (f, i) = unit_seconds(u)->0;
    let (g, j) = unit_seconds(v)->0;
    assert(a.num * 1 == a.num && b.num * 1 == b.num);
    assert(ast::duration_value(a, u) == Some(decimal::reduce(a.num * f, a.scale + i)));
    assert(ast::duration_value(b, v) == Some(decimal::reduce(b.num * g, b.scale + j)));
    law_numbers_have_one_form(a.num * f, a.scale + i, b.num * g, b.scale + j);
}

proof fn lemma_same_floor(a: nat, p: nat, b: nat, q: nat)
    requires
        p > 0,
        q > 0,
        a * q == b * p,
    ensures
        a / p == b / q,
{
    let x = a as int;
    let y = b as int;
    let m = p as int;
    let n = q as int;
    let k = x / m;
    assert(k * m <= x < (k + 1) * m) by (nonlinear_arith)
        requires
            m > 0,
            k == x / m,
    ;
    assert(k * n <= y) by (nonlinear_arith)
        requires
            k * m <= x,
            x * n == y * m,
            m > 0,
            n > 0,
    ;
    assert(y < (k + 1) * n) by (nonlinear_arith)
        requires
            x < (k + 1) * m,
            x * n == y * m,
            m > 0,
            n > 0,
    ;
    assert(y / n == k) by (nonlinear_arith)
        requires
            k * n <= y < (k + 1) * n,
            n > 0,
    ;
}

/// The unit of a size does not matter: sizes of the same number of bytes have
/// one form.
pub proof fn law_sizes_are_bytes(a: DecimalV, u: Seq<char>, b: DecimalV, v: Seq<char>)
    requires
        match (ast::bytes_factor(u), ast::bytes_factor(v)) {
            (Some(f), Some(g)) => same_number(a.num * f as nat, a.scale, b.num * g as nat, b.scale),
            _ => false,
        },
    ensures
        ast::bytes_amount(a, u) is Some,
        ast::bytes_amount(a, u) == ast::bytes_amount(b, v),
{
    let f = ast::bytes_factor(u)->0;
    let g = ast::bytes_factor(v)->0;
    lemma_pow10_pos(a.scale);
    lemma_pow10_pos(b.scale);
    lemma_same_floor(a.num * f as nat, pow10(a.scale), b.num * g as nat, pow10(b.scale));
}

// ───────────────────────── numbers ─────────────────────────

proof fn lemma_next_char_push(s: Seq<char>, c: char, from: nat, x: char)
    requires
        text::next_char(s, c, from) < s.len(),
    ensures
        text::next_char(s.push(x), c, from) == text::next_char(s, c, from),
    decreases s.len() - from,
{
    if from < s.len() && s[from as int] != c {
        lemma_next_char_push(s, c, from + 1, x);
    }
}

/// A zero at the end of a number with a point does not matter.
pub proof fn law_trailing_zeros_do_not_matter(n: Seq<char>)
    requires
        n.contains('.'),
        decimal::decimal_value(n) is Some,
    ensures
        decimal::decimal_value(n.push('0')) == decimal::decimal_value(n),
        literals::plain_number(n.push('0')) == literals::plain_number(n),
{
    let m = n.push('0');
    let p = text::next_char(n, '.', 0);
    text::lemma_next_char(n, '.', 0);
    let k = choose|k: int| 0 <= k < n.len() && n[k] == '.';
    assert(m[k] == '.');
    lemma_next_char_push(n, '.', 0, '0');
    let whole = n.subrange(0, p as int);
    let frac = n.subrange(p as int + 1, n.len() as int);
    assert(m.subrange(0, p as int) =~= whole);
    assert(m.subrange(p as int + 1, m.len() as int) =~= frac.push('0'));
    let all = whole + frac;
    assert(whole + frac.push('0') =~= all.push('0'));
    assert(all.push('0').drop_last() =~= all);
    assert(text::digits_value(all.push('0')) == text::digits_value(all) * 10);
    let x = text::digits_value(all);
    assert(decimal::reduce(x * 10, frac.len() + 1) == decimal::reduce(x, frac.len()));
    assert(decimal::all_digits(frac.push('0')));
}

pub(crate) proof fn lemma_digits_of_nat(n: nat)
    ensures
        text::digits_value(text::nat_text(n)) == n,
        decimal::all_digits(text::nat_text(n)),
    decreases n,
{
    let t = text::nat_text(n);
    if n < 10 {
        assert(t.drop_last() =~= seq![]);
        assert(t.last() == text::digit_char(n));
        assert(text::digits_value(t.drop_last()) == 0);
    } else {
        lemma_digits_of_nat(n / 10);
        assert(t.drop_last() =~= text::nat_text(n / 10));
        assert(t.last() == text::digit_char(n % 10));
        let before = text::nat_text(n / 10);
        assert forall|i: int| 0 <= i < t.len() implies text::is_digit(#[trigger] t[i]) by {
            if i < before.len() {
                assert(t[i] == before[i]);
            }
        }
    }
}

proof fn lemma_low_digits(num: nat, k: nat)
    ensures
        decimal::low_digits(num, k).len() == k,
        forall|i: int| 0 <= i < k ==> text::is_digit(#[trigger] decimal::low_digits(num, k)[i]),
    decreases k,
{
    if k > 0 {
        lemma_low_digits(num / 10, (k - 1) as nat);
        let before = decimal::low_digits(num / 10, (k - 1) as nat);
        let t = decimal::low_digits(num, k);
        assert forall|i: int| 0 <= i < k implies text::is_digit(#[trigger] t[i]) by {
            if i < before.len() {
                assert(t[i] == before[i]);
            }
        }
    }
}

proof fn lemma_joined_digits(a: Seq<char>, num: nat, k: nat)
    requires
        text::digits_value(a) == num / pow10(k),
    ensures
        text::digits_value(a + decimal::low_digits(num, k)) == num,
    decreases k,
{
    let t = a + decimal::low_digits(num, k);
    if k == 0 {
        assert(t =~= a);
        assert(num / 1 == num);
    } else {
        let j = (k - 1) as nat;
        lemma_pow10_pos(j);
        let p = pow10(j) as int;
        let x = num as int;
        assert(x / (10 * p) == (x / 10) / p) by (nonlinear_arith)
            requires
                p > 0,
                x >= 0,
        ;
        lemma_joined_digits(a, num / 10, j);
        let low = decimal::low_digits(num / 10, j);
        assert(t =~= (a + low).push(text::digit_char(num % 10)));
        assert(t.drop_last() =~= a + low);
        assert(t.last() == text::digit_char(num % 10));
    }
}

pub(crate) proof fn lemma_next_char_at(s: Seq<char>, c: char, from: nat, p: nat)
    requires
        from <= p < s.len(),
        s[p as int] == c,
        forall|i: int| from <= i < p ==> s[i] != c,
    ensures
        text::next_char(s, c, from) == p,
    decreases p - from,
{
    if from < p {
        lemma_next_char_at(s, c, from + 1, p);
    }
}

/// A number is read back from its own text.
pub proof fn law_numbers_are_read_back(d: DecimalV)
    requires
        d.lowest(),
    ensures
        decimal::decimal_value(d.text()) == Some(d),
{
    let w = text::nat_text(d.floor());
    let low = decimal::low_digits(d.num, d.scale);
    lemma_digits_of_nat(d.floor());
    lemma_low_digits(d.num, d.scale);
    let t = d.text();
    if d.scale == 0 {
        let u = text::nat_text(d.num);
        lemma_digits_of_nat(d.num);
        text::lemma_next_char(u, '.', 0);
        assert(u.subrange(0, u.len() as int) =~= u);
    } else {
        assert(t =~= w.push('.') + low);
        assert forall|i: int| 0 <= i < w.len() implies t[i] != '.' by {
            assert(t[i] == w[i]);
            assert(text::is_digit(w[i]));
        }
        assert(t[w.len() as int] == '.');
        lemma_next_char_at(t, '.', 0, w.len());
        assert(t.subrange(0, w.len() as int) =~= w);
        assert(t.subrange(w.len() as int + 1, t.len() as int) =~= low);
        lemma_joined_digits(w, d.num, d.scale);
        assert(decimal::all_digits(low));
    }
}

/// Bringing a number into its form twice is bringing it there once.
pub proof fn law_numbers_are_done_once(n: Seq<char>)
    ensures
        literals::plain_number(literals::plain_number(n)) == literals::plain_number(n),
{
    match decimal::decimal_value(n) {
        Some(d) => {
            lemma_decimal_lowest(n);
            law_numbers_are_read_back(d);
        },
        None => {},
    }
}

pub(crate) proof fn lemma_decimal_lowest(n: Seq<char>)
    ensures
        match decimal::decimal_value(n) {
            Some(d) => d.lowest(),
            None => true,
        },
{
    let p = text::next_char(n, '.', 0);
    let whole = n.subrange(0, p as int);
    lemma_reduce_value(text::digits_value(whole), 0);
    if p < n.len() {
        let frac = n.subrange(p as int + 1, n.len() as int);
        lemma_reduce_value(text::digits_value(whole + frac), frac.len());
    } else {
        text::lemma_next_char(n, '.', 0);
    }
}

/// The case of a header name does not matter: paths that differ in nothing else
/// come to one path.
pub proof fn law_header_case_does_not_matter(
    parts: Seq<Seq<char>>,
    i: nat,
    name: Seq<char>,
)
    requires
        literals::http_index(parts, 0) == Some(i),
        text::lowercase(name) == text::lowercase(parts[i as int + 1]),
    ensures
        literals::lower_header(parts.update(i as int + 1, name)) == literals::lower_header(parts),
{
    lemma_http_index(parts, 0, i, name);
    let other = parts.update(i as int + 1, name);
    assert(literals::lower_header(other) =~= literals::lower_header(parts));
}

proof fn lemma_http_index(parts: Seq<Seq<char>>, from: nat, i: nat, name: Seq<char>)
    requires
        literals::http_index(parts, from) == Some(i),
    ensures
        from <= i && i + 1 < parts.len(),
        literals::http_index(parts.update(i as int + 1, name), from) == Some(i),
    decreases parts.len() - from,
{
    if from + 1 < parts.len() && parts[from as int] != "http"@ {
        lemma_http_index(parts, from + 1, i, name);
    }
}

} // verus!
