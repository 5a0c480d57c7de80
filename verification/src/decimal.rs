//! Exact non-negative decimal numbers of any length.
//!
//! A [`Decimal`] stands for `num / 10^scale` in lowest terms, so two decimals
//! are the same number exactly if their views are equal.

use crate::text;
use vstd::prelude::*;
use vstd::string::*;

verus! {

/// Ten to the power of `k`.
pub open spec fn pow10(k: nat) -> nat
    decreases k,
{
    if k == 0 {
        1
    } else {
        10 * pow10((k - 1) as nat)
    }
}

/// The number whose decimal digits are listed lowest first.
pub open spec fn low_first(s: Seq<u8>) -> nat
    decreases s.len(),
{
    if s.len() == 0 {
        0
    } else {
        s[0] as nat + 10 * low_first(s.drop_first())
    }
}

/// The number `num / 10^scale`.
#[verifier::ext_equal]
pub struct DecimalV {
    pub num: nat,
    pub scale: nat,
}

/// `num / 10^scale` in lowest terms.
pub open spec fn reduce(num: nat, scale: nat) -> DecimalV
    decreases scale,
{
    if scale > 0 && num % 10 == 0 {
        reduce(num / 10, (scale - 1) as nat)
    } else {
        DecimalV { num, scale }
    }
}

impl DecimalV {
    /// Whether the fraction is in lowest terms.
    pub open spec fn lowest(self) -> bool {
        self.scale > 0 ==> self.num % 10 != 0
    }

    /// The integer part.
    pub open spec fn floor(self) -> nat {
        self.num / pow10(self.scale)
    }

    /// The plain decimal numeral: the integer part and, unless the number is
    /// whole, a point and the fraction digits without trailing zeros.
    pub open spec fn text(self) -> Seq<char> {
        if self.scale == 0 {
            text::nat_text(self.num)
        } else {
            text::nat_text(self.floor()).push('.') + low_digits(self.num, self.scale)
        }
    }
}

/// The last `k` decimal digits of a number, with leading zeros.
pub open spec fn low_digits(num: nat, k: nat) -> Seq<char>
    decreases k,
{
    if k == 0 {
        seq![]
    } else {
        low_digits(num / 10, (k - 1) as nat).push(text::digit_char(num % 10))
    }
}

/// The number that a numeral denotes: digits, at least one, and optionally a
/// point with at least one more digit behind it.
pub open spec fn decimal_value(s: Seq<char>) -> Option<DecimalV> {
    let p = text::next_char(s, '.', 0);
    let whole = s.subrange(0, p as int);
    if p == s.len() {
        if all_digits(whole) {
            Some(reduce(text::digits_value(whole), 0))
        } else {
            None
        }
    } else {
        let frac = s.subrange(p as int + 1, s.len() as int);
        if all_digits(whole) && all_digits(frac) {
            Some(reduce(text::digits_value(whole + frac), frac.len()))
        } else {
            None
        }
    }
}

/// Whether the text is made of decimal digits, at least one.
pub open spec fn all_digits(s: Seq<char>) -> bool {
    s.len() > 0 && forall|i: int| 0 <= i < s.len() ==> text::is_digit(#[trigger] s[i])
}

proof fn lemma_pow10_pos(k: nat)
    ensures
        pow10(k) > 0,
    decreases k,
{
    if k > 0 {
        lemma_pow10_pos((k - 1) as nat);
    }
}

proof fn lemma_low_first_push(s: Seq<u8>, d: u8)
    ensures
        low_first(s.push(d)) == low_first(s) + pow10(s.len()) * d,
    decreases s.len(),
{
    let t = s.push(d);
    if s.len() == 0 {
        assert(t.drop_first() =~= Seq::<u8>::empty());
        assert(low_first(t) == t[0] as nat + 10 * low_first(t.drop_first()));
        assert(pow10(0) * d == d) by (nonlinear_arith)
            requires
                pow10(0) == 1,
        ;
    } else {
        assert(t.drop_first() =~= s.drop_first().push(d));
        lemma_low_first_push(s.drop_first(), d);
        let p = pow10((s.len() - 1) as nat);
        assert(10 * (p * d) == (10 * p) * d) by (nonlinear_arith);
    }
}

/// Digits, each below ten.
pub open spec fn digits_ok(s: Seq<u8>) -> bool {
    forall|i: int| 0 <= i < s.len() ==> #[trigger] s[i] < 10
}

proof fn lemma_low_first_split(s: Seq<u8>, k: nat)
    requires
        digits_ok(s),
        k <= s.len(),
    ensures
        low_first(s) == low_first(s.take(k as int)) + pow10(k) * low_first(s.skip(k as int)),
        low_first(s.take(k as int)) < pow10(k),
    decreases k,
{
    if k == 0 {
        assert(s.skip(0) =~= s);
        assert(pow10(0) * low_first(s) == low_first(s)) by (nonlinear_arith)
            requires
                pow10(0) == 1,
        ;
    } else {
        let t = s.drop_first();
        assert(digits_ok(t));
        lemma_low_first_split(t, (k - 1) as nat);
        assert(s.take(k as int).drop_first() =~= t.take(k - 1));
        assert(s.skip(k as int) =~= t.skip(k - 1));
        let p = pow10((k - 1) as nat);
        let x = low_first(t.skip(k - 1));
        assert(10 * (p * x) == (10 * p) * x) by (nonlinear_arith);
    }
}

proof fn lemma_floor(s: Seq<u8>, k: nat)
    requires
        digits_ok(s),
        k <= s.len(),
    ensures
        low_first(s) / pow10(k) == low_first(s.skip(k as int)),
{
    lemma_low_first_split(s, k);
    lemma_pow10_pos(k);
    let a = low_first(s.take(k as int)) as int;
    let p = pow10(k) as int;
    let x = low_first(s.skip(k as int)) as int;
    assert((a + p * x) / p == x) by (nonlinear_arith)
        requires
            0 <= a < p,
    ;
}

proof fn lemma_low_first_small(s: Seq<u8>, k: nat)
    requires
        digits_ok(s),
        s.len() <= k,
    ensures
        low_first(s) < pow10(k),
    decreases k,
{
    lemma_pow10_pos(k);
    if s.len() > 0 {
        lemma_low_first_small(s.drop_first(), (k - 1) as nat);
    }
}

/// The digits from the highest to index `from`, as characters.
spec fn high_first_text(s: Seq<u8>, from: nat) -> Seq<char>
    decreases s.len() - from,
{
    if from >= s.len() {
        seq![]
    } else {
        high_first_text(s, from + 1).push(text::digit_char(s[from as int] as nat))
    }
}

proof fn lemma_high_first_text(s: Seq<u8>, from: nat)
    requires
        digits_ok(s),
        from < s.len(),
        s.last() != 0,
    ensures
        high_first_text(s, from) == text::nat_text(low_first(s.skip(from as int))),
        low_first(s.skip(from as int)) > 0,
    decreases s.len() - from,
{
    let t = s.skip(from as int);
    if from + 1 == s.len() {
        assert(t.drop_first() =~= Seq::<u8>::empty());
        assert(low_first(t.drop_first()) == 0);
        assert(t[0] == s[from as int]);
        assert(low_first(t) == s[from as int] as nat + 10 * low_first(t.drop_first()));
        reveal_with_fuel(high_first_text, 2);
        assert(high_first_text(s, from) =~= text::nat_text(low_first(t)));
    } else {
        lemma_high_first_text(s, from + 1);
        assert(t.drop_first() =~= s.skip(from as int + 1));
        let d = s[from as int] as nat;
        let r = low_first(s.skip(from as int + 1));
        assert((d + 10 * r) / 10 == r && (d + 10 * r) % 10 == d) by (nonlinear_arith)
            requires
                0 <= d < 10,
        ;
    }
}

/// Canonical digit lists that denote the same number are the same list.
proof fn lemma_low_first_unique(a: Seq<u8>, b: Seq<u8>)
    requires
        digits_ok(a),
        digits_ok(b),
        a.len() > 0 ==> a.last() != 0,
        b.len() > 0 ==> b.last() != 0,
        low_first(a) == low_first(b),
    ensures
        a == b,
    decreases a.len(),
{
    if a.len() == 0 {
        if b.len() > 0 {
            lemma_high_first_text(b, 0);
            assert(b.skip(0) =~= b);
        }
        assert(a =~= b);
    } else if b.len() == 0 {
        lemma_high_first_text(a, 0);
        assert(a.skip(0) =~= a);
    } else {
        let ra = low_first(a.drop_first());
        let rb = low_first(b.drop_first());
        assert(a[0] == b[0] && ra == rb);
        lemma_low_first_unique(a.drop_first(), b.drop_first());
        assert(a =~= seq![a[0]] + a.drop_first());
        assert(b =~= seq![b[0]] + b.drop_first());
    }
}

/// An exact non-negative decimal number.
#[derive(Debug, PartialEq)]
pub struct Decimal {
    /// Decimal digits, lowest first, the highest one not zero.
    digits: Vec<u8>,
    /// How many of the digits stand behind the decimal point.
    scale: usize,
}

impl View for Decimal {
    type V = DecimalV;

    closed spec fn view(&self) -> DecimalV {
        DecimalV { num: low_first(self.digits@), scale: self.scale as nat }
    }
}

impl Clone for Decimal {
    fn clone(&self) -> (r: Self)
        ensures
            r@ == self@,
    {
        proof {
            use_type_invariant(self);
        }
        let mut digits: Vec<u8> = Vec::new();
        let mut i: usize = 0;
        while i < self.digits.len()
            invariant
                i <= self.digits.len(),
                digits@ == self.digits@.take(i as int),
            decreases self.digits.len() - i,
        {
            digits.push(self.digits[i]);
            i += 1;
        }
        assert(digits@ =~= self.digits@);
        Decimal { digits, scale: self.scale }
    }
}

impl Decimal {
    #[verifier::type_invariant]
    spec fn inv(self) -> bool {
        &&& digits_ok(self.digits@)
        &&& self.digits@.len() > 0 ==> self.digits@.last() != 0
        &&& self@.lowest()
    }

    /// Builds `low_first(digits) / 10^scale` in lowest terms.
    fn from_parts(digits: Vec<u8>, scale: usize) -> (r: Decimal)
        requires
            digits_ok(digits@),
        ensures
            r@ == reduce(low_first(digits@), scale as nat),
    {
        let mut skip: usize = 0;
        let mut rest: usize = scale;
        proof {
            assert(digits@.skip(0) =~= digits@);
        }
        while rest > 0 && (skip >= digits.len() || digits[skip] == 0)
            invariant
                digits_ok(digits@),
                skip <= digits.len(),
                reduce(low_first(digits@.skip(skip as int)), rest as nat) == reduce(
                    low_first(digits@),
                    scale as nat,
                ),
            ensures
                skip <= digits.len(),
                reduce(low_first(digits@.skip(skip as int)), rest as nat) == reduce(
                    low_first(digits@),
                    scale as nat,
                ),
                rest == 0 || (skip < digits.len() && digits@[skip as int] != 0),
            decreases rest,
        {
            let ghost t = digits@.skip(skip as int);
            if skip < digits.len() {
                assert(t[0] == 0);
                assert(t.drop_first() =~= digits@.skip(skip + 1));
                skip += 1;
            } else {
                assert(low_first(t) == 0);
            }
            rest -= 1;
        }
        let mut high: usize = digits.len();
        while high > skip && digits[high - 1] == 0
            invariant
                digits_ok(digits@),
                skip <= high <= digits.len(),
                low_first(digits@.subrange(skip as int, high as int)) == low_first(
                    digits@.skip(skip as int),
                ),
            decreases high,
        {
            proof {
                let t = digits@.subrange(skip as int, high as int);
                lemma_low_first_push(t.drop_last(), t.last());
                assert(t.drop_last().push(t.last()) =~= t);
                assert(pow10(t.drop_last().len()) * 0 == 0) by (nonlinear_arith);
                assert(t.drop_last() =~= digits@.subrange(skip as int, high - 1));
            }
            high -= 1;
        }
        let mut out: Vec<u8> = Vec::new();
        let mut i: usize = skip;
        while i < high
            invariant
                skip <= i <= high <= digits.len(),
                out@ == digits@.subrange(skip as int, i as int),
            decreases high - i,
        {
            out.push(digits[i]);
            i += 1;
            assert(out@ =~= digits@.subrange(skip as int, i as int));
        }
        proof {
            let n = low_first(out@);
            if rest > 0 {
                assert(digits@.skip(skip as int)[0] != 0);
                assert(n % 10 != 0) by {
                    let s = digits@.skip(skip as int);
                    let d = s[0] as nat;
                    let r = low_first(s.drop_first());
                    assert(n == d + 10 * r);
                }
            }
            assert(reduce(n, rest as nat) == (DecimalV { num: n, scale: rest as nat }));
        }
        Decimal { digits: out, scale: rest }
    }

    /// Reads a numeral: digits, at least one, and optionally a point with at
    /// least one more digit behind it.
    pub fn parse(text: &str) -> (r: Option<Decimal>)
        ensures
            match r {
                Some(d) => decimal_value(text@) == Some(d@),
                None => decimal_value(text@) is None,
            },
    {
        let v = text::to_chars(text);
        let p: usize = text::find_char(&v, '.', 0);
        let ghost s = text@;
        let ghost whole = s.subrange(0, p as int);
        if !Self::digits_between(&v, 0, p) {
            return None;
        }
        proof {
            assert forall|i: int| 0 <= i < p implies text::is_digit(#[trigger] v@[i]) by {
                assert(whole[i] == v@[i]);
            }
        }
        if p == v.len() {
            let digits = Self::collect_digits(&v, p);
            proof {
                assert(whole + Seq::<char>::empty() =~= whole);
                assert(s.subrange(p as int, s.len() as int) =~= Seq::<char>::empty());
                assert(whole =~= without(s, p as int));
            }
            return Some(Self::from_parts(digits, 0));
        }
        if !Self::digits_between(&v, p + 1, v.len()) {
            return None;
        }
        proof {
            let frac = s.subrange(p + 1, s.len() as int);
            assert forall|i: int| 0 <= i < v.len() && i != p implies text::is_digit(
                #[trigger] v@[i],
            ) by {
                if i > p {
                    assert(frac[i - p - 1] == v@[i]);
                }
            }
        }
        let digits = Self::collect_digits(&v, p);
        proof {
            assert(whole + s.subrange(p + 1, s.len() as int) =~= without(s, p as int));
        }
        Some(Self::from_parts(digits, v.len() - p - 1))
    }

    /// Whether the characters from `lo` to `hi` are digits, at least one.
    fn digits_between(v: &Vec<char>, lo: usize, hi: usize) -> (r: bool)
        requires
            lo <= hi <= v.len(),
        ensures
            r == all_digits(v@.subrange(lo as int, hi as int)),
    {
        let ghost t = v@.subrange(lo as int, hi as int);
        if lo == hi {
            return false;
        }
        let mut i: usize = lo;
        while i < hi
            invariant
                lo <= i <= hi <= v.len(),
                t == v@.subrange(lo as int, hi as int),
                forall|j: int| 0 <= j < i - lo ==> text::is_digit(#[trigger] t[j]),
            decreases hi - i,
        {
            if v[i] < '0' || v[i] > '9' {
                assert(!text::is_digit(t[i - lo]));
                return false;
            }
            i += 1;
        }
        true
    }

    /// The digits of a numeral without its point at `p`, lowest first.
    fn collect_digits(v: &Vec<char>, p: usize) -> (r: Vec<u8>)
        requires
            p <= v.len(),
            forall|i: int| 0 <= i < v.len() && i != p ==> text::is_digit(#[trigger] v@[i]),
        ensures
            digits_ok(r@),
            low_first(r@) == text::digits_value(without(v@, p as int)),
    {
        let mut out: Vec<u8> = Vec::new();
        let mut i: usize = v.len();
        let ghost w = without(v@, p as int);
        let ghost mut k: int = w.len() as int;
        proof {
            assert(w.skip(k) =~= Seq::<char>::empty());
        }
        while i > 0
            invariant
                p <= v.len(),
                i <= v.len(),
                w == without(v@, p as int),
                forall|j: int| 0 <= j < v.len() && j != p ==> text::is_digit(#[trigger] v@[j]),
                digits_ok(out@),
                k == (if i > p { i - 1 } else { i as int }),
                out@.len() == w.len() - k,
                0 <= k <= w.len(),
                forall|j: int| 0 <= j < out@.len() ==> (#[trigger] out@[j]) as nat == (w[w.len() - 1
                    - j] as nat - '0' as nat),
            decreases i,
        {
            i -= 1;
            if i != p {
                assert(text::is_digit(v@[i as int]));
                out.push((v[i] as u32 - '0' as u32) as u8);
                proof {
                    k = k - 1;
                }
            }
        }
        proof {
            lemma_reversed_digits(out@, w);
        }
        out
    }

    /// The number times a small factor.
    pub fn times(&self, factor: u32) -> (r: Decimal)
        ensures
            r@ == reduce(self@.num * factor as nat, self@.scale),
    {
        let digits = self.product(factor as u64);
        Self::from_parts(digits, self.scale)
    }

    /// The digits of the numerator times a small factor.
    fn product(&self, factor: u64) -> (r: Vec<u8>)
        requires
            factor <= 0x100_0000_0000,
        ensures
            digits_ok(r@),
            low_first(r@) == self@.num * factor as nat,
    {
        proof {
            use_type_invariant(self);
        }
        let mut out: Vec<u8> = Vec::new();
        let mut carry: u64 = 0;
        let mut i: usize = 0;
        let ghost ds = self.digits@;
        proof {
            assert(low_first(ds.take(0)) * factor as nat == 0) by (nonlinear_arith)
                requires
                    low_first(ds.take(0)) == 0,
            ;
            assert(pow10(0) * 0 == 0);
        }
        while i < self.digits.len()
            invariant
                i <= self.digits.len(),
                ds == self.digits@,
                digits_ok(ds),
                digits_ok(out@),
                factor <= 0x100_0000_0000,
                carry <= factor,
                out.len() == i,
                low_first(out@) + pow10(i as nat) * carry as nat == low_first(ds.take(i as int))
                    * factor as nat,
            decreases self.digits.len() - i,
        {
            let d: u64 = self.digits[i] as u64;
            assert(d * factor + carry <= 9 * factor + factor) by (nonlinear_arith)
                requires
                    d <= 9,
                    carry <= factor,
                    0 <= factor,
            ;
            assert(d * factor >= 0) by (nonlinear_arith);
            let t: u64 = d * factor + carry;
            let ghost before = out@;
            proof {
                lemma_low_first_push(out@, (t % 10) as u8);
                assert(ds.take(i + 1) =~= ds.take(i as int).push(ds[i as int]));
                lemma_low_first_push(ds.take(i as int), ds[i as int]);
                let p = pow10(i as nat) as int;
                let a = low_first(out@) as int;
                let b = low_first(ds.take(i as int)) as int;
                lemma_product_step(p, a, b, d as int, factor as int, carry as int, t as int);
            }
            out.push((t % 10) as u8);
            carry = t / 10;
            i += 1;
        }
        assert(ds.take(i as int) =~= ds);
        while carry > 0
            invariant
                digits_ok(out@),
                low_first(out@) + pow10(out@.len()) * carry as nat == low_first(ds) * factor as nat,
            decreases carry,
        {
            proof {
                lemma_low_first_push(out@, (carry % 10) as u8);
                let p = pow10(out@.len()) as int;
                let c = carry as int;
                assert(p * (c % 10) + (10 * p) * (c / 10) == p * c) by (nonlinear_arith);
            }
            out.push((carry % 10) as u8);
            carry = carry / 10;
        }
        proof {
            assert(pow10(out@.len()) * 0 == 0) by (nonlinear_arith);
        }
        out
    }

    /// Whether the number can be divided by `10^k`: the count of its fraction
    /// digits stays in range.
    pub fn has_room(&self, k: usize) -> (r: bool)
        ensures
            r == (self@.scale + k <= usize::MAX),
    {
        self.scale <= usize::MAX - k
    }

    /// The number divided by `10^k`.
    pub fn shifted(&self, k: usize) -> (r: Decimal)
        requires
            self@.scale + k <= usize::MAX,
        ensures
            r@ == reduce(self@.num, self@.scale + k as nat),
    {
        proof {
            use_type_invariant(self);
            assert(self@.num * 1 == self@.num);
        }
        let digits = self.product(1);
        Self::from_parts(digits, self.scale + k)
    }

    /// The integer part of the number times a factor, or `u64::MAX` where that
    /// is larger.
    pub fn floor_times(&self, factor: u64) -> (r: u64)
        requires
            factor <= 0x100_0000_0000,
        ensures
            r as nat == (if (self@.num * factor as nat) / pow10(self@.scale) <= u64::MAX {
                (self@.num * factor as nat) / pow10(self@.scale)
            } else {
                u64::MAX as nat
            }),
    {
        let digits = self.product(factor);
        Self::saturated(&digits, self.scale)
    }

    /// The number that is left of the digits without the lowest `scale` ones,
    /// or `u64::MAX` where that is larger.
    fn saturated(digits: &Vec<u8>, scale: usize) -> (r: u64)
        requires
            digits_ok(digits@),
        ensures
            r as nat == (if low_first(digits@) / pow10(scale as nat) <= u64::MAX {
                low_first(digits@) / pow10(scale as nat)
            } else {
                u64::MAX as nat
            }),
    {
        if scale >= digits.len() {
            proof {
                lemma_low_first_small(digits@, scale as nat);
                let a = low_first(digits@) as int;
                let p = pow10(scale as nat) as int;
                assert(a / p == 0) by (nonlinear_arith)
                    requires
                        0 <= a < p,
                ;
            }
            return 0;
        }
        proof {
            lemma_floor(digits@, scale as nat);
        }
        let mut v: u64 = 0;
        let mut i: usize = digits.len();
        assert(digits@.skip(i as int) =~= Seq::<u8>::empty());
        while i > scale
            invariant
                scale <= i <= digits.len(),
                digits_ok(digits@),
                v as nat == (if low_first(digits@.skip(i as int)) <= u64::MAX {
                    low_first(digits@.skip(i as int))
                } else {
                    u64::MAX as nat
                }),
            decreases i,
        {
            i -= 1;
            let d: u64 = digits[i] as u64;
            let ghost t = digits@.skip(i as int);
            assert(t.drop_first() =~= digits@.skip(i + 1));
            assert(low_first(t) == d + 10 * low_first(digits@.skip(i + 1)));
            v = if v > (u64::MAX - d) / 10 {
                u64::MAX
            } else {
                v * 10 + d
            };
        }
        v
    }

    /// The integer part, or `u64::MAX` where that is larger.
    pub fn floor(&self) -> (r: u64)
        ensures
            r as nat == (if self@.floor() <= u64::MAX {
                self@.floor()
            } else {
                u64::MAX as nat
            }),
    {
        proof {
            use_type_invariant(self);
        }
        Self::saturated(&self.digits, self.scale)
    }

    /// Whether the number is whole.
    pub fn is_whole(&self) -> (r: bool)
        ensures
            r == (self@.scale == 0),
    {
        self.scale == 0
    }

    /// The plain decimal numeral.
    pub fn text(&self) -> (r: String)
        ensures
            r@ == self@.text(),
    {
        proof {
            use_type_invariant(self);
        }
        let mut s = String::new();
        let ghost ds = self.digits@;
        let n: usize = self.digits.len();
        if self.scale >= n {
            s.push('0');
            proof {
                lemma_low_first_small(ds, self.scale as nat);
                let a = low_first(ds) as int;
                let p = pow10(self.scale as nat) as int;
                assert(a / p == 0) by (nonlinear_arith)
                    requires
                        0 <= a < p,
                ;
                assert(s@ =~= text::nat_text(0));
                if self.scale == 0 {
                    assert(low_first(ds) == 0);
                }
            }
        } else {
            let mut i: usize = n;
            while i > self.scale
                invariant
                    self.scale <= i <= n,
                    n == self.digits.len(),
                    ds == self.digits@,
                    digits_ok(ds),
                    s@ == high_first_text(ds, i as nat),
                decreases i,
            {
                i -= 1;
                s.push(text::digit(self.digits[i]));
            }
            proof {
                lemma_high_first_text(ds, self.scale as nat);
                lemma_floor(ds, self.scale as nat);
                if self.scale == 0 {
                    assert(ds.skip(0) =~= ds);
                }
            }
        }
        if self.scale > 0 {
            s.push('.');
            let ghost head = s@;
            let mut i: usize = self.scale;
            proof {
                lemma_low_digits_upto(ds, self.scale as nat);
            }
            while i > 0
                invariant
                    i <= self.scale,
                    n == self.digits.len(),
                    ds == self.digits@,
                    digits_ok(ds),
                    s@ == head + fraction_upto(ds, self.scale as nat, i as nat),
                decreases i,
            {
                i -= 1;
                if i < n {
                    s.push(text::digit(self.digits[i]));
                } else {
                    s.push('0');
                }
                assert(s@ =~= head + fraction_upto(ds, self.scale as nat, i as nat));
            }
        }
        s
    }

    /// Whether two decimals are the same number.
    pub fn same(&self, other: &Decimal) -> (r: bool)
        ensures
            r == (self@ == other@),
    {
        proof {
            use_type_invariant(self);
            use_type_invariant(other);
            if self@ == other@ {
                lemma_low_first_unique(self.digits@, other.digits@);
            }
        }
        if self.scale != other.scale || self.digits.len() != other.digits.len() {
            return false;
        }
        let mut i: usize = 0;
        while i < self.digits.len()
            invariant
                i <= self.digits.len(),
                self.digits.len() == other.digits.len(),
                forall|j: int| 0 <= j < i ==> self.digits@[j] == other.digits@[j],
                self@ == other@ ==> self.digits@ == other.digits@,
            decreases self.digits.len() - i,
        {
            if self.digits[i] != other.digits[i] {
                return false;
            }
            i += 1;
        }
        assert(self.digits@ =~= other.digits@);
        true
    }
}

/// The characters without the one at `p`.
spec fn without(s: Seq<char>, p: int) -> Seq<char> {
    if p < s.len() {
        s.subrange(0, p) + s.subrange(p + 1, s.len() as int)
    } else {
        s
    }
}

proof fn lemma_reversed_digits(d: Seq<u8>, w: Seq<char>)
    requires
        d.len() == w.len(),
        forall|j: int| 0 <= j < d.len() ==> (#[trigger] d[j]) as nat == (w[w.len() - 1 - j] as nat
            - '0' as nat),
    ensures
        low_first(d) == text::digits_value(w),
    decreases w.len(),
{
    if w.len() > 0 {
        let e = d.drop_first();
        let x = w.drop_last();
        assert forall|j: int| 0 <= j < e.len() implies (#[trigger] e[j]) as nat == (x[x.len() - 1
            - j] as nat - '0' as nat) by {
            assert(e[j] == d[j + 1]);
        }
        lemma_reversed_digits(e, x);
        assert(d[0] as nat == (w[w.len() - 1] as nat - '0' as nat));
    }
}

proof fn lemma_product_step(p: int, a: int, b: int, d: int, f: int, c: int, t: int)
    requires
        a + p * c == b * f,
        t == d * f + c,
    ensures
        (a + p * (t % 10)) + (10 * p) * (t / 10) == (b + p * d) * f,
{
    assert(p * (t % 10) + (10 * p) * (t / 10) == p * t) by (nonlinear_arith);
    assert(p * t == p * (d * f) + p * c) by (nonlinear_arith)
        requires
            t == d * f + c,
    ;
    assert((b + p * d) * f == b * f + p * (d * f)) by (nonlinear_arith);
}

/// The fraction digits at index `to` and above, highest first.
spec fn fraction_upto(ds: Seq<u8>, scale: nat, to: nat) -> Seq<char>
    decreases scale - to,
{
    if to >= scale {
        seq![]
    } else {
        fraction_upto(ds, scale, to + 1).push(
            text::digit_char(
                if to < ds.len() {
                    ds[to as int] as nat
                } else {
                    0
                },
            ),
        )
    }
}

proof fn lemma_low_digits_upto(ds: Seq<u8>, scale: nat)
    requires
        digits_ok(ds),
    ensures
        fraction_upto(ds, scale, 0) == low_digits(low_first(ds), scale),
{
    assert(ds.skip(0) =~= ds);
    lemma_low_digits_from(ds, scale, 0);
}

proof fn lemma_low_digits_from(ds: Seq<u8>, scale: nat, to: nat)
    requires
        digits_ok(ds),
        to <= scale,
    ensures
        fraction_upto(ds, scale, to) == low_digits(
            if to <= ds.len() {
                low_first(ds.skip(to as int))
            } else {
                0
            },
            (scale - to) as nat,
        ),
    decreases scale - to,
{
    if to < scale {
        lemma_low_digits_from(ds, scale, to + 1);
        if to < ds.len() {
            let t = ds.skip(to as int);
            assert(t.drop_first() =~= ds.skip(to as int + 1));
            let d = t[0] as nat;
            let r = low_first(t.drop_first());
            assert((d + 10 * r) / 10 == r && (d + 10 * r) % 10 == d) by (nonlinear_arith)
                requires
                    0 <= d < 10,
            ;
        } else if to == ds.len() {
            assert(low_first(ds.skip(to as int)) == 0);
        }
    }
}

} // verus!
