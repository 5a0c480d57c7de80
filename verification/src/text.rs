//! Text helpers: slices of UTF-8 text by byte offset, decimal numerals,
//! joining, splitting and trimming, each with its mathematical counterpart on
//! character sequences.

use vstd::prelude::*;
use vstd::string::*;
use vstd::utf8::*;

verus! {

// ───────────────────────── trusted std functions ─────────────────────────

/// `String::push` appends one character to the end of the string.
pub assume_specification[ String::push ](s: &mut String, c: char)
    ensures
        final(s)@ == old(s)@.push(c),
;

/// Whether a character has the Unicode property `White_Space`.
pub open spec fn white_space(c: char) -> bool {
    ||| '\u{9}' <= c <= '\u{d}'
    ||| c == ' '
    ||| c == '\u{85}'
    ||| c == '\u{a0}'
    ||| c == '\u{1680}'
    ||| '\u{2000}' <= c <= '\u{200a}'
    ||| c == '\u{2028}'
    ||| c == '\u{2029}'
    ||| c == '\u{202f}'
    ||| c == '\u{205f}'
    ||| c == '\u{3000}'
}

/// `char::is_whitespace` holds of the characters with the property
/// `White_Space`, which are those of [`white_space`].
#[verifier::external_body]
pub(crate) fn is_white_space(c: char) -> (r: bool)
    ensures
        r == white_space(c),
{
    c.is_whitespace()
}

/// The text that `{:?}` writes for a character.
pub uninterp spec fn char_debug(c: char) -> Seq<char>;

/// `format!("{:?}", c)` on a character, by std's `Debug` for `char`; the text
/// is [`char_debug`].
#[verifier::external_body]
pub(crate) fn debug_char(c: char) -> (r: String)
    ensures
        r@ == char_debug(c),
{
    format!("{:?}", c)
}

/// The text that `{:?}` writes for a string.
pub uninterp spec fn str_debug(s: Seq<char>) -> Seq<char>;

/// `format!("{:?}", s)` on a string, by std's `Debug` for `str`; the text is
/// [`str_debug`].
#[verifier::external_body]
pub(crate) fn debug_str(s: &str) -> (r: String)
    ensures
        r@ == str_debug(s@),
{
    format!("{:?}", s)
}

/// Whether a text holds ASCII characters only.
pub open spec fn is_ascii_text(s: Seq<char>) -> bool {
    forall|i: int| 0 <= i < s.len() ==> (#[trigger] s[i]) < '\u{80}'
}

/// An ASCII character in lower case.
pub open spec fn ascii_lower(c: char) -> char {
    if 'A' <= c <= 'Z' {
        ((c as nat) + 32) as char
    } else {
        c
    }
}

/// The text that `str::to_lowercase` gives for a text that is not ASCII (Unicode
/// lower-casing).
pub uninterp spec fn unicode_lowercase(s: Seq<char>) -> Seq<char>;

/// A text in lower case.
pub open spec fn lowercase(s: Seq<char>) -> Seq<char> {
    if is_ascii_text(s) {
        s.map_values(|c: char| ascii_lower(c))
    } else {
        unicode_lowercase(s)
    }
}

/// `str::to_lowercase`: on ASCII text the letters `A` to `Z` become `a` to `z`
/// and all else stays; the text for any other is [`unicode_lowercase`].
#[verifier::external_body]
pub(crate) fn to_lower(s: &str) -> (r: String)
    ensures
        is_ascii_text(s@) ==> r@ == s@.map_values(|c: char| ascii_lower(c)),
        !is_ascii_text(s@) ==> r@ == unicode_lowercase(s@),
{
    s.to_lowercase()
}

/// ASCII text in lower case stays as it is in lower case.
pub proof fn law_lower_case_is_lower_case(s: Seq<char>)
    requires
        is_ascii_text(s),
    ensures
        is_ascii_text(lowercase(s)),
        lowercase(lowercase(s)) == lowercase(s),
{
    let t = lowercase(s);
    assert forall|i: int| 0 <= i < t.len() implies (#[trigger] t[i]) < '\u{80}' && ascii_lower(t[i])
        == t[i] by {
        let c = s[i];
        assert(c < '\u{80}');
        assert(t[i] == ascii_lower(c));
        if 'A' <= c <= 'Z' {
            assert(t[i] as nat == c as nat + 32);
        }
    }
    assert(lowercase(t) =~= t);
}

// ───────────────────────── bytes and slices ─────────────────────────

/// The text that the bytes from `lo` to `hi` encode.
pub open spec fn text_of(b: Seq<u8>, lo: int, hi: int) -> Seq<char> {
    decode_utf8(b.subrange(lo, hi))
}

/// An ASCII byte of valid UTF-8 starts a character, and the next one starts
/// right behind it.
pub(crate) proof fn lemma_ascii_boundary(b: Seq<u8>, p: int)
    requires
        valid_utf8(b),
        0 <= p < b.len(),
        b[p] < 128,
    ensures
        is_char_boundary(b, p),
        is_char_boundary(b, p + 1),
    decreases b.len(),
{
    let c: u8 = b[p];
    assert(c < 128 ==> (c & 0x80 == 0 && !(c & 0xC0 == 0x80))) by (bit_vector);
    if p == 0 {
        reveal_with_fuel(is_char_boundary, 3);
        assert(is_leading_byte_width_1(b[0]));
        assert(length_of_first_scalar(b) == 1);
        is_char_boundary_start_end_of_seq(pop_first_scalar(b));
    } else {
        is_char_boundary_iff_not_is_continuation_byte(b, p);
        let n = length_of_first_scalar(b);
        let tail = pop_first_scalar(b);
        assert(is_char_boundary(tail, p - n));
        if p < n {
            assert(p - n < 0);
            assert(!is_char_boundary(tail, p - n));
        }
        assert(tail[p - n] == b[p]);
        lemma_ascii_boundary(tail, p - n);
    }
}

/// Where a character of some bytes starts, it also starts in the tail that
/// holds it.
pub(crate) proof fn lemma_boundary_in_tail(b: Seq<u8>, lo: int, p: int)
    requires
        valid_utf8(b),
        valid_utf8(b.subrange(lo, b.len() as int)),
        0 <= lo <= p <= b.len(),
        is_char_boundary(b, p),
    ensures
        is_char_boundary(b.subrange(lo, b.len() as int), p - lo),
{
    let t = b.subrange(lo, b.len() as int);
    if p == b.len() {
        is_char_boundary_start_end_of_seq(t);
    } else {
        is_char_boundary_iff_not_is_continuation_byte(b, p);
        is_char_boundary_iff_not_is_continuation_byte(t, p - lo);
    }
}

/// Whether two strings hold the same characters.
pub fn str_eq(a: &str, b: &str) -> (r: bool)
    ensures
        r == (a@ == b@),
{
    let x = a.as_bytes();
    let y = b.as_bytes();
    proof {
        encode_utf8_decode_utf8(a@);
        encode_utf8_decode_utf8(b@);
    }
    if x.len() != y.len() {
        return false;
    }
    let mut i: usize = 0;
    while i < x.len()
        invariant
            i <= x.len(),
            x.len() == y.len(),
            x@ == encode_utf8(a@),
            y@ == encode_utf8(b@),
            forall|j: int| 0 <= j < i ==> x@[j] == y@[j],
        decreases x.len() - i,
    {
        if x[i] != y[i] {
            assert(x@[i as int] != y@[i as int]);
            return false;
        }
        i += 1;
    }
    assert(x@ =~= y@);
    true
}

/// The text between two character boundaries of `s`, given by byte offset.
pub fn slice_text(s: &str, lo: usize, hi: usize) -> (r: String)
    requires
        lo <= hi <= s.spec_bytes().len(),
        is_char_boundary(s.spec_bytes(), lo as int),
        is_char_boundary(s.spec_bytes(), hi as int),
    ensures
        r@ == text_of(s.spec_bytes(), lo as int, hi as int),
{
    let ghost b = s.spec_bytes();
    proof {
        encode_utf8_valid_utf8(s@);
        valid_utf8_split(b, lo as int);
        lemma_boundary_in_tail(b, lo as int, hi as int);
    }
    let (_, tail) = s.split_at(lo);
    proof {
        assert(tail.spec_bytes() =~= b.subrange(lo as int, b.len() as int));
    }
    let (mid, _) = tail.split_at(hi - lo);
    proof {
        assert(mid.spec_bytes() =~= b.subrange(lo as int, hi as int));
        encode_utf8_decode_utf8(mid@);
    }
    mid.to_owned()
}

/// The characters of a string, one by one.
pub fn to_chars(s: &str) -> (r: Vec<char>)
    ensures
        r@ == s@,
{
    let mut v: Vec<char> = Vec::new();
    for c in it: s.chars()
        invariant
            it.seq() == s@,
            v@ == s@.take(it.index() as int),
    {
        v.push(c);
    }
    v
}

/// The string made of the characters from `lo` to `hi`.
pub fn from_chars(v: &Vec<char>, lo: usize, hi: usize) -> (r: String)
    requires
        lo <= hi <= v.len(),
    ensures
        r@ == v@.subrange(lo as int, hi as int),
{
    let mut s = String::new();
    let mut i: usize = lo;
    while i < hi
        invariant
            lo <= i <= hi <= v.len(),
            s@ == v@.subrange(lo as int, i as int),
        decreases hi - i,
    {
        s.push(v[i]);
        i += 1;
        assert(s@ =~= v@.subrange(lo as int, i as int));
    }
    s
}

// ───────────────────────── lists of texts ─────────────────────────

/// The texts that a list of strings holds.
pub open spec fn texts(s: Seq<String>) -> Seq<Seq<char>> {
    Seq::new(s.len(), |i: int| s[i]@)
}

/// The text that an optional string holds.
pub open spec fn opt_text(s: Option<String>) -> Option<Seq<char>> {
    match s {
        Some(t) => Some(t@),
        None => None,
    }
}

pub broadcast proof fn lemma_texts_push(s: Seq<String>, t: String)
    ensures
        #[trigger] texts(s.push(t)) == texts(s).push(t@),
{
    assert(texts(s.push(t)) =~= texts(s).push(t@));
}

pub broadcast proof fn lemma_texts_add(s: Seq<String>, t: Seq<String>)
    ensures
        #[trigger] texts(s + t) == texts(s) + texts(t),
{
    assert(texts(s + t) =~= texts(s) + texts(t));
}

/// The first `n` parts, one after the other, with `sep` between neighbours.
pub open spec fn join_first(parts: Seq<Seq<char>>, sep: Seq<char>, n: nat) -> Seq<char>
    decreases n,
{
    if n == 0 {
        seq![]
    } else if n == 1 {
        parts[0]
    } else {
        join_first(parts, sep, (n - 1) as nat) + sep + parts[n - 1]
    }
}

/// All parts, one after the other, with `sep` between neighbours.
pub open spec fn join(parts: Seq<Seq<char>>, sep: Seq<char>) -> Seq<char> {
    join_first(parts, sep, parts.len())
}

/// Joins the strings, with `sep` between neighbours.
pub fn join_strings(parts: &Vec<String>, sep: &str) -> (r: String)
    ensures
        r@ == join(texts(parts@), sep@),
{
    let mut s = String::new();
    let mut i: usize = 0;
    while i < parts.len()
        invariant
            i <= parts.len(),
            s@ == join_first(texts(parts@), sep@, i as nat),
        decreases parts.len() - i,
    {
        if i > 0 {
            s.append(sep);
        }
        s.append(parts[i].as_str());
        i += 1;
        proof {
            reveal_with_fuel(join_first, 2);
            assert(s@ =~= join_first(texts(parts@), sep@, i as nat));
        }
    }
    s
}

/// Whether some string of the list holds exactly this text.
pub fn contains_text(list: &Vec<String>, t: &str) -> (r: bool)
    ensures
        r == texts(list@).contains(t@),
{
    let mut i: usize = 0;
    while i < list.len()
        invariant
            i <= list.len(),
            forall|j: int| 0 <= j < i ==> texts(list@)[j] != t@,
        decreases list.len() - i,
    {
        if str_eq(list[i].as_str(), t) {
            assert(texts(list@)[i as int] == t@);
            return true;
        }
        i += 1;
    }
    false
}

/// A copy of the list, text by text.
pub fn clone_texts(list: &Vec<String>) -> (r: Vec<String>)
    ensures
        texts(r@) == texts(list@),
{
    let mut out: Vec<String> = Vec::new();
    let mut i: usize = 0;
    while i < list.len()
        invariant
            i <= list.len(),
            out.len() == i,
            forall|j: int| 0 <= j < i ==> (#[trigger] out@[j])@ == list@[j]@,
        decreases list.len() - i,
    {
        out.push(list[i].clone());
        i += 1;
    }
    assert(texts(out@) =~= texts(list@));
    out
}

/// A copy of an optional string.
pub fn clone_opt_text(s: &Option<String>) -> (r: Option<String>)
    ensures
        opt_text(r) == opt_text(*s),
{
    match s {
        Some(t) => Some(t.clone()),
        None => None,
    }
}

/// Whether two lists hold the same texts in the same order.
pub fn texts_eq(a: &Vec<String>, b: &Vec<String>) -> (r: bool)
    ensures
        r == (texts(a@) == texts(b@)),
{
    if a.len() != b.len() {
        assert(texts(a@).len() != texts(b@).len());
        return false;
    }
    let mut i: usize = 0;
    while i < a.len()
        invariant
            i <= a.len(),
            a.len() == b.len(),
            forall|j: int| 0 <= j < i ==> (#[trigger] a@[j])@ == b@[j]@,
        decreases a.len() - i,
    {
        if !str_eq(a[i].as_str(), b[i].as_str()) {
            assert(texts(a@)[i as int] != texts(b@)[i as int]);
            return false;
        }
        i += 1;
    }
    assert(texts(a@) =~= texts(b@));
    true
}

/// Whether two optional strings hold the same text, or both nothing.
pub fn opt_text_eq(a: &Option<String>, b: &Option<String>) -> (r: bool)
    ensures
        r == (opt_text(*a) == opt_text(*b)),
{
    match (a, b) {
        (Some(x), Some(y)) => str_eq(x.as_str(), y.as_str()),
        (None, None) => true,
        _ => false,
    }
}

// ───────────────────────── prefixes and characters ─────────────────────────

/// Whether `s` begins with `p`.
pub open spec fn begins_with(s: Seq<char>, p: Seq<char>) -> bool {
    p.len() <= s.len() && s.subrange(0, p.len() as int) == p
}

/// Whether `s` begins with `p`.
pub fn starts_with(s: &str, p: &str) -> (r: bool)
    ensures
        r == begins_with(s@, p@),
{
    let x = to_chars(s);
    let y = to_chars(p);
    if y.len() > x.len() {
        return false;
    }
    let mut i: usize = 0;
    while i < y.len()
        invariant
            i <= y.len() <= x.len(),
            x@ == s@,
            y@ == p@,
            forall|j: int| 0 <= j < i ==> x@[j] == y@[j],
        decreases y.len() - i,
    {
        if x[i] != y[i] {
            assert(s@.subrange(0, p@.len() as int)[i as int] != p@[i as int]);
            return false;
        }
        i += 1;
    }
    assert(s@.subrange(0, p@.len() as int) =~= p@);
    true
}

/// Whether the character occurs in the text.
pub fn contains_char(s: &str, c: char) -> (r: bool)
    ensures
        r == s@.contains(c),
{
    let x = to_chars(s);
    let mut i: usize = 0;
    while i < x.len()
        invariant
            i <= x.len(),
            x@ == s@,
            forall|j: int| 0 <= j < i ==> x@[j] != c,
        decreases x.len() - i,
    {
        if x[i] == c {
            assert(s@[i as int] == c);
            return true;
        }
        i += 1;
    }
    false
}

/// `n` copies of the text, one after the other.
pub open spec fn repeated(t: Seq<char>, n: nat) -> Seq<char>
    decreases n,
{
    if n == 0 {
        seq![]
    } else {
        repeated(t, (n - 1) as nat) + t
    }
}

/// `n` copies of the text, one after the other.
pub fn repeat(t: &str, n: usize) -> (r: String)
    ensures
        r@ == repeated(t@, n as nat),
{
    let mut s = String::new();
    let mut i: usize = 0;
    while i < n
        invariant
            i <= n,
            s@ == repeated(t@, i as nat),
        decreases n - i,
    {
        s.append(t);
        i += 1;
    }
    s
}

/// The first index at or behind `from` at which `c` stands, or the length.
pub open spec fn next_char(s: Seq<char>, c: char, from: nat) -> nat
    decreases s.len() - from,
{
    if from >= s.len() {
        s.len()
    } else if s[from as int] == c {
        from
    } else {
        next_char(s, c, from + 1)
    }
}

pub(crate) proof fn lemma_next_char(s: Seq<char>, c: char, from: nat)
    requires
        from <= s.len(),
    ensures
        from <= next_char(s, c, from) <= s.len(),
        next_char(s, c, from) < s.len() ==> s[next_char(s, c, from) as int] == c,
        forall|i: int| from <= i < next_char(s, c, from) ==> s[i] != c,
    decreases s.len() - from,
{
    if from < s.len() && s[from as int] != c {
        lemma_next_char(s, c, from + 1);
    }
}

/// The first index at or behind `from` at which `c` stands, or the length.
pub fn find_char(v: &Vec<char>, c: char, from: usize) -> (r: usize)
    requires
        from <= v.len(),
    ensures
        r == next_char(v@, c, from as nat),
        from <= r <= v.len(),
{
    let mut i: usize = from;
    while i < v.len() && v[i] != c
        invariant
            from <= i <= v.len(),
            next_char(v@, c, i as nat) == next_char(v@, c, from as nat),
        decreases v.len() - i,
    {
        i += 1;
    }
    i
}

/// The pieces between the occurrences of `c`, from index `from` on: one more
/// than there are occurrences.
pub open spec fn split_from(s: Seq<char>, c: char, from: nat) -> Seq<Seq<char>>
    decreases s.len() - from,
{
    let e = next_char(s, c, from);
    if from <= e < s.len() {
        seq![s.subrange(from as int, e as int)] + split_from(s, c, e + 1)
    } else {
        seq![s.subrange(from as int, s.len() as int)]
    }
}

/// The pieces between the occurrences of `c`.
pub fn split_char(s: &str, c: char) -> (r: Vec<String>)
    ensures
        texts(r@) == split_from(s@, c, 0),
        r.len() >= 1,
{
    let v = to_chars(s);
    let mut out: Vec<String> = Vec::new();
    let mut from: usize = 0;
    loop
        invariant
            v@ == s@,
            from <= v.len(),
            split_from(s@, c, 0) == texts(out@) + split_from(s@, c, from as nat),
        decreases v.len() - from,
    {
        let e: usize = find_char(&v, c, from);
        let ghost done = texts(out@);
        out.push(from_chars(&v, from, e));
        proof {
            lemma_texts_push(out@.drop_last(), out@.last());
            assert(out@.drop_last().push(out@.last()) =~= out@);
        }
        if e == v.len() {
            assert(split_from(s@, c, 0) =~= texts(out@));
            return out;
        }
        from = e + 1;
        assert(split_from(s@, c, 0) =~= texts(out@) + split_from(s@, c, from as nat));
    }
}

// ───────────────────────── decimal numerals ─────────────────────────

/// The decimal digit of a number below ten.
pub open spec fn digit_char(d: nat) -> char {
    (('0' as nat) + d) as char
}

/// The decimal numeral of a natural number.
pub open spec fn nat_text(n: nat) -> Seq<char>
    decreases n,
{
    if n < 10 {
        seq![digit_char(n)]
    } else {
        nat_text(n / 10).push(digit_char(n % 10))
    }
}

/// Two numbers of the same text are one number.
pub(crate) proof fn lemma_nat_text_injective(a: nat, b: nat)
    requires
        nat_text(a) == nat_text(b),
    ensures
        a == b,
    decreases a,
{
    lemma_nat_text_len(a);
    lemma_nat_text_len(b);
    let x = nat_text(a);
    let y = nat_text(b);
    if a < 10 && b < 10 {
        assert(x[0] == y[0]);
    } else if a < 10 {
        assert(nat_text(b).len() >= 2) by {
            lemma_nat_text_len(b / 10);
        }
    } else if b < 10 {
        assert(nat_text(a).len() >= 2) by {
            lemma_nat_text_len(a / 10);
        }
    } else {
        assert(x.last() == y.last());
        assert(x.drop_last() =~= nat_text(a / 10));
        assert(y.drop_last() =~= nat_text(b / 10));
        lemma_nat_text_injective(a / 10, b / 10);
    }
}

proof fn lemma_nat_text_len(n: nat)
    ensures
        nat_text(n).len() > 0,
{
}

/// The decimal digit of a number below ten.
pub fn digit(d: u8) -> (r: char)
    requires
        d < 10,
    ensures
        r == digit_char(d as nat),
{
    (48u8 + d) as char
}

/// The decimal numeral of a number.
pub fn u64_text(n: u64) -> (r: String)
    ensures
        r@ == nat_text(n as nat),
    decreases n,
{
    if n < 10 {
        let mut s = String::new();
        s.push(digit(n as u8));
        assert(s@ =~= nat_text(n as nat));
        s
    } else {
        let mut s = u64_text(n / 10);
        s.push(digit((n % 10) as u8));
        s
    }
}

/// Whether the character is one of `0` to `9`.
pub open spec fn is_digit(c: char) -> bool {
    '0' <= c <= '9'
}

/// The number that a sequence of decimal digits denotes.
pub open spec fn digits_value(s: Seq<char>) -> nat
    decreases s.len(),
{
    if s.len() == 0 {
        0
    } else {
        digits_value(s.drop_last()) * 10 + (s.last() as nat - '0' as nat) as nat
    }
}

/// The digits of an unsigned numeral: what is left of the text without a
/// leading plus sign.
pub open spec fn unsigned_digits(s: Seq<char>) -> Seq<char> {
    if s.len() > 0 && s[0] == '+' {
        s.subrange(1, s.len() as int)
    } else {
        s
    }
}

/// The number below or equal to `max` that the text denotes: decimal digits,
/// at least one, behind an optional plus sign.
pub open spec fn unsigned_value(s: Seq<char>, max: nat) -> Option<nat> {
    let d = unsigned_digits(s);
    if d.len() > 0 && (forall|i: int| 0 <= i < d.len() ==> is_digit(#[trigger] d[i]))
        && digits_value(d) <= max {
        Some(digits_value(d))
    } else {
        None
    }
}

proof fn lemma_digits_value_grows(s: Seq<char>, i: int)
    requires
        0 <= i <= s.len(),
    ensures
        digits_value(s.take(i)) <= digits_value(s),
    decreases s.len(),
{
    if i < s.len() {
        lemma_digits_value_grows(s.drop_last(), i);
        assert(s.drop_last().take(i) =~= s.take(i));
    } else {
        assert(s.take(i) =~= s);
    }
}

/// Reads an unsigned decimal number that is at most `max`.
pub fn parse_unsigned(s: &str, max: u64) -> (r: Option<u64>)
    ensures
        match r {
            Some(v) => unsigned_value(s@, max as nat) == Some(v as nat),
            None => unsigned_value(s@, max as nat) is None,
        },
{
    let v = to_chars(s);
    let start: usize = if v.len() > 0 && v[0] == '+' {
        1
    } else {
        0
    };
    let ghost d = unsigned_digits(s@);
    assert(d =~= v@.subrange(start as int, v.len() as int));
    if start == v.len() {
        return None;
    }
    let mut value: u64 = 0;
    let mut i: usize = start;
    while i < v.len()
        invariant
            v@ == s@,
            start <= i <= v.len(),
            start < v.len(),
            d == unsigned_digits(s@),
            d == v@.subrange(start as int, v.len() as int),
            forall|j: int| 0 <= j < i - start ==> is_digit(#[trigger] d[j]),
            value == digits_value(d.take(i - start)),
            value <= max,
        decreases v.len() - i,
    {
        let c: char = v[i];
        assert(d[i - start] == c);
        if c < '0' || c > '9' {
            assert(!is_digit(d[i - start]));
            return None;
        }
        let x: u64 = (c as u32 - '0' as u32) as u64;
        let ghost next = d.take(i - start + 1);
        assert(next.drop_last() =~= d.take(i - start));
        assert(digits_value(next) == value * 10 + x);
        proof {
            lemma_digits_value_grows(d, i - start + 1);
        }
        match value.checked_mul(10) {
            None => {
                return None;
            },
            Some(y) => {
                if y > max || max - y < x {
                    return None;
                }
                value = y + x;
            },
        }
        i += 1;
    }
    assert(d.take(i - start) =~= d);
    Some(value)
}

// ───────────────────────── white space ─────────────────────────

/// Whether every character is white space.
pub open spec fn blank(s: Seq<char>) -> bool {
    forall|i: int| 0 <= i < s.len() ==> white_space(#[trigger] s[i])
}

/// The first index at or behind `from` whose character is no white space, or
/// the length.
pub open spec fn next_word(s: Seq<char>, from: nat) -> nat
    decreases s.len() - from,
{
    if from < s.len() && white_space(s[from as int]) {
        next_word(s, from + 1)
    } else {
        from
    }
}

/// The first index at or behind `from` whose character is white space, or the
/// length.
pub open spec fn word_end(s: Seq<char>, from: nat) -> nat
    decreases s.len() - from,
{
    if from < s.len() && !white_space(s[from as int]) {
        word_end(s, from + 1)
    } else {
        from
    }
}

/// The maximal runs of characters that are no white space, from index `from`
/// on.
pub open spec fn words_from(s: Seq<char>, from: nat) -> Seq<Seq<char>>
    decreases s.len() - from,
{
    let b = next_word(s, from);
    let e = word_end(s, b);
    if from <= b < e <= s.len() {
        seq![s.subrange(b as int, e as int)] + words_from(s, e)
    } else {
        seq![]
    }
}

/// The words of a text: the maximal runs without white space.
pub fn split_words(s: &str) -> (r: Vec<String>)
    ensures
        texts(r@) == words_from(s@, 0),
{
    let v = to_chars(s);
    let mut out: Vec<String> = Vec::new();
    let mut from: usize = 0;
    loop
        invariant
            v@ == s@,
            from <= v.len(),
            words_from(s@, 0) == texts(out@) + words_from(s@, from as nat),
        decreases v.len() - from,
    {
        let mut b: usize = from;
        while b < v.len() && is_white_space(v[b])
            invariant
                v@ == s@,
                from <= b <= v.len(),
                next_word(s@, b as nat) == next_word(s@, from as nat),
            ensures
                from <= b <= v.len(),
                b == next_word(s@, from as nat),
            decreases v.len() - b,
        {
            b += 1;
        }
        let mut e: usize = b;
        while e < v.len() && !is_white_space(v[e])
            invariant
                v@ == s@,
                b <= e <= v.len(),
                word_end(s@, e as nat) == word_end(s@, b as nat),
            ensures
                b <= e <= v.len(),
                e == word_end(s@, b as nat),
            decreases v.len() - e,
        {
            e += 1;
        }
        if b == e {
            assert(words_from(s@, 0) =~= texts(out@));
            return out;
        }
        out.push(from_chars(&v, b, e));
        proof {
            lemma_texts_push(out@.drop_last(), out@.last());
            assert(out@.drop_last().push(out@.last()) =~= out@);
        }
        from = e;
        assert(words_from(s@, 0) =~= texts(out@) + words_from(s@, from as nat));
    }
}

} // verus!
