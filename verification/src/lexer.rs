//! The lexer: source text to tokens and comments, and the splicing of included
//! files into one stream.

use crate::ast;
use crate::ast::{ErrV, FileV, SourceMap, Span, VclError, VclResult, NEWLINE};
use crate::text;
use crate::vclshow::{ChunkV, VclShowChunk};
use vstd::prelude::*;
use vstd::string::*;
use vstd::utf8::*;

pub mod items;
pub mod places;

verus! {

// ───────────────────────── tokens ─────────────────────────

/// The kinds of token.
#[derive(Debug, PartialEq)]
pub enum Tok {
    Ident(String),
    Num(String),
    /// The number and its unit.
    Duration(String, String),
    /// The number and its unit.
    Bytes(String, String),
    Str(String),
    CSource(String),
    LBrace,
    RBrace,
    LParen,
    RParen,
    Semi,
    Comma,
    Dot,
    Eq,
    EqEq,
    Neq,
    Tilde,
    NTilde,
    Lt,
    Leq,
    Gt,
    Geq,
    AndAnd,
    OrOr,
    Bang,
    Plus,
    Minus,
    Star,
    Slash,
    Eof,
}

/// The kinds of token.
#[verifier::ext_equal]
pub enum TokV {
    Ident(Seq<char>),
    Num(Seq<char>),
    Duration(Seq<char>, Seq<char>),
    Bytes(Seq<char>, Seq<char>),
    Str(Seq<char>),
    CSource(Seq<char>),
    LBrace,
    RBrace,
    LParen,
    RParen,
    Semi,
    Comma,
    Dot,
    Eq,
    EqEq,
    Neq,
    Tilde,
    NTilde,
    Lt,
    Leq,
    Gt,
    Geq,
    AndAnd,
    OrOr,
    Bang,
    Plus,
    Minus,
    Star,
    Slash,
    Eof,
}

impl View for Tok {
    type V = TokV;

    open spec fn view(&self) -> TokV {
        match self {
            Tok::Ident(s) => TokV::Ident(s@),
            Tok::Num(s) => TokV::Num(s@),
            Tok::Duration(n, u) => TokV::Duration(n@, u@),
            Tok::Bytes(n, u) => TokV::Bytes(n@, u@),
            Tok::Str(s) => TokV::Str(s@),
            Tok::CSource(s) => TokV::CSource(s@),
            Tok::LBrace => TokV::LBrace,
            Tok::RBrace => TokV::RBrace,
            Tok::LParen => TokV::LParen,
            Tok::RParen => TokV::RParen,
            Tok::Semi => TokV::Semi,
            Tok::Comma => TokV::Comma,
            Tok::Dot => TokV::Dot,
            Tok::Eq => TokV::Eq,
            Tok::EqEq => TokV::EqEq,
            Tok::Neq => TokV::Neq,
            Tok::Tilde => TokV::Tilde,
            Tok::NTilde => TokV::NTilde,
            Tok::Lt => TokV::Lt,
            Tok::Leq => TokV::Leq,
            Tok::Gt => TokV::Gt,
            Tok::Geq => TokV::Geq,
            Tok::AndAnd => TokV::AndAnd,
            Tok::OrOr => TokV::OrOr,
            Tok::Bang => TokV::Bang,
            Tok::Plus => TokV::Plus,
            Tok::Minus => TokV::Minus,
            Tok::Star => TokV::Star,
            Tok::Slash => TokV::Slash,
            Tok::Eof => TokV::Eof,
        }
    }
}

impl Clone for Tok {
    fn clone(&self) -> (r: Self)
        ensures
            r@ == self@,
    {
        match self {
            Tok::Ident(s) => Tok::Ident(s.clone()),
            Tok::Num(s) => Tok::Num(s.clone()),
            Tok::Duration(n, u) => Tok::Duration(n.clone(), u.clone()),
            Tok::Bytes(n, u) => Tok::Bytes(n.clone(), u.clone()),
            Tok::Str(s) => Tok::Str(s.clone()),
            Tok::CSource(s) => Tok::CSource(s.clone()),
            Tok::LBrace => Tok::LBrace,
            Tok::RBrace => Tok::RBrace,
            Tok::LParen => Tok::LParen,
            Tok::RParen => Tok::RParen,
            Tok::Semi => Tok::Semi,
            Tok::Comma => Tok::Comma,
            Tok::Dot => Tok::Dot,
            Tok::Eq => Tok::Eq,
            Tok::EqEq => Tok::EqEq,
            Tok::Neq => Tok::Neq,
            Tok::Tilde => Tok::Tilde,
            Tok::NTilde => Tok::NTilde,
            Tok::Lt => Tok::Lt,
            Tok::Leq => Tok::Leq,
            Tok::Gt => Tok::Gt,
            Tok::Geq => Tok::Geq,
            Tok::AndAnd => Tok::AndAnd,
            Tok::OrOr => Tok::OrOr,
            Tok::Bang => Tok::Bang,
            Tok::Plus => Tok::Plus,
            Tok::Minus => Tok::Minus,
            Tok::Star => Tok::Star,
            Tok::Slash => Tok::Slash,
            Tok::Eof => Tok::Eof,
        }
    }
}

/// A token and its place.
#[derive(Debug, PartialEq)]
pub struct Token {
    pub tok: Tok,
    pub span: Span,
}

/// A token and its place.
#[verifier::ext_equal]
pub struct TokenV {
    pub tok: TokV,
    pub span: Span,
}

impl View for Token {
    type V = TokenV;

    open spec fn view(&self) -> TokenV {
        TokenV { tok: self.tok@, span: self.span }
    }
}

impl Clone for Token {
    fn clone(&self) -> (r: Self)
        ensures
            r@ == self@,
    {
        Token { tok: self.tok.clone(), span: self.span }
    }
}

/// A comment of the source.
#[derive(Debug)]
pub struct RawComment {
    /// The text with its delimiters.
    pub text: String,
    pub span: Span,
    /// Whether no token of the file ends on the line on which the comment
    /// starts.
    pub standalone: bool,
}

/// A comment of the source.
#[verifier::ext_equal]
pub struct RawCommentV {
    pub text: Seq<char>,
    pub span: Span,
    pub standalone: bool,
}

impl View for RawComment {
    type V = RawCommentV;

    open spec fn view(&self) -> RawCommentV {
        RawCommentV { text: self.text@, span: self.span, standalone: self.standalone }
    }
}

impl Clone for RawComment {
    fn clone(&self) -> (r: Self)
        ensures
            r@ == self@,
    {
        RawComment { text: self.text.clone(), span: self.span, standalone: self.standalone }
    }
}

/// Tokens and comments, each in the order of the source.
#[derive(Debug)]
pub struct Lexed {
    pub tokens: Vec<Token>,
    pub comments: Vec<RawComment>,
}

/// Tokens and comments, each in the order of the source.
#[verifier::ext_equal]
pub struct LexedV {
    pub tokens: Seq<TokenV>,
    pub comments: Seq<RawCommentV>,
}

pub open spec fn tokens_view(s: Seq<Token>) -> Seq<TokenV> {
    Seq::new(s.len(), |i: int| s[i]@)
}

pub open spec fn raw_comments_view(s: Seq<RawComment>) -> Seq<RawCommentV> {
    Seq::new(s.len(), |i: int| s[i]@)
}

impl View for Lexed {
    type V = LexedV;

    open spec fn view(&self) -> LexedV {
        LexedV {
            tokens: tokens_view(self.tokens@),
            comments: raw_comments_view(self.comments@),
        }
    }
}

/// No tokens and no comments.
pub open spec fn nothing_lexed() -> LexedV {
    LexedV { tokens: seq![], comments: seq![] }
}

impl Lexed {
    pub(crate) fn new() -> (r: Self)
        ensures
            r@ == nothing_lexed(),
    {
        let r = Lexed { tokens: Vec::new(), comments: Vec::new() };
        assert(r@ =~= nothing_lexed());
        r
    }

    pub(crate) fn push_token(&mut self, t: Token)
        ensures
            final(self)@ == (LexedV { tokens: old(self)@.tokens.push(t@), ..old(self)@ }),
    {
        let ghost before = self@;
        self.tokens.push(t);
        assert(self@.tokens =~= before.tokens.push(t@));
    }

    pub(crate) fn push_comment(&mut self, c: RawComment)
        ensures
            final(self)@ == (LexedV { comments: old(self)@.comments.push(c@), ..old(self)@ }),
    {
        let ghost before = self@;
        self.comments.push(c);
        assert(self@.comments =~= before.comments.push(c@));
    }
}

// ───────────────────────── bytes of the source ─────────────────────────

pub const TAB: u8 = 9;

pub const CARRIAGE_RETURN: u8 = 13;

pub const SPACE: u8 = 32;

pub const BANG: u8 = 33;

pub const QUOTE: u8 = 34;

pub const HASH: u8 = 35;

pub const AMPERSAND: u8 = 38;

pub const LEFT_PAREN: u8 = 40;

pub const RIGHT_PAREN: u8 = 41;

pub const STAR: u8 = 42;

pub const PLUS: u8 = 43;

pub const COMMA: u8 = 44;

pub const DASH: u8 = 45;

pub const DOT: u8 = 46;

pub const SLASH: u8 = 47;

pub const SEMICOLON: u8 = 59;

pub const LESS: u8 = 60;

pub const EQUALS: u8 = 61;

pub const GREATER: u8 = 62;

pub const LETTER_B: u8 = 66;

pub const LETTER_C: u8 = 67;

pub const UNDERSCORE: u8 = 95;

pub const LEFT_BRACE: u8 = 123;

pub const PIPE: u8 = 124;

pub const RIGHT_BRACE: u8 = 125;

pub const TILDE: u8 = 126;

/// Whether the byte separates tokens.
pub open spec fn is_space(c: u8) -> bool {
    c == SPACE || c == TAB || c == CARRIAGE_RETURN || c == NEWLINE
}

/// Whether the byte is an ASCII letter.
pub open spec fn is_letter(c: u8) -> bool {
    65 <= c <= 90 || 97 <= c <= 122
}

/// Whether the byte is an ASCII digit.
pub open spec fn is_digit(c: u8) -> bool {
    48 <= c <= 57
}

/// Whether the byte can stand inside an identifier.
pub open spec fn is_ident_byte(c: u8) -> bool {
    is_letter(c) || is_digit(c) || c == UNDERSCORE || c == DASH
}

/// Where the identifier bytes from `p` on end.
pub open spec fn ident_end(b: Seq<u8>, p: nat) -> nat
    decreases b.len() - p,
{
    if p < b.len() && is_ident_byte(b[p as int]) {
        ident_end(b, p + 1)
    } else {
        p
    }
}

/// Where the digits from `p` on end.
pub open spec fn digits_end(b: Seq<u8>, p: nat) -> nat
    decreases b.len() - p,
{
    if p < b.len() && is_digit(b[p as int]) {
        digits_end(b, p + 1)
    } else {
        p
    }
}

/// Where the number that starts at `p` ends: digits, and a point with at least
/// one digit behind it.
pub open spec fn number_end(b: Seq<u8>, p: nat) -> nat {
    let e = digits_end(b, p);
    if e + 1 < b.len() && b[e as int] == DOT && is_digit(b[e as int + 1]) {
        digits_end(b, e + 1)
    } else {
        e
    }
}

/// The first place at or behind `p` where `x` and `y` stand side by side.
pub open spec fn find_pair(b: Seq<u8>, p: nat, x: u8, y: u8) -> Option<nat>
    decreases b.len() - p,
{
    if p + 1 >= b.len() {
        None
    } else if b[p as int] == x && b[p as int + 1] == y {
        Some(p)
    } else {
        find_pair(b, p + 1, x, y)
    }
}

/// The first place at or behind `p` where three quotes stand side by side.
pub open spec fn find_triple_quote(b: Seq<u8>, p: nat) -> Option<nat>
    decreases b.len() - p,
{
    if p + 2 >= b.len() {
        None
    } else if b[p as int] == QUOTE && b[p as int + 1] == QUOTE && b[p as int + 2] == QUOTE {
        Some(p)
    } else {
        find_triple_quote(b, p + 1)
    }
}

/// The first place at or behind `p` of a quote or a newline, or the end.
pub open spec fn quote_or_newline(b: Seq<u8>, p: nat) -> nat
    decreases b.len() - p,
{
    if p >= b.len() || b[p as int] == QUOTE || b[p as int] == NEWLINE {
        p
    } else {
        quote_or_newline(b, p + 1)
    }
}

/// A unit behind a number.
#[verifier::ext_equal]
pub struct UnitV {
    pub text: Seq<char>,
    /// Whether it counts bytes; otherwise it is a duration.
    pub bytes: bool,
}

/// The unit of two letters at `p`.
pub open spec fn long_unit(b: Seq<u8>, p: nat) -> Option<UnitV> {
    if p + 2 > b.len() {
        None
    } else if b[p as int] == 109 && b[p as int + 1] == 115 {
        Some(UnitV { text: "ms"@, bytes: false })
    } else if b[p as int] == 75 && b[p as int + 1] == LETTER_B {
        Some(UnitV { text: "KB"@, bytes: true })
    } else if b[p as int] == 77 && b[p as int + 1] == LETTER_B {
        Some(UnitV { text: "MB"@, bytes: true })
    } else if b[p as int] == 71 && b[p as int + 1] == LETTER_B {
        Some(UnitV { text: "GB"@, bytes: true })
    } else if b[p as int] == 84 && b[p as int + 1] == LETTER_B {
        Some(UnitV { text: "TB"@, bytes: true })
    } else {
        None
    }
}

/// The unit of one letter at `p`.
pub open spec fn short_unit(b: Seq<u8>, p: nat) -> Option<UnitV> {
    if p >= b.len() {
        None
    } else if b[p as int] == 115 {
        Some(UnitV { text: "s"@, bytes: false })
    } else if b[p as int] == 109 {
        Some(UnitV { text: "m"@, bytes: false })
    } else if b[p as int] == 104 {
        Some(UnitV { text: "h"@, bytes: false })
    } else if b[p as int] == 100 {
        Some(UnitV { text: "d"@, bytes: false })
    } else if b[p as int] == 119 {
        Some(UnitV { text: "w"@, bytes: false })
    } else if b[p as int] == 121 {
        Some(UnitV { text: "y"@, bytes: false })
    } else if b[p as int] == LETTER_B {
        Some(UnitV { text: "B"@, bytes: true })
    } else {
        None
    }
}

// ───────────────────────── one item of the source ─────────────────────────

/// What stands at a place of the source.
#[verifier::ext_equal]
pub enum ItemV {
    /// The end of the source.
    End,
    /// White space up to the given place.
    Space(nat),
    /// A comment up to the given place.
    Comment(nat),
    /// A token up to the given place.
    Token(nat, TokV),
    /// No token: the place where the fault ends, and what it is.
    Fault(nat, Seq<char>),
}

/// What stands at `p`: a string, where the byte there is a quote.
pub open spec fn string_at(b: Seq<u8>, p: nat) -> ItemV {
    if p + 2 < b.len() && b[p as int + 1] == QUOTE && b[p as int + 2] == QUOTE {
        match find_triple_quote(b, p + 3) {
            Some(e) => ItemV::Token(e + 3, TokV::Str(text::text_of(b, p as int + 3, e as int))),
            None => ItemV::Fault(b.len(), "unterminated \"\"\"...\"\"\" string"@),
        }
    } else {
        let e = quote_or_newline(b, p + 1);
        if e < b.len() && b[e as int] == QUOTE {
            ItemV::Token(e + 1, TokV::Str(text::text_of(b, p as int + 1, e as int)))
        } else {
            ItemV::Fault(e, "unterminated string (contains newline or runs to EOF)"@)
        }
    }
}

/// What stands at `p`: a number with its unit, where the byte there is a
/// digit.
pub open spec fn number_at(b: Seq<u8>, p: nat) -> ItemV {
    let e = number_end(b, p);
    let n = text::text_of(b, p as int, e as int);
    match long_unit(b, e) {
        Some(u) => ItemV::Token(
            e + 2,
            if u.bytes {
                TokV::Bytes(n, u.text)
            } else {
                TokV::Duration(n, u.text)
            },
        ),
        None => match short_unit(b, e) {
            Some(u) => ItemV::Token(
                e + 1,
                if u.bytes {
                    TokV::Bytes(n, u.text)
                } else {
                    TokV::Duration(n, u.text)
                },
            ),
            None => ItemV::Token(e, TokV::Num(n)),
        },
    }
}

/// What stands at `p`: an operator or a punctuation mark.
pub open spec fn operator_at(b: Seq<u8>, p: nat) -> ItemV {
    let c = b[p as int];
    let second_is = |x: u8| p + 1 < b.len() && b[p as int + 1] == x;
    if c == LEFT_BRACE {
        ItemV::Token(p + 1, TokV::LBrace)
    } else if c == RIGHT_BRACE {
        ItemV::Token(p + 1, TokV::RBrace)
    } else if c == LEFT_PAREN {
        ItemV::Token(p + 1, TokV::LParen)
    } else if c == RIGHT_PAREN {
        ItemV::Token(p + 1, TokV::RParen)
    } else if c == SEMICOLON {
        ItemV::Token(p + 1, TokV::Semi)
    } else if c == COMMA {
        ItemV::Token(p + 1, TokV::Comma)
    } else if c == DOT {
        ItemV::Token(p + 1, TokV::Dot)
    } else if c == EQUALS {
        if second_is(EQUALS) {
            ItemV::Token(p + 2, TokV::EqEq)
        } else {
            ItemV::Token(p + 1, TokV::Eq)
        }
    } else if c == BANG {
        if second_is(EQUALS) {
            ItemV::Token(p + 2, TokV::Neq)
        } else if second_is(TILDE) {
            ItemV::Token(p + 2, TokV::NTilde)
        } else {
            ItemV::Token(p + 1, TokV::Bang)
        }
    } else if c == TILDE {
        ItemV::Token(p + 1, TokV::Tilde)
    } else if c == LESS {
        if second_is(EQUALS) {
            ItemV::Token(p + 2, TokV::Leq)
        } else {
            ItemV::Token(p + 1, TokV::Lt)
        }
    } else if c == GREATER {
        if second_is(EQUALS) {
            ItemV::Token(p + 2, TokV::Geq)
        } else {
            ItemV::Token(p + 1, TokV::Gt)
        }
    } else if c == AMPERSAND {
        if second_is(AMPERSAND) {
            ItemV::Token(p + 2, TokV::AndAnd)
        } else {
            ItemV::Fault(p + 1, "unexpected character '&' (did you mean '&&'?)"@)
        }
    } else if c == PIPE {
        if second_is(PIPE) {
            ItemV::Token(p + 2, TokV::OrOr)
        } else {
            ItemV::Fault(p + 1, "unexpected character '|' (did you mean '||'?)"@)
        }
    } else if c == PLUS {
        ItemV::Token(p + 1, TokV::Plus)
    } else if c == DASH {
        ItemV::Token(p + 1, TokV::Minus)
    } else if c == STAR {
        ItemV::Token(p + 1, TokV::Star)
    } else if c == SLASH {
        ItemV::Token(p + 1, TokV::Slash)
    } else {
        ItemV::Fault(p + 1, "unexpected character "@ + text::char_debug(c as char))
    }
}

/// What stands at `p`.
pub open spec fn item_at(b: Seq<u8>, p: nat) -> ItemV {
    let c = b[p as int];
    let second_is = |x: u8| p + 1 < b.len() && b[p as int + 1] == x;
    if p >= b.len() {
        ItemV::End
    } else if is_space(c) {
        ItemV::Space(p + 1)
    } else if c == HASH || (c == SLASH && second_is(SLASH)) {
        ItemV::Comment(ast::line_end(b, p))
    } else if c == SLASH && second_is(STAR) {
        match find_pair(b, p + 2, STAR, SLASH) {
            Some(e) => ItemV::Comment(e + 2),
            None => ItemV::Fault(b.len(), "unterminated block comment"@),
        }
    } else if c == LETTER_C && second_is(LEFT_BRACE) {
        match find_pair(b, p + 2, RIGHT_BRACE, LETTER_C) {
            Some(e) => ItemV::Token(e + 2, TokV::CSource(text::text_of(b, p as int + 2, e as int))),
            None => ItemV::Fault(b.len(), "unterminated C{ ... }C block"@),
        }
    } else if is_letter(c) || c == UNDERSCORE {
        let e = ident_end(b, p);
        ItemV::Token(e, TokV::Ident(text::text_of(b, p as int, e as int)))
    } else if is_digit(c) {
        number_at(b, p)
    } else if c == QUOTE {
        string_at(b, p)
    } else if c == LEFT_BRACE && second_is(QUOTE) {
        match find_pair(b, p + 2, QUOTE, RIGHT_BRACE) {
            Some(e) => ItemV::Token(e + 2, TokV::Str(text::text_of(b, p as int + 2, e as int))),
            None => ItemV::Fault(b.len(), "unterminated {\"...\"} string"@),
        }
    } else {
        operator_at(b, p)
    }
}

/// What stands at a place of the source.
enum Item {
    End,
    Space(usize),
    Comment(usize),
    Token(usize, Tok),
    Fault(usize, String),
}

impl View for Item {
    type V = ItemV;

    closed spec fn view(&self) -> ItemV {
        match self {
            Item::End => ItemV::End,
            Item::Space(n) => ItemV::Space(*n as nat),
            Item::Comment(n) => ItemV::Comment(*n as nat),
            Item::Token(n, t) => ItemV::Token(*n as nat, t@),
            Item::Fault(n, m) => ItemV::Fault(*n as nat, m@),
        }
    }
}

/// Whether an item that stands at `p` ends behind `p` and in the source.
spec fn item_ends(i: ItemV, b: Seq<u8>, p: nat) -> bool {
    match i {
        ItemV::End => p >= b.len(),
        ItemV::Space(n) => p < n <= b.len(),
        ItemV::Comment(n) => p < n <= b.len() && is_char_boundary(b, p as int) && is_char_boundary(
            b,
            n as int,
        ),
        ItemV::Token(n, _) => p < n <= b.len(),
        ItemV::Fault(n, _) => p < n <= b.len(),
    }
}

fn byte_is(b: &[u8], p: usize, c: u8) -> (r: bool)
    ensures
        r == (p < b@.len() && b@[p as int] == c),
{
    p < b.len() && b[p] == c
}

fn letter(c: u8) -> (r: bool)
    ensures
        r == is_letter(c),
{
    (65 <= c && c <= 90) || (97 <= c && c <= 122)
}

fn ascii_digit(c: u8) -> (r: bool)
    ensures
        r == is_digit(c),
{
    48 <= c && c <= 57
}

fn scan_ident(b: &[u8], p: usize) -> (r: usize)
    requires
        p <= b@.len(),
    ensures
        r == ident_end(b@, p as nat),
        p <= r <= b@.len(),
        p < b@.len() && is_ident_byte(b@[p as int]) ==> r > p,
        r > p ==> b@[r - 1] < 128,
{
    let mut e: usize = p;
    while e < b.len() && (letter(b[e]) || ascii_digit(b[e]) || b[e] == UNDERSCORE || b[e] == DASH)
        invariant
            p <= e <= b@.len(),
            ident_end(b@, e as nat) == ident_end(b@, p as nat),
            e > p ==> b@[e - 1] < 128,
        decreases b@.len() - e,
    {
        e += 1;
    }
    e
}

fn scan_digits(b: &[u8], p: usize) -> (r: usize)
    requires
        p <= b@.len(),
    ensures
        r == digits_end(b@, p as nat),
        p <= r <= b@.len(),
        p < b@.len() && is_digit(b@[p as int]) ==> r > p,
        r > p ==> b@[r - 1] < 128,
{
    let mut e: usize = p;
    while e < b.len() && ascii_digit(b[e])
        invariant
            p <= e <= b@.len(),
            digits_end(b@, e as nat) == digits_end(b@, p as nat),
            e > p ==> b@[e - 1] < 128,
        decreases b@.len() - e,
    {
        e += 1;
    }
    e
}

fn scan_pair(b: &[u8], p: usize, x: u8, y: u8) -> (r: Option<usize>)
    requires
        p <= b@.len(),
    ensures
        match r {
            Some(e) => find_pair(b@, p as nat, x, y) == Some(e as nat) && p <= e && e + 1 < b@.len()
                && b@[e as int] == x && b@[e + 1] == y,
            None => find_pair(b@, p as nat, x, y) is None,
        },
{
    let mut e: usize = p;
    while b.len() - e > 1
        invariant
            p <= e <= b@.len(),
            find_pair(b@, e as nat, x, y) == find_pair(b@, p as nat, x, y),
        decreases b@.len() - e,
    {
        if b[e] == x && b[e + 1] == y {
            return Some(e);
        }
        e += 1;
    }
    None
}

fn scan_triple_quote(b: &[u8], p: usize) -> (r: Option<usize>)
    requires
        p <= b@.len(),
    ensures
        match r {
            Some(e) => find_triple_quote(b@, p as nat) == Some(e as nat) && p <= e && e + 2
                < b@.len() && b@[e as int] == QUOTE && b@[e + 2] == QUOTE,
            None => find_triple_quote(b@, p as nat) is None,
        },
{
    let mut e: usize = p;
    while b.len() - e > 2
        invariant
            p <= e <= b@.len(),
            find_triple_quote(b@, e as nat) == find_triple_quote(b@, p as nat),
        decreases b@.len() - e,
    {
        if b[e] == QUOTE && b[e + 1] == QUOTE && b[e + 2] == QUOTE {
            return Some(e);
        }
        e += 1;
    }
    None
}

fn scan_quote_or_newline(b: &[u8], p: usize) -> (r: usize)
    requires
        p <= b@.len(),
    ensures
        r == quote_or_newline(b@, p as nat),
        p <= r <= b@.len(),
{
    let mut e: usize = p;
    while e < b.len() && b[e] != QUOTE && b[e] != NEWLINE
        invariant
            p <= e <= b@.len(),
            quote_or_newline(b@, e as nat) == quote_or_newline(b@, p as nat),
        decreases b@.len() - e,
    {
        e += 1;
    }
    e
}

fn scan_line(b: &[u8], p: usize) -> (r: usize)
    requires
        p <= b@.len(),
    ensures
        r == ast::line_end(b@, p as nat),
        p <= r <= b@.len(),
        r < b@.len() ==> b@[r as int] == NEWLINE,
{
    let mut e: usize = p;
    while e < b.len() && b[e] != NEWLINE
        invariant
            p <= e <= b@.len(),
            ast::line_end(b@, e as nat) == ast::line_end(b@, p as nat),
        decreases b@.len() - e,
    {
        e += 1;
    }
    e
}

/// The text between an ASCII byte before `lo` and an ASCII byte at `hi`.
fn inner_text(content: &str, lo: usize, hi: usize) -> (r: String)
    requires
        0 < lo <= hi < content.spec_bytes().len(),
        content.spec_bytes()[lo - 1] < 128,
        content.spec_bytes()[hi as int] < 128,
    ensures
        r@ == text::text_of(content.spec_bytes(), lo as int, hi as int),
{
    proof {
        encode_utf8_valid_utf8(content@);
        text::lemma_ascii_boundary(content.spec_bytes(), lo - 1);
        text::lemma_ascii_boundary(content.spec_bytes(), hi as int);
    }
    text::slice_text(content, lo, hi)
}

/// The text from an ASCII byte at `lo` to an ASCII byte right before `hi`.
fn whole_text(content: &str, lo: usize, hi: usize) -> (r: String)
    requires
        lo < hi <= content.spec_bytes().len(),
        content.spec_bytes()[lo as int] < 128,
        content.spec_bytes()[hi - 1] < 128,
    ensures
        r@ == text::text_of(content.spec_bytes(), lo as int, hi as int),
{
    proof {
        encode_utf8_valid_utf8(content@);
        text::lemma_ascii_boundary(content.spec_bytes(), lo as int);
        text::lemma_ascii_boundary(content.spec_bytes(), hi - 1);
    }
    text::slice_text(content, lo, hi)
}

fn lex_string(content: &str, b: &[u8], p: usize) -> (r: Item)
    requires
        b@ == content.spec_bytes(),
        p < b@.len(),
        b@[p as int] == QUOTE,
    ensures
        r@ == string_at(b@, p as nat),
        item_ends(r@, b@, p as nat),
{
    if b.len() - p > 2 && b[p + 1] == QUOTE && b[p + 2] == QUOTE {
        match scan_triple_quote(b, p + 3) {
            Some(e) => Item::Token(e + 3, Tok::Str(inner_text(content, p + 3, e))),
            None => Item::Fault(b.len(), "unterminated \"\"\"...\"\"\" string".to_string()),
        }
    } else {
        let e: usize = scan_quote_or_newline(b, p + 1);
        if byte_is(b, e, QUOTE) {
            Item::Token(e + 1, Tok::Str(inner_text(content, p + 1, e)))
        } else {
            Item::Fault(
                e,
                "unterminated string (contains newline or runs to EOF)".to_string(),
            )
        }
    }
}

/// The unit at `p`: its text, its length, and whether it counts bytes.
fn try_match_unit(b: &[u8], p: usize) -> (r: Option<(String, usize, bool)>)
    requires
        p <= b@.len(),
    ensures
        match r {
            Some((t, n, bytes)) => {
                &&& n == 2 ==> long_unit(b@, p as nat) == Some(UnitV { text: t@, bytes })
                &&& n != 2 ==> n == 1 && long_unit(b@, p as nat) is None && short_unit(b@, p as nat)
                    == Some(UnitV { text: t@, bytes })
                &&& p + n <= b@.len()
            },
            None => long_unit(b@, p as nat) is None && short_unit(b@, p as nat) is None,
        },
{
    if b.len() - p >= 2 {
        let x: u8 = b[p];
        let y: u8 = b[p + 1];
        if x == 109 && y == 115 {
            return Some(("ms".to_string(), 2, false));
        }
        if y == LETTER_B {
            if x == 75 {
                return Some(("KB".to_string(), 2, true));
            }
            if x == 77 {
                return Some(("MB".to_string(), 2, true));
            }
            if x == 71 {
                return Some(("GB".to_string(), 2, true));
            }
            if x == 84 {
                return Some(("TB".to_string(), 2, true));
            }
        }
    }
    if p < b.len() {
        let x: u8 = b[p];
        if x == 115 {
            return Some(("s".to_string(), 1, false));
        }
        if x == 109 {
            return Some(("m".to_string(), 1, false));
        }
        if x == 104 {
            return Some(("h".to_string(), 1, false));
        }
        if x == 100 {
            return Some(("d".to_string(), 1, false));
        }
        if x == 119 {
            return Some(("w".to_string(), 1, false));
        }
        if x == 121 {
            return Some(("y".to_string(), 1, false));
        }
        if x == LETTER_B {
            return Some(("B".to_string(), 1, true));
        }
    }
    None
}

fn lex_number(content: &str, b: &[u8], p: usize) -> (r: Item)
    requires
        b@ == content.spec_bytes(),
        p < b@.len(),
        is_digit(b@[p as int]),
    ensures
        r@ == number_at(b@, p as nat),
        item_ends(r@, b@, p as nat),
{
    let mut e: usize = scan_digits(b, p);
    if b.len() - e > 1 && b[e] == DOT && ascii_digit(b[e + 1]) {
        e = scan_digits(b, e + 1);
    }
    let n = whole_text(content, p, e);
    match try_match_unit(b, e) {
        Some((unit, len, bytes)) => {
            let t = if bytes {
                Tok::Bytes(n, unit)
            } else {
                Tok::Duration(n, unit)
            };
            Item::Token(e + len, t)
        },
        None => Item::Token(e, Tok::Num(n)),
    }
}

fn lex_operator(b: &[u8], p: usize) -> (r: Item)
    requires
        p < b@.len(),
    ensures
        r@ == operator_at(b@, p as nat),
        item_ends(r@, b@, p as nat),
{
    let c: u8 = b[p];
    let next: usize = p + 1;
    if c == LEFT_BRACE {
        Item::Token(next, Tok::LBrace)
    } else if c == RIGHT_BRACE {
        Item::Token(next, Tok::RBrace)
    } else if c == LEFT_PAREN {
        Item::Token(next, Tok::LParen)
    } else if c == RIGHT_PAREN {
        Item::Token(next, Tok::RParen)
    } else if c == SEMICOLON {
        Item::Token(next, Tok::Semi)
    } else if c == COMMA {
        Item::Token(next, Tok::Comma)
    } else if c == DOT {
        Item::Token(next, Tok::Dot)
    } else if c == EQUALS {
        if byte_is(b, next, EQUALS) {
            Item::Token(next + 1, Tok::EqEq)
        } else {
            Item::Token(next, Tok::Eq)
        }
    } else if c == BANG {
        if byte_is(b, next, EQUALS) {
            Item::Token(next + 1, Tok::Neq)
        } else if byte_is(b, next, TILDE) {
            Item::Token(next + 1, Tok::NTilde)
        } else {
            Item::Token(next, Tok::Bang)
        }
    } else if c == TILDE {
        Item::Token(next, Tok::Tilde)
    } else if c == LESS {
        if byte_is(b, next, EQUALS) {
            Item::Token(next + 1, Tok::Leq)
        } else {
            Item::Token(next, Tok::Lt)
        }
    } else if c == GREATER {
        if byte_is(b, next, EQUALS) {
            Item::Token(next + 1, Tok::Geq)
        } else {
            Item::Token(next, Tok::Gt)
        }
    } else if c == AMPERSAND {
        if byte_is(b, next, AMPERSAND) {
            Item::Token(next + 1, Tok::AndAnd)
        } else {
            Item::Fault(next, "unexpected character '&' (did you mean '&&'?)".to_string())
        }
    } else if c == PIPE {
        if byte_is(b, next, PIPE) {
            Item::Token(next + 1, Tok::OrOr)
        } else {
            Item::Fault(next, "unexpected character '|' (did you mean '||'?)".to_string())
        }
    } else if c == PLUS {
        Item::Token(next, Tok::Plus)
    } else if c == DASH {
        Item::Token(next, Tok::Minus)
    } else if c == STAR {
        Item::Token(next, Tok::Star)
    } else if c == SLASH {
        Item::Token(next, Tok::Slash)
    } else {
        let mut m = "unexpected character ".to_string();
        m.append(text::debug_char(c as char).as_str());
        Item::Fault(next, m)
    }
}

/// What stands at `p`.
fn lex_item(content: &str, b: &[u8], p: usize) -> (r: Item)
    requires
        b@ == content.spec_bytes(),
        p <= b@.len(),
    ensures
        r@ == item_at(b@, p as nat),
        item_ends(r@, b@, p as nat),
{
    if p >= b.len() {
        return Item::End;
    }
    proof {
        encode_utf8_valid_utf8(content@);
        is_char_boundary_start_end_of_seq(b@);
    }
    let c: u8 = b[p];
    if c == SPACE || c == TAB || c == CARRIAGE_RETURN || c == NEWLINE {
        return Item::Space(p + 1);
    }
    if c == HASH || (c == SLASH && byte_is(b, p + 1, SLASH)) {
        let e: usize = scan_line(b, p + 1);
        proof {
            text::lemma_ascii_boundary(b@, p as int);
            if e < b.len() {
                text::lemma_ascii_boundary(b@, e as int);
            }
        }
        return Item::Comment(e);
    }
    if c == SLASH && byte_is(b, p + 1, STAR) {
        return match scan_pair(b, p + 2, STAR, SLASH) {
            Some(e) => {
                proof {
                    text::lemma_ascii_boundary(b@, p as int);
                    text::lemma_ascii_boundary(b@, e + 1);
                }
                Item::Comment(e + 2)
            },
            None => Item::Fault(b.len(), "unterminated block comment".to_string()),
        };
    }
    if c == LETTER_C && byte_is(b, p + 1, LEFT_BRACE) {
        return match scan_pair(b, p + 2, RIGHT_BRACE, LETTER_C) {
            Some(e) => Item::Token(e + 2, Tok::CSource(inner_text(content, p + 2, e))),
            None => Item::Fault(b.len(), "unterminated C{ ... }C block".to_string()),
        };
    }
    if letter(c) || c == UNDERSCORE {
        let e: usize = scan_ident(b, p);
        return Item::Token(e, Tok::Ident(whole_text(content, p, e)));
    }
    if ascii_digit(c) {
        return lex_number(content, b, p);
    }
    if c == QUOTE {
        return lex_string(content, b, p);
    }
    if c == LEFT_BRACE && byte_is(b, p + 1, QUOTE) {
        return match scan_pair(b, p + 2, QUOTE, RIGHT_BRACE) {
            Some(e) => Item::Token(e + 2, Tok::Str(inner_text(content, p + 2, e))),
            None => Item::Fault(b.len(), "unterminated {\"...\"} string".to_string()),
        };
    }
    lex_operator(b, p)
}

// ───────────────────────── one file ─────────────────────────

/// The span from `lo` to `hi` of a file.
pub open spec fn span_of(file: u32, lo: nat, hi: nat) -> Span {
    Span { file, lo: lo as u32, hi: hi as u32 }
}

/// Whether a newline stands from `lo` to `hi`.
pub open spec fn newline_between(b: Seq<u8>, lo: nat, hi: nat) -> bool {
    exists|i: int| lo <= i < hi && #[trigger] b[i] == NEWLINE
}

/// Tokens and comments of a file from `p` on, behind those in `done`; `prev` is
/// where the last token before `p` ends.
pub open spec fn lex_from(
    b: Seq<u8>,
    file: u32,
    p: nat,
    prev: Option<nat>,
    done: LexedV,
) -> core::result::Result<LexedV, ErrV>
    decreases b.len() - p,
{
    match item_at(b, p) {
        ItemV::End => Ok(done),
        ItemV::Space(n) => if p < n <= b.len() {
            lex_from(b, file, n, prev, done)
        } else {
            Ok(done)
        },
        ItemV::Comment(n) => if p < n <= b.len() {
            lex_from(
                b,
                file,
                n,
                prev,
                LexedV {
                    comments: done.comments.push(
                        RawCommentV {
                            text: text::text_of(b, p as int, n as int),
                            span: span_of(file, p, n),
                            standalone: match prev {
                                Some(e) => newline_between(b, e, p),
                                None => true,
                            },
                        },
                    ),
                    ..done
                },
            )
        } else {
            Ok(done)
        },
        ItemV::Token(n, t) => if p < n <= b.len() {
            lex_from(
                b,
                file,
                n,
                Some(n),
                LexedV {
                    tokens: done.tokens.push(TokenV { tok: t, span: span_of(file, p, n) }),
                    ..done
                },
            )
        } else {
            Ok(done)
        },
        ItemV::Fault(n, m) => Err(ast::err_at(span_of(file, p, n), m)),
    }
}

/// Tokens and comments of one file.
pub open spec fn lex_text(t: Seq<char>, file: u32) -> core::result::Result<LexedV, ErrV> {
    lex_from(encode_utf8(t), file, 0, None, nothing_lexed())
}

/// What a result with a lexed stream says.
pub open spec fn lexed_result(r: VclResult<Lexed>) -> core::result::Result<LexedV, ErrV> {
    match r {
        Ok(l) => Ok(l@),
        Err(e) => Err(e@),
    }
}

fn has_newline(b: &[u8], lo: usize, hi: usize) -> (r: bool)
    requires
        lo <= hi <= b@.len(),
    ensures
        r == newline_between(b@, lo as nat, hi as nat),
{
    let mut i: usize = lo;
    while i < hi
        invariant
            lo <= i <= hi <= b@.len(),
            forall|j: int| lo <= j < i ==> b@[j] != NEWLINE,
        decreases hi - i,
    {
        if b[i] == NEWLINE {
            assert(b@[i as int] == NEWLINE);
            return true;
        }
        i += 1;
    }
    false
}

/// Tokens and comments of one file, without an end token.
pub fn lex_single_file(content: &str, file_id: u32) -> (r: VclResult<Lexed>)
    ensures
        lexed_result(r) == lex_text(content@, file_id),
{
    let b = content.as_bytes();
    let mut out = Lexed::new();
    let mut pos: usize = 0;
    let mut prev: Option<usize> = None;
    loop
        invariant
            b@ == content.spec_bytes(),
            pos <= b@.len(),
            prev matches Some(e) ==> e <= pos,
            lex_text(content@, file_id) == lex_from(
                b@,
                file_id,
                pos as nat,
                match prev {
                    Some(e) => Some(e as nat),
                    None => None,
                },
                out@,
            ),
        decreases b@.len() - pos,
    {
        match lex_item(content, b, pos) {
            Item::End => {
                return Ok(out);
            },
            Item::Space(n) => {
                pos = n;
            },
            Item::Comment(n) => {
                let standalone = match prev {
                    Some(e) => has_newline(b, e, pos),
                    None => true,
                };
                let t = text::slice_text(content, pos, n);
                out.push_comment(
                    RawComment {
                        text: t,
                        span: Span { file: file_id, lo: pos as u32, hi: n as u32 },
                        standalone,
                    },
                );
                pos = n;
            },
            Item::Token(n, tok) => {
                out.push_token(
                    Token { tok, span: Span { file: file_id, lo: pos as u32, hi: n as u32 } },
                );
                pos = n;
                prev = Some(n);
            },
            Item::Fault(n, msg) => {
                return Err(
                    VclError::new(Span { file: file_id, lo: pos as u32, hi: n as u32 }, msg),
                );
            },
        }
    }
}


// ───────────────────────── splicing ─────────────────────────

/// Whether the token at `i` starts an inclusion: the keyword, a path and a
/// semicolon.
pub open spec fn inclusion_at(t: Seq<TokenV>, i: nat) -> bool {
    &&& i + 2 < t.len()
    &&& t[i as int].tok == TokV::Ident("include"@)
    &&& t[i as int + 1].tok is Str
    &&& t[i as int + 2].tok is Semi
}

/// The first comment at or behind `from` that does not start before `lo`.
pub open spec fn comments_before(c: Seq<RawCommentV>, from: nat, lo: u32) -> nat
    decreases c.len() - from,
{
    if from < c.len() && c[from as int].span.lo < lo {
        comments_before(c, from + 1, lo)
    } else {
        from
    }
}

/// The stream with some of the comments of a file behind it.
pub open spec fn with_comments(out: LexedV, c: Seq<RawCommentV>, from: nat, to: nat) -> LexedV {
    LexedV { comments: out.comments + c.subrange(from as int, to as int), ..out }
}

/// The stream with a token behind it.
pub open spec fn with_token(out: LexedV, t: TokenV) -> LexedV {
    LexedV { tokens: out.tokens.push(t), ..out }
}

pub(crate) fn inclusion(raw: &Lexed, i: usize) -> (r: bool)
    ensures
        r == inclusion_at(raw@.tokens, i as nat),
{
    if i >= raw.tokens.len() || raw.tokens.len() - i <= 2 {
        return false;
    }
    let keyword = match &raw.tokens[i].tok {
        Tok::Ident(s) => text::str_eq(s.as_str(), "include"),
        _ => false,
    };
    keyword && matches!(raw.tokens[i + 1].tok, Tok::Str(_)) && matches!(
        raw.tokens[i + 2].tok,
        Tok::Semi
    )
}

/// Moves the comments of a file that start before `lo` to the stream.
pub(crate) fn pass_comments(raw: &Lexed, from: usize, lo: u32, out: &mut Lexed) -> (r: usize)
    requires
        from <= raw@.comments.len(),
    ensures
        r == comments_before(raw@.comments, from as nat, lo),
        from <= r <= raw@.comments.len(),
        final(out)@ == with_comments(old(out)@, raw@.comments, from as nat, r as nat),
{
    let ghost before = out@;
    let mut c: usize = from;
    assert(out@ =~= with_comments(before, raw@.comments, from as nat, c as nat));
    while c < raw.comments.len() && raw.comments[c].span.lo < lo
        invariant
            from <= c <= raw@.comments.len(),
            comments_before(raw@.comments, c as nat, lo) == comments_before(
                raw@.comments,
                from as nat,
                lo,
            ),
            out@ == with_comments(before, raw@.comments, from as nat, c as nat),
        decreases raw@.comments.len() - c,
    {
        out.push_comment(raw.comments[c].clone());
        c += 1;
        assert(out@ =~= with_comments(before, raw@.comments, from as nat, c as nat));
    }
    c
}

/// Moves the remaining comments of a file to the stream.
pub(crate) fn pass_all_comments(raw: &Lexed, from: usize, out: &mut Lexed)
    requires
        from <= raw@.comments.len(),
    ensures
        final(out)@ == with_comments(
            old(out)@,
            raw@.comments,
            from as nat,
            raw@.comments.len(),
        ),
{
    let ghost before = out@;
    let mut c: usize = from;
    assert(out@ =~= with_comments(before, raw@.comments, from as nat, c as nat));
    while c < raw.comments.len()
        invariant
            from <= c <= raw@.comments.len(),
            out@ == with_comments(before, raw@.comments, from as nat, c as nat),
        decreases raw@.comments.len() - c,
    {
        out.push_comment(raw.comments[c].clone());
        c += 1;
        assert(out@ =~= with_comments(before, raw@.comments, from as nat, c as nat));
    }
}

/// A whole stream, ended by an end token, and the files that it comes from.
#[verifier::ext_equal]
pub struct StreamV {
    pub lexed: LexedV,
    pub files: Seq<FileV>,
}

/// The stream with an end token at the end of the first file.
pub open spec fn ended(lexed: LexedV, files: Seq<FileV>) -> StreamV {
    let n = encode_utf8(files[0].text).len();
    StreamV {
        lexed: with_token(lexed, TokenV { tok: TokV::Eof, span: span_of(0, n, n) }),
        files,
    }
}

/// What a result with a whole stream says.
pub open spec fn stream_result(r: VclResult<(Lexed, SourceMap)>) -> core::result::Result<
    StreamV,
    ErrV,
> {
    match r {
        Ok((l, sm)) => Ok(StreamV { lexed: l@, files: sm@ }),
        Err(e) => Err(e@),
    }
}

/// What a result with the tokens of a stream says, next to the stream itself.
pub open spec fn tokens_result(
    r: VclResult<(Vec<Token>, SourceMap)>,
    s: core::result::Result<StreamV, ErrV>,
) -> bool {
    match (r, s) {
        (Ok((t, sm)), Ok(v)) => tokens_view(t@) == v.lexed.tokens && sm@ == v.files,
        (Err(e), Err(v)) => e@ == v,
        _ => false,
    }
}

pub(crate) fn end_stream(lexed: Lexed, sm: &SourceMap) -> (r: Lexed)
    requires
        sm@.len() > 0,
    ensures
        r@ == ended(lexed@, sm@).lexed,
{
    let mut out = lexed;
    let n: usize = sm.files[0].1.as_str().as_bytes().len();
    out.push_token(Token { tok: Tok::Eof, span: Span { file: 0, lo: n as u32, hi: n as u32 } });
    out
}

// ───────────────────────── one text ─────────────────────────

/// The stream of one text, as a file named `<test>`.
pub open spec fn lex_alone(t: Seq<char>) -> core::result::Result<StreamV, ErrV> {
    let files = seq![FileV { path: "<test>"@, text: t }];
    match lex_text(t, 0) {
        Ok(l) => Ok(ended(l, files)),
        Err(e) => Err(e),
    }
}

/// Lexes a text as a file of its own, comments included.
pub fn lex_str_full(src: &str) -> (r: VclResult<(Lexed, SourceMap)>)
    ensures
        stream_result(r) == lex_alone(src@),
{
    let mut sm = SourceMap::default();
    let id: u32 = sm.add("<test>".to_string(), src.to_string());
    assert(sm@ =~= seq![FileV { path: "<test>"@, text: src@ }]);
    match lex_single_file(src, id) {
        Ok(l) => Ok((end_stream(l, &sm), sm)),
        Err(e) => Err(e),
    }
}

/// Lexes a text as a file of its own.
pub fn lex_str(src: &str) -> (r: VclResult<(Vec<Token>, SourceMap)>)
    ensures
        tokens_result(r, lex_alone(src@)),
{
    match lex_str_full(src) {
        Ok((l, sm)) => Ok((l.tokens, sm)),
        Err(e) => Err(e),
    }
}

// ───────────────────────── a dump of chunks ─────────────────────────

/// Where the splicing of a dump stands: the next chunk, the files so far, and
/// the stream so far.
#[verifier::ext_equal]
pub struct ShowV {
    pub next: nat,
    pub files: Seq<FileV>,
    pub out: LexedV,
}

/// Splices the chunk `idx`.
pub open spec fn splice_chunk_from(chunks: Seq<ChunkV>, idx: nat, st: ShowV) -> core::result::Result<
    ShowV,
    ErrV,
>
    decreases chunks.len() - st.next, 1nat, 0nat,
{
    let c = chunks[idx as int];
    let added = ShowV { files: st.files.push(FileV { path: c.filename, text: c.content }), ..st };
    match lex_text(c.content, st.files.len() as u32) {
        Err(e) => Err(e),
        Ok(raw) => splice_chunk_tokens(chunks, raw, 0, 0, added),
    }
}

/// Splices the tokens of a chunk from `i` on and its comments from `c` on;
/// every inclusion takes the next chunk, whatever its path.
pub open spec fn splice_chunk_tokens(
    chunks: Seq<ChunkV>,
    raw: LexedV,
    i: nat,
    c: nat,
    st: ShowV,
) -> core::result::Result<ShowV, ErrV>
    decreases chunks.len() - st.next, 0nat, raw.tokens.len() - i,
{
    if i >= raw.tokens.len() {
        Ok(ShowV { out: with_comments(st.out, raw.comments, c, raw.comments.len()), ..st })
    } else if inclusion_at(raw.tokens, i) {
        let n = comments_before(raw.comments, c, raw.tokens[i as int + 2].span.lo);
        let here = ShowV { out: with_comments(st.out, raw.comments, c, n), ..st };
        if st.next >= chunks.len() {
            Err(
                ast::err_at(
                    raw.tokens[i as int + 1].span,
                    "include statement has no corresponding VCL.SHOW chunk left (dump truncated or malformed)"@,
                ),
            )
        } else {
            match splice_chunk_from(chunks, st.next, ShowV { next: st.next + 1, ..here }) {
                Err(e) => Err(e),
                Ok(s) => if st.next < s.next <= chunks.len() {
                    splice_chunk_tokens(chunks, raw, i + 3, n, s)
                } else {
                    Ok(s)
                },
            }
        }
    } else {
        let t = raw.tokens[i as int];
        let n = comments_before(raw.comments, c, t.span.lo);
        splice_chunk_tokens(
            chunks,
            raw,
            i + 1,
            n,
            ShowV { out: with_token(with_comments(st.out, raw.comments, c, n), t), ..st },
        )
    }
}

/// The file names of the chunks from `from` on.
pub open spec fn names_from(chunks: Seq<ChunkV>, from: nat) -> Seq<Seq<char>> {
    Seq::new((chunks.len() - from) as nat, |i: int| chunks[from + i].filename)
}

/// The stream of a dump: the first chunk is the root, every inclusion takes
/// the next chunk in order, and at most a chunk named `Builtin` is left over.
pub open spec fn lex_chunks(chunks: Seq<ChunkV>) -> core::result::Result<StreamV, ErrV> {
    if chunks.len() == 0 {
        Err(ast::err_at(ast::dummy_span(), "no VCL.SHOW chunks found in input"@))
    } else {
        match splice_chunk_from(chunks, 0, ShowV { next: 1, files: seq![], out: nothing_lexed() }) {
            Err(e) => Err(e),
            Ok(s) => {
                let left = names_from(chunks, s.next);
                if left.len() == 0 || (left.len() == 1 && left[0] == "Builtin"@) {
                    Ok(ended(s.out, s.files))
                } else {
                    Err(
                        ast::err_at(
                            ast::dummy_span(),
                            text::nat_text(left.len())
                                + " unused VCL.SHOW chunk(s) after the include tree (expected at most a trailing 'Builtin' chunk): "@
                                + text::join(left, ", "@),
                        ),
                    )
                }
            },
        }
    }
}

fn splice_chunk(
    chunks: &[VclShowChunk],
    idx: usize,
    next: &mut usize,
    sm: &mut SourceMap,
    out: &mut Lexed,
) -> (r: core::result::Result<(), VclError>)
    requires
        idx < chunks@.len(),
        *old(next) <= chunks@.len(),
    ensures
        match r {
            Ok(_) => {
                &&& splice_chunk_from(
                    crate::vclshow::chunks_view(chunks@),
                    idx as nat,
                    ShowV { next: *old(next) as nat, files: old(sm)@, out: old(out)@ },
                ) == core::result::Result::<ShowV, ErrV>::Ok(
                    ShowV { next: *final(next) as nat, files: final(sm)@, out: final(out)@ },
                )
                &&& *old(next) <= *final(next) <= chunks@.len()
                &&& final(sm)@.len() > 0
                &&& old(sm)@.len() > 0 ==> final(sm)@[0] == old(sm)@[0]
            },
            Err(e) => splice_chunk_from(
                crate::vclshow::chunks_view(chunks@),
                idx as nat,
                ShowV { next: *old(next) as nat, files: old(sm)@, out: old(out)@ },
            ) == core::result::Result::<ShowV, ErrV>::Err(e@),
        },
    decreases chunks@.len() - *old(next), 1nat, 0nat,
{
    let ghost cv = crate::vclshow::chunks_view(chunks@);
    let chunk = &chunks[idx];
    let id: u32 = sm.add(chunk.filename.clone(), chunk.content.clone());
    let raw = match lex_single_file(chunk.content.as_str(), id) {
        Ok(l) => l,
        Err(e) => {
            return Err(e);
        },
    };
    let ghost goal = splice_chunk_tokens(
        cv,
        raw@,
        0,
        0,
        ShowV { next: *next as nat, files: sm@, out: out@ },
    );
    let mut i: usize = 0;
    let mut c: usize = 0;
    while i < raw.tokens.len()
        invariant
            cv == crate::vclshow::chunks_view(chunks@),
            i <= raw@.tokens.len(),
            c <= raw@.comments.len(),
            *old(next) <= *next <= chunks@.len(),
            sm@.len() > 0,
            old(sm)@.len() > 0 ==> sm@[0] == old(sm)@[0],
            goal == splice_chunk_tokens(
                cv,
                raw@,
                i as nat,
                c as nat,
                ShowV { next: *next as nat, files: sm@, out: out@ },
            ),
            goal == splice_chunk_from(
                cv,
                idx as nat,
                ShowV { next: *old(next) as nat, files: old(sm)@, out: old(out)@ },
            ),
        decreases raw@.tokens.len() - i,
    {
        if inclusion(&raw, i) {
            c = pass_comments(&raw, c, raw.tokens[i + 2].span.lo, out);
            if *next >= chunks.len() {
                return Err(
                    VclError::new(
                        raw.tokens[i + 1].span,
                        "include statement has no corresponding VCL.SHOW chunk left (dump truncated or malformed)".to_string(),
                    ),
                );
            }
            let child: usize = *next;
            *next = *next + 1;
            match splice_chunk(chunks, child, next, sm, out) {
                Ok(_) => {},
                Err(e) => {
                    return Err(e);
                },
            }
            i += 3;
        } else {
            c = pass_comments(&raw, c, raw.tokens[i].span.lo, out);
            out.push_token(raw.tokens[i].clone());
            i += 1;
        }
    }
    pass_all_comments(&raw, c, out);
    Ok(())
}

/// Lexes a dump, comments included: see [`lex_chunks`].
pub fn lex_from_vcl_show_full(chunks: &[VclShowChunk]) -> (r: VclResult<(Lexed, SourceMap)>)
    ensures
        stream_result(r) == lex_chunks(crate::vclshow::chunks_view(chunks@)),
{
    if chunks.len() == 0 {
        return Err(
            VclError::new(Span::dummy(), "no VCL.SHOW chunks found in input".to_string()),
        );
    }
    let mut sm = SourceMap::default();
    let mut out = Lexed::new();
    let mut next: usize = 1;
    match splice_chunk(chunks, 0, &mut next, &mut sm, &mut out) {
        Ok(_) => {},
        Err(e) => {
            return Err(e);
        },
    }
    let left: usize = chunks.len() - next;
    if left == 0 || (left == 1 && text::str_eq(chunks[next].filename.as_str(), "Builtin")) {
        return Ok((end_stream(out, &sm), sm));
    }
    let mut names: Vec<String> = Vec::new();
    let mut k: usize = next;
    while k < chunks.len()
        invariant
            next <= k <= chunks@.len(),
            names.len() == k - next,
            forall|j: int| 0 <= j < names.len() ==> (#[trigger] names@[j])@ == chunks@[next
                + j].filename@,
        decreases chunks@.len() - k,
    {
        names.push(chunks[k].filename.clone());
        k += 1;
    }
    assert(text::texts(names@) =~= names_from(crate::vclshow::chunks_view(chunks@), next as nat));
    let mut msg = text::u64_text(left as u64);
    msg.append(
        " unused VCL.SHOW chunk(s) after the include tree (expected at most a trailing 'Builtin' chunk): ",
    );
    msg.append(text::join_strings(&names, ", ").as_str());
    Err(VclError::new(Span::dummy(), msg))
}

/// Lexes a dump: see [`lex_chunks`].
pub fn lex_from_vcl_show(chunks: &[VclShowChunk]) -> (r: VclResult<(Vec<Token>, SourceMap)>)
    ensures
        tokens_result(r, lex_chunks(crate::vclshow::chunks_view(chunks@))),
{
    match lex_from_vcl_show_full(chunks) {
        Ok((l, sm)) => Ok((l.tokens, sm)),
        Err(e) => Err(e),
    }
}

} // verus!
