//! The lines of a source file.

use crate::ast;
use crate::ast::{Span, NEWLINE};
use crate::text;
use vstd::prelude::*;

verus! {

/// Where line `k` of a text starts, counted from nought.
pub open spec fn line_from(b: Seq<u8>, k: nat) -> nat
    decreases k,
{
    if k == 0 {
        0
    } else {
        ast::line_end(b, line_from(b, (k - 1) as nat)) + 1
    }
}

proof fn lemma_line_start(b: Seq<u8>, n: nat)
    ensures
        ast::line_start(b, n) <= n,
        forall|i: int| ast::line_start(b, n) <= i < n ==> #[trigger] b[i] != NEWLINE,
    decreases n,
{
    if n > 0 && b[n - 1] != NEWLINE {
        lemma_line_start(b, (n - 1) as nat);
    }
}

proof fn lemma_line_end(b: Seq<u8>, m: nat, n: nat)
    requires
        m <= n <= b.len(),
        forall|i: int| m <= i < n ==> #[trigger] b[i] != NEWLINE,
    ensures
        ast::line_end(b, m) == ast::line_end(b, n),
        n <= ast::line_end(b, n) <= b.len(),
    decreases n - m, b.len() - n,
{
    if m < n {
        lemma_line_end(b, m + 1, n);
    } else if n < b.len() && b[n as int] != NEWLINE {
        lemma_line_end(b, n + 1, n + 1);
    }
}

proof fn lemma_line_from(b: Seq<u8>, n: nat)
    requires
        n <= b.len(),
    ensures
        line_from(b, ast::newlines_before(b, n)) == ast::line_start(b, n),
    decreases n,
{
    if n > 0 {
        let m = (n - 1) as nat;
        lemma_line_from(b, m);
        if b[n - 1] == NEWLINE {
            lemma_line_start(b, m);
            lemma_line_end(b, ast::line_start(b, m), m);
        }
    }
}

/// The text that is shown of a place is the line whose number is reported, and
/// the reported column lies in it or right behind it.
pub proof fn law_the_reported_line_is_shown(b: Seq<u8>, span: Span)
    requires
        b.len() < u32::MAX,
    ensures
        ({
            let from = line_from(b, (ast::span_line(b, span) - 1) as nat);
            let to = ast::line_end(b, from);
            &&& from <= to <= b.len()
            &&& ast::span_line_text(b, span) == text::text_of(b, from as int, to as int)
            &&& ast::span_column(b, span) - 1 <= to - from
            &&& from + ast::span_column(b, span) - 1 == ast::span_start(b, span)
        }),
{
    let n = ast::span_start(b, span);
    ast::lemma_newlines_bound(b, n);
    lemma_line_from(b, n);
    lemma_line_start(b, n);
    lemma_line_end(b, ast::line_start(b, n), n);
}

} // verus!
