//! How operators bind: a chain of operands and operators without parentheses is
//! split at its loosest operator, and at the last one of several.

use crate::ast::{BinOp, ExprV, UnOp};
use crate::grammar;
use crate::grammar::{InputV, Parse, PlaceV};
use crate::lexer::TokV;
use vstd::prelude::*;

verus! {

// ───────────────────────── chains ─────────────────────────

/// How tightly an operator binds.
pub open spec fn rung(op: BinOp) -> nat {
    match op {
        BinOp::Or => 1,
        BinOp::And => 2,
        BinOp::Eq => 3,
        BinOp::Ne => 3,
        BinOp::Match => 3,
        BinOp::NotMatch => 3,
        BinOp::Lt => 3,
        BinOp::Le => 3,
        BinOp::Gt => 3,
        BinOp::Ge => 3,
        BinOp::Add => 4,
        BinOp::Sub => 4,
        BinOp::Mul => 5,
        BinOp::Div => 5,
    }
}

/// How an operator is written.
pub open spec fn sign(op: BinOp) -> TokV {
    match op {
        BinOp::Or => TokV::OrOr,
        BinOp::And => TokV::AndAnd,
        BinOp::Eq => TokV::EqEq,
        BinOp::Ne => TokV::Neq,
        BinOp::Match => TokV::Tilde,
        BinOp::NotMatch => TokV::NTilde,
        BinOp::Lt => TokV::Lt,
        BinOp::Le => TokV::Leq,
        BinOp::Gt => TokV::Gt,
        BinOp::Ge => TokV::Geq,
        BinOp::Add => TokV::Plus,
        BinOp::Sub => TokV::Minus,
        BinOp::Mul => TokV::Star,
        BinOp::Div => TokV::Slash,
    }
}

/// Operands with operators between them, and where they stand.
pub struct ChainV {
    pub operands: Seq<ExprV>,
    pub ops: Seq<BinOp>,
    pub starts: Seq<PlaceV>,
    pub ends: Seq<PlaceV>,
}

/// Whether an operand stands from one place to another.
pub open spec fn stands(inp: InputV, from: PlaceV, e: ExprV, to: PlaceV) -> bool {
    grammar::p_unary(inp, from) == Parse::Read(e, to) && from.pos < to.pos <= inp.toks.len()
}

/// Whether no operator stands at a place.
pub open spec fn no_sign(t: TokV) -> bool {
    forall|op: BinOp| t != #[trigger] sign(op)
}

/// Whether a chain is written in a stream, with no operator behind it.
pub open spec fn written(inp: InputV, c: ChainV) -> bool {
    let n = c.ops.len() as int;
    &&& c.operands.len() == n + 1
    &&& c.starts.len() == n + 1
    &&& c.ends.len() == n + 1
    &&& forall|i: int|
        0 <= i <= n ==> stands(inp, #[trigger] c.starts[i], c.operands[i], c.ends[i])
    &&& forall|i: int|
        0 <= i < n ==> grammar::tok(inp, #[trigger] c.ends[i]) == sign(c.ops[i]) && c.starts[i + 1]
            == grammar::next(c.ends[i])
    &&& no_sign(grammar::tok(inp, c.ends[n]))
}

/// Whether no two comparisons stand side by side: between two of them stands `&&`
/// or `||`.
#[verifier::opaque]
pub open spec fn compares_once(c: ChainV) -> bool {
    forall|i: int, j: int|
        0 <= i < j < c.ops.len() && rung(#[trigger] c.ops[i]) == 3 && rung(#[trigger] c.ops[j]) == 3
            ==> exists|k: int| i < k < j && rung(#[trigger] c.ops[k]) < 3
}

/// The last of the loosest operators from `lo` on and before `hi`.
pub open spec fn split_at(ops: Seq<BinOp>, lo: int, hi: int) -> int
    decreases hi - lo,
{
    if hi <= lo + 1 {
        lo
    } else {
        let k = split_at(ops, lo, hi - 1);
        if rung(ops[hi - 1]) <= rung(ops[k]) {
            hi - 1
        } else {
            k
        }
    }
}

/// What the operands from `lo` to `hi` stand for, with the operators between them.
pub open spec fn tree(c: ChainV, lo: int, hi: int) -> ExprV
    decreases hi - lo,
    when lo <= hi
{
    if lo == hi {
        c.operands[lo]
    } else {
        let k = split_at(c.ops, lo, hi);
        if lo <= k < hi {
            ExprV::Binary {
                op: c.ops[k],
                lhs: Box::new(tree(c, lo, k)),
                rhs: Box::new(tree(c, k + 1, hi)),
            }
        } else {
            arbitrary()
        }
    }
}

proof fn lemma_split(ops: Seq<BinOp>, lo: int, hi: int)
    requires
        lo < hi,
    ensures
        lo <= split_at(ops, lo, hi) < hi,
        forall|j: int|
            lo <= j < hi ==> rung(#[trigger] ops[j]) >= rung(ops[split_at(ops, lo, hi)]),
        forall|j: int|
            split_at(ops, lo, hi) < j < hi ==> rung(#[trigger] ops[j]) > rung(
                ops[split_at(ops, lo, hi)],
            ),
    decreases hi - lo,
{
    if hi > lo + 1 {
        lemma_split(ops, lo, hi - 1);
    }
}

/// Two chains with an operator between them that is the last of the loosest.
proof fn lemma_tree(c: ChainV, lo: int, i: int, hi: int)
    requires
        lo <= i < hi,
        forall|j: int| lo <= j < i ==> rung(#[trigger] c.ops[j]) >= rung(c.ops[i]),
        forall|j: int| i < j < hi ==> rung(#[trigger] c.ops[j]) > rung(c.ops[i]),
    ensures
        tree(c, lo, hi) == grammar::binary(c.ops[i], tree(c, lo, i), tree(c, i + 1, hi)),
{
    lemma_split(c.ops, lo, hi);
    let k = split_at(c.ops, lo, hi);
    assert(rung(c.ops[k]) >= 0 && rung(c.ops[i]) >= 0);
}

/// The first place at or behind `lo` at which the chain ends or an operator is
/// looser than `r`.
spec fn until(c: ChainV, r: nat, lo: int) -> int
    decreases c.ops.len() - lo,
{
    if lo >= c.ops.len() || rung(c.ops[lo]) < r {
        lo
    } else {
        until(c, r, lo + 1)
    }
}

proof fn lemma_until(c: ChainV, r: nat, lo: int)
    requires
        0 <= lo <= c.ops.len(),
    ensures
        lo <= until(c, r, lo) <= c.ops.len(),
        forall|j: int| lo <= j < until(c, r, lo) ==> rung(#[trigger] c.ops[j]) >= r,
        until(c, r, lo) < c.ops.len() ==> rung(c.ops[until(c, r, lo)]) < r,
    decreases c.ops.len() - lo,
{
    if lo < c.ops.len() && rung(c.ops[lo]) >= r {
        lemma_until(c, r, lo + 1);
    }
}

/// What is read of the rest of a rung goes to where the rung ends.
proof fn lemma_same_end(c: ChainV, r: nat, lo: int, i: int)
    requires
        0 <= lo <= i <= until(c, r, lo),
        i <= c.ops.len(),
    ensures
        until(c, r, i) == until(c, r, lo),
    decreases c.ops.len() - lo,
{
    if lo < i {
        lemma_same_end(c, r, lo + 1, i);
    }
}

/// What stands behind the operand at `i`.
proof fn lemma_behind(inp: InputV, c: ChainV, i: int)
    requires
        written(inp, c),
        0 <= i <= c.ops.len(),
    ensures
        i < c.ops.len() ==> grammar::tok(inp, c.ends[i]) == sign(c.ops[i]) && c.starts[i + 1]
            == grammar::next(c.ends[i]),
        i == c.ops.len() ==> no_sign(grammar::tok(inp, c.ends[i])),
        stands(inp, c.starts[i], c.operands[i], c.ends[i]),
{
    assert(stands(inp, c.starts[i], c.operands[i], c.ends[i]));
}

proof fn lemma_ahead(inp: InputV, c: ChainV, i: int, j: int)
    requires
        written(inp, c),
        0 <= i <= j <= c.ops.len(),
    ensures
        grammar::moved(inp, c.starts[i], c.ends[j]),
        i < j ==> grammar::moved(inp, c.ends[i], c.ends[j]),
    decreases j - i,
{
    lemma_behind(inp, c, i);
    lemma_behind(inp, c, j);
    if i < j {
        lemma_ahead(inp, c, i, j - 1);
        lemma_behind(inp, c, j - 1);
    }
}

proof fn lemma_not_signs(t: TokV)
    requires
        no_sign(t),
    ensures
        grammar::product_op(t) is None,
        grammar::sum_op(t) is None,
        grammar::comparison(t) is None,
        !(t is AndAnd),
        !(t is OrOr),
{
    assert(t != sign(BinOp::Or) && t != sign(BinOp::And));
    assert(t != sign(BinOp::Eq) && t != sign(BinOp::Ne));
    assert(t != sign(BinOp::Match) && t != sign(BinOp::NotMatch));
    assert(t != sign(BinOp::Lt) && t != sign(BinOp::Le));
    assert(t != sign(BinOp::Gt) && t != sign(BinOp::Ge));
    assert(t != sign(BinOp::Add) && t != sign(BinOp::Sub));
    assert(t != sign(BinOp::Mul) && t != sign(BinOp::Div));
}

/// What a rung reads from an operand on.
spec fn reach(c: ChainV, r: nat, lo: int) -> Parse<ExprV> {
    Parse::Read(tree(c, lo, until(c, r, lo)), c.ends[until(c, r, lo)])
}

// ───────────────────────── the rungs ─────────────────────────

proof fn lemma_product_rest(inp: InputV, c: ChainV, lo: int, i: int)
    requires
        written(inp, c),
        0 <= lo <= i <= until(c, 5, lo),
        i <= c.ops.len(),
    ensures
        grammar::p_mul_rest(inp, c.ends[i], tree(c, lo, i)) == reach(c, 5, lo),
    decreases c.ops.len() - i,
{
    lemma_until(c, 5, lo);
    lemma_behind(inp, c, i);
    if i < until(c, 5, lo) {
        lemma_behind(inp, c, i + 1);
        lemma_ahead(inp, c, i, i + 1);
        assert(rung(c.ops[i]) >= 5);
        assert(tree(c, i + 1, i + 1) == c.operands[i + 1]);
        lemma_tree(c, lo, i, i + 1);
        lemma_product_rest(inp, c, lo, i + 1);
    } else if i == c.ops.len() {
        lemma_not_signs(grammar::tok(inp, c.ends[i]));
    }
}

proof fn lemma_product(inp: InputV, c: ChainV, lo: int)
    requires
        written(inp, c),
        0 <= lo <= c.ops.len(),
    ensures
        grammar::p_mul(inp, c.starts[lo]) == reach(c, 5, lo),
{
    lemma_behind(inp, c, lo);
    lemma_ahead(inp, c, lo, lo);
    lemma_until(c, 5, lo);
    lemma_product_rest(inp, c, lo, lo);
}

#[verifier::spinoff_prover]
#[verifier::rlimit(60)]
proof fn lemma_sum_rest(inp: InputV, c: ChainV, lo: int, i: int)
    requires
        written(inp, c),
        0 <= lo <= i <= until(c, 4, lo),
        i <= c.ops.len(),
        i == c.ops.len() || rung(c.ops[i]) <= 4,
    ensures
        grammar::p_add_rest(inp, c.ends[i], tree(c, lo, i)) == reach(c, 4, lo),
    decreases c.ops.len() - i,
{
    lemma_until(c, 4, lo);
    lemma_behind(inp, c, i);
    if i < until(c, 4, lo) {
        assert(rung(c.ops[i]) >= 4);
        let e = until(c, 5, i + 1);
        lemma_until(c, 5, i + 1);
        lemma_product(inp, c, i + 1);
        lemma_ahead(inp, c, i, e);
        lemma_tree(c, lo, i, e);
        assert(e <= until(c, 4, lo)) by {
            if e > until(c, 4, lo) {
                assert(rung(c.ops[until(c, 4, lo)]) >= 5);
            }
        }
        lemma_sum_rest(inp, c, lo, e);
    } else if i == c.ops.len() {
        lemma_not_signs(grammar::tok(inp, c.ends[i]));
    }
}

proof fn lemma_sum(inp: InputV, c: ChainV, lo: int)
    requires
        written(inp, c),
        0 <= lo <= c.ops.len(),
    ensures
        grammar::p_add(inp, c.starts[lo]) == reach(c, 4, lo),
{
    let e = until(c, 5, lo);
    lemma_until(c, 5, lo);
    lemma_until(c, 4, lo);
    lemma_product(inp, c, lo);
    lemma_ahead(inp, c, lo, e);
    assert(e <= until(c, 4, lo)) by {
        if e > until(c, 4, lo) {
            assert(rung(c.ops[until(c, 4, lo)]) >= 5);
        }
    }
    lemma_sum_rest(inp, c, lo, e);
}

/// Between two comparisons stands a looser operator.
proof fn lemma_parted(c: ChainV, i: int, j: int) -> (k: int)
    requires
        compares_once(c),
        0 <= i < j < c.ops.len(),
        rung(c.ops[i]) == 3,
        rung(c.ops[j]) == 3,
    ensures
        i < k < j,
        rung(c.ops[k]) < 3,
{
    reveal(compares_once);
    assert(rung(c.ops[i]) == 3 && rung(c.ops[j]) == 3);
    choose|k: int| i < k < j && rung(#[trigger] c.ops[k]) < 3
}

#[verifier::spinoff_prover]
#[verifier::rlimit(60)]
proof fn lemma_compared(inp: InputV, c: ChainV, lo: int)
    requires
        written(inp, c),
        compares_once(c),
        0 <= lo <= c.ops.len(),
    ensures
        grammar::p_cmp(inp, c.starts[lo]) == reach(c, 3, lo),
{
    let e = until(c, 4, lo);
    lemma_until(c, 4, lo);
    lemma_until(c, 3, lo);
    lemma_sum(inp, c, lo);
    lemma_behind(inp, c, e);
    lemma_ahead(inp, c, lo, e);
    assert(e <= until(c, 3, lo)) by {
        if e > until(c, 3, lo) {
            assert(rung(c.ops[until(c, 3, lo)]) >= 4);
        }
    }
    lemma_same_end(c, 3, lo, e);
    if e == c.ops.len() {
        lemma_not_signs(grammar::tok(inp, c.ends[e]));
    } else if rung(c.ops[e]) == 3 {
        let f = until(c, 4, e + 1);
        lemma_until(c, 4, e + 1);
        lemma_sum(inp, c, e + 1);
        lemma_behind(inp, c, f);
        lemma_ahead(inp, c, lo, e + 1);
        lemma_behind(inp, c, e + 1);
        assert(until(c, 3, e) == until(c, 3, e + 1));
        lemma_until(c, 3, e + 1);
        assert(f <= until(c, 3, e + 1)) by {
            if f > until(c, 3, e + 1) {
                assert(rung(c.ops[until(c, 3, e + 1)]) >= 4);
            }
        }
        lemma_same_end(c, 3, e + 1, f);
        if f == c.ops.len() {
            lemma_not_signs(grammar::tok(inp, c.ends[f]));
        } else if rung(c.ops[f]) == 3 {
            let k = lemma_parted(c, e, f);
            assert(rung(c.ops[k]) >= 4);
        }
        assert(until(c, 3, f) == f);
        lemma_tree(c, lo, e, f);
    }
}

#[verifier::spinoff_prover]
#[verifier::rlimit(60)]
proof fn lemma_all_rest(inp: InputV, c: ChainV, lo: int, i: int)
    requires
        written(inp, c),
        compares_once(c),
        0 <= lo <= i <= until(c, 2, lo),
        i <= c.ops.len(),
        i == c.ops.len() || rung(c.ops[i]) <= 2,
    ensures
        grammar::p_and_rest(inp, c.ends[i], tree(c, lo, i)) == reach(c, 2, lo),
    decreases c.ops.len() - i,
{
    lemma_until(c, 2, lo);
    lemma_behind(inp, c, i);
    if i < until(c, 2, lo) {
        assert(rung(c.ops[i]) >= 2);
        let e = until(c, 3, i + 1);
        lemma_until(c, 3, i + 1);
        lemma_compared(inp, c, i + 1);
        lemma_ahead(inp, c, i, e);
        lemma_tree(c, lo, i, e);
        assert(e <= until(c, 2, lo)) by {
            if e > until(c, 2, lo) {
                assert(rung(c.ops[until(c, 2, lo)]) >= 3);
            }
        }
        lemma_all_rest(inp, c, lo, e);
    } else if i == c.ops.len() {
        lemma_not_signs(grammar::tok(inp, c.ends[i]));
    }
}

proof fn lemma_all(inp: InputV, c: ChainV, lo: int)
    requires
        written(inp, c),
        compares_once(c),
        0 <= lo <= c.ops.len(),
    ensures
        grammar::p_and(inp, c.starts[lo]) == reach(c, 2, lo),
{
    let e = until(c, 3, lo);
    lemma_until(c, 3, lo);
    lemma_until(c, 2, lo);
    lemma_compared(inp, c, lo);
    lemma_ahead(inp, c, lo, e);
    assert(e <= until(c, 2, lo)) by {
        if e > until(c, 2, lo) {
            assert(rung(c.ops[until(c, 2, lo)]) >= 3);
        }
    }
    lemma_all_rest(inp, c, lo, e);
}

#[verifier::spinoff_prover]
#[verifier::rlimit(60)]
proof fn lemma_any_rest(inp: InputV, c: ChainV, lo: int, i: int)
    requires
        written(inp, c),
        compares_once(c),
        0 <= lo <= i <= until(c, 1, lo),
        i <= c.ops.len(),
        i == c.ops.len() || rung(c.ops[i]) <= 1,
    ensures
        grammar::p_or_rest(inp, c.ends[i], tree(c, lo, i)) == reach(c, 1, lo),
    decreases c.ops.len() - i,
{
    lemma_until(c, 1, lo);
    lemma_behind(inp, c, i);
    if i < until(c, 1, lo) {
        assert(rung(c.ops[i]) >= 1);
        let e = until(c, 2, i + 1);
        lemma_until(c, 2, i + 1);
        lemma_all(inp, c, i + 1);
        lemma_ahead(inp, c, i, e);
        lemma_tree(c, lo, i, e);
        assert(e <= until(c, 1, lo)) by {
            if e > until(c, 1, lo) {
                assert(rung(c.ops[until(c, 1, lo)]) >= 2);
            }
        }
        lemma_any_rest(inp, c, lo, e);
    } else if i == c.ops.len() {
        lemma_not_signs(grammar::tok(inp, c.ends[i]));
    } else {
        assert(rung(c.ops[i]) < 1);
    }
}

/// A chain of operands and operators is split at the last of its loosest
/// operators, and so are its parts: `||` is looser than `&&`, that than the
/// comparisons, these than `+` and `-`, and those than `*` and `/`.
#[verifier::spinoff_prover]
#[verifier::rlimit(60)]
pub proof fn law_chains_are_split_at_the_loosest_operator(inp: InputV, c: ChainV)
    requires
        written(inp, c),
        compares_once(c),
    ensures
        grammar::p_expr(inp, c.starts[0]) == Parse::Read(
            tree(c, 0, c.ops.len() as int),
            c.ends[c.ops.len() as int],
        ),
{
    let e = until(c, 2, 0);
    lemma_until(c, 2, 0);
    lemma_until(c, 1, 0);
    assert(until(c, 1, 0) == c.ops.len()) by {
        if until(c, 1, 0) < c.ops.len() {
            assert(rung(c.ops[until(c, 1, 0)]) < 1);
        }
    }
    lemma_all(inp, c, 0);
    lemma_ahead(inp, c, 0, e);
    lemma_any_rest(inp, c, 0, e);
    assert(grammar::p_expr(inp, c.starts[0]) == grammar::p_or(inp, c.starts[0]));
}

// ───────────────────────── three operands ─────────────────────────

/// Whether three operands stand one behind the other, each but the first behind one
/// more token, and no operator stands behind them.
pub open spec fn three(
    inp: InputV,
    at: PlaceV,
    x: ExprV,
    s: PlaceV,
    y: ExprV,
    t: PlaceV,
    z: ExprV,
    u: PlaceV,
) -> bool {
    &&& stands(inp, at, x, s)
    &&& stands(inp, grammar::next(s), y, t)
    &&& stands(inp, grammar::next(t), z, u)
    &&& no_sign(grammar::tok(inp, u))
}

proof fn lemma_three(
    inp: InputV,
    at: PlaceV,
    x: ExprV,
    s: PlaceV,
    y: ExprV,
    t: PlaceV,
    z: ExprV,
    u: PlaceV,
    p: BinOp,
    q: BinOp,
)
    requires
        three(inp, at, x, s, y, t, z, u),
        grammar::tok(inp, s) == sign(p),
        grammar::tok(inp, t) == sign(q),
        rung(p) != 3 || rung(q) != 3,
    ensures
        rung(p) < rung(q) ==> grammar::p_expr(inp, at) == Parse::Read(
            grammar::binary(p, x, grammar::binary(q, y, z)),
            u,
        ),
        rung(q) <= rung(p) ==> grammar::p_expr(inp, at) == Parse::Read(
            grammar::binary(q, grammar::binary(p, x, y), z),
            u,
        ),
{
    let c = ChainV {
        operands: seq![x, y, z],
        ops: seq![p, q],
        starts: seq![at, grammar::next(s), grammar::next(t)],
        ends: seq![s, t, u],
    };
    assert(written(inp, c)) by {
        assert forall|i: int| 0 <= i <= 2 implies stands(
            inp,
            #[trigger] c.starts[i],
            c.operands[i],
            c.ends[i],
        ) by {
            assert(i == 0 || i == 1 || i == 2);
        }
    }
    assert(compares_once(c)) by {
        reveal(compares_once);
        assert forall|i: int, j: int|
            0 <= i < j < 2 && rung(#[trigger] c.ops[i]) == 3 && rung(
                #[trigger] c.ops[j],
            ) == 3 implies exists|k: int| i < k < j && rung(#[trigger] c.ops[k]) < 3 by {
            assert(i == 0 && j == 1);
        }
    }
    law_chains_are_split_at_the_loosest_operator(inp, c);
    if rung(p) < rung(q) {
        lemma_tree(c, 0, 0, 2);
        lemma_tree(c, 1, 1, 2);
    } else {
        lemma_tree(c, 0, 1, 2);
        lemma_tree(c, 0, 0, 1);
    }
    assert(tree(c, 0, 0) == x && tree(c, 1, 1) == y && tree(c, 2, 2) == z);
}

/// A term behind `+` or `-` extends over a following `*` or `/`, and one before them
/// is whole: `x + y / z` is `x + (y / z)`, and `x / y + z` is `(x / y) + z`.
pub proof fn law_products_bind_tighter_than_sums(
    inp: InputV,
    at: PlaceV,
    x: ExprV,
    s: PlaceV,
    y: ExprV,
    t: PlaceV,
    z: ExprV,
    u: PlaceV,
)
    requires
        three(inp, at, x, s, y, t, z, u),
    ensures
        ({
            let (p, q) = (grammar::tok(inp, s), grammar::tok(inp, t));
            let sum = if p is Plus || q is Plus {
                BinOp::Add
            } else {
                BinOp::Sub
            };
            let product = if p is Star || q is Star {
                BinOp::Mul
            } else {
                BinOp::Div
            };
            &&& (p is Plus || p is Minus) && (q is Star || q is Slash) ==> grammar::p_expr(inp, at)
                == Parse::Read(
                ExprV::Binary {
                    op: sum,
                    lhs: Box::new(x),
                    rhs: Box::new(
                        ExprV::Binary { op: product, lhs: Box::new(y), rhs: Box::new(z) },
                    ),
                },
                u,
            )
            &&& (p is Star || p is Slash) && (q is Plus || q is Minus) ==> grammar::p_expr(inp, at)
                == Parse::Read(
                ExprV::Binary {
                    op: sum,
                    lhs: Box::new(
                        ExprV::Binary { op: product, lhs: Box::new(x), rhs: Box::new(y) },
                    ),
                    rhs: Box::new(z),
                },
                u,
            )
        }),
{
    let (p, q) = (grammar::tok(inp, s), grammar::tok(inp, t));
    let sum = if p is Plus || q is Plus {
        BinOp::Add
    } else {
        BinOp::Sub
    };
    let product = if p is Star || q is Star {
        BinOp::Mul
    } else {
        BinOp::Div
    };
    if (p is Plus || p is Minus) && (q is Star || q is Slash) {
        lemma_three(inp, at, x, s, y, t, z, u, sum, product);
    }
    if (p is Star || p is Slash) && (q is Plus || q is Minus) {
        lemma_three(inp, at, x, s, y, t, z, u, product, sum);
    }
}

/// Operators of one rung are read from left to right: `x / y * z` is `(x / y) * z`,
/// and `x - y + z` is `(x - y) + z`.
pub proof fn law_operators_of_one_rung_are_read_from_the_left(
    inp: InputV,
    at: PlaceV,
    x: ExprV,
    s: PlaceV,
    y: ExprV,
    t: PlaceV,
    z: ExprV,
    u: PlaceV,
)
    requires
        three(inp, at, x, s, y, t, z, u),
    ensures
        ({
            let (p, q) = (grammar::tok(inp, s), grammar::tok(inp, t));
            let left = |a: BinOp, b: BinOp|
                Parse::Read(
                    ExprV::Binary {
                        op: b,
                        lhs: Box::new(ExprV::Binary { op: a, lhs: Box::new(x), rhs: Box::new(y) }),
                        rhs: Box::new(z),
                    },
                    u,
                );
            let r = grammar::p_expr(inp, at);
            &&& p is Star && q is Star ==> r == left(BinOp::Mul, BinOp::Mul)
            &&& p is Star && q is Slash ==> r == left(BinOp::Mul, BinOp::Div)
            &&& p is Slash && q is Star ==> r == left(BinOp::Div, BinOp::Mul)
            &&& p is Slash && q is Slash ==> r == left(BinOp::Div, BinOp::Div)
            &&& p is Plus && q is Plus ==> r == left(BinOp::Add, BinOp::Add)
            &&& p is Plus && q is Minus ==> r == left(BinOp::Add, BinOp::Sub)
            &&& p is Minus && q is Plus ==> r == left(BinOp::Sub, BinOp::Add)
            &&& p is Minus && q is Minus ==> r == left(BinOp::Sub, BinOp::Sub)
            &&& p is AndAnd && q is AndAnd ==> r == left(BinOp::And, BinOp::And)
            &&& p is OrOr && q is OrOr ==> r == left(BinOp::Or, BinOp::Or)
            &&& p is AndAnd && q is OrOr ==> r == left(BinOp::And, BinOp::Or)
        }),
{
    let (p, q) = (grammar::tok(inp, s), grammar::tok(inp, t));
    if p is Star && q is Star {
        lemma_three(inp, at, x, s, y, t, z, u, BinOp::Mul, BinOp::Mul);
    } else if p is Star && q is Slash {
        lemma_three(inp, at, x, s, y, t, z, u, BinOp::Mul, BinOp::Div);
    } else if p is Slash && q is Star {
        lemma_three(inp, at, x, s, y, t, z, u, BinOp::Div, BinOp::Mul);
    } else if p is Slash && q is Slash {
        lemma_three(inp, at, x, s, y, t, z, u, BinOp::Div, BinOp::Div);
    } else if p is Plus && q is Plus {
        lemma_three(inp, at, x, s, y, t, z, u, BinOp::Add, BinOp::Add);
    } else if p is Plus && q is Minus {
        lemma_three(inp, at, x, s, y, t, z, u, BinOp::Add, BinOp::Sub);
    } else if p is Minus && q is Plus {
        lemma_three(inp, at, x, s, y, t, z, u, BinOp::Sub, BinOp::Add);
    } else if p is Minus && q is Minus {
        lemma_three(inp, at, x, s, y, t, z, u, BinOp::Sub, BinOp::Sub);
    } else if p is AndAnd && q is AndAnd {
        lemma_three(inp, at, x, s, y, t, z, u, BinOp::And, BinOp::And);
    } else if p is OrOr && q is OrOr {
        lemma_three(inp, at, x, s, y, t, z, u, BinOp::Or, BinOp::Or);
    } else if p is AndAnd && q is OrOr {
        lemma_three(inp, at, x, s, y, t, z, u, BinOp::And, BinOp::Or);
    }
}

/// Whether a token is that of a comparison.
pub open spec fn compares(t: TokV, op: BinOp) -> bool {
    ||| t is EqEq && op is Eq
    ||| t is Neq && op is Ne
    ||| t is Tilde && op is Match
    ||| t is NTilde && op is NotMatch
    ||| t is Lt && op is Lt
    ||| t is Leq && op is Le
    ||| t is Gt && op is Gt
    ||| t is Geq && op is Ge
}

/// Comparisons are looser than sums and products and tighter than `&&` and `||`,
/// and `&&` is tighter than `||`.
pub proof fn law_comparisons_stand_between(
    inp: InputV,
    at: PlaceV,
    x: ExprV,
    s: PlaceV,
    y: ExprV,
    t: PlaceV,
    z: ExprV,
    u: PlaceV,
    op: BinOp,
)
    requires
        three(inp, at, x, s, y, t, z, u),
    ensures
        ({
            let (p, q) = (grammar::tok(inp, s), grammar::tok(inp, t));
            let r = grammar::p_expr(inp, at);
            let left = |a: BinOp, b: BinOp|
                Parse::Read(
                    ExprV::Binary {
                        op: b,
                        lhs: Box::new(ExprV::Binary { op: a, lhs: Box::new(x), rhs: Box::new(y) }),
                        rhs: Box::new(z),
                    },
                    u,
                );
            let right = |a: BinOp, b: BinOp|
                Parse::Read(
                    ExprV::Binary {
                        op: a,
                        lhs: Box::new(x),
                        rhs: Box::new(ExprV::Binary { op: b, lhs: Box::new(y), rhs: Box::new(z) }),
                    },
                    u,
                );
            &&& compares(p, op) && q is Plus ==> r == right(op, BinOp::Add)
            &&& compares(p, op) && q is Minus ==> r == right(op, BinOp::Sub)
            &&& compares(p, op) && q is Star ==> r == right(op, BinOp::Mul)
            &&& compares(p, op) && q is Slash ==> r == right(op, BinOp::Div)
            &&& compares(p, op) && q is AndAnd ==> r == left(op, BinOp::And)
            &&& compares(p, op) && q is OrOr ==> r == left(op, BinOp::Or)
            &&& p is Plus && compares(q, op) ==> r == left(BinOp::Add, op)
            &&& p is Minus && compares(q, op) ==> r == left(BinOp::Sub, op)
            &&& p is Star && compares(q, op) ==> r == left(BinOp::Mul, op)
            &&& p is Slash && compares(q, op) ==> r == left(BinOp::Div, op)
            &&& p is AndAnd && compares(q, op) ==> r == right(BinOp::And, op)
            &&& p is OrOr && compares(q, op) ==> r == right(BinOp::Or, op)
            &&& p is OrOr && q is AndAnd ==> r == right(BinOp::Or, BinOp::And)
        }),
{
    let (p, q) = (grammar::tok(inp, s), grammar::tok(inp, t));
    if compares(p, op) {
        if q is Plus {
            lemma_three(inp, at, x, s, y, t, z, u, op, BinOp::Add);
        } else if q is Minus {
            lemma_three(inp, at, x, s, y, t, z, u, op, BinOp::Sub);
        } else if q is Star {
            lemma_three(inp, at, x, s, y, t, z, u, op, BinOp::Mul);
        } else if q is Slash {
            lemma_three(inp, at, x, s, y, t, z, u, op, BinOp::Div);
        } else if q is AndAnd {
            lemma_three(inp, at, x, s, y, t, z, u, op, BinOp::And);
        } else if q is OrOr {
            lemma_three(inp, at, x, s, y, t, z, u, op, BinOp::Or);
        }
    }
    if compares(q, op) {
        if p is Plus {
            lemma_three(inp, at, x, s, y, t, z, u, BinOp::Add, op);
        } else if p is Minus {
            lemma_three(inp, at, x, s, y, t, z, u, BinOp::Sub, op);
        } else if p is Star {
            lemma_three(inp, at, x, s, y, t, z, u, BinOp::Mul, op);
        } else if p is Slash {
            lemma_three(inp, at, x, s, y, t, z, u, BinOp::Div, op);
        } else if p is AndAnd {
            lemma_three(inp, at, x, s, y, t, z, u, BinOp::And, op);
        } else if p is OrOr {
            lemma_three(inp, at, x, s, y, t, z, u, BinOp::Or, op);
        }
    }
    if p is OrOr && q is AndAnd {
        lemma_three(inp, at, x, s, y, t, z, u, BinOp::Or, BinOp::And);
    }
}

/// Two comparisons side by side are refused.
pub proof fn law_comparisons_do_not_associate(
    inp: InputV,
    at: PlaceV,
    x: ExprV,
    s: PlaceV,
    y: ExprV,
    t: PlaceV,
    a: BinOp,
    b: BinOp,
)
    requires
        stands(inp, at, x, s),
        stands(inp, grammar::next(s), y, t),
        compares(grammar::tok(inp, s), a),
        compares(grammar::tok(inp, t), b),
    ensures
        grammar::p_expr(inp, at) is Bad,
{
    let n = grammar::next(s);
    assert(grammar::p_mul_rest(inp, s, x) == Parse::Read(x, s));
    assert(grammar::p_mul(inp, at) == Parse::Read(x, s));
    assert(grammar::p_add_rest(inp, s, x) == Parse::Read(x, s));
    assert(grammar::p_add(inp, at) == Parse::Read(x, s));
    assert(grammar::p_mul_rest(inp, t, y) == Parse::Read(y, t));
    assert(grammar::p_mul(inp, n) == Parse::Read(y, t));
    assert(grammar::p_add_rest(inp, t, y) == Parse::Read(y, t));
    assert(grammar::p_add(inp, n) == Parse::Read(y, t));
    assert(grammar::p_cmp(inp, at) is Bad);
    assert(grammar::p_and(inp, at) is Bad);
    assert(grammar::p_or(inp, at) is Bad);
}

/// `!` and `-` before an operand belong to that operand alone, and what stands in
/// parentheses is one operand.
pub proof fn law_signs_and_parentheses_make_operands(
    inp: InputV,
    at: PlaceV,
    x: ExprV,
    s: PlaceV,
)
    ensures
        grammar::tok(inp, at) is Bang && stands(inp, grammar::next(at), x, s) ==> stands(
            inp,
            at,
            ExprV::Unary { op: UnOp::Not, expr: Box::new(x) },
            s,
        ),
        grammar::tok(inp, at) is Minus && stands(inp, grammar::next(at), x, s) ==> stands(
            inp,
            at,
            ExprV::Unary { op: UnOp::Neg, expr: Box::new(x) },
            s,
        ),
        grammar::tok(inp, at) is LParen && grammar::p_expr(inp, grammar::next(at)) == Parse::Read(
            x,
            s,
        ) && grammar::tok(inp, s) is RParen && at.pos <= s.pos < inp.toks.len() ==> stands(
            inp,
            at,
            x,
            grammar::next(s),
        ),
{
    let n = grammar::next(at);
    if grammar::tok(inp, at) is LParen {
        assert(grammar::p_unary(inp, at) == grammar::p_primary(inp, at));
    }
}

/// A string, a number, C source, a truth value and a name is an operand by itself.
pub proof fn law_tokens_that_are_operands(inp: InputV, at: PlaceV)
    ensures
        grammar::tok(inp, at) matches TokV::Str(s) ==> stands(
            inp,
            at,
            ExprV::Str(s),
            grammar::next(at),
        ),
        grammar::tok(inp, at) matches TokV::Num(s) ==> stands(
            inp,
            at,
            ExprV::Num(s),
            grammar::next(at),
        ),
        grammar::tok(inp, at) matches TokV::CSource(s) ==> stands(
            inp,
            at,
            ExprV::CSource(s),
            grammar::next(at),
        ),
        grammar::tok(inp, at) == TokV::Ident("true"@) ==> stands(
            inp,
            at,
            ExprV::Bool(true),
            grammar::next(at),
        ),
        grammar::tok(inp, at) == TokV::Ident("false"@) ==> stands(
            inp,
            at,
            ExprV::Bool(false),
            grammar::next(at),
        ),
{
    reveal_strlit("true");
    reveal_strlit("false");
    assert("true"@.len() == 4 && "false"@.len() == 5);
    if at.pos < inp.toks.len() && grammar::unary_op(grammar::tok(inp, at)) is None {
        assert(grammar::p_unary(inp, at) == grammar::p_primary(inp, at));
    }
}

} // verus!
