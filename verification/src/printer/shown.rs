//! What is printed of an item: all its lines, and all its comments around them.

use crate::ast;
use crate::ast::{CommentMapV, CommentV, Span};
use crate::printer;
use crate::printer::BlankRule;
use vstd::prelude::*;
use vstd::string::*;

verus! {

/// A comment of one line as it is printed.
pub open spec fn printed(c: CommentV, ind: Seq<char>) -> Seq<char> {
    if c.unindented {
        c.text
    } else {
        ind + c.text
    }
}

proof fn lemma_block(cs: Seq<CommentV>, ind: Seq<char>, n: nat, i: int)
    requires
        0 <= i < n <= cs.len(),
        !cs[i].text.contains('\n'),
    ensures
        printer::block_lines(cs, ind, n).contains(printed(cs[i], ind)),
    decreases n,
{
    let before = printer::block_lines(cs, ind, (n - 1) as nat);
    let last = printer::comment_lines(cs[n - 1], ind);
    if i < n - 1 {
        lemma_block(cs, ind, (n - 1) as nat, i);
    } else {
        assert(Seq::<char>::empty() + cs[i].text =~= cs[i].text);
        assert(last[0] == printed(cs[i], ind));
    }
    lemma_either(before, last, printed(cs[i], ind));
}

proof fn lemma_either(x: Seq<Seq<char>>, y: Seq<Seq<char>>, l: Seq<char>)
    ensures
        x.contains(l) || y.contains(l) ==> (x + y).contains(l),
{
    if x.contains(l) {
        let i = choose|i: int| 0 <= i < x.len() && x[i] == l;
        assert((x + y)[i] == l);
    } else if y.contains(l) {
        let i = choose|i: int| 0 <= i < y.len() && y[i] == l;
        assert((x + y)[i + x.len()] == l);
    }
}

proof fn lemma_parts(
    h: Seq<Seq<char>>,
    a: Seq<Seq<char>>,
    b: Seq<Seq<char>>,
    c: Seq<Seq<char>>,
    l: Seq<char>,
)
    requires
        a.contains(l) || b.contains(l) || c.contains(l),
    ensures
        (h + a + b + c).contains(l),
{
    lemma_either(h, a, l);
    lemma_either(h + a, b, l);
    lemma_either(h + a + b, c, l);
}

/// Of an item all lines are printed, with every comment before it and behind it on a
/// line of its own, and the one on its line behind its first line.
pub proof fn law_items_are_printed_with_their_comments(
    cm: CommentMapV,
    span: Span,
    ind: Seq<char>,
    first: bool,
    rule: BlankRule,
    core: Seq<Seq<char>>,
    i: int,
)
    ensures
        ({
            let c = ast::comments_at(cm, span);
            let lines = printer::item_lines(cm, span, ind, first, rule, core);
            &&& 0 <= i < c.leading.len() && !c.leading[i].text.contains('\n') ==> lines.contains(
                printed(c.leading[i], ind),
            )
            &&& 0 <= i < c.after.len() && !c.after[i].text.contains('\n') ==> lines.contains(
                printed(c.after[i], ind),
            )
            &&& 0 <= i < core.len() && (i > 0 || c.trailing is None) ==> lines.contains(core[i])
            &&& core.len() > 0 && c.trailing is Some && !c.trailing->0.contains('\n')
                ==> lines.contains(core[0] + "  "@ + c.trailing->0)
        }),
{
    let c = ast::comments_at(cm, span);
    let lines = printer::item_lines(cm, span, ind, first, rule, core);
    let gap = !first && match rule {
        BlankRule::Always => true,
        BlankRule::IfLeading => c.leading.len() > 0,
        BlankRule::Never => false,
    };
    let head = if gap {
        seq![Seq::<char>::empty()]
    } else {
        seq![]
    };
    let lead = printer::block_lines(c.leading, ind, c.leading.len());
    let body = printer::with_trailing(core, c.trailing);
    let after = printer::block_lines(c.after, ind, c.after.len());
    let tail = if c.after.len() > 0 {
        seq![Seq::<char>::empty()] + after
    } else {
        seq![]
    };
    assert(lines == head + lead + body + tail);
    if 0 <= i < c.leading.len() && !c.leading[i].text.contains('\n') {
        lemma_block(c.leading, ind, c.leading.len(), i);
        lemma_parts(head, lead, body, tail, printed(c.leading[i], ind));
    }
    if 0 <= i < c.after.len() && !c.after[i].text.contains('\n') {
        lemma_block(c.after, ind, c.after.len(), i);
        lemma_either(seq![Seq::<char>::empty()], after, printed(c.after[i], ind));
        lemma_parts(head, lead, body, tail, printed(c.after[i], ind));
    }
    if 0 <= i < core.len() && (i > 0 || c.trailing is None) {
        assert(body[i] == core[i]);
        lemma_parts(head, lead, body, tail, core[i]);
    }
    if core.len() > 0 && c.trailing is Some && !c.trailing->0.contains('\n') {
        let t = c.trailing->0;
        assert forall|k: int| 0 <= k < t.len() implies t[k] != '\n' by {
            assert(t.contains(t[k]));
        }
        assert(printer::one_line(t) =~= t);
        assert(body[0] == core[0] + "  "@ + t);
        lemma_parts(head, lead, body, tail, core[0] + "  "@ + t);
    }
}

} // verus!
