//! Where the comments between two items go: none is lost.

use crate::ast;
use crate::ast::{CommentMapV, Span};
use crate::grammar;
use crate::lexer::RawCommentV;
use crate::text;
use vstd::prelude::*;
use vstd::string::*;

verus! {

/// How many comments stand on the line on which the item before them ends.
pub open spec fn on_the_line(d: Seq<RawCommentV>, k: int) -> bool {
    &&& 0 <= k <= d.len()
    &&& forall|i: int| 0 <= i < k ==> !(#[trigger] d[i]).standalone
    &&& k < d.len() ==> d[k].standalone
}

proof fn lemma_inline(d: Seq<RawCommentV>, i: nat)
    requires
        i <= d.len(),
        forall|j: int| 0 <= j < i ==> !(#[trigger] d[j]).standalone,
    ensures
        on_the_line(d, grammar::inline_end(d, i) as int),
    decreases d.len() - i,
{
    if i < d.len() && !d[i as int].standalone {
        lemma_inline(d, i + 1);
    }
}

/// Of the comments between two items, those on the line of the first become the text
/// behind it, and all others stand before the second, each with its text and in their
/// order; without a first item all stand before the second.
pub proof fn law_comments_between_items_are_kept(
    out: CommentMapV,
    d: Seq<RawCommentV>,
    prev: Option<Span>,
    follow: Span,
    k: int,
)
    requires
        prev matches Some(p) ==> ast::comment_key(p) != ast::comment_key(follow),
        if prev is Some {
            on_the_line(d, k)
        } else {
            k == 0
        },
    ensures
        ({
            let r = grammar::route(out, d, prev, Some(follow)).0;
            let there = ast::comments_at(r, follow).leading;
            &&& k < d.len() ==> there.len() == d.len() - k && forall|i: int|
                0 <= i < there.len() ==> (#[trigger] there[i]).text == d[k + i].text
            &&& k == d.len() ==> ast::comments_at(r, follow) == ast::comments_at(out, follow)
            &&& k > 0 ==> ast::comments_at(r, prev->0).trailing == Some(
                text::join(Seq::new(k as nat, |i: int| d[i].text), "\n"@),
            )
            &&& k == 0 && prev is Some ==> ast::comments_at(r, prev->0) == ast::comments_at(
                out,
                prev->0,
            )
        }),
{
    lemma_inline(d, 0);
    let e = grammar::inline_end(d, 0) as int;
    if prev is Some {
        if e < k {
            assert(!d[e].standalone);
        } else if k < e {
            assert(!d[k].standalone);
        }
    }
    assert(grammar::comment_texts(d, k as nat) =~= Seq::new(k as nat, |i: int| d[i].text));
}

/// The comments behind the last item of a block are kept too: those on its line become
/// the text behind it, and all others are left over, in their order.
pub proof fn law_comments_behind_the_last_item_are_kept(
    out: CommentMapV,
    d: Seq<RawCommentV>,
    prev: Option<Span>,
    k: int,
)
    requires
        if prev is Some {
            on_the_line(d, k)
        } else {
            k == 0
        },
    ensures
        ({
            let (r, over) = grammar::route(out, d, prev, None);
            &&& over.len() == d.len() - k
            &&& forall|i: int| 0 <= i < over.len() ==> (#[trigger] over[i]).text == d[k + i].text
            &&& k > 0 ==> ast::comments_at(r, prev->0).trailing == Some(
                text::join(Seq::new(k as nat, |i: int| d[i].text), "\n"@),
            )
        }),
{
    lemma_inline(d, 0);
    let e = grammar::inline_end(d, 0) as int;
    if prev is Some {
        if e < k {
            assert(!d[e].standalone);
        } else if k < e {
            assert(!d[k].standalone);
        }
    }
    assert(grammar::comment_texts(d, k as nat) =~= Seq::new(k as nat, |i: int| d[i].text));
}

} // verus!
