//! Subroutines that are declared in several pieces.
//!
//! A builtin subroutine may be declared more than once. Its pieces run one
//! behind the other, so they are merged into one declaration where the first
//! piece stands. No other declaration is touched.

use crate::ast;
use crate::ast::{
    CommentMap, CommentMapV, CommentV, Decl, DeclV, LeadingComment, NodeCommentsV, Program,
    ProgramV, Span, Stmt, StmtV,
};
use crate::text;
use vstd::prelude::*;
use vstd::string::*;

verus! {

broadcast use ast::group_views;

// ───────────────────────── comments ─────────────────────────

/// The comments moved to the left margin.
pub open spec fn unindented(s: Seq<CommentV>) -> Seq<CommentV> {
    Seq::new(s.len(), |i: int| CommentV { text: s[i].text, unindented: true })
}

/// The comments before a declaration and the one behind its head, as lines at
/// the left margin.
pub open spec fn own_comments(c: NodeCommentsV) -> Seq<CommentV> {
    match c.trailing {
        Some(t) => unindented(c.leading).push(CommentV { text: t, unindented: true }),
        None => unindented(c.leading),
    }
}

/// The comments when the declaration at `span` is merged into another: its own
/// comments stand before its first statement. Where it has no statement they
/// are dropped.
pub open spec fn reattached(cm: CommentMapV, span: Span, body: Seq<StmtV>) -> CommentMapV {
    let key = ast::comment_key(span);
    if !cm.contains_key(key) {
        cm
    } else {
        let own = own_comments(cm[key]);
        let rest = cm.remove(key);
        if own.len() == 0 || body.len() == 0 {
            rest
        } else {
            let first = ast::stmt_span(body[0]);
            let c = ast::comments_at(rest, first);
            rest.insert(ast::comment_key(first), NodeCommentsV { leading: own + c.leading, ..c })
        }
    }
}

fn unindent(list: Vec<LeadingComment>) -> (r: Vec<LeadingComment>)
    ensures
        ast::comments_view(r@) == unindented(ast::comments_view(list@)),
{
    let ghost before = list@;
    let ghost want = unindented(ast::comments_view(before));
    let mut out: Vec<LeadingComment> = Vec::new();
    assert(ast::comments_view(out@) =~= want.take(0));
    for c in it: list
        invariant
            it.seq() == before,
            want == unindented(ast::comments_view(before)),
            ast::comments_view(out@) == want.take(it.index() as int),
    {
        let ghost at = it.index() as int;
        let next = LeadingComment { text: c.text, unindented: true };
        assert(want.take(at + 1) =~= want.take(at).push(next@));
        out.push(next);
    }
    assert(want.take(want.len() as int) =~= want);
    out
}

/// Moves the comments of a declaration that is merged into another.
fn reattach_fragment_comments(comments: &mut CommentMap, span: Span, body: &Vec<Stmt>)
    ensures
        final(comments)@ == reattached(old(comments)@, span, ast::stmts_view(body@)),
{
    let ghost before = comments@;
    let ghost key = ast::comment_key(span);
    match comments.take(span) {
        None => {
            assert(before.remove(key) =~= before);
        },
        Some(c) => {
            let mut own = unindent(c.leading);
            if let Some(t) = c.trailing {
                own.push(LeadingComment { text: t, unindented: true });
            }
            assert(ast::comments_view(own@) =~= own_comments(before[key]));
            if own.len() > 0 && body.len() > 0 {
                assert(ast::stmts_view(body@)[0] == body@[0]@);
                let entry = comments.entry(body[0].span());
                let ghost held = entry@;
                let ghost lines = own@;
                own.append(&mut entry.leading);
                proof {
                    assert(ast::comments_view(own@) =~= ast::comments_view(lines) + held.leading);
                }
                entry.leading = own;
            }
        },
    }
}

// ───────────────────────── merging ─────────────────────────

/// Whether a declaration is the subroutine of that name.
pub open spec fn is_sub(d: DeclV, name: Seq<char>) -> bool {
    d matches DeclV::Sub { name: n, .. } && n == name
}

/// The first declaration at or behind `i` that is the subroutine of that name,
/// or the number of declarations.
pub open spec fn sub_at(ds: Seq<DeclV>, name: Seq<char>, i: nat) -> nat
    decreases ds.len() - i,
{
    if i >= ds.len() || is_sub(ds[i as int], name) {
        i
    } else {
        sub_at(ds, name, i + 1)
    }
}

/// A subroutine with more statements at its end.
pub open spec fn with_more(d: DeclV, more: Seq<StmtV>) -> DeclV {
    match d {
        DeclV::Sub { name, body, span } => DeclV::Sub { name, body: body + more, span },
        d => d,
    }
}

/// Whether a declaration is a further piece of a subroutine of `ds`.
pub open spec fn continues(ds: Seq<DeclV>, d: DeclV) -> bool {
    d matches DeclV::Sub { name, .. } && ast::builtin_name(name) && sub_at(ds, name, 0) < ds.len()
}

/// The declarations with one more.
pub open spec fn merged_with(ds: Seq<DeclV>, d: DeclV) -> Seq<DeclV> {
    match d {
        DeclV::Sub { name, body, .. } if continues(ds, d) => {
            let i = sub_at(ds, name, 0) as int;
            ds.update(i, with_more(ds[i], body))
        },
        _ => ds.push(d),
    }
}

/// The first `n` declarations, merged.
pub open spec fn merged_first(ds: Seq<DeclV>, n: nat) -> Seq<DeclV>
    decreases n,
{
    if n == 0 {
        seq![]
    } else {
        merged_with(merged_first(ds, (n - 1) as nat), ds[n - 1])
    }
}

/// The comments after the first `n` declarations are merged.
pub open spec fn merged_comments(ds: Seq<DeclV>, cm: CommentMapV, n: nat) -> CommentMapV
    decreases n,
{
    if n == 0 {
        cm
    } else {
        let before = merged_comments(ds, cm, (n - 1) as nat);
        match ds[n - 1] {
            DeclV::Sub { body, span, .. } if continues(
                merged_first(ds, (n - 1) as nat),
                ds[n - 1],
            ) => reattached(before, span, body),
            _ => before,
        }
    }
}

/// A program with the pieces of its builtin subroutines merged.
pub open spec fn merged_program(p: ProgramV) -> ProgramV {
    ProgramV {
        decls: merged_first(p.decls, p.decls.len()),
        comments: merged_comments(p.decls, p.comments, p.decls.len()),
        ..p
    }
}

// ───────────────────────── laws ─────────────────────────

/// Whether no builtin subroutine is declared twice.
pub open spec fn declared_once(ds: Seq<DeclV>) -> bool {
    forall|i: int, j: int, name: Seq<char>|
        0 <= i < j < ds.len() && ast::builtin_name(name) && #[trigger] is_sub(ds[i], name)
            ==> !#[trigger] is_sub(ds[j], name)
}

pub(crate) proof fn lemma_sub_at(ds: Seq<DeclV>, name: Seq<char>, i: nat)
    requires
        i <= ds.len(),
    ensures
        i <= sub_at(ds, name, i) <= ds.len(),
        forall|j: int| i <= j < sub_at(ds, name, i) ==> !is_sub(#[trigger] ds[j], name),
        sub_at(ds, name, i) < ds.len() ==> is_sub(ds[sub_at(ds, name, i) as int], name),
    decreases ds.len() - i,
{
    if i < ds.len() && !is_sub(ds[i as int], name) {
        lemma_sub_at(ds, name, i + 1);
    }
}

proof fn lemma_once_with(ds: Seq<DeclV>, d: DeclV)
    requires
        declared_once(ds),
    ensures
        declared_once(merged_with(ds, d)),
{
    let m = merged_with(ds, d);
    assert forall|i: int, j: int, name: Seq<char>|
        0 <= i < j < m.len() && ast::builtin_name(name) && #[trigger] is_sub(
            m[i],
            name,
        ) implies !#[trigger] is_sub(m[j], name) by {
        lemma_sub_at(ds, name, 0);
        if let DeclV::Sub { name: n, .. } = d {
            lemma_sub_at(ds, n, 0);
        }
        assert(is_sub(ds[i], name));
        if j < ds.len() {
            assert(is_sub(m[j], name) ==> is_sub(ds[j], name));
        }
    }
}

pub(crate) proof fn lemma_once(ds: Seq<DeclV>, n: nat)
    ensures
        declared_once(merged_first(ds, n)),
    decreases n,
{
    if n > 0 {
        lemma_once(ds, (n - 1) as nat);
        lemma_once_with(merged_first(ds, (n - 1) as nat), ds[n - 1]);
    }
}

/// In a merged program every builtin subroutine is declared at most once.
pub proof fn law_builtins_are_declared_once(p: ProgramV)
    ensures
        declared_once(merged_program(p).decls),
{
    lemma_once(p.decls, p.decls.len());
}

/// The statements of all pieces of a subroutine among the first `n`
/// declarations, one piece behind the other.
pub open spec fn pieces(ds: Seq<DeclV>, name: Seq<char>, n: nat) -> Seq<StmtV>
    decreases n,
{
    if n == 0 {
        seq![]
    } else {
        let before = pieces(ds, name, (n - 1) as nat);
        match ds[n - 1] {
            DeclV::Sub { name: m, body, .. } if m == name => before + body,
            _ => before,
        }
    }
}

/// Whether a subroutine is among the first `n` declarations.
pub open spec fn declared(ds: Seq<DeclV>, name: Seq<char>, n: nat) -> bool {
    exists|i: int| 0 <= i < n && is_sub(#[trigger] ds[i], name)
}

pub(crate) proof fn lemma_joined(ds: Seq<DeclV>, name: Seq<char>, n: nat)
    requires
        ast::builtin_name(name),
        n <= ds.len(),
    ensures
        ({
            let m = merged_first(ds, n);
            let at = sub_at(m, name, 0);
            &&& declared(ds, name, n) == (at < m.len())
            &&& at < m.len() ==> m[at as int]->Sub_body == pieces(ds, name, n)
            &&& at >= m.len() ==> pieces(ds, name, n) =~= Seq::<StmtV>::empty()
        }),
    decreases n,
{
    if n > 0 {
        lemma_joined(ds, name, (n - 1) as nat);
        let before = merged_first(ds, (n - 1) as nat);
        let m = merged_first(ds, n);
        let d = ds[n - 1];
        lemma_sub_at(before, name, 0);
        lemma_sub_at(m, name, 0);
        let a = sub_at(before, name, 0) as int;
        let b = sub_at(m, name, 0) as int;
        if declared(ds, name, (n - 1) as nat) {
            let i = choose|i: int| 0 <= i < n - 1 && is_sub(#[trigger] ds[i], name);
            assert(is_sub(ds[i], name));
            assert(declared(ds, name, n));
        }
        if is_sub(d, name) {
            assert(is_sub(ds[n - 1], name));
            if a < before.len() {
                assert(forall|j: int| 0 <= j < a ==> m[j] == before[j]);
                assert(is_sub(m[a], name));
                assert(b == a);
            } else {
                assert(forall|j: int| 0 <= j < before.len() ==> m[j] == before[j]);
                assert(is_sub(m[before.len() as int], name));
                assert(b == before.len());
                assert(pieces(ds, name, n) =~= d->Sub_body);
            }
        } else {
            if let DeclV::Sub { name: n2, .. } = d {
                lemma_sub_at(before, n2, 0);
            }
            assert forall|j: int| 0 <= j < m.len() implies is_sub(#[trigger] m[j], name) == (j
                < before.len() && is_sub(before[j], name)) by {}
            if a < before.len() {
                assert(is_sub(m[a], name));
                assert(b == a);
                assert(m[a] == before[a]);
            }
            if declared(ds, name, n) {
                let i = choose|i: int| 0 <= i < n && is_sub(#[trigger] ds[i], name);
                assert(i < n - 1);
                assert(declared(ds, name, (n - 1) as nat));
            }
        }
    }
}

/// The body of a merged builtin subroutine is the bodies of its pieces, in the
/// order in which they were declared.
pub proof fn law_pieces_are_joined(p: ProgramV, name: Seq<char>)
    requires
        ast::builtin_name(name),
        declared(p.decls, name, p.decls.len()),
    ensures
        exists|i: int|
            0 <= i < merged_program(p).decls.len() && is_sub(
                #[trigger] merged_program(p).decls[i],
                name,
            ) && merged_program(p).decls[i]->Sub_body == pieces(p.decls, name, p.decls.len()),
{
    lemma_joined(p.decls, name, p.decls.len());
    let m = merged_program(p).decls;
    lemma_sub_at(m, name, 0);
    assert(is_sub(m[sub_at(m, name, 0) as int], name));
}

/// The declarations that are no builtin subroutine, in their order.
pub open spec fn others(ds: Seq<DeclV>) -> Seq<DeclV>
    decreases ds.len(),
{
    if ds.len() == 0 {
        seq![]
    } else if ds.last() is Sub && ast::builtin_name(ds.last()->Sub_name) {
        others(ds.drop_last())
    } else {
        others(ds.drop_last()).push(ds.last())
    }
}

proof fn lemma_others_update(ds: Seq<DeclV>, i: int, d: DeclV)
    requires
        0 <= i < ds.len(),
        ds[i] is Sub && ast::builtin_name(ds[i]->Sub_name),
        d is Sub && d->Sub_name == ds[i]->Sub_name,
    ensures
        others(ds.update(i, d)) == others(ds),
    decreases ds.len(),
{
    let t = ds.update(i, d);
    if i == ds.len() - 1 {
        assert(t.drop_last() =~= ds.drop_last());
    } else {
        assert(t.drop_last() =~= ds.drop_last().update(i, d));
        lemma_others_update(ds.drop_last(), i, d);
    }
}

pub(crate) proof fn lemma_others_kept(ds: Seq<DeclV>, n: nat)
    requires
        n <= ds.len(),
    ensures
        others(merged_first(ds, n)) == others(ds.take(n as int)),
    decreases n,
{
    if n > 0 {
        lemma_others_kept(ds, (n - 1) as nat);
        let before = merged_first(ds, (n - 1) as nat);
        let d = ds[n - 1];
        assert(ds.take(n as int).drop_last() =~= ds.take(n - 1));
        if continues(before, d) {
            lemma_sub_at(before, d->Sub_name, 0);
            let i = sub_at(before, d->Sub_name, 0) as int;
            lemma_others_update(before, i, with_more(before[i], d->Sub_body));
        } else {
            assert(before.push(d).drop_last() =~= before);
        }
    }
}

/// Every other declaration stays as it is, and in its order.
pub proof fn law_other_declarations_stay(p: ProgramV)
    ensures
        others(merged_program(p).decls) == others(p.decls),
{
    lemma_others_kept(p.decls, p.decls.len());
    assert(p.decls.take(p.decls.len() as int) =~= p.decls);
}

proof fn lemma_nothing_to_merge(ds: Seq<DeclV>, cm: CommentMapV, n: nat)
    requires
        declared_once(ds),
        n <= ds.len(),
    ensures
        merged_first(ds, n) == ds.take(n as int),
        merged_comments(ds, cm, n) == cm,
    decreases n,
{
    if n > 0 {
        lemma_nothing_to_merge(ds, cm, (n - 1) as nat);
        let before = ds.take(n - 1);
        if let DeclV::Sub { name, .. } = ds[n - 1] {
            lemma_sub_at(before, name, 0);
            if continues(before, ds[n - 1]) {
                let i = sub_at(before, name, 0) as int;
                assert(is_sub(ds[i], name));
                assert(is_sub(ds[n - 1], name));
            }
        }
    }
    assert(merged_first(ds, n) =~= ds.take(n as int));
}

/// A program in which every builtin subroutine is declared once is left as it
/// is; so merging twice is merging once.
pub proof fn law_merging_is_done_once(p: ProgramV)
    ensures
        declared_once(p.decls) ==> merged_program(p) == p,
        merged_program(merged_program(p)) == merged_program(p),
{
    law_builtins_are_declared_once(p);
    let m = merged_program(p);
    lemma_nothing_to_merge(m.decls, m.comments, m.decls.len());
    assert(m.decls.take(m.decls.len() as int) =~= m.decls);
    if declared_once(p.decls) {
        lemma_nothing_to_merge(p.decls, p.comments, p.decls.len());
        assert(p.decls.take(p.decls.len() as int) =~= p.decls);
    }
}

// ───────────────────────── the code ─────────────────────────

fn is_sub_named(d: &Decl, name: &str) -> (r: bool)
    ensures
        r == is_sub(d@, name@),
{
    match d {
        Decl::Sub { name: n, .. } => text::str_eq(n.as_str(), name),
        _ => false,
    }
}

fn find_sub(ds: &Vec<Decl>, name: &str) -> (r: usize)
    ensures
        r as nat == sub_at(ast::decls_view(ds@), name@, 0),
        r <= ds@.len(),
{
    let ghost dv = ast::decls_view(ds@);
    let mut i: usize = 0;
    while i < ds.len() && !is_sub_named(&ds[i], name)
        invariant
            dv == ast::decls_view(ds@),
            i <= ds@.len(),
            sub_at(dv, name@, 0) == sub_at(dv, name@, i as nat),
        decreases ds@.len() - i,
    {
        assert(dv[i as int] == ds@[i as int]@);
        i += 1;
    }
    assert(i < ds@.len() ==> dv[i as int] == ds@[i as int]@);
    i
}

/// Merges the pieces of the builtin subroutines of a program.
pub fn merge_subs(p: &mut Program)
    ensures
        final(p)@ == merged_program(old(p)@),
{
    let mut decls: Vec<Decl> = Vec::new();
    std::mem::swap(&mut decls, &mut p.decls);
    let ghost list = decls@;
    let ghost lv = ast::decls_view(list);
    let ghost cm = p.comments@;
    let ghost rest = p@;
    let mut merged: Vec<Decl> = Vec::new();
    assert(ast::decls_view(merged@) =~= merged_first(lv, 0));
    for d in it: decls
        invariant
            it.seq() == list,
            lv == ast::decls_view(list),
            ast::decls_view(merged@) == merged_first(lv, it.index() as nat),
            p.comments@ == merged_comments(lv, cm, it.index() as nat),
            p.vcl_version == rest.vcl_version,
            ast::comments_view(p.trailing_comments@) == rest.trailing_comments,
    {
        let ghost at = it.index() as int;
        let ghost before = merged@;
        assert(lv[at] == d@);
        match d {
            Decl::Sub { name, body, span } => {
                let builtin = ast::is_builtin_sub(name.as_str());
                let i: usize = find_sub(&merged, name.as_str());
                if builtin && i < merged.len() {
                    reattach_fragment_comments(&mut p.comments, span, &body);
                    let first = merged.remove(i);
                    assert(ast::decls_view(before)[i as int] == first@);
                    let whole = joined(first, body);
                    merged.insert(i, whole);
                    assert(ast::decls_view(merged@) =~= ast::decls_view(before).update(
                        i as int,
                        whole@,
                    ));
                } else {
                    merged.push(Decl::Sub { name, body, span });
                }
            },
            other => {
                merged.push(other);
            },
        }
    }
    p.decls = merged;
}

fn joined(d: Decl, more: Vec<Stmt>) -> (r: Decl)
    ensures
        r@ == with_more(d@, ast::stmts_view(more@)),
{
    match d {
        Decl::Sub { name, body, span } => {
            let mut all = body;
            let mut rest = more;
            let ghost a = all@;
            let ghost b = rest@;
            all.append(&mut rest);
            assert(ast::stmts_view(all@) =~= ast::stmts_view(a) + ast::stmts_view(b));
            Decl::Sub { name, body: all, span }
        },
        other => other,
    }
}

/// The comments of a piece that is joined to an earlier one stand before the first
/// statement of the piece, in front of the comments that stood there, and all other
/// comments stay.
pub proof fn law_comments_of_pieces_are_kept(
    cm: CommentMapV,
    span: Span,
    body: Seq<StmtV>,
    other: Span,
)
    requires
        body.len() > 0,
        ast::comment_key(span) != ast::comment_key(ast::stmt_span(body[0])),
    ensures
        ({
            let first = ast::stmt_span(body[0]);
            let r = reattached(cm, span, body);
            let own = ast::comments_at(cm, span);
            let old = ast::comments_at(cm, first);
            let new = ast::comments_at(r, first);
            let n = own.leading.len() as int;
            let m = if own.trailing is Some {
                n + 1
            } else {
                n
            };
            &&& ast::comments_at(r, span) == ast::no_comments()
            &&& new.leading.len() == m + old.leading.len()
            &&& forall|i: int|
                0 <= i < n ==> (#[trigger] new.leading[i]).text == own.leading[i].text
            &&& own.trailing matches Some(t) ==> new.leading[n].text == t
            &&& forall|i: int|
                0 <= i < old.leading.len() ==> #[trigger] old.leading[i] == new.leading[m + i]
            &&& new.trailing == old.trailing && new.after == old.after
            &&& ast::comment_key(other) != ast::comment_key(span) && ast::comment_key(other)
                != ast::comment_key(first) ==> ast::comments_at(r, other) == ast::comments_at(
                cm,
                other,
            )
        }),
{
    let key = ast::comment_key(span);
    if cm.contains_key(key) {
        let own = own_comments(cm[key]);
        if own.len() == 0 {
            assert(cm[key].leading.len() == 0);
        }
    }
}

} // verus!
