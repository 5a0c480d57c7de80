//! What a divergence tells of each side is what stands there in the program of that
//! side, and with the programs exchanged the sides are exchanged.

use crate::ast;
use crate::ast::{
    AclEntryV, ArgV, ArmV, DeclV, ExprV, FieldV, FieldValueV, FileV, ProgramV, Span, StmtV,
};
use crate::canon;
use crate::compare;
use crate::compare::DivV;
use crate::json;
use crate::printer;
use crate::text;
use vstd::prelude::*;
use vstd::string::*;

verus! {

// ───────────────────────── what is told ─────────────────────────

/// A place in a list.
pub open spec fn place(i: int) -> bool {
    0 <= i
}

/// Both sides have a place, and one text each.
pub open spec fn both(d: DivV, sa: Span, sb: Span, a: Seq<char>, b: Seq<char>) -> bool {
    d.span_a == Some(sa) && d.span_b == Some(sb) && d.snippet_a == a && d.snippet_b == b
}

/// Only the first side has a place; the other is missing.
pub open spec fn only_a(d: DivV, sa: Span, a: Seq<char>) -> bool {
    d.span_a == Some(sa) && d.span_b is None && d.snippet_a == a && d.snippet_b == "<missing>"@
}

/// Only the second side has a place; the other is missing.
pub open spec fn only_b(d: DivV, sb: Span, b: Seq<char>) -> bool {
    d.span_a is None && d.span_b == Some(sb) && d.snippet_a == "<missing>"@ && d.snippet_b == b
}

/// What is told of the expressions at one place of two lists in two statements.
pub open spec fn tells_exprs(
    la: Seq<ExprV>,
    lb: Seq<ExprV>,
    sa: Span,
    sb: Span,
    i: int,
    d: DivV,
) -> bool {
    if i < la.len() && i < lb.len() {
        both(d, sa, sb, printer::expr_text(la[i]), printer::expr_text(lb[i]))
    } else if i < la.len() {
        both(d, sa, sb, printer::expr_text(la[i]), "<missing>"@)
    } else {
        i < lb.len() && both(d, sa, sb, "<missing>"@, printer::expr_text(lb[i]))
    }
}

/// What is told of the arguments at one place of two lists in two statements.
pub open spec fn tells_args(
    la: Seq<ArgV>,
    lb: Seq<ArgV>,
    sa: Span,
    sb: Span,
    i: int,
    d: DivV,
) -> bool {
    if i < la.len() && i < lb.len() {
        if la[i].name == lb[i].name {
            both(d, sa, sb, printer::expr_text(la[i].value), printer::expr_text(lb[i].value))
        } else {
            both(d, sa, sb, compare::arg_snippet(la[i]), compare::arg_snippet(lb[i]))
        }
    } else if i < la.len() {
        both(d, sa, sb, compare::arg_snippet(la[i]), "<missing>"@)
    } else {
        i < lb.len() && both(d, sa, sb, "<missing>"@, compare::arg_snippet(lb[i]))
    }
}

/// What is told of two lists of statements: of two statements at one place, or of one
/// that the other list has no counterpart of.
pub open spec fn tells_stmts(la: Seq<StmtV>, lb: Seq<StmtV>, d: DivV) -> bool
    decreases la, 1int,
{
    exists|i: int| #[trigger]
        place(i) && if i < la.len() && i < lb.len() {
            tells_stmt(la[i], lb[i], d)
        } else if i < la.len() {
            only_a(d, ast::stmt_span(la[i]), printer::stmt_text(la[i]))
        } else {
            i < lb.len() && only_b(d, ast::stmt_span(lb[i]), printer::stmt_text(lb[i]))
        }
}

/// What is told of two statements: both of them, or two parts of them that correspond.
pub open spec fn tells_stmt(a: StmtV, b: StmtV, d: DivV) -> bool
    decreases a, 0int,
{
    let sa = ast::stmt_span(a);
    let sb = ast::stmt_span(b);
    ||| both(d, sa, sb, printer::stmt_text(a), printer::stmt_text(b))
    ||| match (a, b) {
        (StmtV::Assign { rhs: x, .. }, StmtV::Assign { rhs: y, .. }) => both(
            d,
            sa,
            sb,
            printer::expr_text(x),
            printer::expr_text(y),
        ),
        (StmtV::Return { action: Some(x), .. }, StmtV::Return { action: Some(y), .. }) => exists|
            i: int,
        | #[trigger]
            place(i) && tells_exprs(x.args, y.args, sa, sb, i, d),
        (StmtV::Synthetic { value: x, .. }, StmtV::Synthetic { value: y, .. }) => both(
            d,
            sa,
            sb,
            printer::expr_text(x),
            printer::expr_text(y),
        ),
        (StmtV::New { args: x, .. }, StmtV::New { args: y, .. }) => exists|i: int| #[trigger]
            place(i) && tells_args(x, y, sa, sb, i, d),
        (StmtV::Expr { expr: x, .. }, StmtV::Expr { expr: y, .. }) => both(
            d,
            sa,
            sb,
            printer::expr_text(x),
            printer::expr_text(y),
        ),
        (StmtV::If { arms: x, else_body: ex, .. }, StmtV::If { arms: y, else_body: ey, .. }) => {
            ||| exists|i: int| #[trigger]
                place(i) && i < x.len() && i < y.len() && (both(
                    d,
                    sa,
                    sb,
                    printer::expr_text(x[i].cond),
                    printer::expr_text(y[i].cond),
                ) || tells_stmts(x[i].body, y[i].body, d))
            ||| match (ex, ey) {
                (Some(s), Some(t)) => tells_stmts(s, t, d),
                _ => false,
            }
        },
        _ => false,
    }
}

/// What is told of two lists of fields.
pub open spec fn tells_fields(la: Seq<FieldV>, lb: Seq<FieldV>, d: DivV) -> bool
    decreases la, 1int,
{
    exists|i: int| #[trigger]
        place(i) && if i < la.len() && i < lb.len() {
            tells_field(la[i], lb[i], d)
        } else if i < la.len() {
            only_a(d, la[i].span, compare::field_snippet(la[i]))
        } else {
            i < lb.len() && only_b(d, lb[i].span, compare::field_snippet(lb[i]))
        }
}

/// What is told of two fields.
pub open spec fn tells_field(a: FieldV, b: FieldV, d: DivV) -> bool
    decreases a, 0int,
{
    if a.name != b.name {
        both(d, a.span, b.span, compare::field_snippet(a), compare::field_snippet(b))
    } else {
        match (a.value, b.value) {
            (FieldValueV::Expr(x), FieldValueV::Expr(y)) => both(
                d,
                a.span,
                b.span,
                printer::expr_text(x),
                printer::expr_text(y),
            ),
            (FieldValueV::Probe(x), FieldValueV::Probe(y)) => tells_fields(x, y, d),
            (FieldValueV::ProbeRef(x), FieldValueV::ProbeRef(y)) => both(d, a.span, b.span, x, y),
            (FieldValueV::StringList(x), FieldValueV::StringList(y)) => both(
                d,
                a.span,
                b.span,
                compare::list_debug(x),
                compare::list_debug(y),
            ),
            (x, y) => both(
                d,
                a.span,
                b.span,
                json::compact_text(canon::field_value_json(x)),
                json::compact_text(canon::field_value_json(y)),
            ),
        }
    }
}

/// What is told of two lists of addresses.
pub open spec fn tells_entries(la: Seq<AclEntryV>, lb: Seq<AclEntryV>, d: DivV) -> bool {
    exists|i: int| #[trigger]
        place(i) && if i < la.len() && i < lb.len() {
            both(
                d,
                la[i].span,
                lb[i].span,
                compare::entry_snippet(la[i]),
                compare::entry_snippet(lb[i]),
            )
        } else if i < la.len() {
            only_a(d, la[i].span, compare::entry_snippet(la[i]))
        } else {
            i < lb.len() && only_b(d, lb[i].span, compare::entry_snippet(lb[i]))
        }
}

/// The text of what a backend holds, where it holds something.
pub open spec fn body_text(b: Option<Seq<FieldV>>) -> Seq<char> {
    match b {
        Some(fs) => compare::fields_snippet(fs),
        None => "<none>"@,
    }
}

/// What is told of two declarations.
pub open spec fn tells_decl(a: DeclV, b: DeclV, d: DivV) -> bool {
    let sa = ast::decl_span(a);
    let sb = ast::decl_span(b);
    if !compare::same_decl_kind(a, b) || ast::decl_name(a) != ast::decl_name(b) {
        both(d, sa, sb, compare::decl_snippet(a), compare::decl_snippet(b))
    } else {
        match (a, b) {
            (DeclV::Import { from: x, .. }, DeclV::Import { from: y, .. }) => both(
                d,
                sa,
                sb,
                compare::opt_debug(x),
                compare::opt_debug(y),
            ),
            (
                DeclV::Backend { none: na, body: x, .. },
                DeclV::Backend { none: nb, body: y, .. },
            ) => {
                ||| both(d, sa, sb, compare::bool_text(na), compare::bool_text(nb))
                ||| both(d, sa, sb, body_text(x), body_text(y))
                ||| match (x, y) {
                    (Some(s), Some(t)) => tells_fields(s, t, d),
                    _ => false,
                }
            },
            (DeclV::Probe { body: x, .. }, DeclV::Probe { body: y, .. }) => tells_fields(x, y, d),
            (DeclV::Acl { entries: x, .. }, DeclV::Acl { entries: y, .. }) => tells_entries(
                x,
                y,
                d,
            ),
            (DeclV::Sub { body: x, .. }, DeclV::Sub { body: y, .. }) => tells_stmts(x, y, d),
            _ => false,
        }
    }
}

/// What is told of two programs.
pub open spec fn tells(p: ProgramV, q: ProgramV, d: DivV) -> bool {
    exists|i: int| #[trigger]
        place(i) && if i < p.decls.len() && i < q.decls.len() {
            tells_decl(p.decls[i], q.decls[i], d)
        } else if i < p.decls.len() {
            only_a(d, ast::decl_span(p.decls[i]), compare::decl_snippet(p.decls[i]))
        } else {
            i < q.decls.len() && only_b(
                d,
                ast::decl_span(q.decls[i]),
                compare::decl_snippet(q.decls[i]),
            )
        }
}

proof fn lemma_told_exprs(
    la: Seq<ExprV>,
    lb: Seq<ExprV>,
    sa: Span,
    sb: Span,
    path: Seq<Seq<char>>,
    prefix: Seq<char>,
    i: nat,
)
    ensures
        forall|d: DivV| #[trigger]
            compare::exprs_divs(la, lb, sa, sb, path, prefix, i).contains(d) ==> exists|j: int|
             #[trigger]
                place(j) && tells_exprs(la, lb, sa, sb, j, d),
    decreases compare::most(la.len(), lb.len()) - i,
{
    if i < compare::most(la.len(), lb.len()) {
        lemma_told_exprs(la, lb, sa, sb, path, prefix, i + 1);
        let rest = compare::exprs_divs(la, lb, sa, sb, path, prefix, i + 1);
        assert(place(i as int));
        assert forall|d: DivV| #[trigger]
            compare::exprs_divs(la, lb, sa, sb, path, prefix, i).contains(d) implies exists|j: int|
         #[trigger]
            place(j) && tells_exprs(la, lb, sa, sb, j, d) by {
            if !rest.contains(d) {
                assert(tells_exprs(la, lb, sa, sb, i as int, d));
            }
        }
    }
}

proof fn lemma_told_args(
    la: Seq<ArgV>,
    lb: Seq<ArgV>,
    sa: Span,
    sb: Span,
    path: Seq<Seq<char>>,
    prefix: Seq<char>,
    i: nat,
)
    ensures
        forall|d: DivV| #[trigger]
            compare::args_divs(la, lb, sa, sb, path, prefix, i).contains(d) ==> exists|j: int|
             #[trigger]
                place(j) && tells_args(la, lb, sa, sb, j, d),
    decreases compare::most(la.len(), lb.len()) - i,
{
    if i < compare::most(la.len(), lb.len()) {
        lemma_told_args(la, lb, sa, sb, path, prefix, i + 1);
        let rest = compare::args_divs(la, lb, sa, sb, path, prefix, i + 1);
        assert(place(i as int));
        assert forall|d: DivV| #[trigger]
            compare::args_divs(la, lb, sa, sb, path, prefix, i).contains(d) implies exists|j: int|
         #[trigger]
            place(j) && tells_args(la, lb, sa, sb, j, d) by {
            if !rest.contains(d) {
                assert(tells_args(la, lb, sa, sb, i as int, d));
            }
        }
    }
}

proof fn lemma_told_stmts(
    la: Seq<StmtV>,
    lb: Seq<StmtV>,
    path: Seq<Seq<char>>,
    prefix: Seq<char>,
    i: nat,
)
    ensures
        forall|d: DivV| #[trigger]
            compare::stmts_divs(la, lb, path, prefix, i).contains(d) ==> tells_stmts(la, lb, d),
    decreases la, compare::most(la.len(), lb.len()) - i, 0nat,
{
    if i < compare::most(la.len(), lb.len()) {
        lemma_told_stmts(la, lb, path, prefix, i + 1);
        let rest = compare::stmts_divs(la, lb, path, prefix, i + 1);
        let p = path.push(compare::indexed(prefix, i));
        assert(place(i as int));
        if i < la.len() && i < lb.len() {
            let a = la[i as int];
            lemma_told_stmt(a, lb[i as int], p.push(compare::stmt_kind(a)));
        }
        assert forall|d: DivV| #[trigger]
            compare::stmts_divs(la, lb, path, prefix, i).contains(d) implies tells_stmts(
            la,
            lb,
            d,
        ) by {
            if !rest.contains(d) {
                if i < la.len() && i < lb.len() {
                    let a = la[i as int];
                    let b = lb[i as int];
                    let here = if compare::same_stmt_kind(a, b) {
                        compare::stmt_divs(a, b, p.push(compare::stmt_kind(a)))
                    } else {
                        compare::whole_stmt(a, b, p)
                    };
                    lemma_in_two(here, rest, d);
                    assert(tells_stmt(a, b, d));
                }
            }
        }
    }
}

proof fn lemma_told_stmt(a: StmtV, b: StmtV, path: Seq<Seq<char>>)
    ensures
        forall|d: DivV| #[trigger]
            compare::stmt_divs(a, b, path).contains(d) ==> tells_stmt(a, b, d),
    decreases a, 0int, 0nat,
{
    let sa = ast::stmt_span(a);
    let sb = ast::stmt_span(b);
    match (a, b) {
        (StmtV::Return { action: Some(x), .. }, StmtV::Return { action: Some(y), .. }) => {
            lemma_told_exprs(x.args, y.args, sa, sb, path, "action.args"@, 0);
        },
        (StmtV::New { args: x, .. }, StmtV::New { args: y, .. }) => {
            lemma_told_args(x, y, sa, sb, path, "args"@, 0);
        },
        (StmtV::If { arms: x, else_body: ex, .. }, StmtV::If { arms: y, else_body: ey, .. }) => {
            if x.len() == y.len() {
                lemma_told_arms(x, y, sa, sb, path, 0);
                match (ex, ey) {
                    (Some(s), Some(t)) => lemma_told_stmts(s, t, path, "else_body"@, 0),
                    _ => {},
                }
                let arms = compare::arms_divs(x, y, sa, sb, path, 0);
                assert forall|d: DivV| #[trigger]
                    compare::stmt_divs(a, b, path).contains(d) implies tells_stmt(a, b, d) by {
                    let behind = match (ex, ey) {
                        (None, None) => seq![],
                        (Some(s), Some(t)) => compare::stmts_divs(s, t, path, "else_body"@, 0),
                        _ => compare::whole_stmt(a, b, path.push("else_body"@)),
                    };
                    lemma_in_two(arms, behind, d);
                }
            }
        },
        _ => {},
    }
}

proof fn lemma_told_arms(
    la: Seq<ArmV>,
    lb: Seq<ArmV>,
    sa: Span,
    sb: Span,
    path: Seq<Seq<char>>,
    i: nat,
)
    requires
        la.len() == lb.len(),
    ensures
        forall|d: DivV| #[trigger]
            compare::arms_divs(la, lb, sa, sb, path, i).contains(d) ==> exists|j: int| #[trigger]
                place(j) && j < la.len() && (both(
                    d,
                    sa,
                    sb,
                    printer::expr_text(la[j].cond),
                    printer::expr_text(lb[j].cond),
                ) || tells_stmts(la[j].body, lb[j].body, d)),
    decreases la, la.len() - i, 1nat,
{
    if i < la.len() {
        let k = i as int;
        lemma_told_arms(la, lb, sa, sb, path, i + 1);
        lemma_told_stmts(
            la[k].body,
            lb[k].body,
            path,
            compare::indexed("arms"@, i) + ".body"@,
            0,
        );
        assert(place(k));
        let body = compare::stmts_divs(
            la[k].body,
            lb[k].body,
            path,
            compare::indexed("arms"@, i) + ".body"@,
            0,
        );
        let rest = compare::arms_divs(la, lb, sa, sb, path, i + 1);
        assert forall|d: DivV| #[trigger]
            compare::arms_divs(la, lb, sa, sb, path, i).contains(d) implies exists|j: int|
         #[trigger]
            place(j) && j < la.len() && (both(
                d,
                sa,
                sb,
                printer::expr_text(la[j].cond),
                printer::expr_text(lb[j].cond),
            ) || tells_stmts(la[j].body, lb[j].body, d)) by {
            if rest.contains(d) {
            } else if body.contains(d) {
                assert(tells_stmts(la[k].body, lb[k].body, d));
            } else {
                let c = compare::expr_divs(
                    la[k].cond,
                    lb[k].cond,
                    sa,
                    sb,
                    path.push(compare::indexed("arms"@, i) + ".cond"@),
                );
                assert(c.contains(d)) by {
                    lemma_in_three(c, body, rest, d);
                }
                assert(both(
                    d,
                    sa,
                    sb,
                    printer::expr_text(la[k].cond),
                    printer::expr_text(lb[k].cond),
                ));
            }
        }
    }
}

proof fn lemma_in_two(x: Seq<DivV>, y: Seq<DivV>, d: DivV)
    requires
        (x + y).contains(d),
    ensures
        x.contains(d) || y.contains(d),
{
    let i = choose|i: int| 0 <= i < (x + y).len() && (x + y)[i] == d;
    if i < x.len() {
        assert(x[i] == d);
    } else {
        assert(y[i - x.len()] == d);
    }
}

proof fn lemma_in_three(x: Seq<DivV>, y: Seq<DivV>, z: Seq<DivV>, d: DivV)
    requires
        (x + (y + z)).contains(d),
    ensures
        x.contains(d) || y.contains(d) || z.contains(d),
{
    let i = choose|i: int| 0 <= i < (x + (y + z)).len() && (x + (y + z))[i] == d;
    if i < x.len() {
        assert(x[i] == d);
    } else if i < x.len() + y.len() {
        assert(y[i - x.len()] == d);
    } else {
        assert(z[i - x.len() - y.len()] == d);
    }
}

proof fn lemma_told_field(a: FieldV, b: FieldV, path: Seq<Seq<char>>)
    requires
        a.name == b.name,
    ensures
        forall|d: DivV| #[trigger]
            compare::field_value_divs(a.value, b.value, a.span, b.span, path).contains(d)
                ==> tells_field(a, b, d),
    decreases a, 0int,
{
    let ds = compare::field_value_divs(a.value, b.value, a.span, b.span, path);
    match (a.value, b.value) {
        (FieldValueV::Expr(x), FieldValueV::Expr(y)) => {
            assert(forall|d: DivV| #[trigger] ds.contains(d) ==> tells_field(a, b, d));
        },
        (FieldValueV::Probe(x), FieldValueV::Probe(y)) => {
            lemma_told_fields(x, y, path, 0);
            assert(ds == compare::fields_divs(x, y, path, 0));
            assert(forall|d: DivV| #[trigger] ds.contains(d) ==> tells_field(a, b, d));
        },
        (FieldValueV::ProbeRef(x), FieldValueV::ProbeRef(y)) => {
            assert(forall|d: DivV| #[trigger] ds.contains(d) ==> tells_field(a, b, d));
        },
        (FieldValueV::StringList(x), FieldValueV::StringList(y)) => {
            assert(forall|d: DivV| #[trigger] ds.contains(d) ==> tells_field(a, b, d));
        },
        _ => {
            assert(forall|d: DivV| #[trigger] ds.contains(d) ==> tells_field(a, b, d));
        },
    }
}

proof fn lemma_told_fields(la: Seq<FieldV>, lb: Seq<FieldV>, path: Seq<Seq<char>>, i: nat)
    ensures
        forall|d: DivV| #[trigger]
            compare::fields_divs(la, lb, path, i).contains(d) ==> tells_fields(la, lb, d),
    decreases la, compare::most(la.len(), lb.len()) - i,
{
    if i < compare::most(la.len(), lb.len()) {
        lemma_told_fields(la, lb, path, i + 1);
        let rest = compare::fields_divs(la, lb, path, i + 1);
        assert(place(i as int));
        if i < la.len() && i < lb.len() {
            let a = la[i as int];
            let b = lb[i as int];
            if a.name == b.name {
                lemma_told_field(a, b, path.push("."@ + a.name));
            }
        }
        assert forall|d: DivV| #[trigger]
            compare::fields_divs(la, lb, path, i).contains(d) implies tells_fields(la, lb, d) by {
            if !rest.contains(d) {
                if i < la.len() && i < lb.len() {
                    let a = la[i as int];
                    let b = lb[i as int];
                    if a.name == b.name {
                        let p = path.push("."@ + a.name);
                        let here = compare::field_value_divs(
                            a.value,
                            b.value,
                            a.span,
                            b.span,
                            p,
                        );
                        lemma_in_two(here, rest, d);
                    }
                    assert(tells_field(a, b, d));
                }
            }
        }
    }
}

proof fn lemma_told_entries(la: Seq<AclEntryV>, lb: Seq<AclEntryV>, path: Seq<Seq<char>>, i: nat)
    ensures
        forall|d: DivV| #[trigger]
            compare::entries_divs(la, lb, path, i).contains(d) ==> tells_entries(la, lb, d),
    decreases compare::most(la.len(), lb.len()) - i,
{
    if i < compare::most(la.len(), lb.len()) {
        lemma_told_entries(la, lb, path, i + 1);
        let rest = compare::entries_divs(la, lb, path, i + 1);
        assert(place(i as int));
        assert forall|d: DivV| #[trigger]
            compare::entries_divs(la, lb, path, i).contains(d) implies tells_entries(la, lb, d) by {
            if !rest.contains(d) {
            }
        }
    }
}

proof fn lemma_told_decl(a: DeclV, b: DeclV, path: Seq<Seq<char>>)
    requires
        compare::same_decl_kind(a, b),
        ast::decl_name(a) == ast::decl_name(b),
    ensures
        forall|d: DivV| #[trigger]
            compare::decl_divs(a, b, path).contains(d) ==> tells_decl(a, b, d),
{
    match (a, b) {
        (DeclV::Backend { body: Some(x), .. }, DeclV::Backend { body: Some(y), .. }) => {
            lemma_told_fields(x, y, path, 0);
        },
        (DeclV::Probe { body: x, .. }, DeclV::Probe { body: y, .. }) => {
            lemma_told_fields(x, y, path, 0);
        },
        (DeclV::Acl { entries: x, .. }, DeclV::Acl { entries: y, .. }) => {
            lemma_told_entries(x, y, path, 0);
        },
        (DeclV::Sub { body: x, .. }, DeclV::Sub { body: y, .. }) => {
            lemma_told_stmts(x, y, path, "body"@, 0);
        },
        _ => {},
    }
}

#[verifier::spinoff_prover]
#[verifier::rlimit(60)]
proof fn lemma_told_decls(p: ProgramV, q: ProgramV, i: nat)
    ensures
        forall|d: DivV| #[trigger]
            compare::decls_divs(p.decls, q.decls, i).contains(d) ==> tells(p, q, d),
    decreases compare::most(p.decls.len(), q.decls.len()) - i,
{
    if i < compare::most(p.decls.len(), q.decls.len()) {
        lemma_told_decls(p, q, i + 1);
        let rest = compare::decls_divs(p.decls, q.decls, i + 1);
        assert(place(i as int));
        if i < p.decls.len() && i < q.decls.len() {
            let a = p.decls[i as int];
            let b = q.decls[i as int];
            let path = seq![
                compare::indexed("decls"@, i) + " ("@ + compare::decl_kind(a) + " "@
                    + ast::decl_name(a) + ")"@,
            ];
            if compare::same_decl_kind(a, b) && ast::decl_name(a) == ast::decl_name(b) {
                lemma_told_decl(a, b, path);
            }
        }
        assert forall|d: DivV| #[trigger]
            compare::decls_divs(p.decls, q.decls, i).contains(d) implies tells(p, q, d) by {
            if !rest.contains(d) {
                if i < p.decls.len() && i < q.decls.len() {
                    let a = p.decls[i as int];
                    let b = q.decls[i as int];
                    let seg = compare::indexed("decls"@, i);
                    let path = seq![
                        seg + " ("@ + compare::decl_kind(a) + " "@ + ast::decl_name(a) + ")"@,
                    ];
                    if compare::same_decl_kind(a, b) && ast::decl_name(a) == ast::decl_name(b) {
                        lemma_in_two(compare::decl_divs(a, b, path), rest, d);
                    }
                    assert(tells_decl(a, b, d));
                }
            }
        }
    }
}

/// Each divergence tells of each side what stands there: of two parts of the two
/// programs that correspond, the place and the text of each on its side, or of a part
/// without a counterpart its place and its text on its side and `<missing>` on the
/// other.
pub proof fn law_sides_are_told(p: ProgramV, q: ProgramV, d: DivV)
    requires
        compare::program_divs(p, q).contains(d),
    ensures
        tells(p, q, d),
{
    lemma_told_decls(p, q, 0);
}

// ───────────────────────── nothing is left out ─────────────────────────

proof fn lemma_in_either(x: Seq<DivV>, y: Seq<DivV>, d: DivV)
    requires
        x.contains(d) || y.contains(d),
    ensures
        (x + y).contains(d),
{
    if x.contains(d) {
        let i = choose|i: int| 0 <= i < x.len() && x[i] == d;
        assert((x + y)[i] == d);
    } else {
        let i = choose|i: int| 0 <= i < y.len() && y[i] == d;
        assert((x + y)[i + x.len()] == d);
    }
}

proof fn lemma_stmt_is_told(
    la: Seq<StmtV>,
    lb: Seq<StmtV>,
    path: Seq<Seq<char>>,
    prefix: Seq<char>,
    i: nat,
    k: nat,
    d: DivV,
)
    requires
        i <= k < la.len() || i <= k < lb.len(),
        d == (DivV {
            path: text::join(path.push(prefix + "["@ + text::nat_text(k) + "]"@), " › "@),
            span_a: d.span_a,
            span_b: d.span_b,
            snippet_a: d.snippet_a,
            snippet_b: d.snippet_b,
        }),
        k < la.len() && k >= lb.len() && only_a(
            d,
            ast::stmt_span(la[k as int]),
            printer::stmt_text(la[k as int]),
        ) || k < lb.len() && k >= la.len() && only_b(
            d,
            ast::stmt_span(lb[k as int]),
            printer::stmt_text(lb[k as int]),
        ) || k < la.len() && k < lb.len() && !compare::same_stmt_kind(la[k as int], lb[k as int])
            && both(
            d,
            ast::stmt_span(la[k as int]),
            ast::stmt_span(lb[k as int]),
            printer::stmt_text(la[k as int]),
            printer::stmt_text(lb[k as int]),
        ),
    ensures
        compare::stmts_divs(la, lb, path, prefix, i).contains(d),
    decreases k - i,
{
    let all = compare::stmts_divs(la, lb, path, prefix, i);
    let rest = compare::stmts_divs(la, lb, path, prefix, i + 1);
    if i < k {
        lemma_stmt_is_told(la, lb, path, prefix, i + 1, k, d);
        let n = all.len() - rest.len();
        let first = all.take(n as int);
        assert(all =~= first + rest);
        lemma_in_either(first, rest, d);
    } else {
        assert(all[0] == d);
    }
}

/// Where one list has a statement that the other has no counterpart of, and where two
/// counterparts are of different kinds, a divergence at that place tells of it, with
/// what stands in the first list on side A and what stands in the second on side B.
pub proof fn law_statements_without_counterpart_are_told(
    la: Seq<StmtV>,
    lb: Seq<StmtV>,
    path: Seq<Seq<char>>,
    prefix: Seq<char>,
    k: nat,
)
    requires
        k < la.len() || k < lb.len(),
    ensures
        ({
            let at = text::join(path.push(prefix + "["@ + text::nat_text(k) + "]"@), " › "@);
            let ds = compare::stmts_divs(la, lb, path, prefix, 0);
            let a = la[k as int];
            let b = lb[k as int];
            &&& k >= lb.len() ==> ds.contains(
                (DivV {
                    path: at,
                    span_a: Some(ast::stmt_span(a)),
                    span_b: None,
                    snippet_a: printer::stmt_text(a),
                    snippet_b: "<missing>"@,
                }),
            )
            &&& k >= la.len() ==> ds.contains(
                (DivV {
                    path: at,
                    span_a: None,
                    span_b: Some(ast::stmt_span(b)),
                    snippet_a: "<missing>"@,
                    snippet_b: printer::stmt_text(b),
                }),
            )
            &&& k < la.len() && k < lb.len() && !compare::same_stmt_kind(a, b) ==> ds.contains(
                (DivV {
                    path: at,
                    span_a: Some(ast::stmt_span(a)),
                    span_b: Some(ast::stmt_span(b)),
                    snippet_a: printer::stmt_text(a),
                    snippet_b: printer::stmt_text(b),
                }),
            )
        }),
{
    let at = text::join(path.push(prefix + "["@ + text::nat_text(k) + "]"@), " › "@);
    let a = la[k as int];
    let b = lb[k as int];
    let d = DivV {
        path: at,
        span_a: if k < la.len() {
            Some(ast::stmt_span(a))
        } else {
            None
        },
        span_b: if k < lb.len() {
            Some(ast::stmt_span(b))
        } else {
            None
        },
        snippet_a: if k < la.len() {
            printer::stmt_text(a)
        } else {
            "<missing>"@
        },
        snippet_b: if k < lb.len() {
            printer::stmt_text(b)
        } else {
            "<missing>"@
        },
    };
    if k >= la.len() || k >= lb.len() || !compare::same_stmt_kind(a, b) {
        lemma_stmt_is_told(la, lb, path, prefix, 0, k, d);
    }
}

proof fn lemma_field_is_told(
    la: Seq<FieldV>,
    lb: Seq<FieldV>,
    path: Seq<Seq<char>>,
    i: nat,
    k: nat,
    d: DivV,
)
    requires
        i <= k < la.len() || i <= k < lb.len(),
        ({
            let a = la[k as int];
            let b = lb[k as int];
            ||| k < la.len() && k >= lb.len() && only_a(d, a.span, compare::field_snippet(a)) && d.path == text::join(path.push("fields"@ + "["@ + text::nat_text(k) + "]"@), " › "@)
            ||| k < lb.len() && k >= la.len() && only_b(d, b.span, compare::field_snippet(b)) && d.path == text::join(path.push("fields"@ + "["@ + text::nat_text(k) + "]"@), " › "@)
            ||| k < la.len() && k < lb.len() && a.name != b.name && both(d, a.span, b.span, compare::field_snippet(a), compare::field_snippet(b))
                && d.path == text::join(
                    path.push("fields"@ + "["@ + text::nat_text(k) + "]"@ + " (."@ + a.name + ")"@),
                    " › "@,
                )
        }),
    ensures
        compare::fields_divs(la, lb, path, i).contains(d),
    decreases k - i,
{
    let all = compare::fields_divs(la, lb, path, i);
    let rest = compare::fields_divs(la, lb, path, i + 1);
    if i < k {
        lemma_field_is_told(la, lb, path, i + 1, k, d);
        let first = all.take(all.len() - rest.len());
        assert(all =~= first + rest);
        lemma_in_either(first, rest, d);
    } else {
        assert(all[0] == d);
    }
}

/// Where one list has a field that the other has no counterpart of, and where two
/// counterparts have different names, a divergence at that place tells of it.
pub proof fn law_fields_without_counterpart_are_told(
    la: Seq<FieldV>,
    lb: Seq<FieldV>,
    path: Seq<Seq<char>>,
    k: nat,
)
    requires
        k < la.len() || k < lb.len(),
    ensures
        ({
            let a = la[k as int];
            let b = lb[k as int];
            let ds = compare::fields_divs(la, lb, path, 0);
            &&& k >= lb.len() ==> ds.contains(
                (DivV {
                    path: text::join(path.push("fields"@ + "["@ + text::nat_text(k) + "]"@), " › "@),
                    span_a: Some(a.span),
                    span_b: None,
                    snippet_a: compare::field_snippet(a),
                    snippet_b: "<missing>"@,
                }),
            )
            &&& k >= la.len() ==> ds.contains(
                (DivV {
                    path: text::join(path.push("fields"@ + "["@ + text::nat_text(k) + "]"@), " › "@),
                    span_a: None,
                    span_b: Some(b.span),
                    snippet_a: "<missing>"@,
                    snippet_b: compare::field_snippet(b),
                }),
            )
            &&& k < la.len() && k < lb.len() && a.name != b.name ==> ds.contains(
                (DivV {
                    path: text::join(
                    path.push("fields"@ + "["@ + text::nat_text(k) + "]"@ + " (."@ + a.name + ")"@),
                    " › "@,
                ),
                    span_a: Some(a.span),
                    span_b: Some(b.span),
                    snippet_a: compare::field_snippet(a),
                    snippet_b: compare::field_snippet(b),
                }),
            )
        }),
{
    let a = la[k as int];
    let b = lb[k as int];
    if k >= lb.len() {
        let d = DivV {
            path: text::join(path.push("fields"@ + "["@ + text::nat_text(k) + "]"@), " › "@),
            span_a: Some(a.span),
            span_b: None,
            snippet_a: compare::field_snippet(a),
            snippet_b: "<missing>"@,
        };
        lemma_field_is_told(la, lb, path, 0, k, d);
    } else if k >= la.len() {
        let d = DivV {
            path: text::join(path.push("fields"@ + "["@ + text::nat_text(k) + "]"@), " › "@),
            span_a: None,
            span_b: Some(b.span),
            snippet_a: "<missing>"@,
            snippet_b: compare::field_snippet(b),
        };
        lemma_field_is_told(la, lb, path, 0, k, d);
    } else if a.name != b.name {
        let d = DivV {
            path: text::join(
                    path.push("fields"@ + "["@ + text::nat_text(k) + "]"@ + " (."@ + a.name + ")"@),
                    " › "@,
                ),
            span_a: Some(a.span),
            span_b: Some(b.span),
            snippet_a: compare::field_snippet(a),
            snippet_b: compare::field_snippet(b),
        };
        lemma_field_is_told(la, lb, path, 0, k, d);
    }
}

proof fn lemma_entry_is_told(
    la: Seq<AclEntryV>,
    lb: Seq<AclEntryV>,
    path: Seq<Seq<char>>,
    i: nat,
    k: nat,
    d: DivV,
)
    requires
        i <= k < la.len() || i <= k < lb.len(),
        ({
            let a = la[k as int];
            let b = lb[k as int];
            ||| k < la.len() && k >= lb.len() && only_a(d, a.span, compare::entry_snippet(a)) && d.path == text::join(path.push("entries"@ + "["@ + text::nat_text(k) + "]"@), " › "@)
            ||| k < lb.len() && k >= la.len() && only_b(d, b.span, compare::entry_snippet(b)) && d.path == text::join(path.push("entries"@ + "["@ + text::nat_text(k) + "]"@), " › "@)
            ||| k < la.len() && k < lb.len() && (a.negated != b.negated || a.addr != b.addr || a.mask != b.mask) && both(d, a.span, b.span, compare::entry_snippet(a), compare::entry_snippet(b))
                && d.path == text::join(path.push("entries"@ + "["@ + text::nat_text(k) + "]"@), " › "@)
        }),
    ensures
        compare::entries_divs(la, lb, path, i).contains(d),
    decreases k - i,
{
    let all = compare::entries_divs(la, lb, path, i);
    let rest = compare::entries_divs(la, lb, path, i + 1);
    if i < k {
        lemma_entry_is_told(la, lb, path, i + 1, k, d);
        let first = all.take(all.len() - rest.len());
        assert(all =~= first + rest);
        lemma_in_either(first, rest, d);
    } else {
        assert(all[0] == d);
    }
}

/// Where one list has an address that the other has no counterpart of, and where two
/// counterparts differ, a divergence at that place tells of it.
pub proof fn law_addresses_that_differ_are_told(
    la: Seq<AclEntryV>,
    lb: Seq<AclEntryV>,
    path: Seq<Seq<char>>,
    k: nat,
)
    requires
        k < la.len() || k < lb.len(),
    ensures
        ({
            let a = la[k as int];
            let b = lb[k as int];
            let ds = compare::entries_divs(la, lb, path, 0);
            &&& k >= lb.len() ==> ds.contains(
                (DivV {
                    path: text::join(path.push("entries"@ + "["@ + text::nat_text(k) + "]"@), " › "@),
                    span_a: Some(a.span),
                    span_b: None,
                    snippet_a: compare::entry_snippet(a),
                    snippet_b: "<missing>"@,
                }),
            )
            &&& k >= la.len() ==> ds.contains(
                (DivV {
                    path: text::join(path.push("entries"@ + "["@ + text::nat_text(k) + "]"@), " › "@),
                    span_a: None,
                    span_b: Some(b.span),
                    snippet_a: "<missing>"@,
                    snippet_b: compare::entry_snippet(b),
                }),
            )
            &&& k < la.len() && k < lb.len() && (a.negated != b.negated || a.addr != b.addr || a.mask != b.mask) ==> ds.contains(
                (DivV {
                    path: text::join(path.push("entries"@ + "["@ + text::nat_text(k) + "]"@), " › "@),
                    span_a: Some(a.span),
                    span_b: Some(b.span),
                    snippet_a: compare::entry_snippet(a),
                    snippet_b: compare::entry_snippet(b),
                }),
            )
        }),
{
    let a = la[k as int];
    let b = lb[k as int];
    if k >= lb.len() {
        let d = DivV {
            path: text::join(path.push("entries"@ + "["@ + text::nat_text(k) + "]"@), " › "@),
            span_a: Some(a.span),
            span_b: None,
            snippet_a: compare::entry_snippet(a),
            snippet_b: "<missing>"@,
        };
        lemma_entry_is_told(la, lb, path, 0, k, d);
    } else if k >= la.len() {
        let d = DivV {
            path: text::join(path.push("entries"@ + "["@ + text::nat_text(k) + "]"@), " › "@),
            span_a: None,
            span_b: Some(b.span),
            snippet_a: "<missing>"@,
            snippet_b: compare::entry_snippet(b),
        };
        lemma_entry_is_told(la, lb, path, 0, k, d);
    } else if (a.negated != b.negated || a.addr != b.addr || a.mask != b.mask) {
        let d = DivV {
            path: text::join(path.push("entries"@ + "["@ + text::nat_text(k) + "]"@), " › "@),
            span_a: Some(a.span),
            span_b: Some(b.span),
            snippet_a: compare::entry_snippet(a),
            snippet_b: compare::entry_snippet(b),
        };
        lemma_entry_is_told(la, lb, path, 0, k, d);
    }
}

proof fn lemma_decl_is_told(
    la: Seq<DeclV>,
    lb: Seq<DeclV>,
    i: nat,
    k: nat,
    d: DivV,
)
    requires
        i <= k < la.len() || i <= k < lb.len(),
        ({
            let a = la[k as int];
            let b = lb[k as int];
            ||| k < la.len() && k >= lb.len() && only_a(d, ast::decl_span(a), compare::decl_snippet(a)) && d.path == text::join(seq!["decls"@ + "["@ + text::nat_text(k) + "]"@], " › "@)
            ||| k < lb.len() && k >= la.len() && only_b(d, ast::decl_span(b), compare::decl_snippet(b)) && d.path == text::join(seq!["decls"@ + "["@ + text::nat_text(k) + "]"@], " › "@)
            ||| k < la.len() && k < lb.len() && (!compare::same_decl_kind(a, b) || ast::decl_name(a) != ast::decl_name(b)) && both(d, ast::decl_span(a), ast::decl_span(b), compare::decl_snippet(a), compare::decl_snippet(b))
                && d.path == text::join(
                    seq![
                        "decls"@ + "["@ + text::nat_text(k) + "]"@ + " ("@ + compare::decl_kind(a)
                            + " "@ + ast::decl_name(a) + ")"@,
                    ],
                    " › "@,
                )
        }),
    ensures
        compare::decls_divs(la, lb, i).contains(d),
    decreases k - i,
{
    let all = compare::decls_divs(la, lb, i);
    let rest = compare::decls_divs(la, lb, i + 1);
    if i < k {
        lemma_decl_is_told(la, lb, i + 1, k, d);
        let first = all.take(all.len() - rest.len());
        assert(all =~= first + rest);
        lemma_in_either(first, rest, d);
    } else {
        assert(all[0] == d);
    }
}

/// Where one program has a declaration that the other has no counterpart of, and where
/// two counterparts differ in kind or name, a divergence at that place tells of it.
pub proof fn law_declarations_without_counterpart_are_told(
    la: Seq<DeclV>,
    lb: Seq<DeclV>,
    k: nat,
)
    requires
        k < la.len() || k < lb.len(),
    ensures
        ({
            let a = la[k as int];
            let b = lb[k as int];
            let ds = compare::decls_divs(la, lb, 0);
            &&& k >= lb.len() ==> ds.contains(
                (DivV {
                    path: text::join(seq!["decls"@ + "["@ + text::nat_text(k) + "]"@], " › "@),
                    span_a: Some(ast::decl_span(a)),
                    span_b: None,
                    snippet_a: compare::decl_snippet(a),
                    snippet_b: "<missing>"@,
                }),
            )
            &&& k >= la.len() ==> ds.contains(
                (DivV {
                    path: text::join(seq!["decls"@ + "["@ + text::nat_text(k) + "]"@], " › "@),
                    span_a: None,
                    span_b: Some(ast::decl_span(b)),
                    snippet_a: "<missing>"@,
                    snippet_b: compare::decl_snippet(b),
                }),
            )
            &&& k < la.len() && k < lb.len() && (!compare::same_decl_kind(a, b) || ast::decl_name(a) != ast::decl_name(b)) ==> ds.contains(
                (DivV {
                    path: text::join(
                    seq![
                        "decls"@ + "["@ + text::nat_text(k) + "]"@ + " ("@ + compare::decl_kind(a)
                            + " "@ + ast::decl_name(a) + ")"@,
                    ],
                    " › "@,
                ),
                    span_a: Some(ast::decl_span(a)),
                    span_b: Some(ast::decl_span(b)),
                    snippet_a: compare::decl_snippet(a),
                    snippet_b: compare::decl_snippet(b),
                }),
            )
        }),
{
    let a = la[k as int];
    let b = lb[k as int];
    if k >= lb.len() {
        let d = DivV {
            path: text::join(seq!["decls"@ + "["@ + text::nat_text(k) + "]"@], " › "@),
            span_a: Some(ast::decl_span(a)),
            span_b: None,
            snippet_a: compare::decl_snippet(a),
            snippet_b: "<missing>"@,
        };
        lemma_decl_is_told(la, lb, 0, k, d);
    } else if k >= la.len() {
        let d = DivV {
            path: text::join(seq!["decls"@ + "["@ + text::nat_text(k) + "]"@], " › "@),
            span_a: None,
            span_b: Some(ast::decl_span(b)),
            snippet_a: "<missing>"@,
            snippet_b: compare::decl_snippet(b),
        };
        lemma_decl_is_told(la, lb, 0, k, d);
    } else if (!compare::same_decl_kind(a, b) || ast::decl_name(a) != ast::decl_name(b)) {
        let d = DivV {
            path: text::join(
                    seq![
                        "decls"@ + "["@ + text::nat_text(k) + "]"@ + " ("@ + compare::decl_kind(a)
                            + " "@ + ast::decl_name(a) + ")"@,
                    ],
                    " › "@,
                ),
            span_a: Some(ast::decl_span(a)),
            span_b: Some(ast::decl_span(b)),
            snippet_a: compare::decl_snippet(a),
            snippet_b: compare::decl_snippet(b),
        };
        lemma_decl_is_told(la, lb, 0, k, d);
    }
}

// ───────────────────────── one by one ─────────────────────────

/// Two lists of statements are compared place by place: the divergences of the first `n`
/// places are those of the first `n` statements, whatever follows, and those of the other
/// places stand behind them.
pub proof fn law_statements_are_compared_one_by_one(
    la: Seq<StmtV>,
    lb: Seq<StmtV>,
    path: Seq<Seq<char>>,
    prefix: Seq<char>,
    i: nat,
    n: nat,
)
    requires
        i <= n <= la.len(),
        n <= lb.len(),
    ensures
        compare::stmts_divs(la, lb, path, prefix, i) == compare::stmts_divs(la.take(n as int), lb.take(n as int), path, prefix, i) + compare::stmts_divs(la, lb, path, prefix, n),
    decreases n - i,
{
    let x = la.take(n as int);
    let y = lb.take(n as int);
    if i < n {
        law_statements_are_compared_one_by_one(la, lb, path, prefix, i + 1, n);
        assert(x[i as int] == la[i as int] && y[i as int] == lb[i as int]);
        let all = compare::stmts_divs(la, lb, path, prefix, i);
        let rest = compare::stmts_divs(la, lb, path, prefix, i + 1);
        let few = compare::stmts_divs(x, y, path, prefix, i);
        let less = compare::stmts_divs(x, y, path, prefix, i + 1);
        let here = all.take(all.len() - rest.len());
        assert(all =~= here + rest);
        assert(few =~= here + less);
        assert(here + (less + compare::stmts_divs(la, lb, path, prefix, n)) =~= (here + less) + compare::stmts_divs(la, lb, path, prefix, n));
    } else {
        assert(compare::stmts_divs(x, y, path, prefix, i) =~= Seq::<DivV>::empty());
    }
}

/// Two lists of fields are compared place by place.
pub proof fn law_fields_are_compared_one_by_one(
    la: Seq<FieldV>,
    lb: Seq<FieldV>,
    path: Seq<Seq<char>>,
    i: nat,
    n: nat,
)
    requires
        i <= n <= la.len(),
        n <= lb.len(),
    ensures
        compare::fields_divs(la, lb, path, i) == compare::fields_divs(la.take(n as int), lb.take(n as int), path, i) + compare::fields_divs(la, lb, path, n),
    decreases n - i,
{
    let x = la.take(n as int);
    let y = lb.take(n as int);
    if i < n {
        law_fields_are_compared_one_by_one(la, lb, path, i + 1, n);
        assert(x[i as int] == la[i as int] && y[i as int] == lb[i as int]);
        let all = compare::fields_divs(la, lb, path, i);
        let rest = compare::fields_divs(la, lb, path, i + 1);
        let few = compare::fields_divs(x, y, path, i);
        let less = compare::fields_divs(x, y, path, i + 1);
        let here = all.take(all.len() - rest.len());
        assert(all =~= here + rest);
        assert(few =~= here + less);
        assert(here + (less + compare::fields_divs(la, lb, path, n)) =~= (here + less) + compare::fields_divs(la, lb, path, n));
    } else {
        assert(compare::fields_divs(x, y, path, i) =~= Seq::<DivV>::empty());
    }
}

/// Two lists of addresses are compared place by place.
pub proof fn law_addresses_are_compared_one_by_one(
    la: Seq<AclEntryV>,
    lb: Seq<AclEntryV>,
    path: Seq<Seq<char>>,
    i: nat,
    n: nat,
)
    requires
        i <= n <= la.len(),
        n <= lb.len(),
    ensures
        compare::entries_divs(la, lb, path, i) == compare::entries_divs(la.take(n as int), lb.take(n as int), path, i) + compare::entries_divs(la, lb, path, n),
    decreases n - i,
{
    let x = la.take(n as int);
    let y = lb.take(n as int);
    if i < n {
        law_addresses_are_compared_one_by_one(la, lb, path, i + 1, n);
        assert(x[i as int] == la[i as int] && y[i as int] == lb[i as int]);
        let all = compare::entries_divs(la, lb, path, i);
        let rest = compare::entries_divs(la, lb, path, i + 1);
        let few = compare::entries_divs(x, y, path, i);
        let less = compare::entries_divs(x, y, path, i + 1);
        let here = all.take(all.len() - rest.len());
        assert(all =~= here + rest);
        assert(few =~= here + less);
        assert(here + (less + compare::entries_divs(la, lb, path, n)) =~= (here + less) + compare::entries_divs(la, lb, path, n));
    } else {
        assert(compare::entries_divs(x, y, path, i) =~= Seq::<DivV>::empty());
    }
}

/// Two lists of arguments are compared place by place.
pub proof fn law_arguments_are_compared_one_by_one(
    la: Seq<ArgV>,
    lb: Seq<ArgV>,
    sa: Span,
    sb: Span,
    path: Seq<Seq<char>>,
    prefix: Seq<char>,
    i: nat,
    n: nat,
)
    requires
        i <= n <= la.len(),
        n <= lb.len(),
    ensures
        compare::args_divs(la, lb, sa, sb, path, prefix, i) == compare::args_divs(la.take(n as int), lb.take(n as int), sa, sb, path, prefix, i) + compare::args_divs(la, lb, sa, sb, path, prefix, n),
    decreases n - i,
{
    let x = la.take(n as int);
    let y = lb.take(n as int);
    if i < n {
        law_arguments_are_compared_one_by_one(la, lb, sa, sb, path, prefix, i + 1, n);
        assert(x[i as int] == la[i as int] && y[i as int] == lb[i as int]);
        let all = compare::args_divs(la, lb, sa, sb, path, prefix, i);
        let rest = compare::args_divs(la, lb, sa, sb, path, prefix, i + 1);
        let few = compare::args_divs(x, y, sa, sb, path, prefix, i);
        let less = compare::args_divs(x, y, sa, sb, path, prefix, i + 1);
        let here = all.take(all.len() - rest.len());
        assert(all =~= here + rest);
        assert(few =~= here + less);
        assert(here + (less + compare::args_divs(la, lb, sa, sb, path, prefix, n)) =~= (here + less) + compare::args_divs(la, lb, sa, sb, path, prefix, n));
    } else {
        assert(compare::args_divs(x, y, sa, sb, path, prefix, i) =~= Seq::<DivV>::empty());
    }
}

/// Two lists of expressions are compared place by place.
pub proof fn law_expressions_are_compared_one_by_one(
    la: Seq<ExprV>,
    lb: Seq<ExprV>,
    sa: Span,
    sb: Span,
    path: Seq<Seq<char>>,
    prefix: Seq<char>,
    i: nat,
    n: nat,
)
    requires
        i <= n <= la.len(),
        n <= lb.len(),
    ensures
        compare::exprs_divs(la, lb, sa, sb, path, prefix, i) == compare::exprs_divs(la.take(n as int), lb.take(n as int), sa, sb, path, prefix, i) + compare::exprs_divs(la, lb, sa, sb, path, prefix, n),
    decreases n - i,
{
    let x = la.take(n as int);
    let y = lb.take(n as int);
    if i < n {
        law_expressions_are_compared_one_by_one(la, lb, sa, sb, path, prefix, i + 1, n);
        assert(x[i as int] == la[i as int] && y[i as int] == lb[i as int]);
        let all = compare::exprs_divs(la, lb, sa, sb, path, prefix, i);
        let rest = compare::exprs_divs(la, lb, sa, sb, path, prefix, i + 1);
        let few = compare::exprs_divs(x, y, sa, sb, path, prefix, i);
        let less = compare::exprs_divs(x, y, sa, sb, path, prefix, i + 1);
        let here = all.take(all.len() - rest.len());
        assert(all =~= here + rest);
        assert(few =~= here + less);
        assert(here + (less + compare::exprs_divs(la, lb, sa, sb, path, prefix, n)) =~= (here + less) + compare::exprs_divs(la, lb, sa, sb, path, prefix, n));
    } else {
        assert(compare::exprs_divs(x, y, sa, sb, path, prefix, i) =~= Seq::<DivV>::empty());
    }
}

/// Two lists of declarations are compared place by place.
pub proof fn law_declarations_are_compared_one_by_one(
    la: Seq<DeclV>,
    lb: Seq<DeclV>,
    i: nat,
    n: nat,
)
    requires
        i <= n <= la.len(),
        n <= lb.len(),
    ensures
        compare::decls_divs(la, lb, i) == compare::decls_divs(la.take(n as int), lb.take(n as int), i) + compare::decls_divs(la, lb, n),
    decreases n - i,
{
    let x = la.take(n as int);
    let y = lb.take(n as int);
    if i < n {
        law_declarations_are_compared_one_by_one(la, lb, i + 1, n);
        assert(x[i as int] == la[i as int] && y[i as int] == lb[i as int]);
        let all = compare::decls_divs(la, lb, i);
        let rest = compare::decls_divs(la, lb, i + 1);
        let few = compare::decls_divs(x, y, i);
        let less = compare::decls_divs(x, y, i + 1);
        let here = all.take(all.len() - rest.len());
        assert(all =~= here + rest);
        assert(few =~= here + less);
        assert(here + (less + compare::decls_divs(la, lb, n)) =~= (here + less) + compare::decls_divs(la, lb, n));
    } else {
        assert(compare::decls_divs(x, y, i) =~= Seq::<DivV>::empty());
    }
}

/// In two `if` statements with as many arms each, every divergence of two arms at one
/// place, and of the two last branches, is told.
pub proof fn law_branches_are_compared(
    x: Seq<ArmV>,
    y: Seq<ArmV>,
    ex: Option<Seq<StmtV>>,
    ey: Option<Seq<StmtV>>,
    sx: Span,
    sy: Span,
    path: Seq<Seq<char>>,
    i: nat,
    d: DivV,
)
    requires
        x.len() == y.len(),
    ensures
        ({
            let ds = compare::stmt_divs(
                StmtV::If { arms: x, else_body: ex, span: sx },
                StmtV::If { arms: y, else_body: ey, span: sy },
                path,
            );
            let at = "arms["@ + text::nat_text(i) + "]"@;
            &&& i < x.len() && compare::stmts_divs(
                x[i as int].body,
                y[i as int].body,
                path,
                at + ".body"@,
                0,
            ).contains(d) ==> ds.contains(d)
            &&& i < x.len() && compare::expr_divs(
                x[i as int].cond,
                y[i as int].cond,
                sx,
                sy,
                path.push(at + ".cond"@),
            ).contains(d) ==> ds.contains(d)
            &&& ex is Some && ey is Some && compare::stmts_divs(
                ex->0,
                ey->0,
                path,
                "else_body"@,
                0,
            ).contains(d) ==> ds.contains(d)
        }),
{
    let a = StmtV::If { arms: x, else_body: ex, span: sx };
    let b = StmtV::If { arms: y, else_body: ey, span: sy };
    let arms = compare::arms_divs(x, y, sx, sy, path, 0);
    let behind = match (ex, ey) {
        (None, None) => seq![],
        (Some(s), Some(t)) => compare::stmts_divs(s, t, path, "else_body"@, 0),
        _ => compare::whole_stmt(a, b, path.push("else_body"@)),
    };
    assert(compare::stmt_divs(a, b, path) == arms + behind);
    assert(compare::indexed("arms"@, i) == "arms["@ + text::nat_text(i) + "]"@) by {
        reveal_strlit("arms");
        reveal_strlit("[");
        reveal_strlit("arms[");
        assert("arms"@ + "["@ =~= "arms["@);
    }
    if i < x.len() {
        lemma_arm_is_told(x, y, sx, sy, path, 0, i, d);
    }
    if arms.contains(d) || behind.contains(d) {
        lemma_in_either(arms, behind, d);
    }
}

proof fn lemma_arm_is_told(
    x: Seq<ArmV>,
    y: Seq<ArmV>,
    sx: Span,
    sy: Span,
    path: Seq<Seq<char>>,
    i: nat,
    k: nat,
    d: DivV,
)
    requires
        i <= k < x.len(),
        x.len() == y.len(),
    ensures
        compare::stmts_divs(
            x[k as int].body,
            y[k as int].body,
            path,
            compare::indexed("arms"@, k) + ".body"@,
            0,
        ).contains(d) || compare::expr_divs(
            x[k as int].cond,
            y[k as int].cond,
            sx,
            sy,
            path.push(compare::indexed("arms"@, k) + ".cond"@),
        ).contains(d) ==> compare::arms_divs(x, y, sx, sy, path, i).contains(d),
    decreases k - i,
{
    let p = compare::indexed("arms"@, i);
    let c = compare::expr_divs(x[i as int].cond, y[i as int].cond, sx, sy, path.push(p + ".cond"@));
    let b = compare::stmts_divs(x[i as int].body, y[i as int].body, path, p + ".body"@, 0);
    let rest = compare::arms_divs(x, y, sx, sy, path, i + 1);
    if i < k {
        lemma_arm_is_told(x, y, sx, sy, path, i + 1, k, d);
    }
    if c.contains(d) || b.contains(d) || rest.contains(d) {
        if b.contains(d) || rest.contains(d) {
            lemma_in_either(b, rest, d);
        }
        lemma_in_either(c, b + rest, d);
    }
}

// ───────────────────────── the programs exchanged ─────────────────────────

/// Two lists of divergences that tell the same with the sides exchanged.
pub open spec fn exchanged(x: Seq<DivV>, y: Seq<DivV>) -> bool {
    x.len() == y.len() && forall|i: int|
        0 <= i < x.len() ==> (#[trigger] y[i]).span_a == x[i].span_b && y[i].span_b == x[i].span_a
            && y[i].snippet_a == x[i].snippet_b && y[i].snippet_b == x[i].snippet_a
}

/// Two lists of divergences at the same places.
pub open spec fn same_places(x: Seq<DivV>, y: Seq<DivV>) -> bool {
    x.len() == y.len() && forall|i: int| 0 <= i < x.len() ==> (#[trigger] y[i]).path == x[i].path
}

proof fn lemma_joined(x: Seq<DivV>, y: Seq<DivV>, s: Seq<DivV>, t: Seq<DivV>)
    requires
        exchanged(x, y),
        exchanged(s, t),
    ensures
        exchanged(x + s, y + t),
        same_places(x, y) && same_places(s, t) ==> same_places(x + s, y + t),
{
    assert forall|i: int| 0 <= i < (x + s).len() implies (#[trigger] (y + t)[i]).span_a == (x
        + s)[i].span_b && (y + t)[i].span_b == (x + s)[i].span_a && (y + t)[i].snippet_a == (x
        + s)[i].snippet_b && (y + t)[i].snippet_b == (x + s)[i].snippet_a by {
        if i < x.len() {
            assert((y + t)[i] == y[i]);
        } else {
            assert((y + t)[i] == t[i - x.len()]);
        }
    }
}

proof fn lemma_exprs_exchanged(
    la: Seq<ExprV>,
    lb: Seq<ExprV>,
    sa: Span,
    sb: Span,
    path: Seq<Seq<char>>,
    prefix: Seq<char>,
    i: nat,
)
    ensures
        exchanged(
            compare::exprs_divs(la, lb, sa, sb, path, prefix, i),
            compare::exprs_divs(lb, la, sb, sa, path, prefix, i),
        ),
        same_places(
            compare::exprs_divs(la, lb, sa, sb, path, prefix, i),
            compare::exprs_divs(lb, la, sb, sa, path, prefix, i),
        ),
    decreases compare::most(la.len(), lb.len()) - i,
{
    if i < compare::most(la.len(), lb.len()) {
        lemma_exprs_exchanged(la, lb, sa, sb, path, prefix, i + 1);
    }
}

proof fn lemma_args_exchanged(
    la: Seq<ArgV>,
    lb: Seq<ArgV>,
    sa: Span,
    sb: Span,
    path: Seq<Seq<char>>,
    prefix: Seq<char>,
    i: nat,
)
    ensures
        exchanged(
            compare::args_divs(la, lb, sa, sb, path, prefix, i),
            compare::args_divs(lb, la, sb, sa, path, prefix, i),
        ),
        same_places(
            compare::args_divs(la, lb, sa, sb, path, prefix, i),
            compare::args_divs(lb, la, sb, sa, path, prefix, i),
        ),
    decreases compare::most(la.len(), lb.len()) - i,
{
    if i < compare::most(la.len(), lb.len()) {
        lemma_args_exchanged(la, lb, sa, sb, path, prefix, i + 1);
    }
}

/// Comparing two lists of statements the other way round gives the same divergences, at
/// the same places and in the same order, with the sides exchanged.
pub proof fn law_exchanged_statements(
    la: Seq<StmtV>,
    lb: Seq<StmtV>,
    path: Seq<Seq<char>>,
    prefix: Seq<char>,
    i: nat,
)
    ensures
        exchanged(
            compare::stmts_divs(la, lb, path, prefix, i),
            compare::stmts_divs(lb, la, path, prefix, i),
        ),
        same_places(
            compare::stmts_divs(la, lb, path, prefix, i),
            compare::stmts_divs(lb, la, path, prefix, i),
        ),
    decreases la, compare::most(la.len(), lb.len()) - i, 0nat,
{
    if i < compare::most(la.len(), lb.len()) {
        law_exchanged_statements(la, lb, path, prefix, i + 1);
        let rest = compare::stmts_divs(la, lb, path, prefix, i + 1);
        let back = compare::stmts_divs(lb, la, path, prefix, i + 1);
        if i < la.len() && i < lb.len() {
            let a = la[i as int];
            let b = lb[i as int];
            let p = path.push(compare::indexed(prefix, i));
            if compare::same_stmt_kind(a, b) {
                lemma_stmt_exchanged(a, b, p.push(compare::stmt_kind(a)));
                lemma_joined(
                    compare::stmt_divs(a, b, p.push(compare::stmt_kind(a))),
                    compare::stmt_divs(b, a, p.push(compare::stmt_kind(b))),
                    rest,
                    back,
                );
            } else {
                lemma_joined(
                    compare::whole_stmt(a, b, p),
                    compare::whole_stmt(b, a, p),
                    rest,
                    back,
                );
            }
        }
    }
}

proof fn lemma_stmt_exchanged(a: StmtV, b: StmtV, path: Seq<Seq<char>>)
    ensures
        exchanged(compare::stmt_divs(a, b, path), compare::stmt_divs(b, a, path)),
        same_places(compare::stmt_divs(a, b, path), compare::stmt_divs(b, a, path)),
    decreases a, 0int, 0nat,
{
    let sa = ast::stmt_span(a);
    let sb = ast::stmt_span(b);
    match (a, b) {
        (StmtV::Return { action: Some(x), .. }, StmtV::Return { action: Some(y), .. }) => {
            lemma_exprs_exchanged(x.args, y.args, sa, sb, path, "action.args"@, 0);
        },
        (StmtV::New { args: x, .. }, StmtV::New { args: y, .. }) => {
            lemma_args_exchanged(x, y, sa, sb, path, "args"@, 0);
        },
        (StmtV::If { arms: x, else_body: ex, .. }, StmtV::If { arms: y, else_body: ey, .. }) => {
            if x.len() == y.len() {
                lemma_arms_exchanged(x, y, sa, sb, path, 0);
                let arms = compare::arms_divs(x, y, sa, sb, path, 0);
                let back = compare::arms_divs(y, x, sb, sa, path, 0);
                match (ex, ey) {
                    (Some(s), Some(t)) => {
                        law_exchanged_statements(s, t, path, "else_body"@, 0);
                        lemma_joined(
                            arms,
                            back,
                            compare::stmts_divs(s, t, path, "else_body"@, 0),
                            compare::stmts_divs(t, s, path, "else_body"@, 0),
                        );
                    },
                    (None, None) => {
                        lemma_joined(arms, back, seq![], seq![]);
                    },
                    _ => {
                        lemma_joined(
                            arms,
                            back,
                            compare::whole_stmt(a, b, path.push("else_body"@)),
                            compare::whole_stmt(b, a, path.push("else_body"@)),
                        );
                    },
                }
            }
        },
        _ => {},
    }
}

proof fn lemma_arms_exchanged(
    la: Seq<ArmV>,
    lb: Seq<ArmV>,
    sa: Span,
    sb: Span,
    path: Seq<Seq<char>>,
    i: nat,
)
    requires
        la.len() == lb.len(),
    ensures
        exchanged(
            compare::arms_divs(la, lb, sa, sb, path, i),
            compare::arms_divs(lb, la, sb, sa, path, i),
        ),
        same_places(
            compare::arms_divs(la, lb, sa, sb, path, i),
            compare::arms_divs(lb, la, sb, sa, path, i),
        ),
    decreases la, la.len() - i, 1nat,
{
    if i < la.len() {
        let a = la[i as int];
        let b = lb[i as int];
        let at = compare::indexed("arms"@, i) + ".body"@;
        let p = path.push(compare::indexed("arms"@, i) + ".cond"@);
        lemma_arms_exchanged(la, lb, sa, sb, path, i + 1);
        law_exchanged_statements(a.body, b.body, path, at, 0);
        lemma_joined(
            compare::stmts_divs(a.body, b.body, path, at, 0),
            compare::stmts_divs(b.body, a.body, path, at, 0),
            compare::arms_divs(la, lb, sa, sb, path, i + 1),
            compare::arms_divs(lb, la, sb, sa, path, i + 1),
        );
        lemma_joined(
            compare::expr_divs(a.cond, b.cond, sa, sb, p),
            compare::expr_divs(b.cond, a.cond, sb, sa, p),
            compare::stmts_divs(a.body, b.body, path, at, 0) + compare::arms_divs(
                la,
                lb,
                sa,
                sb,
                path,
                i + 1,
            ),
            compare::stmts_divs(b.body, a.body, path, at, 0) + compare::arms_divs(
                lb,
                la,
                sb,
                sa,
                path,
                i + 1,
            ),
        );
    }
}

proof fn lemma_fields_exchanged(la: Seq<FieldV>, lb: Seq<FieldV>, path: Seq<Seq<char>>, i: nat)
    ensures
        exchanged(
            compare::fields_divs(la, lb, path, i),
            compare::fields_divs(lb, la, path, i),
        ),
    decreases la, compare::most(la.len(), lb.len()) - i,
{
    if i < compare::most(la.len(), lb.len()) {
        lemma_fields_exchanged(la, lb, path, i + 1);
        if i < la.len() && i < lb.len() {
            let a = la[i as int];
            let b = lb[i as int];
            if a.name == b.name {
                let p = path.push("."@ + a.name);
                match (a.value, b.value) {
                    (FieldValueV::Probe(x), FieldValueV::Probe(y)) => {
                        lemma_fields_exchanged(x, y, p, 0);
                    },
                    _ => {},
                }
                lemma_joined(
                    compare::field_value_divs(a.value, b.value, a.span, b.span, p),
                    compare::field_value_divs(b.value, a.value, b.span, a.span, p),
                    compare::fields_divs(la, lb, path, i + 1),
                    compare::fields_divs(lb, la, path, i + 1),
                );
            }
        }
    }
}

proof fn lemma_entries_exchanged(
    la: Seq<AclEntryV>,
    lb: Seq<AclEntryV>,
    path: Seq<Seq<char>>,
    i: nat,
)
    ensures
        exchanged(
            compare::entries_divs(la, lb, path, i),
            compare::entries_divs(lb, la, path, i),
        ),
    decreases compare::most(la.len(), lb.len()) - i,
{
    if i < compare::most(la.len(), lb.len()) {
        lemma_entries_exchanged(la, lb, path, i + 1);
    }
}

proof fn lemma_decl_exchanged(a: DeclV, b: DeclV, path: Seq<Seq<char>>)
    ensures
        exchanged(compare::decl_divs(a, b, path), compare::decl_divs(b, a, path)),
{
    match (a, b) {
        (DeclV::Backend { body: Some(x), .. }, DeclV::Backend { body: Some(y), .. }) => {
            lemma_fields_exchanged(x, y, path, 0);
        },
        (DeclV::Probe { body: x, .. }, DeclV::Probe { body: y, .. }) => {
            lemma_fields_exchanged(x, y, path, 0);
        },
        (DeclV::Acl { entries: x, .. }, DeclV::Acl { entries: y, .. }) => {
            lemma_entries_exchanged(x, y, path, 0);
        },
        (DeclV::Sub { body: x, .. }, DeclV::Sub { body: y, .. }) => {
            law_exchanged_statements(x, y, path, "body"@, 0);
        },
        _ => {},
    }
}

proof fn lemma_decls_exchanged(la: Seq<DeclV>, lb: Seq<DeclV>, i: nat)
    ensures
        exchanged(compare::decls_divs(la, lb, i), compare::decls_divs(lb, la, i)),
    decreases compare::most(la.len(), lb.len()) - i,
{
    if i < compare::most(la.len(), lb.len()) {
        lemma_decls_exchanged(la, lb, i + 1);
        if i < la.len() && i < lb.len() {
            let a = la[i as int];
            let b = lb[i as int];
            let seg = compare::indexed("decls"@, i);
            let p = seq![seg + " ("@ + compare::decl_kind(a) + " "@ + ast::decl_name(a) + ")"@];
            if compare::same_decl_kind(a, b) && ast::decl_name(a) == ast::decl_name(b) {
                assert(compare::decl_kind(a) == compare::decl_kind(b));
                lemma_decl_exchanged(a, b, p);
                lemma_joined(
                    compare::decl_divs(a, b, p),
                    compare::decl_divs(b, a, p),
                    compare::decls_divs(la, lb, i + 1),
                    compare::decls_divs(lb, la, i + 1),
                );
            }
        }
    }
}

/// Comparing two programs the other way round gives as many divergences, in the same
/// order, each with its sides exchanged.
pub proof fn law_exchanged_programs(p: ProgramV, q: ProgramV)
    ensures
        exchanged(compare::program_divs(p, q), compare::program_divs(q, p)),
{
    lemma_decls_exchanged(p.decls, q.decls, 0);
}

// ───────────────────────── reports ─────────────────────────

/// A report holds the first divergences: all of them, or as many as asked for.
pub proof fn law_the_first_divergences_are_reported(ds: Seq<DivV>, max: nat)
    ensures
        compare::capped(ds, max).is_prefix_of(ds),
        compare::capped(ds, max).len() == ds.len() || compare::capped(ds, max).len() == max,
        ds.len() <= max ==> compare::capped(ds, max) == ds,
{
}

/// What is reported of a side that has no place does not depend on the files of that
/// side.
pub proof fn law_sides_are_looked_up_in_their_own_files(
    d: DivV,
    fa: Seq<FileV>,
    fb: Seq<FileV>,
    others: Seq<FileV>,
)
    ensures
        d.span_a is None ==> compare::div_report(d, fa, fb) == compare::div_report(d, others, fb),
        d.span_b is None ==> compare::div_report(d, fa, fb) == compare::div_report(d, fa, others),
{
}

} // verus!
