//! Where two programs diverge, and a report for people.
//!
//! Both programs are taken to be normalized. They are walked side by side, by
//! index; where two nodes disagree, that is one divergence, and nothing below
//! them is looked at.

use crate::ast;
use crate::ast::{
    AclEntry, AclEntryV, Arg, ArgV, ArmV, Decl, DeclV, Expr, ExprV, Field, FieldV, FieldValue,
    FieldValueV, FileV, Program, ProgramV, SourceMap, Span, Stmt, StmtV,
};
use crate::canon;
use crate::json;
use crate::printer;
use crate::text;
use vstd::prelude::*;
use vstd::string::*;
use vstd::utf8::*;

pub mod exactness;
pub mod sides;

verus! {

broadcast use ast::group_views;

/// One place where two programs diverge.
#[derive(Debug, PartialEq)]
pub struct Divergence {
    pub path: String,
    pub span_a: Option<Span>,
    pub span_b: Option<Span>,
    pub snippet_a: String,
    pub snippet_b: String,
}

/// One place where two programs diverge.
#[verifier::ext_equal]
pub struct DivV {
    pub path: Seq<char>,
    pub span_a: Option<Span>,
    pub span_b: Option<Span>,
    pub snippet_a: Seq<char>,
    pub snippet_b: Seq<char>,
}

impl View for Divergence {
    type V = DivV;

    open spec fn view(&self) -> DivV {
        DivV {
            path: self.path@,
            span_a: self.span_a,
            span_b: self.span_b,
            snippet_a: self.snippet_a@,
            snippet_b: self.snippet_b@,
        }
    }
}

impl Clone for Divergence {
    fn clone(&self) -> (r: Self)
        ensures
            r@ == self@,
    {
        Divergence {
            path: self.path.clone(),
            span_a: self.span_a,
            span_b: self.span_b,
            snippet_a: self.snippet_a.clone(),
            snippet_b: self.snippet_b.clone(),
        }
    }
}

pub open spec fn divs_view(s: Seq<Divergence>) -> Seq<DivV> {
    Seq::new(s.len(), |i: int| s[i]@)
}

// ───────────────────────── all divergences ─────────────────────────

/// A divergence at a path.
pub open spec fn div(
    path: Seq<Seq<char>>,
    span_a: Option<Span>,
    span_b: Option<Span>,
    snippet_a: Seq<char>,
    snippet_b: Seq<char>,
) -> DivV {
    DivV { path: text::join(path, " › "@), span_a, span_b, snippet_a, snippet_b }
}

/// `prefix[i]`
pub open spec fn indexed(prefix: Seq<char>, i: nat) -> Seq<char> {
    prefix + "["@ + text::nat_text(i) + "]"@
}

/// The larger of two numbers.
pub open spec fn most(a: nat, b: nat) -> nat {
    if a >= b {
        a
    } else {
        b
    }
}

pub open spec fn missing() -> Seq<char> {
    "<missing>"@
}

pub open spec fn expr_divs(a: ExprV, b: ExprV, sa: Span, sb: Span, path: Seq<Seq<char>>) -> Seq<
    DivV,
> {
    if canon::expr_json(a) == canon::expr_json(b) {
        seq![]
    } else {
        seq![div(path, Some(sa), Some(sb), printer::expr_text(a), printer::expr_text(b))]
    }
}

/// Expressions from index `i` on.
pub open spec fn exprs_divs(
    la: Seq<ExprV>,
    lb: Seq<ExprV>,
    sa: Span,
    sb: Span,
    path: Seq<Seq<char>>,
    prefix: Seq<char>,
    i: nat,
) -> Seq<DivV>
    decreases most(la.len(), lb.len()) - i,
{
    let p = path.push(indexed(prefix, i));
    if i >= most(la.len(), lb.len()) {
        seq![]
    } else {
        (if i < la.len() && i < lb.len() {
            expr_divs(la[i as int], lb[i as int], sa, sb, p)
        } else if i < la.len() {
            seq![div(p, Some(sa), Some(sb), printer::expr_text(la[i as int]), missing())]
        } else {
            seq![div(p, Some(sa), Some(sb), missing(), printer::expr_text(lb[i as int]))]
        }) + exprs_divs(la, lb, sa, sb, path, prefix, i + 1)
    }
}

pub open spec fn arg_snippet(a: ArgV) -> Seq<char> {
    json::compact_text(canon::arg_json(a))
}

/// Arguments from index `i` on.
pub open spec fn args_divs(
    la: Seq<ArgV>,
    lb: Seq<ArgV>,
    sa: Span,
    sb: Span,
    path: Seq<Seq<char>>,
    prefix: Seq<char>,
    i: nat,
) -> Seq<DivV>
    decreases most(la.len(), lb.len()) - i,
{
    let p = path.push(indexed(prefix, i));
    if i >= most(la.len(), lb.len()) {
        seq![]
    } else {
        (if i < la.len() && i < lb.len() {
            let a = la[i as int];
            let b = lb[i as int];
            if a.name != b.name {
                seq![div(p, Some(sa), Some(sb), arg_snippet(a), arg_snippet(b))]
            } else {
                expr_divs(a.value, b.value, sa, sb, p)
            }
        } else if i < la.len() {
            seq![div(p, Some(sa), Some(sb), arg_snippet(la[i as int]), missing())]
        } else {
            seq![div(p, Some(sa), Some(sb), missing(), arg_snippet(lb[i as int]))]
        }) + args_divs(la, lb, sa, sb, path, prefix, i + 1)
    }
}

/// The kind of a statement.
pub open spec fn stmt_kind(s: StmtV) -> Seq<char> {
    match s {
        StmtV::Assign { .. } => "set"@,
        StmtV::Unset { .. } => "unset"@,
        StmtV::Call { .. } => "call"@,
        StmtV::Return { .. } => "return"@,
        StmtV::Synthetic { .. } => "synthetic"@,
        StmtV::If { .. } => "if"@,
        StmtV::New { .. } => "new"@,
        StmtV::Expr { .. } => "expr"@,
    }
}

pub open spec fn same_stmt_kind(a: StmtV, b: StmtV) -> bool {
    match (a, b) {
        (StmtV::Assign { .. }, StmtV::Assign { .. }) => true,
        (StmtV::Unset { .. }, StmtV::Unset { .. }) => true,
        (StmtV::Call { .. }, StmtV::Call { .. }) => true,
        (StmtV::Return { .. }, StmtV::Return { .. }) => true,
        (StmtV::Synthetic { .. }, StmtV::Synthetic { .. }) => true,
        (StmtV::If { .. }, StmtV::If { .. }) => true,
        (StmtV::New { .. }, StmtV::New { .. }) => true,
        (StmtV::Expr { .. }, StmtV::Expr { .. }) => true,
        _ => false,
    }
}

/// A divergence of two whole statements.
pub open spec fn whole_stmt(a: StmtV, b: StmtV, path: Seq<Seq<char>>) -> Seq<DivV> {
    seq![
        div(
            path,
            Some(ast::stmt_span(a)),
            Some(ast::stmt_span(b)),
            printer::stmt_text(a),
            printer::stmt_text(b),
        ),
    ]
}

/// Statements from index `i` on.
pub open spec fn stmts_divs(
    la: Seq<StmtV>,
    lb: Seq<StmtV>,
    path: Seq<Seq<char>>,
    prefix: Seq<char>,
    i: nat,
) -> Seq<DivV>
    decreases la, most(la.len(), lb.len()) - i, 0nat,
{
    let p = path.push(indexed(prefix, i));
    if i >= most(la.len(), lb.len()) {
        seq![]
    } else {
        (if i < la.len() && i < lb.len() {
            let a = la[i as int];
            let b = lb[i as int];
            if !same_stmt_kind(a, b) {
                whole_stmt(a, b, p)
            } else {
                stmt_divs(a, b, p.push(stmt_kind(a)))
            }
        } else if i < la.len() {
            let a = la[i as int];
            seq![div(p, Some(ast::stmt_span(a)), None, printer::stmt_text(a), missing())]
        } else {
            let b = lb[i as int];
            seq![div(p, None, Some(ast::stmt_span(b)), missing(), printer::stmt_text(b))]
        }) + stmts_divs(la, lb, path, prefix, i + 1)
    }
}

/// Two statements of one kind.
pub open spec fn stmt_divs(a: StmtV, b: StmtV, path: Seq<Seq<char>>) -> Seq<DivV>
    decreases a, 0int, 0nat,
{
    let sa = ast::stmt_span(a);
    let sb = ast::stmt_span(b);
    match (a, b) {
        (
            StmtV::Assign { lhs: la, rhs: ra, .. },
            StmtV::Assign { lhs: lb, rhs: rb, .. },
        ) => if la != lb {
            whole_stmt(a, b, path.push("lhs"@))
        } else {
            expr_divs(ra, rb, sa, sb, path.push("rhs"@))
        },
        (StmtV::Unset { lhs: la, .. }, StmtV::Unset { lhs: lb, .. }) => if la != lb {
            whole_stmt(a, b, path)
        } else {
            seq![]
        },
        (StmtV::Call { sub: ca, .. }, StmtV::Call { sub: cb, .. }) => if ca != cb {
            whole_stmt(a, b, path)
        } else {
            seq![]
        },
        (StmtV::Return { action: xa, .. }, StmtV::Return { action: xb, .. }) => match (xa, xb) {
            (None, None) => seq![],
            (Some(x), Some(y)) => if x.name != y.name {
                whole_stmt(a, b, path.push("action"@))
            } else {
                exprs_divs(x.args, y.args, sa, sb, path, "action.args"@, 0)
            },
            _ => whole_stmt(a, b, path),
        },
        (StmtV::Synthetic { value: va, .. }, StmtV::Synthetic { value: vb, .. }) => expr_divs(
            va,
            vb,
            sa,
            sb,
            path.push("value"@),
        ),
        (
            StmtV::If { arms: xa, else_body: ea, .. },
            StmtV::If { arms: xb, else_body: eb, .. },
        ) => if xa.len() != xb.len() {
            whole_stmt(a, b, path)
        } else {
            arms_divs(xa, xb, sa, sb, path, 0) + match (ea, eb) {
                (None, None) => seq![],
                (Some(x), Some(y)) => stmts_divs(x, y, path, "else_body"@, 0),
                _ => whole_stmt(a, b, path.push("else_body"@)),
            }
        },
        (
            StmtV::New { name: na, vmod: ma, ctor: ca, args: xa, .. },
            StmtV::New { name: nb, vmod: mb, ctor: cb, args: xb, .. },
        ) => if na != nb || ma != mb || ca != cb {
            whole_stmt(a, b, path)
        } else {
            args_divs(xa, xb, sa, sb, path, "args"@, 0)
        },
        (StmtV::Expr { expr: xa, .. }, StmtV::Expr { expr: xb, .. }) => expr_divs(
            xa,
            xb,
            sa,
            sb,
            path,
        ),
        _ => seq![],
    }
}

/// Arms from index `i` on, of two lists of one length.
pub open spec fn arms_divs(
    la: Seq<ArmV>,
    lb: Seq<ArmV>,
    sa: Span,
    sb: Span,
    path: Seq<Seq<char>>,
    i: nat,
) -> Seq<DivV>
    decreases la, la.len() - i, 1nat,
{
    if i >= la.len() {
        seq![]
    } else {
        expr_divs(
            la[i as int].cond,
            lb[i as int].cond,
            sa,
            sb,
            path.push(indexed("arms"@, i) + ".cond"@),
        ) + (stmts_divs(
            la[i as int].body,
            lb[i as int].body,
            path,
            indexed("arms"@, i) + ".body"@,
            0,
        ) + arms_divs(la, lb, sa, sb, path, i + 1))
    }
}

pub open spec fn field_snippet(f: FieldV) -> Seq<char> {
    json::compact_text(canon::field_json(f))
}

/// Fields from index `i` on.
pub open spec fn fields_divs(
    la: Seq<FieldV>,
    lb: Seq<FieldV>,
    path: Seq<Seq<char>>,
    i: nat,
) -> Seq<DivV>
    decreases la, most(la.len(), lb.len()) - i,
{
    let seg = indexed("fields"@, i);
    if i >= most(la.len(), lb.len()) {
        seq![]
    } else {
        (if i < la.len() && i < lb.len() {
            let a = la[i as int];
            let b = lb[i as int];
            if a.name != b.name {
                seq![
                    div(
                        path.push(seg + " (."@ + a.name + ")"@),
                        Some(a.span),
                        Some(b.span),
                        field_snippet(a),
                        field_snippet(b),
                    ),
                ]
            } else {
                field_value_divs(a.value, b.value, a.span, b.span, path.push("."@ + a.name))
            }
        } else if i < la.len() {
            let a = la[i as int];
            seq![div(path.push(seg), Some(a.span), None, field_snippet(a), missing())]
        } else {
            let b = lb[i as int];
            seq![div(path.push(seg), None, Some(b.span), missing(), field_snippet(b))]
        }) + fields_divs(la, lb, path, i + 1)
    }
}

/// How `{:?}` shows a list of strings.
pub open spec fn list_debug(l: Seq<Seq<char>>) -> Seq<char> {
    "["@ + text::join(Seq::new(l.len(), |i: int| text::str_debug(l[i])), ", "@) + "]"@
}

/// How `{:?}` shows an optional string.
pub open spec fn opt_debug(s: Option<Seq<char>>) -> Seq<char> {
    match s {
        Some(t) => "Some("@ + text::str_debug(t) + ")"@,
        None => "None"@,
    }
}

pub open spec fn field_value_divs(
    a: FieldValueV,
    b: FieldValueV,
    sa: Span,
    sb: Span,
    path: Seq<Seq<char>>,
) -> Seq<DivV>
    decreases a, 0int,
{
    match (a, b) {
        (FieldValueV::Expr(x), FieldValueV::Expr(y)) => expr_divs(x, y, sa, sb, path),
        (FieldValueV::Probe(x), FieldValueV::Probe(y)) => fields_divs(x, y, path, 0),
        (FieldValueV::ProbeRef(x), FieldValueV::ProbeRef(y)) => if x != y {
            seq![div(path, Some(sa), Some(sb), x, y)]
        } else {
            seq![]
        },
        (FieldValueV::StringList(x), FieldValueV::StringList(y)) => if x != y {
            seq![div(path, Some(sa), Some(sb), list_debug(x), list_debug(y))]
        } else {
            seq![]
        },
        _ => seq![
            div(
                path,
                Some(sa),
                Some(sb),
                json::compact_text(canon::field_value_json(a)),
                json::compact_text(canon::field_value_json(b)),
            ),
        ],
    }
}

pub open spec fn entry_snippet(e: AclEntryV) -> Seq<char> {
    json::compact_text(canon::acl_entry_json(e))
}

/// Addresses from index `i` on.
pub open spec fn entries_divs(
    la: Seq<AclEntryV>,
    lb: Seq<AclEntryV>,
    path: Seq<Seq<char>>,
    i: nat,
) -> Seq<DivV>
    decreases most(la.len(), lb.len()) - i,
{
    let p = path.push(indexed("entries"@, i));
    if i >= most(la.len(), lb.len()) {
        seq![]
    } else {
        (if i < la.len() && i < lb.len() {
            let a = la[i as int];
            let b = lb[i as int];
            if a.negated != b.negated || a.addr != b.addr || a.mask != b.mask {
                seq![div(p, Some(a.span), Some(b.span), entry_snippet(a), entry_snippet(b))]
            } else {
                seq![]
            }
        } else if i < la.len() {
            let a = la[i as int];
            seq![div(p, Some(a.span), None, entry_snippet(a), missing())]
        } else {
            let b = lb[i as int];
            seq![div(p, None, Some(b.span), missing(), entry_snippet(b))]
        }) + entries_divs(la, lb, path, i + 1)
    }
}

/// The kind of a declaration.
pub open spec fn decl_kind(d: DeclV) -> Seq<char> {
    match d {
        DeclV::Import { .. } => "import"@,
        DeclV::Backend { .. } => "backend"@,
        DeclV::Probe { .. } => "probe"@,
        DeclV::Acl { .. } => "acl"@,
        DeclV::Sub { .. } => "sub"@,
    }
}

pub open spec fn same_decl_kind(a: DeclV, b: DeclV) -> bool {
    match (a, b) {
        (DeclV::Import { .. }, DeclV::Import { .. }) => true,
        (DeclV::Backend { .. }, DeclV::Backend { .. }) => true,
        (DeclV::Probe { .. }, DeclV::Probe { .. }) => true,
        (DeclV::Acl { .. }, DeclV::Acl { .. }) => true,
        (DeclV::Sub { .. }, DeclV::Sub { .. }) => true,
        _ => false,
    }
}

pub open spec fn bool_text(b: bool) -> Seq<char> {
    if b {
        "true"@
    } else {
        "false"@
    }
}

pub open spec fn fields_snippet(fs: Seq<FieldV>) -> Seq<char> {
    json::compact_text(canon::fields_json(fs))
}

/// Two declarations of one kind and one name.
pub open spec fn decl_divs(a: DeclV, b: DeclV, path: Seq<Seq<char>>) -> Seq<DivV> {
    let sa = Some(ast::decl_span(a));
    let sb = Some(ast::decl_span(b));
    match (a, b) {
        (DeclV::Import { from: fa, .. }, DeclV::Import { from: fb, .. }) => if fa != fb {
            seq![div(path.push("from"@), sa, sb, opt_debug(fa), opt_debug(fb))]
        } else {
            seq![]
        },
        (
            DeclV::Backend { none: na, body: ba, .. },
            DeclV::Backend { none: nb, body: bb, .. },
        ) => if na != nb {
            seq![div(path.push("none"@), sa, sb, bool_text(na), bool_text(nb))]
        } else {
            match (ba, bb) {
                (Some(x), Some(y)) => fields_divs(x, y, path, 0),
                (None, None) => seq![],
                (Some(x), None) => seq![
                    div(path.push("body"@), sa, sb, fields_snippet(x), "<none>"@),
                ],
                (None, Some(y)) => seq![
                    div(path.push("body"@), sa, sb, "<none>"@, fields_snippet(y)),
                ],
            }
        },
        (DeclV::Probe { body: x, .. }, DeclV::Probe { body: y, .. }) => fields_divs(x, y, path, 0),
        (DeclV::Acl { entries: x, .. }, DeclV::Acl { entries: y, .. }) => entries_divs(
            x,
            y,
            path,
            0,
        ),
        (DeclV::Sub { body: x, .. }, DeclV::Sub { body: y, .. }) => stmts_divs(
            x,
            y,
            path,
            "body"@,
            0,
        ),
        _ => seq![],
    }
}

pub open spec fn decl_snippet(d: DeclV) -> Seq<char> {
    json::compact_text(canon::decl_json(d))
}

/// Declarations from index `i` on.
pub open spec fn decls_divs(la: Seq<DeclV>, lb: Seq<DeclV>, i: nat) -> Seq<DivV>
    decreases most(la.len(), lb.len()) - i,
{
    let seg = indexed("decls"@, i);
    if i >= most(la.len(), lb.len()) {
        seq![]
    } else {
        (if i < la.len() && i < lb.len() {
            let a = la[i as int];
            let b = lb[i as int];
            let path = seq![seg + " ("@ + decl_kind(a) + " "@ + ast::decl_name(a) + ")"@];
            if !same_decl_kind(a, b) || ast::decl_name(a) != ast::decl_name(b) {
                seq![
                    div(
                        path,
                        Some(ast::decl_span(a)),
                        Some(ast::decl_span(b)),
                        decl_snippet(a),
                        decl_snippet(b),
                    ),
                ]
            } else {
                decl_divs(a, b, path)
            }
        } else if i < la.len() {
            let a = la[i as int];
            seq![div(seq![seg], Some(ast::decl_span(a)), None, decl_snippet(a), missing())]
        } else {
            let b = lb[i as int];
            seq![div(seq![seg], None, Some(ast::decl_span(b)), missing(), decl_snippet(b))]
        }) + decls_divs(la, lb, i + 1)
    }
}

/// Every divergence of two programs.
pub open spec fn program_divs(a: ProgramV, b: ProgramV) -> Seq<DivV> {
    decls_divs(a.decls, b.decls, 0)
}

/// The first `max` of a list.
pub open spec fn capped(s: Seq<DivV>, max: nat) -> Seq<DivV> {
    if s.len() <= max {
        s
    } else {
        s.take(max as int)
    }
}

// ───────────────────────── finding them ─────────────────────────

proof fn lemma_step(o: Seq<DivV>, item: Seq<DivV>, rest: Seq<DivV>, max: nat)
    ensures
        capped(o + (item + rest), max) == capped(capped(o + item, max) + rest, max),
{
    assert(capped(o + (item + rest), max) =~= capped(capped(o + item, max) + rest, max));
}

proof fn lemma_stop(o: Seq<DivV>, rest: Seq<DivV>, max: nat)
    requires
        o.len() == max,
    ensures
        capped(o + rest, max) == o,
{
    assert(capped(o + rest, max) =~= o);
}

proof fn lemma_none(o: Seq<DivV>, max: nat)
    requires
        o.len() <= max,
    ensures
        capped(o + Seq::<DivV>::empty(), max) == o,
{
    assert(capped(o + Seq::<DivV>::empty(), max) =~= o);
}

fn full(out: &Vec<Divergence>, max: usize) -> (r: bool)
    ensures
        r == (out@.len() >= max),
{
    out.len() >= max
}

fn push_div(
    path: &Vec<String>,
    span_a: Option<Span>,
    span_b: Option<Span>,
    snippet_a: String,
    snippet_b: String,
    out: &mut Vec<Divergence>,
    Ghost(max): Ghost<nat>,
)
    requires
        old(out)@.len() < max,
    ensures
        divs_view(final(out)@) == capped(
            divs_view(old(out)@) + seq![
                div(text::texts(path@), span_a, span_b, snippet_a@, snippet_b@),
            ],
            max,
        ),
        final(out)@.len() <= max,
{
    let ghost before = divs_view(out@);
    let d = Divergence {
        path: text::join_strings(path, " › "),
        span_a,
        span_b,
        snippet_a,
        snippet_b,
    };
    out.push(d);
    assert(divs_view(out@) =~= before + seq![d@]);
}

/// A divergence one step below the path.
fn push_div_at(
    path: &mut Vec<String>,
    seg: String,
    span_a: Option<Span>,
    span_b: Option<Span>,
    snippet_a: String,
    snippet_b: String,
    out: &mut Vec<Divergence>,
    Ghost(max): Ghost<nat>,
)
    requires
        old(out)@.len() < max,
    ensures
        divs_view(final(out)@) == capped(
            divs_view(old(out)@) + seq![
                div(text::texts(old(path)@).push(seg@), span_a, span_b, snippet_a@, snippet_b@),
            ],
            max,
        ),
        final(out)@.len() <= max,
        final(path)@ == old(path)@,
{
    let ghost before = path@;
    path.push(seg);
    push_div(path, span_a, span_b, snippet_a, snippet_b, out, Ghost(max));
    path.pop();
    assert(path@ =~= before);
}

fn index_str(prefix: &str, i: usize) -> (r: String)
    ensures
        r@ == indexed(prefix@, i as nat),
{
    let mut s = prefix.to_string();
    s.append("[");
    s.append(text::u64_text(i as u64).as_str());
    s.append("]");
    s
}

fn compare_expr(
    a: &Expr,
    b: &Expr,
    sa: Span,
    sb: Span,
    path: &Vec<String>,
    out: &mut Vec<Divergence>,
    max: usize,
)
    requires
        old(out)@.len() <= max,
    ensures
        divs_view(final(out)@) == capped(
            divs_view(old(out)@) + expr_divs(a@, b@, sa, sb, text::texts(path@)),
            max as nat,
        ),
        final(out)@.len() <= max,
{
    let ghost o = divs_view(out@);
    if full(out, max) {
        proof {
            lemma_stop(o, expr_divs(a@, b@, sa, sb, text::texts(path@)), max as nat);
        }
        return;
    }
    if !json::json_eq(&canon::expr_to_json(a), &canon::expr_to_json(b)) {
        push_div(
            path,
            Some(sa),
            Some(sb),
            printer::expr_to_string(a),
            printer::expr_to_string(b),
            out,
            Ghost(max as nat),
        );
    } else {
        proof {
            lemma_none(o, max as nat);
        }
    }
}

/// An expression one step below the path.
fn compare_expr_at(
    a: &Expr,
    b: &Expr,
    sa: Span,
    sb: Span,
    path: &mut Vec<String>,
    seg: String,
    out: &mut Vec<Divergence>,
    max: usize,
)
    requires
        old(out)@.len() <= max,
    ensures
        divs_view(final(out)@) == capped(
            divs_view(old(out)@) + expr_divs(
                a@,
                b@,
                sa,
                sb,
                text::texts(old(path)@).push(seg@),
            ),
            max as nat,
        ),
        final(out)@.len() <= max,
        final(path)@ == old(path)@,
{
    let ghost before = path@;
    path.push(seg);
    compare_expr(a, b, sa, sb, path, out, max);
    path.pop();
    assert(path@ =~= before);
}

fn compare_expr_list(
    la: &Vec<Expr>,
    lb: &Vec<Expr>,
    sa: Span,
    sb: Span,
    path: &mut Vec<String>,
    out: &mut Vec<Divergence>,
    max: usize,
    prefix: &str,
)
    requires
        old(out)@.len() <= max,
    ensures
        divs_view(final(out)@) == capped(
            divs_view(old(out)@) + exprs_divs(
                ast::exprs_view(la@),
                ast::exprs_view(lb@),
                sa,
                sb,
                text::texts(old(path)@),
                prefix@,
                0,
            ),
            max as nat,
        ),
        final(out)@.len() <= max,
        final(path)@ == old(path)@,
{
    let ghost va = ast::exprs_view(la@);
    let ghost vb = ast::exprs_view(lb@);
    let ghost pv = text::texts(path@);
    let ghost p0 = path@;
    let ghost goal = capped(divs_view(out@) + exprs_divs(va, vb, sa, sb, pv, prefix@, 0), max as nat);
    let n: usize = if la.len() >= lb.len() {
        la.len()
    } else {
        lb.len()
    };
    let mut i: usize = 0;
    while i < n && !full(out, max)
        invariant
            i <= n,
            n == most(va.len(), vb.len()),
            va == ast::exprs_view(la@),
            vb == ast::exprs_view(lb@),
            path@ == p0,
            pv == text::texts(p0),
            out@.len() <= max,
            goal == capped(divs_view(out@) + exprs_divs(va, vb, sa, sb, pv, prefix@, i as nat), max as nat),
        decreases n - i,
    {
        let ghost o = divs_view(out@);
        let ghost rest = exprs_divs(va, vb, sa, sb, pv, prefix@, (i + 1) as nat);
        let ghost item: Seq<DivV>;
        let seg = index_str(prefix, i);
        if i < la.len() && i < lb.len() {
            compare_expr_at(&la[i], &lb[i], sa, sb, path, seg, out, max);
            proof {
                item = expr_divs(va[i as int], vb[i as int], sa, sb, pv.push(seg@));
            }
        } else if i < la.len() {
            let t = printer::expr_to_string(&la[i]);
            push_div_at(
                path,
                seg,
                Some(sa),
                Some(sb),
                t,
                "<missing>".to_string(),
                out,
                Ghost(max as nat),
            );
            proof {
                item = seq![div(pv.push(seg@), Some(sa), Some(sb), t@, missing())];
            }
        } else {
            let t = printer::expr_to_string(&lb[i]);
            push_div_at(
                path,
                seg,
                Some(sa),
                Some(sb),
                "<missing>".to_string(),
                t,
                out,
                Ghost(max as nat),
            );
            proof {
                item = seq![div(pv.push(seg@), Some(sa), Some(sb), missing(), t@)];
            }
        }
        proof {
            lemma_step(o, item, rest, max as nat);
        }
        i += 1;
    }
    proof {
        if i < n {
            lemma_stop(divs_view(out@), exprs_divs(va, vb, sa, sb, pv, prefix@, i as nat), max as nat);
        } else {
            lemma_none(divs_view(out@), max as nat);
        }
    }
}

fn arg_to_snippet(a: &Arg) -> (r: String)
    ensures
        r@ == arg_snippet(a@),
{
    json::compact(&canon::arg_to_json(a))
}

fn compare_arg_list(
    la: &Vec<Arg>,
    lb: &Vec<Arg>,
    sa: Span,
    sb: Span,
    path: &mut Vec<String>,
    out: &mut Vec<Divergence>,
    max: usize,
    prefix: &str,
)
    requires
        old(out)@.len() <= max,
    ensures
        divs_view(final(out)@) == capped(
            divs_view(old(out)@) + args_divs(
                ast::args_view(la@),
                ast::args_view(lb@),
                sa,
                sb,
                text::texts(old(path)@),
                prefix@,
                0,
            ),
            max as nat,
        ),
        final(out)@.len() <= max,
        final(path)@ == old(path)@,
{
    let ghost va = ast::args_view(la@);
    let ghost vb = ast::args_view(lb@);
    let ghost pv = text::texts(path@);
    let ghost p0 = path@;
    let ghost goal = capped(divs_view(out@) + args_divs(va, vb, sa, sb, pv, prefix@, 0), max as nat);
    let n: usize = if la.len() >= lb.len() {
        la.len()
    } else {
        lb.len()
    };
    let mut i: usize = 0;
    while i < n && !full(out, max)
        invariant
            i <= n,
            n == most(va.len(), vb.len()),
            va == ast::args_view(la@),
            vb == ast::args_view(lb@),
            path@ == p0,
            pv == text::texts(p0),
            out@.len() <= max,
            goal == capped(divs_view(out@) + args_divs(va, vb, sa, sb, pv, prefix@, i as nat), max as nat),
        decreases n - i,
    {
        let ghost o = divs_view(out@);
        let ghost rest = args_divs(va, vb, sa, sb, pv, prefix@, (i + 1) as nat);
        let ghost item: Seq<DivV>;
        let seg = index_str(prefix, i);
        if i < la.len() && i < lb.len() {
            if !text::opt_text_eq(&la[i].name, &lb[i].name) {
                let ta = arg_to_snippet(&la[i]);
                let tb = arg_to_snippet(&lb[i]);
                push_div_at(path, seg, Some(sa), Some(sb), ta, tb, out, Ghost(max as nat));
                proof {
                    item = seq![div(pv.push(seg@), Some(sa), Some(sb), ta@, tb@)];
                }
            } else {
                compare_expr_at(&la[i].value, &lb[i].value, sa, sb, path, seg, out, max);
                proof {
                    item = expr_divs(
                        va[i as int].value,
                        vb[i as int].value,
                        sa,
                        sb,
                        pv.push(seg@),
                    );
                }
            }
        } else if i < la.len() {
            let t = arg_to_snippet(&la[i]);
            push_div_at(
                path,
                seg,
                Some(sa),
                Some(sb),
                t,
                "<missing>".to_string(),
                out,
                Ghost(max as nat),
            );
            proof {
                item = seq![div(pv.push(seg@), Some(sa), Some(sb), t@, missing())];
            }
        } else {
            let t = arg_to_snippet(&lb[i]);
            push_div_at(
                path,
                seg,
                Some(sa),
                Some(sb),
                "<missing>".to_string(),
                t,
                out,
                Ghost(max as nat),
            );
            proof {
                item = seq![div(pv.push(seg@), Some(sa), Some(sb), missing(), t@)];
            }
        }
        proof {
            lemma_step(o, item, rest, max as nat);
        }
        i += 1;
    }
    proof {
        if i < n {
            lemma_stop(divs_view(out@), args_divs(va, vb, sa, sb, pv, prefix@, i as nat), max as nat);
        } else {
            lemma_none(divs_view(out@), max as nat);
        }
    }
}

fn stmt_kind_str(s: &Stmt) -> (r: &'static str)
    ensures
        r@ == stmt_kind(s@),
{
    match s {
        Stmt::Assign { .. } => "set",
        Stmt::Unset { .. } => "unset",
        Stmt::Call { .. } => "call",
        Stmt::Return { .. } => "return",
        Stmt::Synthetic { .. } => "synthetic",
        Stmt::If { .. } => "if",
        Stmt::New { .. } => "new",
        Stmt::Expr { .. } => "expr",
    }
}

fn stmts_of_one_kind(a: &Stmt, b: &Stmt) -> (r: bool)
    ensures
        r == same_stmt_kind(a@, b@),
{
    match (a, b) {
        (Stmt::Assign { .. }, Stmt::Assign { .. }) => true,
        (Stmt::Unset { .. }, Stmt::Unset { .. }) => true,
        (Stmt::Call { .. }, Stmt::Call { .. }) => true,
        (Stmt::Return { .. }, Stmt::Return { .. }) => true,
        (Stmt::Synthetic { .. }, Stmt::Synthetic { .. }) => true,
        (Stmt::If { .. }, Stmt::If { .. }) => true,
        (Stmt::New { .. }, Stmt::New { .. }) => true,
        (Stmt::Expr { .. }, Stmt::Expr { .. }) => true,
        _ => false,
    }
}

/// A divergence of two whole statements.
fn push_stmt(
    a: &Stmt,
    b: &Stmt,
    path: &Vec<String>,
    out: &mut Vec<Divergence>,
    Ghost(max): Ghost<nat>,
)
    requires
        old(out)@.len() < max,
    ensures
        divs_view(final(out)@) == capped(
            divs_view(old(out)@) + whole_stmt(a@, b@, text::texts(path@)),
            max,
        ),
        final(out)@.len() <= max,
{
    push_div(
        path,
        Some(a.span()),
        Some(b.span()),
        printer::stmt_to_string(a),
        printer::stmt_to_string(b),
        out,
        Ghost(max),
    );
}

/// A divergence of two whole statements one step below the path.
fn push_stmt_at(
    a: &Stmt,
    b: &Stmt,
    path: &mut Vec<String>,
    seg: String,
    out: &mut Vec<Divergence>,
    Ghost(max): Ghost<nat>,
)
    requires
        old(out)@.len() < max,
    ensures
        divs_view(final(out)@) == capped(
            divs_view(old(out)@) + whole_stmt(a@, b@, text::texts(old(path)@).push(seg@)),
            max,
        ),
        final(out)@.len() <= max,
        final(path)@ == old(path)@,
{
    let ghost before = path@;
    path.push(seg);
    push_stmt(a, b, path, out, Ghost(max));
    path.pop();
    assert(path@ =~= before);
}

fn compare_stmt_list(
    la: &Vec<Stmt>,
    lb: &Vec<Stmt>,
    path: &mut Vec<String>,
    out: &mut Vec<Divergence>,
    max: usize,
    prefix: &str,
)
    requires
        old(out)@.len() <= max,
    ensures
        divs_view(final(out)@) == capped(
            divs_view(old(out)@) + stmts_divs(
                ast::stmts_view(la@),
                ast::stmts_view(lb@),
                text::texts(old(path)@),
                prefix@,
                0,
            ),
            max as nat,
        ),
        final(out)@.len() <= max,
        final(path)@ == old(path)@,
    decreases la, 1nat,
{
    let ghost va = ast::stmts_view(la@);
    let ghost vb = ast::stmts_view(lb@);
    let ghost pv = text::texts(path@);
    let ghost p0 = path@;
    let ghost goal = capped(divs_view(out@) + stmts_divs(va, vb, pv, prefix@, 0), max as nat);
    let n: usize = if la.len() >= lb.len() {
        la.len()
    } else {
        lb.len()
    };
    let mut i: usize = 0;
    while i < n && !full(out, max)
        invariant
            i <= n,
            n == most(va.len(), vb.len()),
            va == ast::stmts_view(la@),
            vb == ast::stmts_view(lb@),
            path@ == p0,
            pv == text::texts(p0),
            out@.len() <= max,
            goal == capped(divs_view(out@) + stmts_divs(va, vb, pv, prefix@, i as nat), max as nat),
        decreases n - i,
    {
        let ghost o = divs_view(out@);
        let ghost rest = stmts_divs(va, vb, pv, prefix@, (i + 1) as nat);
        let ghost item: Seq<DivV>;
        let seg = index_str(prefix, i);
        if i < la.len() && i < lb.len() {
            if !stmts_of_one_kind(&la[i], &lb[i]) {
                push_stmt_at(&la[i], &lb[i], path, seg, out, Ghost(max as nat));
                proof {
                    item = whole_stmt(va[i as int], vb[i as int], pv.push(seg@));
                }
            } else {
                path.push(seg);
                let kind = stmt_kind_str(&la[i]).to_string();
                path.push(kind);
                compare_stmt(&la[i], &lb[i], path, out, max);
                path.pop();
                path.pop();
                proof {
                    assert(path@ =~= p0);
                    item = stmt_divs(
                        va[i as int],
                        vb[i as int],
                        pv.push(seg@).push(stmt_kind(va[i as int])),
                    );
                }
            }
        } else if i < la.len() {
            let t = printer::stmt_to_string(&la[i]);
            push_div_at(
                path,
                seg,
                Some(la[i].span()),
                None,
                t,
                "<missing>".to_string(),
                out,
                Ghost(max as nat),
            );
            proof {
                item = seq![div(pv.push(seg@), Some(ast::stmt_span(va[i as int])), None, t@, missing())];
            }
        } else {
            let t = printer::stmt_to_string(&lb[i]);
            push_div_at(
                path,
                seg,
                None,
                Some(lb[i].span()),
                "<missing>".to_string(),
                t,
                out,
                Ghost(max as nat),
            );
            proof {
                item = seq![div(pv.push(seg@), None, Some(ast::stmt_span(vb[i as int])), missing(), t@)];
            }
        }
        proof {
            lemma_step(o, item, rest, max as nat);
        }
        i += 1;
    }
    proof {
        if i < n {
            lemma_stop(divs_view(out@), stmts_divs(va, vb, pv, prefix@, i as nat), max as nat);
        } else {
            lemma_none(divs_view(out@), max as nat);
        }
    }
}

fn compare_stmt(
    a: &Stmt,
    b: &Stmt,
    path: &mut Vec<String>,
    out: &mut Vec<Divergence>,
    max: usize,
)
    requires
        old(out)@.len() <= max,
    ensures
        divs_view(final(out)@) == capped(
            divs_view(old(out)@) + stmt_divs(a@, b@, text::texts(old(path)@)),
            max as nat,
        ),
        final(out)@.len() <= max,
        final(path)@ == old(path)@,
    decreases a, 0nat,
{
    let ghost o = divs_view(out@);
    let ghost pv = text::texts(path@);
    if full(out, max) {
        proof {
            lemma_stop(o, stmt_divs(a@, b@, pv), max as nat);
        }
        return;
    }
    proof {
        lemma_none(o, max as nat);
    }
    let sa: Span = a.span();
    let sb: Span = b.span();
    match (a, b) {
        (
            Stmt::Assign { lhs: la, rhs: ra, .. },
            Stmt::Assign { lhs: lb, rhs: rb, .. },
        ) => {
            if !text::texts_eq(&la.parts, &lb.parts) {
                push_stmt_at(a, b, path, "lhs".to_string(), out, Ghost(max as nat));
            } else {
                compare_expr_at(ra, rb, sa, sb, path, "rhs".to_string(), out, max);
            }
        },
        (Stmt::Unset { lhs: la, .. }, Stmt::Unset { lhs: lb, .. }) => {
            if !text::texts_eq(&la.parts, &lb.parts) {
                push_stmt(a, b, path, out, Ghost(max as nat));
            }
        },
        (Stmt::Call { sub: ca, .. }, Stmt::Call { sub: cb, .. }) => {
            if !text::str_eq(ca.as_str(), cb.as_str()) {
                push_stmt(a, b, path, out, Ghost(max as nat));
            }
        },
        (Stmt::Return { action: xa, .. }, Stmt::Return { action: xb, .. }) => match (xa, xb) {
            (None, None) => {},
            (Some(x), Some(y)) => {
                if !text::str_eq(x.name.as_str(), y.name.as_str()) {
                    push_stmt_at(a, b, path, "action".to_string(), out, Ghost(max as nat));
                } else {
                    compare_expr_list(
                        &x.args,
                        &y.args,
                        sa,
                        sb,
                        path,
                        out,
                        max,
                        "action.args",
                    );
                }
            },
            _ => {
                push_stmt(a, b, path, out, Ghost(max as nat));
            },
        },
        (Stmt::Synthetic { value: va, .. }, Stmt::Synthetic { value: vb, .. }) => {
            compare_expr_at(va, vb, sa, sb, path, "value".to_string(), out, max);
        },
        (
            Stmt::If { arms: xa, else_body: ea, .. },
            Stmt::If { arms: xb, else_body: eb, .. },
        ) => {
            if xa.len() != xb.len() {
                push_stmt(a, b, path, out, Ghost(max as nat));
                return;
            }
            let ghost arms = arms_divs(ast::arms_view(xa@), ast::arms_view(xb@), sa, sb, pv, 0);
            compare_arms(xa, xb, sa, sb, path, out, max);
            let ghost o1 = divs_view(out@);
            let ghost rest = stmt_divs(a@, b@, pv).skip(arms.len() as int);
            proof {
                assert(stmt_divs(a@, b@, pv) =~= arms + rest);
                lemma_step(o, arms, rest, max as nat);
            }
            if full(out, max) {
                proof {
                    lemma_stop(o1, rest, max as nat);
                }
                return;
            }
            match (ea, eb) {
                (None, None) => {
                    proof {
                        lemma_none(o1, max as nat);
                        assert(rest =~= Seq::<DivV>::empty());
                    }
                },
                (Some(x), Some(y)) => {
                    compare_stmt_list(x, y, path, out, max, "else_body");
                    assert(rest =~= stmts_divs(
                        ast::stmts_view(x@),
                        ast::stmts_view(y@),
                        pv,
                        "else_body"@,
                        0,
                    ));
                },
                _ => {
                    push_stmt_at(a, b, path, "else_body".to_string(), out, Ghost(max as nat));
                    assert(rest =~= whole_stmt(a@, b@, pv.push("else_body"@)));
                },
            }
        },
        (
            Stmt::New { name: na, vmod: ma, ctor: ca, args: xa, .. },
            Stmt::New { name: nb, vmod: mb, ctor: cb, args: xb, .. },
        ) => {
            if !text::str_eq(na.as_str(), nb.as_str()) || !text::str_eq(ma.as_str(), mb.as_str())
                || !text::str_eq(ca.as_str(), cb.as_str()) {
                push_stmt(a, b, path, out, Ghost(max as nat));
            } else {
                compare_arg_list(xa, xb, sa, sb, path, out, max, "args");
            }
        },
        (Stmt::Expr { expr: xa, .. }, Stmt::Expr { expr: xb, .. }) => {
            compare_expr(xa, xb, sa, sb, path, out, max);
        },
        _ => {},
    }
}

fn compare_arms(
    la: &Vec<(Expr, Vec<Stmt>)>,
    lb: &Vec<(Expr, Vec<Stmt>)>,
    sa: Span,
    sb: Span,
    path: &mut Vec<String>,
    out: &mut Vec<Divergence>,
    max: usize,
)
    requires
        old(out)@.len() <= max,
        la@.len() == lb@.len(),
    ensures
        divs_view(final(out)@) == capped(
            divs_view(old(out)@) + arms_divs(
                ast::arms_view(la@),
                ast::arms_view(lb@),
                sa,
                sb,
                text::texts(old(path)@),
                0,
            ),
            max as nat,
        ),
        final(out)@.len() <= max,
        final(path)@ == old(path)@,
    decreases la, 1nat,
{
    let ghost va = ast::arms_view(la@);
    let ghost vb = ast::arms_view(lb@);
    let ghost pv = text::texts(path@);
    let ghost p0 = path@;
    let ghost goal = capped(divs_view(out@) + arms_divs(va, vb, sa, sb, pv, 0), max as nat);
    let mut j: usize = 0;
    while j < la.len() && !full(out, max)
        invariant
            j <= la.len(),
            la@.len() == lb@.len(),
            va == ast::arms_view(la@),
            vb == ast::arms_view(lb@),
            path@ == p0,
            pv == text::texts(p0),
            out@.len() <= max,
            goal == capped(
                divs_view(out@) + arms_divs(va, vb, sa, sb, pv, j as nat),
                max as nat,
            ),
        decreases la.len() - j,
    {
        let ghost o = divs_view(out@);
        let ghost rest = arms_divs(va, vb, sa, sb, pv, (j + 1) as nat);
        assert(va[j as int] == ast::arm_view(la@[j as int]));
        assert(vb[j as int] == ast::arm_view(lb@[j as int]));
        let mut seg = index_str("arms", j);
        seg.append(".cond");
        let ghost conds = expr_divs(
            va[j as int].cond,
            vb[j as int].cond,
            sa,
            sb,
            pv.push(seg@),
        );
        compare_expr_at(&la[j].0, &lb[j].0, sa, sb, path, seg, out, max);
        let ghost o1 = divs_view(out@);
        let mut prefix = index_str("arms", j);
        prefix.append(".body");
        let ghost bodies = stmts_divs(va[j as int].body, vb[j as int].body, pv, prefix@, 0);
        proof {
            lemma_step(o, conds, bodies + rest, max as nat);
            lemma_step(o1, bodies, rest, max as nat);
        }
        compare_stmt_list(&la[j].1, &lb[j].1, path, out, max, prefix.as_str());
        j += 1;
    }
    proof {
        if j < la.len() {
            lemma_stop(divs_view(out@), arms_divs(va, vb, sa, sb, pv, j as nat), max as nat);
        } else {
            lemma_none(divs_view(out@), max as nat);
        }
    }
}

fn field_to_snippet(f: &Field) -> (r: String)
    ensures
        r@ == field_snippet(f@),
{
    json::compact(&canon::field_to_json(f))
}

fn compare_fields(
    la: &Vec<Field>,
    lb: &Vec<Field>,
    path: &mut Vec<String>,
    out: &mut Vec<Divergence>,
    max: usize,
)
    requires
        old(out)@.len() <= max,
    ensures
        divs_view(final(out)@) == capped(
            divs_view(old(out)@) + fields_divs(
                ast::fields_view(la@),
                ast::fields_view(lb@),
                text::texts(old(path)@),
                0,
            ),
            max as nat,
        ),
        final(out)@.len() <= max,
        final(path)@ == old(path)@,
    decreases la, 1nat,
{
    let ghost va = ast::fields_view(la@);
    let ghost vb = ast::fields_view(lb@);
    let ghost pv = text::texts(path@);
    let ghost p0 = path@;
    let ghost goal = capped(divs_view(out@) + fields_divs(va, vb, pv, 0), max as nat);
    let n: usize = if la.len() >= lb.len() {
        la.len()
    } else {
        lb.len()
    };
    let mut i: usize = 0;
    while i < n && !full(out, max)
        invariant
            i <= n,
            n == most(va.len(), vb.len()),
            va == ast::fields_view(la@),
            vb == ast::fields_view(lb@),
            path@ == p0,
            pv == text::texts(p0),
            out@.len() <= max,
            goal == capped(divs_view(out@) + fields_divs(va, vb, pv, i as nat), max as nat),
        decreases n - i,
    {
        let ghost o = divs_view(out@);
        let ghost rest = fields_divs(va, vb, pv, (i + 1) as nat);
        let ghost item: Seq<DivV>;
        let seg = index_str("fields", i);
        if i < la.len() && i < lb.len() {
            let sa: Span = la[i].span;
            let sb: Span = lb[i].span;
            if !text::str_eq(la[i].name.as_str(), lb[i].name.as_str()) {
                let mut named = seg;
                named.append(" (.");
                named.append(la[i].name.as_str());
                named.append(")");
                let ta = field_to_snippet(&la[i]);
                let tb = field_to_snippet(&lb[i]);
                push_div_at(path, named, Some(sa), Some(sb), ta, tb, out, Ghost(max as nat));
                proof {
                    item = seq![div(pv.push(named@), Some(sa), Some(sb), ta@, tb@)];
                }
            } else {
                let mut dotted = ".".to_string();
                dotted.append(la[i].name.as_str());
                path.push(dotted);
                compare_field_value(&la[i].value, &lb[i].value, sa, sb, path, out, max);
                path.pop();
                proof {
                    assert(path@ =~= p0);
                    item = field_value_divs(
                        va[i as int].value,
                        vb[i as int].value,
                        sa,
                        sb,
                        pv.push(dotted@),
                    );
                }
            }
        } else if i < la.len() {
            let t = field_to_snippet(&la[i]);
            push_div_at(
                path,
                seg,
                Some(la[i].span),
                None,
                t,
                "<missing>".to_string(),
                out,
                Ghost(max as nat),
            );
            proof {
                item = seq![div(pv.push(seg@), Some(la[i as int].span), None, t@, missing())];
            }
        } else {
            let t = field_to_snippet(&lb[i]);
            push_div_at(
                path,
                seg,
                None,
                Some(lb[i].span),
                "<missing>".to_string(),
                t,
                out,
                Ghost(max as nat),
            );
            proof {
                item = seq![div(pv.push(seg@), None, Some(lb[i as int].span), missing(), t@)];
            }
        }
        proof {
            lemma_step(o, item, rest, max as nat);
        }
        i += 1;
    }
    proof {
        if i < n {
            lemma_stop(divs_view(out@), fields_divs(va, vb, pv, i as nat), max as nat);
        } else {
            lemma_none(divs_view(out@), max as nat);
        }
    }
}

fn debug_list(l: &Vec<String>) -> (r: String)
    ensures
        r@ == list_debug(text::texts(l@)),
{
    let mut parts: Vec<String> = Vec::new();
    let mut i: usize = 0;
    while i < l.len()
        invariant
            i <= l.len(),
            parts.len() == i,
            forall|j: int| 0 <= j < i ==> (#[trigger] parts@[j])@ == text::str_debug(l@[j]@),
        decreases l.len() - i,
    {
        parts.push(text::debug_str(l[i].as_str()));
        i += 1;
    }
    let ghost lv = text::texts(l@);
    assert(text::texts(parts@) =~= Seq::new(lv.len(), |i: int| text::str_debug(lv[i])));
    let mut s = "[".to_string();
    s.append(text::join_strings(&parts, ", ").as_str());
    s.append("]");
    s
}

fn debug_opt(s: &Option<String>) -> (r: String)
    ensures
        r@ == opt_debug(text::opt_text(*s)),
{
    match s {
        Some(t) => {
            let mut x = "Some(".to_string();
            x.append(text::debug_str(t.as_str()).as_str());
            x.append(")");
            x
        },
        None => "None".to_string(),
    }
}

fn compare_field_value(
    a: &FieldValue,
    b: &FieldValue,
    sa: Span,
    sb: Span,
    path: &mut Vec<String>,
    out: &mut Vec<Divergence>,
    max: usize,
)
    requires
        old(out)@.len() <= max,
    ensures
        divs_view(final(out)@) == capped(
            divs_view(old(out)@) + field_value_divs(a@, b@, sa, sb, text::texts(old(path)@)),
            max as nat,
        ),
        final(out)@.len() <= max,
        final(path)@ == old(path)@,
    decreases a, 0nat,
{
    let ghost o = divs_view(out@);
    if full(out, max) {
        proof {
            lemma_stop(
                o,
                field_value_divs(a@, b@, sa, sb, text::texts(path@)),
                max as nat,
            );
        }
        return;
    }
    proof {
        lemma_none(o, max as nat);
    }
    match (a, b) {
        (FieldValue::Expr(x), FieldValue::Expr(y)) => {
            compare_expr(x, y, sa, sb, path, out, max);
        },
        (FieldValue::Probe(x), FieldValue::Probe(y)) => {
            compare_fields(x, y, path, out, max);
        },
        (FieldValue::ProbeRef(x), FieldValue::ProbeRef(y)) => {
            if !text::str_eq(x.as_str(), y.as_str()) {
                push_div(
                    path,
                    Some(sa),
                    Some(sb),
                    x.clone(),
                    y.clone(),
                    out,
                    Ghost(max as nat),
                );
            }
        },
        (FieldValue::StringList(x), FieldValue::StringList(y)) => {
            if !text::texts_eq(x, y) {
                push_div(
                    path,
                    Some(sa),
                    Some(sb),
                    debug_list(x),
                    debug_list(y),
                    out,
                    Ghost(max as nat),
                );
            }
        },
        _ => {
            push_div(
                path,
                Some(sa),
                Some(sb),
                json::compact(&canon::field_value_to_json(a)),
                json::compact(&canon::field_value_to_json(b)),
                out,
                Ghost(max as nat),
            );
        },
    }
}

fn entry_to_snippet(e: &AclEntry) -> (r: String)
    ensures
        r@ == entry_snippet(e@),
{
    json::compact(&canon::acl_entry_to_json(e))
}

fn same_mask(a: Option<u8>, b: Option<u8>) -> (r: bool)
    ensures
        r == (a == b),
{
    match (a, b) {
        (Some(x), Some(y)) => x == y,
        (None, None) => true,
        _ => false,
    }
}

fn compare_acl_entries(
    la: &Vec<AclEntry>,
    lb: &Vec<AclEntry>,
    path: &mut Vec<String>,
    out: &mut Vec<Divergence>,
    max: usize,
)
    requires
        old(out)@.len() <= max,
    ensures
        divs_view(final(out)@) == capped(
            divs_view(old(out)@) + entries_divs(
                ast::acl_entries_view(la@),
                ast::acl_entries_view(lb@),
                text::texts(old(path)@),
                0,
            ),
            max as nat,
        ),
        final(out)@.len() <= max,
        final(path)@ == old(path)@,
{
    let ghost va = ast::acl_entries_view(la@);
    let ghost vb = ast::acl_entries_view(lb@);
    let ghost pv = text::texts(path@);
    let ghost p0 = path@;
    let ghost goal = capped(divs_view(out@) + entries_divs(va, vb, pv, 0), max as nat);
    let n: usize = if la.len() >= lb.len() {
        la.len()
    } else {
        lb.len()
    };
    let mut i: usize = 0;
    while i < n && !full(out, max)
        invariant
            i <= n,
            n == most(va.len(), vb.len()),
            va == ast::acl_entries_view(la@),
            vb == ast::acl_entries_view(lb@),
            path@ == p0,
            pv == text::texts(p0),
            out@.len() <= max,
            goal == capped(divs_view(out@) + entries_divs(va, vb, pv, i as nat), max as nat),
        decreases n - i,
    {
        let ghost o = divs_view(out@);
        let ghost rest = entries_divs(va, vb, pv, (i + 1) as nat);
        let ghost item: Seq<DivV>;
        let seg = index_str("entries", i);
        if i < la.len() && i < lb.len() {
            let sa: Span = la[i].span;
            let sb: Span = lb[i].span;
            if la[i].negated != lb[i].negated || !text::str_eq(
                la[i].addr.as_str(),
                lb[i].addr.as_str(),
            ) || !same_mask(la[i].mask, lb[i].mask) {
                let ta = entry_to_snippet(&la[i]);
                let tb = entry_to_snippet(&lb[i]);
                push_div_at(path, seg, Some(sa), Some(sb), ta, tb, out, Ghost(max as nat));
                proof {
                    item = seq![div(pv.push(seg@), Some(sa), Some(sb), ta@, tb@)];
                }
            } else {
                proof {
                    lemma_none(o, max as nat);
                    item = Seq::<DivV>::empty();
                }
            }
        } else if i < la.len() {
            let t = entry_to_snippet(&la[i]);
            push_div_at(
                path,
                seg,
                Some(la[i].span),
                None,
                t,
                "<missing>".to_string(),
                out,
                Ghost(max as nat),
            );
            proof {
                item = seq![div(pv.push(seg@), Some(la[i as int].span), None, t@, missing())];
            }
        } else {
            let t = entry_to_snippet(&lb[i]);
            push_div_at(
                path,
                seg,
                None,
                Some(lb[i].span),
                "<missing>".to_string(),
                t,
                out,
                Ghost(max as nat),
            );
            proof {
                item = seq![div(pv.push(seg@), None, Some(lb[i as int].span), missing(), t@)];
            }
        }
        proof {
            lemma_step(o, item, rest, max as nat);
        }
        i += 1;
    }
    proof {
        if i < n {
            lemma_stop(divs_view(out@), entries_divs(va, vb, pv, i as nat), max as nat);
        } else {
            lemma_none(divs_view(out@), max as nat);
        }
    }
}

fn decl_kind_str(d: &Decl) -> (r: &'static str)
    ensures
        r@ == decl_kind(d@),
{
    match d {
        Decl::Import { .. } => "import",
        Decl::Backend { .. } => "backend",
        Decl::Probe { .. } => "probe",
        Decl::Acl { .. } => "acl",
        Decl::Sub { .. } => "sub",
    }
}

fn decls_of_one_kind(a: &Decl, b: &Decl) -> (r: bool)
    ensures
        r == same_decl_kind(a@, b@),
{
    match (a, b) {
        (Decl::Import { .. }, Decl::Import { .. }) => true,
        (Decl::Backend { .. }, Decl::Backend { .. }) => true,
        (Decl::Probe { .. }, Decl::Probe { .. }) => true,
        (Decl::Acl { .. }, Decl::Acl { .. }) => true,
        (Decl::Sub { .. }, Decl::Sub { .. }) => true,
        _ => false,
    }
}

fn bool_str(b: bool) -> (r: String)
    ensures
        r@ == bool_text(b),
{
    if b {
        "true".to_string()
    } else {
        "false".to_string()
    }
}

fn fields_to_snippet(fs: &Vec<Field>) -> (r: String)
    ensures
        r@ == fields_snippet(ast::fields_view(fs@)),
{
    json::compact(&canon::fields_to_json(fs))
}

fn compare_decl(
    a: &Decl,
    b: &Decl,
    path: &mut Vec<String>,
    out: &mut Vec<Divergence>,
    max: usize,
)
    requires
        old(out)@.len() <= max,
    ensures
        divs_view(final(out)@) == capped(
            divs_view(old(out)@) + decl_divs(a@, b@, text::texts(old(path)@)),
            max as nat,
        ),
        final(out)@.len() <= max,
        final(path)@ == old(path)@,
{
    let ghost o = divs_view(out@);
    if full(out, max) {
        proof {
            lemma_stop(o, decl_divs(a@, b@, text::texts(path@)), max as nat);
        }
        return;
    }
    proof {
        lemma_none(o, max as nat);
    }
    let sa: Span = a.span();
    let sb: Span = b.span();
    match (a, b) {
        (Decl::Import { from: fa, .. }, Decl::Import { from: fb, .. }) => {
            if !text::opt_text_eq(fa, fb) {
                push_div_at(
                    path,
                    "from".to_string(),
                    Some(sa),
                    Some(sb),
                    debug_opt(fa),
                    debug_opt(fb),
                    out,
                    Ghost(max as nat),
                );
            }
        },
        (
            Decl::Backend { none: na, body: ba, .. },
            Decl::Backend { none: nb, body: bb, .. },
        ) => {
            if *na != *nb {
                push_div_at(
                    path,
                    "none".to_string(),
                    Some(sa),
                    Some(sb),
                    bool_str(*na),
                    bool_str(*nb),
                    out,
                    Ghost(max as nat),
                );
                return;
            }
            match (ba, bb) {
                (Some(x), Some(y)) => {
                    compare_fields(x, y, path, out, max);
                },
                (None, None) => {},
                (Some(x), None) => {
                    push_div_at(
                        path,
                        "body".to_string(),
                        Some(sa),
                        Some(sb),
                        fields_to_snippet(x),
                        "<none>".to_string(),
                        out,
                        Ghost(max as nat),
                    );
                },
                (None, Some(y)) => {
                    push_div_at(
                        path,
                        "body".to_string(),
                        Some(sa),
                        Some(sb),
                        "<none>".to_string(),
                        fields_to_snippet(y),
                        out,
                        Ghost(max as nat),
                    );
                },
            }
        },
        (Decl::Probe { body: x, .. }, Decl::Probe { body: y, .. }) => {
            compare_fields(x, y, path, out, max);
        },
        (Decl::Acl { entries: x, .. }, Decl::Acl { entries: y, .. }) => {
            compare_acl_entries(x, y, path, out, max);
        },
        (Decl::Sub { body: x, .. }, Decl::Sub { body: y, .. }) => {
            compare_stmt_list(x, y, path, out, max, "body");
        },
        _ => {},
    }
}

fn decl_to_snippet(d: &Decl) -> (r: String)
    ensures
        r@ == decl_snippet(d@),
{
    json::compact(&canon::decl_to_json(d))
}

fn compare_decl_lists(la: &Vec<Decl>, lb: &Vec<Decl>, out: &mut Vec<Divergence>, max: usize)
    requires
        old(out)@.len() <= max,
    ensures
        divs_view(final(out)@) == capped(
            divs_view(old(out)@) + decls_divs(
                ast::decls_view(la@),
                ast::decls_view(lb@),
                0,
            ),
            max as nat,
        ),
        final(out)@.len() <= max,
{
    let ghost va = ast::decls_view(la@);
    let ghost vb = ast::decls_view(lb@);
    let ghost goal = capped(divs_view(out@) + decls_divs(va, vb, 0), max as nat);
    let n: usize = if la.len() >= lb.len() {
        la.len()
    } else {
        lb.len()
    };
    let mut i: usize = 0;
    while i < n && !full(out, max)
        invariant
            i <= n,
            n == most(va.len(), vb.len()),
            va == ast::decls_view(la@),
            vb == ast::decls_view(lb@),
            out@.len() <= max,
            goal == capped(divs_view(out@) + decls_divs(va, vb, i as nat), max as nat),
        decreases n - i,
    {
        let ghost o = divs_view(out@);
        let ghost rest = decls_divs(va, vb, (i + 1) as nat);
        let ghost item: Seq<DivV>;
        let mut seg = index_str("decls", i);
        let mut path: Vec<String> = Vec::new();
        if i < la.len() && i < lb.len() {
            seg.append(" (");
            seg.append(decl_kind_str(&la[i]));
            seg.append(" ");
            seg.append(la[i].name().as_str());
            seg.append(")");
            path.push(seg);
            assert(text::texts(path@) =~= seq![seg@]);
            if !decls_of_one_kind(&la[i], &lb[i]) || !text::str_eq(
                la[i].name().as_str(),
                lb[i].name().as_str(),
            ) {
                let sa: Span = la[i].span();
                let sb: Span = lb[i].span();
                let ta = decl_to_snippet(&la[i]);
                let tb = decl_to_snippet(&lb[i]);
                push_div(&path, Some(sa), Some(sb), ta, tb, out, Ghost(max as nat));
                proof {
                    item = seq![div(seq![seg@], Some(sa), Some(sb), ta@, tb@)];
                }
            } else {
                compare_decl(&la[i], &lb[i], &mut path, out, max);
                proof {
                    item = decl_divs(va[i as int], vb[i as int], seq![seg@]);
                }
            }
        } else if i < la.len() {
            path.push(seg);
            assert(text::texts(path@) =~= seq![seg@]);
            let sa: Span = la[i].span();
            let t = decl_to_snippet(&la[i]);
            push_div(
                &path,
                Some(sa),
                None,
                t,
                "<missing>".to_string(),
                out,
                Ghost(max as nat),
            );
            proof {
                item = seq![div(seq![seg@], Some(sa), None, t@, missing())];
            }
        } else {
            path.push(seg);
            assert(text::texts(path@) =~= seq![seg@]);
            let sb: Span = lb[i].span();
            let t = decl_to_snippet(&lb[i]);
            push_div(
                &path,
                None,
                Some(sb),
                "<missing>".to_string(),
                t,
                out,
                Ghost(max as nat),
            );
            proof {
                item = seq![div(seq![seg@], None, Some(sb), missing(), t@)];
            }
        }
        proof {
            lemma_step(o, item, rest, max as nat);
        }
        i += 1;
    }
    proof {
        if i < n {
            lemma_stop(divs_view(out@), decls_divs(va, vb, i as nat), max as nat);
        } else {
            lemma_none(divs_view(out@), max as nat);
        }
    }
}

/// The first `max_reports` divergences of two normalized programs; none means
/// that they are equivalent.
pub fn compare(a: &Program, b: &Program, max_reports: usize) -> (r: Vec<Divergence>)
    ensures
        divs_view(r@) == capped(program_divs(a@, b@), max_reports as nat),
{
    let mut out: Vec<Divergence> = Vec::new();
    proof {
        assert(divs_view(out@) + program_divs(a@, b@) =~= program_divs(a@, b@));
    }
    compare_decl_lists(&a.decls, &b.decls, &mut out, max_reports);
    out
}

// ───────────────────────── the report ─────────────────────────

/// Where a divergence stands in a file.
pub open spec fn location(files: Seq<FileV>, span: Option<Span>) -> Seq<char> {
    match span {
        Some(sp) => if sp.file < files.len() {
            let f = files[sp.file as int];
            let b = encode_utf8(f.text);
            f.path + ":"@ + text::nat_text(ast::span_line(b, sp)) + ":"@ + text::nat_text(
                ast::span_column(b, sp),
            )
        } else {
            "?:?:?"@
        },
        None => "?:?:?"@,
    }
}

/// The report on one divergence.
pub open spec fn div_report(d: DivV, fa: Seq<FileV>, fb: Seq<FileV>) -> Seq<char> {
    d.path + "\n"@ + "  A: "@ + location(fa, d.span_a) + "      "@ + d.snippet_a + "\n"@ + "  B: "@
        + location(fb, d.span_b) + "      "@ + d.snippet_b + "\n"@
}

/// The report on the first `n` divergences, with a blank line between two.
pub open spec fn divs_report(ds: Seq<DivV>, fa: Seq<FileV>, fb: Seq<FileV>, n: nat) -> Seq<char>
    decreases n,
{
    if n == 0 {
        seq![]
    } else if n == 1 {
        div_report(ds[0], fa, fb)
    } else {
        divs_report(ds, fa, fb, (n - 1) as nat) + "\n"@ + div_report(ds[n - 1], fa, fb)
    }
}

fn render_loc(sm: &SourceMap, span: Option<Span>) -> (r: String)
    ensures
        r@ == location(sm@, span),
{
    match span {
        Some(sp) => {
            if (sp.file as usize) < sm.files.len() {
                let (path, line, col) = sm.resolve(sp);
                let mut s = path.clone();
                s.append(":");
                s.append(text::u64_text(line as u64).as_str());
                s.append(":");
                s.append(text::u64_text(col as u64).as_str());
                s
            } else {
                "?:?:?".to_string()
            }
        },
        None => "?:?:?".to_string(),
    }
}

/// Renders a report on divergences; `total_capped` adds that there are more.
pub fn render_report(
    divs: &[Divergence],
    sm_a: &SourceMap,
    sm_b: &SourceMap,
    total_capped: bool,
) -> (r: String)
    ensures
        r@ == divs_report(divs_view(divs@), sm_a@, sm_b@, divs@.len()) + if total_capped {
            "\n… and more divergences exist beyond the reported cap\n"@
        } else {
            ""@
        },
{
    let ghost dv = divs_view(divs@);
    let mut out = String::new();
    let mut i: usize = 0;
    while i < divs.len()
        invariant
            i <= divs.len(),
            dv == divs_view(divs@),
            out@ == divs_report(dv, sm_a@, sm_b@, i as nat),
        decreases divs.len() - i,
    {
        let ghost before = out@;
        let d = &divs[i];
        if i > 0 {
            out.append("\n");
        }
        let ghost head = out@;
        let mut block = d.path.clone();
        block.append("\n");
        block.append("  A: ");
        block.append(render_loc(sm_a, d.span_a).as_str());
        block.append("      ");
        block.append(d.snippet_a.as_str());
        block.append("\n");
        block.append("  B: ");
        block.append(render_loc(sm_b, d.span_b).as_str());
        block.append("      ");
        block.append(d.snippet_b.as_str());
        block.append("\n");
        assert(block@ == div_report(dv[i as int], sm_a@, sm_b@));
        out.append(block.as_str());
        i += 1;
        assert(out@ =~= divs_report(dv, sm_a@, sm_b@, i as nat)) by {
            reveal_with_fuel(divs_report, 2);
        }
    }
    if total_capped {
        out.append("\n… and more divergences exist beyond the reported cap\n");
    } else {
        out.append("");
    }
    out
}

} // verus!
