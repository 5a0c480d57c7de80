//! Programs whose vmod calls are written in another style become the same.

use crate::ast;
use crate::ast::{ArgV, ArmV, DeclV, ErrV, ExprV, Span, StmtV};
use crate::layout;
use crate::layout::passes;
use crate::normalize::arg_style;
use crate::normalize::once;
use crate::normalize::shuffle;
use crate::normalize::vmod_args;
use crate::normalize::vmod_args::KnownV;
use crate::vmod::ArgSpecV;
use vstd::prelude::*;

verus! {

/// Whether two lists of arguments of one call come to the same values.
pub open spec fn same_call(sig: Option<Seq<ArgSpecV>>, a: Seq<ArgV>, b: Seq<ArgV>) -> bool {
    sig matches Some(s) && arg_style::fits(a, s) && arg_style::fits(b, s)
        && arg_style::same_values(a, b, s)
}

/// Whether two expressions differ in nothing but the style of their vmod calls
/// and in their places.
pub open spec fn restyled_expr(e: ExprV, f: ExprV, k: KnownV) -> bool
    decreases e,
{
    match (e, f) {
        (ExprV::Call { target: t, args: a }, ExprV::Call { target: u, args: b }) => t == u && (
        same_call(vmod_args::call_sig(k, t), a, b) || restyled_args(a, b, k)),
        (ExprV::Unary { op: o, expr: x }, ExprV::Unary { op: p, expr: y }) => o == p
            && restyled_expr(*x, *y, k),
        (
            ExprV::Binary { op: o, lhs: l, rhs: r },
            ExprV::Binary { op: p, lhs: m, rhs: s },
        ) => o == p && restyled_expr(*l, *m, k) && restyled_expr(*r, *s, k),
        _ => layout::bare_expr(e) == layout::bare_expr(f),
    }
}

/// Whether two lists of arguments have the same style, and differ in nothing but
/// the style of the vmod calls in them.
pub open spec fn restyled_args(a: Seq<ArgV>, b: Seq<ArgV>, k: KnownV) -> bool
    decreases a,
{
    &&& a.len() == b.len()
    &&& forall|i: int|
        0 <= i < a.len() ==> (#[trigger] a[i]).name == b[i].name && restyled_expr(
            a[i].value,
            b[i].value,
            k,
        )
}

/// Whether two statements differ in nothing but the style of their vmod calls.
pub open spec fn restyled_stmt(s: StmtV, t: StmtV, k: KnownV) -> bool
    decreases s,
{
    match (s, t) {
        (
            StmtV::Assign { lhs: l, rhs: x, .. },
            StmtV::Assign { lhs: m, rhs: y, .. },
        ) => l == m && restyled_expr(x, y, k),
        (
            StmtV::Return { action: Some(x), .. },
            StmtV::Return { action: Some(y), .. },
        ) => x.name == y.name && x.args.len() == y.args.len() && forall|i: int|
            0 <= i < x.args.len() ==> restyled_expr(#[trigger] x.args[i], y.args[i], k),
        (StmtV::Synthetic { value: x, .. }, StmtV::Synthetic { value: y, .. }) => restyled_expr(
            x,
            y,
            k,
        ),
        (
            StmtV::If { arms: x, else_body: b, .. },
            StmtV::If { arms: y, else_body: c, .. },
        ) => restyled_arms(x, y, k) && match (b, c) {
            (Some(l), Some(m)) => restyled_stmts(l, m, k),
            (None, None) => true,
            _ => false,
        },
        (
            StmtV::New { name: n, vmod: v, ctor: c, args: a, .. },
            StmtV::New { name: m, vmod: w, ctor: d, args: b, .. },
        ) => n == m && v == w && c == d && (same_call(vmod_args::ctor_sig(k, v, c), a, b)
            || restyled_args(a, b, k)),
        (StmtV::Expr { expr: x, .. }, StmtV::Expr { expr: y, .. }) => restyled_expr(x, y, k),
        _ => layout::bare_stmt(s) == layout::bare_stmt(t),
    }
}

/// Whether statements differ in nothing but the style of their vmod calls.
pub open spec fn restyled_stmts(s: Seq<StmtV>, t: Seq<StmtV>, k: KnownV) -> bool
    decreases s,
{
    &&& s.len() == t.len()
    &&& forall|i: int| 0 <= i < s.len() ==> restyled_stmt(#[trigger] s[i], t[i], k)
}

/// Whether arms differ in nothing but the style of their vmod calls.
pub open spec fn restyled_arms(s: Seq<ArmV>, t: Seq<ArmV>, k: KnownV) -> bool
    decreases s,
{
    &&& s.len() == t.len()
    &&& forall|i: int|
        0 <= i < s.len() ==> restyled_expr((#[trigger] s[i]).cond, t[i].cond, k)
            && restyled_stmts(s[i].body, t[i].body, k)
}

/// Whether two declarations differ in nothing but the style of their vmod calls.
pub open spec fn restyled_decl(d: DeclV, e: DeclV, k: KnownV) -> bool {
    match (d, e) {
        (DeclV::Sub { name: m, body: x, .. }, DeclV::Sub { name: n, body: y, .. }) => m == n
            && restyled_stmts(x, y, k),
        _ => layout::bare_decl(d) == layout::bare_decl(e),
    }
}

/// Whether declarations differ in nothing but the style of their vmod calls.
pub open spec fn restyled_decls(s: Seq<DeclV>, t: Seq<DeclV>, k: KnownV) -> bool {
    &&& s.len() == t.len()
    &&& forall|i: int| 0 <= i < s.len() ==> restyled_decl(#[trigger] s[i], t[i], k)
}

// ───────────────────────── expressions ─────────────────────────

proof fn lemma_same_style(e: ExprV, f: ExprV, k: KnownV)
    requires
        layout::bare_expr(e) == layout::bare_expr(f),
    ensures
        restyled_expr(e, f, k),
    decreases e,
{
    match (e, f) {
        (ExprV::Call { args: a, .. }, ExprV::Call { args: b, .. }) => {
            let x = layout::bare_args(a);
            let y = layout::bare_args(b);
            assert(x.len() == a.len() && y.len() == b.len());
            assert forall|i: int| 0 <= i < a.len() implies (#[trigger] a[i]).name == b[i].name
                && restyled_expr(a[i].value, b[i].value, k) by {
                assert(x[i] == layout::bare_arg(a[i]));
                assert(y[i] == layout::bare_arg(b[i]));
                lemma_same_style(a[i].value, b[i].value, k);
            }
            assert(restyled_args(a, b, k));
        },
        (ExprV::Unary { expr: x, .. }, ExprV::Unary { expr: y, .. }) => {
            lemma_same_style(*x, *y, k);
        },
        (
            ExprV::Binary { lhs: l, rhs: r, .. },
            ExprV::Binary { lhs: m, rhs: s, .. },
        ) => {
            lemma_same_style(*l, *m, k);
            lemma_same_style(*r, *s, k);
        },
        _ => {},
    }
}

proof fn lemma_holds_calls(e: ExprV, f: ExprV, k: KnownV)
    requires
        restyled_expr(e, f, k),
    ensures
        layout::bare_expr(e) == layout::bare_expr(f) || (once::holds_call(e) && once::holds_call(f)),
        e is Omitted == f is Omitted,
    decreases e,
{
    match (e, f) {
        (ExprV::Unary { expr: x, .. }, ExprV::Unary { expr: y, .. }) => {
            lemma_holds_calls(*x, *y, k);
        },
        (
            ExprV::Binary { lhs: l, rhs: r, .. },
            ExprV::Binary { lhs: m, rhs: s, .. },
        ) => {
            lemma_holds_calls(*l, *m, k);
            lemma_holds_calls(*r, *s, k);
        },
        _ => {},
    }
}

/// Whether two arguments are given by position and differ in style only.
spec fn slot_pair(u: ArgV, v: ArgV, a: Seq<ArgV>, b: Seq<ArgV>, k: KnownV) -> bool {
    &&& u.name == v.name
    &&& (u.value is Omitted && v.value is Omitted) || (restyled_expr(u.value, v.value, k) && (
    exists|c: int| 0 <= c < a.len() && (#[trigger] a[c]).value == u.value) && (exists|c: int|
        0 <= c < b.len() && (#[trigger] b[c]).value == v.value))
}

spec fn slot_pairs(
    l: Seq<ArgV>,
    r: Seq<ArgV>,
    a: Seq<ArgV>,
    b: Seq<ArgV>,
    k: KnownV,
) -> bool {
    &&& l.len() == r.len()
    &&& forall|i: int| 0 <= i < l.len() ==> slot_pair(#[trigger] l[i], r[i], a, b, k)
}

/// Whether two slots are empty, or hold the same argument of two lists.
spec fn slot_both(x: Option<ArgV>, y: Option<ArgV>, a: Seq<ArgV>, b: Seq<ArgV>) -> bool {
    match (x, y) {
        (None, None) => true,
        (Some(u), Some(v)) => exists|c: int|
            0 <= c < a.len() && c < b.len() && #[trigger] a[c] == u && b[c] == v,
        _ => false,
    }
}

proof fn lemma_fill(
    a: Seq<ArgV>,
    b: Seq<ArgV>,
    sig: Seq<ArgSpecV>,
    x: Span,
    y: Span,
    i: nat,
    next: nat,
    s: Seq<Option<ArgV>>,
    t: Seq<Option<ArgV>>,
)
    requires
        a.len() == b.len(),
        forall|i: int| 0 <= i < a.len() ==> (#[trigger] a[i]).name == b[i].name,
        s.len() == sig.len(),
        t.len() == sig.len(),
        forall|j: int| 0 <= j < s.len() ==> slot_both(#[trigger] s[j], t[j], a, b),
    ensures
        match (
            vmod_args::fill_slots(a, sig, x, i, next, s),
            vmod_args::fill_slots(b, sig, y, i, next, t),
        ) {
            (Ok(u), Ok(v)) => u.len() == sig.len() && v.len() == sig.len() && forall|j: int|
                0 <= j < u.len() ==> slot_both(#[trigger] u[j], v[j], a, b),
            (Err(_), Err(_)) => true,
            _ => false,
        },
    decreases a.len() - i,
{
    if i < a.len() {
        let c = a[i as int];
        let d = b[i as int];
        assert(c.name == d.name);
        let k = match c.name {
            Some(n) => vmod_args::slot_named(sig, n, 0),
            None => next,
        };
        let next1 = match c.name {
            Some(_) => next,
            None => next + 1,
        };
        if k < sig.len() {
            assert(slot_both(s[k as int], t[k as int], a, b));
            if s[k as int] is None {
                let s1 = s.update(k as int, Some(c));
                let t1 = t.update(k as int, Some(d));
                assert forall|j: int| 0 <= j < s1.len() implies slot_both(
                    #[trigger] s1[j],
                    t1[j],
                    a,
                    b,
                ) by {
                    if j == k {
                        assert(a[i as int] == c && b[i as int] == d);
                    } else {
                        assert(slot_both(s[j], t[j], a, b));
                    }
                }
                lemma_fill(a, b, sig, x, y, i + 1, next1, s1, t1);
            }
        }
    }
}

proof fn lemma_trim(l: Seq<ArgV>, r: Seq<ArgV>, a: Seq<ArgV>, b: Seq<ArgV>, k: KnownV)
    requires
        slot_pairs(l, r, a, b, k),
    ensures
        slot_pairs(vmod_args::trimmed(l), vmod_args::trimmed(r), a, b, k),
    decreases l.len(),
{
    if l.len() > 0 {
        assert(slot_pair(l[l.len() - 1], r[l.len() - 1], a, b, k));
        if restyled_expr(l.last().value, r.last().value, k) {
            lemma_holds_calls(l.last().value, r.last().value, k);
        }
        if l.last().value is Omitted {
            let l1 = l.drop_last();
            let r1 = r.drop_last();
            assert forall|i: int| 0 <= i < l1.len() implies slot_pair(
                #[trigger] l1[i],
                r1[i],
                a,
                b,
                k,
            ) by {
                assert(slot_pair(l[i], r[i], a, b, k));
            }
            lemma_trim(l1, r1, a, b, k);
        }
    }
}

/// Arguments of one style are put in the same order.
proof fn lemma_by_sig(
    a: Seq<ArgV>,
    b: Seq<ArgV>,
    sig: Option<Seq<ArgSpecV>>,
    x: Span,
    y: Span,
    k: KnownV,
)
    requires
        restyled_args(a, b, k),
        sig matches Some(s) ==> once::plain_sig(s),
    ensures
        match (vmod_args::by_sig(a, sig, x), vmod_args::by_sig(b, sig, y)) {
            (Ok(l), Ok(r)) => slot_pairs(l, r, a, b, k),
            (Err(_), Err(_)) => true,
            _ => false,
        },
{
    match sig {
        Some(s) => {
            let none = vmod_args::no_slots(s.len());
            lemma_fill(a, b, s, x, y, 0, 0, none, none);
            match (
                vmod_args::fill_slots(a, s, x, 0, 0, none),
                vmod_args::fill_slots(b, s, y, 0, 0, none),
            ) {
                (Ok(u), Ok(v)) => {
                    let l = vmod_args::slot_args(s, u);
                    let r = vmod_args::slot_args(s, v);
                    assert forall|i: int| 0 <= i < l.len() implies slot_pair(
                        #[trigger] l[i],
                        r[i],
                        a,
                        b,
                        k,
                    ) by {
                        assert(slot_both(u[i], v[i], a, b));
                        match (u[i], v[i]) {
                            (Some(m), Some(n)) => {
                                let c = choose|c: int|
                                    0 <= c < a.len() && c < b.len() && #[trigger] a[c] == m && b[c]
                                        == n;
                                assert(a[c].value == m.value && b[c].value == n.value);
                                assert(restyled_expr(a[c].value, b[c].value, k));
                                lemma_holds_calls(m.value, n.value, k);
                                layout::law_expression_text_has_no_places(m.value);
                                layout::law_expression_text_has_no_places(n.value);
                                assert(s[i].default == s[i].default);
                            },
                            _ => {},
                        }
                    }
                    lemma_trim(l, r, a, b, k);
                },
                _ => {},
            }
        },
        None => {
            assert forall|i: int| 0 <= i < a.len() implies slot_pair(
                #[trigger] a[i],
                b[i],
                a,
                b,
                k,
            ) by {
                assert(a[i].value == a[i].value && b[i].value == b[i].value);
            }
        },
    }
}

/// Arguments of another style are put in the same order.
proof fn lemma_same_call(
    a: Seq<ArgV>,
    b: Seq<ArgV>,
    sig: Seq<ArgSpecV>,
    x: Span,
    y: Span,
    k: KnownV,
)
    requires
        same_call(Some(sig), a, b),
    ensures
        match (vmod_args::by_sig(a, Some(sig), x), vmod_args::by_sig(b, Some(sig), y)) {
            (Ok(l), Ok(r)) => slot_pairs(l, r, a, b, k),
            _ => false,
        },
{
    arg_style::law_argument_style_does_not_matter(a, b, sig, x, y);
    vmod_args::lemma_by_sig_taken(a, Some(sig), x);
    vmod_args::lemma_by_sig_taken(b, Some(sig), y);
    let l = vmod_args::rewritten(a, sig, x)->Ok_0;
    let r = vmod_args::rewritten(b, sig, y)->Ok_0;
    let p = layout::bare_args(l);
    let q = layout::bare_args(r);
    assert(p.len() == l.len() && q.len() == r.len());
    assert forall|i: int| 0 <= i < l.len() implies slot_pair(#[trigger] l[i], r[i], a, b, k) by {
        assert(p[i] == layout::bare_arg(l[i]));
        assert(q[i] == layout::bare_arg(r[i]));
        lemma_same_style(l[i].value, r[i].value, k);
        if !(l[i].value is Omitted) {
            assert(!(r[i].value is Omitted));
            let c = choose|c: int| 0 <= c < a.len() && l[i].value == (#[trigger] a[c]).value;
            let d = choose|d: int| 0 <= d < b.len() && r[i].value == (#[trigger] b[d]).value;
            assert(a[c].value == l[i].value && b[d].value == r[i].value);
        }
    }
}

spec fn same_expr(
    x: core::result::Result<ExprV, ErrV>,
    y: core::result::Result<ExprV, ErrV>,
) -> bool {
    match (x, y) {
        (Ok(a), Ok(b)) => layout::bare_expr(a) == layout::bare_expr(b),
        (Err(_), Err(_)) => true,
        _ => false,
    }
}

proof fn lemma_expr(e: ExprV, f: ExprV, k: KnownV, x: Span, y: Span)
    requires
        once::plain_known(k),
        restyled_expr(e, f, k),
    ensures
        same_expr(vmod_args::pass_expr(e, k, x), vmod_args::pass_expr(f, k, y)),
    decreases e, 1nat, 0nat,
{
    match (e, f) {
        (ExprV::Call { target: t, args: a }, ExprV::Call { args: b, .. }) => {
            let sig = vmod_args::call_sig(k, t);
            if same_call(sig, a, b) {
                lemma_same_call(a, b, sig->0, x, y, k);
            } else {
                lemma_by_sig(a, b, sig, x, y, k);
            }
            match (vmod_args::by_sig(a, sig, x), vmod_args::by_sig(b, sig, y)) {
                (Ok(l), Ok(r)) => lemma_args(e, f, a, b, l, r, k, x, y, l.len()),
                _ => {},
            }
        },
        (ExprV::Unary { expr: u, .. }, ExprV::Unary { expr: v, .. }) => {
            lemma_expr(*u, *v, k, x, y);
        },
        (
            ExprV::Binary { lhs: l, rhs: r, .. },
            ExprV::Binary { lhs: m, rhs: s, .. },
        ) => {
            lemma_expr(*l, *m, k, x, y);
            lemma_expr(*r, *s, k, x, y);
        },
        _ => {
            passes::lemma_pass_expr(e, k, x, y);
            passes::lemma_pass_expr(f, k, y, y);
        },
    }
}

proof fn lemma_args(
    e: ExprV,
    f: ExprV,
    a: Seq<ArgV>,
    b: Seq<ArgV>,
    l: Seq<ArgV>,
    r: Seq<ArgV>,
    k: KnownV,
    x: Span,
    y: Span,
    n: nat,
)
    requires
        once::plain_known(k),
        e is Call && e->Call_args == a,
        f is Call && f->Call_args == b,
        slot_pairs(l, r, a, b, k),
        n <= l.len(),
    ensures
        match (vmod_args::pass_args(e, l, k, x, n), vmod_args::pass_args(f, r, k, y, n)) {
            (Ok(u), Ok(v)) => layout::bare_args(u) == layout::bare_args(v),
            (Err(_), Err(_)) => true,
            _ => false,
        },
    decreases e, 0nat, n,
{
    if n > 0 {
        lemma_args(e, f, a, b, l, r, k, x, y, (n - 1) as nat);
        let u = l[n - 1];
        let v = r[n - 1];
        assert(slot_pair(u, v, a, b, k));
        if u.value is Omitted && v.value is Omitted {
        } else {
            let c = choose|c: int| 0 <= c < a.len() && (#[trigger] a[c]).value == u.value;
            let d = choose|d: int| 0 <= d < b.len() && (#[trigger] b[d]).value == v.value;
            assert(decreases_to!(e => a[c].value));
            assert(decreases_to!(f => b[d].value));
            lemma_expr(u.value, v.value, k, x, y);
        }
        match (
            vmod_args::pass_args(e, l, k, x, (n - 1) as nat),
            vmod_args::pass_args(f, r, k, y, (n - 1) as nat),
        ) {
            (Ok(p), Ok(q)) => {
                layout::lemma_push_args(p, u);
                layout::lemma_push_args(q, v);
                match (
                    vmod_args::pass_expr(u.value, k, x),
                    vmod_args::pass_expr(v.value, k, y),
                ) {
                    (Ok(g), Ok(h)) => {
                        layout::lemma_push_args(p, ArgV { value: g, ..u });
                        layout::lemma_push_args(q, ArgV { value: h, ..v });
                    },
                    _ => {},
                }
            },
            _ => {},
        }
    }
}

// ───────────────────────── statements ─────────────────────────

proof fn lemma_exprs(s: Seq<ExprV>, t: Seq<ExprV>, k: KnownV, x: Span, y: Span, n: nat)
    requires
        once::plain_known(k),
        s.len() == t.len(),
        forall|i: int| 0 <= i < s.len() ==> restyled_expr(#[trigger] s[i], t[i], k),
        n <= s.len(),
    ensures
        match (vmod_args::pass_exprs(s, k, x, n), vmod_args::pass_exprs(t, k, y, n)) {
            (Ok(a), Ok(b)) => layout::bare_exprs(a) == layout::bare_exprs(b),
            (Err(_), Err(_)) => true,
            _ => false,
        },
    decreases n,
{
    if n > 0 {
        lemma_exprs(s, t, k, x, y, (n - 1) as nat);
        lemma_expr(s[n - 1], t[n - 1], k, x, y);
        match (
            vmod_args::pass_exprs(s, k, x, (n - 1) as nat),
            vmod_args::pass_exprs(t, k, y, (n - 1) as nat),
            vmod_args::pass_expr(s[n - 1], k, x),
            vmod_args::pass_expr(t[n - 1], k, y),
        ) {
            (Ok(p), Ok(q), Ok(u), Ok(v)) => {
                layout::lemma_push_exprs(p, u);
                layout::lemma_push_exprs(q, v);
            },
            _ => {},
        }
    }
}

proof fn lemma_stmt(s: StmtV, t: StmtV, k: KnownV)
    requires
        once::plain_known(k),
        restyled_stmt(s, t, k),
    ensures
        match (vmod_args::pass_stmt(s, k), vmod_args::pass_stmt(t, k)) {
            (Ok(a), Ok(b)) => layout::bare_stmt(a) == layout::bare_stmt(b),
            (Err(_), Err(_)) => true,
            _ => false,
        },
    decreases s, 0nat,
{
    let x = ast::stmt_span(s);
    let y = ast::stmt_span(t);
    match (s, t) {
        (StmtV::Assign { rhs: u, .. }, StmtV::Assign { rhs: v, .. }) => {
            lemma_expr(u, v, k, x, y);
        },
        (
            StmtV::Return { action: Some(u), .. },
            StmtV::Return { action: Some(v), .. },
        ) => lemma_exprs(u.args, v.args, k, x, y, u.args.len()),
        (StmtV::Synthetic { value: u, .. }, StmtV::Synthetic { value: v, .. }) => {
            lemma_expr(u, v, k, x, y);
        },
        (
            StmtV::If { arms: u, else_body: b, .. },
            StmtV::If { arms: v, else_body: c, .. },
        ) => {
            lemma_arms(u, v, k, x, y, u.len());
            match (b, c) {
                (Some(l), Some(m)) => lemma_stmts(l, m, k, l.len()),
                _ => {},
            }
        },
        (
            StmtV::New { vmod, ctor, args: a, .. },
            StmtV::New { args: b, .. },
        ) => {
            let sig = vmod_args::ctor_sig(k, vmod, ctor);
            if same_call(sig, a, b) {
                lemma_same_call(a, b, sig->0, x, y, k);
            } else {
                lemma_by_sig(a, b, sig, x, y, k);
            }
            match (vmod_args::by_sig(a, sig, x), vmod_args::by_sig(b, sig, y)) {
                (Ok(l), Ok(r)) => lemma_args(
                    vmod_args::ctor_call(vmod, ctor, a),
                    vmod_args::ctor_call(vmod, ctor, b),
                    a,
                    b,
                    l,
                    r,
                    k,
                    x,
                    y,
                    l.len(),
                ),
                _ => {},
            }
        },
        (StmtV::Expr { expr: u, .. }, StmtV::Expr { expr: v, .. }) => {
            lemma_expr(u, v, k, x, y);
        },
        _ => {
            passes::lemma_pass_stmt(s, k);
            passes::lemma_pass_stmt(t, k);
        },
    }
}

proof fn lemma_stmts(s: Seq<StmtV>, t: Seq<StmtV>, k: KnownV, n: nat)
    requires
        once::plain_known(k),
        restyled_stmts(s, t, k),
        n <= s.len(),
    ensures
        match (vmod_args::pass_stmts(s, k, n), vmod_args::pass_stmts(t, k, n)) {
            (Ok(a), Ok(b)) => layout::bare_stmts(a) == layout::bare_stmts(b),
            (Err(_), Err(_)) => true,
            _ => false,
        },
    decreases s, n,
{
    if n > 0 {
        lemma_stmts(s, t, k, (n - 1) as nat);
        assert(restyled_stmt(s[n - 1], t[n - 1], k));
        lemma_stmt(s[n - 1], t[n - 1], k);
        match (
            vmod_args::pass_stmts(s, k, (n - 1) as nat),
            vmod_args::pass_stmts(t, k, (n - 1) as nat),
            vmod_args::pass_stmt(s[n - 1], k),
            vmod_args::pass_stmt(t[n - 1], k),
        ) {
            (Ok(p), Ok(q), Ok(u), Ok(v)) => {
                layout::lemma_push_stmts(p, u);
                layout::lemma_push_stmts(q, v);
            },
            _ => {},
        }
    }
}

proof fn lemma_arms(s: Seq<ArmV>, t: Seq<ArmV>, k: KnownV, x: Span, y: Span, n: nat)
    requires
        once::plain_known(k),
        restyled_arms(s, t, k),
        n <= s.len(),
    ensures
        match (vmod_args::pass_arms(s, k, x, n), vmod_args::pass_arms(t, k, y, n)) {
            (Ok(a), Ok(b)) => layout::bare_arms(a) == layout::bare_arms(b),
            (Err(_), Err(_)) => true,
            _ => false,
        },
    decreases s, n,
{
    if n > 0 {
        lemma_arms(s, t, k, x, y, (n - 1) as nat);
        let a = s[n - 1];
        let b = t[n - 1];
        lemma_expr(a.cond, b.cond, k, x, y);
        lemma_stmts(a.body, b.body, k, a.body.len());
        match (
            vmod_args::pass_arms(s, k, x, (n - 1) as nat),
            vmod_args::pass_arms(t, k, y, (n - 1) as nat),
            vmod_args::pass_expr(a.cond, k, x),
            vmod_args::pass_expr(b.cond, k, y),
        ) {
            (Ok(p), Ok(q), Ok(u), Ok(v)) => match (
                vmod_args::pass_stmts(a.body, k, a.body.len()),
                vmod_args::pass_stmts(b.body, k, b.body.len()),
            ) {
                (Ok(l), Ok(m)) => {
                    layout::lemma_push_arms(p, ArmV { cond: u, body: l });
                    layout::lemma_push_arms(q, ArmV { cond: v, body: m });
                },
                _ => {},
            },
            _ => {},
        }
    }
}

// ───────────────────────── declarations ─────────────────────────

proof fn lemma_decl(d: DeclV, e: DeclV, k: KnownV)
    requires
        once::plain_known(k),
        restyled_decl(d, e, k),
    ensures
        match (shuffle::passed_decl(d, k), shuffle::passed_decl(e, k)) {
            (Ok(a), Ok(b)) => layout::bare_decl(a) == layout::bare_decl(b),
            (Err(_), Err(_)) => true,
            _ => false,
        },
{
    match (d, e) {
        (DeclV::Sub { body: x, .. }, DeclV::Sub { body: y, .. }) => {
            lemma_stmts(x, y, k, x.len());
        },
        _ => {},
    }
}

/// Declarations whose vmod calls are written in another style come out of the
/// pass the same.
pub proof fn law_styles_come_to_the_same(s: Seq<DeclV>, t: Seq<DeclV>, k: KnownV)
    requires
        once::plain_known(k),
        restyled_decls(s, t, k),
    ensures
        match (vmod_args::pass_decls(s, k, s.len()), vmod_args::pass_decls(t, k, t.len())) {
            (Ok(a), Ok(b)) => layout::bare_decls(a) == layout::bare_decls(b),
            (Err(_), Err(_)) => true,
            _ => false,
        },
{
    shuffle::lemma_pass_each(s, k, s.len());
    shuffle::lemma_pass_each(t, k, t.len());
    match (vmod_args::pass_decls(s, k, s.len()), vmod_args::pass_decls(t, k, t.len())) {
        (Ok(a), Ok(b)) => {
            let x = layout::bare_decls(a);
            let y = layout::bare_decls(b);
            assert forall|i: int| 0 <= i < x.len() implies #[trigger] x[i] == y[i] by {
                assert(shuffle::passed_decl(s[i], k) == Ok::<DeclV, ErrV>(a[i]));
                assert(shuffle::passed_decl(t[i], k) == Ok::<DeclV, ErrV>(b[i]));
                assert(restyled_decl(s[i], t[i], k));
                lemma_decl(s[i], t[i], k);
            }
            assert(x =~= y);
        },
        (Ok(a), Err(_)) => {
            let i = choose|i: int| 0 <= i < t.len() && shuffle::passed_decl(#[trigger] t[i], k) is Err;
            assert(shuffle::passed_decl(s[i], k) == Ok::<DeclV, ErrV>(a[i]));
            assert(restyled_decl(s[i], t[i], k));
            lemma_decl(s[i], t[i], k);
            assert(false);
        },
        (Err(_), Ok(b)) => {
            let i = choose|i: int| 0 <= i < s.len() && shuffle::passed_decl(#[trigger] s[i], k) is Err;
            assert(shuffle::passed_decl(t[i], k) == Ok::<DeclV, ErrV>(b[i]));
            assert(restyled_decl(s[i], t[i], k));
            lemma_decl(s[i], t[i], k);
            assert(false);
        },
        _ => {},
    }
}

} // verus!
