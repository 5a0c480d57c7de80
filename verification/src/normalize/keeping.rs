//! What normalization keeps of a program: all that it says, but for the spelling
//! of numbers, the case of headers that are read, default masks, and the way in
//! which the arguments of vmod calls are given.

use crate::ast;
use crate::ast::{AclEntryV, ArgV, ArmV, DeclV, ExprV, FieldV, FieldValueV, ProgramV, Span, StmtV};
use crate::decimal;
use crate::normalize::literals;
use crate::normalize::spelling;
use crate::normalize::vmod_args;
use crate::normalize::vmod_args::KnownV;
use crate::text;
use crate::vmod::VmodSpec;
use vstd::prelude::*;
use vstd::string::*;

verus! {

// ───────────────────────── literals ─────────────────────────

/// Whether a path is another one, or the part behind its first `http` is in lower
/// case in it.
pub open spec fn keeps_path(a: Seq<Seq<char>>, b: Seq<Seq<char>>) -> bool {
    ||| b == a
    ||| exists|i: int|
        0 < i < a.len() && #[trigger] a[i - 1] == "http"@ && (forall|j: int|
            0 <= j < i - 1 ==> a[j] != "http"@) && b == a.update(i, text::lowercase(a[i]))
}

/// Whether a number is another one in its spelling, or has a point and is the same
/// number.
pub open spec fn keeps_number(a: Seq<char>, b: Seq<char>) -> bool {
    ||| b == a
    ||| a.contains('.') && decimal::decimal_value(a) is Some && decimal::decimal_value(b)
        == decimal::decimal_value(a)
}

/// Whether an expression says what another one says: it has the same shape, and the
/// same operators and literals in it.
pub open spec fn keeps_expr(a: ExprV, b: ExprV) -> bool
    decreases a,
{
    match a {
        ExprV::Str(x) => b == ExprV::Str(x),
        ExprV::Num(x) => b matches ExprV::Num(y) && keeps_number(x, y),
        ExprV::Duration(x) => b == ExprV::Duration(x),
        ExprV::Bytes(x) => b == ExprV::Bytes(x),
        ExprV::Bool(x) => b == ExprV::Bool(x),
        ExprV::Omitted => b is Omitted,
        ExprV::CSource(x) => b == ExprV::CSource(x),
        ExprV::Var(x) => b matches ExprV::Var(y) && keeps_path(x, y),
        ExprV::Call { target: t, args: x } => b matches ExprV::Call { target: u, args: y }
            && keeps_path(t, u) && keeps_args(x, y),
        ExprV::Unary { op: p, expr: x } => b matches ExprV::Unary { op: q, expr: y } && p == q
            && keeps_expr(*x, *y),
        ExprV::Binary { op: p, lhs: x, rhs: y } => b matches ExprV::Binary {
            op: q,
            lhs: z,
            rhs: w,
        } && p == q && keeps_expr(*x, *z) && keeps_expr(*y, *w),
    }
}

/// Whether an argument says what another one says.
pub open spec fn keeps_arg(a: ArgV, b: ArgV) -> bool
    decreases a,
{
    a.name == b.name && a.span == b.span && keeps_expr(a.value, b.value)
}

/// Whether arguments say what others say, each in its place.
pub open spec fn keeps_args(a: Seq<ArgV>, b: Seq<ArgV>) -> bool
    decreases a,
{
    a.len() == b.len() && forall|i: int| 0 <= i < a.len() ==> keeps_arg(#[trigger] a[i], b[i])
}

/// Whether expressions say what others say, each in its place.
pub open spec fn keeps_exprs(a: Seq<ExprV>, b: Seq<ExprV>) -> bool {
    a.len() == b.len() && forall|i: int| 0 <= i < a.len() ==> keeps_expr(#[trigger] a[i], b[i])
}

/// Whether a statement says what another one says. What is assigned to keeps its
/// case.
pub open spec fn keeps_stmt(a: StmtV, b: StmtV) -> bool
    decreases a,
{
    ast::stmt_span(a) == ast::stmt_span(b) && match a {
        StmtV::Assign { lhs: l, rhs: x, .. } => b matches StmtV::Assign { lhs: m, rhs: y, .. } && l
            == m && keeps_expr(x, y),
        StmtV::Unset { lhs: l, .. } => b matches StmtV::Unset { lhs: m, .. } && l == m,
        StmtV::Call { sub: l, .. } => b matches StmtV::Call { sub: m, .. } && l == m,
        StmtV::Return { action: x, .. } => b matches StmtV::Return { action: y, .. } && match (
            x,
            y,
        ) {
            (Some(v), Some(w)) => v.name == w.name && keeps_exprs(v.args, w.args),
            (None, None) => true,
            _ => false,
        },
        StmtV::Synthetic { value: x, .. } => b matches StmtV::Synthetic { value: y, .. }
            && keeps_expr(x, y),
        StmtV::If { arms: x, else_body: e, .. } => b matches StmtV::If {
            arms: y,
            else_body: f,
            ..
        } && keeps_arms(x, y) && match (e, f) {
            (Some(v), Some(w)) => keeps_stmts(v, w),
            (None, None) => true,
            _ => false,
        },
        StmtV::New { name: n, vmod: v, ctor: c, args: x, .. } => b matches StmtV::New {
            name: o,
            vmod: w,
            ctor: d,
            args: y,
            ..
        } && n == o && v == w && c == d && keeps_args(x, y),
        StmtV::Expr { expr: x, .. } => b matches StmtV::Expr { expr: y, .. } && keeps_expr(x, y),
    }
}

/// Whether statements say what others say, each in its place.
pub open spec fn keeps_stmts(a: Seq<StmtV>, b: Seq<StmtV>) -> bool
    decreases a,
{
    a.len() == b.len() && forall|i: int| 0 <= i < a.len() ==> keeps_stmt(#[trigger] a[i], b[i])
}

/// Whether an arm says what another one says.
pub open spec fn keeps_arm(a: ArmV, b: ArmV) -> bool
    decreases a,
{
    keeps_expr(a.cond, b.cond) && keeps_stmts(a.body, b.body)
}

/// Whether arms say what others say, each in its place.
pub open spec fn keeps_arms(a: Seq<ArmV>, b: Seq<ArmV>) -> bool
    decreases a,
{
    a.len() == b.len() && forall|i: int| 0 <= i < a.len() ==> keeps_arm(#[trigger] a[i], b[i])
}

/// Whether a field says what another one says.
pub open spec fn keeps_field(a: FieldV, b: FieldV) -> bool
    decreases a,
{
    a.name == b.name && a.span == b.span && match a.value {
        FieldValueV::Expr(x) => b.value matches FieldValueV::Expr(y) && keeps_expr(x, y),
        FieldValueV::Probe(x) => b.value matches FieldValueV::Probe(y) && keeps_fields(x, y),
        FieldValueV::ProbeRef(x) => b.value == FieldValueV::ProbeRef(x),
        FieldValueV::StringList(x) => b.value == FieldValueV::StringList(x),
    }
}

/// Whether fields say what others say, each in its place.
pub open spec fn keeps_fields(a: Seq<FieldV>, b: Seq<FieldV>) -> bool
    decreases a,
{
    a.len() == b.len() && forall|i: int| 0 <= i < a.len() ==> keeps_field(#[trigger] a[i], b[i])
}

/// Whether an address is another one, or got a mask where it had none: that of a
/// single host.
pub open spec fn keeps_entry(a: AclEntryV, b: AclEntryV) -> bool {
    &&& a.negated == b.negated
    &&& a.addr == b.addr
    &&& a.span == b.span
    &&& a.mask is Some ==> b.mask == a.mask
    &&& a.mask is None ==> b.mask == if a.addr.contains(':') {
        Some(128u8)
    } else if text::split_from(a.addr, '.', 0).len() == 4 && b.mask is Some {
        Some(32u8)
    } else {
        None
    }
}

/// Whether a declaration says what another one says.
pub open spec fn keeps_decl(a: DeclV, b: DeclV) -> bool {
    ast::decl_span(a) == ast::decl_span(b) && match a {
        DeclV::Import { name: n, from: x, .. } => b matches DeclV::Import { name: o, from: y, .. }
            && n == o && x == y,
        DeclV::Backend { name: n, none: p, body: x, .. } => b matches DeclV::Backend {
            name: o,
            none: q,
            body: y,
            ..
        } && n == o && p == q && match (x, y) {
            (Some(v), Some(w)) => keeps_fields(v, w),
            (None, None) => true,
            _ => false,
        },
        DeclV::Probe { name: n, body: x, .. } => b matches DeclV::Probe { name: o, body: y, .. }
            && n == o && keeps_fields(x, y),
        DeclV::Acl { name: n, entries: x, .. } => b matches DeclV::Acl { name: o, entries: y, .. }
            && n == o && x.len() == y.len() && forall|i: int|
            0 <= i < x.len() ==> keeps_entry(#[trigger] x[i], y[i]),
        DeclV::Sub { name: n, body: x, .. } => b matches DeclV::Sub { name: o, body: y, .. } && n
            == o && keeps_stmts(x, y),
    }
}

proof fn lemma_http(parts: Seq<Seq<char>>, i: nat)
    requires
        forall|j: int| 0 <= j < i && j < parts.len() ==> parts[j] != "http"@,
    ensures
        match literals::http_index(parts, i) {
            Some(k) => i <= k && k + 1 < parts.len() && parts[k as int] == "http"@ && forall|j: int|
                0 <= j < k ==> parts[j] != "http"@,
            None => true,
        },
    decreases parts.len() - i,
{
    if i + 1 < parts.len() && parts[i as int] != "http"@ {
        lemma_http(parts, i + 1);
    }
}

proof fn lemma_path(parts: Seq<Seq<char>>)
    ensures
        keeps_path(parts, literals::lower_header(parts)),
{
    lemma_http(parts, 0);
    match literals::http_index(parts, 0) {
        Some(k) => {
            let i = k as int + 1;
            assert(parts[i - 1] == "http"@);
        },
        None => {},
    }
}

proof fn lemma_number(n: Seq<char>)
    ensures
        keeps_number(n, literals::plain_number(n)),
{
    spelling::lemma_decimal_lowest(n);
    match decimal::decimal_value(n) {
        Some(d) => spelling::law_numbers_are_read_back(d),
        None => {},
    }
}

/// Literals in their canonical form leave an expression as it is, with its shape,
/// its operators and its literals.
pub proof fn law_expressions_say_what_they_said(e: ExprV)
    ensures
        keeps_expr(e, literals::lit_expr(e)),
    decreases e,
{
    match e {
        ExprV::Num(n) => lemma_number(n),
        ExprV::Var(parts) => lemma_path(parts),
        ExprV::Call { target, args } => {
            lemma_path(target);
            lemma_args(args);
        },
        ExprV::Unary { expr, .. } => law_expressions_say_what_they_said(*expr),
        ExprV::Binary { lhs, rhs, .. } => {
            law_expressions_say_what_they_said(*lhs);
            law_expressions_say_what_they_said(*rhs);
        },
        _ => {},
    }
}

proof fn lemma_args(s: Seq<ArgV>)
    ensures
        keeps_args(s, literals::lit_args(s)),
    decreases s,
{
    let r = literals::lit_args(s);
    assert forall|i: int| 0 <= i < s.len() implies keeps_arg(#[trigger] s[i], r[i]) by {
        law_expressions_say_what_they_said(s[i].value);
        assert(r[i] == literals::lit_arg(s[i]));
    }
}

proof fn lemma_stmt(s: StmtV)
    ensures
        keeps_stmt(s, literals::lit_stmt(s)),
    decreases s,
{
    match s {
        StmtV::Assign { rhs, .. } => law_expressions_say_what_they_said(rhs),
        StmtV::Return { action: Some(a), .. } => {
            let r = literals::lit_exprs(a.args);
            assert forall|i: int| 0 <= i < a.args.len() implies keeps_expr(#[trigger] a.args[i],
                r[i],
            ) by {
                law_expressions_say_what_they_said(a.args[i]);
            }
        },
        StmtV::Synthetic { value, .. } => law_expressions_say_what_they_said(value),
        StmtV::If { arms, else_body, .. } => {
            let r = literals::lit_arms(arms);
            assert forall|i: int| 0 <= i < arms.len() implies keeps_arm(#[trigger] arms[i],
                r[i],
            ) by {
                law_expressions_say_what_they_said(arms[i].cond);
                law_statements_say_what_they_said(arms[i].body);
                assert(r[i] == literals::lit_arm(arms[i]));
            }
            match else_body {
                Some(b) => law_statements_say_what_they_said(b),
                None => {},
            }
        },
        StmtV::New { args, .. } => lemma_args(args),
        StmtV::Expr { expr, .. } => law_expressions_say_what_they_said(expr),
        _ => {},
    }
}

/// Literals in their canonical form leave statements as they are.
pub proof fn law_statements_say_what_they_said(s: Seq<StmtV>)
    ensures
        keeps_stmts(s, literals::lit_stmts(s)),
    decreases s,
{
    let r = literals::lit_stmts(s);
    assert forall|i: int| 0 <= i < s.len() implies keeps_stmt(#[trigger] s[i], r[i]) by {
        lemma_stmt(s[i]);
        assert(r[i] == literals::lit_stmt(s[i]));
    }
}

proof fn lemma_fields(s: Seq<FieldV>)
    ensures
        keeps_fields(s, literals::lit_fields(s)),
    decreases s,
{
    let r = literals::lit_fields(s);
    assert forall|i: int| 0 <= i < s.len() implies keeps_field(#[trigger] s[i], r[i]) by {
        assert(r[i] == literals::lit_field(s[i]));
        match s[i].value {
            FieldValueV::Expr(e) => law_expressions_say_what_they_said(e),
            FieldValueV::Probe(fs) => lemma_fields(fs),
            _ => {},
        }
    }
}

/// Literals in their canonical form leave a program as it is: each declaration says
/// what it said, and the comments stay.
pub proof fn law_programs_say_what_they_said(p: ProgramV)
    ensures
        literals::lit_program(p).decls.len() == p.decls.len(),
        forall|i: int|
            0 <= i < p.decls.len() ==> keeps_decl(#[trigger] p.decls[i],
                literals::lit_program(p).decls[i],
            ),
        literals::lit_program(p).comments == p.comments,
        literals::lit_program(p).trailing_comments == p.trailing_comments,
{
    let r = literals::lit_decls(p.decls);
    assert forall|i: int| 0 <= i < p.decls.len() implies keeps_decl(#[trigger] p.decls[i],
        r[i],
    ) by {
        match p.decls[i] {
            DeclV::Backend { body: Some(fs), .. } => lemma_fields(fs),
            DeclV::Probe { body, .. } => lemma_fields(body),
            DeclV::Sub { body, .. } => law_statements_say_what_they_said(body),
            DeclV::Acl { entries, .. } => {
                let l = literals::lit_entries(entries);
                assert forall|j: int| 0 <= j < entries.len() implies keeps_entry(#[trigger] entries[j],
                    l[j],
                ) by {}
            },
            _ => {},
        }
    }
}

// ───────────────────────── arguments ─────────────────────────

/// Whether an expression says what another one says, with the arguments of its
/// calls given in another way: the same shape outside of calls and the same
/// operators, and in calls no value that was not given there.
pub open spec fn regives_expr(a: ExprV, b: ExprV) -> bool
    decreases a,
{
    match a {
        ExprV::Call { target: t, args: x } => b matches ExprV::Call { target: u, args: y } && t == u
            && regives_args(x, y),
        ExprV::Unary { op: p, expr: x } => b matches ExprV::Unary { op: q, expr: y } && p == q
            && regives_expr(*x, *y),
        ExprV::Binary { op: p, lhs: x, rhs: y } => b matches ExprV::Binary {
            op: q,
            lhs: z,
            rhs: w,
        } && p == q && regives_expr(*x, *z) && regives_expr(*y, *w),
        _ => b == a,
    }
}

/// Whether an argument was given.
pub open spec fn gave(a: ArgV, b: ArgV) -> bool
    decreases a,
{
    regives_expr(a.value, b.value)
}

/// Whether arguments are given in another way: each is left out or was given.
pub open spec fn regives_args(a: Seq<ArgV>, b: Seq<ArgV>) -> bool
    decreases a,
{
    forall|i: int|
        0 <= i < b.len() ==> ((#[trigger] b[i]).value is Omitted || exists|j: int|
            0 <= j < a.len() && gave(#[trigger] a[j], b[i]))
}

/// Whether a statement says what another one says, with the arguments of its calls
/// given in another way.
pub open spec fn regives_stmt(a: StmtV, b: StmtV) -> bool
    decreases a,
{
    ast::stmt_span(a) == ast::stmt_span(b) && match a {
        StmtV::Assign { lhs: l, rhs: x, .. } => b matches StmtV::Assign { lhs: m, rhs: y, .. } && l
            == m && regives_expr(x, y),
        StmtV::Unset { lhs: l, .. } => b matches StmtV::Unset { lhs: m, .. } && l == m,
        StmtV::Call { sub: l, .. } => b matches StmtV::Call { sub: m, .. } && l == m,
        StmtV::Return { action: x, .. } => b matches StmtV::Return { action: y, .. } && match (
            x,
            y,
        ) {
            (Some(v), Some(w)) => v.name == w.name && v.args.len() == w.args.len() && forall|i: int|
                0 <= i < v.args.len() ==> regives_expr(#[trigger] v.args[i], w.args[i]),
            (None, None) => true,
            _ => false,
        },
        StmtV::Synthetic { value: x, .. } => b matches StmtV::Synthetic { value: y, .. }
            && regives_expr(x, y),
        StmtV::If { arms: x, else_body: e, .. } => b matches StmtV::If {
            arms: y,
            else_body: f,
            ..
        } && regives_arms(x, y) && match (e, f) {
            (Some(v), Some(w)) => regives_stmts(v, w),
            (None, None) => true,
            _ => false,
        },
        StmtV::New { name: n, vmod: v, ctor: c, args: x, .. } => b matches StmtV::New {
            name: o,
            vmod: w,
            ctor: d,
            args: y,
            ..
        } && n == o && v == w && c == d && regives_args(x, y),
        StmtV::Expr { expr: x, .. } => b matches StmtV::Expr { expr: y, .. } && regives_expr(x, y),
    }
}

/// Whether statements say what others say, each in its place, with the arguments of
/// calls given in another way.
pub open spec fn regives_stmts(a: Seq<StmtV>, b: Seq<StmtV>) -> bool
    decreases a,
{
    a.len() == b.len() && forall|i: int| 0 <= i < a.len() ==> regives_stmt(#[trigger] a[i], b[i])
}

/// Whether an arm says what another one says, with the arguments of calls given in
/// another way.
pub open spec fn regives_arm(a: ArmV, b: ArmV) -> bool
    decreases a,
{
    regives_expr(a.cond, b.cond) && regives_stmts(a.body, b.body)
}

/// Whether arms say what others say, each in its place, with the arguments of calls
/// given in another way.
pub open spec fn regives_arms(a: Seq<ArmV>, b: Seq<ArmV>) -> bool
    decreases a,
{
    a.len() == b.len() && forall|i: int| 0 <= i < a.len() ==> regives_arm(#[trigger] a[i], b[i])
}

proof fn lemma_given(
    whole: ExprV,
    args: Seq<ArgV>,
    list: Seq<ArgV>,
    k: KnownV,
    x: Span,
    n: nat,
)
    requires
        whole is Call,
        whole->Call_args == args,
        vmod_args::taken_from(list, args),
        n <= list.len(),
    ensures
        vmod_args::pass_args(whole, list, k, x, n) matches Ok(done) ==> regives_args(args, done),
    decreases whole, 0nat, n,
{
    if n > 0 {
        lemma_given(whole, args, list, k, x, (n - 1) as nat);
        let a = list[n - 1];
        match vmod_args::pass_args(whole, list, k, x, n) {
            Ok(done) => {
                let before = vmod_args::pass_args(whole, list, k, x, (n - 1) as nat)->Ok_0;
                let l = before.len() as int;
                assert(done == before.push(done[l]));
                if !(a.value is Omitted) {
                    let j = choose|j: int|
                        0 <= j < args.len() && a.value == (#[trigger] args[j]).value;
                    assert(decreases_to!(whole => args[j].value));
                    law_arguments_are_given_again(a.value, k, x);
                    assert(gave(args[j], done[l]));
                }
                assert forall|i: int| 0 <= i < done.len() implies ((
                #[trigger] done[i]).value is Omitted || exists|j: int|
                    0 <= j < args.len() && gave(#[trigger] args[j], done[i])) by {
                    if i < l {
                        assert(done[i] == before[i]);
                    }
                }
            },
            Err(_) => {},
        }
    }
}

/// Putting the arguments of calls in order leaves all else of an expression as it
/// is, and gives no call a value that it did not have.
pub proof fn law_arguments_are_given_again(e: ExprV, k: KnownV, x: Span)
    ensures
        vmod_args::pass_expr(e, k, x) matches Ok(r) ==> regives_expr(e, r),
    decreases e, 1nat, 0nat,
{
    match e {
        ExprV::Call { target, args } => {
            let sig = vmod_args::call_sig(k, target);
            vmod_args::lemma_by_sig_taken(args, sig, x);
            match vmod_args::by_sig(args, sig, x) {
                Ok(list) => lemma_given(e, args, list, k, x, list.len()),
                Err(_) => {},
            }
        },
        ExprV::Unary { expr, .. } => law_arguments_are_given_again(*expr, k, x),
        ExprV::Binary { lhs, rhs, .. } => {
            law_arguments_are_given_again(*lhs, k, x);
            law_arguments_are_given_again(*rhs, k, x);
        },
        _ => {},
    }
}

proof fn lemma_given_exprs(es: Seq<ExprV>, k: KnownV, x: Span, n: nat)
    requires
        n <= es.len(),
    ensures
        vmod_args::pass_exprs(es, k, x, n) matches Ok(r) ==> r.len() == n && forall|i: int|
            0 <= i < n ==> regives_expr(#[trigger] es[i], r[i]),
    decreases n,
{
    if n > 0 {
        lemma_given_exprs(es, k, x, (n - 1) as nat);
        law_arguments_are_given_again(es[n - 1], k, x);
    }
}

proof fn lemma_given_stmt(s: StmtV, k: KnownV)
    ensures
        vmod_args::pass_stmt(s, k) matches Ok(r) ==> regives_stmt(s, r),
    decreases s, 0nat,
{
    let x = ast::stmt_span(s);
    match s {
        StmtV::Assign { rhs, .. } => law_arguments_are_given_again(rhs, k, x),
        StmtV::Return { action: Some(a), .. } => lemma_given_exprs(a.args, k, x, a.args.len()),
        StmtV::Synthetic { value, .. } => law_arguments_are_given_again(value, k, x),
        StmtV::If { arms, else_body, .. } => {
            lemma_given_arms(arms, k, x, arms.len());
            match else_body {
                Some(b) => lemma_given_stmts(b, k, b.len()),
                None => {},
            }
        },
        StmtV::New { vmod, ctor, args, .. } => {
            let sig = vmod_args::ctor_sig(k, vmod, ctor);
            let whole = vmod_args::ctor_call(vmod, ctor, args);
            vmod_args::lemma_by_sig_taken(args, sig, x);
            match vmod_args::by_sig(args, sig, x) {
                Ok(list) => lemma_given(whole, args, list, k, x, list.len()),
                Err(_) => {},
            }
        },
        StmtV::Expr { expr, .. } => law_arguments_are_given_again(expr, k, x),
        _ => {},
    }
}

proof fn lemma_given_stmts(ss: Seq<StmtV>, k: KnownV, n: nat)
    requires
        n <= ss.len(),
    ensures
        vmod_args::pass_stmts(ss, k, n) matches Ok(r) ==> r.len() == n && forall|i: int|
            0 <= i < n ==> regives_stmt(#[trigger] ss[i], r[i]),
    decreases ss, n,
{
    if n > 0 {
        lemma_given_stmts(ss, k, (n - 1) as nat);
        lemma_given_stmt(ss[n - 1], k);
    }
}

proof fn lemma_given_arms(arms: Seq<ArmV>, k: KnownV, x: Span, n: nat)
    requires
        n <= arms.len(),
    ensures
        vmod_args::pass_arms(arms, k, x, n) matches Ok(r) ==> r.len() == n && forall|i: int|
            0 <= i < n ==> regives_arm(#[trigger] arms[i], r[i]),
    decreases arms, n,
{
    if n > 0 {
        let a = arms[n - 1];
        lemma_given_arms(arms, k, x, (n - 1) as nat);
        law_arguments_are_given_again(a.cond, k, x);
        lemma_given_stmts(a.body, k, a.body.len());
    }
}

proof fn lemma_given_decls(ds: Seq<DeclV>, k: KnownV, n: nat)
    requires
        n <= ds.len(),
    ensures
        vmod_args::pass_decls(ds, k, n) matches Ok(r) ==> r.len() == n && forall|i: int|
            0 <= i < n ==> regives_decl(#[trigger] ds[i], r[i]),
    decreases n,
{
    if n > 0 {
        lemma_given_decls(ds, k, (n - 1) as nat);
        match ds[n - 1] {
            DeclV::Sub { body, .. } => lemma_given_stmts(body, k, body.len()),
            _ => {},
        }
    }
}

/// Whether a declaration is another one, with the arguments of its calls given in
/// another way.
pub open spec fn regives_decl(a: DeclV, b: DeclV) -> bool {
    match a {
        DeclV::Sub { name: n, body: x, span: s } => b matches DeclV::Sub {
            name: o,
            body: y,
            span: t,
        } && n == o && s == t && regives_stmts(x, y),
        _ => b == a,
    }
}

/// Putting the arguments of calls in order leaves all else of a program as it is.
pub proof fn law_programs_are_given_again(p: ProgramV, specs: Map<Seq<char>, VmodSpec>)
    ensures
        vmod_args::pass_program(p, specs) matches Ok(r) ==> {
            &&& r.decls.len() == p.decls.len()
            &&& forall|i: int|
                0 <= i < p.decls.len() ==> regives_decl(#[trigger] p.decls[i], r.decls[i])
            &&& r.comments == p.comments
            &&& r.trailing_comments == p.trailing_comments
        },
{
    let k = KnownV { specs, instances: vmod_args::instances_of(p.decls, p.decls.len()) };
    lemma_given_decls(p.decls, k, p.decls.len());
}

} // verus!
