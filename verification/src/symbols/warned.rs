//! What is warned of: bare words that no declaration explains, and hooks that nobody
//! knows.

use crate::ast;
use crate::ast::{ArgV, ArmV, DeclV, ExprV, FieldV, FieldValueV, ProgramV, Span, StmtV};
use crate::symbols;
use crate::symbols::references;
use crate::symbols::{DeclKind, EnvV, OutcomeV};
use crate::vmod::{ArgSpecV, VmodSpec};
use vstd::prelude::*;
use vstd::string::*;

verus! {

/// Whether a word is the name of no backend, no probe and no ACL.
pub open spec fn unexplained(ds: Seq<DeclV>, n: Seq<char>) -> bool {
    &&& !references::named(ds, DeclKind::Backend, n)
    &&& !references::named(ds, DeclKind::Probe, n)
    &&& !references::named(ds, DeclKind::Acl, n)
}

/// Whether a name is one of a hook that nobody knows.
pub open spec fn strange_hook(n: Seq<char>) -> bool {
    ast::builtin_name(n) && !ast::builtin_subs().contains(n)
}

spec fn word_warning(ds: Seq<DeclV>, w: Seq<char>) -> bool {
    exists|n: Seq<char>| w == #[trigger] symbols::unknown_word(n) && unexplained(ds, n)
}

spec fn words_only(ds: Seq<DeclV>, o: OutcomeV) -> bool {
    forall|i: int| 0 <= i < o.warnings.len() ==> word_warning(ds, #[trigger] o.warnings[i])
}

proof fn lemma_both(ds: Seq<DeclV>, a: OutcomeV, b: OutcomeV)
    requires
        words_only(ds, a),
        words_only(ds, b),
    ensures
        words_only(ds, symbols::followed(a, b)),
{
    let s = a.warnings + b.warnings;
    assert forall|i: int| 0 <= i < s.len() implies word_warning(ds, #[trigger] s[i]) by {
        if i < a.warnings.len() {
            assert(s[i] == a.warnings[i]);
        } else {
            assert(s[i] == b.warnings[i - a.warnings.len()]);
        }
    }
}

proof fn lemma_expr(e: ExprV, span: Span, v: EnvV)
    ensures
        words_only(v.decls, symbols::expr_outcome(e, span, v)),
    decreases e, 0nat,
{
    match e {
        ExprV::Var(parts) => {
            if parts.len() == 1 {
                references::lemma_known(v, DeclKind::Backend, parts[0]);
                references::lemma_known(v, DeclKind::Probe, parts[0]);
                references::lemma_known(v, DeclKind::Acl, parts[0]);
                assert(symbols::unknown_word(parts[0]) == symbols::unknown_word(parts[0]));
            }
        },
        ExprV::Call { target, args } => {
            lemma_args(args, 0, span, v);
            match symbols::callee(v, target) {
                symbols::CalleeV::Known(sig) => lemma_slots(args, sig, 0, span, v),
                _ => {},
            }
        },
        ExprV::Unary { expr, .. } => lemma_expr(*expr, span, v),
        ExprV::Binary { lhs, rhs, .. } => {
            lemma_expr(*lhs, span, v);
            lemma_expr(*rhs, span, v);
            lemma_both(
                v.decls,
                symbols::expr_outcome(*lhs, span, v),
                symbols::expr_outcome(*rhs, span, v),
            );
        },
        _ => {},
    }
}

proof fn lemma_args(args: Seq<ArgV>, i: nat, span: Span, v: EnvV)
    ensures
        words_only(v.decls, symbols::args_outcome(args, i, span, v)),
    decreases args, args.len() - i,
{
    if i < args.len() {
        lemma_expr(args[i as int].value, span, v);
        lemma_args(args, i + 1, span, v);
        lemma_both(
            v.decls,
            symbols::expr_outcome(args[i as int].value, span, v),
            symbols::args_outcome(args, i + 1, span, v),
        );
    }
}

proof fn lemma_slots(args: Seq<ArgV>, sig: Seq<ArgSpecV>, i: nat, span: Span, v: EnvV)
    ensures
        words_only(v.decls, symbols::slots_outcome(args, sig, i, span, v)),
    decreases args, args.len() - i,
{
    if i < args.len() {
        lemma_expr(args[i as int].value, span, v);
        lemma_slots(args, sig, i + 1, span, v);
        lemma_both(
            v.decls,
            symbols::slot_outcome(args, sig, i as int, span, v),
            symbols::slots_outcome(args, sig, i + 1, span, v),
        );
    }
}

proof fn lemma_exprs(es: Seq<ExprV>, i: nat, span: Span, v: EnvV)
    ensures
        words_only(v.decls, symbols::exprs_outcome(es, i, span, v)),
    decreases es.len() - i,
{
    if i < es.len() {
        lemma_expr(es[i as int], span, v);
        lemma_exprs(es, i + 1, span, v);
        lemma_both(
            v.decls,
            symbols::expr_outcome(es[i as int], span, v),
            symbols::exprs_outcome(es, i + 1, span, v),
        );
    }
}

proof fn lemma_stmt(s: StmtV, v: EnvV)
    ensures
        words_only(v.decls, symbols::stmt_outcome(s, v)),
    decreases s, 0nat,
{
    match s {
        StmtV::Assign { rhs, span, .. } => lemma_expr(rhs, span, v),
        StmtV::Return { action: Some(a), span } => lemma_exprs(a.args, 0, span, v),
        StmtV::Synthetic { value, span } => lemma_expr(value, span, v),
        StmtV::Expr { expr, span } => lemma_expr(expr, span, v),
        StmtV::If { arms, else_body, span } => {
            lemma_arms(arms, 0, span, v);
            match else_body {
                Some(b) => {
                    lemma_stmts(b, 0, v);
                    lemma_both(
                        v.decls,
                        symbols::arms_outcome(arms, 0, span, v),
                        symbols::stmts_outcome(b, 0, v),
                    );
                },
                None => lemma_both(
                    v.decls,
                    symbols::arms_outcome(arms, 0, span, v),
                    symbols::fine(),
                ),
            }
        },
        _ => {},
    }
}

proof fn lemma_stmts(ss: Seq<StmtV>, i: nat, v: EnvV)
    ensures
        words_only(v.decls, symbols::stmts_outcome(ss, i, v)),
    decreases ss, ss.len() - i,
{
    if i < ss.len() {
        lemma_stmt(ss[i as int], v);
        lemma_stmts(ss, i + 1, v);
        lemma_both(
            v.decls,
            symbols::stmt_outcome(ss[i as int], v),
            symbols::stmts_outcome(ss, i + 1, v),
        );
    }
}

proof fn lemma_arms(arms: Seq<ArmV>, i: nat, span: Span, v: EnvV)
    ensures
        words_only(v.decls, symbols::arms_outcome(arms, i, span, v)),
    decreases arms, arms.len() - i,
{
    if i < arms.len() {
        let a = arms[i as int];
        lemma_expr(a.cond, span, v);
        lemma_stmts(a.body, 0, v);
        lemma_arms(arms, i + 1, span, v);
        lemma_both(
            v.decls,
            symbols::stmts_outcome(a.body, 0, v),
            symbols::arms_outcome(arms, i + 1, span, v),
        );
        lemma_both(
            v.decls,
            symbols::expr_outcome(a.cond, span, v),
            symbols::followed(
                symbols::stmts_outcome(a.body, 0, v),
                symbols::arms_outcome(arms, i + 1, span, v),
            ),
        );
    }
}

proof fn lemma_fields(fs: Seq<FieldV>, i: nat, v: EnvV)
    ensures
        words_only(v.decls, symbols::fields_outcome(fs, i, v)),
    decreases fs, fs.len() - i,
{
    if i < fs.len() {
        let f = fs[i as int];
        match f.value {
            FieldValueV::Expr(e) => lemma_expr(e, f.span, v),
            FieldValueV::Probe(body) => lemma_fields(body, 0, v),
            _ => {},
        }
        lemma_fields(fs, i + 1, v);
        assert(words_only(v.decls, symbols::field_outcome(f, v)));
        lemma_both(
            v.decls,
            symbols::field_outcome(f, v),
            symbols::fields_outcome(fs, i + 1, v),
        );
    }
}

proof fn lemma_decls(ds: Seq<DeclV>, i: nat, v: EnvV)
    ensures
        words_only(v.decls, symbols::decls_outcome(ds, i, v)),
    decreases ds.len() - i,
{
    if i < ds.len() {
        match ds[i as int] {
            DeclV::Backend { body: Some(fs), .. } => lemma_fields(fs, 0, v),
            DeclV::Probe { body, .. } => lemma_fields(body, 0, v),
            DeclV::Sub { body, .. } => lemma_stmts(body, 0, v),
            _ => {},
        }
        lemma_decls(ds, i + 1, v);
        lemma_both(
            v.decls,
            symbols::decl_outcome(ds[i as int], v),
            symbols::decls_outcome(ds, i + 1, v),
        );
    }
}

proof fn lemma_made(s: StmtV, v: EnvV)
    ensures
        words_only(v.decls, symbols::made_here(s, v).found),
    decreases s, 0nat,
{
    match s {
        StmtV::New { vmod, ctor, args, span, .. } => {
            lemma_args(args, 0, span, v);
            if v.specs.contains_key(vmod) && v.specs[vmod].objects@.contains_key(ctor) {
                lemma_slots(args, v.specs[vmod].objects@[ctor].init@, 0, span, v);
            }
        },
        StmtV::If { arms, else_body, .. } => {
            let a = symbols::made_in_arms(arms, 0, v);
            lemma_made_arms(arms, 0, v);
            match else_body {
                Some(b) => {
                    let w = symbols::with_objects(v, a.objects);
                    lemma_made_from(b, 0, w);
                    lemma_both(v.decls, a.found, symbols::made_from(b, 0, w).found);
                },
                None => {},
            }
        },
        _ => {},
    }
}

proof fn lemma_made_from(ss: Seq<StmtV>, i: nat, v: EnvV)
    ensures
        words_only(v.decls, symbols::made_from(ss, i, v).found),
    decreases ss, ss.len() - i,
{
    if i < ss.len() {
        let here = symbols::made_here(ss[i as int], v);
        let w = symbols::with_objects(v, here.objects);
        lemma_made(ss[i as int], v);
        lemma_made_from(ss, i + 1, w);
        lemma_both(v.decls, here.found, symbols::made_from(ss, i + 1, w).found);
    }
}

proof fn lemma_made_arms(arms: Seq<ArmV>, i: nat, v: EnvV)
    ensures
        words_only(v.decls, symbols::made_in_arms(arms, i, v).found),
    decreases arms, arms.len() - i,
{
    if i < arms.len() {
        let here = symbols::made_from(arms[i as int].body, 0, v);
        let w = symbols::with_objects(v, here.objects);
        lemma_made_from(arms[i as int].body, 0, v);
        lemma_made_arms(arms, i + 1, w);
        lemma_both(v.decls, here.found, symbols::made_in_arms(arms, i + 1, w).found);
    }
}

proof fn lemma_made_decls(ds: Seq<DeclV>, i: nat, v: EnvV)
    ensures
        words_only(v.decls, symbols::made_by_decls(ds, i, v).found),
    decreases ds.len() - i,
{
    if i < ds.len() {
        let here = symbols::made_by_decl(ds, i as int, v);
        let w = symbols::with_objects(v, here.objects);
        match ds[i as int] {
            DeclV::Sub { body, .. } => lemma_made_from(body, 0, v),
            _ => {},
        }
        lemma_made_decls(ds, i + 1, w);
        lemma_both(v.decls, here.found, symbols::made_by_decls(ds, i + 1, w).found);
    }
}

/// Whether a warning is one of a hook among the declarations from `i` on.
spec fn hook_warning(ds: Seq<DeclV>, i: int, w: Seq<char>) -> bool {
    exists|j: int|
        i <= j < ds.len() && (#[trigger] ds[j] matches DeclV::Sub { name, .. } && strange_hook(name)
            && w == symbols::unknown_hook(name))
}

proof fn lemma_declaring(ds: Seq<DeclV>, i: nat)
    ensures
        forall|k: int|
            0 <= k < symbols::declaring_from(ds, i).warnings.len() ==> hook_warning(
                ds,
                i as int,
                #[trigger] symbols::declaring_from(ds, i).warnings[k],
            ),
    decreases ds.len() - i,
{
    if i < ds.len() {
        lemma_declaring(ds, i + 1);
        let a = symbols::declaring(ds, i as int);
        let b = symbols::declaring_from(ds, i + 1);
        let all = symbols::declaring_from(ds, i).warnings;
        assert forall|k: int| 0 <= k < all.len() implies hook_warning(
            ds,
            i as int,
            #[trigger] all[k],
        ) by {
            if k < a.warnings.len() {
                assert(all[k] == a.warnings[k]);
                assert(ds[i as int] is Sub);
            } else {
                assert(all[k] == b.warnings[k - a.warnings.len()]);
                assert(hook_warning(ds, i as int + 1, all[k]));
            }
        }
    }
}

/// Every warning is one of a word that is the name of no backend, no probe and no ACL,
/// or one of a declared hook that nobody knows.
pub proof fn law_warnings_have_reasons(p: ProgramV, specs: Map<Seq<char>, VmodSpec>, k: int)
    requires
        0 <= k < symbols::outcome(p, specs).warnings.len(),
    ensures
        ({
            let w = symbols::outcome(p, specs).warnings[k];
            ||| exists|n: Seq<char>|
                w == #[trigger] symbols::unknown_word(n) && unexplained(p.decls, n)
            ||| exists|j: int|
                0 <= j < p.decls.len() && (#[trigger] p.decls[j] matches DeclV::Sub { name, .. }
                    && strange_hook(name) && w == symbols::unknown_hook(name))
        }),
{
    let ds = p.decls;
    let v = EnvV { decls: ds, objects: Map::empty(), specs };
    let made = symbols::made_by_decls(ds, 0, v);
    let u = symbols::with_objects(v, made.objects);
    lemma_declaring(ds, 0);
    lemma_made_decls(ds, 0, v);
    lemma_decls(ds, 0, u);
    let a = symbols::declaring_from(ds, 0);
    let b = symbols::followed(made.found, symbols::decls_outcome(ds, 0, u));
    lemma_both(ds, made.found, symbols::decls_outcome(ds, 0, u));
    let all = symbols::outcome(p, specs).warnings;
    if k < a.warnings.len() {
        assert(all[k] == a.warnings[k]);
        assert(hook_warning(ds, 0, all[k]));
    } else {
        assert(all[k] == b.warnings[k - a.warnings.len()]);
        assert(word_warning(ds, all[k]));
    }
}

// ───────────────────────── nothing is passed over ─────────────────────────

proof fn lemma_warned_sum(a: OutcomeV, b: OutcomeV, w: Seq<char>)
    requires
        symbols::followed(a, b).error is None,
        a.warnings.contains(w) || b.warnings.contains(w),
    ensures
        symbols::followed(a, b).warnings.contains(w),
{
    let s = a.warnings + b.warnings;
    if a.warnings.contains(w) {
        let i = choose|i: int| 0 <= i < a.warnings.len() && a.warnings[i] == w;
        assert(s[i] == w);
    } else {
        let i = choose|i: int| 0 <= i < b.warnings.len() && b.warnings[i] == w;
        assert(s[i + a.warnings.len()] == w);
    }
}

/// A bare word.
pub open spec fn word(n: Seq<char>) -> ExprV {
    ExprV::Var(seq![n])
}

proof fn lemma_warned_expr(e: ExprV, span: Span, v: EnvV, n: Seq<char>)
    requires
        v.specs == Map::<Seq<char>, VmodSpec>::empty(),
        symbols::expr_outcome(e, span, v).error is None,
        references::has_expr(e, word(n)),
        unexplained(v.decls, n),
    ensures
        symbols::expr_outcome(e, span, v).warnings.contains(symbols::unknown_word(n)),
    decreases e, 0nat,
{
    match e {
        ExprV::Var(parts) => {
            assert(e == word(n));
            assert(parts[0] == n && parts.len() == 1);
            references::lemma_known(v, DeclKind::Backend, n);
            references::lemma_known(v, DeclKind::Probe, n);
            references::lemma_known(v, DeclKind::Acl, n);
            assert(symbols::expr_outcome(e, span, v).warnings[0] == symbols::unknown_word(n));
        },
        ExprV::Call { target, args } => {
            assert(symbols::callee(v, target) is Open);
            assert(references::has_arg(args, word(n)));
            let j = choose|j: int|
                0 <= j < args.len() && references::has_expr((#[trigger] args[j]).value, word(n));
            lemma_warned_args(args, 0, j, span, v, n);
        },
        ExprV::Unary { expr, .. } => lemma_warned_expr(*expr, span, v, n),
        ExprV::Binary { lhs, rhs, .. } => {
            if references::has_expr(*lhs, word(n)) {
                lemma_warned_expr(*lhs, span, v, n);
            } else {
                lemma_warned_expr(*rhs, span, v, n);
            }
            lemma_warned_sum(
                symbols::expr_outcome(*lhs, span, v),
                symbols::expr_outcome(*rhs, span, v),
                symbols::unknown_word(n),
            );
        },
        _ => {},
    }
}

proof fn lemma_warned_args(args: Seq<ArgV>, i: nat, j: int, span: Span, v: EnvV, n: Seq<char>)
    requires
        v.specs == Map::<Seq<char>, VmodSpec>::empty(),
        symbols::args_outcome(args, i, span, v).error is None,
        i <= j < args.len(),
        references::has_expr(args[j].value, word(n)),
        unexplained(v.decls, n),
    ensures
        symbols::args_outcome(args, i, span, v).warnings.contains(symbols::unknown_word(n)),
    decreases args, args.len() - i,
{
    if i == j {
        lemma_warned_expr(args[j].value, span, v, n);
    } else {
        lemma_warned_args(args, i + 1, j, span, v, n);
    }
    lemma_warned_sum(
        symbols::expr_outcome(args[i as int].value, span, v),
        symbols::args_outcome(args, i + 1, span, v),
        symbols::unknown_word(n),
    );
}

proof fn lemma_warned_exprs(es: Seq<ExprV>, i: nat, j: int, span: Span, v: EnvV, n: Seq<char>)
    requires
        v.specs == Map::<Seq<char>, VmodSpec>::empty(),
        symbols::exprs_outcome(es, i, span, v).error is None,
        i <= j < es.len(),
        references::has_expr(es[j], word(n)),
        unexplained(v.decls, n),
    ensures
        symbols::exprs_outcome(es, i, span, v).warnings.contains(symbols::unknown_word(n)),
    decreases es.len() - i,
{
    if i == j {
        lemma_warned_expr(es[j], span, v, n);
    } else {
        lemma_warned_exprs(es, i + 1, j, span, v, n);
    }
    lemma_warned_sum(
        symbols::expr_outcome(es[i as int], span, v),
        symbols::exprs_outcome(es, i + 1, span, v),
        symbols::unknown_word(n),
    );
}

proof fn lemma_warned_stmt(s: StmtV, v: EnvV, x: StmtV, n: Seq<char>)
    requires
        v.specs == Map::<Seq<char>, VmodSpec>::empty(),
        symbols::stmt_outcome(s, v).error is None,
        references::has_stmt(s, x),
        references::speaks_of(x, word(n)),
        unexplained(v.decls, n),
    ensures
        symbols::stmt_outcome(s, v).warnings.contains(symbols::unknown_word(n)),
    decreases s, 0nat,
{
    match s {
        StmtV::Assign { rhs, span, .. } => lemma_warned_expr(rhs, span, v, n),
        StmtV::Return { action, span } => {
            let a = action->0;
            let j = choose|j: int|
                0 <= j < a.args.len() && references::has_expr(#[trigger] a.args[j], word(n));
            lemma_warned_exprs(a.args, 0, j, span, v, n);
        },
        StmtV::Synthetic { value, span } => lemma_warned_expr(value, span, v, n),
        StmtV::Expr { expr, span } => lemma_warned_expr(expr, span, v, n),
        StmtV::If { arms, else_body, span } => {
            let behind = match else_body {
                Some(b) => symbols::stmts_outcome(b, 0, v),
                None => symbols::fine(),
            };
            if s == x {
                let j = choose|j: int|
                    0 <= j < arms.len() && references::has_expr(
                        (#[trigger] arms[j]).cond,
                        word(n),
                    );
                lemma_warned_arms(arms, 0, j, span, v, x, n);
            } else if references::has_in_arms(arms, x) {
                let j = choose|j: int|
                    0 <= j < arms.len() && references::has_in((#[trigger] arms[j]).body, x);
                lemma_warned_arms(arms, 0, j, span, v, x, n);
            } else {
                let b = else_body->0;
                let j = choose|j: int|
                    0 <= j < b.len() && references::has_stmt(#[trigger] b[j], x);
                lemma_warned_stmts(b, 0, j, v, x, n);
            }
            lemma_warned_sum(
                symbols::arms_outcome(arms, 0, span, v),
                behind,
                symbols::unknown_word(n),
            );
        },
        _ => {},
    }
}

proof fn lemma_warned_stmts(ss: Seq<StmtV>, i: nat, j: int, v: EnvV, x: StmtV, n: Seq<char>)
    requires
        v.specs == Map::<Seq<char>, VmodSpec>::empty(),
        symbols::stmts_outcome(ss, i, v).error is None,
        i <= j < ss.len(),
        references::has_stmt(ss[j], x),
        references::speaks_of(x, word(n)),
        unexplained(v.decls, n),
    ensures
        symbols::stmts_outcome(ss, i, v).warnings.contains(symbols::unknown_word(n)),
    decreases ss, ss.len() - i,
{
    if i == j {
        lemma_warned_stmt(ss[j], v, x, n);
    } else {
        lemma_warned_stmts(ss, i + 1, j, v, x, n);
    }
    lemma_warned_sum(
        symbols::stmt_outcome(ss[i as int], v),
        symbols::stmts_outcome(ss, i + 1, v),
        symbols::unknown_word(n),
    );
}

proof fn lemma_warned_arms(
    arms: Seq<ArmV>,
    i: nat,
    j: int,
    span: Span,
    v: EnvV,
    x: StmtV,
    n: Seq<char>,
)
    requires
        v.specs == Map::<Seq<char>, VmodSpec>::empty(),
        symbols::arms_outcome(arms, i, span, v).error is None,
        i <= j < arms.len(),
        references::has_expr(arms[j].cond, word(n)) || (references::has_in(arms[j].body, x)
            && references::speaks_of(x, word(n))),
        unexplained(v.decls, n),
    ensures
        symbols::arms_outcome(arms, i, span, v).warnings.contains(symbols::unknown_word(n)),
    decreases arms, arms.len() - i,
{
    let a = arms[i as int];
    let c = symbols::expr_outcome(a.cond, span, v);
    let b = symbols::stmts_outcome(a.body, 0, v);
    let rest = symbols::arms_outcome(arms, i + 1, span, v);
    let w = symbols::unknown_word(n);
    if i == j {
        if references::has_expr(a.cond, word(n)) {
            lemma_warned_expr(a.cond, span, v, n);
        } else {
            let k = choose|k: int|
                0 <= k < a.body.len() && references::has_stmt(#[trigger] a.body[k], x);
            lemma_warned_stmts(a.body, 0, k, v, x, n);
            lemma_warned_sum(b, rest, w);
        }
    } else {
        lemma_warned_arms(arms, i + 1, j, span, v, x, n);
        lemma_warned_sum(b, rest, w);
    }
    lemma_warned_sum(c, symbols::followed(b, rest), w);
}

proof fn lemma_warned_decls(ds: Seq<DeclV>, i: nat, j: int, v: EnvV, x: StmtV, n: Seq<char>)
    requires
        v.specs == Map::<Seq<char>, VmodSpec>::empty(),
        symbols::decls_outcome(ds, i, v).error is None,
        i <= j < ds.len(),
        references::has_decl(ds[j], x),
        references::speaks_of(x, word(n)),
        unexplained(v.decls, n),
    ensures
        symbols::decls_outcome(ds, i, v).warnings.contains(symbols::unknown_word(n)),
    decreases ds.len() - i,
{
    if i == j {
        let body = ds[j]->Sub_body;
        let k = choose|k: int| 0 <= k < body.len() && references::has_stmt(#[trigger] body[k], x);
        lemma_warned_stmts(body, 0, k, v, x, n);
    } else {
        lemma_warned_decls(ds, i + 1, j, v, x, n);
    }
    lemma_warned_sum(
        symbols::decl_outcome(ds[i as int], v),
        symbols::decls_outcome(ds, i + 1, v),
        symbols::unknown_word(n),
    );
}

/// Where no vmod is described and no error is found, every bare word in a statement of
/// a subroutine, however deep, that is the name of no backend, no probe and no ACL is
/// warned of.
pub proof fn law_unexplained_words_are_warned_of(p: ProgramV, i: int, x: StmtV, n: Seq<char>)
    requires
        symbols::outcome(p, Map::empty()).error is None,
        0 <= i < p.decls.len(),
        references::has_decl(p.decls[i], x),
        references::speaks_of(x, ExprV::Var(seq![n])),
        unexplained(p.decls, n),
    ensures
        symbols::outcome(p, Map::empty()).warnings.contains(symbols::unknown_word(n)),
{
    let ds = p.decls;
    let v = EnvV { decls: ds, objects: Map::empty(), specs: Map::empty() };
    let made = symbols::made_by_decls(ds, 0, v);
    let u = symbols::with_objects(v, made.objects);
    let w = symbols::unknown_word(n);
    let found = symbols::decls_outcome(ds, 0, u);
    lemma_warned_decls(ds, 0, i, u, x, n);
    lemma_warned_sum(made.found, found, w);
    lemma_warned_sum(symbols::declaring_from(ds, 0), symbols::followed(made.found, found), w);
}

proof fn lemma_hook_warned(ds: Seq<DeclV>, i: nat, j: int, name: Seq<char>)
    requires
        symbols::declaring_from(ds, i).error is None,
        i <= j < ds.len(),
        ds[j] matches DeclV::Sub { name: n, .. } && n == name,
        !symbols::declares(ds, j as nat, DeclKind::Sub, name),
        strange_hook(name),
    ensures
        symbols::declaring_from(ds, i).warnings.contains(symbols::unknown_hook(name)),
    decreases j - i,
{
    let here = symbols::declaring(ds, i as int);
    let rest = symbols::declaring_from(ds, i + 1);
    if i < j {
        lemma_hook_warned(ds, i + 1, j, name);
    } else {
        assert(here.warnings[0] == symbols::unknown_hook(name));
    }
    lemma_warned_sum(here, rest, symbols::unknown_hook(name));
}

proof fn lemma_first_hook(ds: Seq<DeclV>, j: int, name: Seq<char>) -> (k: int)
    requires
        0 <= j < ds.len(),
        ds[j] matches DeclV::Sub { name: n, .. } && n == name,
    ensures
        0 <= k <= j,
        ds[k] matches DeclV::Sub { name: n, .. } && n == name,
        !symbols::declares(ds, k as nat, DeclKind::Sub, name),
    decreases j,
{
    if symbols::declares(ds, j as nat, DeclKind::Sub, name) {
        let i = choose|i: int|
            0 <= i < j && symbols::decl_kind(#[trigger] ds[i]) == DeclKind::Sub && ast::decl_name(
                ds[i],
            ) == name;
        lemma_first_hook(ds, i, name)
    } else {
        j
    }
}

/// Where no error is found, every declared hook that nobody knows is warned of.
pub proof fn law_strange_hooks_are_warned_of(
    p: ProgramV,
    specs: Map<Seq<char>, VmodSpec>,
    j: int,
    name: Seq<char>,
)
    requires
        symbols::outcome(p, specs).error is None,
        0 <= j < p.decls.len(),
        p.decls[j] matches DeclV::Sub { name: n, .. } && n == name,
        strange_hook(name),
    ensures
        symbols::outcome(p, specs).warnings.contains(symbols::unknown_hook(name)),
{
    let ds = p.decls;
    let v = EnvV { decls: ds, objects: Map::empty(), specs };
    let made = symbols::made_by_decls(ds, 0, v);
    let u = symbols::with_objects(v, made.objects);
    let k = lemma_first_hook(ds, j, name);
    lemma_hook_warned(ds, 0, k, name);
    lemma_warned_sum(
        symbols::declaring_from(ds, 0),
        symbols::followed(made.found, symbols::decls_outcome(ds, 0, u)),
        symbols::unknown_hook(name),
    );
}

/// The hooks that are known are those of the life of a VCL program, of a request, and of
/// a fetch, in the order in which they are walked.
pub proof fn law_known_hooks(n: Seq<char>)
    ensures
        ast::builtin_subs().contains(n) <==> n == "vcl_init"@ || n == "vcl_connect"@ || n
            == "vcl_recv"@ || n == "vcl_pipe"@ || n == "vcl_pass"@ || n == "vcl_hash"@ || n
            == "vcl_purge"@ || n == "vcl_hit"@ || n == "vcl_miss"@ || n == "vcl_deliver"@ || n
            == "vcl_synth"@ || n == "vcl_backend_fetch"@ || n == "vcl_backend_response"@ || n
            == "vcl_backend_error"@ || n == "vcl_fini"@,
        ast::builtin_subs()[0] == "vcl_init"@,
        ast::builtin_subs().last() == "vcl_fini"@,
{
    let s = ast::builtin_subs();
    assert(s[0] == "vcl_init"@ && s[1] == "vcl_connect"@ && s[2] == "vcl_recv"@ && s[3]
        == "vcl_pipe"@ && s[4] == "vcl_pass"@ && s[5] == "vcl_hash"@ && s[6] == "vcl_purge"@ && s[7]
        == "vcl_hit"@ && s[8] == "vcl_miss"@ && s[9] == "vcl_deliver"@ && s[10] == "vcl_synth"@
        && s[11] == "vcl_backend_fetch"@ && s[12] == "vcl_backend_response"@ && s[13]
        == "vcl_backend_error"@ && s[14] == "vcl_fini"@);
}

} // verus!
