//! What the canonical names do not depend on: the names that were chosen, and
//! the order of the declarations.

use crate::ast;
use crate::ast::{ArgV, ArmV, DeclV, ExprV, FieldV, StmtV};
use crate::canon;
use crate::normalize::rename;
use crate::normalize::rename::{AssignedV, DeclTableV, Kind, NamesV};
use crate::normalize::renaming;
use crate::normalize::renaming::RenamingV;
use crate::normalize::sort;
use crate::order;
use crate::uses;
use crate::uses::UseV;
use vstd::prelude::*;
use vstd::string::*;

verus! {

// ───────────────────────── uses in renamed trees ─────────────────────────

/// The name that is used.
pub open spec fn use_name(u: UseV) -> Seq<char> {
    match u {
        UseV::Name(n) => n,
        UseV::Sub(n) => n,
        UseV::Object(n) => n,
    }
}

/// A use with its name renamed.
pub open spec fn renamed_use(u: UseV, m: RenamingV) -> UseV {
    match u {
        UseV::Name(n) => UseV::Name(renaming::new_name(m, n)),
        UseV::Sub(n) => UseV::Sub(renaming::new_name(m, n)),
        UseV::Object(n) => UseV::Object(renaming::new_name(m, n)),
    }
}

/// Uses with their names renamed.
pub open spec fn renamed_uses(us: Seq<UseV>, m: RenamingV) -> Seq<UseV> {
    Seq::new(us.len(), |i: int| renamed_use(us[i], m))
}

proof fn lemma_renamed_add(a: Seq<UseV>, b: Seq<UseV>, m: RenamingV)
    ensures
        renamed_uses(a + b, m) == renamed_uses(a, m) + renamed_uses(b, m),
{
    assert(renamed_uses(a + b, m) =~= renamed_uses(a, m) + renamed_uses(b, m));
}

proof fn lemma_head_uses(parts: Seq<Seq<char>>, m: RenamingV)
    ensures
        uses::head_uses(renaming::renamed_parts(parts, m)) == renamed_uses(
            uses::head_uses(parts),
            m,
        ),
{
    assert(uses::head_uses(renaming::renamed_parts(parts, m)) =~= renamed_uses(
        uses::head_uses(parts),
        m,
    ));
}

proof fn lemma_expr_uses(e: ExprV, m: RenamingV)
    ensures
        uses::expr_uses(renaming::renamed_expr(e, m)) == renamed_uses(uses::expr_uses(e), m),
    decreases e,
{
    match e {
        ExprV::Var(parts) => lemma_head_uses(parts, m),
        ExprV::Call { target, args } => {
            lemma_head_uses(target, m);
            lemma_args_uses(args, args.len(), m);
            lemma_renamed_add(uses::head_uses(target), uses::args_uses(args, args.len()), m);
        },
        ExprV::Unary { expr, .. } => lemma_expr_uses(*expr, m),
        ExprV::Binary { lhs, rhs, .. } => {
            lemma_expr_uses(*lhs, m);
            lemma_expr_uses(*rhs, m);
            lemma_renamed_add(uses::expr_uses(*lhs), uses::expr_uses(*rhs), m);
        },
        _ => {
            assert(uses::expr_uses(renaming::renamed_expr(e, m)) =~= renamed_uses(
                uses::expr_uses(e),
                m,
            ));
        },
    }
}

proof fn lemma_args_uses(args: Seq<ArgV>, n: nat, m: RenamingV)
    requires
        n <= args.len(),
    ensures
        uses::args_uses(renaming::renamed_args(args, m), n) == renamed_uses(
            uses::args_uses(args, n),
            m,
        ),
    decreases args, n,
{
    let r = renaming::renamed_args(args, m);
    if n == 0 {
        assert(uses::args_uses(r, n) =~= renamed_uses(uses::args_uses(args, n), m));
    } else {
        lemma_args_uses(args, (n - 1) as nat, m);
        lemma_expr_uses(args[n - 1].value, m);
        assert(r[n - 1] == renaming::renamed_arg(args[n - 1], m));
        lemma_renamed_add(
            uses::args_uses(args, (n - 1) as nat),
            uses::expr_uses(args[n - 1].value),
            m,
        );
    }
}

proof fn lemma_exprs_uses(es: Seq<ExprV>, n: nat, m: RenamingV)
    requires
        n <= es.len(),
    ensures
        uses::exprs_uses(renaming::renamed_exprs(es, m), n) == renamed_uses(
            uses::exprs_uses(es, n),
            m,
        ),
    decreases n,
{
    let r = renaming::renamed_exprs(es, m);
    if n == 0 {
        assert(uses::exprs_uses(r, n) =~= renamed_uses(uses::exprs_uses(es, n), m));
    } else {
        lemma_exprs_uses(es, (n - 1) as nat, m);
        lemma_expr_uses(es[n - 1], m);
        assert(r[n - 1] == renaming::renamed_expr(es[n - 1], m));
        lemma_renamed_add(uses::exprs_uses(es, (n - 1) as nat), uses::expr_uses(es[n - 1]), m);
    }
}

proof fn lemma_stmt_uses(s: StmtV, m: RenamingV)
    ensures
        uses::stmt_uses(renaming::renamed_stmt(s, m)) == renamed_uses(uses::stmt_uses(s), m),
    decreases s,
{
    match s {
        StmtV::Assign { rhs, .. } => lemma_expr_uses(rhs, m),
        StmtV::Return { action, .. } => {
            if let Some(a) = action {
                lemma_exprs_uses(a.args, a.args.len(), m);
            }
        },
        StmtV::Synthetic { value, .. } => lemma_expr_uses(value, m),
        StmtV::If { arms, else_body, .. } => {
            lemma_arms_uses(arms, arms.len(), m);
            if let Some(b) = else_body {
                lemma_stmts_uses(b, b.len(), m);
                lemma_renamed_add(
                    uses::arms_uses(arms, arms.len()),
                    uses::stmts_uses(b, b.len()),
                    m,
                );
            }
        },
        StmtV::New { name, args, .. } => {
            lemma_args_uses(args, args.len(), m);
            lemma_renamed_add(seq![UseV::Object(name)], uses::args_uses(args, args.len()), m);
            assert(renamed_uses(seq![UseV::Object(name)], m) =~= seq![
                UseV::Object(renaming::new_name(m, name)),
            ]);
        },
        StmtV::Expr { expr, .. } => lemma_expr_uses(expr, m),
        _ => {},
    }
    assert(uses::stmt_uses(renaming::renamed_stmt(s, m)) =~= renamed_uses(uses::stmt_uses(s), m));
}

pub(crate) proof fn lemma_stmts_uses(ss: Seq<StmtV>, n: nat, m: RenamingV)
    requires
        n <= ss.len(),
    ensures
        uses::stmts_uses(renaming::renamed_stmts(ss, m), n) == renamed_uses(
            uses::stmts_uses(ss, n),
            m,
        ),
    decreases ss, n,
{
    let r = renaming::renamed_stmts(ss, m);
    if n == 0 {
        assert(uses::stmts_uses(r, n) =~= renamed_uses(uses::stmts_uses(ss, n), m));
    } else {
        lemma_stmts_uses(ss, (n - 1) as nat, m);
        lemma_stmt_uses(ss[n - 1], m);
        assert(r[n - 1] == renaming::renamed_stmt(ss[n - 1], m));
        lemma_renamed_add(uses::stmts_uses(ss, (n - 1) as nat), uses::stmt_uses(ss[n - 1]), m);
    }
}

proof fn lemma_arms_uses(arms: Seq<ArmV>, n: nat, m: RenamingV)
    requires
        n <= arms.len(),
    ensures
        uses::arms_uses(renaming::renamed_arms(arms, m), n) == renamed_uses(
            uses::arms_uses(arms, n),
            m,
        ),
    decreases arms, n,
{
    let r = renaming::renamed_arms(arms, m);
    if n == 0 {
        assert(uses::arms_uses(r, n) =~= renamed_uses(uses::arms_uses(arms, n), m));
    } else {
        let a = arms[n - 1];
        lemma_arms_uses(arms, (n - 1) as nat, m);
        lemma_expr_uses(a.cond, m);
        lemma_stmts_uses(a.body, a.body.len(), m);
        assert(r[n - 1] == renaming::renamed_arm(a, m));
        let x = uses::expr_uses(a.cond);
        let y = uses::stmts_uses(a.body, a.body.len());
        lemma_renamed_add(x, y, m);
        lemma_renamed_add(uses::arms_uses(arms, (n - 1) as nat), x + y, m);
    }
}

// ───────────────────────── renaming twice ─────────────────────────

/// Whether renaming by `m` and then by `r2` gives what renaming by `r1` gives,
/// on every name that is used.
pub open spec fn agree(us: Seq<UseV>, m: RenamingV, r1: RenamingV, r2: RenamingV) -> bool {
    forall|u: UseV| #[trigger] us.contains(u) ==> agree_on(use_name(u), m, r1, r2)
}

/// Whether renaming by `m` and then by `r2` gives what renaming by `r1` gives.
pub open spec fn agree_on(n: Seq<char>, m: RenamingV, r1: RenamingV, r2: RenamingV) -> bool {
    renaming::new_name(r2, renaming::new_name(m, n)) == renaming::new_name(r1, n)
}

proof fn lemma_agree_add(
    a: Seq<UseV>,
    b: Seq<UseV>,
    m: RenamingV,
    r1: RenamingV,
    r2: RenamingV,
)
    requires
        agree(a + b, m, r1, r2),
    ensures
        agree(a, m, r1, r2),
        agree(b, m, r1, r2),
{
    assert forall|u: UseV| #[trigger] a.contains(u) implies agree_on(use_name(u), m, r1, r2) by {
        let i = choose|i: int| 0 <= i < a.len() && a[i] == u;
        assert((a + b)[i] == u);
        assert((a + b).contains(u));
    }
    assert forall|u: UseV| #[trigger] b.contains(u) implies agree_on(use_name(u), m, r1, r2) by {
        let i = choose|i: int| 0 <= i < b.len() && b[i] == u;
        assert((a + b)[a.len() + i] == u);
        assert((a + b).contains(u));
    }
}

proof fn lemma_twice_parts(
    parts: Seq<Seq<char>>,
    m: RenamingV,
    r1: RenamingV,
    r2: RenamingV,
)
    requires
        agree(uses::head_uses(parts), m, r1, r2),
    ensures
        renaming::renamed_parts(renaming::renamed_parts(parts, m), r2) == renaming::renamed_parts(
            parts,
            r1,
        ),
{
    if parts.len() > 0 {
        let us = uses::head_uses(parts);
        assert(us[0] == UseV::Name(parts[0]));
        assert(us.contains(UseV::Name(parts[0])));
    }
    assert(renaming::renamed_parts(renaming::renamed_parts(parts, m), r2)
        =~= renaming::renamed_parts(parts, r1));
}

proof fn lemma_twice_expr(e: ExprV, m: RenamingV, r1: RenamingV, r2: RenamingV)
    requires
        agree(uses::expr_uses(e), m, r1, r2),
    ensures
        renaming::renamed_expr(renaming::renamed_expr(e, m), r2) == renaming::renamed_expr(e, r1),
    decreases e,
{
    match e {
        ExprV::Var(parts) => lemma_twice_parts(parts, m, r1, r2),
        ExprV::Call { target, args } => {
            lemma_agree_add(
                uses::head_uses(target),
                uses::args_uses(args, args.len()),
                m,
                r1,
                r2,
            );
            lemma_twice_parts(target, m, r1, r2);
            lemma_twice_args(args, m, r1, r2);
        },
        ExprV::Unary { expr, .. } => lemma_twice_expr(*expr, m, r1, r2),
        ExprV::Binary { lhs, rhs, .. } => {
            lemma_agree_add(uses::expr_uses(*lhs), uses::expr_uses(*rhs), m, r1, r2);
            lemma_twice_expr(*lhs, m, r1, r2);
            lemma_twice_expr(*rhs, m, r1, r2);
        },
        _ => {},
    }
}

proof fn lemma_agree_args(
    args: Seq<ArgV>,
    n: nat,
    i: int,
    m: RenamingV,
    r1: RenamingV,
    r2: RenamingV,
)
    requires
        agree(uses::args_uses(args, n), m, r1, r2),
        0 <= i < n <= args.len(),
    ensures
        agree(uses::expr_uses(args[i].value), m, r1, r2),
    decreases n,
{
    lemma_agree_add(
        uses::args_uses(args, (n - 1) as nat),
        uses::expr_uses(args[n - 1].value),
        m,
        r1,
        r2,
    );
    if i < n - 1 {
        lemma_agree_args(args, (n - 1) as nat, i, m, r1, r2);
    }
}

proof fn lemma_twice_args(args: Seq<ArgV>, m: RenamingV, r1: RenamingV, r2: RenamingV)
    requires
        agree(uses::args_uses(args, args.len()), m, r1, r2),
    ensures
        renaming::renamed_args(renaming::renamed_args(args, m), r2) == renaming::renamed_args(
            args,
            r1,
        ),
    decreases args,
{
    assert forall|i: int| 0 <= i < args.len() implies renaming::renamed_arg(
        renaming::renamed_arg(#[trigger] args[i], m),
        r2,
    ) == renaming::renamed_arg(args[i], r1) by {
        lemma_agree_args(args, args.len(), i, m, r1, r2);
        lemma_twice_expr(args[i].value, m, r1, r2);
    }
    assert(renaming::renamed_args(renaming::renamed_args(args, m), r2) =~= renaming::renamed_args(
        args,
        r1,
    ));
}

proof fn lemma_twice_exprs(es: Seq<ExprV>, n: nat, m: RenamingV, r1: RenamingV, r2: RenamingV)
    requires
        n <= es.len(),
        agree(uses::exprs_uses(es, n), m, r1, r2),
    ensures
        forall|i: int|
            0 <= i < n ==> renaming::renamed_expr(
                renaming::renamed_expr(#[trigger] es[i], m),
                r2,
            ) == renaming::renamed_expr(es[i], r1),
    decreases n,
{
    if n > 0 {
        lemma_agree_add(
            uses::exprs_uses(es, (n - 1) as nat),
            uses::expr_uses(es[n - 1]),
            m,
            r1,
            r2,
        );
        lemma_twice_exprs(es, (n - 1) as nat, m, r1, r2);
        lemma_twice_expr(es[n - 1], m, r1, r2);
    }
}

proof fn lemma_twice_stmt(s: StmtV, m: RenamingV, r1: RenamingV, r2: RenamingV)
    requires
        agree(uses::stmt_uses(s), m, r1, r2),
    ensures
        renaming::renamed_stmt(renaming::renamed_stmt(s, m), r2) == renaming::renamed_stmt(s, r1),
    decreases s,
{
    match s {
        StmtV::Assign { rhs, .. } => lemma_twice_expr(rhs, m, r1, r2),
        StmtV::Call { sub, .. } => {
            let us = uses::stmt_uses(s);
            assert(us[0] == UseV::Sub(sub));
            assert(us.contains(UseV::Sub(sub)));
        },
        StmtV::Return { action, .. } => {
            if let Some(a) = action {
                lemma_twice_exprs(a.args, a.args.len(), m, r1, r2);
                assert(renaming::renamed_exprs(renaming::renamed_exprs(a.args, m), r2)
                    =~= renaming::renamed_exprs(a.args, r1));
            }
        },
        StmtV::Synthetic { value, .. } => lemma_twice_expr(value, m, r1, r2),
        StmtV::If { arms, else_body, .. } => {
            match else_body {
                Some(b) => {
                    lemma_agree_add(
                        uses::arms_uses(arms, arms.len()),
                        uses::stmts_uses(b, b.len()),
                        m,
                        r1,
                        r2,
                    );
                    lemma_twice_stmts(b, m, r1, r2);
                },
                None => {},
            }
            lemma_twice_arms(arms, m, r1, r2);
        },
        StmtV::New { name, args, .. } => {
            let head = seq![UseV::Object(name)];
            lemma_agree_add(head, uses::args_uses(args, args.len()), m, r1, r2);
            assert(head[0] == UseV::Object(name));
            assert(head.contains(UseV::Object(name)));
            lemma_twice_args(args, m, r1, r2);
        },
        StmtV::Expr { expr, .. } => lemma_twice_expr(expr, m, r1, r2),
        _ => {},
    }
}

proof fn lemma_agree_stmts(
    ss: Seq<StmtV>,
    n: nat,
    i: int,
    m: RenamingV,
    r1: RenamingV,
    r2: RenamingV,
)
    requires
        agree(uses::stmts_uses(ss, n), m, r1, r2),
        0 <= i < n <= ss.len(),
    ensures
        agree(uses::stmt_uses(ss[i]), m, r1, r2),
    decreases n,
{
    lemma_agree_add(
        uses::stmts_uses(ss, (n - 1) as nat),
        uses::stmt_uses(ss[n - 1]),
        m,
        r1,
        r2,
    );
    if i < n - 1 {
        lemma_agree_stmts(ss, (n - 1) as nat, i, m, r1, r2);
    }
}

proof fn lemma_twice_stmts(ss: Seq<StmtV>, m: RenamingV, r1: RenamingV, r2: RenamingV)
    requires
        agree(uses::stmts_uses(ss, ss.len()), m, r1, r2),
    ensures
        renaming::renamed_stmts(renaming::renamed_stmts(ss, m), r2) == renaming::renamed_stmts(
            ss,
            r1,
        ),
    decreases ss,
{
    assert forall|i: int| 0 <= i < ss.len() implies renaming::renamed_stmt(
        renaming::renamed_stmt(#[trigger] ss[i], m),
        r2,
    ) == renaming::renamed_stmt(ss[i], r1) by {
        lemma_agree_stmts(ss, ss.len(), i, m, r1, r2);
        lemma_twice_stmt(ss[i], m, r1, r2);
    }
    assert(renaming::renamed_stmts(renaming::renamed_stmts(ss, m), r2)
        =~= renaming::renamed_stmts(ss, r1));
}

proof fn lemma_agree_arms(
    arms: Seq<ArmV>,
    n: nat,
    i: int,
    m: RenamingV,
    r1: RenamingV,
    r2: RenamingV,
)
    requires
        agree(uses::arms_uses(arms, n), m, r1, r2),
        0 <= i < n <= arms.len(),
    ensures
        agree(uses::expr_uses(arms[i].cond), m, r1, r2),
        agree(uses::stmts_uses(arms[i].body, arms[i].body.len()), m, r1, r2),
    decreases n,
{
    let a = arms[n - 1];
    let x = uses::expr_uses(a.cond);
    let y = uses::stmts_uses(a.body, a.body.len());
    lemma_agree_add(uses::arms_uses(arms, (n - 1) as nat), x + y, m, r1, r2);
    lemma_agree_add(x, y, m, r1, r2);
    if i < n - 1 {
        lemma_agree_arms(arms, (n - 1) as nat, i, m, r1, r2);
    }
}

proof fn lemma_twice_arms(arms: Seq<ArmV>, m: RenamingV, r1: RenamingV, r2: RenamingV)
    requires
        agree(uses::arms_uses(arms, arms.len()), m, r1, r2),
    ensures
        renaming::renamed_arms(renaming::renamed_arms(arms, m), r2) == renaming::renamed_arms(
            arms,
            r1,
        ),
    decreases arms,
{
    assert forall|i: int| 0 <= i < arms.len() implies renaming::renamed_arm(
        renaming::renamed_arm(#[trigger] arms[i], m),
        r2,
    ) == renaming::renamed_arm(arms[i], r1) by {
        lemma_agree_arms(arms, arms.len(), i, m, r1, r2);
        lemma_twice_expr(arms[i].cond, m, r1, r2);
        lemma_twice_stmts(arms[i].body, m, r1, r2);
    }
    assert(renaming::renamed_arms(renaming::renamed_arms(arms, m), r2) =~= renaming::renamed_arms(
        arms,
        r1,
    ));
}

/// Whether renaming a declaration by `m` and then by `r2` gives what renaming it
/// by `r1` gives.
pub open spec fn decl_agree(d: DeclV, m: RenamingV, r1: RenamingV, r2: RenamingV) -> bool {
    match d {
        DeclV::Import { .. } => true,
        DeclV::Backend { name, body, .. } => {
            &&& agree_on(name, m, r1, r2)
            &&& body matches Some(fs) ==> forall|i: int|
                0 <= i < fs.len() && rename::ref_of(#[trigger] fs[i]) is Some ==> agree_on(
                    rename::ref_of(fs[i])->0,
                    m,
                    r1,
                    r2,
                )
        },
        DeclV::Probe { name, .. } => agree_on(name, m, r1, r2),
        DeclV::Acl { name, .. } => agree_on(name, m, r1, r2),
        DeclV::Sub { name, body, .. } => agree_on(name, m, r1, r2) && agree(
            uses::body_uses(body),
            m,
            r1,
            r2,
        ),
    }
}

pub(crate) proof fn lemma_twice_decl(d: DeclV, m: RenamingV, r1: RenamingV, r2: RenamingV)
    requires
        decl_agree(d, m, r1, r2),
    ensures
        renaming::renamed_decl(renaming::renamed_decl(d, m), r2) == renaming::renamed_decl(d, r1),
{
    match d {
        DeclV::Backend { body: Some(fs), .. } => {
            assert forall|i: int| 0 <= i < fs.len() implies renaming::renamed_field(
                renaming::renamed_field(#[trigger] fs[i], m),
                r2,
            ) == renaming::renamed_field(fs[i], r1) by {
                assert(rename::ref_of(fs[i]) is Some ==> agree_on(
                    rename::ref_of(fs[i])->0,
                    m,
                    r1,
                    r2,
                ));
            }
            assert(renaming::renamed_fields(renaming::renamed_fields(fs, m), r2)
                =~= renaming::renamed_fields(fs, r1));
        },
        DeclV::Sub { body, .. } => lemma_twice_stmts(body, m, r1, r2),
        _ => {},
    }
}

// ───────────────────────── the same walk under other names ─────────────────────────

/// Whether a renaming gives different names to different names.
pub open spec fn one_to_one(m: RenamingV) -> bool {
    forall|a: Seq<char>, b: Seq<char>|
        #[trigger] renaming::new_name(m, a) == #[trigger] renaming::new_name(m, b) ==> a == b
}

/// Whether a renaming leaves the names that always stay.
pub open spec fn leaves_kept(m: RenamingV) -> bool {
    forall|n: Seq<char>|
        ast::builtin_name(n) || n == "default"@ ==> #[trigger] renaming::new_name(m, n) == n
}

/// Whether two states are the same but for the names.
pub open spec fn alike(m: RenamingV, a: NamesV, b: NamesV) -> bool {
    &&& a.assigned.len() == b.assigned.len()
    &&& forall|i: int|
        0 <= i < a.assigned.len() ==> #[trigger] b.assigned[i] == (AssignedV {
            name: renaming::new_name(m, a.assigned[i].name),
            ..a.assigned[i]
        })
    &&& forall|n: Seq<char>|
        a.objects.contains(n) == b.objects.contains(#[trigger] renaming::new_name(m, n))
    &&& forall|n: Seq<char>|
        a.visited.contains(n) == b.visited.contains(#[trigger] renaming::new_name(m, n))
}

/// Whether two tables hold the same declarations but for the names.
pub open spec fn alike_tables(m: RenamingV, t: DeclTableV, u: DeclTableV) -> bool {
    forall|n: Seq<char>|
        {
            let x = #[trigger] renaming::new_name(m, n);
            u.contains_key(x) == t.contains_key(n) && (t.contains_key(n) ==> u[x]
                == renaming::renamed_decl(t[n], m))
        }
}

proof fn lemma_keeps(m: RenamingV, k: Kind, n: Seq<char>)
    requires
        one_to_one(m),
        leaves_kept(m),
    ensures
        rename::keeps(k, renaming::new_name(m, n)) == rename::keeps(k, n),
        rename::keeps(k, n) ==> renaming::new_name(m, n) == n,
        ast::builtin_name(renaming::new_name(m, n)) == ast::builtin_name(n),
        (renaming::new_name(m, n) == "default"@) == (n == "default"@),
{
    let x = renaming::new_name(m, n);
    assert(renaming::new_name(m, x) == renaming::new_name(m, x));
    if ast::builtin_name(x) || x == "default"@ {
        assert(renaming::new_name(m, x) == x);
        assert(n == x);
    }
}

proof fn lemma_alike_name(m: RenamingV, a: Seq<AssignedV>, b: Seq<AssignedV>, k: Kind, n: Seq<char>)
    requires
        one_to_one(m),
        a.len() == b.len(),
        forall|i: int|
            0 <= i < a.len() ==> #[trigger] b[i] == (AssignedV {
                name: renaming::new_name(m, a[i].name),
                ..a[i]
            }),
    ensures
        rename::assigned_name(b, k, renaming::new_name(m, n)) == rename::assigned_name(a, k, n),
    decreases a.len(),
{
    if a.len() > 0 {
        lemma_alike_name(m, a.drop_last(), b.drop_last(), k, n);
        assert(b.last() == b[b.len() - 1]);
        assert(renaming::new_name(m, a.last().name) == renaming::new_name(m, n) ==> a.last().name
            == n);
    }
}

proof fn lemma_alike_numbers(m: RenamingV, a: Seq<AssignedV>, b: Seq<AssignedV>, k: Kind)
    requires
        one_to_one(m),
        leaves_kept(m),
        a.len() == b.len(),
        forall|i: int|
            0 <= i < a.len() ==> #[trigger] b[i] == (AssignedV {
                name: renaming::new_name(m, a[i].name),
                ..a[i]
            }),
    ensures
        rename::numbers_of(b, k) == rename::numbers_of(a, k),
    decreases a.len(),
{
    if a.len() > 0 {
        lemma_alike_numbers(m, a.drop_last(), b.drop_last(), k);
        assert(b.last() == b[b.len() - 1]);
        lemma_keeps(m, k, a.last().name);
    }
}

proof fn lemma_alike_given(m: RenamingV, a: NamesV, b: NamesV, k: Kind, n: Seq<char>)
    requires
        one_to_one(m),
        leaves_kept(m),
        alike(m, a, b),
    ensures
        alike(m, rename::given(a, k, n), rename::given(b, k, renaming::new_name(m, n))),
{
    lemma_alike_name(m, a.assigned, b.assigned, k, n);
    lemma_alike_numbers(m, a.assigned, b.assigned, k);
    lemma_keeps(m, k, n);
}

proof fn lemma_alike_probes(m: RenamingV, a: NamesV, b: NamesV, fs: Seq<FieldV>, n: nat)
    requires
        one_to_one(m),
        leaves_kept(m),
        alike(m, a, b),
        n <= fs.len(),
    ensures
        alike(
            m,
            rename::probes_given(a, fs, n),
            rename::probes_given(b, renaming::renamed_fields(fs, m), n),
        ),
    decreases n,
{
    if n > 0 {
        lemma_alike_probes(m, a, b, fs, (n - 1) as nat);
        let r = renaming::renamed_fields(fs, m);
        assert(r[n - 1] == renaming::renamed_field(fs[n - 1], m));
        if let Some(p) = rename::probe_of(fs[n - 1]) {
            assert(rename::probe_of(r[n - 1]) == Some(renaming::new_name(m, p)));
            lemma_alike_given(
                m,
                rename::probes_given(a, fs, (n - 1) as nat),
                rename::probes_given(b, r, (n - 1) as nat),
                Kind::Probe,
                p,
            );
        }
    }
}

proof fn lemma_alike_used_from(
    m: RenamingV,
    t: DeclTableV,
    u: DeclTableV,
    a: NamesV,
    b: NamesV,
    us: Seq<UseV>,
    i: nat,
)
    requires
        one_to_one(m),
        leaves_kept(m),
        t.dom().finite(),
        u.dom().finite(),
        alike_tables(m, t, u),
        alike(m, a, b),
    ensures
        alike(
            m,
            rename::used_from(t, a, us, i),
            rename::used_from(u, b, renamed_uses(us, m), i),
        ),
    decreases rename::unvisited(t, a.visited), 1nat, us.len() - i,
{
    if i < us.len() {
        let x = us[i as int];
        let y = renamed_uses(us, m)[i as int];
        assert(y == renamed_use(x, m));
        lemma_alike_used(m, t, u, a, b, x);
        rename::lemma_used_grows(t, a, x);
        rename::lemma_used_grows(u, b, y);
        let a1 = rename::used(t, a, x);
        let b1 = rename::used(u, b, y);
        rename::lemma_unvisited_grows(t, a.visited, a1.visited);
        rename::lemma_unvisited_grows(u, b.visited, b1.visited);
        lemma_alike_used_from(m, t, u, a1, b1, us, i + 1);
    }
}

proof fn lemma_alike_used(
    m: RenamingV,
    t: DeclTableV,
    u: DeclTableV,
    a: NamesV,
    b: NamesV,
    x: UseV,
)
    requires
        one_to_one(m),
        leaves_kept(m),
        t.dom().finite(),
        u.dom().finite(),
        alike_tables(m, t, u),
        alike(m, a, b),
    ensures
        alike(m, rename::used(t, a, x), rename::used(u, b, renamed_use(x, m))),
    decreases rename::unvisited(t, a.visited), 0nat, 1nat,
{
    match x {
        UseV::Object(n) => {
            let a1 = NamesV { objects: a.objects.insert(n), ..a };
            let b1 = NamesV { objects: b.objects.insert(renaming::new_name(m, n)), ..b };
            assert(alike(m, a1, b1));
            lemma_alike_given(m, a1, b1, Kind::Obj, n);
        },
        UseV::Sub(n) => lemma_alike_touched(m, t, u, a, b, Kind::Sub, n),
        UseV::Name(n) => {
            let y = renaming::new_name(m, n);
            assert(a.objects.contains(n) == b.objects.contains(y));
            lemma_alike_touched(m, t, u, a, b, Kind::Obj, n);
            if t.contains_key(n) && rename::kind_of(t[n]) is Some {
                lemma_alike_touched(m, t, u, a, b, rename::kind_of(t[n])->0, n);
            }
        },
    }
}

proof fn lemma_alike_touched(
    m: RenamingV,
    t: DeclTableV,
    u: DeclTableV,
    a: NamesV,
    b: NamesV,
    k: Kind,
    n: Seq<char>,
)
    requires
        one_to_one(m),
        leaves_kept(m),
        t.dom().finite(),
        u.dom().finite(),
        alike_tables(m, t, u),
        alike(m, a, b),
    ensures
        alike(
            m,
            rename::touched(t, a, k, n),
            rename::touched(u, b, k, renaming::new_name(m, n)),
        ),
    decreases rename::unvisited(t, a.visited), 0nat, 0nat,
{
    let x = renaming::new_name(m, n);
    lemma_alike_name(m, a.assigned, b.assigned, k, n);
    if rename::assigned_name(a.assigned, k, n) is None {
        lemma_alike_given(m, a, b, k, n);
        let a1 = rename::given(a, k, n);
        let b1 = rename::given(b, k, x);
        match k {
            Kind::Backend => {
                let fs = rename::fields_of(t, n);
                assert(rename::fields_of(u, x) =~= renaming::renamed_fields(fs, m));
                lemma_alike_probes(m, a1, b1, fs, fs.len());
            },
            Kind::Sub => {
                assert(a1.visited.contains(n) == b1.visited.contains(x));
                if !a1.visited.contains(n) {
                    let a2 = NamesV { visited: a1.visited.insert(n), ..a1 };
                    let b2 = NamesV { visited: b1.visited.insert(x), ..b1 };
                    assert(alike(m, a2, b2));
                    if let Some(body) = rename::body_of(t, n) {
                        assert(rename::body_of(u, x) == Some(renaming::renamed_stmts(body, m)));
                        rename::lemma_unvisited_less(t, a.visited, n);
                        rename::lemma_unvisited_less(u, b.visited, x);
                        lemma_stmts_uses(body, body.len(), m);
                        assert(renaming::renamed_stmts(body, m).len() == body.len());
                        lemma_alike_used_from(m, t, u, a2, b2, uses::body_uses(body), 0);
                    } else {
                        assert(rename::body_of(u, x) is None);
                    }
                }
            },
            _ => {},
        }
    }
}

pub(crate) proof fn lemma_decl_facts(m: RenamingV, d: DeclV)
    ensures
        rename::kind_of(renaming::renamed_decl(d, m)) == rename::kind_of(d),
        rename::kind_of(d) is Some ==> ast::decl_name(renaming::renamed_decl(d, m))
            == renaming::new_name(m, ast::decl_name(d)),
{
}

proof fn lemma_alike_table(m: RenamingV, ds: Seq<DeclV>, n: nat)
    requires
        one_to_one(m),
        n <= ds.len(),
    ensures
        alike_tables(
            m,
            rename::decl_table(ds, n),
            rename::decl_table(renaming::renamed_decls(ds, m), n),
        ),
    decreases n,
{
    if n > 0 {
        lemma_alike_table(m, ds, (n - 1) as nat);
        let r = renaming::renamed_decls(ds, m);
        let d = ds[n - 1];
        assert(r[n - 1] == renaming::renamed_decl(d, m));
        lemma_decl_facts(m, d);
        let t0 = rename::decl_table(ds, (n - 1) as nat);
        let u0 = rename::decl_table(r, (n - 1) as nat);
        let t1 = rename::decl_table(ds, n);
        let u1 = rename::decl_table(r, n);
        assert forall|x: Seq<char>|
            {
                let y = #[trigger] renaming::new_name(m, x);
                u1.contains_key(y) == t1.contains_key(x) && (t1.contains_key(x) ==> u1[y]
                    == renaming::renamed_decl(t1[x], m))
            } by {
            let y = renaming::new_name(m, x);
            assert(u0.contains_key(y) == t0.contains_key(x));
            if rename::kind_of(d) is Some {
                assert(renaming::new_name(m, ast::decl_name(d)) == y ==> ast::decl_name(d) == x);
            }
        }
    }
}

proof fn lemma_alike_entered(
    m: RenamingV,
    t: DeclTableV,
    u: DeclTableV,
    a: NamesV,
    b: NamesV,
    name: Seq<char>,
    body: Seq<StmtV>,
)
    requires
        one_to_one(m),
        leaves_kept(m),
        t.dom().finite(),
        u.dom().finite(),
        alike_tables(m, t, u),
        alike(m, a, b),
        ast::builtin_name(name),
    ensures
        alike(
            m,
            rename::entered(t, a, name, body),
            rename::entered(u, b, name, renaming::renamed_stmts(body, m)),
        ),
{
    assert(renaming::new_name(m, name) == name);
    let a1 = NamesV { visited: a.visited.insert(name), ..a };
    let b1 = NamesV { visited: b.visited.insert(name), ..b };
    assert forall|n: Seq<char>|
        a1.visited.contains(n) == b1.visited.contains(#[trigger] renaming::new_name(m, n)) by {
        assert(renaming::new_name(m, n) == renaming::new_name(m, name) ==> n == name);
    }
    assert(alike(m, a1, b1));
    lemma_alike_given(m, a1, b1, Kind::Sub, name);
    lemma_stmts_uses(body, body.len(), m);
    assert(renaming::renamed_stmts(body, m).len() == body.len());
    lemma_alike_used_from(
        m,
        t,
        u,
        rename::given(a1, Kind::Sub, name),
        rename::given(b1, Kind::Sub, name),
        uses::body_uses(body),
        0,
    );
}

proof fn lemma_known_names(i: int)
    requires
        0 <= i < ast::builtin_subs().len(),
    ensures
        ast::builtin_name(ast::builtin_subs()[i]),
{
    reveal_strlit("vcl_");
    reveal_strlit("vcl_init");
    reveal_strlit("vcl_connect");
    reveal_strlit("vcl_recv");
    reveal_strlit("vcl_pipe");
    reveal_strlit("vcl_pass");
    reveal_strlit("vcl_hash");
    reveal_strlit("vcl_purge");
    reveal_strlit("vcl_hit");
    reveal_strlit("vcl_miss");
    reveal_strlit("vcl_deliver");
    reveal_strlit("vcl_synth");
    reveal_strlit("vcl_backend_fetch");
    reveal_strlit("vcl_backend_response");
    reveal_strlit("vcl_backend_error");
    reveal_strlit("vcl_fini");
    let n = ast::builtin_subs()[i];
    assert(n.len() >= 4 && n[0] == 'v' && n[1] == 'c' && n[2] == 'l' && n[3] == '_');
    assert(n.take(4) =~= "vcl_"@);
}

proof fn lemma_alike_known(
    m: RenamingV,
    t: DeclTableV,
    u: DeclTableV,
    a: NamesV,
    b: NamesV,
    n: nat,
)
    requires
        one_to_one(m),
        leaves_kept(m),
        t.dom().finite(),
        u.dom().finite(),
        alike_tables(m, t, u),
        alike(m, a, b),
        n <= ast::builtin_subs().len(),
    ensures
        alike(m, rename::known_entered(t, a, n), rename::known_entered(u, b, n)),
    decreases n,
{
    if n > 0 {
        lemma_alike_known(m, t, u, a, b, (n - 1) as nat);
        let name = ast::builtin_subs()[n - 1];
        lemma_known_names(n - 1);
        assert(renaming::new_name(m, name) == name);
        assert(u.contains_key(name) == t.contains_key(name));
        if let Some(body) = rename::body_of(t, name) {
            assert(rename::body_of(u, name) == Some(renaming::renamed_stmts(body, m)));
            lemma_alike_entered(
                m,
                t,
                u,
                rename::known_entered(t, a, (n - 1) as nat),
                rename::known_entered(u, b, (n - 1) as nat),
                name,
                body,
            );
        } else {
            assert(rename::body_of(u, name) is None);
        }
    }
}

proof fn lemma_alike_others(
    m: RenamingV,
    t: DeclTableV,
    u: DeclTableV,
    a: NamesV,
    b: NamesV,
    ds: Seq<DeclV>,
    n: nat,
)
    requires
        one_to_one(m),
        leaves_kept(m),
        t.dom().finite(),
        u.dom().finite(),
        alike_tables(m, t, u),
        alike(m, a, b),
        n <= ds.len(),
    ensures
        alike(
            m,
            rename::others_entered(t, a, ds, n),
            rename::others_entered(u, b, renaming::renamed_decls(ds, m), n),
        ),
    decreases n,
{
    if n > 0 {
        lemma_alike_others(m, t, u, a, b, ds, (n - 1) as nat);
        let r = renaming::renamed_decls(ds, m);
        assert(r[n - 1] == renaming::renamed_decl(ds[n - 1], m));
        let a1 = rename::others_entered(t, a, ds, (n - 1) as nat);
        let b1 = rename::others_entered(u, b, r, (n - 1) as nat);
        if let DeclV::Sub { name, body, .. } = ds[n - 1] {
            lemma_keeps(m, Kind::Sub, name);
            assert(a1.visited.contains(name) == b1.visited.contains(renaming::new_name(m, name)));
            if ast::builtin_name(name) {
                lemma_alike_entered(m, t, u, a1, b1, name, body);
            }
        }
    }
}

// ───────────────────────── unused declarations under other names ─────────────────────────

proof fn lemma_alike_resolved(
    m: RenamingV,
    t: DeclTableV,
    u: DeclTableV,
    a: NamesV,
    b: NamesV,
    n: Seq<char>,
)
    requires
        one_to_one(m),
        alike_tables(m, t, u),
        alike(m, a, b),
    ensures
        rename::resolved(u, b, renaming::new_name(m, n)) == rename::resolved(t, a, n),
{
    let x = renaming::new_name(m, n);
    assert(a.objects.contains(n) == b.objects.contains(x));
    lemma_alike_name(m, a.assigned, b.assigned, Kind::Obj, n);
    if t.contains_key(n) && rename::kind_of(t[n]) is Some {
        lemma_decl_facts(m, t[n]);
        lemma_alike_name(m, a.assigned, b.assigned, rename::kind_of(t[n])->0, n);
    } else if t.contains_key(n) {
        lemma_decl_facts(m, t[n]);
    }
}

/// The names that a declaration holds: its own, those that it uses, and those
/// of its probes.
pub open spec fn holds_name(d: DeclV, n: Seq<char>) -> bool {
    match d {
        DeclV::Import { .. } => false,
        DeclV::Backend { name, body, .. } => n == name || (body matches Some(fs) && exists|i: int|
            0 <= i < fs.len() && rename::ref_of(#[trigger] fs[i]) == Some(n)),
        DeclV::Probe { name, .. } => n == name,
        DeclV::Acl { name, .. } => n == name,
        DeclV::Sub { name, body, .. } => n == name || exists|u: UseV| #[trigger]
            uses::body_uses(body).contains(u) && use_name(u) == n,
    }
}

pub(crate) proof fn lemma_holds_agree(d: DeclV, m: RenamingV, r1: RenamingV, r2: RenamingV)
    requires
        forall|n: Seq<char>| #[trigger] holds_name(d, n) ==> agree_on(n, m, r1, r2),
    ensures
        decl_agree(d, m, r1, r2),
{
    match d {
        DeclV::Import { .. } => {},
        DeclV::Backend { name, body, .. } => {
            assert(holds_name(d, name));
            if let Some(fs) = body {
                assert forall|i: int|
                    0 <= i < fs.len() && rename::ref_of(#[trigger] fs[i]) is Some implies agree_on(
                    rename::ref_of(fs[i])->0,
                    m,
                    r1,
                    r2,
                ) by {
                    assert(holds_name(d, rename::ref_of(fs[i])->0));
                }
            }
        },
        DeclV::Probe { name, .. } => {
            assert(holds_name(d, name));
        },
        DeclV::Acl { name, .. } => {
            assert(holds_name(d, name));
        },
        DeclV::Sub { name, body, .. } => {
            assert(holds_name(d, name));
            let us = uses::body_uses(body);
            assert forall|x: UseV| #[trigger] us.contains(x) implies agree_on(
                use_name(x),
                m,
                r1,
                r2,
            ) by {
                assert(holds_name(d, use_name(x)));
            }
        },
    }
}

/// Whether an unused declaration can be ordered without looking at names that
/// have no canonical name yet: each name that it holds is its own, or has its
/// canonical name, or stays.
pub open spec fn ordered_by_canonical_names(
    m: RenamingV,
    t: DeclTableV,
    c: NamesV,
    k: Kind,
    ds: Seq<DeclV>,
) -> bool {
    forall|i: int, n: Seq<char>|
        0 <= i < ds.len() && rename::unused(c, k, ds[i]) && #[trigger] holds_name(ds[i], n) ==> n
            == ast::decl_name(ds[i]) || rename::resolved(t, c, n) is Some || renaming::new_name(
            m,
            n,
        ) == n
}

pub(crate) proof fn lemma_dead_key(
    m: RenamingV,
    t: DeclTableV,
    u: DeclTableV,
    a: NamesV,
    b: NamesV,
    k: Kind,
    ds: Seq<DeclV>,
    i: int,
)
    requires
        one_to_one(m),
        leaves_kept(m),
        alike_tables(m, t, u),
        alike(m, a, b),
        ordered_by_canonical_names(m, t, a, k, ds),
        0 <= i < ds.len(),
        rename::unused(a, k, ds[i]),
    ensures
        rename::dead_key(u, b, renaming::renamed_decl(ds[i], m)) == rename::dead_key(t, a, ds[i]),
{
    let d = ds[i];
    let own = ast::decl_name(d);
    lemma_decl_facts(m, d);
    let r1 = rename::renaming_of(t, a).insert(own, "$self"@);
    let r2 = rename::renaming_of(u, b).insert(renaming::new_name(m, own), "$self"@);
    assert forall|n: Seq<char>| #[trigger] holds_name(d, n) implies agree_on(n, m, r1, r2) by {
        let x = renaming::new_name(m, n);
        assert(x == renaming::new_name(m, own) ==> n == own);
        lemma_alike_resolved(m, t, u, a, b, n);
        assert(holds_name(ds[i], n));
        assert(n == own || rename::resolved(t, a, n) is Some || x == n);
    }
    lemma_holds_agree(d, m, r1, r2);
    lemma_twice_decl(d, m, r1, r2);
}

pub(crate) proof fn lemma_alike_unused(m: RenamingV, a: NamesV, b: NamesV, k: Kind, d: DeclV)
    requires
        one_to_one(m),
        leaves_kept(m),
        alike(m, a, b),
    ensures
        rename::unused(b, k, renaming::renamed_decl(d, m)) == rename::unused(a, k, d),
{
    lemma_decl_facts(m, d);
    if rename::kind_of(d) == Some(k) {
        lemma_keeps(m, k, ast::decl_name(d));
        lemma_alike_name(m, a.assigned, b.assigned, k, ast::decl_name(d));
    }
}

/// Names with keys, renamed.
pub open spec fn renamed_pairs(
    s: Seq<(order::KeyV, Seq<char>)>,
    m: RenamingV,
) -> Seq<(order::KeyV, Seq<char>)> {
    Seq::new(s.len(), |i: int| (s[i].0, renaming::new_name(m, s[i].1)))
}

proof fn lemma_renamed_place(
    s: Seq<(order::KeyV, Seq<char>)>,
    m: RenamingV,
    k: order::KeyV,
    i: nat,
)
    ensures
        order::place_for(renamed_pairs(s, m), k, i) == order::place_for(s, k, i),
    decreases s.len() - i,
{
    if i < s.len() && !order::key_less(k, s[i as int].0) {
        lemma_renamed_place(s, m, k, i + 1);
    }
}

pub(crate) proof fn lemma_renamed_sorted(s: Seq<(order::KeyV, Seq<char>)>, m: RenamingV, n: nat)
    requires
        n <= s.len(),
    ensures
        order::sorted_first(renamed_pairs(s, m), n) == renamed_pairs(order::sorted_first(s, n), m),
        order::sorted_first(s, n).len() == n,
    decreases n,
{
    if n > 0 {
        lemma_renamed_sorted(s, m, (n - 1) as nat);
        let before = order::sorted_first(s, (n - 1) as nat);
        lemma_renamed_place(before, m, s[n - 1].0, 0);
        order::lemma_place(before, s[n - 1].0, 0);
        let p = order::place_for(before, s[n - 1].0, 0) as int;
        assert(renamed_pairs(before, m).insert(p, renamed_pairs(s, m)[n - 1]) =~= renamed_pairs(
            before.insert(p, s[n - 1]),
            m,
        ));
    } else {
        assert(renamed_pairs(order::sorted_first(s, 0), m) =~= order::sorted_first(
            renamed_pairs(s, m),
            0,
        ));
    }
}

proof fn lemma_dead_first(
    m: RenamingV,
    t: DeclTableV,
    u: DeclTableV,
    a: NamesV,
    b: NamesV,
    k: Kind,
    ds: Seq<DeclV>,
    n: nat,
)
    requires
        one_to_one(m),
        leaves_kept(m),
        alike_tables(m, t, u),
        alike(m, a, b),
        ordered_by_canonical_names(m, t, a, k, ds),
        n <= ds.len(),
    ensures
        rename::dead_first(u, b, k, renaming::renamed_decls(ds, m), n) == renamed_pairs(
            rename::dead_first(t, a, k, ds, n),
            m,
        ),
    decreases n,
{
    let r = renaming::renamed_decls(ds, m);
    if n > 0 {
        lemma_dead_first(m, t, u, a, b, k, ds, (n - 1) as nat);
        let d = ds[n - 1];
        assert(r[n - 1] == renaming::renamed_decl(d, m));
        lemma_alike_unused(m, a, b, k, d);
        if rename::unused(a, k, d) {
            lemma_dead_key(m, t, u, a, b, k, ds, n - 1);
            lemma_decl_facts(m, d);
            let before = rename::dead_first(t, a, k, ds, (n - 1) as nat);
            let x = (rename::dead_key(t, a, d), ast::decl_name(d));
            assert(renamed_pairs(before.push(x), m) =~= renamed_pairs(before, m).push(
                (x.0, renaming::new_name(m, x.1)),
            ));
        }
    } else {
        assert(rename::dead_first(u, b, k, r, 0) =~= renamed_pairs(
            rename::dead_first(t, a, k, ds, 0),
            m,
        ));
    }
}

proof fn lemma_alike_all_given(
    m: RenamingV,
    a: NamesV,
    b: NamesV,
    k: Kind,
    s: Seq<(order::KeyV, Seq<char>)>,
    n: nat,
)
    requires
        one_to_one(m),
        leaves_kept(m),
        alike(m, a, b),
        n <= s.len(),
    ensures
        alike(m, rename::all_given(a, k, s, n), rename::all_given(b, k, renamed_pairs(s, m), n)),
    decreases n,
{
    if n > 0 {
        lemma_alike_all_given(m, a, b, k, s, (n - 1) as nat);
        assert(renamed_pairs(s, m)[n - 1] == (s[n - 1].0, renaming::new_name(m, s[n - 1].1)));
        lemma_alike_given(
            m,
            rename::all_given(a, k, s, (n - 1) as nat),
            rename::all_given(b, k, renamed_pairs(s, m), (n - 1) as nat),
            k,
            s[n - 1].1,
        );
    }
}

proof fn lemma_alike_dead(
    m: RenamingV,
    t: DeclTableV,
    u: DeclTableV,
    a: NamesV,
    b: NamesV,
    k: Kind,
    ds: Seq<DeclV>,
)
    requires
        one_to_one(m),
        leaves_kept(m),
        alike_tables(m, t, u),
        alike(m, a, b),
        ordered_by_canonical_names(m, t, a, k, ds),
    ensures
        alike(
            m,
            rename::dead_given(t, a, k, ds),
            rename::dead_given(u, b, k, renaming::renamed_decls(ds, m)),
        ),
{
    lemma_dead_first(m, t, u, a, b, k, ds, ds.len());
    let f = rename::dead_first(t, a, k, ds, ds.len());
    lemma_renamed_sorted(f, m, f.len());
    let s = order::sorted(f);
    lemma_alike_all_given(m, a, b, k, s, s.len());
}

proof fn lemma_alike_default(
    m: RenamingV,
    t: DeclTableV,
    u: DeclTableV,
    a: NamesV,
    b: NamesV,
    ds: Seq<DeclV>,
)
    requires
        one_to_one(m),
        leaves_kept(m),
        t.dom().finite(),
        u.dom().finite(),
        alike_tables(m, t, u),
        alike(m, a, b),
    ensures
        alike(
            m,
            rename::default_given(t, a, ds),
            rename::default_given(u, b, renaming::renamed_decls(ds, m)),
        ),
{
    let r = renaming::renamed_decls(ds, m);
    assert forall|i: int| 0 <= i < ds.len() implies rename::is_default(#[trigger] r[i])
        == rename::is_default(ds[i]) by {
        if let DeclV::Backend { name, .. } = ds[i] {
            lemma_keeps(m, Kind::Backend, name);
        }
    }
    if rename::has_default(ds, ds.len()) {
        let i = choose|i: int| 0 <= i < ds.len() && rename::is_default(#[trigger] ds[i]);
        assert(rename::is_default(r[i]));
    }
    if rename::has_default(r, r.len()) {
        let i = choose|i: int| 0 <= i < r.len() && rename::is_default(#[trigger] r[i]);
        assert(rename::is_default(ds[i]));
    }
    assert(renaming::new_name(m, "default"@) == "default"@);
    lemma_alike_touched(m, t, u, a, b, Kind::Backend, "default"@);
}

// ───────────────────────── the names that were chosen ─────────────────────────

/// The states in which the unused declarations of each kind get their names.
pub open spec fn before_dead(ds: Seq<DeclV>, k: Kind) -> NamesV {
    let t = rename::decl_table(ds, ds.len());
    let c0 = rename::names_used(t, ds);
    let c2 = rename::default_given(t, rename::dead_given(t, c0, Kind::Probe, ds), ds);
    let c3 = rename::dead_given(t, c2, Kind::Backend, ds);
    match k {
        Kind::Probe => c0,
        Kind::Backend => c2,
        Kind::Acl => c3,
        _ => rename::dead_given(t, c3, Kind::Acl, ds),
    }
}

/// Whether a renaming fits a list of declarations: different names stay
/// different, the names of the hooks and of the backend `default` stay, so does
/// every name that gets no canonical name, and the unused declarations are
/// ordered by canonical names alone.
pub open spec fn fits_decls(m: RenamingV, ds: Seq<DeclV>) -> bool {
    let t = rename::decl_table(ds, ds.len());
    &&& one_to_one(m)
    &&& leaves_kept(m)
    &&& forall|i: int, n: Seq<char>|
        0 <= i < ds.len() && #[trigger] holds_name(ds[i], n) ==> rename::resolved(
            t,
            rename::all_names(ds),
            n,
        ) is Some || renaming::new_name(m, n) == n
    &&& ordered_by_canonical_names(m, t, before_dead(ds, Kind::Probe), Kind::Probe, ds)
    &&& ordered_by_canonical_names(m, t, before_dead(ds, Kind::Backend), Kind::Backend, ds)
    &&& ordered_by_canonical_names(m, t, before_dead(ds, Kind::Acl), Kind::Acl, ds)
    &&& ordered_by_canonical_names(m, t, before_dead(ds, Kind::Sub), Kind::Sub, ds)
}

pub(crate) proof fn lemma_alike_all(m: RenamingV, ds: Seq<DeclV>)
    requires
        fits_decls(m, ds),
    ensures
        alike(m, rename::all_names(ds), rename::all_names(renaming::renamed_decls(ds, m))),
        alike_tables(
            m,
            rename::decl_table(ds, ds.len()),
            rename::decl_table(renaming::renamed_decls(ds, m), ds.len()),
        ),
        forall|k: Kind|
            alike(
                m,
                #[trigger] before_dead(ds, k),
                before_dead(renaming::renamed_decls(ds, m), k),
            ),
{
    let r = renaming::renamed_decls(ds, m);
    let t = rename::decl_table(ds, ds.len());
    let u = rename::decl_table(r, r.len());
    lemma_alike_table(m, ds, ds.len());
    rename::lemma_table_finite(ds, ds.len());
    rename::lemma_table_finite(r, r.len());
    let z = rename::no_names();
    assert(alike(m, z, z));
    let n = ast::builtin_subs().len();
    lemma_alike_known(m, t, u, z, z, n);
    lemma_alike_others(
        m,
        t,
        u,
        rename::known_entered(t, z, n),
        rename::known_entered(u, z, n),
        ds,
        ds.len(),
    );
    let a0 = rename::names_used(t, ds);
    let b0 = rename::names_used(u, r);
    lemma_alike_dead(m, t, u, a0, b0, Kind::Probe, ds);
    let a1 = rename::dead_given(t, a0, Kind::Probe, ds);
    let b1 = rename::dead_given(u, b0, Kind::Probe, r);
    lemma_alike_default(m, t, u, a1, b1, ds);
    let a2 = rename::default_given(t, a1, ds);
    let b2 = rename::default_given(u, b1, r);
    lemma_alike_dead(m, t, u, a2, b2, Kind::Backend, ds);
    let a3 = rename::dead_given(t, a2, Kind::Backend, ds);
    let b3 = rename::dead_given(u, b2, Kind::Backend, r);
    lemma_alike_dead(m, t, u, a3, b3, Kind::Acl, ds);
    let a4 = rename::dead_given(t, a3, Kind::Acl, ds);
    let b4 = rename::dead_given(u, b3, Kind::Acl, r);
    lemma_alike_dead(m, t, u, a4, b4, Kind::Sub, ds);
}

/// The names that were chosen do not matter: declarations whose names are
/// replaced by others get the same canonical form.
pub proof fn law_chosen_names_do_not_matter(ds: Seq<DeclV>, m: RenamingV)
    requires
        fits_decls(m, ds),
    ensures
        rename::canonical_decls(renaming::renamed_decls(ds, m)) == rename::canonical_decls(ds),
{
    lemma_alike_all(m, ds);
    let r = renaming::renamed_decls(ds, m);
    let t = rename::decl_table(ds, ds.len());
    let u = rename::decl_table(r, r.len());
    let a = rename::all_names(ds);
    let b = rename::all_names(r);
    let r1 = rename::renaming_of(t, a);
    let r2 = rename::renaming_of(u, b);
    assert forall|i: int| 0 <= i < ds.len() implies renaming::renamed_decl(
        renaming::renamed_decl(#[trigger] ds[i], m),
        r2,
    ) == renaming::renamed_decl(ds[i], r1) by {
        let d = ds[i];
        assert forall|n: Seq<char>| #[trigger] holds_name(d, n) implies agree_on(
            n,
            m,
            r1,
            r2,
        ) by {
            assert(holds_name(ds[i], n));
            lemma_alike_resolved(m, t, u, a, b, n);
            assert(rename::resolved(t, a, n) is Some || renaming::new_name(m, n) == n);
        }
        lemma_holds_agree(d, m, r1, r2);
        lemma_twice_decl(d, m, r1, r2);
    }
    assert(renaming::renamed_decls(r, r2) =~= renaming::renamed_decls(ds, r1));
}

// ───────────────────────── the order of the declarations ─────────────────────────

/// Whether no name is declared twice.
pub open spec fn distinct_names(ds: Seq<DeclV>) -> bool {
    forall|i: int, j: int|
        0 <= i < j < ds.len() && rename::kind_of(#[trigger] ds[i]) is Some && rename::kind_of(
            #[trigger] ds[j],
        ) is Some ==> ast::decl_name(ds[i]) != ast::decl_name(ds[j])
}

/// Whether a declaration is a hook outside the fixed order.
pub open spec fn is_other_hook(d: DeclV) -> bool {
    d matches DeclV::Sub { name, .. } && ast::builtin_name(name) && !ast::builtin_subs().contains(
        name,
    )
}

/// The hooks outside the fixed order among the first `n` declarations.
pub open spec fn other_hooks(ds: Seq<DeclV>, n: nat) -> Seq<DeclV>
    decreases n,
{
    if n == 0 {
        seq![]
    } else if is_other_hook(ds[n - 1]) {
        other_hooks(ds, (n - 1) as nat).push(ds[n - 1])
    } else {
        other_hooks(ds, (n - 1) as nat)
    }
}

/// Whether the unused declarations of a kind differ in what they are ordered by.
pub open spec fn no_ties(t: DeclTableV, c: NamesV, k: Kind, ds: Seq<DeclV>) -> bool {
    forall|i: int, j: int|
        0 <= i < ds.len() && 0 <= j < ds.len() && rename::unused(c, k, #[trigger] ds[i])
            && rename::unused(c, k, #[trigger] ds[j]) && rename::dead_key(t, c, ds[i])
            == rename::dead_key(t, c, ds[j]) ==> ast::decl_name(ds[i]) == ast::decl_name(ds[j])
}

/// Whether the order of declarations leaves no name open: none is declared twice,
/// and unused declarations differ in what they are ordered by.
pub open spec fn untied(ds: Seq<DeclV>) -> bool {
    let t = rename::decl_table(ds, ds.len());
    &&& distinct_names(ds)
    &&& no_ties(t, before_dead(ds, Kind::Probe), Kind::Probe, ds)
    &&& no_ties(t, before_dead(ds, Kind::Backend), Kind::Backend, ds)
    &&& no_ties(t, before_dead(ds, Kind::Acl), Kind::Acl, ds)
    &&& no_ties(t, before_dead(ds, Kind::Sub), Kind::Sub, ds)
}

pub(crate) proof fn lemma_same_members<T>(a: Seq<T>, b: Seq<T>)
    requires
        a.to_multiset() == b.to_multiset(),
    ensures
        a.len() == b.len(),
        forall|x: T| #[trigger] a.contains(x) == b.contains(x),
{
    broadcast use {vstd::seq_lib::group_to_multiset_ensures, vstd::multiset::group_multiset_axioms};

    a.to_multiset_ensures();
    b.to_multiset_ensures();
    assert forall|x: T| #[trigger] a.contains(x) == b.contains(x) by {
        assert(a.contains(x) <==> a.to_multiset().count(x) > 0);
        assert(b.contains(x) <==> b.to_multiset().count(x) > 0);
    }
}

pub(crate) proof fn lemma_twice<T>(s: Seq<T>, x: T)
    ensures
        s.to_multiset().count(x) >= 2 <==> exists|i: int, j: int|
            0 <= i < j < s.len() && #[trigger] s[i] == x && #[trigger] s[j] == x,
{
    broadcast use {vstd::seq_lib::group_to_multiset_ensures, vstd::multiset::group_multiset_axioms};

    s.to_multiset_ensures();
    if exists|i: int, j: int|
        0 <= i < j < s.len() && #[trigger] s[i] == x && #[trigger] s[j] == x {
        let (i, j) = choose|i: int, j: int|
            0 <= i < j < s.len() && #[trigger] s[i] == x && #[trigger] s[j] == x;
        let r = s.remove(j);
        assert(r.to_multiset() =~= s.to_multiset().remove(x));
        assert(r[i] == x);
        r.to_multiset_ensures();
        assert(r.contains(x));
        assert(r.to_multiset().count(x) > 0);
    }
    if s.to_multiset().count(x) >= 2 {
        assert(s.contains(x));
        let i = choose|i: int| 0 <= i < s.len() && s[i] == x;
        let r = s.remove(i);
        assert(r.to_multiset() =~= s.to_multiset().remove(x));
        r.to_multiset_ensures();
        assert(r.to_multiset().count(x) > 0);
        assert(r.contains(x));
        let j = choose|j: int| 0 <= j < r.len() && r[j] == x;
        if j < i {
            assert(s[j] == x && s[i] == x);
        } else {
            assert(s[j + 1] == x && s[i] == x);
        }
    }
}

/// Names that differ in one order differ in every order.
pub(crate) proof fn lemma_distinct_reordered(a: Seq<DeclV>, b: Seq<DeclV>)
    requires
        a.to_multiset() == b.to_multiset(),
        distinct_names(a),
    ensures
        distinct_names(b),
{
    lemma_same_members(a, b);
    assert forall|i: int, j: int|
        0 <= i < j < b.len() && rename::kind_of(#[trigger] b[i]) is Some && rename::kind_of(
            #[trigger] b[j],
        ) is Some implies ast::decl_name(b[i]) != ast::decl_name(b[j]) by {
        if b[i] == b[j] {
            lemma_twice(b, b[i]);
            lemma_twice(a, b[i]);
            let (p, q) = choose|p: int, q: int|
                0 <= p < q < a.len() && #[trigger] a[p] == b[i] && #[trigger] a[q] == b[i];
            assert(ast::decl_name(a[p]) != ast::decl_name(a[q]));
        } else {
            assert(b.contains(b[i]) && b.contains(b[j]));
            assert(a.contains(b[i]) && a.contains(b[j]));
            let p = choose|p: int| 0 <= p < a.len() && a[p] == b[i];
            let q = choose|q: int| 0 <= q < a.len() && a[q] == b[j];
            if p < q {
                assert(ast::decl_name(a[p]) != ast::decl_name(a[q]));
            } else {
                assert(ast::decl_name(a[q]) != ast::decl_name(a[p]));
            }
        }
    }
}

pub(crate) proof fn lemma_table_from(ds: Seq<DeclV>, n: nat, x: Seq<char>)
    requires
        n <= ds.len(),
        rename::decl_table(ds, n).contains_key(x),
    ensures
        exists|i: int|
            0 <= i < n && rename::kind_of(#[trigger] ds[i]) is Some && ast::decl_name(ds[i]) == x
                && rename::decl_table(ds, n)[x] == ds[i],
    decreases n,
{
    if n > 0 {
        let d = ds[n - 1];
        if rename::kind_of(d) is Some && ast::decl_name(d) == x {
            assert(rename::decl_table(ds, n)[x] == ds[n - 1]);
        } else {
            lemma_table_from(ds, (n - 1) as nat, x);
        }
    }
}

pub(crate) proof fn lemma_table_holds(ds: Seq<DeclV>, n: nat, i: int)
    requires
        distinct_names(ds),
        0 <= i < n <= ds.len(),
        rename::kind_of(ds[i]) is Some,
    ensures
        rename::decl_table(ds, n).contains_key(ast::decl_name(ds[i])),
        rename::decl_table(ds, n)[ast::decl_name(ds[i])] == ds[i],
    decreases n,
{
    if i < n - 1 {
        lemma_table_holds(ds, (n - 1) as nat, i);
        assert(rename::kind_of(ds[n - 1]) is Some ==> ast::decl_name(ds[i]) != ast::decl_name(
            ds[n - 1],
        ));
    }
}

proof fn lemma_table_within(a: Seq<DeclV>, b: Seq<DeclV>, x: Seq<char>)
    requires
        distinct_names(b),
        forall|d: DeclV| #[trigger] a.contains(d) == b.contains(d),
        rename::decl_table(a, a.len()).contains_key(x),
    ensures
        rename::decl_table(b, b.len()).contains_key(x),
        rename::decl_table(b, b.len())[x] == rename::decl_table(a, a.len())[x],
{
    lemma_table_from(a, a.len(), x);
    let i = choose|i: int|
        0 <= i < a.len() && rename::kind_of(#[trigger] a[i]) is Some && ast::decl_name(a[i]) == x
            && rename::decl_table(a, a.len())[x] == a[i];
    assert(a.contains(a[i]));
    assert(b.contains(a[i]));
    let j = choose|j: int| 0 <= j < b.len() && b[j] == a[i];
    lemma_table_holds(b, b.len(), j);
}

pub(crate) proof fn lemma_same_table(a: Seq<DeclV>, b: Seq<DeclV>)
    requires
        distinct_names(a),
        distinct_names(b),
        a.to_multiset() == b.to_multiset(),
    ensures
        rename::decl_table(a, a.len()) == rename::decl_table(b, b.len()),
{
    lemma_same_members(a, b);
    let t = rename::decl_table(a, a.len());
    let u = rename::decl_table(b, b.len());
    assert forall|x: Seq<char>| #[trigger] t.contains_key(x) == u.contains_key(x) && (t.contains_key(
        x,
    ) ==> t[x] == u[x]) by {
        if t.contains_key(x) {
            lemma_table_within(a, b, x);
        }
        if u.contains_key(x) {
            lemma_table_within(b, a, x);
        }
    }
    assert(t =~= u);
}

/// The hooks of a list are followed.
pub open spec fn hooks_entered(t: DeclTableV, c: NamesV, hs: Seq<DeclV>, n: nat) -> NamesV
    decreases n,
{
    if n == 0 {
        c
    } else {
        let before = hooks_entered(t, c, hs, (n - 1) as nat);
        match hs[n - 1] {
            DeclV::Sub { name, body, .. } if !before.visited.contains(name) => rename::entered(
                t,
                before,
                name,
                body,
            ),
            _ => before,
        }
    }
}

proof fn lemma_hooks_prefix(t: DeclTableV, c: NamesV, a: Seq<DeclV>, b: Seq<DeclV>, n: nat)
    requires
        n <= a.len(),
        n <= b.len(),
        forall|i: int| 0 <= i < n ==> a[i] == b[i],
    ensures
        hooks_entered(t, c, a, n) == hooks_entered(t, c, b, n),
    decreases n,
{
    if n > 0 {
        lemma_hooks_prefix(t, c, a, b, (n - 1) as nat);
    }
}

pub(crate) proof fn lemma_others_are_hooks(t: DeclTableV, c: NamesV, ds: Seq<DeclV>, n: nat)
    requires
        n <= ds.len(),
    ensures
        rename::others_entered(t, c, ds, n) == hooks_entered(
            t,
            c,
            other_hooks(ds, n),
            other_hooks(ds, n).len(),
        ),
    decreases n,
{
    if n > 0 {
        lemma_others_are_hooks(t, c, ds, (n - 1) as nat);
        let before = other_hooks(ds, (n - 1) as nat);
        if is_other_hook(ds[n - 1]) {
            lemma_hooks_prefix(t, c, before, before.push(ds[n - 1]), before.len());
        }
    }
}

proof fn lemma_dead_members(
    t: DeclTableV,
    c: NamesV,
    k: Kind,
    ds: Seq<DeclV>,
    n: nat,
    x: (order::KeyV, Seq<char>),
)
    requires
        n <= ds.len(),
    ensures
        rename::dead_first(t, c, k, ds, n).contains(x) == exists|i: int|
            0 <= i < n && rename::unused(c, k, #[trigger] ds[i]) && x == (
                rename::dead_key(t, c, ds[i]),
                ast::decl_name(ds[i]),
            ),
    decreases n,
{
    let f = rename::dead_first(t, c, k, ds, n);
    if n > 0 {
        lemma_dead_members(t, c, k, ds, (n - 1) as nat, x);
        let before = rename::dead_first(t, c, k, ds, (n - 1) as nat);
        let d = ds[n - 1];
        let y = (rename::dead_key(t, c, d), ast::decl_name(d));
        if rename::unused(c, k, d) {
            assert(f == before.push(y));
            assert(f[before.len() as int] == y);
            if before.contains(x) {
                let j = choose|j: int| 0 <= j < before.len() && before[j] == x;
                assert(f[j] == x);
            }
            if f.contains(x) && x != y {
                let j = choose|j: int| 0 <= j < f.len() && f[j] == x;
                assert(before[j] == x);
            }
        }
        if exists|i: int|
            0 <= i < n - 1 && rename::unused(c, k, #[trigger] ds[i]) && x == (
                rename::dead_key(t, c, ds[i]),
                ast::decl_name(ds[i]),
            ) {
            let i = choose|i: int|
                0 <= i < n - 1 && rename::unused(c, k, #[trigger] ds[i]) && x == (
                    rename::dead_key(t, c, ds[i]),
                    ast::decl_name(ds[i]),
                );
            assert(rename::unused(c, k, ds[i]));
        }
    }
}

proof fn lemma_dead_distinct(t: DeclTableV, c: NamesV, k: Kind, ds: Seq<DeclV>, n: nat)
    requires
        distinct_names(ds),
        no_ties(t, c, k, ds),
        n <= ds.len(),
    ensures
        order::keys(rename::dead_first(t, c, k, ds, n)).no_duplicates(),
    decreases n,
{
    if n > 0 {
        lemma_dead_distinct(t, c, k, ds, (n - 1) as nat);
        let before = rename::dead_first(t, c, k, ds, (n - 1) as nat);
        let f = rename::dead_first(t, c, k, ds, n);
        let d = ds[n - 1];
        if rename::unused(c, k, d) {
            let key = rename::dead_key(t, c, d);
            assert forall|j: int| 0 <= j < before.len() implies (#[trigger] before[j]).0 != key by {
                let x = before[j];
                assert(before.contains(x));
                lemma_dead_members(t, c, k, ds, (n - 1) as nat, x);
                let i = choose|i: int|
                    0 <= i < n - 1 && rename::unused(c, k, #[trigger] ds[i]) && x == (
                        rename::dead_key(t, c, ds[i]),
                        ast::decl_name(ds[i]),
                    );
                assert(rename::unused(c, k, ds[i]) && rename::unused(c, k, ds[n - 1]));
                assert(ast::decl_name(ds[i]) != ast::decl_name(ds[n - 1]));
            }
            let ks = order::keys(f);
            let kb = order::keys(before);
            assert forall|i: int, j: int| 0 <= i < ks.len() && 0 <= j < ks.len() && i != j implies ks[i]
                != ks[j] by {
                assert(i < before.len() ==> ks[i] == kb[i]);
                assert(j < before.len() ==> ks[j] == kb[j]);
                if i < before.len() {
                    assert(before[i].0 != key);
                }
                if j < before.len() {
                    assert(before[j].0 != key);
                }
            }
        }
    }
}

proof fn lemma_same_multiset(a: Seq<order::KeyV>, b: Seq<order::KeyV>)
    requires
        a.no_duplicates(),
        b.no_duplicates(),
        forall|x: order::KeyV| #[trigger] a.contains(x) == b.contains(x),
    ensures
        a.to_multiset() == b.to_multiset(),
{
    broadcast use {vstd::seq_lib::group_to_multiset_ensures, vstd::multiset::group_multiset_axioms};

    a.lemma_multiset_has_no_duplicates();
    b.lemma_multiset_has_no_duplicates();
    assert forall|x: order::KeyV| #[trigger] a.to_multiset().count(x) == b.to_multiset().count(
        x,
    ) by {
        assert(a.contains(x) <==> a.to_multiset().count(x) > 0);
        assert(b.contains(x) <==> b.to_multiset().count(x) > 0);
        if a.contains(x) {
            assert(a.to_multiset().contains(x));
            assert(b.to_multiset().contains(x));
        }
    }
    assert(a.to_multiset() =~= b.to_multiset());
}

proof fn lemma_key_members(
    t: DeclTableV,
    c: NamesV,
    k: Kind,
    a: Seq<DeclV>,
    b: Seq<DeclV>,
    x: order::KeyV,
)
    requires
        forall|d: DeclV| #[trigger] a.contains(d) == b.contains(d),
        order::keys(rename::dead_first(t, c, k, a, a.len())).contains(x),
    ensures
        order::keys(rename::dead_first(t, c, k, b, b.len())).contains(x),
{
    let f = rename::dead_first(t, c, k, a, a.len());
    let g = rename::dead_first(t, c, k, b, b.len());
    let p = choose|p: int| 0 <= p < order::keys(f).len() && order::keys(f)[p] == x;
    let y = f[p];
    assert(f.contains(y));
    lemma_dead_members(t, c, k, a, a.len(), y);
    let i = choose|i: int|
        0 <= i < a.len() && rename::unused(c, k, #[trigger] a[i]) && y == (
            rename::dead_key(t, c, a[i]),
            ast::decl_name(a[i]),
        );
    assert(a.contains(a[i]));
    let j = choose|j: int| 0 <= j < b.len() && b[j] == a[i];
    assert(rename::unused(c, k, b[j]));
    lemma_dead_members(t, c, k, b, b.len(), y);
    let q = choose|q: int| 0 <= q < g.len() && g[q] == y;
    assert(order::keys(g)[q] == x);
}

proof fn lemma_sorted_member(
    t: DeclTableV,
    c: NamesV,
    k: Kind,
    ds: Seq<DeclV>,
    p: int,
) -> (i: int)
    requires
        0 <= p < order::sorted(rename::dead_first(t, c, k, ds, ds.len())).len(),
    ensures
        0 <= i < ds.len(),
        rename::unused(c, k, ds[i]),
        order::sorted(rename::dead_first(t, c, k, ds, ds.len()))[p] == (
            rename::dead_key(t, c, ds[i]),
            ast::decl_name(ds[i]),
        ),
{
    broadcast use {vstd::seq_lib::group_to_multiset_ensures, vstd::multiset::group_multiset_axioms};

    let f = rename::dead_first(t, c, k, ds, ds.len());
    let s = order::sorted(f);
    order::law_sorted_keeps_the_items(f);
    assert(s.contains(s[p]));
    assert(s.to_multiset().count(s[p]) > 0);
    assert(f.contains(s[p]));
    lemma_dead_members(t, c, k, ds, ds.len(), s[p]);
    choose|i: int|
        0 <= i < ds.len() && rename::unused(c, k, #[trigger] ds[i]) && s[p] == (
            rename::dead_key(t, c, ds[i]),
            ast::decl_name(ds[i]),
        )
}

proof fn lemma_same_dead(t: DeclTableV, c: NamesV, k: Kind, a: Seq<DeclV>, b: Seq<DeclV>)
    requires
        distinct_names(a),
        distinct_names(b),
        a.to_multiset() == b.to_multiset(),
        no_ties(t, c, k, a),
    ensures
        rename::dead_given(t, c, k, a) == rename::dead_given(t, c, k, b),
{
    lemma_same_members(a, b);
    assert forall|i: int, j: int|
        0 <= i < b.len() && 0 <= j < b.len() && rename::unused(c, k, #[trigger] b[i])
            && rename::unused(c, k, #[trigger] b[j]) && rename::dead_key(t, c, b[i])
            == rename::dead_key(t, c, b[j]) implies ast::decl_name(b[i]) == ast::decl_name(
        b[j],
    ) by {
        assert(b.contains(b[i]) && b.contains(b[j]));
        assert(a.contains(b[i]) && a.contains(b[j]));
        let p = choose|p: int| 0 <= p < a.len() && a[p] == b[i];
        let q = choose|q: int| 0 <= q < a.len() && a[q] == b[j];
        assert(rename::unused(c, k, a[p]) && rename::unused(c, k, a[q]));
    }
    let f = rename::dead_first(t, c, k, a, a.len());
    let g = rename::dead_first(t, c, k, b, b.len());
    lemma_dead_distinct(t, c, k, a, a.len());
    lemma_dead_distinct(t, c, k, b, b.len());
    assert forall|x: order::KeyV| #[trigger] order::keys(f).contains(x) == order::keys(g).contains(
        x,
    ) by {
        if order::keys(f).contains(x) {
            lemma_key_members(t, c, k, a, b, x);
        }
        if order::keys(g).contains(x) {
            lemma_key_members(t, c, k, b, a, x);
        }
    }
    lemma_same_multiset(order::keys(f), order::keys(g));
    order::law_order_does_not_matter(f, g);
    let s = order::sorted(f);
    let r = order::sorted(g);
    assert(order::keys(s).len() == s.len());
    assert(order::keys(r).len() == r.len());
    assert forall|p: int| 0 <= p < s.len() implies s[p] == #[trigger] r[p] by {
        let i = lemma_sorted_member(t, c, k, a, p);
        let j = lemma_sorted_member(t, c, k, b, p);
        assert(order::keys(s)[p] == s[p].0);
        assert(order::keys(r)[p] == r[p].0);
        assert(b.contains(b[j]));
        assert(a.contains(b[j]));
        let q = choose|q: int| 0 <= q < a.len() && a[q] == b[j];
        assert(rename::unused(c, k, a[i]) && rename::unused(c, k, a[q]));
    }
    assert(s =~= r);
}

pub(crate) proof fn lemma_same_default(t: DeclTableV, c: NamesV, a: Seq<DeclV>, b: Seq<DeclV>)
    requires
        a.to_multiset() == b.to_multiset(),
    ensures
        rename::default_given(t, c, a) == rename::default_given(t, c, b),
{
    lemma_same_members(a, b);
    if rename::has_default(a, a.len()) {
        let i = choose|i: int| 0 <= i < a.len() && rename::is_default(#[trigger] a[i]);
        assert(a.contains(a[i]));
        let j = choose|j: int| 0 <= j < b.len() && b[j] == a[i];
        assert(rename::is_default(b[j]));
    }
    if rename::has_default(b, b.len()) {
        let i = choose|i: int| 0 <= i < b.len() && rename::is_default(#[trigger] b[i]);
        assert(b.contains(b[i]));
        assert(a.contains(b[i]));
        let j = choose|j: int| 0 <= j < a.len() && a[j] == b[i];
        assert(rename::is_default(a[j]));
    }
}

/// The order of the declarations does not matter to their names: however they
/// stand, they get the same canonical names. The hooks outside the fixed order
/// are followed in the order in which they stand, so they keep theirs.
pub proof fn law_order_does_not_matter_to_names(a: Seq<DeclV>, b: Seq<DeclV>)
    requires
        a.to_multiset() == b.to_multiset(),
        other_hooks(a, a.len()) == other_hooks(b, b.len()),
        untied(a),
    ensures
        rename::all_names(a) == rename::all_names(b),
        rename::decl_table(a, a.len()) == rename::decl_table(b, b.len()),
{
    lemma_distinct_reordered(a, b);
    lemma_same_table(a, b);
    let t = rename::decl_table(a, a.len());
    let c = rename::known_entered(t, rename::no_names(), ast::builtin_subs().len());
    lemma_others_are_hooks(t, c, a, a.len());
    lemma_others_are_hooks(t, c, b, b.len());
    let c0 = rename::names_used(t, a);
    lemma_same_dead(t, c0, Kind::Probe, a, b);
    let c1 = rename::dead_given(t, c0, Kind::Probe, a);
    lemma_same_default(t, c1, a, b);
    let c2 = rename::default_given(t, c1, a);
    lemma_same_dead(t, c2, Kind::Backend, a, b);
    let c3 = rename::dead_given(t, c2, Kind::Backend, a);
    lemma_same_dead(t, c3, Kind::Acl, a, b);
    let c4 = rename::dead_given(t, c3, Kind::Acl, a);
    lemma_same_dead(t, c4, Kind::Sub, a, b);
}

/// Whether declarations whose kind and canonical text are the same have the
/// same canonical form.
pub open spec fn texts_tell(ds: Seq<DeclV>) -> bool {
    forall|i: int, j: int|
        0 <= i < ds.len() && 0 <= j < ds.len() && sort::sort_key(#[trigger] ds[i])
            == sort::sort_key(#[trigger] ds[j]) ==> canon::decl_json(ds[i]) == canon::decl_json(
            ds[j],
        )
}

pub(crate) proof fn lemma_mapped_multiset<A, B>(a: Seq<A>, b: Seq<A>, f: spec_fn(A) -> B)
    requires
        a.to_multiset() == b.to_multiset(),
    ensures
        Seq::new(a.len(), |i: int| f(a[i])).to_multiset() == Seq::new(
            b.len(),
            |i: int| f(b[i]),
        ).to_multiset(),
    decreases a.len(),
{
    broadcast use {vstd::seq_lib::group_to_multiset_ensures, vstd::multiset::group_multiset_axioms};

    lemma_same_members(a, b);
    let fa = Seq::new(a.len(), |i: int| f(a[i]));
    let fb = Seq::new(b.len(), |i: int| f(b[i]));
    if a.len() == 0 {
        assert(fa =~= fb);
    } else {
        let x = a.last();
        assert(a.contains(x));
        assert(b.contains(x));
        let j = choose|j: int| 0 <= j < b.len() && b[j] == x;
        let a1 = a.drop_last();
        let b1 = b.remove(j);
        assert(a =~= a1.push(x));
        assert(a1.to_multiset() =~= a.to_multiset().remove(x));
        assert(b1.to_multiset() =~= b.to_multiset().remove(x));
        lemma_mapped_multiset(a1, b1, f);
        let fa1 = Seq::new(a1.len(), |i: int| f(a1[i]));
        let fb1 = Seq::new(b1.len(), |i: int| f(b1[i]));
        assert(fa =~= fa1.push(f(x)));
        assert(fb1 =~= fb.remove(j));
        assert(fb[j] == f(x));
        assert(fb.contains(f(x)));
        assert(fb.to_multiset() =~= fb1.to_multiset().insert(f(x)));
    }
}

proof fn lemma_sorted_decl_member(ds: Seq<DeclV>, p: int)
    requires
        0 <= p < sort::sorted_decls(ds).len(),
    ensures
        ds.contains(sort::sorted_decls(ds)[p]),
{
    sort::law_decls_are_kept(ds);
    lemma_same_members(sort::sorted_decls(ds), ds);
    assert(sort::sorted_decls(ds).contains(sort::sorted_decls(ds)[p]));
}

pub(crate) proof fn lemma_same_sorted_json(a: Seq<DeclV>, b: Seq<DeclV>)
    requires
        a.to_multiset() == b.to_multiset(),
        texts_tell(a),
    ensures
        canon::decls_json(sort::sorted_decls(a)) == canon::decls_json(sort::sorted_decls(b)),
{
    lemma_same_members(a, b);
    lemma_mapped_multiset(a, b, |d: DeclV| sort::sort_key(d));
    let f = |d: DeclV| sort::sort_key(d);
    assert(sort::sort_keys(a) =~= Seq::new(a.len(), |i: int| f(a[i])));
    assert(sort::sort_keys(b) =~= Seq::new(b.len(), |i: int| f(b[i])));
    sort::law_written_order_does_not_show(a, b);
    let x = sort::sorted_decls(a);
    let y = sort::sorted_decls(b);
    assert(sort::sort_keys(x).len() == sort::sort_keys(y).len());
    assert forall|p: int| 0 <= p < x.len() implies canon::decl_json(#[trigger] x[p])
        == canon::decl_json(y[p]) by {
        lemma_sorted_decl_member(a, p);
        lemma_sorted_decl_member(b, p);
        assert(sort::sort_keys(x)[p] == sort::sort_key(x[p]));
        assert(sort::sort_keys(y)[p] == sort::sort_key(y[p]));
        assert(a.contains(y[p]));
        let i = choose|i: int| 0 <= i < a.len() && a[i] == x[p];
        let j = choose|j: int| 0 <= j < a.len() && a[j] == y[p];
        assert(sort::sort_key(a[i]) == sort::sort_key(a[j]));
    }
    assert(canon::decls_json(x) == canon::decls_json(y)) by {
        assert(Seq::new(x.len(), |i: int| canon::decl_json(x[i])) =~= Seq::new(
            y.len(),
            |i: int| canon::decl_json(y[i]),
        ));
    }
}

} // verus!
