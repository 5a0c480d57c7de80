//! What the passes before the renaming leave can be written where the program
//! can, and no call is changed where no vmod is described.

use crate::ast;
use crate::ast::{ArgV, ArmV, DeclV, ErrV, ExprV, ProgramV, Span, StmtV};
use crate::decimal;
use crate::layout::whole;
use crate::lexer;
use crate::normalize;
use crate::normalize::fixpoint;
use crate::normalize::literals;
use crate::normalize::once;
use crate::normalize::probes;
use crate::normalize::spelling;
use crate::normalize::vmod_args;
use crate::normalize::vmod_args::KnownV;
use crate::parser;
use crate::readback;
use crate::readback::described;
use crate::readback::fixpoint as printing;
use crate::readback::lifted;
use crate::readback::source;
use crate::readback::writable;
use crate::symbols;
use crate::text;
use crate::vmod::VmodSpec;
use vstd::prelude::*;

verus! {

// ───────────────────────── literals ─────────────────────────

proof fn lemma_lower_name(s: Seq<char>)
    requires
        readback::is_name(s),
    ensures
        readback::is_name(text::lowercase(s)),
{
    let t = text::lowercase(s);
    assert forall|i: int| 0 <= i < s.len() implies (#[trigger] s[i]) < '\u{80}' by {
        assert(readback::in_name(s[i]));
    }
    assert(text::is_ascii_text(s));
    assert forall|i: int| 0 <= i < t.len() implies readback::in_name(#[trigger] t[i]) && (
    readback::starts_name(s[i]) ==> readback::starts_name(t[i])) by {
        let c = s[i];
        assert(readback::in_name(c));
        assert(t[i] == text::ascii_lower(c));
        if 'A' <= c <= 'Z' {
            assert(t[i] as nat == c as nat + 32);
        }
    }
    assert(readback::starts_name(t[0]));
}

proof fn lemma_first_http(parts: Seq<Seq<char>>, i: nat)
    ensures
        literals::http_index(parts, i) matches Some(j) ==> i <= j && j + 1 < parts.len(),
    decreases parts.len() - i,
{
    if i + 1 < parts.len() {
        lemma_first_http(parts, i + 1);
    }
}

proof fn lemma_lit_path(parts: Seq<Seq<char>>)
    requires
        readback::is_dotted(parts),
    ensures
        readback::is_dotted(literals::lower_header(parts)),
        literals::lower_header(parts)[0] == parts[0],
{
    lemma_first_http(parts, 0);
    match literals::http_index(parts, 0) {
        Some(i) => {
            assert(readback::is_name(parts[i as int + 1]));
            lemma_lower_name(parts[i as int + 1]);
        },
        None => {},
    }
}

proof fn lemma_lit_number(n: Seq<char>)
    requires
        decimal::decimal_value(n) is Some,
    ensures
        decimal::decimal_value(literals::plain_number(n)) is Some,
{
    spelling::lemma_decimal_lowest(n);
    spelling::law_numbers_are_read_back(decimal::decimal_value(n)->0);
}

pub(crate) proof fn lemma_lit_expr(e: ExprV)
    requires
        readback::can_expr(e),
    ensures
        readback::can_expr(literals::lit_expr(e)),
    decreases e, 0nat,
{
    match e {
        ExprV::Num(n) => lemma_lit_number(n),
        ExprV::Var(parts) => lemma_lit_path(parts),
        ExprV::Call { target, args } => {
            lemma_lit_path(target);
            lemma_lit_args(args);
        },
        ExprV::Unary { expr, .. } => lemma_lit_expr(*expr),
        ExprV::Binary { lhs, rhs, .. } => {
            lemma_lit_expr(*lhs);
            lemma_lit_expr(*rhs);
        },
        _ => {},
    }
}

proof fn lemma_lit_args(s: Seq<ArgV>)
    requires
        readback::can_args(s),
    ensures
        readback::can_args(literals::lit_args(s)),
    decreases s, 0nat,
{
    let r = literals::lit_args(s);
    assert forall|i: int| 0 <= i < r.len() implies readback::can_arg(#[trigger] r[i]) by {
        assert(readback::can_arg(s[i]));
        lemma_lit_expr(s[i].value);
        assert(r[i] == literals::lit_arg(s[i]));
    }
}

proof fn lemma_lit_stmt(s: StmtV)
    requires
        readback::can_stmt(s),
    ensures
        readback::can_stmt(literals::lit_stmt(s)),
        readback::open_if(literals::lit_stmt(s)) == readback::open_if(s),
        readback::goes_on_if(literals::lit_stmt(s)) == readback::goes_on_if(s),
    decreases s, 0nat,
{
    match s {
        StmtV::Assign { rhs, .. } => lemma_lit_expr(rhs),
        StmtV::Return { action, .. } => match action {
            Some(a) => {
                let r = literals::lit_exprs(a.args);
                assert forall|i: int| 0 <= i < r.len() implies readback::can_expr(
                    #[trigger] r[i],
                ) by {
                    assert(readback::can_expr(a.args[i]));
                    lemma_lit_expr(a.args[i]);
                }
                assert(readback::can_exprs(r));
            },
            None => {},
        },
        StmtV::Synthetic { value, .. } => lemma_lit_expr(value),
        StmtV::If { arms, else_body, .. } => {
            lemma_lit_arms(arms);
            match else_body {
                Some(b) => lemma_lit_stmts(b),
                None => {},
            }
        },
        StmtV::New { args, .. } => lemma_lit_args(args),
        StmtV::Expr { expr, .. } => match expr {
            ExprV::Call { target, args } => {
                lemma_lit_path(target);
                lemma_lit_args(args);
            },
            _ => {},
        },
        _ => {},
    }
}

pub(crate) proof fn lemma_lit_stmts(s: Seq<StmtV>)
    requires
        readback::can_stmts(s),
    ensures
        readback::can_stmts(literals::lit_stmts(s)),
    decreases s, 0nat,
{
    let r = literals::lit_stmts(s);
    assert forall|i: int| 0 <= i < r.len() implies readback::can_stmt(#[trigger] r[i])
        && readback::open_if(r[i]) == readback::open_if(s[i]) && readback::goes_on_if(r[i])
        == readback::goes_on_if(s[i]) by {
        lemma_lit_stmt(s[i]);
        assert(r[i] == literals::lit_stmt(s[i]));
    }
    assert forall|i: int| 0 < i < r.len() implies #[trigger] readback::ended_before(r, i) by {
        assert(readback::ended_before(s, i));
        assert(readback::can_stmt(r[i - 1]) && readback::can_stmt(r[i]));
    }
}

proof fn lemma_lit_arms(s: Seq<ArmV>)
    requires
        readback::can_arms(s),
    ensures
        readback::can_arms(literals::lit_arms(s)),
    decreases s, 0nat,
{
    let r = literals::lit_arms(s);
    assert forall|i: int| 0 <= i < r.len() implies readback::can_arm(#[trigger] r[i]) by {
        assert(readback::can_arm(s[i]));
        lemma_lit_expr(s[i].cond);
        lemma_lit_stmts(s[i].body);
        assert(r[i] == literals::lit_arm(s[i]));
    }
}

// ───────────────────────── no descriptions ─────────────────────────

proof fn lemma_pass_expr(e: ExprV, k: KnownV, span: Span)
    requires
        k.specs == Map::<Seq<char>, VmodSpec>::empty(),
    ensures
        vmod_args::pass_expr(e, k, span) == Ok::<ExprV, ErrV>(e),
    decreases e, 1nat, 0nat,
{
    match e {
        ExprV::Call { target, args } => {
            lemma_pass_args(e, args, k, span, args.len());
            assert(args.take(args.len() as int) =~= args);
        },
        ExprV::Unary { expr, .. } => lemma_pass_expr(*expr, k, span),
        ExprV::Binary { lhs, rhs, .. } => {
            lemma_pass_expr(*lhs, k, span);
            lemma_pass_expr(*rhs, k, span);
        },
        _ => {},
    }
}

proof fn lemma_pass_args(whole: ExprV, args: Seq<ArgV>, k: KnownV, span: Span, n: nat)
    requires
        k.specs == Map::<Seq<char>, VmodSpec>::empty(),
        n <= args.len(),
    ensures
        vmod_args::pass_args(whole, args, k, span, n) == Ok::<Seq<ArgV>, ErrV>(
            args.take(n as int),
        ),
    decreases whole, 0nat, n,
{
    if n == 0 {
        assert(args.take(0) =~= seq![]);
    } else {
        lemma_pass_args(whole, args, k, span, (n - 1) as nat);
        let a = args[n - 1];
        if decreases_to!(whole => a.value) {
            lemma_pass_expr(a.value, k, span);
        }
        assert(args.take(n - 1).push(a) =~= args.take(n as int));
    }
}

proof fn lemma_pass_exprs(es: Seq<ExprV>, k: KnownV, span: Span, n: nat)
    requires
        k.specs == Map::<Seq<char>, VmodSpec>::empty(),
        n <= es.len(),
    ensures
        vmod_args::pass_exprs(es, k, span, n) == Ok::<Seq<ExprV>, ErrV>(es.take(n as int)),
    decreases n,
{
    if n == 0 {
        assert(es.take(0) =~= seq![]);
    } else {
        lemma_pass_exprs(es, k, span, (n - 1) as nat);
        lemma_pass_expr(es[n - 1], k, span);
        assert(es.take(n - 1).push(es[n - 1]) =~= es.take(n as int));
    }
}

pub(crate) proof fn lemma_pass_stmt(s: StmtV, k: KnownV)
    requires
        k.specs == Map::<Seq<char>, VmodSpec>::empty(),
    ensures
        vmod_args::pass_stmt(s, k) == Ok::<StmtV, ErrV>(s),
    decreases s, 0nat,
{
    let sp = ast::stmt_span(s);
    match s {
        StmtV::Assign { rhs, .. } => lemma_pass_expr(rhs, k, sp),
        StmtV::Return { action, .. } => match action {
            Some(a) => {
                lemma_pass_exprs(a.args, k, sp, a.args.len());
                assert(a.args.take(a.args.len() as int) =~= a.args);
            },
            None => {},
        },
        StmtV::Synthetic { value, .. } => lemma_pass_expr(value, k, sp),
        StmtV::If { arms, else_body, .. } => {
            lemma_pass_arms(arms, k, sp, arms.len());
            assert(arms.take(arms.len() as int) =~= arms);
            match else_body {
                Some(b) => {
                    lemma_pass_stmts(b, k, b.len());
                    assert(b.take(b.len() as int) =~= b);
                },
                None => {},
            }
        },
        StmtV::New { vmod, ctor, args, .. } => {
            lemma_pass_args(vmod_args::ctor_call(vmod, ctor, args), args, k, sp, args.len());
            assert(args.take(args.len() as int) =~= args);
        },
        StmtV::Expr { expr, .. } => lemma_pass_expr(expr, k, sp),
        _ => {},
    }
}

proof fn lemma_pass_stmts(ss: Seq<StmtV>, k: KnownV, n: nat)
    requires
        k.specs == Map::<Seq<char>, VmodSpec>::empty(),
        n <= ss.len(),
    ensures
        vmod_args::pass_stmts(ss, k, n) == Ok::<Seq<StmtV>, ErrV>(ss.take(n as int)),
    decreases ss, n,
{
    if n == 0 {
        assert(ss.take(0) =~= seq![]);
    } else {
        lemma_pass_stmts(ss, k, (n - 1) as nat);
        lemma_pass_stmt(ss[n - 1], k);
        assert(ss.take(n - 1).push(ss[n - 1]) =~= ss.take(n as int));
    }
}

proof fn lemma_pass_arms(arms: Seq<ArmV>, k: KnownV, span: Span, n: nat)
    requires
        k.specs == Map::<Seq<char>, VmodSpec>::empty(),
        n <= arms.len(),
    ensures
        vmod_args::pass_arms(arms, k, span, n) == Ok::<Seq<ArmV>, ErrV>(arms.take(n as int)),
    decreases arms, n,
{
    if n == 0 {
        assert(arms.take(0) =~= seq![]);
    } else {
        lemma_pass_arms(arms, k, span, (n - 1) as nat);
        let a = arms[n - 1];
        lemma_pass_expr(a.cond, k, span);
        lemma_pass_stmts(a.body, k, a.body.len());
        assert(a.body.take(a.body.len() as int) =~= a.body);
        assert(arms.take(n - 1).push(a) =~= arms.take(n as int));
    }
}

proof fn lemma_pass_decls(ds: Seq<DeclV>, k: KnownV, n: nat)
    requires
        k.specs == Map::<Seq<char>, VmodSpec>::empty(),
        n <= ds.len(),
    ensures
        vmod_args::pass_decls(ds, k, n) == Ok::<Seq<DeclV>, ErrV>(ds.take(n as int)),
    decreases n,
{
    if n == 0 {
        assert(ds.take(0) =~= seq![]);
    } else {
        lemma_pass_decls(ds, k, (n - 1) as nat);
        match ds[n - 1] {
            DeclV::Sub { body, .. } => {
                lemma_pass_stmts(body, k, body.len());
                assert(body.take(body.len() as int) =~= body);
            },
            _ => {},
        }
        assert(ds.take(n - 1).push(ds[n - 1]) =~= ds.take(n as int));
    }
}

/// Where no vmod is described, the arguments of calls stay as they are, and no
/// program is refused.
pub proof fn law_calls_stay_without_descriptions(p: ProgramV)
    ensures
        vmod_args::pass_program(p, Map::empty()) == Ok::<ProgramV, ErrV>(p),
        normalize::prepared(p, Map::empty()) == Ok::<ProgramV, ErrV>(
            probes::lifted_program(literals::lit_program(p)),
        ),
        fixpoint::plain_specs(Map::empty()),
{
    let none = Map::<Seq<char>, VmodSpec>::empty();
    let l = literals::lit_program(p);
    let k = KnownV { specs: none, instances: vmod_args::instances_of(p.decls, p.decls.len()) };
    lemma_pass_decls(p.decls, k, p.decls.len());
    assert(p.decls.take(p.decls.len() as int) =~= p.decls);
    let m = KnownV { specs: none, instances: vmod_args::instances_of(l.decls, l.decls.len()) };
    lemma_pass_decls(l.decls, m, l.decls.len());
    assert(l.decls.take(l.decls.len() as int) =~= l.decls);
    assert forall|x: KnownV| x.specs == none implies #[trigger] once::plain_known(x) by {}
}

/// The subroutines of a source text can be written behind the passes before the
/// renaming where no vmod is described.
pub proof fn law_bodies_stay_writable(t: Seq<char>)
    requires
        source::plain_source(t),
    ensures
        parser::program_of(lexer::lex_alone(t)) matches Ok(p) ==> (normalize::prepared(
            p,
            Map::empty(),
        ) matches Ok(q) && printing::can_bodies(q.decls) && described::full_bodies(q.decls)),
{
    source::law_what_is_read_can_be_written(t);
    match parser::program_of(lexer::lex_alone(t)) {
        Ok(p) => {
            law_calls_stay_without_descriptions(p);
            let l = literals::lit_decls(p.decls);
            let q = probes::lifted_decls(l);
            probes::lemma_all_probes_are_probes(l, l.len());
            assert forall|i: int| 0 <= i < q.len() implies ((#[trigger] q[i]) matches DeclV::Sub {
                body,
                ..
            } ==> readback::can_stmts(body)) by {
                if i < l.len() {
                    assert(readback::can_decl(p.decls[i]));
                    match p.decls[i] {
                        DeclV::Sub { body, .. } => lemma_lit_stmts(body),
                        _ => {},
                    }
                }
            }
            assert forall|i: int| 0 <= i < q.len() implies ((#[trigger] q[i]) matches DeclV::Sub {
                body,
                ..
            } ==> described::full_stmts(body)) by {
                match q[i] {
                    DeclV::Sub { body, .. } => described::lemma_full_stmts(body),
                    _ => {},
                }
            }
        },
        Err(_) => {},
    }
}

/// Whether a valid program is printed, with no vmod described, as a valid program
/// in a settled order: the pieces of its subroutines meet as they should, and no
/// name that a lifted probe is printed under is in use.
pub open spec fn prints_alone(p: ProgramV) -> bool {
    let q = probes::lifted_program(literals::lit_program(p));
    &&& symbols::outcome(p, Map::empty()).error is None
    &&& writable::pieces_meet(p.decls)
    &&& symbols::outcome(printing::printed(q), Map::empty()).error is None
    &&& lifted::fresh_names(q)
    &&& printing::printed_in_order(q)
}

/// The canonical form of a source text that was printed, with no vmod described,
/// is the one that the text had.
pub proof fn law_printing_alone_is_a_fixpoint(t: Seq<char>)
    requires
        source::plain_source(t),
        parser::program_of(lexer::lex_alone(t)) matches Ok(p) && prints_alone(p),
    ensures
        ({
            let p = parser::program_of(lexer::lex_alone(t))->Ok_0;
            match (
                whole::form(Ok(p), Map::empty(), true),
                whole::form(
                    parser::program_of(lexer::lex_alone(printing::printed_text(p, Map::empty()))),
                    Map::empty(),
                    true,
                ),
            ) {
                (Ok((before, _)), Ok((after, _))) => before == after,
                _ => false,
            }
        }),
{
    law_calls_stay_without_descriptions(parser::program_of(lexer::lex_alone(t))->Ok_0);
    law_bodies_stay_writable(t);
    printing::law_printing_texts_is_a_fixpoint(t, Map::empty());
}

} // verus!
