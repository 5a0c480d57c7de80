//! What the passes make of a program they leave alone when they see it again.

use crate::ast;
use crate::ast::{
    ArgV, ArmV, DeclV, ErrV, ExprV, FieldV, FieldValueV, ProgramV, ReturnActionV, Span, StmtV,
};
use crate::normalize::literals;
use crate::normalize::objects;
use crate::normalize::spelling;
use crate::normalize::vmod_args;
use crate::normalize::vmod_args::{InstanceV, KnownV};
use crate::printer;
use crate::text;
use crate::vmod::ArgSpecV;
use vstd::prelude::*;

verus! {

// ───────────────────────── literals ─────────────────────────

/// Whether the parts of a path are ASCII texts.
pub open spec fn ascii_path(parts: Seq<Seq<char>>) -> bool {
    forall|i: int| 0 <= i < parts.len() ==> text::is_ascii_text(#[trigger] parts[i])
}

/// Whether the paths in an expression are ASCII texts.
pub open spec fn ascii_expr(e: ExprV) -> bool
    decreases e,
{
    match e {
        ExprV::Var(parts) => ascii_path(parts),
        ExprV::Call { target, args } => ascii_path(target) && ascii_args(args),
        ExprV::Unary { expr, .. } => ascii_expr(*expr),
        ExprV::Binary { lhs, rhs, .. } => ascii_expr(*lhs) && ascii_expr(*rhs),
        _ => true,
    }
}

/// Whether the paths in an argument are ASCII texts.
pub open spec fn ascii_arg(a: ArgV) -> bool
    decreases a,
{
    ascii_expr(a.value)
}

/// Whether the paths in arguments are ASCII texts.
pub open spec fn ascii_args(s: Seq<ArgV>) -> bool
    decreases s,
{
    forall|i: int| 0 <= i < s.len() ==> ascii_arg(#[trigger] s[i])
}

/// Whether the paths in expressions are ASCII texts.
pub open spec fn ascii_exprs(s: Seq<ExprV>) -> bool {
    forall|i: int| 0 <= i < s.len() ==> ascii_expr(#[trigger] s[i])
}

/// Whether the paths in a statement are ASCII texts.
pub open spec fn ascii_stmt(s: StmtV) -> bool
    decreases s,
{
    match s {
        StmtV::Assign { rhs, .. } => ascii_expr(rhs),
        StmtV::Unset { .. } => true,
        StmtV::Call { .. } => true,
        StmtV::Return { action, .. } => match action {
            Some(a) => ascii_exprs(a.args),
            None => true,
        },
        StmtV::Synthetic { value, .. } => ascii_expr(value),
        StmtV::If { arms, else_body, .. } => ascii_arms(arms) && match else_body {
            Some(b) => ascii_stmts(b),
            None => true,
        },
        StmtV::New { args, .. } => ascii_args(args),
        StmtV::Expr { expr, .. } => ascii_expr(expr),
    }
}

/// Whether the paths in statements are ASCII texts.
pub open spec fn ascii_stmts(s: Seq<StmtV>) -> bool
    decreases s,
{
    forall|i: int| 0 <= i < s.len() ==> ascii_stmt(#[trigger] s[i])
}

/// Whether the paths in an arm are ASCII texts.
pub open spec fn ascii_arm(a: ArmV) -> bool
    decreases a,
{
    ascii_expr(a.cond) && ascii_stmts(a.body)
}

/// Whether the paths in arms are ASCII texts.
pub open spec fn ascii_arms(s: Seq<ArmV>) -> bool
    decreases s,
{
    forall|i: int| 0 <= i < s.len() ==> ascii_arm(#[trigger] s[i])
}

/// Whether the paths in the value of a field are ASCII texts.
pub open spec fn ascii_value(v: FieldValueV) -> bool
    decreases v,
{
    match v {
        FieldValueV::Expr(e) => ascii_expr(e),
        FieldValueV::Probe(fs) => ascii_fields(fs),
        _ => true,
    }
}

/// Whether the paths in a field are ASCII texts.
pub open spec fn ascii_field(f: FieldV) -> bool
    decreases f,
{
    ascii_value(f.value)
}

/// Whether the paths in fields are ASCII texts.
pub open spec fn ascii_fields(s: Seq<FieldV>) -> bool
    decreases s,
{
    forall|i: int| 0 <= i < s.len() ==> ascii_field(#[trigger] s[i])
}

/// Whether the paths in a declaration are ASCII texts.
pub open spec fn ascii_decl(d: DeclV) -> bool {
    match d {
        DeclV::Import { .. } => true,
        DeclV::Backend { body, .. } => match body {
            Some(fs) => ascii_fields(fs),
            None => true,
        },
        DeclV::Probe { body, .. } => ascii_fields(body),
        DeclV::Acl { .. } => true,
        DeclV::Sub { body, .. } => ascii_stmts(body),
    }
}

/// Whether the paths in declarations are ASCII texts.
pub open spec fn ascii_decls(ds: Seq<DeclV>) -> bool {
    forall|i: int| 0 <= i < ds.len() ==> ascii_decl(#[trigger] ds[i])
}

proof fn lemma_http_index(parts: Seq<Seq<char>>, i: nat, x: Seq<char>)
    requires
        literals::http_index(parts, i) is Some,
    ensures
        ({
            let j = literals::http_index(parts, i)->0;
            &&& i <= j && j + 1 < parts.len()
            &&& literals::http_index(parts.update(j as int + 1, x), i) == Some(j)
        }),
    decreases parts.len() - i,
{
    let j = literals::http_index(parts, i)->0;
    if i + 1 < parts.len() && parts[i as int] != "http"@ {
        lemma_http_index(parts, i + 1, x);
    }
}

proof fn lemma_lower_header(parts: Seq<Seq<char>>)
    requires
        ascii_path(parts),
    ensures
        literals::lower_header(literals::lower_header(parts)) == literals::lower_header(parts),
{
    match literals::http_index(parts, 0) {
        Some(i) => {
            let x = text::lowercase(parts[i as int + 1]);
            lemma_http_index(parts, 0, x);
            let r = parts.update(i as int + 1, x);
            text::law_lower_case_is_lower_case(parts[i as int + 1]);
            assert(text::lowercase(x) == x);
            assert(r.update(i as int + 1, x) =~= r);
        },
        None => {},
    }
}

proof fn lemma_lit_expr(e: ExprV)
    requires
        ascii_expr(e),
    ensures
        literals::lit_expr(literals::lit_expr(e)) == literals::lit_expr(e),
    decreases e,
{
    match e {
        ExprV::Num(n) => spelling::law_numbers_are_done_once(n),
        ExprV::Var(parts) => lemma_lower_header(parts),
        ExprV::Call { target, args } => {
            lemma_lower_header(target);
            lemma_lit_args(args);
        },
        ExprV::Unary { expr, .. } => lemma_lit_expr(*expr),
        ExprV::Binary { lhs, rhs, .. } => {
            lemma_lit_expr(*lhs);
            lemma_lit_expr(*rhs);
        },
        _ => {},
    }
}

proof fn lemma_lit_args(args: Seq<ArgV>)
    requires
        ascii_args(args),
    ensures
        literals::lit_args(literals::lit_args(args)) == literals::lit_args(args),
    decreases args,
{
    let r = literals::lit_args(args);
    assert forall|i: int| 0 <= i < args.len() implies literals::lit_arg(#[trigger] r[i]) == r[i] by {
        assert(ascii_arg(args[i]));
        lemma_lit_expr(args[i].value);
    }
    assert(literals::lit_args(r) =~= r);
}

proof fn lemma_lit_exprs(es: Seq<ExprV>)
    requires
        ascii_exprs(es),
    ensures
        literals::lit_exprs(literals::lit_exprs(es)) == literals::lit_exprs(es),
{
    let r = literals::lit_exprs(es);
    assert forall|i: int| 0 <= i < es.len() implies literals::lit_expr(#[trigger] r[i]) == r[i] by {
        lemma_lit_expr(es[i]);
    }
    assert(literals::lit_exprs(r) =~= r);
}

proof fn lemma_lit_stmt(s: StmtV)
    requires
        ascii_stmt(s),
    ensures
        literals::lit_stmt(literals::lit_stmt(s)) == literals::lit_stmt(s),
    decreases s,
{
    match s {
        StmtV::Assign { rhs, .. } => lemma_lit_expr(rhs),
        StmtV::Return { action, .. } => match action {
            Some(a) => lemma_lit_exprs(a.args),
            None => {},
        },
        StmtV::Synthetic { value, .. } => lemma_lit_expr(value),
        StmtV::If { arms, else_body, .. } => {
            lemma_lit_arms(arms);
            match else_body {
                Some(b) => lemma_lit_stmts(b),
                None => {},
            }
        },
        StmtV::New { args, .. } => lemma_lit_args(args),
        StmtV::Expr { expr, .. } => lemma_lit_expr(expr),
        _ => {},
    }
}

proof fn lemma_lit_stmts(s: Seq<StmtV>)
    requires
        ascii_stmts(s),
    ensures
        literals::lit_stmts(literals::lit_stmts(s)) == literals::lit_stmts(s),
    decreases s,
{
    let r = literals::lit_stmts(s);
    assert forall|i: int| 0 <= i < s.len() implies literals::lit_stmt(#[trigger] r[i]) == r[i] by {
        lemma_lit_stmt(s[i]);
    }
    assert(literals::lit_stmts(r) =~= r);
}

proof fn lemma_lit_arms(s: Seq<ArmV>)
    requires
        ascii_arms(s),
    ensures
        literals::lit_arms(literals::lit_arms(s)) == literals::lit_arms(s),
    decreases s,
{
    let r = literals::lit_arms(s);
    assert forall|i: int| 0 <= i < s.len() implies literals::lit_arm(#[trigger] r[i]) == r[i] by {
        assert(ascii_arm(s[i]));
        lemma_lit_expr(s[i].cond);
        lemma_lit_stmts(s[i].body);
    }
    assert(literals::lit_arms(r) =~= r);
}

proof fn lemma_lit_fields(s: Seq<FieldV>)
    requires
        ascii_fields(s),
    ensures
        literals::lit_fields(literals::lit_fields(s)) == literals::lit_fields(s),
    decreases s,
{
    let r = literals::lit_fields(s);
    assert forall|i: int| 0 <= i < s.len() implies literals::lit_field(#[trigger] r[i]) == r[i] by {
        assert(ascii_field(s[i]) && ascii_value(s[i].value));
        match s[i].value {
            FieldValueV::Expr(e) => lemma_lit_expr(e),
            FieldValueV::Probe(fs) => lemma_lit_fields(fs),
            _ => {},
        }
    }
    assert(literals::lit_fields(r) =~= r);
}

pub(crate) proof fn lemma_lit_decl(d: DeclV)
    requires
        ascii_decl(d),
    ensures
        literals::lit_decl(literals::lit_decl(d)) == literals::lit_decl(d),
{
    match d {
        DeclV::Backend { body, .. } => match body {
            Some(fs) => lemma_lit_fields(fs),
            None => {},
        },
        DeclV::Probe { body, .. } => lemma_lit_fields(body),
        DeclV::Acl { entries, .. } => {
            let r = literals::lit_entries(entries);
            assert(literals::lit_entries(r) =~= r);
        },
        DeclV::Sub { body, .. } => lemma_lit_stmts(body),
        _ => {},
    }
}

/// Literals in their canonical form stay as they are.
pub proof fn law_literals_are_done_once(p: ProgramV)
    requires
        ascii_decls(p.decls),
    ensures
        literals::lit_program(literals::lit_program(p)) == literals::lit_program(p),
{
    let r = literals::lit_decls(p.decls);
    assert forall|i: int| 0 <= i < r.len() implies literals::lit_decl(#[trigger] r[i]) == r[i] by {
        lemma_lit_decl(p.decls[i]);
    }
    assert(literals::lit_decls(r) =~= r);
}

// ───────────────────────── one call ─────────────────────────

/// Whether an expression holds a call.
pub open spec fn holds_call(e: ExprV) -> bool
    decreases e,
{
    match e {
        ExprV::Call { .. } => true,
        ExprV::Unary { expr, .. } => holds_call(*expr),
        ExprV::Binary { lhs, rhs, .. } => holds_call(*lhs) || holds_call(*rhs),
        _ => false,
    }
}

/// Whether no default of a signature is the text of a call.
pub open spec fn plain_sig(sig: Seq<ArgSpecV>) -> bool {
    forall|i: int, e: ExprV|
        0 <= i < sig.len() && holds_call(e) ==> (#[trigger] sig[i]).default != Some(
            #[trigger] printer::expr_text(e),
        )
}

/// Whether no default is the text of a call.
pub open spec fn plain_known(k: KnownV) -> bool {
    &&& forall|target: Seq<Seq<char>>|
        (#[trigger] vmod_args::call_sig(k, target)) matches Some(s) ==> plain_sig(s)
    &&& forall|vmod: Seq<char>, ctor: Seq<char>|
        (#[trigger] vmod_args::ctor_sig(k, vmod, ctor)) matches Some(s) ==> plain_sig(s)
}

/// The slots of the first `n` arguments, put in from left to right.
spec fn slots_upto(args: Seq<ArgV>, sig: Seq<ArgSpecV>, n: nat) -> Seq<Option<ArgV>> {
    Seq::new(
        sig.len(),
        |i: int|
            if i < n {
                Some(args[i])
            } else {
                None
            },
    )
}

proof fn lemma_positional(args: Seq<ArgV>, sig: Seq<ArgSpecV>, y: Span, i: nat)
    requires
        i <= args.len() <= sig.len(),
        forall|j: int| 0 <= j < args.len() ==> (#[trigger] args[j]).name is None,
    ensures
        vmod_args::fill_slots(args, sig, y, i, i, slots_upto(args, sig, i)) == Ok::<
            Seq<Option<ArgV>>,
            ErrV,
        >(slots_upto(args, sig, args.len())),
    decreases args.len() - i,
{
    if i < args.len() {
        assert(args[i as int].name is None);
        assert(slots_upto(args, sig, i).update(i as int, Some(args[i as int])) =~= slots_upto(
            args,
            sig,
            i + 1,
        ));
        lemma_positional(args, sig, y, i + 1);
    }
}

proof fn lemma_trimmed_last(args: Seq<ArgV>)
    ensures
        vmod_args::trimmed(args).len() > 0 ==> !(vmod_args::trimmed(args).last().value is Omitted),
    decreases args.len(),
{
    if args.len() > 0 && args.last().value is Omitted {
        lemma_trimmed_last(args.drop_last());
    }
}

proof fn lemma_trimmed_off(all: Seq<ArgV>, n: nat)
    requires
        n <= all.len(),
        n > 0 ==> !(all[n - 1].value is Omitted),
        forall|i: int| n <= i < all.len() ==> (#[trigger] all[i]).value is Omitted,
    ensures
        vmod_args::trimmed(all) == all.take(n as int),
    decreases all.len(),
{
    if n < all.len() {
        assert(all[all.len() - 1].value is Omitted);
        lemma_trimmed_off(all.drop_last(), n);
        assert(all.drop_last().take(n as int) =~= all.take(n as int));
    } else {
        assert(all.take(n as int) =~= all);
    }
}

/// Arguments that are put in order stay as they are when they are put in order
/// again.
pub proof fn law_arguments_are_put_in_order_once(
    args: Seq<ArgV>,
    sig: Seq<ArgSpecV>,
    x: Span,
    y: Span,
)
    ensures
        vmod_args::rewritten(args, sig, x) matches Ok(list) ==> vmod_args::rewritten(list, sig, y)
            == Ok::<Seq<ArgV>, ErrV>(list),
{
    let none = vmod_args::no_slots(sig.len());
    match vmod_args::fill_slots(args, sig, x, 0, 0, none) {
        Ok(slots) => {
            let all = vmod_args::slot_args(sig, slots);
            let list = vmod_args::trimmed(all);
            let n = list.len();
            vmod_args::lemma_trimmed_prefix(all);
            lemma_trimmed_last(all);
            assert forall|j: int| 0 <= j < n implies (#[trigger] list[j]).name is None by {
                assert(list[j] == all[j]);
            }
            assert(slots_upto(list, sig, 0) =~= none);
            lemma_positional(list, sig, y, 0);
            let again = vmod_args::slot_args(sig, slots_upto(list, sig, n));
            assert forall|j: int| 0 <= j < n implies #[trigger] again[j] == list[j] by {
                assert(list[j] == all[j]);
            }
            lemma_trimmed_off(again, n);
            assert(again.take(n as int) =~= list);
        },
        Err(_) => {},
    }
}

/// Whether a value is what the pass may make of another.
pub open spec fn kept_value(a: ExprV, v: ExprV) -> bool {
    &&& a is Omitted <==> v is Omitted
    &&& v == a || holds_call(v)
}

/// Arguments that went through a signature go through it again unchanged.
proof fn lemma_rewritten_again(
    args: Seq<ArgV>,
    sig: Seq<ArgSpecV>,
    x: Span,
    y: Span,
    list: Seq<ArgV>,
)
    requires
        plain_sig(sig),
        match vmod_args::rewritten(args, sig, x) {
            Ok(first) => first.len() == list.len() && forall|i: int|
                0 <= i < first.len() ==> (#[trigger] list[i]).name == first[i].name && kept_value(
                    first[i].value,
                    list[i].value,
                ),
            Err(_) => false,
        },
    ensures
        vmod_args::rewritten(list, sig, y) == Ok::<Seq<ArgV>, ErrV>(list),
{
    let none = vmod_args::no_slots(sig.len());
    let slots = vmod_args::fill_slots(args, sig, x, 0, 0, none)->Ok_0;
    let all = vmod_args::slot_args(sig, slots);
    let first = vmod_args::trimmed(all);
    vmod_args::lemma_trimmed_prefix(all);
    lemma_trimmed_last(all);
    let n = list.len();
    assert forall|j: int| 0 <= j < n implies (#[trigger] list[j]).name is None by {
        assert(first[j] == all[j]);
    }
    assert(slots_upto(list, sig, 0) =~= none);
    lemma_positional(list, sig, y, 0);
    let again = vmod_args::slot_args(sig, slots_upto(list, sig, n));
    assert forall|i: int| 0 <= i < n implies #[trigger] again[i] == list[i] by {
        assert(first[i] == all[i]);
        assert(all[i] == vmod_args::slot_arg(sig[i], slots[i]));
        assert(list[i].name == first[i].name);
        let v = list[i].value;
        if holds_call(v) {
            assert(sig[i].default != Some(printer::expr_text(v)));
        }
    }
    assert forall|i: int| n <= i < again.len() implies (#[trigger] again[i]).value is Omitted by {}
    if n > 0 {
        assert(again[n - 1] == list[n - 1]);
        assert(list[n - 1].name == first[n - 1].name);
        assert(first.last() == first[n - 1]);
    }
    lemma_trimmed_off(again, n);
    assert(again.take(n as int) =~= list);
}

// ───────────────────────── the pass over expressions ─────────────────────────

/// What holds of a value that came out of the pass: it is left alone from now
/// on, and its literals stay canonical.
pub open spec fn settled_value(a: ExprV, v: ExprV, k: KnownV) -> bool {
    &&& kept_value(a, v)
    &&& holds_call(a) ==> holds_call(v)
    &&& literals::lit_expr(a) == a ==> literals::lit_expr(v) == v
    &&& plain_known(k) ==> forall|y: Span|
        #[trigger] vmod_args::pass_expr(v, k, y) == Ok::<ExprV, ErrV>(v)
}

proof fn lemma_pass_expr(e: ExprV, k: KnownV, x: Span)
    ensures
        match vmod_args::pass_expr(e, k, x) {
            Ok(v) => settled_value(e, v, k),
            Err(_) => true,
        },
    decreases e, 1nat, 0nat,
{
    match e {
        ExprV::Call { target, args } => {
            let sig = vmod_args::call_sig(k, target);
            match vmod_args::by_sig(args, sig, x) {
                Ok(list) => {
                    vmod_args::lemma_by_sig_taken(args, sig, x);
                    lemma_pass_args(e, args, list, k, x, list.len());
                    match vmod_args::pass_args(e, list, k, x, list.len()) {
                        Ok(done) => {
                            lemma_call_again(target, args, list, done, k, x);
                            assert(vmod_args::pass_expr(e, k, x) == Ok::<ExprV, ErrV>(
                                ExprV::Call { target, args: done },
                            ));
                        },
                        Err(_) => {
                            assert(vmod_args::pass_expr(e, k, x) is Err);
                        },
                    }
                },
                Err(_) => {
                    assert(vmod_args::pass_expr(e, k, x) is Err);
                },
            }
        },
        ExprV::Unary { op, expr } => {
            lemma_pass_expr(*expr, k, x);
            match vmod_args::pass_expr(*expr, k, x) {
                Ok(a) => {
                    let v = ExprV::Unary { op, expr: Box::new(a) };
                    if plain_known(k) {
                        assert forall|y: Span| #[trigger] vmod_args::pass_expr(v, k, y) == Ok::<
                            ExprV,
                            ErrV,
                        >(v) by {
                            assert(vmod_args::pass_expr(a, k, y) == Ok::<ExprV, ErrV>(a));
                        }
                    }
                    assert(settled_value(e, v, k));
                },
                Err(_) => {},
            }
        },
        ExprV::Binary { op, lhs, rhs } => {
            lemma_pass_expr(*lhs, k, x);
            lemma_pass_expr(*rhs, k, x);
            match (vmod_args::pass_expr(*lhs, k, x), vmod_args::pass_expr(*rhs, k, x)) {
                (Ok(a), Ok(b)) => {
                    let v = ExprV::Binary { op, lhs: Box::new(a), rhs: Box::new(b) };
                    if plain_known(k) {
                        assert forall|y: Span| #[trigger] vmod_args::pass_expr(v, k, y) == Ok::<
                            ExprV,
                            ErrV,
                        >(v) by {
                            assert(vmod_args::pass_expr(a, k, y) == Ok::<ExprV, ErrV>(a));
                            assert(vmod_args::pass_expr(b, k, y) == Ok::<ExprV, ErrV>(b));
                        }
                    }
                    assert(settled_value(e, v, k));
                },
                _ => {},
            }
        },
        _ => {},
    }
}

/// Whether the arguments are what the pass makes of a list.
pub open spec fn settled_args(list: Seq<ArgV>, done: Seq<ArgV>, k: KnownV, n: nat) -> bool {
    &&& done.len() == n
    &&& forall|i: int|
        0 <= i < n ==> (#[trigger] done[i]).name == list[i].name && settled_value(
            list[i].value,
            done[i].value,
            k,
        )
}

proof fn lemma_pass_args(
    whole: ExprV,
    from: Seq<ArgV>,
    list: Seq<ArgV>,
    k: KnownV,
    x: Span,
    n: nat,
)
    requires
        whole is Call,
        whole->Call_args == from,
        vmod_args::taken_from(list, from),
        n <= list.len(),
    ensures
        match vmod_args::pass_args(whole, list, k, x, n) {
            Ok(done) => settled_args(list, done, k, n),
            Err(_) => true,
        },
    decreases whole, 0nat, n,
{
    if n > 0 {
        lemma_pass_args(whole, from, list, k, x, (n - 1) as nat);
        let a = list[n - 1];
        if a.value is Omitted {
            assert(vmod_args::pass_expr(a.value, k, x) == Ok::<ExprV, ErrV>(a.value));
            assert(settled_value(a.value, a.value, k));
        } else {
            let j = choose|j: int| 0 <= j < from.len() && a.value == (#[trigger] from[j]).value;
            assert(decreases_to!(whole => from[j].value));
            lemma_pass_expr(a.value, k, x);
        }
    }
}

proof fn lemma_pass_again(whole: ExprV, list: Seq<ArgV>, k: KnownV, y: Span, n: nat)
    requires
        whole is Call,
        whole->Call_args == list,
        n <= list.len(),
        forall|i: int|
            0 <= i < list.len() ==> vmod_args::pass_expr((#[trigger] list[i]).value, k, y) == Ok::<
                ExprV,
                ErrV,
            >(list[i].value),
    ensures
        vmod_args::pass_args(whole, list, k, y, n) == Ok::<Seq<ArgV>, ErrV>(list.take(n as int)),
    decreases n,
{
    if n > 0 {
        lemma_pass_again(whole, list, k, y, (n - 1) as nat);
        assert(list.take(n - 1).push(list[n - 1]) =~= list.take(n as int));
        assert(vmod_args::pass_expr(list[n - 1].value, k, y) == Ok::<ExprV, ErrV>(
            list[n - 1].value,
        ));
    } else {
        assert(list.take(0) =~= seq![]);
    }
}

/// The arguments of a call that came out of the pass are left alone from now
/// on, and their literals stay canonical.
proof fn lemma_args_again(
    args: Seq<ArgV>,
    sig: Option<Seq<ArgSpecV>>,
    list: Seq<ArgV>,
    done: Seq<ArgV>,
    whole: ExprV,
    k: KnownV,
    x: Span,
)
    requires
        sig matches Some(s) ==> plain_known(k) ==> plain_sig(s),
        vmod_args::by_sig(args, sig, x) == Ok::<Seq<ArgV>, ErrV>(list),
        settled_args(list, done, k, list.len()),
        whole is Call,
        whole->Call_args == done,
    ensures
        literals::lit_args(args) == args ==> literals::lit_args(done) == done,
        plain_known(k) ==> forall|y: Span|
            #![trigger vmod_args::by_sig(done, sig, y)]
            #![trigger vmod_args::pass_args(whole, done, k, y, done.len())]
            vmod_args::by_sig(done, sig, y) == Ok::<Seq<ArgV>, ErrV>(done) && vmod_args::pass_args(
                whole,
                done,
                k,
                y,
                done.len(),
            ) == Ok::<Seq<ArgV>, ErrV>(done),
{
    vmod_args::lemma_by_sig_taken(args, sig, x);
    if literals::lit_args(args) == args {
        assert forall|i: int| 0 <= i < done.len() implies literals::lit_arg(#[trigger] done[i])
            == done[i] by {
            assert(settled_value(list[i].value, done[i].value, k));
            if !(list[i].value is Omitted) {
                let j = choose|j: int|
                    0 <= j < args.len() && list[i].value == (#[trigger] args[j]).value;
                assert(literals::lit_args(args)[j] == literals::lit_arg(args[j]));
            }
        }
        assert(literals::lit_args(done) =~= done);
    }
    if plain_known(k) {
        assert forall|y: Span|
            #![trigger vmod_args::by_sig(done, sig, y)]
            #![trigger vmod_args::pass_args(whole, done, k, y, done.len())]
            vmod_args::by_sig(done, sig, y) == Ok::<Seq<ArgV>, ErrV>(done) && vmod_args::pass_args(
                whole,
                done,
                k,
                y,
                done.len(),
            ) == Ok::<Seq<ArgV>, ErrV>(done) by {
            match sig {
                Some(s) => {
                    assert forall|i: int| 0 <= i < list.len() implies (#[trigger] done[i]).name
                        == list[i].name && kept_value(list[i].value, done[i].value) by {
                        assert(settled_value(list[i].value, done[i].value, k));
                    }
                    lemma_rewritten_again(args, s, x, y, done);
                },
                None => {},
            }
            assert forall|i: int| 0 <= i < done.len() implies vmod_args::pass_expr(
                (#[trigger] done[i]).value,
                k,
                y,
            ) == Ok::<ExprV, ErrV>(done[i].value) by {
                assert(settled_value(list[i].value, done[i].value, k));
            }
            lemma_pass_again(whole, done, k, y, done.len());
            assert(done.take(done.len() as int) =~= done);
        }
    }
}

proof fn lemma_call_again(
    target: Seq<Seq<char>>,
    args: Seq<ArgV>,
    list: Seq<ArgV>,
    done: Seq<ArgV>,
    k: KnownV,
    x: Span,
)
    requires
        vmod_args::by_sig(args, vmod_args::call_sig(k, target), x) == Ok::<Seq<ArgV>, ErrV>(list),
        settled_args(list, done, k, list.len()),
    ensures
        settled_value(ExprV::Call { target, args }, ExprV::Call { target, args: done }, k),
{
    let v = ExprV::Call { target, args: done };
    let sig = vmod_args::call_sig(k, target);
    lemma_args_again(args, sig, list, done, v, k, x);
    if plain_known(k) {
        assert forall|y: Span| #[trigger] vmod_args::pass_expr(v, k, y) == Ok::<ExprV, ErrV>(v) by {
            assert(vmod_args::by_sig(done, sig, y) == Ok::<Seq<ArgV>, ErrV>(done));
        }
    }
}

// ───────────────────────── the pass over statements ─────────────────────────

/// What holds of a statement that came out of the pass: it is left alone from
/// now on, its literals stay canonical, and it makes the same objects.
pub open spec fn settled_stmt(s: StmtV, r: StmtV, k: KnownV) -> bool {
    &&& literals::lit_stmt(s) == s ==> literals::lit_stmt(r) == r
    &&& plain_known(k) ==> vmod_args::pass_stmt(r, k) == Ok::<StmtV, ErrV>(r)
    &&& forall|n: Seq<char>, o: InstanceV|
        #[trigger] objects::makes_stmt(r, n, o) == objects::makes_stmt(s, n, o)
}

/// The same of the first `n` statements.
pub open spec fn settled_stmts(ss: Seq<StmtV>, r: Seq<StmtV>, k: KnownV, n: nat) -> bool {
    &&& r.len() == n
    &&& forall|i: int| 0 <= i < n ==> settled_stmt(ss[i], #[trigger] r[i], k)
}

proof fn lemma_pass_exprs(es: Seq<ExprV>, k: KnownV, x: Span, n: nat)
    requires
        n <= es.len(),
    ensures
        match vmod_args::pass_exprs(es, k, x, n) {
            Ok(r) => r.len() == n && forall|i: int|
                0 <= i < n ==> settled_value(es[i], #[trigger] r[i], k),
            Err(_) => true,
        },
    decreases n,
{
    if n > 0 {
        lemma_pass_exprs(es, k, x, (n - 1) as nat);
        lemma_pass_expr(es[n - 1], k, x);
    }
}

proof fn lemma_exprs_again(r: Seq<ExprV>, k: KnownV, y: Span, n: nat)
    requires
        n <= r.len(),
        forall|i: int|
            0 <= i < r.len() ==> vmod_args::pass_expr(#[trigger] r[i], k, y) == Ok::<ExprV, ErrV>(
                r[i],
            ),
    ensures
        vmod_args::pass_exprs(r, k, y, n) == Ok::<Seq<ExprV>, ErrV>(r.take(n as int)),
    decreases n,
{
    if n > 0 {
        lemma_exprs_again(r, k, y, (n - 1) as nat);
        assert(r.take(n - 1).push(r[n - 1]) =~= r.take(n as int));
        assert(vmod_args::pass_expr(r[n - 1], k, y) == Ok::<ExprV, ErrV>(r[n - 1]));
    } else {
        assert(r.take(0) =~= seq![]);
    }
}

/// Statements that are left alone one by one are left alone together.
pub(crate) proof fn lemma_stmts_again(r: Seq<StmtV>, k: KnownV, n: nat)
    requires
        n <= r.len(),
        forall|i: int|
            0 <= i < r.len() ==> vmod_args::pass_stmt(#[trigger] r[i], k) == Ok::<StmtV, ErrV>(r[i]),
    ensures
        vmod_args::pass_stmts(r, k, n) == Ok::<Seq<StmtV>, ErrV>(r.take(n as int)),
    decreases n,
{
    if n > 0 {
        lemma_stmts_again(r, k, (n - 1) as nat);
        assert(r.take(n - 1).push(r[n - 1]) =~= r.take(n as int));
        assert(vmod_args::pass_stmt(r[n - 1], k) == Ok::<StmtV, ErrV>(r[n - 1]));
    } else {
        assert(r.take(0) =~= seq![]);
    }
}

pub(crate) proof fn lemma_settled_stmts(ss: Seq<StmtV>, r: Seq<StmtV>, k: KnownV)
    requires
        settled_stmts(ss, r, k, ss.len()),
    ensures
        literals::lit_stmts(ss) == ss ==> literals::lit_stmts(r) == r,
        plain_known(k) ==> vmod_args::pass_stmts(r, k, r.len()) == Ok::<Seq<StmtV>, ErrV>(r),
        forall|n: Seq<char>, o: InstanceV|
            #[trigger] objects::makes(r, n, o) == objects::makes(ss, n, o),
{
    if literals::lit_stmts(ss) == ss {
        assert forall|i: int| 0 <= i < r.len() implies literals::lit_stmt(#[trigger] r[i])
            == r[i] by {
            assert(settled_stmt(ss[i], r[i], k));
            assert(literals::lit_stmts(ss)[i] == literals::lit_stmt(ss[i]));
        }
        assert(literals::lit_stmts(r) =~= r);
    }
    if plain_known(k) {
        assert forall|i: int| 0 <= i < r.len() implies vmod_args::pass_stmt(#[trigger] r[i], k)
            == Ok::<StmtV, ErrV>(r[i]) by {
            assert(settled_stmt(ss[i], r[i], k));
        }
        lemma_stmts_again(r, k, r.len());
        assert(r.take(r.len() as int) =~= r);
    }
    assert forall|n: Seq<char>, o: InstanceV| #[trigger] objects::makes(r, n, o) == objects::makes(
        ss,
        n,
        o,
    ) by {
        if objects::makes(r, n, o) {
            let i = choose|i: int| 0 <= i < r.len() && objects::makes_stmt(#[trigger] r[i], n, o);
            assert(settled_stmt(ss[i], r[i], k));
            assert(objects::makes_stmt(ss[i], n, o));
        }
        if objects::makes(ss, n, o) {
            let i = choose|i: int| 0 <= i < ss.len() && objects::makes_stmt(#[trigger] ss[i], n, o);
            assert(settled_stmt(ss[i], r[i], k));
            assert(objects::makes_stmt(r[i], n, o));
        }
    }
}

/// What holds of an arm that came out of the pass.
spec fn settled_arm(a: ArmV, r: ArmV, k: KnownV) -> bool {
    &&& literals::lit_arm(a) == a ==> literals::lit_arm(r) == r
    &&& plain_known(k) ==> vmod_args::pass_stmts(r.body, k, r.body.len()) == Ok::<
        Seq<StmtV>,
        ErrV,
    >(r.body) && forall|y: Span|
        #[trigger] vmod_args::pass_expr(r.cond, k, y) == Ok::<ExprV, ErrV>(r.cond)
    &&& forall|n: Seq<char>, o: InstanceV|
        #[trigger] objects::makes(r.body, n, o) == objects::makes(a.body, n, o)
}

proof fn lemma_arms_again(r: Seq<ArmV>, k: KnownV, y: Span, n: nat)
    requires
        n <= r.len(),
        forall|i: int|
            0 <= i < r.len() ==> vmod_args::pass_stmts(
                (#[trigger] r[i]).body,
                k,
                r[i].body.len(),
            ) == Ok::<Seq<StmtV>, ErrV>(r[i].body) && vmod_args::pass_expr(r[i].cond, k, y) == Ok::<
                ExprV,
                ErrV,
            >(r[i].cond),
    ensures
        vmod_args::pass_arms(r, k, y, n) == Ok::<Seq<ArmV>, ErrV>(r.take(n as int)),
    decreases n,
{
    if n > 0 {
        lemma_arms_again(r, k, y, (n - 1) as nat);
        let a = r[n - 1];
        assert(r.take(n - 1).push(ArmV { cond: a.cond, body: a.body }) =~= r.take(n as int));
        assert(vmod_args::pass_stmts(a.body, k, a.body.len()) == Ok::<Seq<StmtV>, ErrV>(a.body));
    } else {
        assert(r.take(0) =~= seq![]);
    }
}

proof fn lemma_settled_arms(arms: Seq<ArmV>, r: Seq<ArmV>, k: KnownV, y: Span)
    requires
        r.len() == arms.len(),
        forall|i: int| 0 <= i < r.len() ==> settled_arm(arms[i], #[trigger] r[i], k),
    ensures
        literals::lit_arms(arms) == arms ==> literals::lit_arms(r) == r,
        plain_known(k) ==> vmod_args::pass_arms(r, k, y, r.len()) == Ok::<Seq<ArmV>, ErrV>(r),
        forall|n: Seq<char>, o: InstanceV|
            #[trigger] objects::makes_arms(r, n, o) == objects::makes_arms(arms, n, o),
{
    if literals::lit_arms(arms) == arms {
        assert forall|i: int| 0 <= i < r.len() implies literals::lit_arm(#[trigger] r[i]) == r[i] by {
            assert(settled_arm(arms[i], r[i], k));
            assert(literals::lit_arms(arms)[i] == literals::lit_arm(arms[i]));
        }
        assert(literals::lit_arms(r) =~= r);
    }
    if plain_known(k) {
        assert forall|i: int| 0 <= i < r.len() implies vmod_args::pass_stmts(
            (#[trigger] r[i]).body,
            k,
            r[i].body.len(),
        ) == Ok::<Seq<StmtV>, ErrV>(r[i].body) && vmod_args::pass_expr(r[i].cond, k, y) == Ok::<
            ExprV,
            ErrV,
        >(r[i].cond) by {
            assert(settled_arm(arms[i], r[i], k));
        }
        lemma_arms_again(r, k, y, r.len());
        assert(r.take(r.len() as int) =~= r);
    }
    assert forall|n: Seq<char>, o: InstanceV|
        #[trigger] objects::makes_arms(r, n, o) == objects::makes_arms(arms, n, o) by {
        if objects::makes_arms(r, n, o) {
            let i = choose|i: int|
                0 <= i < r.len() && objects::makes((#[trigger] r[i]).body, n, o);
            assert(settled_arm(arms[i], r[i], k));
            assert(objects::makes(arms[i].body, n, o));
        }
        if objects::makes_arms(arms, n, o) {
            let i = choose|i: int|
                0 <= i < arms.len() && objects::makes((#[trigger] arms[i]).body, n, o);
            assert(settled_arm(arms[i], r[i], k));
            assert(objects::makes(r[i].body, n, o));
        }
    }
}

proof fn lemma_pass_return(s: StmtV, k: KnownV)
    requires
        s is Return,
    ensures
        match vmod_args::pass_stmt(s, k) {
            Ok(r) => settled_stmt(s, r, k),
            Err(_) => true,
        },
{
    let sp = ast::stmt_span(s);
    match s {
        StmtV::Return { action: Some(a), span } => {
            lemma_pass_exprs(a.args, k, sp, a.args.len());
            match vmod_args::pass_exprs(a.args, k, sp, a.args.len()) {
                Ok(args) => {
                    let r = StmtV::Return { action: Some(ReturnActionV { args, ..a }), span };
                    if literals::lit_stmt(s) == s {
                        assert(literals::lit_exprs(a.args) == a.args);
                        assert forall|i: int| 0 <= i < args.len() implies literals::lit_expr(
                            #[trigger] args[i],
                        ) == args[i] by {
                            assert(settled_value(a.args[i], args[i], k));
                            assert(literals::lit_exprs(a.args)[i] == literals::lit_expr(a.args[i]));
                        }
                        assert(literals::lit_exprs(args) =~= args);
                    }
                    if plain_known(k) {
                        assert forall|i: int| 0 <= i < args.len() implies vmod_args::pass_expr(
                            #[trigger] args[i],
                            k,
                            sp,
                        ) == Ok::<ExprV, ErrV>(args[i]) by {
                            assert(settled_value(a.args[i], args[i], k));
                        }
                        lemma_exprs_again(args, k, sp, args.len());
                        assert(args.take(args.len() as int) =~= args);
                        assert(vmod_args::pass_stmt(r, k) == Ok::<StmtV, ErrV>(r));
                    }
                    assert(settled_stmt(s, r, k));
                },
                Err(_) => {},
            }
        },
        _ => {},
    }
}

proof fn lemma_pass_new(s: StmtV, k: KnownV)
    requires
        s is New,
    ensures
        match vmod_args::pass_stmt(s, k) {
            Ok(r) => settled_stmt(s, r, k),
            Err(_) => true,
        },
{
    let sp = ast::stmt_span(s);
    match s {
        StmtV::New { name, vmod, ctor, args, span } => {
            let sig = vmod_args::ctor_sig(k, vmod, ctor);
            let whole = vmod_args::ctor_call(vmod, ctor, args);
            match vmod_args::by_sig(args, sig, sp) {
                Ok(list) => {
                    vmod_args::lemma_by_sig_taken(args, sig, sp);
                    lemma_pass_args(whole, args, list, k, sp, list.len());
                    match vmod_args::pass_args(whole, list, k, sp, list.len()) {
                        Ok(done) => {
                            let r = StmtV::New { name, vmod, ctor, args: done, span };
                            let again = vmod_args::ctor_call(vmod, ctor, done);
                            lemma_args_again(args, sig, list, done, again, k, sp);
                            if plain_known(k) {
                                assert(vmod_args::by_sig(done, sig, sp) == Ok::<Seq<ArgV>, ErrV>(
                                    done,
                                ));
                                assert(vmod_args::pass_stmt(r, k) == Ok::<StmtV, ErrV>(r));
                            }
                            assert(settled_stmt(s, r, k));
                        },
                        Err(_) => {},
                    }
                },
                Err(_) => {},
            }
        },
        _ => {},
    }
}

/// An `if` whose arms and `else` came out of the pass.
proof fn lemma_settled_if(
    arms: Seq<ArmV>,
    done: Seq<ArmV>,
    b: Option<Seq<StmtV>>,
    e: Option<Seq<StmtV>>,
    span: Span,
    k: KnownV,
)
    requires
        done.len() == arms.len(),
        forall|i: int| 0 <= i < done.len() ==> settled_arm(arms[i], #[trigger] done[i], k),
        match (b, e) {
            (Some(x), Some(y)) => settled_stmts(x, y, k, x.len()),
            (None, None) => true,
            _ => false,
        },
    ensures
        settled_stmt(
            StmtV::If { arms, else_body: b, span },
            StmtV::If { arms: done, else_body: e, span },
            k,
        ),
{
    let s = StmtV::If { arms, else_body: b, span };
    let r = StmtV::If { arms: done, else_body: e, span };
    lemma_settled_arms(arms, done, k, span);
    match (b, e) {
        (Some(x), Some(y)) => lemma_settled_stmts(x, y, k),
        _ => {},
    }
    if plain_known(k) {
        assert(vmod_args::pass_arms(done, k, span, done.len()) == Ok::<Seq<ArmV>, ErrV>(done));
        match e {
            Some(y) => {
                assert(vmod_args::pass_stmts(y, k, y.len()) == Ok::<Seq<StmtV>, ErrV>(y));
            },
            None => {},
        }
        assert(vmod_args::pass_stmt(r, k) == Ok::<StmtV, ErrV>(r));
    }
    assert forall|n: Seq<char>, o: InstanceV| #[trigger] objects::makes_stmt(r, n, o)
        == objects::makes_stmt(s, n, o) by {
        assert(objects::makes_arms(done, n, o) == objects::makes_arms(arms, n, o));
        match (b, e) {
            (Some(x), Some(y)) => {
                assert(objects::makes(y, n, o) == objects::makes(x, n, o));
            },
            _ => {},
        }
    }
}

proof fn lemma_pass_value(s: StmtV, k: KnownV)
    requires
        s is Assign || s is Synthetic || s is Expr,
    ensures
        match vmod_args::pass_stmt(s, k) {
            Ok(r) => settled_stmt(s, r, k),
            Err(_) => true,
        },
{
    let sp = ast::stmt_span(s);
    match s {
        StmtV::Assign { rhs, .. } => lemma_pass_expr(rhs, k, sp),
        StmtV::Synthetic { value, .. } => lemma_pass_expr(value, k, sp),
        StmtV::Expr { expr, .. } => lemma_pass_expr(expr, k, sp),
        _ => {},
    }
}

proof fn lemma_pass_stmt(s: StmtV, k: KnownV)
    ensures
        match vmod_args::pass_stmt(s, k) {
            Ok(r) => settled_stmt(s, r, k),
            Err(_) => true,
        },
    decreases s, 0nat,
{
    match s {
        StmtV::If { arms, else_body, span } => {
            lemma_pass_arms(arms, k, span, arms.len());
            match vmod_args::pass_arms(arms, k, span, arms.len()) {
                Ok(done) => match else_body {
                    Some(b) => {
                        lemma_pass_stmts(b, k, b.len());
                        match vmod_args::pass_stmts(b, k, b.len()) {
                            Ok(e) => lemma_settled_if(
                                arms,
                                done,
                                else_body,
                                Some(e),
                                span,
                                k,
                            ),
                            Err(_) => {},
                        }
                    },
                    None => lemma_settled_if(arms, done, None, None, span, k),
                },
                Err(_) => {},
            }
        },
        StmtV::Return { .. } => lemma_pass_return(s, k),
        StmtV::New { .. } => lemma_pass_new(s, k),
        StmtV::Unset { .. } => {},
        StmtV::Call { .. } => {},
        _ => lemma_pass_value(s, k),
    }
}

pub(crate) proof fn lemma_pass_stmts(ss: Seq<StmtV>, k: KnownV, n: nat)
    requires
        n <= ss.len(),
    ensures
        match vmod_args::pass_stmts(ss, k, n) {
            Ok(r) => settled_stmts(ss, r, k, n),
            Err(_) => true,
        },
    decreases ss, n,
{
    if n > 0 {
        lemma_pass_stmts(ss, k, (n - 1) as nat);
        lemma_pass_stmt(ss[n - 1], k);
    }
}

proof fn lemma_pass_arms(arms: Seq<ArmV>, k: KnownV, x: Span, n: nat)
    requires
        n <= arms.len(),
    ensures
        match vmod_args::pass_arms(arms, k, x, n) {
            Ok(r) => r.len() == n && forall|i: int|
                0 <= i < n ==> settled_arm(arms[i], #[trigger] r[i], k),
            Err(_) => true,
        },
    decreases arms, n,
{
    if n > 0 {
        lemma_pass_arms(arms, k, x, (n - 1) as nat);
        let a = arms[n - 1];
        lemma_pass_expr(a.cond, k, x);
        lemma_pass_stmts(a.body, k, a.body.len());
        match (
            vmod_args::pass_expr(a.cond, k, x),
            vmod_args::pass_stmts(a.body, k, a.body.len()),
        ) {
            (Ok(cond), Ok(body)) => {
                lemma_settled_stmts(a.body, body, k);
                assert(settled_arm(a, ArmV { cond, body }, k));
            },
            _ => {},
        }
    }
}

} // verus!
