//! The second pass: the arguments of vmod calls.
//!
//! Where the signature of a call is known, its arguments are put into the order
//! in which they are declared, without names. An optional argument that is left
//! out, or is exactly its default, is left out; such arguments at the end
//! disappear.

use crate::ast;
use crate::ast::{
    Arg, ArgV, ArmV, Decl, DeclV, ErrV, Expr, ExprV, Program, ProgramV, ReturnActionV, Span, Stmt,
    StmtV, VclError, VclResult,
};
use crate::printer;
use crate::table::Table;
use crate::text;
use crate::vmod::{ArgSpecV, Sig, VmodSpec};
use vstd::prelude::*;
use vstd::string::*;

verus! {

// ───────────────────────── one call ─────────────────────────

/// The first slot at or behind `i` of that name, or the number of slots.
pub open spec fn slot_named(sig: Seq<ArgSpecV>, name: Seq<char>, i: nat) -> nat
    decreases sig.len() - i,
{
    if i >= sig.len() || sig[i as int].name == Some(name) {
        i
    } else {
        slot_named(sig, name, i + 1)
    }
}

/// Puts the arguments from `i` on into their slots: a named one into the slot
/// of its name, the others from left to right.
pub open spec fn fill_slots(
    args: Seq<ArgV>,
    sig: Seq<ArgSpecV>,
    span: Span,
    i: nat,
    next: nat,
    slots: Seq<Option<ArgV>>,
) -> core::result::Result<Seq<Option<ArgV>>, ErrV>
    decreases args.len() - i,
{
    if i >= args.len() {
        Ok(slots)
    } else {
        let a = args[i as int];
        let k = match a.name {
            Some(n) => slot_named(sig, n, 0),
            None => next,
        };
        let next1 = match a.name {
            Some(_) => next,
            None => next + 1,
        };
        if a.name is Some && k >= sig.len() {
            Err(ast::err_at(span, "unknown vmod argument name '"@ + a.name->0 + "'"@))
        } else if k >= sig.len() {
            Err(ast::err_at(span, "too many positional arguments in vmod call"@))
        } else if slots[k as int] is Some {
            Err(
                ast::err_at(
                    span,
                    "duplicate value for vmod argument slot "@ + text::nat_text(k),
                ),
            )
        } else {
            fill_slots(args, sig, span, i + 1, next1, slots.update(k as int, Some(a)))
        }
    }
}

/// The argument in a slot; the value is left out where the slot is empty, or
/// is optional and holds exactly its default.
pub open spec fn slot_arg(spec: ArgSpecV, slot: Option<ArgV>) -> ArgV {
    match slot {
        None => ArgV { name: None, value: ExprV::Omitted, span: ast::dummy_span() },
        Some(a) => ArgV {
            name: None,
            value: if spec.optional && spec.default == Some(printer::expr_text(a.value)) {
                ExprV::Omitted
            } else {
                a.value
            },
            span: a.span,
        },
    }
}

/// The arguments without those at the end that are left out.
pub open spec fn trimmed(args: Seq<ArgV>) -> Seq<ArgV>
    decreases args.len(),
{
    if args.len() > 0 && args.last().value is Omitted {
        trimmed(args.drop_last())
    } else {
        args
    }
}

pub open spec fn no_slots(n: nat) -> Seq<Option<ArgV>> {
    Seq::new(n, |i: int| None)
}

pub open spec fn slot_args(sig: Seq<ArgSpecV>, slots: Seq<Option<ArgV>>) -> Seq<ArgV> {
    Seq::new(sig.len(), |i: int| slot_arg(sig[i], slots[i]))
}

/// The arguments of a call in the order in which they are declared.
pub open spec fn rewritten(args: Seq<ArgV>, sig: Seq<ArgSpecV>, span: Span) -> core::result::Result<
    Seq<ArgV>,
    ErrV,
> {
    match fill_slots(args, sig, span, 0, 0, no_slots(sig.len())) {
        Err(e) => Err(e),
        Ok(slots) => Ok(trimmed(slot_args(sig, slots))),
    }
}

/// Whether every value is left out or is one of the values of `from`.
pub open spec fn taken_from(args: Seq<ArgV>, from: Seq<ArgV>) -> bool {
    forall|i: int|
        0 <= i < args.len() && !((#[trigger] args[i]).value is Omitted) ==> exists|j: int|
            0 <= j < from.len() && args[i].value == (#[trigger] from[j]).value
}

pub open spec fn slots_view(s: Seq<Option<Arg>>) -> Seq<Option<ArgV>> {
    Seq::new(
        s.len(),
        |i: int|
            match s[i] {
                Some(a) => Some(a@),
                None => None,
            },
    )
}

/// Whether every value is left out or is one of the values of `from`.
pub open spec fn moved_from(args: Seq<Arg>, from: Seq<Arg>) -> bool {
    forall|i: int|
        0 <= i < args.len() && !((#[trigger] args[i]).value is Omitted) ==> exists|j: int|
            0 <= j < from.len() && args[i].value == (#[trigger] from[j]).value
}

/// Whether every slot is empty or holds one of the arguments.
spec fn slots_from(slots: Seq<Option<Arg>>, from: Seq<Arg>) -> bool {
    forall|i: int|
        0 <= i < slots.len() && (#[trigger] slots[i]) is Some ==> exists|j: int|
            0 <= j < from.len() && slots[i]->0 == #[trigger] from[j]
}

pub(crate) fn find_slot(sig: &Sig, name: &str) -> (r: usize)
    ensures
        r == slot_named(sig@, name@, 0),
        r <= sig@.len(),
{
    let mut i: usize = 0;
    while i < sig.args.len()
        invariant
            i <= sig.args.len(),
            slot_named(sig@, name@, i as nat) == slot_named(sig@, name@, 0),
        decreases sig.args.len() - i,
    {
        if let Some(n) = &sig.args[i].name {
            if text::str_eq(n.as_str(), name) {
                return i;
            }
        }
        i += 1;
    }
    i
}

/// Puts the arguments into their slots.
fn place_args(args: Vec<Arg>, sig: &Sig, span: Span) -> (r: VclResult<Vec<Option<Arg>>>)
    ensures
        match r {
            Ok(slots) => {
                &&& fill_slots(ast::args_view(args@), sig@, span, 0, 0, no_slots(sig@.len()))
                    == core::result::Result::<Seq<Option<ArgV>>, ErrV>::Ok(slots_view(slots@))
                &&& slots@.len() == sig@.len()
                &&& slots_from(slots@, args@)
            },
            Err(e) => fill_slots(
                ast::args_view(args@),
                sig@,
                span,
                0,
                0,
                no_slots(sig@.len()),
            ) == core::result::Result::<Seq<Option<ArgV>>, ErrV>::Err(e@),
        },
{
    let n: usize = sig.args.len();
    let ghost av = ast::args_view(args@);
    let ghost from = args@;
    let ghost goal = fill_slots(av, sig@, span, 0, 0, no_slots(sig@.len()));
    let mut slots: Vec<Option<Arg>> = Vec::new();
    let mut k: usize = 0;
    while k < n
        invariant
            k <= n,
            slots.len() == k,
            forall|i: int| 0 <= i < k ==> (#[trigger] slots@[i]) is None,
        decreases n - k,
    {
        slots.push(None);
        k += 1;
    }
    assert(slots_view(slots@) =~= no_slots(sig@.len()));
    let mut next: usize = 0;
    for a in it: args
        invariant
            it.seq() == from,
            av == ast::args_view(from),
            n == sig@.len(),
            slots@.len() == n,
            next <= it.index(),
            slots_from(slots@, from),
            goal == fill_slots(av, sig@, span, 0, 0, no_slots(sig@.len())),
            goal == fill_slots(
                av,
                sig@,
                span,
                it.index() as nat,
                next as nat,
                slots_view(slots@),
            ),
            av == ast::args_view(args@),
    {
        let ghost at = it.index() as int;
        assert(from[at] == a);
        let idx: usize = match &a.name {
            None => next,
            Some(name) => {
                let i: usize = find_slot(sig, name.as_str());
                if i >= n {
                    let mut m = "unknown vmod argument name '".to_string();
                    m.append(name.as_str());
                    m.append("'");
                    return Err(VclError::new(span, m));
                }
                i
            },
        };
        if idx >= n {
            return Err(
                VclError::new(span, "too many positional arguments in vmod call".to_string()),
            );
        }
        if slots[idx].is_some() {
            let mut m = "duplicate value for vmod argument slot ".to_string();
            m.append(text::u64_text(idx as u64).as_str());
            return Err(VclError::new(span, m));
        }
        if a.name.is_none() {
            next += 1;
        }
        let ghost before = slots@;
        slots.set(idx, Some(a));
        proof {
            assert(slots_view(slots@) =~= slots_view(before).update(idx as int, Some(a@)));
            assert(slots_from(slots@, from)) by {
                assert forall|i: int|
                    0 <= i < slots@.len() && (#[trigger] slots@[i]) is Some implies exists|j: int|
                    0 <= j < from.len() && slots@[i]->0 == #[trigger] from[j] by {
                    if i == idx {
                        assert(slots@[i]->0 == from[at]);
                    } else {
                        assert(before[i] is Some);
                    }
                }
            }
        }
    }
    Ok(slots)
}


pub(crate) proof fn lemma_trimmed_prefix(args: Seq<ArgV>)
    ensures
        trimmed(args).len() <= args.len(),
        trimmed(args) == args.take(trimmed(args).len() as int),
    decreases args.len(),
{
    if args.len() > 0 && args.last().value is Omitted {
        lemma_trimmed_prefix(args.drop_last());
        let n = trimmed(args).len() as int;
        assert(args.drop_last().take(n) =~= args.take(n));
    } else {
        assert(args.take(args.len() as int) =~= args);
    }
}

pub(crate) proof fn lemma_filled_taken(
    args: Seq<ArgV>,
    sig: Seq<ArgSpecV>,
    span: Span,
    i: nat,
    next: nat,
    slots: Seq<Option<ArgV>>,
)
    requires
        slots.len() == sig.len(),
        forall|k: int|
            0 <= k < slots.len() && (#[trigger] slots[k]) is Some ==> args.contains(slots[k]->0),
    ensures
        match fill_slots(args, sig, span, i, next, slots) {
            Ok(s) => s.len() == sig.len() && forall|k: int|
                0 <= k < s.len() && (#[trigger] s[k]) is Some ==> args.contains(s[k]->0),
            Err(_) => true,
        },
    decreases args.len() - i,
{
    if i < args.len() {
        let a = args[i as int];
        assert(args.contains(a));
        let k = match a.name {
            Some(n) => slot_named(sig, n, 0),
            None => next,
        };
        let next1 = match a.name {
            Some(_) => next,
            None => next + 1,
        };
        if k < sig.len() && slots[k as int] is None {
            lemma_filled_taken(args, sig, span, i + 1, next1, slots.update(k as int, Some(a)));
        }
    }
}

/// A call by its signature has no value that it did not have before.
pub(crate) proof fn lemma_by_sig_taken(args: Seq<ArgV>, sig: Option<Seq<ArgSpecV>>, span: Span)
    ensures
        match by_sig(args, sig, span) {
            Ok(list) => taken_from(list, args),
            Err(_) => true,
        },
{
    match sig {
        Some(s) => {
            lemma_filled_taken(args, s, span, 0, 0, no_slots(s.len()));
            match fill_slots(args, s, span, 0, 0, no_slots(s.len())) {
                Ok(slots) => {
                    let all = slot_args(s, slots);
                    let list = trimmed(all);
                    lemma_trimmed_prefix(all);
                    assert forall|i: int|
                        0 <= i < list.len() && !((#[trigger] list[i]).value is Omitted) implies exists|
                        j: int,
                    |
                        0 <= j < args.len() && list[i].value == (#[trigger] args[j]).value by {
                        assert(list[i] == all[i]);
                        assert(all[i] == slot_arg(s[i], slots[i]));
                        assert(slots[i] is Some);
                        let j = choose|j: int| 0 <= j < args.len() && args[j] == slots[i]->0;
                        assert(list[i].value == args[j].value);
                    }
                },
                Err(_) => {},
            }
        },
        None => {
            assert forall|i: int|
                0 <= i < args.len() && !((#[trigger] args[i]).value is Omitted) implies exists|j: int|
                0 <= j < args.len() && args[i].value == (#[trigger] args[j]).value by {
                assert(args[i].value == args[i].value);
            }
        },
    }
}

/// The arguments of a call in the order in which they are declared. Where they
/// do not fit none is left.
pub fn rewrite_args(args: &mut Vec<Arg>, sig: &Sig, span: Span) -> (r: VclResult<()>)
    ensures
        match r {
            Ok(_) => {
                &&& rewritten(ast::args_view(old(args)@), sig@, span) == core::result::Result::<
                    Seq<ArgV>,
                    ErrV,
                >::Ok(ast::args_view(final(args)@))
                &&& moved_from(final(args)@, old(args)@)
            },
            Err(e) => {
                &&& rewritten(ast::args_view(old(args)@), sig@, span) == core::result::Result::<
                    Seq<ArgV>,
                    ErrV,
                >::Err(e@)
                &&& final(args)@.len() == 0
            },
        },
{
    let ghost from = args@;
    let mut given: Vec<Arg> = Vec::new();
    std::mem::swap(&mut given, args);
    let slots = place_args(given, sig, span)?;
    let ghost sv = slots_view(slots@);
    let ghost want = slot_args(sig@, sv);
    let ghost sl = slots@;
    let mut out: Vec<Arg> = Vec::new();
    assert(ast::args_view(out@) =~= want.take(0));
    for slot in it: slots
        invariant
            it.seq() == sl,
            sl.len() == sig@.len(),
            sv == slots_view(sl),
            want == slot_args(sig@, sv),
            slots_from(sl, from),
            out@.len() == it.index(),
            ast::args_view(out@) == want.take(it.index() as int),
            moved_from(out@, from),
    {
        let ghost at = it.index() as int;
        let ghost before = out@;
        let spec = &sig.args[out.len()];
        let arg = match slot {
            None => Arg { name: None, value: Expr::Omitted, span: Span::dummy() },
            Some(a) => {
                let is_default = spec.optional && match &spec.default {
                    Some(d) => text::str_eq(
                        d.as_str(),
                        printer::expr_to_string(&a.value).as_str(),
                    ),
                    None => false,
                };
                if is_default {
                    Arg { name: None, value: Expr::Omitted, span: a.span }
                } else {
                    Arg { name: None, value: a.value, span: a.span }
                }
            },
        };
        assert(arg@ == want[at]);
        out.push(arg);
        proof {
            ast::lemma_args_push(before, arg);
            assert(want.take(at + 1) =~= want.take(at).push(want[at]));
            assert forall|i: int|
                0 <= i < out@.len() && !((#[trigger] out@[i]).value is Omitted) implies exists|
                j: int,
            | 0 <= j < from.len() && out@[i].value == (#[trigger] from[j]).value by {
                if i < before.len() {
                    assert(out@[i] == before[i]);
                } else {
                    assert(sl[at] is Some);
                    let j = choose|j: int| 0 <= j < from.len() && sl[at]->0 == #[trigger] from[j];
                    assert(out@[i].value == from[j].value);
                }
            }
        }
    }
    assert(want.take(want.len() as int) =~= want);
    let ghost whole = out@;
    loop
        invariant
            trimmed(ast::args_view(out@)) == trimmed(want),
            moved_from(out@, from),
        ensures
            ast::args_view(out@) == trimmed(want),
            moved_from(out@, from),
        decreases out@.len(),
    {
        let n: usize = out.len();
        if n == 0 {
            break;
        }
        if !matches!(out[n - 1].value, Expr::Omitted) {
            break;
        }
        let ghost before = out@;
        out.pop();
        proof {
            assert(ast::args_view(out@) =~= ast::args_view(before).drop_last());
            assert(forall|i: int| 0 <= i < out@.len() ==> out@[i] == before[i]);
        }
    }
    *args = out;
    Ok(())
}

// ───────────────────────── the whole program ─────────────────────────

/// An object instance: its vmod and its constructor.
#[verifier::ext_equal]
pub struct InstanceV {
    pub vmod: Seq<char>,
    pub ctor: Seq<char>,
}

/// What a call is looked up in: the vmods, and the object instances.
pub struct KnownV {
    pub specs: Map<Seq<char>, VmodSpec>,
    pub instances: Map<Seq<char>, InstanceV>,
}

/// The instances that the first `n` statements make; a later one of the same
/// name counts.
pub open spec fn instances_in(
    stmts: Seq<StmtV>,
    n: nat,
    found: Map<Seq<char>, InstanceV>,
) -> Map<Seq<char>, InstanceV>
    decreases stmts, n,
{
    if n == 0 || n > stmts.len() {
        found
    } else {
        let done = instances_in(stmts, (n - 1) as nat, found);
        match stmts[n - 1] {
            StmtV::New { name, vmod, ctor, .. } => done.insert(name, InstanceV { vmod, ctor }),
            StmtV::If { arms, else_body, .. } => {
                let x = instances_in_arms(arms, arms.len(), done);
                match else_body {
                    Some(b) => instances_in(b, b.len(), x),
                    None => x,
                }
            },
            _ => done,
        }
    }
}

pub open spec fn instances_in_arms(
    arms: Seq<ArmV>,
    n: nat,
    found: Map<Seq<char>, InstanceV>,
) -> Map<Seq<char>, InstanceV>
    decreases arms, n,
{
    if n == 0 || n > arms.len() {
        found
    } else {
        instances_in(
            arms[n - 1].body,
            arms[n - 1].body.len(),
            instances_in_arms(arms, (n - 1) as nat, found),
        )
    }
}

/// The instances that the first `n` declarations make.
pub open spec fn instances_of(decls: Seq<DeclV>, n: nat) -> Map<Seq<char>, InstanceV>
    decreases n,
{
    if n == 0 {
        Map::empty()
    } else {
        let done = instances_of(decls, (n - 1) as nat);
        match decls[n - 1] {
            DeclV::Sub { body, .. } => instances_in(body, body.len(), done),
            _ => done,
        }
    }
}

/// The signature of a function or a method that is called.
pub open spec fn call_sig(k: KnownV, target: Seq<Seq<char>>) -> Option<Seq<ArgSpecV>> {
    if target.len() != 2 {
        None
    } else if k.specs.contains_key(target[0]) {
        let f = k.specs[target[0]].funcs@;
        if f.contains_key(target[1]) {
            Some(f[target[1]]@)
        } else {
            None
        }
    } else if k.instances.contains_key(target[0]) {
        let i = k.instances[target[0]];
        if k.specs.contains_key(i.vmod) && k.specs[i.vmod].objects@.contains_key(i.ctor) {
            let m = k.specs[i.vmod].objects@[i.ctor].methods@;
            if m.contains_key(target[1]) {
                Some(m[target[1]]@)
            } else {
                None
            }
        } else {
            None
        }
    } else {
        None
    }
}

/// The signature of a constructor.
pub open spec fn ctor_sig(k: KnownV, vmod: Seq<char>, ctor: Seq<char>) -> Option<Seq<ArgSpecV>> {
    if k.specs.contains_key(vmod) && k.specs[vmod].objects@.contains_key(ctor) {
        Some(k.specs[vmod].objects@[ctor].init@)
    } else {
        None
    }
}

/// The arguments by a signature, where it is known.
pub open spec fn by_sig(
    args: Seq<ArgV>,
    sig: Option<Seq<ArgSpecV>>,
    span: Span,
) -> core::result::Result<Seq<ArgV>, ErrV> {
    match sig {
        Some(s) => rewritten(args, s, span),
        None => Ok(args),
    }
}

pub open spec fn pass_expr(e: ExprV, k: KnownV, span: Span) -> core::result::Result<ExprV, ErrV>
    decreases e, 1nat, 0nat,
{
    match e {
        ExprV::Call { target, args } => match by_sig(args, call_sig(k, target), span) {
            Err(x) => Err(x),
            Ok(list) => match pass_args(e, list, k, span, list.len()) {
                Err(x) => Err(x),
                Ok(done) => Ok(ExprV::Call { target, args: done }),
            },
        },
        ExprV::Unary { op, expr } => match pass_expr(*expr, k, span) {
            Err(x) => Err(x),
            Ok(y) => Ok(ExprV::Unary { op, expr: Box::new(y) }),
        },
        ExprV::Binary { op, lhs, rhs } => match pass_expr(*lhs, k, span) {
            Err(x) => Err(x),
            Ok(l) => match pass_expr(*rhs, k, span) {
                Err(x) => Err(x),
                Ok(r) => Ok(
                    ExprV::Binary { op, lhs: Box::new(l), rhs: Box::new(r) },
                ),
            },
        },
        _ => Ok(e),
    }
}

/// The first `n` arguments after the pass; their values are parts of `whole`,
/// or left out.
pub open spec fn pass_args(
    whole: ExprV,
    args: Seq<ArgV>,
    k: KnownV,
    span: Span,
    n: nat,
) -> core::result::Result<Seq<ArgV>, ErrV>
    decreases whole, 0nat, n,
{
    if n == 0 || n > args.len() {
        Ok(seq![])
    } else {
        match pass_args(whole, args, k, span, (n - 1) as nat) {
            Err(x) => Err(x),
            Ok(done) => {
                let a = args[n - 1];
                if decreases_to!(whole => a.value) {
                    match pass_expr(a.value, k, span) {
                        Err(x) => Err(x),
                        Ok(v) => Ok(done.push(ArgV { value: v, ..a })),
                    }
                } else {
                    Ok(done.push(a))
                }
            },
        }
    }
}


pub open spec fn pass_exprs(es: Seq<ExprV>, k: KnownV, span: Span, n: nat) -> core::result::Result<
    Seq<ExprV>,
    ErrV,
>
    decreases n,
{
    if n == 0 {
        Ok(seq![])
    } else {
        match pass_exprs(es, k, span, (n - 1) as nat) {
            Err(x) => Err(x),
            Ok(done) => match pass_expr(es[n - 1], k, span) {
                Err(x) => Err(x),
                Ok(v) => Ok(done.push(v)),
            },
        }
    }
}

/// The call that a `new` makes.
pub open spec fn ctor_call(vmod: Seq<char>, ctor: Seq<char>, args: Seq<ArgV>) -> ExprV {
    ExprV::Call { target: seq![vmod, ctor], args }
}

pub open spec fn pass_stmt(s: StmtV, k: KnownV) -> core::result::Result<StmtV, ErrV>
    decreases s, 0nat,
{
    let sp = ast::stmt_span(s);
    match s {
        StmtV::Assign { lhs, rhs, span } => match pass_expr(rhs, k, sp) {
            Err(x) => Err(x),
            Ok(v) => Ok(StmtV::Assign { lhs, rhs: v, span }),
        },
        StmtV::Unset { .. } => Ok(s),
        StmtV::Call { .. } => Ok(s),
        StmtV::Return { action, span } => match action {
            Some(a) => match pass_exprs(a.args, k, sp, a.args.len()) {
                Err(x) => Err(x),
                Ok(args) => Ok(
                    StmtV::Return { action: Some(ReturnActionV { args, ..a }), span },
                ),
            },
            None => Ok(s),
        },
        StmtV::Synthetic { value, span } => match pass_expr(value, k, sp) {
            Err(x) => Err(x),
            Ok(v) => Ok(StmtV::Synthetic { value: v, span }),
        },
        StmtV::If { arms, else_body, span } => match pass_arms(arms, k, sp, arms.len()) {
            Err(x) => Err(x),
            Ok(done) => match else_body {
                Some(b) => match pass_stmts(b, k, b.len()) {
                    Err(x) => Err(x),
                    Ok(e) => Ok(StmtV::If { arms: done, else_body: Some(e), span }),
                },
                None => Ok(StmtV::If { arms: done, else_body: None, span }),
            },
        },
        StmtV::New { name, vmod, ctor, args, span } => match by_sig(
            args,
            ctor_sig(k, vmod, ctor),
            sp,
        ) {
            Err(x) => Err(x),
            Ok(list) => match pass_args(ctor_call(vmod, ctor, args), list, k, sp, list.len()) {
                Err(x) => Err(x),
                Ok(done) => Ok(StmtV::New { name, vmod, ctor, args: done, span }),
            },
        },
        StmtV::Expr { expr, span } => match pass_expr(expr, k, sp) {
            Err(x) => Err(x),
            Ok(v) => Ok(StmtV::Expr { expr: v, span }),
        },
    }
}

/// The first `n` statements after the pass.
pub open spec fn pass_stmts(ss: Seq<StmtV>, k: KnownV, n: nat) -> core::result::Result<
    Seq<StmtV>,
    ErrV,
>
    decreases ss, n,
{
    if n == 0 || n > ss.len() {
        Ok(seq![])
    } else {
        match pass_stmts(ss, k, (n - 1) as nat) {
            Err(x) => Err(x),
            Ok(done) => match pass_stmt(ss[n - 1], k) {
                Err(x) => Err(x),
                Ok(v) => Ok(done.push(v)),
            },
        }
    }
}

/// The first `n` arms after the pass.
pub open spec fn pass_arms(arms: Seq<ArmV>, k: KnownV, span: Span, n: nat) -> core::result::Result<
    Seq<ArmV>,
    ErrV,
>
    decreases arms, n,
{
    if n == 0 || n > arms.len() {
        Ok(seq![])
    } else {
        match pass_arms(arms, k, span, (n - 1) as nat) {
            Err(x) => Err(x),
            Ok(done) => match pass_expr(arms[n - 1].cond, k, span) {
                Err(x) => Err(x),
                Ok(cond) => match pass_stmts(arms[n - 1].body, k, arms[n - 1].body.len()) {
                    Err(x) => Err(x),
                    Ok(body) => Ok(done.push(ArmV { cond, body })),
                },
            },
        }
    }
}

/// The first `n` declarations after the pass.
pub open spec fn pass_decls(ds: Seq<DeclV>, k: KnownV, n: nat) -> core::result::Result<
    Seq<DeclV>,
    ErrV,
>
    decreases n,
{
    if n == 0 {
        Ok(seq![])
    } else {
        match pass_decls(ds, k, (n - 1) as nat) {
            Err(x) => Err(x),
            Ok(done) => match ds[n - 1] {
                DeclV::Sub { name, body, span } => match pass_stmts(body, k, body.len()) {
                    Err(x) => Err(x),
                    Ok(b) => Ok(done.push(DeclV::Sub { name, body: b, span })),
                },
                d => Ok(done.push(d)),
            },
        }
    }
}

/// A program after the pass.
pub open spec fn pass_program(p: ProgramV, specs: Map<Seq<char>, VmodSpec>) -> core::result::Result<
    ProgramV,
    ErrV,
> {
    let k = KnownV { specs, instances: instances_of(p.decls, p.decls.len()) };
    match pass_decls(p.decls, k, p.decls.len()) {
        Err(x) => Err(x),
        Ok(decls) => Ok(ProgramV { decls, ..p }),
    }
}

// ───────────────────────── doing it ─────────────────────────

pub open spec fn instances_view(m: Map<Seq<char>, (String, String)>) -> Map<
    Seq<char>,
    InstanceV,
> {
    Map::new(
        |k: Seq<char>| m.contains_key(k),
        |k: Seq<char>| InstanceV { vmod: m[k].0@, ctor: m[k].1@ },
    )
}

/// What calls are looked up in.
struct Known<'a> {
    specs: &'a Table<VmodSpec>,
    instances: Table<(String, String)>,
}

impl View for Known<'_> {
    type V = KnownV;

    closed spec fn view(&self) -> KnownV {
        KnownV { specs: self.specs@, instances: instances_view(self.instances@) }
    }
}

fn collect_instances_stmts(ss: &Vec<Stmt>, map: &mut Table<(String, String)>)
    ensures
        instances_view(final(map)@) == instances_in(
            ast::stmts_view(ss@),
            ss@.len(),
            instances_view(old(map)@),
        ),
    decreases ss,
{
    let ghost sv = ast::stmts_view(ss@);
    let ghost start = instances_view(map@);
    let mut i: usize = 0;
    while i < ss.len()
        invariant
            i <= ss.len(),
            sv == ast::stmts_view(ss@),
            instances_view(map@) == instances_in(sv, i as nat, start),
        decreases ss.len() - i,
    {
        let ghost done = map@;
        match &ss[i] {
            Stmt::New { name, vmod, ctor, .. } => {
                map.insert(name.clone(), (vmod.clone(), ctor.clone()));
                assert(instances_view(map@) =~= instances_view(done).insert(
                    name@,
                    InstanceV { vmod: vmod@, ctor: ctor@ },
                ));
            },
            Stmt::If { arms, else_body, .. } => {
                collect_instances_arms(arms, map);
                if let Some(b) = else_body {
                    collect_instances_stmts(b, map);
                }
            },
            _ => {},
        }
        i += 1;
        assert(sv[i - 1] == ast::stmt_view(ss@[i - 1]));
    }
}

fn collect_instances_arms(arms: &Vec<(Expr, Vec<Stmt>)>, map: &mut Table<(String, String)>)
    ensures
        instances_view(final(map)@) == instances_in_arms(
            ast::arms_view(arms@),
            arms@.len(),
            instances_view(old(map)@),
        ),
    decreases arms,
{
    let ghost av = ast::arms_view(arms@);
    let ghost start = instances_view(map@);
    let mut i: usize = 0;
    while i < arms.len()
        invariant
            i <= arms.len(),
            av == ast::arms_view(arms@),
            instances_view(map@) == instances_in_arms(av, i as nat, start),
        decreases arms.len() - i,
    {
        collect_instances_stmts(&arms[i].1, map);
        i += 1;
        assert(av[i - 1] == ast::arm_view(arms@[i - 1]));
    }
}

fn collect_instances(p: &Program) -> (r: Table<(String, String)>)
    ensures
        instances_view(r@) == instances_of(p@.decls, p@.decls.len()),
{
    let mut map: Table<(String, String)> = Table::new();
    let ghost dv = p@.decls;
    let mut i: usize = 0;
    assert(instances_view(map@) =~= instances_of(dv, 0));
    while i < p.decls.len()
        invariant
            i <= p.decls.len(),
            dv == p@.decls,
            instances_view(map@) == instances_of(dv, i as nat),
        decreases p.decls.len() - i,
    {
        if let Decl::Sub { body, .. } = &p.decls[i] {
            collect_instances_stmts(body, &mut map);
        }
        i += 1;
        assert(dv[i - 1] == ast::decl_view(p.decls@[i - 1]));
    }
    map
}

fn find_call_sig<'a>(k: &'a Known, target: &Vec<String>) -> (r: Option<&'a Sig>)
    ensures
        match r {
            Some(s) => call_sig(k@, text::texts(target@)) == Some(s@),
            None => call_sig(k@, text::texts(target@)) is None,
        },
{
    if target.len() != 2 {
        return None;
    }
    assert(text::texts(target@)[0] == target@[0]@);
    assert(text::texts(target@)[1] == target@[1]@);
    match k.specs.get(target[0].as_str()) {
        Some(spec) => spec.funcs.get(target[1].as_str()),
        None => match k.instances.get(target[0].as_str()) {
            Some(inst) => match k.specs.get(inst.0.as_str()) {
                Some(spec) => match spec.objects.get(inst.1.as_str()) {
                    Some(obj) => obj.methods.get(target[1].as_str()),
                    None => None,
                },
                None => None,
            },
            None => None,
        },
    }
}

fn find_ctor_sig<'a>(k: &'a Known, vmod: &str, ctor: &str) -> (r: Option<&'a Sig>)
    ensures
        match r {
            Some(s) => ctor_sig(k@, vmod@, ctor@) == Some(s@),
            None => ctor_sig(k@, vmod@, ctor@) is None,
        },
{
    match k.specs.get(vmod) {
        Some(spec) => match spec.objects.get(ctor) {
            Some(obj) => Some(&obj.init),
            None => None,
        },
        None => None,
    }
}


spec fn expr_result(r: VclResult<Expr>) -> core::result::Result<ExprV, ErrV> {
    match r {
        Ok(v) => Ok(v@),
        Err(e) => Err(e@),
    }
}

spec fn exprs_result(r: VclResult<Vec<Expr>>) -> core::result::Result<Seq<ExprV>, ErrV> {
    match r {
        Ok(v) => Ok(ast::exprs_view(v@)),
        Err(e) => Err(e@),
    }
}

spec fn args_result(r: VclResult<Vec<Arg>>) -> core::result::Result<Seq<ArgV>, ErrV> {
    match r {
        Ok(v) => Ok(ast::args_view(v@)),
        Err(e) => Err(e@),
    }
}

spec fn stmt_result(r: VclResult<Stmt>) -> core::result::Result<StmtV, ErrV> {
    match r {
        Ok(v) => Ok(v@),
        Err(e) => Err(e@),
    }
}

spec fn stmts_result(r: VclResult<Vec<Stmt>>) -> core::result::Result<Seq<StmtV>, ErrV> {
    match r {
        Ok(v) => Ok(ast::stmts_view(v@)),
        Err(e) => Err(e@),
    }
}

spec fn arms_result(r: VclResult<Vec<(Expr, Vec<Stmt>)>>) -> core::result::Result<
    Seq<ArmV>,
    ErrV,
> {
    match r {
        Ok(v) => Ok(ast::arms_view(v@)),
        Err(e) => Err(e@),
    }
}

spec fn decls_result(r: VclResult<Vec<Decl>>) -> core::result::Result<Seq<DeclV>, ErrV> {
    match r {
        Ok(v) => Ok(ast::decls_view(v@)),
        Err(e) => Err(e@),
    }
}

spec fn sig_view(sig: Option<&Sig>) -> Option<Seq<ArgSpecV>> {
    match sig {
        Some(s) => Some(s@),
        None => None,
    }
}

fn process_expr(e: Expr, k: &Known, span: Span) -> (r: VclResult<Expr>)
    ensures
        expr_result(r) == pass_expr(e@, k@, span),
    decreases e, 1nat,
{
    match e {
        Expr::Call { target, args } => {
            let done = process_call(
                find_call_sig(k, &target),
                args,
                k,
                span,
                Ghost(e),
                Ghost(e@),
            )?;
            Ok(Expr::Call { target, args: done })
        },
        Expr::Unary { op, expr } => {
            let x = process_expr(*expr, k, span)?;
            Ok(Expr::Unary { op, expr: Box::new(x) })
        },
        Expr::Binary { op, lhs, rhs } => {
            let l = process_expr(*lhs, k, span)?;
            let r = process_expr(*rhs, k, span)?;
            Ok(Expr::Binary { op, lhs: Box::new(l), rhs: Box::new(r) })
        },
        other => Ok(other),
    }
}

proof fn lemma_pass_args_err(
    whole: ExprV,
    args: Seq<ArgV>,
    k: KnownV,
    span: Span,
    n: nat,
    m: nat,
)
    requires
        n <= m <= args.len(),
        pass_args(whole, args, k, span, n) is Err,
    ensures
        pass_args(whole, args, k, span, m) == pass_args(whole, args, k, span, n),
    decreases m - n,
{
    if n < m {
        lemma_pass_args_err(whole, args, k, span, n, (m - 1) as nat);
    }
}

/// The arguments by their signature, and then each of them.
fn process_call(
    sig: Option<&Sig>,
    args: Vec<Arg>,
    k: &Known,
    span: Span,
    Ghost(whole): Ghost<Expr>,
    Ghost(wv): Ghost<ExprV>,
) -> (r: VclResult<Vec<Arg>>)
    requires
        whole matches Expr::Call { args: a, .. } && a@ == args@,
        wv matches ExprV::Call { args: a, .. } && a == ast::args_view(args@),
    ensures
        args_result(r) == (match by_sig(ast::args_view(args@), sig_view(sig), span) {
            Err(x) => Err(x),
            Ok(list) => pass_args(wv, list, k@, span, list.len()),
        }),
    decreases whole, 0nat,
{
    let ghost from = args@;
    let ghost fv = ast::args_view(from);
    let mut given = args;
    if let Some(s) = sig {
        rewrite_args(&mut given, s, span)?;
    } else {
        assert(forall|i: int| 0 <= i < from.len() ==> #[trigger] given@[i] == from[i]);
    }
    let ghost list = given@;
    let ghost lv = ast::args_view(list);
    let mut out: Vec<Arg> = Vec::new();
    assert(ast::args_view(out@) =~= Seq::<ArgV>::empty());
    for a in it: given
        invariant
            it.seq() == list,
            whole matches Expr::Call { args: a, .. } && a@ == from,
            wv matches ExprV::Call { args: a, .. } && a == fv,
            fv == ast::args_view(from),
            lv == ast::args_view(list),
            moved_from(list, from),
            fv == ast::args_view(args@),
            by_sig(fv, sig_view(sig), span) == core::result::Result::<Seq<ArgV>, ErrV>::Ok(lv),
            pass_args(wv, lv, k@, span, it.index() as nat) == core::result::Result::<
                Seq<ArgV>,
                ErrV,
            >::Ok(ast::args_view(out@)),
    {
        let ghost at = it.index() as int;
        assert(list[at] == a);
        assert(lv[at] == a@);
        if matches!(a.value, Expr::Omitted) {
            proof {
                ast::lemma_args_push(out@, a);
            }
            out.push(a);
        } else {
            proof {
                let j = choose|j: int|
                    0 <= j < from.len() && list[at].value == (#[trigger] from[j]).value;
                assert(decreases_to!(whole => from[j].value));
                assert(fv[j] == ast::arg_view(from[j]));
                assert(decreases_to!(wv => fv[j].value));
            }
            match process_expr(a.value, k, span) {
                Ok(v) => {
                    let done = Arg { name: a.name, value: v, span: a.span };
                    proof {
                        ast::lemma_args_push(out@, done);
                    }
                    out.push(done);
                },
                Err(x) => {
                    proof {
                        lemma_pass_args_err(wv, lv, k@, span, (at + 1) as nat, lv.len());
                    }
                    return Err(x);
                },
            }
        }
    }
    Ok(out)
}

proof fn lemma_pass_exprs_err(es: Seq<ExprV>, k: KnownV, span: Span, n: nat, m: nat)
    requires
        n <= m <= es.len(),
        pass_exprs(es, k, span, n) is Err,
    ensures
        pass_exprs(es, k, span, m) == pass_exprs(es, k, span, n),
    decreases m - n,
{
    if n < m {
        lemma_pass_exprs_err(es, k, span, n, (m - 1) as nat);
    }
}

fn process_exprs(es: Vec<Expr>, k: &Known, span: Span) -> (r: VclResult<Vec<Expr>>)
    ensures
        exprs_result(r) == pass_exprs(ast::exprs_view(es@), k@, span, es@.len()),
{
    let ghost list = es@;
    let ghost lv = ast::exprs_view(list);
    let mut out: Vec<Expr> = Vec::new();
    assert(ast::exprs_view(out@) =~= Seq::<ExprV>::empty());
    for e in it: es
        invariant
            it.seq() == list,
            lv == ast::exprs_view(list),
            list == es@,
            pass_exprs(lv, k@, span, it.index() as nat) == core::result::Result::<
                Seq<ExprV>,
                ErrV,
            >::Ok(ast::exprs_view(out@)),
    {
        let ghost at = it.index() as int;
        assert(lv[at] == e@);
        match process_expr(e, k, span) {
            Ok(v) => {
                proof {
                    ast::lemma_exprs_push(out@, v);
                }
                out.push(v);
            },
            Err(x) => {
                proof {
                    lemma_pass_exprs_err(lv, k@, span, (at + 1) as nat, lv.len());
                }
                return Err(x);
            },
        }
    }
    Ok(out)
}

fn process_stmt(s: Stmt, k: &Known) -> (r: VclResult<Stmt>)
    ensures
        stmt_result(r) == pass_stmt(s@, k@),
    decreases s,
{
    let sp: Span = s.span();
    match s {
        Stmt::Assign { lhs, rhs, span } => {
            let v = process_expr(rhs, k, sp)?;
            Ok(Stmt::Assign { lhs, rhs: v, span })
        },
        Stmt::Return { action: Some(a), span } => {
            let args = process_exprs(a.args, k, sp)?;
            Ok(Stmt::Return { action: Some(ast::ReturnAction { name: a.name, args }), span })
        },
        Stmt::Synthetic { value, span } => {
            let v = process_expr(value, k, sp)?;
            Ok(Stmt::Synthetic { value: v, span })
        },
        Stmt::If { arms, else_body, span } => {
            let done = process_arms(arms, k, sp)?;
            match else_body {
                Some(b) => {
                    let e = process_stmts(b, k)?;
                    Ok(Stmt::If { arms: done, else_body: Some(e), span })
                },
                None => Ok(Stmt::If { arms: done, else_body: None, span }),
            }
        },
        Stmt::New { name, vmod, ctor, args, span } => {
            let ghost target: Vec<String> = arbitrary();
            let ghost whole = Expr::Call { target, args };
            let done = process_call(
                find_ctor_sig(k, vmod.as_str(), ctor.as_str()),
                args,
                k,
                sp,
                Ghost(whole),
                Ghost(ctor_call(vmod@, ctor@, ast::args_view(args@))),
            )?;
            Ok(Stmt::New { name, vmod, ctor, args: done, span })
        },
        Stmt::Expr { expr, span } => {
            let v = process_expr(expr, k, sp)?;
            Ok(Stmt::Expr { expr: v, span })
        },
        other => Ok(other),
    }
}

proof fn lemma_pass_stmts_err(ss: Seq<StmtV>, k: KnownV, n: nat, m: nat)
    requires
        n <= m <= ss.len(),
        pass_stmts(ss, k, n) is Err,
    ensures
        pass_stmts(ss, k, m) == pass_stmts(ss, k, n),
    decreases m - n,
{
    if n < m {
        lemma_pass_stmts_err(ss, k, n, (m - 1) as nat);
    }
}

fn process_stmts(ss: Vec<Stmt>, k: &Known) -> (r: VclResult<Vec<Stmt>>)
    ensures
        stmts_result(r) == pass_stmts(ast::stmts_view(ss@), k@, ss@.len()),
    decreases ss,
{
    let ghost list = ss@;
    let ghost lv = ast::stmts_view(list);
    let mut out: Vec<Stmt> = Vec::new();
    assert(ast::stmts_view(out@) =~= Seq::<StmtV>::empty());
    for s in it: ss
        invariant
            it.seq() == list,
            lv == ast::stmts_view(list),
            list == ss@,
            decreases_to!(ss => list),
            pass_stmts(lv, k@, it.index() as nat) == core::result::Result::<Seq<StmtV>, ErrV>::Ok(
                ast::stmts_view(out@),
            ),
    {
        let ghost at = it.index() as int;
        assert(list[at] == s);
        assert(lv[at] == s@);
        match process_stmt(s, k) {
            Ok(v) => {
                proof {
                    ast::lemma_stmts_push(out@, v);
                }
                out.push(v);
            },
            Err(x) => {
                proof {
                    lemma_pass_stmts_err(lv, k@, (at + 1) as nat, lv.len());
                }
                return Err(x);
            },
        }
    }
    Ok(out)
}

proof fn lemma_pass_arms_err(arms: Seq<ArmV>, k: KnownV, span: Span, n: nat, m: nat)
    requires
        n <= m <= arms.len(),
        pass_arms(arms, k, span, n) is Err,
    ensures
        pass_arms(arms, k, span, m) == pass_arms(arms, k, span, n),
    decreases m - n,
{
    if n < m {
        lemma_pass_arms_err(arms, k, span, n, (m - 1) as nat);
    }
}

fn process_arms(arms: Vec<(Expr, Vec<Stmt>)>, k: &Known, span: Span) -> (r: VclResult<
    Vec<(Expr, Vec<Stmt>)>,
>)
    ensures
        arms_result(r) == pass_arms(ast::arms_view(arms@), k@, span, arms@.len()),
    decreases arms,
{
    let ghost list = arms@;
    let ghost lv = ast::arms_view(list);
    let mut out: Vec<(Expr, Vec<Stmt>)> = Vec::new();
    assert(ast::arms_view(out@) =~= Seq::<ArmV>::empty());
    for a in it: arms
        invariant
            it.seq() == list,
            lv == ast::arms_view(list),
            list == arms@,
            decreases_to!(arms => list),
            pass_arms(lv, k@, span, it.index() as nat) == core::result::Result::<
                Seq<ArmV>,
                ErrV,
            >::Ok(ast::arms_view(out@)),
    {
        let ghost at = it.index() as int;
        assert(list[at] == a);
        assert(lv[at] == ast::arm_view(a));
        let cond = match process_expr(a.0, k, span) {
            Ok(v) => v,
            Err(x) => {
                proof {
                    lemma_pass_arms_err(lv, k@, span, (at + 1) as nat, lv.len());
                }
                return Err(x);
            },
        };
        let body = match process_stmts(a.1, k) {
            Ok(v) => v,
            Err(x) => {
                proof {
                    lemma_pass_arms_err(lv, k@, span, (at + 1) as nat, lv.len());
                }
                return Err(x);
            },
        };
        proof {
            ast::lemma_arms_push(out@, (cond, body));
        }
        out.push((cond, body));
    }
    Ok(out)
}

proof fn lemma_pass_decls_err(ds: Seq<DeclV>, k: KnownV, n: nat, m: nat)
    requires
        n <= m <= ds.len(),
        pass_decls(ds, k, n) is Err,
    ensures
        pass_decls(ds, k, m) == pass_decls(ds, k, n),
    decreases m - n,
{
    if n < m {
        lemma_pass_decls_err(ds, k, n, (m - 1) as nat);
    }
}

fn process_decls(ds: Vec<Decl>, k: &Known) -> (r: VclResult<Vec<Decl>>)
    ensures
        decls_result(r) == pass_decls(ast::decls_view(ds@), k@, ds@.len()),
{
    let ghost list = ds@;
    let ghost lv = ast::decls_view(list);
    let mut out: Vec<Decl> = Vec::new();
    assert(ast::decls_view(out@) =~= Seq::<DeclV>::empty());
    for d in it: ds
        invariant
            it.seq() == list,
            lv == ast::decls_view(list),
            list == ds@,
            pass_decls(lv, k@, it.index() as nat) == core::result::Result::<Seq<DeclV>, ErrV>::Ok(
                ast::decls_view(out@),
            ),
    {
        let ghost at = it.index() as int;
        assert(lv[at] == d@);
        let done = match d {
            Decl::Sub { name, body, span } => match process_stmts(body, k) {
                Ok(b) => Decl::Sub { name, body: b, span },
                Err(x) => {
                    proof {
                        lemma_pass_decls_err(lv, k@, (at + 1) as nat, lv.len());
                    }
                    return Err(x);
                },
            },
            other => other,
        };
        proof {
            ast::lemma_decls_push(out@, done);
        }
        out.push(done);
    }
    Ok(out)
}

/// Runs the pass. Where it fails, the program stays as it was.
pub fn run(p: &mut Program, specs: &Table<VmodSpec>) -> (r: VclResult<()>)
    ensures
        match (pass_program(old(p)@, specs@), r) {
            (Ok(q), Ok(_)) => final(p)@ == q,
            (Err(x), Err(e)) => e@ == x && final(p)@ == old(p)@,
            _ => false,
        },
{
    let k = Known { specs, instances: collect_instances(p) };
    let done = process_decls(ast::clones::clone_decls(&p.decls), &k)?;
    p.decls = done;
    Ok(())
}

} // verus!
