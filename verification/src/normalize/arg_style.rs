//! How the arguments of a vmod call are given does not matter: by position or
//! by name, in whichever order, and a default given or left out.

use crate::ast::{ArgV, ErrV, ExprV, Span};
use crate::layout;
use crate::layout::passes;
use crate::normalize::vmod_args;
use crate::normalize::vmod_args::KnownV;
use crate::printer;
use crate::symbols;
use crate::symbols::references;
use crate::vmod::ArgSpecV;
use vstd::prelude::*;

verus! {

/// The slot of the `j`th argument: that of its name, or the next one.
pub open spec fn slot_of(args: Seq<ArgV>, sig: Seq<ArgSpecV>, j: int) -> nat {
    match args[j].name {
        Some(n) => vmod_args::slot_named(sig, n, 0),
        None => symbols::positional(args, j as nat),
    }
}

/// Whether every argument has a slot, and no two have the same.
pub open spec fn fits(args: Seq<ArgV>, sig: Seq<ArgSpecV>) -> bool {
    &&& forall|j: int| 0 <= j < args.len() ==> #[trigger] slot_of(args, sig, j) < sig.len()
    &&& forall|i: int, j: int|
        0 <= i < j < args.len() ==> #[trigger] slot_of(args, sig, i) != #[trigger] slot_of(
            args,
            sig,
            j,
        )
}

/// The argument in slot `k` among the first `n` arguments.
pub open spec fn held(args: Seq<ArgV>, sig: Seq<ArgSpecV>, k: nat, n: nat) -> Option<ArgV>
    decreases n,
{
    if n == 0 {
        None
    } else if slot_of(args, sig, n - 1) == k {
        Some(args[n - 1])
    } else {
        held(args, sig, k, (n - 1) as nat)
    }
}

/// The value that a slot comes to, without its places: none where it is empty
/// or holds its default.
pub open spec fn slot_value(args: Seq<ArgV>, sig: Seq<ArgSpecV>, k: nat) -> Option<ExprV> {
    match held(args, sig, k, args.len()) {
        Some(a) => if a.value is Omitted || (sig[k as int].optional && sig[k as int].default == Some(
            printer::expr_text(a.value),
        )) {
            None
        } else {
            Some(layout::bare_expr(a.value))
        },
        None => None,
    }
}

/// Whether two lists of arguments come to the same values.
pub open spec fn same_values(args: Seq<ArgV>, other: Seq<ArgV>, sig: Seq<ArgSpecV>) -> bool {
    forall|k: nat|
        k < sig.len() ==> #[trigger] slot_value(args, sig, k) == slot_value(other, sig, k)
}

proof fn lemma_held(args: Seq<ArgV>, sig: Seq<ArgSpecV>, k: nat, n: nat)
    requires
        n <= args.len(),
    ensures
        held(args, sig, k, n) is Some <==> exists|i: int|
            0 <= i < n && #[trigger] slot_of(args, sig, i) == k,
    decreases n,
{
    if n > 0 {
        lemma_held(args, sig, k, (n - 1) as nat);
        if slot_of(args, sig, n - 1) == k {
            assert(0 <= n - 1 < n);
        } else if held(args, sig, k, (n - 1) as nat) is Some {
            let i = choose|i: int| 0 <= i < n - 1 && #[trigger] slot_of(args, sig, i) == k;
            assert(slot_of(args, sig, i) == k);
        }
    }
}

/// The slots when the first `n` arguments are in theirs.
spec fn filled(args: Seq<ArgV>, sig: Seq<ArgSpecV>, n: nat) -> Seq<Option<ArgV>> {
    Seq::new(sig.len(), |k: int| held(args, sig, k as nat, n))
}

/// Whether the arguments from `i` on have slots of their own.
spec fn fits_from(args: Seq<ArgV>, sig: Seq<ArgSpecV>, i: nat) -> bool {
    forall|j: int|
        i <= j < args.len() ==> #[trigger] slot_of(args, sig, j) < sig.len() && held(
            args,
            sig,
            slot_of(args, sig, j),
            j as nat,
        ) is None
}

proof fn lemma_filled(args: Seq<ArgV>, sig: Seq<ArgSpecV>, span: Span, i: nat)
    requires
        i <= args.len(),
    ensures
        match vmod_args::fill_slots(
            args,
            sig,
            span,
            i,
            symbols::positional(args, i),
            filled(args, sig, i),
        ) {
            Ok(s) => fits_from(args, sig, i) && s == filled(args, sig, args.len()),
            Err(_) => !fits_from(args, sig, i),
        },
    decreases args.len() - i,
{
    if i < args.len() {
        let a = args[i as int];
        let k = slot_of(args, sig, i as int);
        lemma_filled(args, sig, span, i + 1);
        if k < sig.len() {
            assert(filled(args, sig, i)[k as int] == held(args, sig, k, i));
            if held(args, sig, k, i) is None {
                assert(filled(args, sig, i + 1) =~= filled(args, sig, i).update(
                    k as int,
                    Some(a),
                ));
            }
        }
        assert(fits_from(args, sig, i) ==> fits_from(args, sig, i + 1));
    }
}

proof fn lemma_fits(args: Seq<ArgV>, sig: Seq<ArgSpecV>)
    ensures
        fits(args, sig) <==> fits_from(args, sig, 0),
{
    if fits(args, sig) {
        assert forall|j: int| 0 <= j < args.len() implies #[trigger] slot_of(args, sig, j)
            < sig.len() && held(args, sig, slot_of(args, sig, j), j as nat) is None by {
            lemma_held(args, sig, slot_of(args, sig, j), j as nat);
        }
    }
    if fits_from(args, sig, 0) {
        assert forall|i: int, j: int| 0 <= i < j < args.len() implies #[trigger] slot_of(
            args,
            sig,
            i,
        ) != #[trigger] slot_of(args, sig, j) by {
            lemma_held(args, sig, slot_of(args, sig, j), j as nat);
        }
    }
}

proof fn lemma_rewritten(args: Seq<ArgV>, sig: Seq<ArgSpecV>, span: Span)
    ensures
        match vmod_args::rewritten(args, sig, span) {
            Ok(list) => fits(args, sig) && list == vmod_args::trimmed(
                vmod_args::slot_args(sig, filled(args, sig, args.len())),
            ),
            Err(_) => !fits(args, sig),
        },
{
    lemma_fits(args, sig);
    lemma_filled(args, sig, span, 0);
    assert(filled(args, sig, 0) =~= vmod_args::no_slots(sig.len()));
}

/// The arguments of a call can be put in order if and only if each has a slot
/// of its own.
pub proof fn law_arguments_need_slots(args: Seq<ArgV>, sig: Seq<ArgSpecV>, span: Span)
    ensures
        vmod_args::rewritten(args, sig, span) is Ok <==> fits(args, sig),
{
    lemma_rewritten(args, sig, span);
}

/// Arguments that are put in order are all given by position, there are no more
/// of them than slots, and the last one is not left out.
pub proof fn law_arguments_become_positional(args: Seq<ArgV>, sig: Seq<ArgSpecV>, span: Span)
    requires
        fits(args, sig),
    ensures
        vmod_args::rewritten(args, sig, span) matches Ok(list) && list.len() <= sig.len()
            && (forall|i: int| 0 <= i < list.len() ==> (#[trigger] list[i]).name is None) && (
        list.len() > 0 ==> !(list.last().value is Omitted)),
{
    lemma_rewritten(args, sig, span);
    let all = vmod_args::slot_args(sig, filled(args, sig, args.len()));
    vmod_args::lemma_trimmed_prefix(all);
    lemma_trimmed_last(all);
}

proof fn lemma_trimmed_last(args: Seq<ArgV>)
    ensures
        vmod_args::trimmed(args).len() > 0 ==> !(vmod_args::trimmed(args).last().value is Omitted),
    decreases args.len(),
{
    if args.len() > 0 && args.last().value is Omitted {
        lemma_trimmed_last(args.drop_last());
    }
}

/// Arguments that come to the same values are put in the same order, whether
/// they are given by position or by name, in whichever order, and whether a
/// default is given or left out.
pub proof fn law_argument_style_does_not_matter(
    args: Seq<ArgV>,
    other: Seq<ArgV>,
    sig: Seq<ArgSpecV>,
    x: Span,
    y: Span,
)
    requires
        fits(args, sig),
        fits(other, sig),
        same_values(args, other, sig),
    ensures
        match (vmod_args::rewritten(args, sig, x), vmod_args::rewritten(other, sig, y)) {
            (Ok(a), Ok(b)) => layout::bare_args(a) == layout::bare_args(b),
            _ => false,
        },
{
    lemma_rewritten(args, sig, x);
    lemma_rewritten(other, sig, y);
    let a = vmod_args::slot_args(sig, filled(args, sig, args.len()));
    let b = vmod_args::slot_args(sig, filled(other, sig, other.len()));
    assert forall|i: int| 0 <= i < sig.len() implies layout::bare_args(a)[i]
        == layout::bare_args(b)[i] by {
        let k = i as nat;
        assert(slot_value(args, sig, k) == slot_value(other, sig, k));
        assert(layout::bare_args(a)[i] == layout::bare_arg(a[i]));
        assert(layout::bare_args(b)[i] == layout::bare_arg(b[i]));
    }
    assert(layout::bare_args(a) =~= layout::bare_args(b));
    passes::lemma_trimmed(a);
    passes::lemma_trimmed(b);
}

proof fn lemma_any_whole(
    v: ExprV,
    w: ExprV,
    from: Seq<ArgV>,
    to: Seq<ArgV>,
    args: Seq<ArgV>,
    k: KnownV,
    span: Span,
    n: nat,
)
    requires
        v is Call,
        v->Call_args == from,
        w is Call,
        w->Call_args == to,
        vmod_args::taken_from(args, from),
        vmod_args::taken_from(args, to),
        n <= args.len(),
    ensures
        vmod_args::pass_args(v, args, k, span, n) == vmod_args::pass_args(w, args, k, span, n),
    decreases n,
{
    if n > 0 {
        lemma_any_whole(v, w, from, to, args, k, span, (n - 1) as nat);
        let a = args[n - 1];
        if !(a.value is Omitted) {
            let i = choose|j: int| 0 <= j < from.len() && a.value == (#[trigger] from[j]).value;
            assert(decreases_to!(v => from[i].value));
            let j = choose|j: int| 0 <= j < to.len() && a.value == (#[trigger] to[j]).value;
            assert(decreases_to!(w => to[j].value));
        } else {
            assert(vmod_args::pass_expr(a.value, k, span) == Ok::<ExprV, ErrV>(a.value));
            assert(ArgV { value: a.value, ..a } == a);
        }
    }
}

/// Two calls of one function with arguments that come to the same values become
/// the same call, wherever they stand.
pub proof fn law_call_style_does_not_matter(
    target: Seq<Seq<char>>,
    args: Seq<ArgV>,
    other: Seq<ArgV>,
    k: KnownV,
    x: Span,
    y: Span,
)
    requires
        vmod_args::call_sig(k, target) matches Some(sig) && fits(args, sig) && fits(other, sig)
            && same_values(args, other, sig),
    ensures
        match (
            vmod_args::pass_expr(ExprV::Call { target, args }, k, x),
            vmod_args::pass_expr(ExprV::Call { target, args: other }, k, y),
        ) {
            (Ok(a), Ok(b)) => layout::bare_expr(a) == layout::bare_expr(b),
            (Err(e), Err(f)) => e.msg == f.msg,
            _ => false,
        },
{
    let sig = vmod_args::call_sig(k, target)->0;
    law_argument_style_does_not_matter(args, other, sig, x, y);
    let v = ExprV::Call { target, args };
    let w = ExprV::Call { target, args: other };
    let a = vmod_args::rewritten(args, sig, x)->Ok_0;
    let b = vmod_args::rewritten(other, sig, y)->Ok_0;
    vmod_args::lemma_by_sig_taken(args, Some(sig), x);
    vmod_args::lemma_by_sig_taken(other, Some(sig), y);
    passes::lemma_pass_args(v, args, a, k, x, x, a.len());
    passes::lemma_pass_args(w, other, b, k, y, x, b.len());
    passes::lemma_bare_taken(a, args);
    passes::lemma_bare_taken(b, other);
    let c = layout::bare_args(a);
    assert(a.len() == c.len() && b.len() == layout::bare_args(b).len());
    lemma_any_whole(
        layout::bare_expr(v),
        layout::bare_expr(w),
        layout::bare_args(args),
        layout::bare_args(other),
        c,
        k,
        x,
        a.len(),
    );
}

// ───────────────────────── slots ─────────────────────────

proof fn lemma_belongs(args: Seq<ArgV>, sig: Seq<ArgSpecV>, i: int, k: int)
    requires
        0 <= i < args.len(),
    ensures
        references::belongs(args, sig, i, k) <==> k == slot_of(args, sig, i) && k < sig.len(),
{
    references::lemma_positional(args, i as nat);
    match args[i].name {
        Some(n) => {
            references::lemma_slot(sig, n, 0);
            let s = slot_of(args, sig, i) as int;
            if references::belongs(args, sig, i, k) && s < k {
                assert(sig[s].name == Some(n));
            }
        },
        None => {},
    }
}

proof fn lemma_held_is(args: Seq<ArgV>, sig: Seq<ArgSpecV>, i: int, n: nat)
    requires
        fits(args, sig),
        0 <= i < n <= args.len(),
    ensures
        held(args, sig, slot_of(args, sig, i), n) == Some(args[i]),
    decreases n,
{
    if i < n - 1 {
        assert(slot_of(args, sig, i) != slot_of(args, sig, n - 1));
        lemma_held_is(args, sig, i, (n - 1) as nat);
    }
}

proof fn lemma_trimmed_rest(args: Seq<ArgV>)
    ensures
        forall|k: int|
            vmod_args::trimmed(args).len() <= k < args.len() ==> (#[trigger] args[k]).value is Omitted,
    decreases args.len(),
{
    if args.len() > 0 && args.last().value is Omitted {
        lemma_trimmed_rest(args.drop_last());
        assert forall|k: int|
            vmod_args::trimmed(args).len() <= k < args.len() implies (#[trigger] args[k]).value
            is Omitted by {
            if k < args.len() - 1 {
                assert(args.drop_last()[k] == args[k]);
            }
        }
    }
}

/// Whether an argument belongs to a slot.
pub open spec fn has_slot(args: Seq<ArgV>, sig: Seq<ArgSpecV>, i: int) -> bool {
    exists|k: int| #[trigger] references::belongs(args, sig, i, k)
}

/// Whether nothing is given for a slot.
pub open spec fn left_out(list: Seq<ArgV>, k: int) -> bool {
    k >= list.len() || list[k].value is Omitted
}

/// The arguments of a call are put in order exactly where each belongs to a slot and no
/// two to the same one. Each then stands in its slot, unless it is left out or is the
/// text of a default that may be left out, and nothing is given for any other slot.
pub proof fn law_arguments_stand_in_their_slots(args: Seq<ArgV>, sig: Seq<ArgSpecV>, span: Span)
    ensures
        vmod_args::rewritten(args, sig, span) is Ok <==> (forall|i: int|
            0 <= i < args.len() ==> #[trigger] has_slot(args, sig, i)) && (forall|
            i: int,
            j: int,
            k: int,
        |
            0 <= i < j < args.len() && #[trigger] references::belongs(args, sig, i, k)
                ==> !#[trigger] references::belongs(args, sig, j, k)),
        vmod_args::rewritten(args, sig, span) matches Ok(list) ==> {
            &&& forall|i: int, k: int|
                0 <= i < args.len() && #[trigger] references::belongs(args, sig, i, k)
                    ==> if args[i].value is Omitted || (sig[k].optional && sig[k].default == Some(
                    printer::expr_text(args[i].value),
                )) {
                    left_out(list, k)
                } else {
                    k < list.len() && list[k].value == args[i].value && list[k].span == args[i].span
                }
            &&& forall|k: int|
                0 <= k < sig.len() && (forall|i: int|
                    0 <= i < args.len() ==> !#[trigger] references::belongs(args, sig, i, k))
                    ==> #[trigger] left_out(list, k)
        },
{
    lemma_rewritten(args, sig, span);
    assert forall|i: int, k: int| 0 <= i < args.len() implies (#[trigger] references::belongs(
        args,
        sig,
        i,
        k,
    ) <==> k == slot_of(args, sig, i) && k < sig.len()) by {
        lemma_belongs(args, sig, i, k);
    }
    if fits(args, sig) {
        assert forall|i: int| 0 <= i < args.len() implies #[trigger] has_slot(args, sig, i) by {
            assert(references::belongs(args, sig, i, slot_of(args, sig, i) as int));
        }
        let slots = filled(args, sig, args.len());
        let all = vmod_args::slot_args(sig, slots);
        let list = vmod_args::trimmed(all);
        vmod_args::lemma_trimmed_prefix(all);
        lemma_trimmed_rest(all);
        assert forall|i: int, k: int|
            0 <= i < args.len() && #[trigger] references::belongs(args, sig, i, k) implies (
        if args[i].value is Omitted || (sig[k].optional && sig[k].default == Some(
            printer::expr_text(args[i].value),
        )) {
            left_out(list, k)
        } else {
            k < list.len() && list[k].value == args[i].value && list[k].span == args[i].span
        }) by {
            lemma_held_is(args, sig, i, args.len());
            assert(slots[k] == Some(args[i]));
            assert(all[k] == vmod_args::slot_arg(sig[k], slots[k]));
            if k < list.len() {
                assert(list[k] == all[k]);
            }
        }
        assert forall|k: int|
            0 <= k < sig.len() && (forall|i: int|
                0 <= i < args.len() ==> !#[trigger] references::belongs(args, sig, i, k)) implies
            #[trigger] left_out(list, k) by {
            lemma_held(args, sig, k as nat, args.len());
            if exists|i: int| 0 <= i < args.len() && #[trigger] slot_of(args, sig, i) == k {
                let i = choose|i: int| 0 <= i < args.len() && #[trigger] slot_of(args, sig, i) == k;
                assert(references::belongs(args, sig, i, k));
            }
            assert(slots[k] is None);
            assert(all[k] == vmod_args::slot_arg(sig[k], slots[k]));
            if k < list.len() {
                assert(list[k] == all[k]);
            }
        }
    } else {
        if (forall|i: int|
            0 <= i < args.len() ==> #[trigger] has_slot(args, sig, i)) && (forall|
            i: int,
            j: int,
            k: int,
        |
            0 <= i < j < args.len() && #[trigger] references::belongs(args, sig, i, k)
                ==> !#[trigger] references::belongs(args, sig, j, k)) {
            assert forall|j: int| 0 <= j < args.len() implies #[trigger] slot_of(args, sig, j)
                < sig.len() by {
                assert(has_slot(args, sig, j));
                let k = choose|k: int| #[trigger] references::belongs(args, sig, j, k);
            }
            assert forall|i: int, j: int| 0 <= i < j < args.len() implies #[trigger] slot_of(
                args,
                sig,
                i,
            ) != #[trigger] slot_of(args, sig, j) by {
                let k = slot_of(args, sig, i) as int;
                assert(references::belongs(args, sig, i, k));
                assert(!references::belongs(args, sig, j, k));
            }
            assert(fits(args, sig));
        }
    }
}

// ───────────────────────── signatures ─────────────────────────

/// Whether an expression has no expression in it.
pub open spec fn simple(e: ExprV) -> bool {
    !(e is Call) && !(e is Unary) && !(e is Binary)
}

proof fn lemma_simple_args(whole: ExprV, args: Seq<ArgV>, k: KnownV, span: Span, n: nat)
    requires
        n <= args.len(),
        forall|i: int| 0 <= i < args.len() ==> simple((#[trigger] args[i]).value),
    ensures
        vmod_args::pass_args(whole, args, k, span, n) == Ok::<Seq<ArgV>, ErrV>(args.take(n as int)),
    decreases n,
{
    if n > 0 {
        lemma_simple_args(whole, args, k, span, (n - 1) as nat);
        let a = args[n - 1];
        assert(simple(a.value));
        assert(vmod_args::pass_expr(a.value, k, span) == Ok::<ExprV, ErrV>(a.value));
        assert((ArgV { value: a.value, ..a }) == a);
        assert(args.take(n - 1).push(args[n - 1]) =~= args.take(n as int));
    } else {
        assert(args.take(0) =~= seq![]);
    }
}

/// The arguments of a call are put in order by the signature of what is called: the
/// function of that name in the vmod of that name, or the method of that name of the
/// object of that name, where these are described; otherwise they stay as they are.
pub proof fn law_calls_go_by_what_is_called(
    a: Seq<char>,
    b: Seq<char>,
    args: Seq<ArgV>,
    k: KnownV,
    span: Span,
)
    requires
        forall|i: int| 0 <= i < args.len() ==> simple((#[trigger] args[i]).value),
    ensures
        ({
            let call = ExprV::Call { target: seq![a, b], args };
            let goes = |sig: Seq<ArgSpecV>|
                match vmod_args::rewritten(args, sig, span) {
                    Ok(list) => vmod_args::pass_expr(call, k, span) == Ok::<ExprV, ErrV>(
                        ExprV::Call { target: seq![a, b], args: list },
                    ),
                    Err(e) => vmod_args::pass_expr(call, k, span) == Err::<ExprV, ErrV>(e),
                };
            let o = k.instances[a];
            &&& k.specs.contains_key(a) && k.specs[a].funcs@.contains_key(b) ==> goes(
                k.specs[a].funcs@[b]@,
            )
            &&& !k.specs.contains_key(a) && k.instances.contains_key(a) && k.specs.contains_key(
                o.vmod,
            ) && k.specs[o.vmod].objects@.contains_key(o.ctor)
                && k.specs[o.vmod].objects@[o.ctor].methods@.contains_key(b) ==> goes(
                k.specs[o.vmod].objects@[o.ctor].methods@[b]@,
            )
            &&& !k.specs.contains_key(a) && !k.instances.contains_key(a) ==> vmod_args::pass_expr(
                call,
                k,
                span,
            ) == Ok::<ExprV, ErrV>(call)
        }),
{
    let target = seq![a, b];
    let call = ExprV::Call { target, args };
    assert(target[0] == a && target[1] == b && target.len() == 2);
    match vmod_args::by_sig(args, vmod_args::call_sig(k, target), span) {
        Ok(list) => {
            assert forall|i: int| 0 <= i < list.len() implies simple((#[trigger] list[i]).value) by {
                if vmod_args::call_sig(k, target) is Some {
                    let sig = vmod_args::call_sig(k, target)->0;
                    lemma_rewritten(args, sig, span);
                    let all = vmod_args::slot_args(sig, filled(args, sig, args.len()));
                    vmod_args::lemma_trimmed_prefix(all);
                    assert(list[i] == all[i]);
                    lemma_held_from(args, sig, i as nat, args.len());
                }
            }
            lemma_simple_args(call, list, k, span, list.len());
            assert(list.take(list.len() as int) =~= list);
        },
        Err(_) => {},
    }
}

proof fn lemma_held_from(args: Seq<ArgV>, sig: Seq<ArgSpecV>, k: nat, n: nat)
    requires
        n <= args.len(),
    ensures
        held(args, sig, k, n) matches Some(a) ==> args.contains(a),
    decreases n,
{
    if n > 0 {
        lemma_held_from(args, sig, k, (n - 1) as nat);
        assert(args.contains(args[n - 1]));
    }
}

} // verus!
