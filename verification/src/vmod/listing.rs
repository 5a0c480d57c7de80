//! What a description lists is what is known of a vmod: every function, every object
//! with a constructor, every method and every argument, and nothing else.

use crate::json;
use crate::json::JsonV;
use crate::vmod;
use crate::vmod::{ArgSpecV, VmodSpecV};
use vstd::prelude::*;
use vstd::string::*;
use vstd::utf8::*;

verus! {

// ───────────────────────── objects ─────────────────────────

/// Whether an item is a method: `["$METHOD", name, signature]`, with whatever behind it.
pub open spec fn is_method(j: JsonV, name: Seq<char>, sig: Seq<JsonV>) -> bool {
    j matches JsonV::Array(a) && a.len() >= 3 && a[0] == JsonV::Str("$METHOD"@) && a[1]
        == JsonV::Str(name) && a[2] == JsonV::Array(sig)
}

/// Whether an item is a constructor: `["$INIT", signature]`, with whatever behind it.
pub open spec fn is_init(j: JsonV, sig: Seq<JsonV>) -> bool {
    j matches JsonV::Array(a) && a.len() >= 2 && a[0] == JsonV::Str("$INIT"@) && a[1]
        == JsonV::Array(sig)
}

/// Whether item `i` is the last of the first `n` that is a method of that name.
pub open spec fn last_method(
    s: Seq<JsonV>,
    n: int,
    name: Seq<char>,
    i: int,
    sig: Seq<JsonV>,
) -> bool {
    &&& 2 <= i < n
    &&& is_method(s[i], name, sig)
    &&& forall|j: int, x: Seq<JsonV>| i < j < n ==> !#[trigger] is_method(s[j], name, x)
}

/// Whether item `i` is the last of the first `n` that is a constructor.
pub open spec fn last_init(s: Seq<JsonV>, n: int, i: int, sig: Seq<JsonV>) -> bool {
    &&& 2 <= i < n
    &&& is_init(s[i], sig)
    &&& forall|j: int, x: Seq<JsonV>| i < j < n ==> !#[trigger] is_init(s[j], x)
}

proof fn lemma_methods(s: Seq<JsonV>, n: nat, name: Seq<char>)
    requires
        n <= s.len(),
    ensures
        vmod::methods_of(s, n).contains_key(name) ==> exists|i: int, sig: Seq<JsonV>|
            #[trigger] last_method(s, n as int, name, i, sig) && vmod::methods_of(s, n)[name]
                == vmod::sig_of(sig),
        forall|i: int, sig: Seq<JsonV>|
            2 <= i < n && #[trigger] is_method(s[i], name, sig) ==> vmod::methods_of(
                s,
                n,
            ).contains_key(name),
    decreases n,
{
    if n > 2 {
        let m = (n - 1) as nat;
        lemma_methods(s, m, name);
        let r = vmod::methods_of(s, n);
        let d = s[n - 1];
        if exists|x: Seq<JsonV>| is_method(d, name, x) {
            let x = choose|x: Seq<JsonV>| is_method(d, name, x);
            assert(last_method(s, n as int, name, n - 1, x));
            assert(r[name] == vmod::sig_of(x));
        } else {
            assert(r.contains_key(name) == vmod::methods_of(s, m).contains_key(name) && (
            r.contains_key(name) ==> r[name] == vmod::methods_of(s, m)[name])) by {
                match d {
                    JsonV::Array(a) => {
                        if json::str_item(a, 0) == Some("$METHOD"@) {
                            match (json::str_item(a, 1), json::array_item(a, 2)) {
                                (Some(t), Some(x)) => {
                                    assert(is_method(d, t, x));
                                },
                                _ => {},
                            }
                        }
                    },
                    _ => {},
                }
            }
            if r.contains_key(name) {
                let (i, sig) = choose|i: int, sig: Seq<JsonV>|
                    #[trigger] last_method(s, m as int, name, i, sig) && vmod::methods_of(
                        s,
                        m,
                    )[name] == vmod::sig_of(sig);
                assert(last_method(s, n as int, name, i, sig));
            }
        }
    }
}

/// A name is that of a method of an object exactly where some item behind the name of
/// the object, wherever it stands, is `["$METHOD", name, signature]`, and the signature
/// is that of the last such item.
pub proof fn law_methods_are_the_listed_ones(e: Seq<JsonV>, name: Seq<char>)
    ensures
        vmod::methods_of(e, e.len()).contains_key(name) <==> exists|i: int, sig: Seq<JsonV>|
            2 <= i < e.len() && #[trigger] is_method(e[i], name, sig),
        forall|i: int, sig: Seq<JsonV>|
            #[trigger] last_method(e, e.len() as int, name, i, sig) ==> vmod::methods_of(
                e,
                e.len(),
            )[name] == vmod::sig_of(sig),
{
    lemma_methods(e, e.len(), name);
    let n = e.len() as int;
    if vmod::methods_of(e, e.len()).contains_key(name) {
        let (i, sig) = choose|i: int, sig: Seq<JsonV>|
            #[trigger] last_method(e, n, name, i, sig) && vmod::methods_of(e, e.len())[name]
                == vmod::sig_of(sig);
        assert(is_method(e[i], name, sig));
        assert forall|j: int, x: Seq<JsonV>| #[trigger] last_method(e, n, name, j, x) implies
            vmod::methods_of(e, e.len())[name] == vmod::sig_of(x) by {
            assert(is_method(e[j], name, x));
            if j < i {
                assert(!is_method(e[i], name, sig));
            } else if i < j {
                assert(!is_method(e[j], name, x));
            }
        }
    } else {
        assert forall|j: int, x: Seq<JsonV>| #[trigger] last_method(e, n, name, j, x) implies
            vmod::methods_of(e, e.len())[name] == vmod::sig_of(x) by {
            assert(is_method(e[j], name, x));
        }
    }
}

proof fn lemma_init(s: Seq<JsonV>, n: nat)
    requires
        n <= s.len(),
    ensures
        vmod::init_of(s, n) matches Some(r) ==> exists|i: int, sig: Seq<JsonV>|
            #[trigger] last_init(s, n as int, i, sig) && r == vmod::sig_of(sig),
        forall|i: int, sig: Seq<JsonV>|
            2 <= i < n && #[trigger] is_init(s[i], sig) ==> vmod::init_of(s, n) is Some,
    decreases n,
{
    if n > 2 {
        let m = (n - 1) as nat;
        lemma_init(s, m);
        let d = s[n - 1];
        if exists|x: Seq<JsonV>| is_init(d, x) {
            let x = choose|x: Seq<JsonV>| is_init(d, x);
            assert(last_init(s, n as int, n - 1, x));
        } else {
            assert(vmod::init_of(s, n) == vmod::init_of(s, m)) by {
                match d {
                    JsonV::Array(a) => {
                        if json::str_item(a, 0) == Some("$INIT"@) {
                            match json::array_item(a, 1) {
                                Some(x) => {
                                    assert(is_init(d, x));
                                },
                                None => {},
                            }
                        }
                    },
                    _ => {},
                }
            }
            if vmod::init_of(s, n) is Some {
                let (i, sig) = choose|i: int, sig: Seq<JsonV>|
                    #[trigger] last_init(s, m as int, i, sig) && vmod::init_of(s, m)->0
                        == vmod::sig_of(sig);
                assert(last_init(s, n as int, i, sig));
            }
        }
    }
}

/// An object has a constructor exactly where some item behind its name is
/// `["$INIT", signature]`, and the signature is that of the last such item.
pub proof fn law_constructors_are_the_listed_ones(e: Seq<JsonV>)
    ensures
        vmod::init_of(e, e.len()) is Some <==> exists|i: int, sig: Seq<JsonV>|
            2 <= i < e.len() && #[trigger] is_init(e[i], sig),
        forall|i: int, sig: Seq<JsonV>|
            #[trigger] last_init(e, e.len() as int, i, sig) ==> vmod::init_of(e, e.len()) == Some(
                vmod::sig_of(sig),
            ),
{
    lemma_init(e, e.len());
    let n = e.len() as int;
    if vmod::init_of(e, e.len()) is Some {
        let (i, sig) = choose|i: int, sig: Seq<JsonV>|
            #[trigger] last_init(e, n, i, sig) && vmod::init_of(e, e.len())->0 == vmod::sig_of(sig);
        assert(is_init(e[i], sig));
        assert forall|j: int, x: Seq<JsonV>| #[trigger] last_init(e, n, j, x) implies
            vmod::init_of(e, e.len()) == Some(vmod::sig_of(x)) by {
            assert(is_init(e[j], x));
            if j < i {
                assert(!is_init(e[i], sig));
            } else if i < j {
                assert(!is_init(e[j], x));
            }
        }
    } else {
        assert forall|j: int, x: Seq<JsonV>| #[trigger] last_init(e, n, j, x) implies
            vmod::init_of(e, e.len()) == Some(vmod::sig_of(x)) by {
            assert(is_init(e[j], x));
        }
    }
}

// ───────────────────────── the entries ─────────────────────────

/// Whether an entry is a function: `["$FUNC", name, signature]`, with whatever behind it.
pub open spec fn is_func(j: JsonV, name: Seq<char>, sig: Seq<JsonV>) -> bool {
    j matches JsonV::Array(a) && a.len() >= 3 && a[0] == JsonV::Str("$FUNC"@) && a[1] == JsonV::Str(
        name,
    ) && a[2] == JsonV::Array(sig)
}

/// Whether an entry is an object with a constructor: `["$OBJ", name, ...]`.
pub open spec fn is_obj(j: JsonV, name: Seq<char>) -> bool {
    j matches JsonV::Array(a) && a.len() >= 2 && a[0] == JsonV::Str("$OBJ"@) && a[1] == JsonV::Str(
        name,
    ) && exists|i: int, sig: Seq<JsonV>| 2 <= i < a.len() && #[trigger] is_init(a[i], sig)
}

/// What is known of an object is what its entry lists.
pub open spec fn lists(j: JsonV, init: Seq<ArgSpecV>, methods: Map<Seq<char>, Seq<ArgSpecV>>) -> bool {
    j matches JsonV::Array(a) && vmod::init_of(a, a.len()) == Some(init) && vmod::methods_of(
        a,
        a.len(),
    ) == methods
}

/// Whether the functions are those that were known and those of the entries from `i` on.
spec fn funcs_from(entries: Seq<JsonV>, i: int, v: VmodSpecV, r: VmodSpecV, name: Seq<char>) -> bool {
    ||| exists|j: int, sig: Seq<JsonV>|
        i <= j < entries.len() && #[trigger] is_func(entries[j], name, sig) && (forall|
            k: int,
            x: Seq<JsonV>,
        |
            j < k < entries.len() ==> !#[trigger] is_func(entries[k], name, x))
            && r.funcs.contains_key(name) && r.funcs[name] == vmod::sig_of(sig)
    ||| (forall|k: int, x: Seq<JsonV>|
        i <= k < entries.len() ==> !#[trigger] is_func(entries[k], name, x))
        && r.funcs.contains_key(name) == v.funcs.contains_key(name) && (r.funcs.contains_key(name)
        ==> r.funcs[name] == v.funcs[name])
}

/// Whether the objects are those that were known and those of the entries from `i` on.
spec fn objects_from(
    entries: Seq<JsonV>,
    i: int,
    v: VmodSpecV,
    r: VmodSpecV,
    name: Seq<char>,
) -> bool {
    ||| exists|j: int|
        i <= j < entries.len() && #[trigger] is_obj(entries[j], name) && (forall|k: int|
            j < k < entries.len() ==> !#[trigger] is_obj(entries[k], name))
            && r.objects.contains_key(name) && lists(
            entries[j],
            r.objects[name].init,
            r.objects[name].methods,
        )
    ||| (forall|k: int| i <= k < entries.len() ==> !#[trigger] is_obj(entries[k], name))
        && r.objects.contains_key(name) == v.objects.contains_key(name) && (r.objects.contains_key(
        name,
    ) ==> r.objects[name] == v.objects[name])
}

proof fn lemma_words()
    ensures
        "$FUNC"@ != "$OBJ"@,
{
    reveal_strlit("$FUNC");
    reveal_strlit("$OBJ");
    assert("$FUNC"@.len() == 5 && "$OBJ"@.len() == 4);
}

/// What one more entry adds.
proof fn lemma_entry(v: VmodSpecV, j: JsonV, name: Seq<char>)
    requires
        j is Array,
    ensures
        ({
            let r = vmod::with_entry(v, j->Array_0);
            &&& forall|sig: Seq<JsonV>| #[trigger]
                is_func(j, name, sig) ==> r.funcs.contains_key(name) && r.funcs[name]
                    == vmod::sig_of(sig)
            &&& (forall|sig: Seq<JsonV>| !#[trigger] is_func(j, name, sig))
                ==> r.funcs.contains_key(name) == v.funcs.contains_key(name) && (
            v.funcs.contains_key(name) ==> r.funcs[name] == v.funcs[name])
            &&& is_obj(j, name) ==> r.objects.contains_key(name) && lists(
                j,
                r.objects[name].init,
                r.objects[name].methods,
            )
            &&& !is_obj(j, name) ==> r.objects.contains_key(name) == v.objects.contains_key(name)
                && (v.objects.contains_key(name) ==> r.objects[name] == v.objects[name])
        }),
{
    let e = j->Array_0;
    lemma_words();
    law_constructors_are_the_listed_ones(e);
    if json::str_item(e, 0) == Some("$FUNC"@) {
        match (json::str_item(e, 1), json::array_item(e, 2)) {
            (Some(n), Some(sig)) => {
                assert(is_func(j, n, sig));
            },
            _ => {},
        }
    }
}

proof fn lemma_described(vmod: Seq<char>, entries: Seq<JsonV>, i: nat, v: VmodSpecV, name: Seq<char>)
    ensures
        vmod::described(vmod, entries, i, v) matches Ok(r) ==> funcs_from(
            entries,
            i as int,
            v,
            r,
            name,
        ) && objects_from(entries, i as int, v, r, name),
    decreases entries.len() - i,
{
    if i < entries.len() {
        let d = entries[i as int];
        match d {
            JsonV::Array(e) if e.len() > 0 => {
                let w = vmod::with_entry(v, e);
                lemma_entry(v, d, name);
                if vmod::entry_fault(vmod, e) is None {
                    lemma_described(vmod, entries, i + 1, w, name);
                    match vmod::described(vmod, entries, i, v) {
                        Ok(r) => lemma_step(entries, i as int, v, w, r, name),
                        Err(_) => {},
                    }
                }
            },
            _ => {
                lemma_described(vmod, entries, i + 1, v, name);
                match vmod::described(vmod, entries, i, v) {
                    Ok(r) => {
                        assert forall|sig: Seq<JsonV>| !#[trigger] is_func(d, name, sig) by {}
                        assert(!is_obj(d, name));
                        lemma_step(entries, i as int, v, v, r, name);
                    },
                    Err(_) => {},
                }
            },
        }
    }
}

proof fn lemma_step(
    entries: Seq<JsonV>,
    i: int,
    v: VmodSpecV,
    w: VmodSpecV,
    r: VmodSpecV,
    name: Seq<char>,
)
    requires
        0 <= i < entries.len(),
        funcs_from(entries, i + 1, w, r, name),
        objects_from(entries, i + 1, w, r, name),
        forall|sig: Seq<JsonV>| #[trigger]
            is_func(entries[i], name, sig) ==> w.funcs.contains_key(name) && w.funcs[name]
                == vmod::sig_of(sig),
        (forall|sig: Seq<JsonV>| !#[trigger] is_func(entries[i], name, sig))
            ==> w.funcs.contains_key(name) == v.funcs.contains_key(name) && (v.funcs.contains_key(
            name,
        ) ==> w.funcs[name] == v.funcs[name]),
        is_obj(entries[i], name) ==> w.objects.contains_key(name) && lists(
            entries[i],
            w.objects[name].init,
            w.objects[name].methods,
        ),
        !is_obj(entries[i], name) ==> w.objects.contains_key(name) == v.objects.contains_key(name)
            && (v.objects.contains_key(name) ==> w.objects[name] == v.objects[name]),
    ensures
        funcs_from(entries, i, v, r, name),
        objects_from(entries, i, v, r, name),
{
    let n = entries.len() as int;
    if forall|k: int, x: Seq<JsonV>|
        i + 1 <= k < n ==> !#[trigger] is_func(entries[k], name, x) {
        if exists|x: Seq<JsonV>| is_func(entries[i], name, x) {
            let x = choose|x: Seq<JsonV>| is_func(entries[i], name, x);
            assert(is_func(entries[i], name, x));
        }
    }
    if forall|k: int| i + 1 <= k < n ==> !#[trigger] is_obj(entries[k], name) {
        if is_obj(entries[i], name) {
            assert(r.objects[name] == w.objects[name]);
        }
    }
}

/// Where a description can be used, a vmod has a function exactly where an entry lists
/// it, with the signature of the last such entry, and an object exactly where an entry
/// lists it with a constructor, with what the last such entry lists.
pub proof fn law_descriptions_list_what_is_known(vmod: Seq<char>, entries: Seq<JsonV>, name: Seq<char>)
    ensures
        vmod::description(vmod, JsonV::Array(entries)) matches Ok(r) ==> {
            &&& r.funcs.contains_key(name) <==> exists|j: int, sig: Seq<JsonV>|
                0 <= j < entries.len() && #[trigger] is_func(entries[j], name, sig)
            &&& r.funcs.contains_key(name) ==> exists|j: int, sig: Seq<JsonV>|
                0 <= j < entries.len() && #[trigger] is_func(entries[j], name, sig) && (forall|
                    k: int,
                    x: Seq<JsonV>,
                |
                    j < k < entries.len() ==> !#[trigger] is_func(entries[k], name, x))
                    && r.funcs[name] == vmod::sig_of(sig)
            &&& r.objects.contains_key(name) <==> exists|j: int|
                0 <= j < entries.len() && #[trigger] is_obj(entries[j], name)
            &&& r.objects.contains_key(name) ==> exists|j: int|
                0 <= j < entries.len() && #[trigger] is_obj(entries[j], name) && (forall|k: int|
                    j < k < entries.len() ==> !#[trigger] is_obj(entries[k], name)) && lists(
                    entries[j],
                    r.objects[name].init,
                    r.objects[name].methods,
                )
        },
{
    lemma_described(vmod, entries, 0, vmod::nothing_known(), name);
}

// ───────────────────────── arguments ─────────────────────────

/// Whether an item of a signature is an argument: a list with something in it.
pub open spec fn is_arg(j: JsonV) -> bool {
    j matches JsonV::Array(a) && a.len() > 0
}

/// Whether an argument is described by its list: the type, the name, a name for C, the
/// default, the words of an `ENUM`, and whether it may be left out.
pub open spec fn describes(j: JsonV, a: ArgSpecV) -> bool {
    j matches JsonV::Array(l) && {
        &&& a.name is Some <==> l.len() > 1 && l[1] is Str
        &&& a.name matches Some(n) ==> l[1] == JsonV::Str(n)
        &&& a.default is Some <==> l.len() > 3
        &&& l.len() > 3 && l[3] is Str ==> a.default == Some(l[3]->Str_0)
        &&& l.len() > 3 && l[3] is Number ==> a.default == Some(l[3]->Number_0)
        &&& l.len() > 3 && l[3] == JsonV::Bool(true) ==> a.default == Some("true"@)
        &&& l.len() > 3 && l[3] == JsonV::Bool(false) ==> a.default == Some("false"@)
        &&& l.len() > 3 && l[3] is Null ==> a.default == Some("null"@)
        &&& a.optional <==> l.len() > 3 || (l.len() > 5 && l[5] == JsonV::Bool(true))
        &&& a.enum_values is Some <==> l.len() > 4 && l[0] == JsonV::Str("ENUM"@) && l[4] is Array
        &&& a.enum_values matches Some(ws) ==> ws == l[4]->Array_0.filter(
            |x: JsonV| x is Str,
        ).map_values(|x: JsonV| x->Str_0)
    }
}

proof fn lemma_strings(s: Seq<JsonV>, n: nat)
    requires
        n <= s.len(),
    ensures
        vmod::strings_of(s, n) == s.take(n as int).filter(|x: JsonV| x is Str).map_values(
            |x: JsonV| x->Str_0,
        ),
    decreases n,
{
    reveal(Seq::filter);
    let f = |x: JsonV| x is Str;
    let g = |x: JsonV| x->Str_0;
    if n > 0 {
        lemma_strings(s, (n - 1) as nat);
        assert(s.take(n as int).drop_last() =~= s.take(n - 1));
        let before = s.take(n - 1).filter(f);
        if s[n - 1] is Str {
            assert(s.take(n as int).filter(f) == before.push(s[n - 1]));
            assert(before.push(s[n - 1]).map_values(g) =~= before.map_values(g).push(
                s[n - 1]->Str_0,
            ));
        }
    } else {
        assert(s.take(0) =~= Seq::<JsonV>::empty());
        assert(s.take(0).filter(f).map_values(g) =~= Seq::<Seq<char>>::empty());
    }
}

proof fn lemma_described_arg(j: JsonV)
    requires
        is_arg(j),
    ensures
        describes(j, vmod::arg_of(j->Array_0)),
{
    let l = j->Array_0;
    if l.len() > 4 && l[4] is Array {
        let w = l[4]->Array_0;
        lemma_strings(w, w.len());
        assert(w.take(w.len() as int) =~= w);
    }
}

proof fn lemma_args(s: Seq<JsonV>, n: nat)
    requires
        n <= s.len(),
    ensures
        n >= 3 ==> ({
            let want = s.subrange(3, n as int).filter(|x: JsonV| is_arg(x));
            let r = vmod::args_of(s, n);
            r.len() == want.len() && forall|i: int|
                0 <= i < r.len() ==> is_arg(#[trigger] want[i]) && r[i] == vmod::arg_of(
                    want[i]->Array_0,
                )
        }),
        n < 3 ==> vmod::args_of(s, n).len() == 0,
    decreases n,
{
    reveal(Seq::filter);
    let f = |x: JsonV| is_arg(x);
    if n > 3 {
        lemma_args(s, (n - 1) as nat);
        assert(s.subrange(3, n as int).drop_last() =~= s.subrange(3, n - 1));
        assert(s.subrange(3, n as int).last() == s[n - 1]);
    } else if n == 3 {
        assert(s.subrange(3, 3) =~= Seq::<JsonV>::empty());
    }
}

/// The arguments of a signature are the lists behind its first three items that are not
/// empty, in their order, each as its list describes it.
pub proof fn law_arguments_are_the_listed_ones(s: Seq<JsonV>)
    requires
        s.len() >= 3,
    ensures
        ({
            let listed = s.skip(3).filter(|x: JsonV| is_arg(x));
            vmod::sig_of(s).len() == listed.len() && forall|i: int|
                0 <= i < listed.len() ==> describes(#[trigger] listed[i], vmod::sig_of(s)[i])
        }),
{
    lemma_args(s, s.len());
    assert(s.subrange(3, s.len() as int) =~= s.skip(3));
    let listed = s.skip(3).filter(|x: JsonV| is_arg(x));
    assert forall|i: int| 0 <= i < listed.len() implies describes(
        #[trigger] listed[i],
        vmod::sig_of(s)[i],
    ) by {
        lemma_described_arg(listed[i]);
    }
}

// ───────────────────────── the binary ─────────────────────────

proof fn lemma_first(b: Seq<u8>, m: Seq<u8>, i: nat, at: nat)
    requires
        i <= at < b.len(),
        vmod::stands_at(b, m, at as int),
        forall|j: int| i <= j < at ==> !vmod::stands_at(b, m, j),
    ensures
        vmod::first_at(b, m, i) == at,
    decreases at - i,
{
    if i < at {
        assert(!vmod::stands_at(b, m, i as int));
        lemma_first(b, m, i + 1, at);
    }
}

proof fn lemma_byte(b: Seq<u8>, c: u8, i: nat, at: nat)
    requires
        i <= at < b.len(),
        b[at as int] == c,
        forall|j: int| i <= j < at ==> b[j] != c,
    ensures
        vmod::byte_at(b, c, i) == at,
    decreases at - i,
{
    if i < at {
        lemma_byte(b, c, i + 1, at);
    }
}

/// The description of a vmod is the text between the first marker in its binary and the
/// first end mark behind that, whatever stands before and behind.
pub proof fn law_descriptions_stand_behind_the_first_marker(
    vmod: Seq<char>,
    head: Seq<u8>,
    text: Seq<u8>,
    tail: Seq<u8>,
)
    requires
        ({
            let m = encode_utf8("VMOD_JSON_SPEC\x02"@);
            let b = head + m + text + seq![3u8] + tail;
            &&& m.len() > 0
            &&& forall|i: int| 0 <= i < head.len() ==> !m.is_prefix_of(#[trigger] b.skip(i))
            &&& !text.contains(3u8)
        }),
    ensures
        ({
            let b = head + encode_utf8("VMOD_JSON_SPEC\x02"@) + text + seq![3u8] + tail;
            vmod::loaded(vmod, b) == match json::read_text(text) {
                Ok(j) => vmod::description(vmod, j),
                Err(m) => Err("vmod '"@ + vmod + "' has invalid JSON spec: "@ + m),
            }
        }),
{
    let m = encode_utf8("VMOD_JSON_SPEC\x02"@);
    let b = head + m + text + seq![3u8] + tail;
    let at = head.len();
    assert(b.subrange(at as int, (at + m.len()) as int) =~= m);
    assert forall|j: int| 0 <= j < at implies !vmod::stands_at(b, m, j) by {
        assert(!m.is_prefix_of(b.skip(j)));
        if vmod::stands_at(b, m, j) {
            assert(m =~= b.skip(j).subrange(0, m.len() as int));
        }
    }
    lemma_first(b, m, 0, at);
    let from = at + m.len();
    let to = from + text.len();
    assert forall|j: int| from <= j < to implies b[j] != 3u8 by {
        assert(b[j] == text[j - from]);
        assert(text.contains(text[j - from]));
    }
    assert(b[to as int] == 3u8);
    lemma_byte(b, 3u8, from, to);
    assert(b.subrange(from as int, to as int) =~= text);
}

} // verus!
