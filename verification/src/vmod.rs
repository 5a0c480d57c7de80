//! What is known of a vmod: its functions, its objects and their arguments.

use crate::json;
use crate::json::{Json, JsonV};
use crate::table::Table;
use crate::text;
use vstd::prelude::*;
use vstd::string::*;
use vstd::utf8::*;

pub mod listing;

verus! {

/// A vmod: its functions and its objects, by name.
#[derive(Debug, Clone)]
pub struct VmodSpec {
    pub funcs: Table<Sig>,
    pub objects: Table<ObjSpec>,
}

/// An object of a vmod: its constructor and its methods.
#[derive(Debug, Clone)]
pub struct ObjSpec {
    pub init: Sig,
    pub methods: Table<Sig>,
}

/// The arguments that a function takes.
#[derive(Debug, Clone)]
pub struct Sig {
    pub args: Vec<ArgSpec>,
}

/// An argument that a function takes.
#[derive(Debug, Clone, PartialEq)]
pub struct ArgSpec {
    /// An argument without a name can only be given by its position.
    pub name: Option<String>,
    /// The literal that stands for the argument where it is left out.
    pub default: Option<String>,
    pub optional: bool,
    /// The words that an `ENUM` argument may be.
    pub enum_values: Option<Vec<String>>,
}

/// An argument that a function takes.
#[verifier::ext_equal]
pub struct ArgSpecV {
    pub name: Option<Seq<char>>,
    pub default: Option<Seq<char>>,
    pub optional: bool,
    pub enum_values: Option<Seq<Seq<char>>>,
}

impl View for ArgSpec {
    type V = ArgSpecV;

    open spec fn view(&self) -> ArgSpecV {
        ArgSpecV {
            name: text::opt_text(self.name),
            default: text::opt_text(self.default),
            optional: self.optional,
            enum_values: match self.enum_values {
                Some(l) => Some(text::texts(l@)),
                None => None,
            },
        }
    }
}

impl View for Sig {
    type V = Seq<ArgSpecV>;

    open spec fn view(&self) -> Seq<ArgSpecV> {
        Seq::new(self.args@.len(), |i: int| self.args@[i]@)
    }
}

/// The signatures of a table.
pub open spec fn sigs_view(m: Map<Seq<char>, Sig>) -> Map<Seq<char>, Seq<ArgSpecV>> {
    Map::new(|n: Seq<char>| m.contains_key(n), |n: Seq<char>| m[n]@)
}

/// An object of a vmod.
#[verifier::ext_equal]
pub struct ObjSpecV {
    pub init: Seq<ArgSpecV>,
    pub methods: Map<Seq<char>, Seq<ArgSpecV>>,
}

impl View for ObjSpec {
    type V = ObjSpecV;

    open spec fn view(&self) -> ObjSpecV {
        ObjSpecV { init: self.init@, methods: sigs_view(self.methods@) }
    }
}

/// The objects of a table.
pub open spec fn objects_view(m: Map<Seq<char>, ObjSpec>) -> Map<Seq<char>, ObjSpecV> {
    Map::new(|n: Seq<char>| m.contains_key(n), |n: Seq<char>| m[n]@)
}

/// A vmod.
#[verifier::ext_equal]
pub struct VmodSpecV {
    pub funcs: Map<Seq<char>, Seq<ArgSpecV>>,
    pub objects: Map<Seq<char>, ObjSpecV>,
}

impl View for VmodSpec {
    type V = VmodSpecV;

    open spec fn view(&self) -> VmodSpecV {
        VmodSpecV { funcs: sigs_view(self.funcs@), objects: objects_view(self.objects@) }
    }
}

// ───────────────────────── the description in a binary ─────────────────────────

/// What stands before the description in a vmod's binary.
pub open spec fn marker() -> Seq<u8> {
    encode_utf8("VMOD_JSON_SPEC\x02"@)
}

/// The byte behind the description.
pub const MARKER_END: u8 = 3;

/// Whether `m` stands in `b` at `i`.
pub open spec fn stands_at(b: Seq<u8>, m: Seq<u8>, i: int) -> bool {
    0 <= i && i + m.len() <= b.len() && b.subrange(i, i + m.len()) == m
}

/// The first place at or behind `i` where `m` stands in `b`, or the end of `b`.
pub open spec fn first_at(b: Seq<u8>, m: Seq<u8>, i: nat) -> nat
    decreases b.len() - i,
{
    if i >= b.len() || stands_at(b, m, i as int) {
        i
    } else {
        first_at(b, m, i + 1)
    }
}

/// The first place at or behind `i` where `c` stands in `b`, or the end of `b`.
pub open spec fn byte_at(b: Seq<u8>, c: u8, i: nat) -> nat
    decreases b.len() - i,
{
    if i >= b.len() || b[i as int] == c {
        i
    } else {
        byte_at(b, c, i + 1)
    }
}

// ───────────────────────── what the description says ─────────────────────────

/// The strings among the items of a list.
pub open spec fn strings_of(s: Seq<JsonV>, n: nat) -> Seq<Seq<char>>
    decreases n,
{
    if n == 0 {
        seq![]
    } else {
        let before = strings_of(s, (n - 1) as nat);
        match s[n - 1].as_str() {
            Some(t) => before.push(t),
            None => before,
        }
    }
}

/// A default as a literal.
pub open spec fn default_text(j: JsonV) -> Seq<char> {
    match j {
        JsonV::Str(s) => s,
        JsonV::Number(n) => n,
        JsonV::Bool(true) => "true"@,
        JsonV::Bool(false) => "false"@,
        JsonV::Null => "null"@,
        _ => json::compact_text(j),
    }
}

/// An argument: its type, its name, a name for C, its default, the words of an
/// `ENUM`, and whether it is optional. Everything behind the type may be
/// missing.
pub open spec fn arg_of(a: Seq<JsonV>) -> ArgSpecV {
    ArgSpecV {
        name: json::str_item(a, 1),
        default: if a.len() > 3 {
            Some(default_text(a[3]))
        } else {
            None
        },
        optional: a.len() > 3 || json::item(a, 5) == Some(JsonV::Bool(true)),
        enum_values: if json::str_item(a, 0) == Some("ENUM"@) {
            match json::array_item(a, 4) {
                Some(l) => Some(strings_of(l, l.len())),
                None => None,
            }
        } else {
            None
        },
    }
}

/// The arguments among the first `n` items of a signature. Before them stand
/// the type of the result, a name for C and a prototype.
pub open spec fn args_of(s: Seq<JsonV>, n: nat) -> Seq<ArgSpecV>
    decreases n,
{
    if n <= BEFORE_ARGS {
        seq![]
    } else {
        let before = args_of(s, (n - 1) as nat);
        match s[n - 1].as_array() {
            Some(a) if a.len() > 0 => before.push(arg_of(a)),
            _ => before,
        }
    }
}

/// The arguments of a signature.
pub open spec fn sig_of(s: Seq<JsonV>) -> Seq<ArgSpecV> {
    args_of(s, s.len())
}

/// The constructor among the first `n` items of an object; the last one counts.
pub open spec fn init_of(s: Seq<JsonV>, n: nat) -> Option<Seq<ArgSpecV>>
    decreases n,
{
    if n <= 2 {
        None
    } else {
        let before = init_of(s, (n - 1) as nat);
        match s[n - 1].as_array() {
            Some(a) if json::str_item(a, 0) == Some("$INIT"@) => match json::array_item(a, 1) {
                Some(sig) => Some(sig_of(sig)),
                None => before,
            },
            _ => before,
        }
    }
}

/// The methods among the first `n` items of an object.
pub open spec fn methods_of(s: Seq<JsonV>, n: nat) -> Map<Seq<char>, Seq<ArgSpecV>>
    decreases n,
{
    if n <= 2 {
        Map::empty()
    } else {
        let before = methods_of(s, (n - 1) as nat);
        match s[n - 1].as_array() {
            Some(a) if json::str_item(a, 0) == Some("$METHOD"@) => match (
                json::str_item(a, 1),
                json::array_item(a, 2),
            ) {
                (Some(name), Some(sig)) => before.insert(name, sig_of(sig)),
                _ => before,
            },
            _ => before,
        }
    }
}

/// The items before the arguments of a signature.
pub const BEFORE_ARGS: usize = 3;

/// The signature of a constructor or of a method of an object.
pub open spec fn member_sig(a: Seq<JsonV>) -> Option<Seq<JsonV>> {
    if json::str_item(a, 0) == Some("$INIT"@) {
        json::array_item(a, 1)
    } else if json::str_item(a, 0) == Some("$METHOD"@) && json::str_item(a, 1) is Some {
        json::array_item(a, 2)
    } else {
        None
    }
}

/// Whether a signature lacks one of the items before its arguments.
pub open spec fn cut_short(sig: Option<Seq<JsonV>>) -> bool {
    match sig {
        Some(s) => s.len() < BEFORE_ARGS,
        None => false,
    }
}

/// Whether item `i` of an object is a member whose signature is cut short.
pub open spec fn short_member(e: Seq<JsonV>, i: int) -> bool {
    match e[i].as_array() {
        Some(a) => cut_short(member_sig(a)),
        None => false,
    }
}

/// Whether a signature of an entry is cut short.
pub open spec fn short_entry(e: Seq<JsonV>) -> bool {
    if json::str_item(e, 1) is None {
        false
    } else if json::str_item(e, 0) == Some("$FUNC"@) {
        cut_short(json::array_item(e, 2))
    } else if json::str_item(e, 0) == Some("$OBJ"@) {
        exists|i: int| 2 <= i < e.len() && #[trigger] short_member(e, i)
    } else {
        false
    }
}

/// Why an entry makes the description unusable: a version that is not known, or
/// none, or a signature that is cut short.
pub open spec fn entry_fault(vmod: Seq<char>, e: Seq<JsonV>) -> Option<Seq<char>> {
    if short_entry(e) {
        Some("vmod '"@ + vmod + "' has a signature that is cut short"@)
    } else if json::str_item(e, 0) != Some("$VMOD"@) {
        None
    } else {
        match json::str_item(e, 1) {
            Some(v) => if text::begins_with(v, "2"@) {
                None
            } else {
                Some("vmod '"@ + vmod + "' has unsupported spec version '"@ + v + "'"@)
            },
            None => Some("vmod '"@ + vmod + "' has no version in $VMOD entry"@),
        }
    }
}

/// What is known with one more entry: a function, or an object that has a
/// constructor.
pub open spec fn with_entry(v: VmodSpecV, e: Seq<JsonV>) -> VmodSpecV {
    if json::str_item(e, 0) == Some("$FUNC"@) {
        match (json::str_item(e, 1), json::array_item(e, 2)) {
            (Some(name), Some(sig)) => VmodSpecV { funcs: v.funcs.insert(name, sig_of(sig)), ..v },
            _ => v,
        }
    } else if json::str_item(e, 0) == Some("$OBJ"@) {
        match (json::str_item(e, 1), init_of(e, e.len())) {
            (Some(name), Some(init)) => VmodSpecV {
                objects: v.objects.insert(name, ObjSpecV { init, methods: methods_of(e, e.len()) }),
                ..v
            },
            _ => v,
        }
    } else {
        v
    }
}

/// What the entries from `i` on say, or why they cannot be used.
pub open spec fn described(
    vmod: Seq<char>,
    entries: Seq<JsonV>,
    i: nat,
    v: VmodSpecV,
) -> core::result::Result<VmodSpecV, Seq<char>>
    decreases entries.len() - i,
{
    if i >= entries.len() {
        Ok(v)
    } else {
        match entries[i as int].as_array() {
            Some(e) if e.len() > 0 => match entry_fault(vmod, e) {
                Some(w) => Err(w),
                None => described(vmod, entries, i + 1, with_entry(v, e)),
            },
            _ => described(vmod, entries, i + 1, v),
        }
    }
}

/// Nothing is known.
pub open spec fn nothing_known() -> VmodSpecV {
    VmodSpecV { funcs: Map::empty(), objects: Map::empty() }
}

/// What a description says, or why it cannot be used.
pub open spec fn description(vmod: Seq<char>, j: JsonV) -> core::result::Result<
    VmodSpecV,
    Seq<char>,
> {
    match j.as_array() {
        Some(entries) => described(vmod, entries, 0, nothing_known()),
        None => Err("vmod '"@ + vmod + "' spec is not a JSON array"@),
    }
}

/// What the binary of a vmod says, or why it cannot be used.
pub open spec fn loaded(vmod: Seq<char>, b: Seq<u8>) -> core::result::Result<VmodSpecV, Seq<char>> {
    let at = first_at(b, marker(), 0);
    if at >= b.len() {
        Err("vmod '"@ + vmod + "' has no VMOD_JSON_SPEC marker"@)
    } else {
        let from = at + marker().len();
        let to = byte_at(b, MARKER_END, from);
        if to >= b.len() {
            Err("vmod '"@ + vmod + "' has truncated VMOD_JSON_SPEC (no end marker)"@)
        } else {
            match json::read_text(b.subrange(from as int, to as int)) {
                Err(m) => Err("vmod '"@ + vmod + "' has invalid JSON spec: "@ + m),
                Ok(j) => description(vmod, j),
            }
        }
    }
}

// ───────────────────────── the code ─────────────────────────

fn is_at(b: &[u8], m: &[u8], i: usize) -> (r: bool)
    requires
        i < b@.len(),
    ensures
        r == stands_at(b@, m@, i as int),
{
    let total: usize = b.len();
    if m.len() > total - i {
        return false;
    }
    let mut k: usize = 0;
    while k < m.len()
        invariant
            k <= m@.len(),
            total == b@.len(),
            i + m@.len() <= b@.len(),
            forall|j: int| 0 <= j < k ==> b@[i + j] == m@[j],
        decreases m@.len() - k,
    {
        if b[i + k] != m[k] {
            assert(b@.subrange(i as int, i + m@.len())[k as int] != m@[k as int]);
            return false;
        }
        k += 1;
    }
    assert(b@.subrange(i as int, i + m@.len()) =~= m@);
    true
}

/// The first place where `m` stands in `b`, or the end of `b`.
fn find_bytes(b: &[u8], m: &[u8]) -> (r: usize)
    ensures
        r as nat == first_at(b@, m@, 0),
        r <= b@.len(),
        r < b@.len() ==> stands_at(b@, m@, r as int),
{
    let mut i: usize = 0;
    while i < b.len() && !is_at(b, m, i)
        invariant
            i <= b@.len(),
            first_at(b@, m@, 0) == first_at(b@, m@, i as nat),
        decreases b@.len() - i,
    {
        i += 1;
    }
    i
}

fn find_byte(b: &[u8], c: u8, from: usize) -> (r: usize)
    requires
        from <= b@.len(),
    ensures
        r as nat == byte_at(b@, c, from as nat),
        from <= r <= b@.len(),
{
    let mut i: usize = from;
    while i < b.len() && b[i] != c
        invariant
            from <= i <= b@.len(),
            byte_at(b@, c, from as nat) == byte_at(b@, c, i as nat),
        decreases b@.len() - i,
    {
        i += 1;
    }
    i
}

fn collect_strings(v: &Vec<Json>) -> (r: Vec<String>)
    ensures
        text::texts(r@) == strings_of(json::items_view(v@), v@.len()),
{
    let ghost jv = json::items_view(v@);
    let mut r: Vec<String> = Vec::new();
    let mut i: usize = 0;
    assert(text::texts(r@) =~= strings_of(jv, 0));
    while i < v.len()
        invariant
            i <= v@.len(),
            jv == json::items_view(v@),
            text::texts(r@) == strings_of(jv, i as nat),
        decreases v@.len() - i,
    {
        assert(jv[i as int] == v@[i as int]@);
        if let Some(s) = v[i].as_str() {
            let t = s.to_string();
            proof {
                text::lemma_texts_push(r@, t);
            }
            r.push(t);
        }
        i += 1;
    }
    r
}

fn default_literal(j: &Json) -> (r: String)
    ensures
        r@ == default_text(j@),
{
    match j {
        Json::Str(s) => s.clone(),
        Json::Number(n) => n.clone(),
        Json::Bool(b) => if *b {
            "true".to_string()
        } else {
            "false".to_string()
        },
        Json::Null => "null".to_string(),
        _ => json::compact(j),
    }
}

fn is_str(s: Option<&str>, t: &str) -> (r: bool)
    ensures
        r == (s is Some && s->0@ == t@),
{
    match s {
        Some(x) => text::str_eq(x, t),
        None => false,
    }
}

fn is_true(v: &Vec<Json>, i: usize) -> (r: bool)
    ensures
        r == (json::item(json::items_view(v@), i as nat) == Some(JsonV::Bool(true))),
{
    if i < v.len() {
        assert(json::items_view(v@)[i as int] == v@[i as int]@);
        match &v[i] {
            Json::Bool(b) => *b,
            _ => false,
        }
    } else {
        false
    }
}

fn parse_arg(a: &Vec<Json>) -> (r: ArgSpec)
    ensures
        r@ == arg_of(json::items_view(a@)),
{
    let ghost av = json::items_view(a@);
    let name = match json::str_at(a, 1) {
        Some(s) => Some(s.to_string()),
        None => None,
    };
    let default = if a.len() > 3 {
        assert(av[3] == a@[3]@);
        Some(default_literal(&a[3]))
    } else {
        None
    };
    let optional = a.len() > 3 || is_true(a, 5);
    let enum_values = if is_str(json::str_at(a, 0), "ENUM") {
        match json::array_at(a, 4) {
            Some(l) => Some(collect_strings(l)),
            None => None,
        }
    } else {
        None
    };
    ArgSpec { name, default, optional, enum_values }
}

/// Reads the arguments of a signature.
fn parse_signature(s: &Vec<Json>) -> (r: Sig)
    ensures
        r@ == sig_of(json::items_view(s@)),
{
    let ghost sv = json::items_view(s@);
    let mut args: Vec<ArgSpec> = Vec::new();
    let mut i: usize = BEFORE_ARGS;
    assert(Seq::new(args@.len(), |k: int| args@[k]@) =~= Seq::<ArgSpecV>::empty());
    while i < s.len()
        invariant
            BEFORE_ARGS <= i,
            s@.len() >= BEFORE_ARGS ==> i <= s@.len(),
            s@.len() < BEFORE_ARGS ==> i == BEFORE_ARGS,
            sv == json::items_view(s@),
            Seq::new(args@.len(), |k: int| args@[k]@) == args_of(sv, i as nat),
        decreases s@.len() - i,
    {
        assert(sv[i as int] == s@[i as int]@);
        if let Some(a) = s[i].as_array() {
            if a.len() > 0 {
                let arg = parse_arg(a);
                let ghost before = args@;
                args.push(arg);
                assert(Seq::new(args@.len(), |k: int| args@[k]@) =~= Seq::new(
                    before.len(),
                    |k: int| before[k]@,
                ).push(arg@));
            }
        }
        i += 1;
    }
    assert(s@.len() < 3 ==> args_of(sv, sv.len()) =~= args_of(sv, 3));
    Sig { args }
}

fn parse_init(e: &Vec<Json>) -> (r: Option<Sig>)
    ensures
        match r {
            Some(s) => init_of(json::items_view(e@), e@.len()) == Some(s@),
            None => init_of(json::items_view(e@), e@.len()) is None,
        },
{
    let ghost ev = json::items_view(e@);
    let mut r: Option<Sig> = None;
    let mut i: usize = 2;
    while i < e.len()
        invariant
            2 <= i,
            e@.len() >= 2 ==> i <= e@.len(),
            e@.len() < 2 ==> i == 2,
            ev == json::items_view(e@),
            match r {
                Some(s) => init_of(ev, i as nat) == Some(s@),
                None => init_of(ev, i as nat) is None,
            },
        decreases e@.len() - i,
    {
        assert(ev[i as int] == e@[i as int]@);
        if let Some(a) = e[i].as_array() {
            if is_str(json::str_at(a, 0), "$INIT") {
                if let Some(s) = json::array_at(a, 1) {
                    r = Some(parse_signature(s));
                }
            }
        }
        i += 1;
    }
    r
}

fn add_sig(t: &mut Table<Sig>, name: &str, sig: Sig)
    ensures
        sigs_view(final(t)@) == sigs_view(old(t)@).insert(name@, sig@),
{
    let ghost before = t@;
    t.insert(name.to_string(), sig);
    assert(sigs_view(t@) =~= sigs_view(before).insert(name@, sig@));
}

fn parse_methods(e: &Vec<Json>) -> (r: Table<Sig>)
    ensures
        sigs_view(r@) == methods_of(json::items_view(e@), e@.len()),
{
    let ghost ev = json::items_view(e@);
    let mut r: Table<Sig> = Table::new();
    let mut i: usize = 2;
    assert(sigs_view(r@) =~= methods_of(ev, 2));
    while i < e.len()
        invariant
            2 <= i,
            e@.len() >= 2 ==> i <= e@.len(),
            e@.len() < 2 ==> i == 2,
            ev == json::items_view(e@),
            sigs_view(r@) == methods_of(ev, i as nat),
        decreases e@.len() - i,
    {
        assert(ev[i as int] == e@[i as int]@);
        if let Some(a) = e[i].as_array() {
            if is_str(json::str_at(a, 0), "$METHOD") {
                if let Some(name) = json::str_at(a, 1) {
                    if let Some(s) = json::array_at(a, 2) {
                        add_sig(&mut r, name, parse_signature(s));
                    }
                }
            }
        }
        i += 1;
    }
    r
}

fn add_entry(v: &mut VmodSpec, e: &Vec<Json>)
    ensures
        final(v)@ == with_entry(old(v)@, json::items_view(e@)),
{
    if is_str(json::str_at(e, 0), "$FUNC") {
        if let Some(name) = json::str_at(e, 1) {
            if let Some(s) = json::array_at(e, 2) {
                add_sig(&mut v.funcs, name, parse_signature(s));
            }
        }
    } else if is_str(json::str_at(e, 0), "$OBJ") {
        if let Some(name) = json::str_at(e, 1) {
            if let Some(init) = parse_init(e) {
                let o = ObjSpec { init, methods: parse_methods(e) };
                let ghost before = v.objects@;
                v.objects.insert(name.to_string(), o);
                assert(objects_view(v.objects@) =~= objects_view(before).insert(name@, o@));
            }
        }
    }
}

/// What is said of a vmod.
fn of_vmod(name: &str, rest: &str) -> (r: String)
    ensures
        r@ == "vmod '"@ + name@ + rest@,
{
    let mut r = "vmod '".to_string();
    r.append(name);
    r.append(rest);
    r
}

fn is_cut_short(sig: Option<&Vec<Json>>) -> (r: bool)
    ensures
        r == (match sig {
            Some(s) => cut_short(Some(json::items_view(s@))),
            None => cut_short(None),
        }),
{
    match sig {
        Some(s) => s.len() < BEFORE_ARGS,
        None => false,
    }
}

/// Whether the signature of a constructor or of a method is cut short.
fn is_short_member(a: &Vec<Json>) -> (r: bool)
    ensures
        r == cut_short(member_sig(json::items_view(a@))),
{
    if is_str(json::str_at(a, 0), "$INIT") {
        is_cut_short(json::array_at(a, 1))
    } else if is_str(json::str_at(a, 0), "$METHOD") && json::str_at(a, 1).is_some() {
        is_cut_short(json::array_at(a, 2))
    } else {
        false
    }
}

fn has_short_member(e: &Vec<Json>) -> (r: bool)
    ensures
        r == exists|i: int|
            2 <= i < e@.len() && #[trigger] short_member(json::items_view(e@), i),
{
    let ghost ev = json::items_view(e@);
    let mut i: usize = 2;
    while i < e.len()
        invariant
            2 <= i,
            ev == json::items_view(e@),
            forall|k: int| 2 <= k < i && k < e@.len() ==> !#[trigger] short_member(ev, k),
        decreases e@.len() - i,
    {
        assert(ev[i as int] == e@[i as int]@);
        if let Some(a) = e[i].as_array() {
            if is_short_member(a) {
                assert(short_member(ev, i as int));
                return true;
            }
        }
        i += 1;
    }
    false
}

fn is_short_entry(e: &Vec<Json>) -> (r: bool)
    ensures
        r == short_entry(json::items_view(e@)),
{
    if json::str_at(e, 1).is_none() {
        false
    } else if is_str(json::str_at(e, 0), "$FUNC") {
        is_cut_short(json::array_at(e, 2))
    } else if is_str(json::str_at(e, 0), "$OBJ") {
        has_short_member(e)
    } else {
        false
    }
}

fn find_entry_fault(name: &str, e: &Vec<Json>) -> (r: Option<String>)
    ensures
        text::opt_text(r) == entry_fault(name@, json::items_view(e@)),
{
    if is_short_entry(e) {
        return Some(of_vmod(name, "' has a signature that is cut short"));
    }
    if !is_str(json::str_at(e, 0), "$VMOD") {
        return None;
    }
    match json::str_at(e, 1) {
        Some(v) => {
            if text::starts_with(v, "2") {
                None
            } else {
                let mut m = of_vmod(name, "' has unsupported spec version '");
                m.append(v);
                m.append("'");
                Some(m)
            }
        },
        None => Some(of_vmod(name, "' has no version in $VMOD entry")),
    }
}

/// Whether a reading gave what it was to give.
pub open spec fn gave(
    want: core::result::Result<VmodSpecV, Seq<char>>,
    r: core::result::Result<VmodSpec, String>,
) -> bool {
    match (want, r) {
        (Ok(v), Ok(x)) => x@ == v,
        (Err(w), Err(m)) => m@ == w,
        _ => false,
    }
}

/// Reads the description of a vmod. An error is a warning for the user; the vmod
/// is then treated as unknown.
pub fn read_description(name: &str, j: &Json) -> (r: core::result::Result<VmodSpec, String>)
    ensures
        gave(description(name@, j@), r),
{
    let entries = match j.as_array() {
        Some(v) => v,
        None => {
            return Err(of_vmod(name, "' spec is not a JSON array"));
        },
    };
    let ghost ev = json::items_view(entries@);
    let mut spec = VmodSpec { funcs: Table::new(), objects: Table::new() };
    assert(spec@ =~= nothing_known());
    let mut i: usize = 0;
    while i < entries.len()
        invariant
            i <= entries@.len(),
            ev == json::items_view(entries@),
            j@.as_array() == Some(ev),
            described(name@, ev, 0, nothing_known()) == described(name@, ev, i as nat, spec@),
        decreases entries@.len() - i,
    {
        assert(ev[i as int] == entries@[i as int]@);
        if let Some(e) = entries[i].as_array() {
            if e.len() > 0 {
                if let Some(m) = find_entry_fault(name, e) {
                    return Err(m);
                }
                add_entry(&mut spec, e);
            }
        }
        i += 1;
    }
    Ok(spec)
}

/// Reads what a vmod's binary says of the vmod. An error is a warning for the
/// user; the vmod is then treated as unknown.
pub fn load_vmod(name: &str, data: &[u8]) -> (r: core::result::Result<VmodSpec, String>)
    ensures
        gave(loaded(name@, data@), r),
{
    let m = "VMOD_JSON_SPEC\x02".as_bytes();
    let at: usize = find_bytes(data, m);
    if at >= data.len() {
        return Err(of_vmod(name, "' has no VMOD_JSON_SPEC marker"));
    }
    let from: usize = at + m.len();
    let to: usize = find_byte(data, MARKER_END, from);
    if to >= data.len() {
        return Err(of_vmod(name, "' has truncated VMOD_JSON_SPEC (no end marker)"));
    }
    match json::read(vstd::slice::slice_subrange(data, from, to)) {
        Err(e) => {
            let mut w = of_vmod(name, "' has invalid JSON spec: ");
            w.append(e.as_str());
            Err(w)
        },
        Ok(j) => read_description(name, &j),
    }
}

/// Which of the directories of vmods the binary of one is taken from: the first
/// one that holds it.
pub fn first_holder(holds: &[bool]) -> (r: Option<usize>)
    ensures
        match r {
            Some(i) => i < holds@.len() && holds@[i as int] && forall|j: int|
                0 <= j < i ==> !#[trigger] holds@[j],
            None => forall|j: int| 0 <= j < holds@.len() ==> !#[trigger] holds@[j],
        },
{
    let mut i: usize = 0;
    while i < holds.len()
        invariant
            i <= holds@.len(),
            forall|j: int| 0 <= j < i ==> !#[trigger] holds@[j],
        decreases holds@.len() - i,
    {
        if holds[i] {
            return Some(i);
        }
        i += 1;
    }
    None
}

/// The name of the binary of a vmod.
pub fn binary_name(name: &str) -> (r: String)
    ensures
        r@ == "libvmod_"@ + name@ + ".so"@,
{
    let mut r = "libvmod_".to_string();
    r.append(name);
    r.append(".so");
    r
}

/// The warning that the binary of a vmod was not found.
pub fn not_found(name: &str) -> (r: String)
    ensures
        r@ == "vmod '"@ + name@ + "' not found in vmod paths"@,
{
    of_vmod(name, "' not found in vmod paths")
}

} // verus!
