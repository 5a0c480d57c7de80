//! The fourth pass: canonical names.
//!
//! Every name that a program declares is replaced by one that says where it is
//! used first, so neither the order of the declarations nor the names that were
//! chosen show any more. Backends become `backend_N`, probes `probe_N`, ACLs
//! `acl_N`, subroutines `sub_N` and vmod objects `obj_N`. The builtin
//! subroutines and a backend named `default` keep their names.
//!
//! The uses are followed through the builtin subroutines, in their fixed order,
//! and through every subroutine when it is first called. Declarations that are
//! never used are numbered behind the others, in the order of their canonical
//! texts.

use crate::ast;
use crate::ast::{
    Decl, DeclV, Field, FieldV, FieldValue, FieldValueV, NameEntryV, NameMap, Program, ProgramV,
};
use crate::canon;
use crate::json;
use crate::normalize::merge;
use crate::normalize::renaming;
use crate::normalize::renaming::RenamingV;
use crate::uses;
use crate::uses::{Use, UseV};
use crate::order;
use crate::order::{Key, KeyV};
use crate::table::Table;
use crate::text;
use vstd::prelude::*;
use vstd::string::*;

verus! {

broadcast use ast::group_views;

// ───────────────────────── names ─────────────────────────

/// What a name stands for.
#[derive(Debug, Clone, Copy, PartialEq, Eq, Structural)]
pub enum Kind {
    Backend,
    Probe,
    Acl,
    Sub,
    Obj,
}

/// What the canonical names of a kind begin with.
pub open spec fn prefix(k: Kind) -> Seq<char> {
    match k {
        Kind::Backend => "backend"@,
        Kind::Probe => "probe"@,
        Kind::Acl => "acl"@,
        Kind::Sub => "sub"@,
        Kind::Obj => "obj"@,
    }
}

/// The `n`th canonical name of a kind.
pub open spec fn numbered(k: Kind, n: nat) -> Seq<char> {
    prefix(k) + "_"@ + text::nat_text(n)
}

/// Whether a name stays as it is.
pub open spec fn keeps(k: Kind, name: Seq<char>) -> bool {
    (k == Kind::Sub && ast::builtin_name(name)) || (k == Kind::Backend && name == "default"@)
}

/// A name that has its canonical name.
#[verifier::ext_equal]
pub struct AssignedV {
    pub kind: Kind,
    pub name: Seq<char>,
    pub canonical: Seq<char>,
}

/// What is known while the uses are followed.
#[verifier::ext_equal]
pub struct NamesV {
    /// The names that have their canonical names, in the order in which they
    /// got them.
    pub assigned: Seq<AssignedV>,
    /// The vmod objects made so far.
    pub objects: Set<Seq<char>>,
    /// The subroutines that were followed.
    pub visited: Set<Seq<char>>,
}

/// The canonical name of a name.
pub open spec fn assigned_name(s: Seq<AssignedV>, k: Kind, name: Seq<char>) -> Option<Seq<char>>
    decreases s.len(),
{
    if s.len() == 0 {
        None
    } else if s.last().kind == k && s.last().name == name {
        Some(s.last().canonical)
    } else {
        assigned_name(s.drop_last(), k, name)
    }
}

/// How many numbers of a kind are given.
pub open spec fn numbers_of(s: Seq<AssignedV>, k: Kind) -> nat
    decreases s.len(),
{
    if s.len() == 0 {
        0
    } else {
        numbers_of(s.drop_last(), k) + if s.last().kind == k && !keeps(k, s.last().name) {
            1nat
        } else {
            0
        }
    }
}

/// The canonical name that a name gets.
pub open spec fn next_name(s: Seq<AssignedV>, k: Kind, name: Seq<char>) -> Seq<char> {
    if keeps(k, name) {
        name
    } else {
        numbered(k, numbers_of(s, k) + 1)
    }
}

/// Gives a name its canonical name, unless it has one.
pub open spec fn given(c: NamesV, k: Kind, name: Seq<char>) -> NamesV {
    if assigned_name(c.assigned, k, name) is Some {
        c
    } else {
        NamesV {
            assigned: c.assigned.push(
                AssignedV { kind: k, name, canonical: next_name(c.assigned, k, name) },
            ),
            ..c
        }
    }
}

// ───────────────────────── following the uses ─────────────────────────

/// What a declaration declares; an import declares nothing that is renamed.
pub open spec fn kind_of(d: DeclV) -> Option<Kind> {
    match d {
        DeclV::Import { .. } => None,
        DeclV::Backend { .. } => Some(Kind::Backend),
        DeclV::Probe { .. } => Some(Kind::Probe),
        DeclV::Acl { .. } => Some(Kind::Acl),
        DeclV::Sub { .. } => Some(Kind::Sub),
    }
}

/// Declarations by their names.
pub type DeclTableV = Map<Seq<char>, DeclV>;

/// The first `n` declarations by their names; of several of one name, the last.
pub open spec fn decl_table(ds: Seq<DeclV>, n: nat) -> DeclTableV
    decreases n,
{
    if n == 0 {
        Map::empty()
    } else {
        let before = decl_table(ds, (n - 1) as nat);
        if kind_of(ds[n - 1]) is Some {
            before.insert(ast::decl_name(ds[n - 1]), ds[n - 1])
        } else {
            before
        }
    }
}

/// How many declared names were not followed yet.
pub open spec fn unvisited(t: DeclTableV, visited: Set<Seq<char>>) -> nat {
    t.dom().difference(visited).len()
}

/// The fields of a declared backend.
pub open spec fn fields_of(t: DeclTableV, name: Seq<char>) -> Seq<FieldV> {
    if t.contains_key(name) {
        match t[name] {
            DeclV::Backend { body: Some(fs), .. } => fs,
            _ => seq![],
        }
    } else {
        seq![]
    }
}

/// The probe that a field refers to.
pub open spec fn ref_of(f: FieldV) -> Option<Seq<char>> {
    match f.value {
        FieldValueV::ProbeRef(p) => Some(p),
        _ => None,
    }
}

/// The probe of a backend that a field names.
pub open spec fn probe_of(f: FieldV) -> Option<Seq<char>> {
    match f.value {
        FieldValueV::ProbeRef(p) if f.name == "probe"@ => Some(p),
        _ => None,
    }
}

/// Gives the probes of the first `n` fields their names.
pub open spec fn probes_given(c: NamesV, fs: Seq<FieldV>, n: nat) -> NamesV
    decreases n,
{
    if n == 0 {
        c
    } else {
        let before = probes_given(c, fs, (n - 1) as nat);
        match probe_of(fs[n - 1]) {
            Some(p) => given(before, Kind::Probe, p),
            None => before,
        }
    }
}

/// The body of a declared subroutine.
pub open spec fn body_of(t: DeclTableV, name: Seq<char>) -> Option<Seq<ast::StmtV>> {
    if t.contains_key(name) {
        match t[name] {
            DeclV::Sub { body, .. } => Some(body),
            _ => None,
        }
    } else {
        None
    }
}

/// The uses from `i` on, each followed in its turn.
pub open spec fn used_from(t: DeclTableV, c: NamesV, us: Seq<UseV>, i: nat) -> NamesV
    decreases unvisited(t, c.visited), 1nat, us.len() - i,
{
    if i >= us.len() {
        c
    } else {
        let next = used(t, c, us[i as int]);
        if unvisited(t, next.visited) <= unvisited(t, c.visited) {
            used_from(t, next, us, i + 1)
        } else {
            next
        }
    }
}

/// One use: what it names gets its canonical name.
pub open spec fn used(t: DeclTableV, c: NamesV, u: UseV) -> NamesV
    decreases unvisited(t, c.visited), 0nat, 1nat,
{
    match u {
        UseV::Object(n) => given(NamesV { objects: c.objects.insert(n), ..c }, Kind::Obj, n),
        UseV::Sub(n) => touched(t, c, Kind::Sub, n),
        UseV::Name(n) => if c.objects.contains(n) {
            touched(t, c, Kind::Obj, n)
        } else if t.contains_key(n) && kind_of(t[n]) is Some {
            touched(t, c, kind_of(t[n])->0, n)
        } else {
            c
        },
    }
}

/// A name gets its canonical name. At its first use, so do the probes of a
/// backend, and what a subroutine uses.
pub open spec fn touched(t: DeclTableV, c: NamesV, k: Kind, name: Seq<char>) -> NamesV
    decreases unvisited(t, c.visited), 0nat, 0nat,
{
    if assigned_name(c.assigned, k, name) is Some {
        c
    } else {
        let c1 = given(c, k, name);
        match k {
            Kind::Backend => probes_given(c1, fields_of(t, name), fields_of(t, name).len()),
            Kind::Sub => {
                if c1.visited.contains(name) {
                    c1
                } else {
                    let c2 = NamesV { visited: c1.visited.insert(name), ..c1 };
                    match body_of(t, name) {
                        Some(body) if unvisited(t, c2.visited) < unvisited(t, c.visited) =>
                            used_from(t, c2, uses::body_uses(body), 0),
                        _ => c2,
                    }
                }
            },
            _ => c1,
        }
    }
}

/// A builtin subroutine is followed.
pub open spec fn entered(t: DeclTableV, c: NamesV, name: Seq<char>, body: Seq<ast::StmtV>) -> NamesV {
    let c1 = NamesV { visited: c.visited.insert(name), ..c };
    used_from(t, given(c1, Kind::Sub, name), uses::body_uses(body), 0)
}

/// The first `n` builtin subroutines of the fixed order are followed, where
/// they are declared.
pub open spec fn known_entered(t: DeclTableV, c: NamesV, n: nat) -> NamesV
    decreases n,
{
    if n == 0 {
        c
    } else {
        let before = known_entered(t, c, (n - 1) as nat);
        let name = ast::builtin_subs()[n - 1];
        match body_of(t, name) {
            Some(body) => entered(t, before, name, body),
            None => before,
        }
    }
}

/// The builtin subroutines outside the fixed order are followed, among the
/// first `n` declarations.
pub open spec fn others_entered(t: DeclTableV, c: NamesV, ds: Seq<DeclV>, n: nat) -> NamesV
    decreases n,
{
    if n == 0 {
        c
    } else {
        let before = others_entered(t, c, ds, (n - 1) as nat);
        match ds[n - 1] {
            DeclV::Sub { name, body, .. } if ast::builtin_name(name)
                && !ast::builtin_subs().contains(name) && !before.visited.contains(name) => entered(
                t,
                before,
                name,
                body,
            ),
            _ => before,
        }
    }
}

// ───────────────────────── what is never used ─────────────────────────

/// The canonical name that stands for a name in the program.
pub open spec fn resolved(t: DeclTableV, c: NamesV, n: Seq<char>) -> Option<Seq<char>> {
    if c.objects.contains(n) {
        assigned_name(c.assigned, Kind::Obj, n)
    } else if t.contains_key(n) && kind_of(t[n]) is Some {
        assigned_name(c.assigned, kind_of(t[n])->0, n)
    } else {
        None
    }
}

/// The canonical names as a renaming.
pub open spec fn renaming_of(t: DeclTableV, c: NamesV) -> RenamingV {
    Map::new(|n: Seq<char>| resolved(t, c, n) is Some, |n: Seq<char>| resolved(t, c, n)->0)
}

/// Whether a declaration of that kind is still without a canonical name.
pub open spec fn unused(c: NamesV, k: Kind, d: DeclV) -> bool {
    &&& kind_of(d) == Some(k)
    &&& !keeps(k, ast::decl_name(d))
    &&& assigned_name(c.assigned, k, ast::decl_name(d)) is None
}

/// What a declaration that is never used is ordered by: its canonical text,
/// with the names that have canonical names renamed, and its own name masked.
pub open spec fn dead_key(t: DeclTableV, c: NamesV, d: DeclV) -> KeyV {
    let m = renaming_of(t, c).insert(ast::decl_name(d), "$self"@);
    KeyV { rank: 0, text: json::compact_text(canon::decl_json(renaming::renamed_decl(d, m))) }
}

/// The unused declarations of a kind among the first `n`, with their keys.
pub open spec fn dead_first(
    t: DeclTableV,
    c: NamesV,
    k: Kind,
    ds: Seq<DeclV>,
    n: nat,
) -> Seq<(KeyV, Seq<char>)>
    decreases n,
{
    if n == 0 {
        seq![]
    } else {
        let before = dead_first(t, c, k, ds, (n - 1) as nat);
        if unused(c, k, ds[n - 1]) {
            before.push((dead_key(t, c, ds[n - 1]), ast::decl_name(ds[n - 1])))
        } else {
            before
        }
    }
}

/// Gives the first `n` names of a list their canonical names.
pub open spec fn all_given(c: NamesV, k: Kind, s: Seq<(KeyV, Seq<char>)>, n: nat) -> NamesV
    decreases n,
{
    if n == 0 {
        c
    } else {
        given(all_given(c, k, s, (n - 1) as nat), k, s[n - 1].1)
    }
}

/// Gives the unused declarations of a kind their names.
pub open spec fn dead_given(t: DeclTableV, c: NamesV, k: Kind, ds: Seq<DeclV>) -> NamesV {
    let s = order::sorted(dead_first(t, c, k, ds, ds.len()));
    all_given(c, k, s, s.len())
}

/// Whether a declaration is the backend `default`.
pub open spec fn is_default(d: DeclV) -> bool {
    d matches DeclV::Backend { name, .. } && name == "default"@
}

/// Whether one of the first `n` declarations is the backend `default`.
pub open spec fn has_default(ds: Seq<DeclV>, n: nat) -> bool {
    exists|i: int| 0 <= i < n && is_default(#[trigger] ds[i])
}

/// The backend `default` keeps its name also where it is never used; its probes
/// get theirs.
pub open spec fn default_given(t: DeclTableV, c: NamesV, ds: Seq<DeclV>) -> NamesV {
    if has_default(ds, ds.len()) {
        touched(t, c, Kind::Backend, "default"@)
    } else {
        c
    }
}

/// Nothing is known yet.
pub open spec fn no_names() -> NamesV {
    NamesV { assigned: seq![], objects: Set::empty(), visited: Set::empty() }
}

/// What is known when all uses are followed.
pub open spec fn names_used(t: DeclTableV, ds: Seq<DeclV>) -> NamesV {
    others_entered(t, known_entered(t, no_names(), ast::builtin_subs().len()), ds, ds.len())
}

/// The canonical names of a list of declarations.
pub open spec fn all_names(ds: Seq<DeclV>) -> NamesV {
    let t = decl_table(ds, ds.len());
    let c1 = dead_given(t, names_used(t, ds), Kind::Probe, ds);
    let c2 = default_given(t, c1, ds);
    let c3 = dead_given(t, c2, Kind::Backend, ds);
    let c4 = dead_given(t, c3, Kind::Acl, ds);
    dead_given(t, c4, Kind::Sub, ds)
}

/// The renamings, without the names that stay.
pub open spec fn name_list(s: Seq<AssignedV>) -> Seq<NameEntryV>
    decreases s.len(),
{
    if s.len() == 0 {
        seq![]
    } else {
        let before = name_list(s.drop_last());
        let a = s.last();
        if keeps(a.kind, a.name) {
            before
        } else {
            before.push(
                NameEntryV { kind: prefix(a.kind), canonical: a.canonical, original: a.name },
            )
        }
    }
}

/// Declarations with their canonical names.
pub open spec fn canonical_decls(ds: Seq<DeclV>) -> Seq<DeclV> {
    renaming::renamed_decls(ds, renaming_of(decl_table(ds, ds.len()), all_names(ds)))
}

/// What the pass makes of a program.
pub open spec fn renamed_program(p: ProgramV) -> ProgramV {
    let m = merge::merged_program(p);
    ProgramV { decls: canonical_decls(m.decls), ..m }
}

/// The renamings that the pass reports.
pub open spec fn program_names(p: ProgramV) -> Seq<NameEntryV> {
    name_list(all_names(merge::merged_program(p).decls).assigned)
}

// ───────────────────────── names of lifted probes ─────────────────────────

/// Whether a declaration has a name that no program can have.
pub open spec fn is_anonymous(d: DeclV) -> bool {
    kind_of(d) is Some && text::begins_with(ast::decl_name(d), "$"@)
}

/// How many of the first `n` declarations of a kind have such a name.
pub open spec fn anonymous_count(ds: Seq<DeclV>, k: Kind, n: nat) -> nat
    decreases n,
{
    if n == 0 {
        0
    } else {
        anonymous_count(ds, k, (n - 1) as nat) + if is_anonymous(ds[n - 1]) && kind_of(ds[n - 1])
            == Some(k) {
            1nat
        } else {
            0
        }
    }
}

/// The names that the first `n` declarations get in place of such names.
pub open spec fn anonymous_names(ds: Seq<DeclV>, n: nat) -> RenamingV
    decreases n,
{
    if n == 0 {
        Map::empty()
    } else {
        let before = anonymous_names(ds, (n - 1) as nat);
        if is_anonymous(ds[n - 1]) {
            let k = kind_of(ds[n - 1])->0;
            before.insert(ast::decl_name(ds[n - 1]), numbered(k, anonymous_count(ds, k, n)))
        } else {
            before
        }
    }
}

/// A program with its subroutines merged and such names replaced.
pub open spec fn merged_only(p: ProgramV) -> ProgramV {
    let m = merge::merged_program(p);
    ProgramV {
        decls: renaming::renamed_decls(m.decls, anonymous_names(m.decls, m.decls.len())),
        ..m
    }
}

// ───────────────────────── what is known only grows ─────────────────────────

/// Whether everything that is known in `a` is known in `b`.
pub open spec fn grows(a: NamesV, b: NamesV) -> bool {
    &&& a.assigned.is_prefix_of(b.assigned)
    &&& a.objects.subset_of(b.objects)
    &&& a.visited.subset_of(b.visited)
}

pub(crate) proof fn lemma_unvisited_grows(t: DeclTableV, a: Set<Seq<char>>, b: Set<Seq<char>>)
    requires
        t.dom().finite(),
        a.subset_of(b),
    ensures
        unvisited(t, b) <= unvisited(t, a),
{
    vstd::set_lib::lemma_len_subset(t.dom().difference(b), t.dom().difference(a));
}

pub(crate) proof fn lemma_unvisited_less(t: DeclTableV, a: Set<Seq<char>>, name: Seq<char>)
    requires
        t.dom().finite(),
        t.contains_key(name),
        !a.contains(name),
    ensures
        unvisited(t, a.insert(name)) < unvisited(t, a),
{
    t.dom().difference(a.insert(name)).lemma_subset_not_in_lt(t.dom().difference(a), name);
}

pub(crate) proof fn lemma_table_finite(ds: Seq<DeclV>, n: nat)
    ensures
        decl_table(ds, n).dom().finite(),
    decreases n,
{
    if n > 0 {
        lemma_table_finite(ds, (n - 1) as nat);
    }
}

pub(crate) proof fn lemma_given_grows(c: NamesV, k: Kind, name: Seq<char>)
    ensures
        grows(c, given(c, k, name)),
        given(c, k, name).visited == c.visited,
        given(c, k, name).objects == c.objects,
{
}

pub(crate) proof fn lemma_probes_grow(c: NamesV, fs: Seq<FieldV>, n: nat)
    ensures
        grows(c, probes_given(c, fs, n)),
        probes_given(c, fs, n).visited == c.visited,
        probes_given(c, fs, n).objects == c.objects,
    decreases n,
{
    if n > 0 {
        lemma_probes_grow(c, fs, (n - 1) as nat);
    }
}

pub(crate) proof fn lemma_used_from_grows(t: DeclTableV, c: NamesV, us: Seq<UseV>, i: nat)
    requires
        t.dom().finite(),
    ensures
        grows(c, used_from(t, c, us, i)),
    decreases unvisited(t, c.visited), 1nat, us.len() - i,
{
    if i < us.len() {
        let next = used(t, c, us[i as int]);
        lemma_used_grows(t, c, us[i as int]);
        lemma_unvisited_grows(t, c.visited, next.visited);
        lemma_used_from_grows(t, next, us, i + 1);
    }
}

pub(crate) proof fn lemma_used_grows(t: DeclTableV, c: NamesV, u: UseV)
    requires
        t.dom().finite(),
    ensures
        grows(c, used(t, c, u)),
    decreases unvisited(t, c.visited), 0nat, 1nat,
{
    match u {
        UseV::Object(_) => {},
        UseV::Sub(n) => lemma_touched_grows(t, c, Kind::Sub, n),
        UseV::Name(n) => {
            lemma_touched_grows(t, c, Kind::Obj, n);
            if t.contains_key(n) && kind_of(t[n]) is Some {
                lemma_touched_grows(t, c, kind_of(t[n])->0, n);
            }
        },
    }
}

proof fn lemma_touched_grows(t: DeclTableV, c: NamesV, k: Kind, name: Seq<char>)
    requires
        t.dom().finite(),
    ensures
        grows(c, touched(t, c, k, name)),
    decreases unvisited(t, c.visited), 0nat, 0nat,
{
    if assigned_name(c.assigned, k, name) is None {
        let c1 = given(c, k, name);
        lemma_given_grows(c, k, name);
        match k {
            Kind::Backend => {
                lemma_probes_grow(c1, fields_of(t, name), fields_of(t, name).len());
            },
            Kind::Sub => {
                if !c1.visited.contains(name) && body_of(t, name) is Some {
                    let c2 = NamesV { visited: c1.visited.insert(name), ..c1 };
                    lemma_unvisited_less(t, c.visited, name);
                    lemma_used_from_grows(t, c2, uses::body_uses(body_of(t, name)->0), 0);
                }
            },
            _ => {},
        }
    }
}

// ───────────────────────── the code: names ─────────────────────────

struct Assigned {
    kind: Kind,
    name: String,
    canonical: String,
}

spec fn assigned_view(s: Seq<Assigned>) -> Seq<AssignedV> {
    Seq::new(
        s.len(),
        |i: int| AssignedV { kind: s[i].kind, name: s[i].name@, canonical: s[i].canonical@ },
    )
}

/// The state of the pass.
struct Names {
    assigned: Vec<Assigned>,
    objects: Vec<String>,
    visited: Vec<String>,
}

impl View for Names {
    type V = NamesV;

    closed spec fn view(&self) -> NamesV {
        NamesV {
            assigned: assigned_view(self.assigned@),
            objects: text::texts(self.objects@).to_set(),
            visited: text::texts(self.visited@).to_set(),
        }
    }
}

fn prefix_of(k: Kind) -> (r: &'static str)
    ensures
        r@ == prefix(k),
{
    match k {
        Kind::Backend => "backend",
        Kind::Probe => "probe",
        Kind::Acl => "acl",
        Kind::Sub => "sub",
        Kind::Obj => "obj",
    }
}

fn numbered_name(k: Kind, n: u64) -> (r: String)
    ensures
        r@ == numbered(k, n as nat),
{
    let mut r = prefix_of(k).to_string();
    r.append("_");
    r.append(text::u64_text(n).as_str());
    r
}

fn stays(k: Kind, name: &str) -> (r: bool)
    ensures
        r == keeps(k, name@),
{
    (k == Kind::Sub && ast::is_builtin_sub(name)) || (k == Kind::Backend && text::str_eq(
        name,
        "default",
    ))
}

fn count_numbers(s: &Vec<Assigned>, k: Kind) -> (r: u64)
    ensures
        r as nat == numbers_of(assigned_view(s@), k),
        r <= s@.len(),
{
    let ghost sv = assigned_view(s@);
    let mut n: u64 = 0;
    let mut i: usize = 0;
    assert(sv.take(0) =~= Seq::<AssignedV>::empty());
    while i < s.len()
        invariant
            i <= s@.len(),
            sv == assigned_view(s@),
            n <= i,
            n as nat == numbers_of(sv.take(i as int), k),
        decreases s@.len() - i,
    {
        assert(sv.take(i + 1).drop_last() =~= sv.take(i as int));
        assert(sv.take(i + 1).last() == sv[i as int]);
        if s[i].kind == k && !stays(k, s[i].name.as_str()) {
            n += 1;
        }
        i += 1;
    }
    assert(sv.take(sv.len() as int) =~= sv);
    n
}

proof fn lemma_set_push(s: Seq<String>, x: String)
    ensures
        text::texts(s.push(x)).to_set() == text::texts(s).to_set().insert(x@),
{
    let a = text::texts(s);
    let b = text::texts(s.push(x));
    assert(b =~= a.push(x@));
    assert forall|n: Seq<char>| #[trigger] b.contains(n) == (a.contains(n) || n == x@) by {
        if a.contains(n) {
            let i = choose|i: int| 0 <= i < a.len() && a[i] == n;
            assert(b[i] == n);
        }
        if n == x@ {
            assert(b[a.len() as int] == n);
        }
        if b.contains(n) {
            let i = choose|i: int| 0 <= i < b.len() && b[i] == n;
            assert(i < a.len() ==> a[i] == n);
        }
    }
    assert(b.to_set() =~= a.to_set().insert(x@));
}

impl Names {
    fn new() -> (r: Self)
        ensures
            r@ == no_names(),
    {
        let r = Names { assigned: Vec::new(), objects: Vec::new(), visited: Vec::new() };
        assert(r@ =~= no_names());
        r
    }

    fn find(&self, k: Kind, name: &str) -> (r: Option<&String>)
        ensures
            match r {
                Some(n) => assigned_name(self@.assigned, k, name@) == Some(n@),
                None => assigned_name(self@.assigned, k, name@) is None,
            },
    {
        let ghost sv = self@.assigned;
        let mut i: usize = self.assigned.len();
        assert(sv.take(sv.len() as int) =~= sv);
        while i > 0
            invariant
                i <= self.assigned@.len(),
                sv == self@.assigned,
                assigned_name(sv, k, name@) == assigned_name(sv.take(i as int), k, name@),
            decreases i,
        {
            i -= 1;
            assert(sv.take(i + 1).drop_last() =~= sv.take(i as int));
            assert(sv.take(i + 1).last() == sv[i as int]);
            if self.assigned[i].kind == k && text::str_eq(self.assigned[i].name.as_str(), name) {
                return Some(&self.assigned[i].canonical);
            }
        }
        assert(sv.take(0) =~= Seq::<AssignedV>::empty());
        None
    }

    fn is_assigned(&self, k: Kind, name: &str) -> (r: bool)
        ensures
            r == (assigned_name(self@.assigned, k, name@) is Some),
    {
        match self.find(k, name) {
            Some(_) => true,
            None => false,
        }
    }

    fn is_object(&self, name: &str) -> (r: bool)
        ensures
            r == self@.objects.contains(name@),
    {
        text::contains_text(&self.objects, name)
    }

    fn is_visited(&self, name: &str) -> (r: bool)
        ensures
            r == self@.visited.contains(name@),
    {
        text::contains_text(&self.visited, name)
    }

    fn add_object(&mut self, name: &str)
        ensures
            final(self)@ == (NamesV { objects: old(self)@.objects.insert(name@), ..old(self)@ }),
    {
        let x = name.to_string();
        proof {
            lemma_set_push(self.objects@, x);
        }
        self.objects.push(x);
    }

    fn visit(&mut self, name: &str)
        ensures
            final(self)@ == (NamesV { visited: old(self)@.visited.insert(name@), ..old(self)@ }),
    {
        let x = name.to_string();
        proof {
            lemma_set_push(self.visited@, x);
        }
        self.visited.push(x);
    }

    /// Gives a name its canonical name, unless it has one.
    fn assign(&mut self, k: Kind, name: &str)
        ensures
            final(self)@ == given(old(self)@, k, name@),
    {
        if self.is_assigned(k, name) {
            return;
        }
        let ghost before = self.assigned@;
        let ghost bv = assigned_view(before);
        let at: usize = self.assigned.len();
        self.assigned.push(
            Assigned { kind: k, name: name.to_string(), canonical: name.to_string() },
        );
        proof {
            assert(assigned_view(self.assigned@) =~= bv.push(
                AssignedV { kind: k, name: name@, canonical: name@ },
            ));
            assert(assigned_view(self.assigned@).drop_last() =~= bv);
        }
        if !stays(k, name) {
            let n: u64 = count_numbers(&self.assigned, k);
            let canonical = numbered_name(k, n);
            self.assigned.set(at, Assigned { kind: k, name: name.to_string(), canonical });
            assert(assigned_view(self.assigned@) =~= bv.push(
                AssignedV { kind: k, name: name@, canonical: next_name(bv, k, name@) },
            ));
        }
    }
}

// ───────────────────────── the code: following the uses ─────────────────────────

fn find_decl(ds: &Vec<Decl>, name: &str) -> (r: Option<usize>)
    ensures
        ({
            let dv = ast::decls_view(ds@);
            let t = decl_table(dv, dv.len());
            match r {
                Some(i) => i < ds@.len() && t.contains_key(name@) && t[name@] == dv[i as int]
                    && kind_of(dv[i as int]) is Some,
                None => !t.contains_key(name@),
            }
        }),
{
    let ghost dv = ast::decls_view(ds@);
    let ghost t = decl_table(dv, dv.len());
    let mut i: usize = ds.len();
    while i > 0
        invariant
            i <= ds@.len(),
            dv == ast::decls_view(ds@),
            t == decl_table(dv, dv.len()),
            t.contains_key(name@) == decl_table(dv, i as nat).contains_key(name@),
            t.contains_key(name@) ==> t[name@] == decl_table(dv, i as nat)[name@],
        decreases i,
    {
        i -= 1;
        assert(dv[i as int] == ds@[i as int]@);
        let is_import = matches!(ds[i], Decl::Import { .. });
        if !is_import && text::str_eq(ds[i].name().as_str(), name) {
            return Some(i);
        }
    }
    None
}

fn decl_kind(d: &Decl) -> (r: Option<Kind>)
    ensures
        r == kind_of(d@),
{
    match d {
        Decl::Import { .. } => None,
        Decl::Backend { .. } => Some(Kind::Backend),
        Decl::Probe { .. } => Some(Kind::Probe),
        Decl::Acl { .. } => Some(Kind::Acl),
        Decl::Sub { .. } => Some(Kind::Sub),
    }
}

fn touch_probes(fs: &Vec<Field>, c: &mut Names)
    ensures
        final(c)@ == probes_given(old(c)@, ast::fields_view(fs@), fs@.len()),
{
    let ghost start = c@;
    let ghost fv = ast::fields_view(fs@);
    let mut i: usize = 0;
    while i < fs.len()
        invariant
            i <= fs@.len(),
            fv == ast::fields_view(fs@),
            c@ == probes_given(start, fv, i as nat),
        decreases fs@.len() - i,
    {
        assert(fv[i as int] == fs@[i as int]@);
        if let FieldValue::ProbeRef(p) = &fs[i].value {
            if text::str_eq(fs[i].name.as_str(), "probe") {
                c.assign(Kind::Probe, p.as_str());
            }
        }
        i += 1;
    }
}

/// Gives a name its canonical name and, at its first use, follows it.
fn touch(ds: &Vec<Decl>, c: &mut Names, k: Kind, name: &str, Ghost(t): Ghost<DeclTableV>)
    requires
        t == decl_table(ast::decls_view(ds@), ds@.len()),
        t.dom().finite(),
    ensures
        final(c)@ == touched(t, old(c)@, k, name@),
    decreases unvisited(t, old(c)@.visited), 0nat, 0nat,
{
    if c.is_assigned(k, name) {
        return;
    }
    let ghost before = c@;
    c.assign(k, name);
    match k {
        Kind::Backend => {
            if let Some(i) = find_decl(ds, name) {
                if let Decl::Backend { body: Some(fs), .. } = &ds[i] {
                    touch_probes(fs, c);
                }
            }
        },
        Kind::Sub => {
            if !c.is_visited(name) {
                c.visit(name);
                if let Some(i) = find_decl(ds, name) {
                    if let Decl::Sub { body, .. } = &ds[i] {
                        proof {
                            lemma_unvisited_less(t, before.visited, name@);
                        }
                        let us = uses::uses_of(body);
                        use_all(ds, c, &us, Ghost(t));
                    }
                }
            }
        },
        _ => {},
    }
}

fn use_one(ds: &Vec<Decl>, c: &mut Names, u: &Use, Ghost(t): Ghost<DeclTableV>)
    requires
        t == decl_table(ast::decls_view(ds@), ds@.len()),
        t.dom().finite(),
    ensures
        final(c)@ == used(t, old(c)@, u@),
    decreases unvisited(t, old(c)@.visited), 0nat, 1nat,
{
    match u {
        Use::Object(n) => {
            c.add_object(n.as_str());
            c.assign(Kind::Obj, n.as_str());
        },
        Use::Sub(n) => {
            touch(ds, c, Kind::Sub, n.as_str(), Ghost(t));
        },
        Use::Name(n) => {
            if c.is_object(n.as_str()) {
                touch(ds, c, Kind::Obj, n.as_str(), Ghost(t));
            } else if let Some(i) = find_decl(ds, n.as_str()) {
                if let Some(k) = decl_kind(&ds[i]) {
                    touch(ds, c, k, n.as_str(), Ghost(t));
                }
            }
        },
    }
}

fn use_all(ds: &Vec<Decl>, c: &mut Names, us: &Vec<Use>, Ghost(t): Ghost<DeclTableV>)
    requires
        t == decl_table(ast::decls_view(ds@), ds@.len()),
        t.dom().finite(),
    ensures
        final(c)@ == used_from(t, old(c)@, uses::uses_view(us@), 0),
    decreases unvisited(t, old(c)@.visited), 1nat, 0nat,
{
    let ghost start = c@;
    let ghost uv = uses::uses_view(us@);
    let mut i: usize = 0;
    while i < us.len()
        invariant
            i <= us@.len(),
            uv == uses::uses_view(us@),
            t == decl_table(ast::decls_view(ds@), ds@.len()),
            t.dom().finite(),
            unvisited(t, c@.visited) <= unvisited(t, start.visited),
            start == old(c)@,
            used_from(t, start, uv, 0) == used_from(t, c@, uv, i as nat),
        decreases us@.len() - i,
    {
        let ghost before = c@;
        assert(uv[i as int] == us@[i as int]@);
        use_one(ds, c, &us[i], Ghost(t));
        proof {
            lemma_used_grows(t, before, uv[i as int]);
            lemma_unvisited_grows(t, before.visited, c@.visited);
        }
        i += 1;
    }
}

fn enter(
    ds: &Vec<Decl>,
    c: &mut Names,
    name: &str,
    body: &Vec<ast::Stmt>,
    Ghost(t): Ghost<DeclTableV>,
)
    requires
        t == decl_table(ast::decls_view(ds@), ds@.len()),
        t.dom().finite(),
    ensures
        final(c)@ == entered(t, old(c)@, name@, ast::stmts_view(body@)),
{
    c.visit(name);
    c.assign(Kind::Sub, name);
    let us = uses::uses_of(body);
    use_all(ds, c, &us, Ghost(t));
}

/// Follows the builtin subroutines.
fn walk_builtins(ds: &Vec<Decl>, c: &mut Names, Ghost(t): Ghost<DeclTableV>)
    requires
        t == decl_table(ast::decls_view(ds@), ds@.len()),
        t.dom().finite(),
        old(c)@ == no_names(),
    ensures
        final(c)@ == names_used(t, ast::decls_view(ds@)),
{
    let known = ast::builtin_sub_order();
    let ghost dv = ast::decls_view(ds@);
    let mut i: usize = 0;
    while i < known.len()
        invariant
            i <= known@.len(),
            text::texts(known@) == ast::builtin_subs(),
            t == decl_table(ast::decls_view(ds@), ds@.len()),
            t.dom().finite(),
            c@ == known_entered(t, no_names(), i as nat),
        decreases known@.len() - i,
    {
        assert(text::texts(known@)[i as int] == known@[i as int]@);
        if let Some(j) = find_decl(ds, known[i].as_str()) {
            if let Decl::Sub { body, .. } = &ds[j] {
                enter(ds, c, known[i].as_str(), body, Ghost(t));
            }
        }
        i += 1;
    }
    assert(known@.len() == ast::builtin_subs().len());
    let ghost start = c@;
    let mut i: usize = 0;
    while i < ds.len()
        invariant
            i <= ds@.len(),
            text::texts(known@) == ast::builtin_subs(),
            dv == ast::decls_view(ds@),
            t == decl_table(ast::decls_view(ds@), ds@.len()),
            t.dom().finite(),
            c@ == others_entered(t, start, dv, i as nat),
        decreases ds@.len() - i,
    {
        assert(dv[i as int] == ds@[i as int]@);
        if let Decl::Sub { name, body, .. } = &ds[i] {
            if ast::is_builtin_sub(name.as_str()) && !text::contains_text(&known, name.as_str())
                && !c.is_visited(name.as_str()) {
                enter(ds, c, name.as_str(), body, Ghost(t));
            }
        }
        i += 1;
    }
}

// ───────────────────────── the code: what is never used ─────────────────────────

/// Whether the canonical name given to this entry stands for its name.
spec fn stands(t: DeclTableV, objects: Set<Seq<char>>, a: AssignedV) -> bool {
    if objects.contains(a.name) {
        a.kind == Kind::Obj
    } else {
        t.contains_key(a.name) && kind_of(t[a.name]) == Some(a.kind)
    }
}

/// The renaming that the first entries make.
spec fn entries_renaming(
    t: DeclTableV,
    objects: Set<Seq<char>>,
    s: Seq<AssignedV>,
) -> RenamingV
    decreases s.len(),
{
    if s.len() == 0 {
        Map::empty()
    } else {
        let before = entries_renaming(t, objects, s.drop_last());
        if stands(t, objects, s.last()) {
            before.insert(s.last().name, s.last().canonical)
        } else {
            before
        }
    }
}

proof fn lemma_entries_renaming(t: DeclTableV, c: NamesV)
    ensures
        entries_renaming(t, c.objects, c.assigned) == renaming_of(t, c),
    decreases c.assigned.len(),
{
    if c.assigned.len() > 0 {
        lemma_entries_renaming(t, NamesV { assigned: c.assigned.drop_last(), ..c });
    }
    assert(entries_renaming(t, c.objects, c.assigned) =~= renaming_of(t, c));
}

fn renaming_table(ds: &Vec<Decl>, c: &Names) -> (r: Table<String>)
    ensures
        renaming::names_of(r@) == renaming_of(
            decl_table(ast::decls_view(ds@), ds@.len()),
            c@,
        ),
{
    let ghost t = decl_table(ast::decls_view(ds@), ds@.len());
    let ghost sv = c@.assigned;
    let mut r: Table<String> = Table::new();
    let mut i: usize = 0;
    assert(sv.take(0) =~= Seq::<AssignedV>::empty());
    assert(renaming::names_of(r@) =~= entries_renaming(t, c@.objects, sv.take(0)));
    while i < c.assigned.len()
        invariant
            i <= c.assigned@.len(),
            sv == c@.assigned,
            t == decl_table(ast::decls_view(ds@), ds@.len()),
            renaming::names_of(r@) == entries_renaming(t, c@.objects, sv.take(i as int)),
        decreases c.assigned@.len() - i,
    {
        let a = &c.assigned[i];
        let ghost before = renaming::names_of(r@);
        proof {
            assert(sv.take(i + 1).drop_last() =~= sv.take(i as int));
            assert(sv.take(i + 1).last() == sv[i as int]);
        }
        let k = if c.is_object(a.name.as_str()) {
            Some(Kind::Obj)
        } else {
            match find_decl(ds, a.name.as_str()) {
                Some(j) => decl_kind(&ds[j]),
                None => None,
            }
        };
        if k == Some(a.kind) {
            r.insert(a.name.clone(), a.canonical.clone());
            assert(renaming::names_of(r@) =~= before.insert(a.name@, a.canonical@));
        }
        i += 1;
    }
    proof {
        assert(sv.take(sv.len() as int) =~= sv);
        lemma_entries_renaming(t, c@);
    }
    r
}

fn is_unused(c: &Names, k: Kind, d: &Decl) -> (r: bool)
    ensures
        r == unused(c@, k, d@),
{
    decl_kind(d) == Some(k) && !stays(k, d.name().as_str()) && !c.is_assigned(
        k,
        d.name().as_str(),
    )
}

fn score(ds: &Vec<Decl>, c: &Names, d: &Decl) -> (r: Key)
    ensures
        r@ == dead_key(decl_table(ast::decls_view(ds@), ds@.len()), c@, d@),
{
    let mut m = renaming_table(ds, c);
    let ghost before = renaming::names_of(m@);
    m.insert(d.name().clone(), "$self".to_string());
    assert(renaming::names_of(m@) =~= before.insert(ast::decl_name(d@), "$self"@));
    let masked = renaming::rename_decl(d, &m);
    let r = Key { rank: 0, text: json::compact(&canon::decl_to_json(&masked)) };
    assert(r@ =~= dead_key(decl_table(ast::decls_view(ds@), ds@.len()), c@, d@));
    r
}

/// Gives the unused declarations of a kind their names.
fn assign_dead(ds: &Vec<Decl>, c: &mut Names, k: Kind)
    ensures
        final(c)@ == dead_given(
            decl_table(ast::decls_view(ds@), ds@.len()),
            old(c)@,
            k,
            ast::decls_view(ds@),
        ),
{
    let ghost dv = ast::decls_view(ds@);
    let ghost t = decl_table(dv, dv.len());
    let ghost start = c@;
    let mut found: Vec<(Key, String)> = Vec::new();
    let mut i: usize = 0;
    assert(order::pairs_view(found@) =~= dead_first(t, start, k, dv, 0));
    while i < ds.len()
        invariant
            i <= ds@.len(),
            dv == ast::decls_view(ds@),
            t == decl_table(dv, dv.len()),
            c@ == start,
            order::pairs_view(found@) == dead_first(t, start, k, dv, i as nat),
        decreases ds@.len() - i,
    {
        assert(dv[i as int] == ds@[i as int]@);
        if is_unused(c, k, &ds[i]) {
            let key = score(ds, c, &ds[i]);
            let name = ds[i].name().clone();
            let ghost before = found@;
            found.push((key, name));
            assert(order::pairs_view(found@) =~= order::pairs_view(before).push((key@, name@)));
        }
        i += 1;
    }
    let done = order::sort_pairs(found);
    let ghost s = order::pairs_view(done@);
    let mut i: usize = 0;
    while i < done.len()
        invariant
            i <= done@.len(),
            s == order::pairs_view(done@),
            c@ == all_given(start, k, s, i as nat),
        decreases done@.len() - i,
    {
        assert(s[i as int] == (done@[i as int].0@, done@[i as int].1@));
        c.assign(k, done[i].1.as_str());
        i += 1;
    }
}

fn is_default_backend(d: &Decl) -> (r: bool)
    ensures
        r == is_default(d@),
{
    match d {
        Decl::Backend { name, .. } => text::str_eq(name.as_str(), "default"),
        _ => false,
    }
}

/// The backend `default` keeps its name.
fn ensure_default_backend(ds: &Vec<Decl>, c: &mut Names, Ghost(t): Ghost<DeclTableV>)
    requires
        t == decl_table(ast::decls_view(ds@), ds@.len()),
        t.dom().finite(),
    ensures
        final(c)@ == default_given(t, old(c)@, ast::decls_view(ds@)),
{
    let ghost dv = ast::decls_view(ds@);
    let mut i: usize = 0;
    while i < ds.len() && !is_default_backend(&ds[i])
        invariant
            i <= ds@.len(),
            dv == ast::decls_view(ds@),
            forall|j: int| 0 <= j < i ==> !is_default(#[trigger] dv[j]),
        decreases ds@.len() - i,
    {
        assert(dv[i as int] == ds@[i as int]@);
        i += 1;
    }
    if i < ds.len() {
        assert(is_default(dv[i as int]));
        touch(ds, c, Kind::Backend, "default", Ghost(t));
    }
}

fn list_names(c: &Names) -> (r: NameMap)
    ensures
        r@ == name_list(c@.assigned),
{
    let ghost sv = c@.assigned;
    let mut entries: Vec<(String, String, String)> = Vec::new();
    let mut i: usize = 0;
    assert(sv.take(0) =~= Seq::<AssignedV>::empty());
    assert(ast::name_entries(entries@) =~= name_list(sv.take(0)));
    while i < c.assigned.len()
        invariant
            i <= c.assigned@.len(),
            sv == c@.assigned,
            ast::name_entries(entries@) == name_list(sv.take(i as int)),
        decreases c.assigned@.len() - i,
    {
        let a = &c.assigned[i];
        proof {
            assert(sv.take(i + 1).drop_last() =~= sv.take(i as int));
            assert(sv.take(i + 1).last() == sv[i as int]);
        }
        if !stays(a.kind, a.name.as_str()) {
            let ghost before = entries@;
            let kind = prefix_of(a.kind).to_string();
            entries.push((kind, a.canonical.clone(), a.name.clone()));
            assert(ast::name_entries(entries@) =~= ast::name_entries(before).push(
                NameEntryV { kind: prefix(a.kind), canonical: a.canonical@, original: a.name@ },
            ));
        }
        i += 1;
    }
    assert(sv.take(sv.len() as int) =~= sv);
    NameMap { entries }
}

/// Runs the pass and returns the renamings.
pub fn run(p: &mut Program) -> (r: NameMap)
    ensures
        final(p)@ == renamed_program(old(p)@),
        r@ == program_names(old(p)@),
{
    merge::merge_subs(p);
    let ghost dv = ast::decls_view(p.decls@);
    let ghost t = decl_table(dv, dv.len());
    proof {
        lemma_table_finite(dv, dv.len());
    }
    let mut c = Names::new();
    walk_builtins(&p.decls, &mut c, Ghost(t));
    assign_dead(&p.decls, &mut c, Kind::Probe);
    ensure_default_backend(&p.decls, &mut c, Ghost(t));
    assign_dead(&p.decls, &mut c, Kind::Backend);
    assign_dead(&p.decls, &mut c, Kind::Acl);
    assign_dead(&p.decls, &mut c, Kind::Sub);
    let m = renaming_table(&p.decls, &c);
    p.decls = renaming::rename_decls(&p.decls, &m);
    list_names(&c)
}

// ───────────────────────── the code: names of lifted probes ─────────────────────────

fn is_anonymous_decl(d: &Decl) -> (r: bool)
    ensures
        r == is_anonymous(d@),
{
    match d {
        Decl::Import { .. } => false,
        _ => text::starts_with(d.name().as_str(), "$"),
    }
}

fn count_anonymous(ds: &Vec<Decl>, k: Kind, n: usize) -> (r: u64)
    requires
        n <= ds@.len(),
    ensures
        r as nat == anonymous_count(ast::decls_view(ds@), k, n as nat),
{
    let ghost dv = ast::decls_view(ds@);
    let mut r: u64 = 0;
    let mut i: usize = 0;
    while i < n
        invariant
            i <= n <= ds@.len(),
            dv == ast::decls_view(ds@),
            r <= i,
            r as nat == anonymous_count(dv, k, i as nat),
        decreases n - i,
    {
        assert(dv[i as int] == ds@[i as int]@);
        if is_anonymous_decl(&ds[i]) && decl_kind(&ds[i]) == Some(k) {
            r += 1;
        }
        i += 1;
    }
    r
}

/// Gives declarations whose names no program can have other names.
fn finalize_anonymous_names(ds: &Vec<Decl>) -> (r: Vec<Decl>)
    ensures
        ast::decls_view(r@) == renaming::renamed_decls(
            ast::decls_view(ds@),
            anonymous_names(ast::decls_view(ds@), ds@.len()),
        ),
{
    let ghost dv = ast::decls_view(ds@);
    let mut m: Table<String> = Table::new();
    let mut i: usize = 0;
    assert(renaming::names_of(m@) =~= anonymous_names(dv, 0));
    while i < ds.len()
        invariant
            i <= ds@.len(),
            dv == ast::decls_view(ds@),
            renaming::names_of(m@) == anonymous_names(dv, i as nat),
        decreases ds@.len() - i,
    {
        assert(dv[i as int] == ds@[i as int]@);
        if is_anonymous_decl(&ds[i]) {
            if let Some(k) = decl_kind(&ds[i]) {
                let ghost before = renaming::names_of(m@);
                let n: u64 = count_anonymous(ds, k, i + 1);
                let new = numbered_name(k, n);
                m.insert(ds[i].name().clone(), new);
                assert(renaming::names_of(m@) =~= before.insert(
                    ast::decl_name(dv[i as int]),
                    new@,
                ));
            }
        }
        i += 1;
    }
    renaming::rename_decls(ds, &m)
}

/// Merges the builtin subroutines and replaces the names that no program can
/// have. Every other name stays.
pub fn merge_only(p: &mut Program)
    ensures
        final(p)@ == merged_only(old(p)@),
{
    merge::merge_subs(p);
    p.decls = finalize_anonymous_names(&p.decls);
}

} // verus!
