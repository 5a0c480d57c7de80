//! What is printed of a source text can be written: the passes, the renaming and
//! the sorting leave a program that has a text, its comments with it.

use crate::ast;
use crate::ast::{
    ArgV, ArmV, CommentMapV, CommentV, DeclV, ExprV, FieldV, FieldValueV, ProgramV, Span, StmtV,
};
use crate::normalize;
use crate::normalize::invariance;
use crate::normalize::literals;
use crate::normalize::merge;
use crate::normalize::numbering;
use crate::normalize::probes;
use crate::normalize::rename;
use crate::normalize::rename::{AssignedV, Kind};
use crate::normalize::renaming;
use crate::normalize::renaming::RenamingV;
use crate::normalize::sort;
use crate::normalize::vmod_args;
use crate::readback;
use crate::readback::described;
use crate::readback::fixpoint as printing;
use crate::readback::lifted;
use crate::readback::prepared;
use crate::readback::source;
use crate::text;
use crate::uses;
use crate::uses::UseV;
use crate::vmod::VmodSpec;
use vstd::prelude::*;
use vstd::string::*;

verus! {

// ───────────────────────── new names ─────────────────────────

/// Whether a text is a name with a number at its end, as no word of the language
/// is.
pub open spec fn numbered_word(x: Seq<char>) -> bool {
    readback::is_name(x) && text::is_digit(x.last())
}

/// Whether a renaming gives such names only.
pub open spec fn numbers(m: RenamingV) -> bool {
    forall|n: Seq<char>| #[trigger] m.contains_key(n) ==> m[n] == n || numbered_word(m[n])
}

proof fn lemma_no_word(x: Seq<char>)
    requires
        numbered_word(x),
    ensures
        !readback::is_truth(x),
        !readback::is_keyword(x),
        x != "else"@ && x != "elsif"@ && x != "elseif"@,
{
    reveal_strlit("true");
    reveal_strlit("false");
    reveal_strlit("set");
    reveal_strlit("unset");
    reveal_strlit("call");
    reveal_strlit("return");
    reveal_strlit("synthetic");
    reveal_strlit("new");
    reveal_strlit("if");
    reveal_strlit("else");
    reveal_strlit("elsif");
    reveal_strlit("elseif");
    assert("true"@.last() == 'e' && "false"@.last() == 'e' && "set"@.last() == 't');
    assert("unset"@.last() == 't' && "call"@.last() == 'l' && "return"@.last() == 'n');
    assert("synthetic"@.last() == 'c' && "new"@.last() == 'w' && "if"@.last() == 'f');
    assert("else"@.last() == 'e' && "elsif"@.last() == 'f' && "elseif"@.last() == 'f');
}

proof fn lemma_digits(n: nat)
    ensures
        text::nat_text(n).len() > 0,
        forall|i: int|
            0 <= i < text::nat_text(n).len() ==> text::is_digit(#[trigger] text::nat_text(n)[i]),
    decreases n,
{
    let s = text::nat_text(n);
    assert(text::digit_char(n % 10) as int == 48 + n % 10);
    if n >= 10 {
        lemma_digits(n / 10);
        assert forall|i: int| 0 <= i < s.len() implies text::is_digit(#[trigger] s[i]) by {
            if i + 1 < s.len() {
                assert(s[i] == text::nat_text(n / 10)[i]);
            }
        }
    }
}

pub(crate) proof fn lemma_numbered(k: Kind, n: nat)
    ensures
        numbered_word(rename::numbered(k, n)),
{
    reveal_strlit("backend");
    reveal_strlit("probe");
    reveal_strlit("acl");
    reveal_strlit("sub");
    reveal_strlit("obj");
    reveal_strlit("_");
    lemma_digits(n);
    let a = rename::prefix(k);
    let d = text::nat_text(n);
    let x = rename::numbered(k, n);
    assert(a.len() > 0);
    assert forall|i: int| 0 <= i < a.len() implies 'a' <= #[trigger] a[i] <= 'z' by {
        match k {
            Kind::Backend => {},
            Kind::Probe => {},
            Kind::Acl => {},
            Kind::Sub => {},
            Kind::Obj => {},
        }
    }
    assert forall|i: int| 0 <= i < x.len() implies readback::in_name(#[trigger] x[i]) by {
        if i < a.len() {
            assert(x[i] == a[i]);
        } else if i > a.len() {
            assert(x[i] == d[i - a.len() - 1]);
        } else {
            assert(x[i] == '_');
        }
    }
    assert(x[0] == a[0]);
    assert(x.last() == d.last());
    assert(text::is_digit(d[d.len() - 1]));
}

proof fn lemma_anonymous(ds: Seq<DeclV>, n: nat)
    requires
        n <= ds.len(),
    ensures
        numbers(rename::anonymous_names(ds, n)),
    decreases n,
{
    if n > 0 {
        lemma_anonymous(ds, (n - 1) as nat);
        if rename::is_anonymous(ds[n - 1]) {
            let k = rename::kind_of(ds[n - 1])->0;
            lemma_numbered(k, rename::anonymous_count(ds, k, n));
        }
    }
}

proof fn lemma_assigned(s: Seq<AssignedV>, k: Kind, n: Seq<char>)
    requires
        numbering::orderly(s),
    ensures
        rename::assigned_name(s, k, n) matches Some(x) ==> x == n || numbered_word(x),
    decreases s.len(),
{
    if s.len() > 0 {
        let a = s.last();
        if a.kind == k && a.name == n {
            lemma_numbered(k, rename::numbers_of(s.drop_last(), k) + 1);
        } else {
            lemma_assigned(s.drop_last(), k, n);
        }
    }
}

proof fn lemma_canonical(ds: Seq<DeclV>)
    ensures
        numbers(rename::renaming_of(rename::decl_table(ds, ds.len()), rename::all_names(ds))),
{
    let t = rename::decl_table(ds, ds.len());
    let c = rename::all_names(ds);
    let m = rename::renaming_of(t, c);
    numbering::law_every_declaration_is_named(ds);
    assert forall|n: Seq<char>| #[trigger] m.contains_key(n) implies m[n] == n || numbered_word(
        m[n],
    ) by {
        lemma_assigned(c.assigned, Kind::Obj, n);
        if t.contains_key(n) && rename::kind_of(t[n]) is Some {
            lemma_assigned(c.assigned, rename::kind_of(t[n])->0, n);
        }
    }
}

// ───────────────────────── bodies under new names ─────────────────────────

proof fn lemma_name(n: Seq<char>, m: RenamingV)
    requires
        numbers(m),
    ensures
        ({
            let x = renaming::new_name(m, n);
            &&& readback::is_name(n) ==> readback::is_name(x)
            &&& x != n ==> numbered_word(x)
            &&& readback::is_truth(x) ==> x == n
            &&& readback::is_keyword(x) ==> x == n
            &&& (x == "else"@ || x == "elsif"@ || x == "elseif"@) ==> x == n
        }),
{
    let x = renaming::new_name(m, n);
    if x != n {
        lemma_no_word(x);
    }
}

proof fn lemma_path(parts: Seq<Seq<char>>, m: RenamingV)
    requires
        numbers(m),
        readback::is_dotted(parts),
    ensures
        readback::is_dotted(renaming::renamed_parts(parts, m)),
        renaming::renamed_parts(parts, m)[0] == renaming::new_name(m, parts[0]),
{
    assert(readback::is_name(parts[0]));
    lemma_name(parts[0], m);
}

proof fn lemma_expr(e: ExprV, m: RenamingV)
    requires
        numbers(m),
        readback::can_expr(e),
    ensures
        readback::can_expr(renaming::renamed_expr(e, m)),
    decreases e, 0nat,
{
    match e {
        ExprV::Var(parts) => {
            lemma_path(parts, m);
            lemma_name(parts[0], m);
        },
        ExprV::Call { target, args } => {
            lemma_path(target, m);
            lemma_name(target[0], m);
            lemma_args(args, m);
        },
        ExprV::Unary { expr, .. } => lemma_expr(*expr, m),
        ExprV::Binary { lhs, rhs, .. } => {
            lemma_expr(*lhs, m);
            lemma_expr(*rhs, m);
        },
        _ => {},
    }
}

proof fn lemma_args(s: Seq<ArgV>, m: RenamingV)
    requires
        numbers(m),
        readback::can_args(s),
    ensures
        readback::can_args(renaming::renamed_args(s, m)),
    decreases s, 0nat,
{
    let r = renaming::renamed_args(s, m);
    assert forall|i: int| 0 <= i < r.len() implies readback::can_arg(#[trigger] r[i]) by {
        assert(readback::can_arg(s[i]));
        lemma_expr(s[i].value, m);
        assert(r[i] == renaming::renamed_arg(s[i], m));
    }
}

proof fn lemma_stmt(s: StmtV, m: RenamingV)
    requires
        numbers(m),
        readback::can_stmt(s),
    ensures
        readback::can_stmt(renaming::renamed_stmt(s, m)),
        readback::open_if(renaming::renamed_stmt(s, m)) == readback::open_if(s),
        readback::goes_on_if(renaming::renamed_stmt(s, m)) ==> readback::goes_on_if(s),
    decreases s, 0nat,
{
    match s {
        StmtV::Assign { rhs, .. } => lemma_expr(rhs, m),
        StmtV::Call { sub, .. } => lemma_name(sub, m),
        StmtV::Return { action, .. } => match action {
            Some(a) => {
                let r = renaming::renamed_exprs(a.args, m);
                assert forall|i: int| 0 <= i < r.len() implies readback::can_expr(
                    #[trigger] r[i],
                ) by {
                    assert(readback::can_expr(a.args[i]));
                    lemma_expr(a.args[i], m);
                }
                assert(readback::can_exprs(r));
            },
            None => {},
        },
        StmtV::Synthetic { value, .. } => lemma_expr(value, m),
        StmtV::If { arms, else_body, .. } => {
            lemma_arms(arms, m);
            match else_body {
                Some(b) => lemma_stmts(b, m),
                None => {},
            }
        },
        StmtV::New { name, args, .. } => {
            lemma_name(name, m);
            lemma_args(args, m);
        },
        StmtV::Expr { expr, .. } => match expr {
            ExprV::Call { target, args } => {
                lemma_path(target, m);
                lemma_name(target[0], m);
                lemma_args(args, m);
            },
            _ => {},
        },
        _ => {},
    }
}

proof fn lemma_stmts(s: Seq<StmtV>, m: RenamingV)
    requires
        numbers(m),
        readback::can_stmts(s),
    ensures
        readback::can_stmts(renaming::renamed_stmts(s, m)),
    decreases s, 0nat,
{
    let r = renaming::renamed_stmts(s, m);
    assert forall|i: int| 0 <= i < r.len() implies readback::can_stmt(#[trigger] r[i])
        && readback::open_if(r[i]) == readback::open_if(s[i]) && (readback::goes_on_if(r[i])
        ==> readback::goes_on_if(s[i])) by {
        lemma_stmt(s[i], m);
        assert(r[i] == renaming::renamed_stmt(s[i], m));
    }
    assert forall|i: int| 0 < i < r.len() implies #[trigger] readback::ended_before(r, i) by {
        assert(readback::ended_before(s, i));
        assert(readback::can_stmt(r[i - 1]) && readback::can_stmt(r[i]));
    }
}

proof fn lemma_arms(s: Seq<ArmV>, m: RenamingV)
    requires
        numbers(m),
        readback::can_arms(s),
    ensures
        readback::can_arms(renaming::renamed_arms(s, m)),
    decreases s, 0nat,
{
    let r = renaming::renamed_arms(s, m);
    assert forall|i: int| 0 <= i < r.len() implies readback::can_arm(#[trigger] r[i]) by {
        assert(readback::can_arm(s[i]));
        lemma_expr(s[i].cond, m);
        lemma_stmts(s[i].body, m);
        assert(r[i] == renaming::renamed_arm(s[i], m));
    }
}

// ───────────────────────── declarations with lifted probes ─────────────────────────

/// Whether a name is like one that a probe was lifted under.
spec fn placed(n: Seq<char>) -> bool {
    text::begins_with(n, "$"@) && n.len() > 1 && n[1] == 'a'
}

/// Whether a field can be written but for the name of a lifted probe.
spec fn near_field(f: FieldV) -> bool {
    ||| readback::can_field(f)
    ||| readback::is_name(f.name) && (f.value matches FieldValueV::ProbeRef(n) && placed(n))
}

spec fn near_fields(fs: Seq<FieldV>) -> bool {
    forall|i: int| 0 <= i < fs.len() ==> near_field(#[trigger] fs[i])
}

/// Whether a declaration can be written but for the names of lifted probes and
/// the way in which its statements meet.
spec fn near_decl(d: DeclV) -> bool {
    match d {
        DeclV::Backend { name, none, body, .. } => readback::is_name(name) && match body {
            Some(fs) => !none && near_fields(fs),
            None => none,
        },
        DeclV::Probe { name, body, .. } => (readback::is_name(name) || placed(name))
            && readback::can_fields(body),
        DeclV::Sub { name, body, .. } => readback::is_name(name) && forall|i: int|
            0 <= i < body.len() ==> readback::can_stmt(#[trigger] body[i]),
        _ => readback::can_decl(d),
    }
}

spec fn near_decls(ds: Seq<DeclV>) -> bool {
    forall|i: int| 0 <= i < ds.len() ==> near_decl(#[trigger] ds[i])
}

proof fn lemma_lit_field(f: FieldV)
    requires
        readback::can_field(f),
    ensures
        readback::can_field(literals::lit_field(f)),
    decreases f,
{
    match f.value {
        FieldValueV::Expr(e) => prepared::lemma_lit_expr(e),
        FieldValueV::Probe(fs) => lemma_lit_fields(fs),
        _ => {},
    }
    assert(readback::can_value(literals::lit_field(f).value));
}

proof fn lemma_lit_fields(fs: Seq<FieldV>)
    requires
        readback::can_fields(fs),
    ensures
        readback::can_fields(literals::lit_fields(fs)),
    decreases fs,
{
    let r = literals::lit_fields(fs);
    assert forall|i: int| 0 <= i < r.len() implies readback::can_field(#[trigger] r[i]) by {
        assert(readback::can_field(fs[i]));
        lemma_lit_field(fs[i]);
        assert(r[i] == literals::lit_field(fs[i]));
    }
}

proof fn lemma_lit_decl(d: DeclV)
    requires
        readback::can_decl(d),
    ensures
        readback::can_decl(literals::lit_decl(d)),
{
    match d {
        DeclV::Backend { body: Some(fs), .. } => lemma_lit_fields(fs),
        DeclV::Probe { body, .. } => lemma_lit_fields(body),
        DeclV::Acl { entries, .. } => {
            let r = literals::lit_entries(entries);
            assert forall|i: int| 0 <= i < r.len() implies readback::can_quote(
                (#[trigger] r[i]).addr,
            ) by {
                assert(readback::can_quote(entries[i].addr));
            }
        },
        DeclV::Sub { body, .. } => prepared::lemma_lit_stmts(body),
        _ => {},
    }
}

proof fn lemma_placed(n: nat)
    ensures
        placed(probes::anon_name(n)),
{
    reveal_strlit("$");
    reveal_strlit("$anon_probe_");
    assert(probes::anon_name(n)[0] == "$anon_probe_"@[0]);
    assert(probes::anon_name(n)[1] == "$anon_probe_"@[1]);
    assert(probes::anon_name(n).subrange(0, 1) =~= "$"@);
}

proof fn lemma_field_probes(fs: Seq<FieldV>, n: nat, base: nat)
    requires
        n <= fs.len(),
        readback::can_fields(fs),
    ensures
        near_decls(probes::field_probes(fs, n, base)),
    decreases n,
{
    if n > 0 {
        lemma_field_probes(fs, (n - 1) as nat, base);
        let before = probes::field_probes(fs, (n - 1) as nat, base);
        lemma_placed(base + before.len() + 1);
        assert(readback::can_field(fs[n - 1]) && readback::can_value(fs[n - 1].value));
    }
}

proof fn lemma_all_probes(ds: Seq<DeclV>, n: nat)
    requires
        n <= ds.len(),
        readback::can_decls(ds),
    ensures
        near_decls(probes::all_probes(ds, n)),
    decreases n,
{
    if n > 0 {
        lemma_all_probes(ds, (n - 1) as nat);
        assert(readback::can_decl(ds[n - 1]));
        let fs = probes::backend_fields(ds[n - 1]);
        lemma_field_probes(fs, fs.len(), probes::all_probes(ds, (n - 1) as nat).len());
    }
}

proof fn lemma_lifted(ds: Seq<DeclV>)
    requires
        readback::can_decls(ds),
    ensures
        near_decls(probes::lifted_decls(ds)),
        printing_bodies(probes::lifted_decls(ds)),
{
    let r = probes::lifted_decls(ds);
    lemma_all_probes(ds, ds.len());
    probes::lemma_all_probes_are_probes(ds, ds.len());
    assert forall|i: int| 0 <= i < r.len() implies near_decl(#[trigger] r[i]) && whole_body(
        r[i],
    ) by {
        if i < ds.len() {
            assert(r[i] == probes::lifted_decl(ds, i));
            assert(readback::can_decl(ds[i]));
            match ds[i] {
                DeclV::Backend { body: Some(fs), .. } => {
                    let base = probes::all_probes(ds, i as nat).len();
                    let l = probes::lifted_fields(fs, base);
                    assert forall|j: int| 0 <= j < l.len() implies near_field(#[trigger] l[j]) by {
                        assert(readback::can_field(fs[j]));
                        lemma_placed(base + probes::field_probes(fs, j as nat, base).len() + 1);
                        assert(l[j] == probes::lifted_field(fs, j, base));
                    }
                },
                _ => {},
            }
        } else {
            assert(r[i] == probes::all_probes(ds, ds.len())[i - ds.len()]);
        }
    }
}

/// Whether the statements of a subroutine meet as they should.
spec fn whole_body(d: DeclV) -> bool {
    d matches DeclV::Sub { body, .. } ==> readback::can_stmts(body)
}

spec fn printing_bodies(ds: Seq<DeclV>) -> bool {
    forall|i: int| 0 <= i < ds.len() ==> whole_body(#[trigger] ds[i])
}

// ───────────────────────── merged subroutines ─────────────────────────

/// Whether the pieces of the builtin subroutines meet as they should: no piece
/// that ends in an open `if` stands before one that starts with a call of a name
/// like `else`.
pub open spec fn pieces_meet(ds: Seq<DeclV>) -> bool {
    forall|name: Seq<char>, i: int|
        ast::builtin_name(name) && 0 < i < merge::pieces(ds, name, ds.len()).len()
            ==> #[trigger] readback::ended_before(merge::pieces(ds, name, ds.len()), i)
}

proof fn lemma_merged_with(m: Seq<DeclV>, d: DeclV)
    requires
        near_decls(m),
        near_decl(d),
        forall|i: int|
            0 <= i < m.len() && !builtin(#[trigger] m[i]) ==> whole_body(m[i]),
        whole_body(d),
    ensures
        near_decls(merge::merged_with(m, d)),
        forall|i: int|
            0 <= i < merge::merged_with(m, d).len() && !builtin(
                #[trigger] merge::merged_with(m, d)[i],
            ) ==> whole_body(merge::merged_with(m, d)[i]),
{
    let r = merge::merged_with(m, d);
    if merge::continues(m, d) {
        let name = d->Sub_name;
        let more = d->Sub_body;
        let at = merge::sub_at(m, name, 0) as int;
        merge::lemma_sub_at(m, name, 0);
        assert(merge::is_sub(m[at], name));
        assert(near_decl(m[at]));
        let body = m[at]->Sub_body;
        let t = body + more;
        assert forall|j: int| 0 <= j < t.len() implies readback::can_stmt(#[trigger] t[j]) by {
            if j < body.len() {
                assert(t[j] == body[j]);
            } else {
                assert(t[j] == more[j - body.len()]);
            }
        }
        assert(r == m.update(at, merge::with_more(m[at], more)));
        assert forall|i: int| 0 <= i < r.len() implies near_decl(#[trigger] r[i]) && (!builtin(r[i])
            ==> whole_body(r[i])) by {
            if i != at {
                assert(r[i] == m[i]);
            }
        }
    } else {
        assert(r == m.push(d));
    }
}

/// Whether a declaration is a builtin subroutine.
spec fn builtin(d: DeclV) -> bool {
    d matches DeclV::Sub { name, .. } && ast::builtin_name(name)
}

proof fn lemma_merged(ds: Seq<DeclV>, n: nat)
    requires
        n <= ds.len(),
        near_decls(ds),
        printing_bodies(ds),
    ensures
        near_decls(merge::merged_first(ds, n)),
        forall|i: int|
            0 <= i < merge::merged_first(ds, n).len() && !builtin(
                #[trigger] merge::merged_first(ds, n)[i],
            ) ==> whole_body(merge::merged_first(ds, n)[i]),
    decreases n,
{
    if n > 0 {
        lemma_merged(ds, (n - 1) as nat);
        assert(near_decl(ds[n - 1]) && whole_body(ds[n - 1]));
        lemma_merged_with(merge::merged_first(ds, (n - 1) as nat), ds[n - 1]);
    }
}

proof fn lemma_merged_bodies(p: ProgramV)
    requires
        near_decls(p.decls),
        printing_bodies(p.decls),
        pieces_meet(p.decls),
    ensures
        near_decls(merge::merged_program(p).decls),
        printing_bodies(merge::merged_program(p).decls),
{
    let ds = p.decls;
    let g = merge::merged_program(p).decls;
    lemma_merged(ds, ds.len());
    merge::law_builtins_are_declared_once(p);
    assert forall|i: int| 0 <= i < g.len() implies whole_body(#[trigger] g[i]) by {
        if builtin(g[i]) {
            let name = g[i]->Sub_name;
            merge::lemma_joined(ds, name, ds.len());
            merge::lemma_sub_at(g, name, 0);
            let at = merge::sub_at(g, name, 0) as int;
            assert(merge::is_sub(g[i], name));
            assert(at < g.len()) by {
                if at >= g.len() {
                    assert(!merge::is_sub(g[i], name));
                }
            }
            assert(merge::is_sub(g[at], name));
            assert(at == i) by {
                if at < i {
                    assert(!merge::is_sub(g[i], name));
                } else if i < at {
                    assert(!merge::is_sub(g[at], name));
                }
            }
            let body = g[i]->Sub_body;
            assert(near_decl(g[i]));
            assert forall|j: int| 0 < j < body.len() implies #[trigger] readback::ended_before(
                body,
                j,
            ) by {
                assert(readback::ended_before(merge::pieces(ds, name, ds.len()), j));
            }
        }
    }
}

proof fn lemma_lit_pieces(ds: Seq<DeclV>, name: Seq<char>, n: nat)
    requires
        n <= ds.len(),
        readback::can_decls(ds),
    ensures
        merge::pieces(literals::lit_decls(ds), name, n) == literals::lit_stmts(
            merge::pieces(ds, name, n),
        ),
        forall|i: int|
            0 <= i < merge::pieces(ds, name, n).len() ==> readback::can_stmt(
                #[trigger] merge::pieces(ds, name, n)[i],
            ),
    decreases n,
{
    let l = literals::lit_decls(ds);
    if n > 0 {
        lemma_lit_pieces(ds, name, (n - 1) as nat);
        assert(l[n - 1] == literals::lit_decl(ds[n - 1]));
        assert(readback::can_decl(ds[n - 1]));
        let before = merge::pieces(ds, name, (n - 1) as nat);
        match ds[n - 1] {
            DeclV::Sub { name: m, body, .. } => if m == name {
                let t = before + body;
                assert(literals::lit_stmts(t) =~= literals::lit_stmts(before) + literals::lit_stmts(
                    body,
                ));
                assert forall|i: int| 0 <= i < t.len() implies readback::can_stmt(
                    #[trigger] t[i],
                ) by {
                    if i < before.len() {
                        assert(t[i] == before[i]);
                    } else {
                        assert(t[i] == body[i - before.len()]);
                    }
                }
            },
            _ => {},
        }
    } else {
        assert(literals::lit_stmts(seq![]) =~= seq![]);
    }
}

proof fn lemma_lifted_pieces(ds: Seq<DeclV>, name: Seq<char>, n: nat)
    requires
        n <= probes::lifted_decls(ds).len(),
    ensures
        merge::pieces(probes::lifted_decls(ds), name, n) == merge::pieces(
            ds,
            name,
            if n <= ds.len() {
                n
            } else {
                ds.len()
            },
        ),
    decreases n,
{
    let r = probes::lifted_decls(ds);
    if n > 0 {
        lemma_lifted_pieces(ds, name, (n - 1) as nat);
        if n <= ds.len() {
            assert(r[n - 1] == probes::lifted_decl(ds, n - 1));
        } else {
            probes::lemma_all_probes_are_probes(ds, ds.len());
            assert(r[n - 1] == probes::all_probes(ds, ds.len())[n - 1 - ds.len()]);
        }
    }
}

proof fn lemma_lit_meet(ds: Seq<DeclV>)
    requires
        readback::can_decls(ds),
        pieces_meet(ds),
    ensures
        pieces_meet(literals::lit_decls(ds)),
{
    let l = literals::lit_decls(ds);
    assert forall|name: Seq<char>, i: int|
        ast::builtin_name(name) && 0 < i < merge::pieces(l, name, l.len()).len() implies
        #[trigger] readback::ended_before(merge::pieces(l, name, l.len()), i) by {
        let s = merge::pieces(ds, name, ds.len());
        lemma_lit_pieces(ds, name, ds.len());
        assert forall|j: int| 0 < j < s.len() implies #[trigger] readback::ended_before(s, j) by {}
        assert(readback::can_stmts(s));
        prepared::lemma_lit_stmts(s);
    }
}

proof fn lemma_lifted_meet(ds: Seq<DeclV>)
    requires
        pieces_meet(ds),
    ensures
        pieces_meet(probes::lifted_decls(ds)),
{
    let r = probes::lifted_decls(ds);
    assert forall|name: Seq<char>, i: int|
        ast::builtin_name(name) && 0 < i < merge::pieces(r, name, r.len()).len() implies
        #[trigger] readback::ended_before(merge::pieces(r, name, r.len()), i) by {
        lemma_lifted_pieces(ds, name, r.len());
        assert(readback::ended_before(merge::pieces(ds, name, ds.len()), i));
    }
}

/// What the passes make of a program that can be written, where nothing is left
/// out: its declarations can be written but for the names of lifted probes.
proof fn lemma_prepared(p: ProgramV, specs: Map<Seq<char>, VmodSpec>)
    requires
        readback::can_decls(p.decls),
        pieces_meet(p.decls),
        normalize::prepared(p, specs) matches Ok(q) && described::full_bodies(q.decls),
    ensures
        ({
            let q = normalize::prepared(p, specs)->Ok_0;
            &&& near_decls(q.decls)
            &&& printing_bodies(q.decls)
            &&& pieces_meet(q.decls)
            &&& q.comments == p.comments
            &&& q.trailing_comments == p.trailing_comments
        }),
{
    let l = literals::lit_program(p);
    assert forall|i: int| 0 <= i < l.decls.len() implies readback::can_decl(
        #[trigger] l.decls[i],
    ) by {
        assert(readback::can_decl(p.decls[i]));
        lemma_lit_decl(p.decls[i]);
    }
    lemma_lit_meet(p.decls);
    let r = vmod_args::pass_program(l, specs)->Ok_0;
    described::lemma_full_lifted(r.decls);
    described::lemma_described(l, specs);
    assert forall|name: Seq<char>, i: int|
        ast::builtin_name(name) && 0 < i < merge::pieces(r.decls, name, r.decls.len()).len() implies
        #[trigger] readback::ended_before(merge::pieces(r.decls, name, r.decls.len()), i) by {
        assert(readback::ended_before(merge::pieces(l.decls, name, l.decls.len()), i));
    }
    lemma_lifted(r.decls);
    lemma_lifted_meet(r.decls);
}

// ───────────────────────── comments ─────────────────────────

proof fn lemma_unindented(cs: Seq<CommentV>)
    requires
        source::fine_block(cs),
    ensures
        source::fine_block(merge::unindented(cs)),
{
    let r = merge::unindented(cs);
    assert forall|i: int| 0 <= i < r.len() implies source::fine_comment(#[trigger] r[i]) by {
        assert(source::fine_comment(cs[i]));
    }
}

proof fn lemma_reattached(cm: CommentMapV, span: Span, body: Seq<StmtV>)
    requires
        source::kept(cm),
    ensures
        source::kept(merge::reattached(cm, span, body)),
{
    reveal(source::kept);
    let key = ast::comment_key(span);
    if cm.contains_key(key) {
        let n = cm[key];
        assert(source::fine_node(n));
        lemma_unindented(n.leading);
        let own = merge::own_comments(n);
        assert(source::fine_block(own)) by {
            assert forall|i: int| 0 <= i < own.len() implies source::fine_comment(
                #[trigger] own[i],
            ) by {
                if i < n.leading.len() {
                    assert(own[i] == merge::unindented(n.leading)[i]);
                }
            }
        }
        let rest = cm.remove(key);
        if body.len() > 0 {
            let c = ast::comments_at(rest, ast::stmt_span(body[0]));
            assert(source::fine_node(c));
            let lead = own + c.leading;
            assert forall|i: int| 0 <= i < lead.len() implies source::fine_comment(
                #[trigger] lead[i],
            ) by {
                if i < own.len() {
                    assert(lead[i] == own[i]);
                } else {
                    assert(lead[i] == c.leading[i - own.len()]);
                }
            }
        }
    }
}

proof fn lemma_merged_comments(ds: Seq<DeclV>, cm: CommentMapV, n: nat)
    requires
        n <= ds.len(),
        source::kept(cm),
    ensures
        source::kept(merge::merged_comments(ds, cm, n)),
    decreases n,
{
    if n > 0 {
        lemma_merged_comments(ds, cm, (n - 1) as nat);
        match ds[n - 1] {
            DeclV::Sub { body, span, .. } => lemma_reattached(
                merge::merged_comments(ds, cm, (n - 1) as nat),
                span,
                body,
            ),
            _ => {},
        }
    }
}

// ───────────────────────── what is printed ─────────────────────────

proof fn lemma_renamed_decl(d: DeclV, m: RenamingV)
    requires
        numbers(m),
        near_decl(d),
        whole_body(d),
        !rename::is_anonymous(renaming::renamed_decl(d, m)),
        forall|j: int|
            0 <= j < probes::backend_fields(renaming::renamed_decl(d, m)).len() ==> (rename::ref_of(
                #[trigger] probes::backend_fields(renaming::renamed_decl(d, m))[j],
            ) matches Some(n) ==> !placed(n)),
    ensures
        readback::can_decl(renaming::renamed_decl(d, m)),
{
    let r = renaming::renamed_decl(d, m);
    match d {
        DeclV::Backend { name, body: Some(fs), .. } => {
            lemma_name(name, m);
            let l = renaming::renamed_fields(fs, m);
            assert(probes::backend_fields(r) == l);
            assert forall|j: int| 0 <= j < l.len() implies readback::can_field(#[trigger] l[j]) by {
                assert(near_field(fs[j]));
                assert(l[j] == renaming::renamed_field(fs[j], m));
                assert(rename::ref_of(probes::backend_fields(r)[j]) matches Some(n) ==> !placed(n));
                match fs[j].value {
                    FieldValueV::ProbeRef(n) => {
                        lemma_name(n, m);
                        assert(readback::can_value(l[j].value));
                    },
                    _ => {},
                }
            }
        },
        DeclV::Backend { name, .. } => lemma_name(name, m),
        DeclV::Probe { name, .. } => lemma_name(name, m),
        DeclV::Acl { name, .. } => lemma_name(name, m),
        DeclV::Sub { name, body, .. } => {
            lemma_name(name, m);
            lemma_stmts(body, m);
        },
        _ => {},
    }
}

proof fn lemma_sorted(ds: Seq<DeclV>)
    requires
        readback::can_decls(ds),
    ensures
        readback::can_decls(sort::sorted_decls(ds)),
{
    let s = sort::sorted_decls(ds);
    sort::law_decls_are_kept(ds);
    invariance::lemma_same_members(s, ds);
    assert forall|i: int| 0 <= i < s.len() implies readback::can_decl(#[trigger] s[i]) by {
        assert(s.contains(s[i]));
        let j = choose|j: int| 0 <= j < ds.len() && ds[j] == s[i];
        assert(readback::can_decl(ds[j]));
    }
}

// ───────────────────────── the names that are held ─────────────────────────

/// Whether a name is one that a program can have, or that a probe is lifted
/// under.
pub open spec fn usual(n: Seq<char>) -> bool {
    n.len() > 0 && (n[0] == '$' ==> n.len() > 1 && n[1] == 'a')
}

spec fn named_uses(us: Seq<UseV>) -> bool {
    forall|i: int| 0 <= i < us.len() ==> readback::is_name(invariance::use_name(#[trigger] us[i]))
}

proof fn lemma_expr_uses(e: ExprV)
    requires
        readback::can_expr(e),
    ensures
        named_uses(uses::expr_uses(e)),
    decreases e, 0nat,
{
    match e {
        ExprV::Var(parts) => assert(readback::is_name(parts[0])),
        ExprV::Call { target, args } => {
            assert(readback::is_name(target[0]));
            lemma_args_uses(args, args.len());
        },
        ExprV::Unary { expr, .. } => lemma_expr_uses(*expr),
        ExprV::Binary { lhs, rhs, .. } => {
            lemma_expr_uses(*lhs);
            lemma_expr_uses(*rhs);
        },
        _ => {},
    }
}

proof fn lemma_args_uses(s: Seq<ArgV>, n: nat)
    requires
        n <= s.len(),
        readback::can_args(s),
    ensures
        named_uses(uses::args_uses(s, n)),
    decreases s, n,
{
    if n > 0 {
        lemma_args_uses(s, (n - 1) as nat);
        assert(readback::can_arg(s[n - 1]));
        lemma_expr_uses(s[n - 1].value);
    }
}

proof fn lemma_exprs_uses(s: Seq<ExprV>, n: nat)
    requires
        n <= s.len(),
        readback::can_exprs(s),
    ensures
        named_uses(uses::exprs_uses(s, n)),
    decreases n,
{
    if n > 0 {
        lemma_exprs_uses(s, (n - 1) as nat);
        lemma_expr_uses(s[n - 1]);
    }
}

proof fn lemma_stmt_uses(s: StmtV)
    requires
        readback::can_stmt(s),
    ensures
        named_uses(uses::stmt_uses(s)),
    decreases s, 0nat,
{
    match s {
        StmtV::Assign { rhs, .. } => lemma_expr_uses(rhs),
        StmtV::Return { action, .. } => match action {
            Some(a) => lemma_exprs_uses(a.args, a.args.len()),
            None => {},
        },
        StmtV::Synthetic { value, .. } => lemma_expr_uses(value),
        StmtV::If { arms, else_body, .. } => {
            lemma_arms_uses(arms, arms.len());
            match else_body {
                Some(b) => lemma_stmts_uses(b, b.len()),
                None => {},
            }
        },
        StmtV::New { args, .. } => lemma_args_uses(args, args.len()),
        StmtV::Expr { expr, .. } => match expr {
            ExprV::Call { target, args } => {
                assert(readback::is_name(target[0]));
                lemma_args_uses(args, args.len());
            },
            _ => {},
        },
        _ => {},
    }
}

proof fn lemma_stmts_uses(s: Seq<StmtV>, n: nat)
    requires
        n <= s.len(),
        readback::can_stmts(s),
    ensures
        named_uses(uses::stmts_uses(s, n)),
    decreases s, n,
{
    if n > 0 {
        lemma_stmts_uses(s, (n - 1) as nat);
        assert(readback::can_stmt(s[n - 1]));
        lemma_stmt_uses(s[n - 1]);
    }
}

proof fn lemma_arms_uses(s: Seq<ArmV>, n: nat)
    requires
        n <= s.len(),
        readback::can_arms(s),
    ensures
        named_uses(uses::arms_uses(s, n)),
    decreases s, n,
{
    if n > 0 {
        lemma_arms_uses(s, (n - 1) as nat);
        let a = s[n - 1];
        assert(readback::can_arm(a));
        lemma_expr_uses(a.cond);
        lemma_stmts_uses(a.body, a.body.len());
    }
}

proof fn lemma_held(d: DeclV, n: Seq<char>)
    requires
        near_decl(d),
        whole_body(d),
        invariance::holds_name(d, n),
    ensures
        usual(n),
{
    match d {
        DeclV::Backend { name, body: Some(fs), .. } => {
            if n != name {
                let i = choose|i: int|
                    0 <= i < fs.len() && rename::ref_of(#[trigger] fs[i]) == Some(n);
                assert(near_field(fs[i]));
                if readback::can_field(fs[i]) {
                    assert(readback::can_value(fs[i].value));
                }
            }
        },
        DeclV::Sub { name, body, .. } => {
            if n != name {
                lemma_stmts_uses(body, body.len());
                let us = uses::body_uses(body);
                let u = choose|u: UseV| #[trigger]
                    us.contains(u) && invariance::use_name(u) == n;
                let i = choose|i: int| 0 <= i < us.len() && us[i] == u;
                assert(readback::is_name(invariance::use_name(us[i])));
            }
        },
        _ => {},
    }
}

/// What is printed of a program that was read, under its own names or under
/// canonical ones, can be written, its comments with it, where no argument is left
/// out before another one.
pub proof fn law_what_is_printed_can_be_written(
    p: ProgramV,
    specs: Map<Seq<char>, VmodSpec>,
    rename: bool,
)
    requires
        readback::can_decls(p.decls),
        source::kept(p.comments),
        source::fine_block(p.trailing_comments),
        lifted::speakable(p.decls),
        lifted::speakable_refs(p.decls),
        pieces_meet(p.decls),
        normalize::prepared(p, specs) matches Ok(q) && described::full_bodies(q.decls),
    ensures
        ({
            let q = normalize::prepared(p, specs)->Ok_0;
            let g = merge::merged_program(q).decls;
            &&& readback::can_program(normalize::finished(q, rename))
            &&& printing::can_bodies(q.decls)
            &&& forall|i: int, n: Seq<char>|
                0 <= i < g.len() && #[trigger] invariance::holds_name(g[i], n) ==> usual(n)
        }),
{
    let q = normalize::prepared(p, specs)->Ok_0;
    lemma_prepared(p, specs);
    assert forall|i: int| 0 <= i < q.decls.len() implies ((#[trigger] q.decls[i]) matches DeclV::Sub {
        body,
        ..
    } ==> readback::can_stmts(body)) by {
        assert(whole_body(q.decls[i]));
    }
    lemma_merged_bodies(q);
    let g = merge::merged_program(q).decls;
    lemma_merged_comments(q.decls, q.comments, q.decls.len());
    assert forall|i: int, n: Seq<char>|
        0 <= i < g.len() && #[trigger] invariance::holds_name(g[i], n) implies usual(n) by {
        assert(near_decl(g[i]) && whole_body(g[i]));
        lemma_held(g[i], n);
    }
    lifted::law_no_placeholder_is_canonical(p, specs);
    lifted::law_no_placeholder_is_printed(p, specs);
    let m = if rename {
        rename::renaming_of(rename::decl_table(g, g.len()), rename::all_names(g))
    } else {
        rename::anonymous_names(g, g.len())
    };
    lemma_canonical(g);
    lemma_anonymous(g, g.len());
    let r = renaming::renamed_decls(g, m);
    let n = normalize::finished(q, rename);
    assert(n.decls == sort::sorted_decls(r));
    sort::law_decls_are_kept(r);
    invariance::lemma_same_members(n.decls, r);
    assert forall|i: int| 0 <= i < r.len() implies readback::can_decl(#[trigger] r[i]) by {
        assert(r.contains(r[i]));
        assert(n.decls.contains(r[i]));
        let k = choose|k: int| 0 <= k < n.decls.len() && n.decls[k] == r[i];
        assert(!rename::is_anonymous(n.decls[k]));
        assert forall|j: int| 0 <= j < probes::backend_fields(r[i]).len() implies (rename::ref_of(
            #[trigger] probes::backend_fields(r[i])[j],
        ) matches Some(x) ==> !placed(x)) by {
            assert(probes::backend_fields(n.decls[k])[j] == probes::backend_fields(r[i])[j]);
        }
        assert(near_decl(g[i]) && whole_body(g[i]));
        lemma_renamed_decl(g[i], m);
    }
    lemma_sorted(r);
    source::lemma_kept(n.comments, n.trailing_comments);
}

} // verus!
