//! The names of a program: what it declares, and whether what it refers to is
//! declared.
//!
//! Some findings are errors and end the check. Others are warnings, because a
//! name may be one that only a vmod knows.

use crate::ast;
use crate::ast::{
    Arg, ArgV, ArmV, Decl, DeclV, ErrV, Expr, ExprV, Field, FieldV, FieldValue, FieldValueV,
    Program, ProgramV, ReturnAction, ReturnActionV, Span, Stmt, StmtV, VclError, VclResult,
};
use crate::normalize::vmod_args;
use crate::normalize::vmod_args::InstanceV;
use crate::table::Table;
use crate::text;
use crate::uses;
use crate::uses::{Use, UseV};
use crate::vmod::{ArgSpecV, Sig, VmodSpec};
use vstd::prelude::*;
use vstd::string::*;

pub mod reached;
pub mod references;
pub mod renamed;
pub mod soundness;
pub mod warned;

verus! {

// ───────────────────────── findings ─────────────────────────

/// What a check finds: warnings, and the error that ends it.
#[verifier::ext_equal]
pub struct OutcomeV {
    pub warnings: Seq<Seq<char>>,
    pub error: Option<ErrV>,
}

/// Nothing is found.
pub open spec fn fine() -> OutcomeV {
    OutcomeV { warnings: seq![], error: None }
}

pub open spec fn warns(w: Seq<char>) -> OutcomeV {
    OutcomeV { warnings: seq![w], error: None }
}

pub open spec fn fails(span: Span, msg: Seq<char>) -> OutcomeV {
    OutcomeV { warnings: seq![], error: Some(ast::err_at(span, msg)) }
}

/// One check and, unless it ends in an error, another.
pub open spec fn followed(a: OutcomeV, b: OutcomeV) -> OutcomeV {
    match a.error {
        Some(_) => a,
        None => OutcomeV { warnings: a.warnings + b.warnings, error: b.error },
    }
}

// ───────────────────────── what is declared ─────────────────────────

/// The kinds of declarations.
#[derive(Debug, Clone, Copy, PartialEq, Eq, Structural)]
pub enum DeclKind {
    Import,
    Backend,
    Probe,
    Acl,
    Sub,
}

pub open spec fn decl_kind(d: DeclV) -> DeclKind {
    match d {
        DeclV::Import { .. } => DeclKind::Import,
        DeclV::Backend { .. } => DeclKind::Backend,
        DeclV::Probe { .. } => DeclKind::Probe,
        DeclV::Acl { .. } => DeclKind::Acl,
        DeclV::Sub { .. } => DeclKind::Sub,
    }
}

/// Whether a name is declared by one of the first `n` declarations.
pub open spec fn declares(ds: Seq<DeclV>, n: nat, k: DeclKind, name: Seq<char>) -> bool {
    exists|i: int|
        0 <= i < n && decl_kind(#[trigger] ds[i]) == k && ast::decl_name(ds[i]) == name
}

pub open spec fn unknown_hook(name: Seq<char>) -> Seq<char> {
    "'"@ + name
        + "' is not a recognized builtin vcl_* subroutine name -- possible typo, or a vmod-specific hook this tool doesn't know about (treated as a hook: kept as-is, may be declared more than once)"@
}

/// What is found of the `i`th declaration among those before it: no backend,
/// probe or ACL is declared twice, nor a subroutine that is not builtin. An
/// import may be repeated. A builtin subroutine that is not one of the known
/// ones is worth a warning, once.
pub open spec fn declaring(ds: Seq<DeclV>, i: int) -> OutcomeV {
    let name = ast::decl_name(ds[i]);
    let again = declares(ds, i as nat, decl_kind(ds[i]), name);
    match ds[i] {
        DeclV::Import { .. } => fine(),
        DeclV::Backend { span, .. } => if again {
            fails(span, "duplicate backend '"@ + name + "'"@)
        } else {
            fine()
        },
        DeclV::Probe { span, .. } => if again {
            fails(span, "duplicate probe '"@ + name + "'"@)
        } else {
            fine()
        },
        DeclV::Acl { span, .. } => if again {
            fails(span, "duplicate acl '"@ + name + "'"@)
        } else {
            fine()
        },
        DeclV::Sub { span, .. } => if again {
            if ast::builtin_name(name) {
                fine()
            } else {
                fails(span, "duplicate sub '"@ + name + "'"@)
            }
        } else if ast::builtin_name(name) && !ast::builtin_subs().contains(name) {
            warns(unknown_hook(name))
        } else {
            fine()
        },
    }
}

/// What is found of the declarations from `i` on.
pub open spec fn declaring_from(ds: Seq<DeclV>, i: nat) -> OutcomeV
    decreases ds.len() - i,
{
    if i >= ds.len() {
        fine()
    } else {
        followed(declaring(ds, i as int), declaring_from(ds, i + 1))
    }
}

// ───────────────────────── where objects may be made ─────────────────────────

/// Whether a subroutine of the name `a` calls `b`.
pub open spec fn calls(ds: Seq<DeclV>, a: Seq<char>, b: Seq<char>) -> bool {
    exists|i: int|
        0 <= i < ds.len() && (#[trigger] ds[i] matches DeclV::Sub { name, body, .. } && name == a
            && uses::body_uses(body).contains(UseV::Sub(b)))
}

/// Whether a subroutine is reached from `vcl_init` in `n` calls.
pub open spec fn reached_in(ds: Seq<DeclV>, name: Seq<char>, n: nat) -> bool
    decreases n,
{
    if n == 0 {
        name == "vcl_init"@
    } else {
        exists|m: Seq<char>| reached_in(ds, m, (n - 1) as nat) && #[trigger] calls(ds, m, name)
    }
}

/// Whether a subroutine is reached from `vcl_init` by calls.
pub open spec fn reachable(ds: Seq<DeclV>, name: Seq<char>) -> bool {
    exists|n: nat| #[trigger] reached_in(ds, name, n)
}

/// The place of the first `new` among the statements from `i` on.
pub open spec fn first_new(ss: Seq<StmtV>, i: nat) -> Option<Span>
    decreases ss, ss.len() - i,
{
    if i >= ss.len() {
        None
    } else {
        let here = match ss[i as int] {
            StmtV::New { span, .. } => Some(span),
            StmtV::If { arms, else_body, .. } => match first_new_arm(arms, 0) {
                Some(s) => Some(s),
                None => match else_body {
                    Some(b) => first_new(b, 0),
                    None => None,
                },
            },
            _ => None,
        };
        match here {
            Some(s) => Some(s),
            None => first_new(ss, i + 1),
        }
    }
}

pub open spec fn first_new_arm(arms: Seq<ArmV>, i: nat) -> Option<Span>
    decreases arms, arms.len() - i,
{
    if i >= arms.len() {
        None
    } else {
        match first_new(arms[i as int].body, 0) {
            Some(s) => Some(s),
            None => first_new_arm(arms, i + 1),
        }
    }
}

// ───────────────────────── references ─────────────────────────

/// What references are looked up in.
pub struct EnvV {
    pub decls: Seq<DeclV>,
    /// The vmod objects made so far.
    pub objects: Map<Seq<char>, InstanceV>,
    pub specs: Map<Seq<char>, VmodSpec>,
}

/// Whether the program declares a name.
pub open spec fn known(v: EnvV, k: DeclKind, name: Seq<char>) -> bool {
    declares(v.decls, v.decls.len(), k, name)
}

pub open spec fn unknown_word(name: Seq<char>) -> Seq<char> {
    "'"@ + name
        + "' does not match any declared backend/probe/acl -- possible typo, or a vmod-defined enum constant this tool doesn't know about"@
}

/// How a call is checked.
pub enum CalleeV {
    /// Against this signature.
    Known(Seq<ArgSpecV>),
    /// Only its arguments, each by itself.
    Open,
    /// It is an error.
    Bad(Seq<char>),
}

/// What a call with that target calls.
pub open spec fn callee(v: EnvV, target: Seq<Seq<char>>) -> CalleeV {
    if target.len() < 2 {
        CalleeV::Open
    } else {
        let ns = target[0];
        let member = target.last();
        if v.objects.contains_key(ns) {
            let o = v.objects[ns];
            if v.specs.contains_key(o.vmod) && v.specs[o.vmod].objects@.contains_key(o.ctor) {
                let methods = v.specs[o.vmod].objects@[o.ctor].methods@;
                if methods.contains_key(member) {
                    CalleeV::Known(methods[member]@)
                } else {
                    CalleeV::Bad("unknown method '"@ + member + "' on object '"@ + ns + "'"@)
                }
            } else {
                CalleeV::Open
            }
        } else if known(v, DeclKind::Import, ns) {
            if v.specs.contains_key(ns) {
                let funcs = v.specs[ns].funcs@;
                if funcs.contains_key(member) {
                    CalleeV::Known(funcs[member]@)
                } else {
                    CalleeV::Bad("unknown function '"@ + member + "' in vmod '"@ + ns + "'"@)
                }
            } else {
                CalleeV::Open
            }
        } else {
            CalleeV::Bad("call to unknown object or vmod '"@ + ns + "'"@)
        }
    }
}

/// The first argument at or behind `i` whose name the signature lacks.
pub open spec fn misnamed(args: Seq<ArgV>, sig: Seq<ArgSpecV>, i: nat) -> nat
    decreases args.len() - i,
{
    if i >= args.len() {
        i
    } else {
        match args[i as int].name {
            Some(n) if vmod_args::slot_named(sig, n, 0) >= sig.len() => i,
            _ => misnamed(args, sig, i + 1),
        }
    }
}

/// How many of the first `n` arguments are given by their position.
pub open spec fn positional(args: Seq<ArgV>, n: nat) -> nat
    decreases n,
{
    if n == 0 {
        0
    } else {
        positional(args, (n - 1) as nat) + if args[n - 1].name is None {
            1nat
        } else {
            0
        }
    }
}

/// The words that the `i`th argument may be, where its slot lists them.
pub open spec fn allowed(args: Seq<ArgV>, sig: Seq<ArgSpecV>, i: int) -> Option<Seq<Seq<char>>> {
    let k = match args[i].name {
        Some(n) => vmod_args::slot_named(sig, n, 0),
        None => positional(args, i as nat),
    };
    if k < sig.len() {
        sig[k as int].enum_values
    } else {
        None
    }
}

pub open spec fn not_allowed(word: Seq<char>, values: Seq<Seq<char>>) -> Seq<char> {
    "'"@ + word + "' is not a valid value for this enum argument (expected one of: "@ + text::join(
        values,
        ", "@,
    ) + ")"@
}

/// What is found in an expression; an error is placed at `span`.
pub open spec fn expr_outcome(e: ExprV, span: Span, v: EnvV) -> OutcomeV
    decreases e, 0nat,
{
    match e {
        ExprV::Var(parts) => if parts.len() != 1 || known(v, DeclKind::Backend, parts[0]) || known(
            v,
            DeclKind::Probe,
            parts[0],
        ) || known(v, DeclKind::Acl, parts[0]) {
            fine()
        } else {
            warns(unknown_word(parts[0]))
        },
        ExprV::Call { target, args } => match callee(v, target) {
            CalleeV::Bad(msg) => fails(span, msg),
            CalleeV::Open => args_outcome(args, 0, span, v),
            CalleeV::Known(sig) => match args_fault(args, sig) {
                Some(msg) => fails(span, msg),
                None => slots_outcome(args, sig, 0, span, v),
            },
        },
        ExprV::Unary { expr, .. } => expr_outcome(*expr, span, v),
        ExprV::Binary { lhs, rhs, .. } => followed(
            expr_outcome(*lhs, span, v),
            expr_outcome(*rhs, span, v),
        ),
        _ => fine(),
    }
}

/// What is wrong with the arguments of a call as a whole: a name that the
/// signature lacks, or more arguments by position than it has slots.
pub open spec fn args_fault(args: Seq<ArgV>, sig: Seq<ArgSpecV>) -> Option<Seq<char>> {
    let i = misnamed(args, sig, 0);
    if i < args.len() {
        Some("unknown named argument '"@ + args[i as int].name->0 + "'"@)
    } else if positional(args, args.len()) > sig.len() {
        Some("too many positional arguments"@)
    } else {
        None
    }
}

/// What is found in the arguments from `i` on, each by itself.
pub open spec fn args_outcome(args: Seq<ArgV>, i: nat, span: Span, v: EnvV) -> OutcomeV
    decreases args, args.len() - i,
{
    if i >= args.len() {
        fine()
    } else {
        followed(
            expr_outcome(args[i as int].value, span, v),
            args_outcome(args, i + 1, span, v),
        )
    }
}

/// What is found in the `i`th argument in its slot: where the slot lists words,
/// a word must be one of them.
pub open spec fn slot_outcome(
    args: Seq<ArgV>,
    sig: Seq<ArgSpecV>,
    i: int,
    span: Span,
    v: EnvV,
) -> OutcomeV
    decreases args, 0nat,
    when 0 <= i < args.len()
{
    match (allowed(args, sig, i), args[i].value) {
        (Some(values), ExprV::Var(parts)) if parts.len() == 1 => if values.contains(parts[0]) {
            fine()
        } else {
            fails(span, not_allowed(parts[0], values))
        },
        _ => expr_outcome(args[i].value, span, v),
    }
}

/// What is found in the arguments from `i` on, each in its slot.
pub open spec fn slots_outcome(
    args: Seq<ArgV>,
    sig: Seq<ArgSpecV>,
    i: nat,
    span: Span,
    v: EnvV,
) -> OutcomeV
    decreases args, 1 + args.len() - i,
{
    if i >= args.len() {
        fine()
    } else {
        followed(
            slot_outcome(args, sig, i as int, span, v),
            slots_outcome(args, sig, i + 1, span, v),
        )
    }
}

/// What is found in the expressions from `i` on.
pub open spec fn exprs_outcome(es: Seq<ExprV>, i: nat, span: Span, v: EnvV) -> OutcomeV
    decreases es.len() - i,
{
    if i >= es.len() {
        fine()
    } else {
        followed(expr_outcome(es[i as int], span, v), exprs_outcome(es, i + 1, span, v))
    }
}

pub open spec fn action_outcome(a: Option<ReturnActionV>, span: Span, v: EnvV) -> OutcomeV {
    match a {
        Some(x) => exprs_outcome(x.args, 0, span, v),
        None => fine(),
    }
}

/// Whether what is assigned to holds a backend.
pub open spec fn takes_backend(lhs: Seq<Seq<char>>) -> bool {
    lhs.len() > 0 && (lhs.last() == "backend_hint"@ || lhs.last() == "backend"@)
}

/// What is found in a statement.
pub open spec fn stmt_outcome(s: StmtV, v: EnvV) -> OutcomeV
    decreases s,
{
    match s {
        StmtV::Assign { lhs, rhs, span } => match rhs {
            ExprV::Var(parts) if takes_backend(lhs) && parts.len() == 1 && !known(
                v,
                DeclKind::Backend,
                parts[0],
            ) => fails(span, "undefined reference '"@ + parts[0] + "'"@),
            _ => expr_outcome(rhs, span, v),
        },
        StmtV::Unset { .. } => fine(),
        StmtV::Call { sub, span } => if ast::builtin_name(sub) {
            fails(span, "cannot 'call' builtin sub '"@ + sub + "'"@)
        } else if !known(v, DeclKind::Sub, sub) {
            fails(span, "undefined sub '"@ + sub + "'"@)
        } else {
            fine()
        },
        StmtV::Return { action, span } => action_outcome(action, span, v),
        StmtV::Synthetic { value, span } => expr_outcome(value, span, v),
        StmtV::If { arms, else_body, span } => followed(
            arms_outcome(arms, 0, span, v),
            match else_body {
                Some(b) => stmts_outcome(b, 0, v),
                None => fine(),
            },
        ),
        StmtV::New { .. } => fine(),
        StmtV::Expr { expr, span } => expr_outcome(expr, span, v),
    }
}

/// What is found in the statements from `i` on.
pub open spec fn stmts_outcome(ss: Seq<StmtV>, i: nat, v: EnvV) -> OutcomeV
    decreases ss, ss.len() - i,
{
    if i >= ss.len() {
        fine()
    } else {
        followed(stmt_outcome(ss[i as int], v), stmts_outcome(ss, i + 1, v))
    }
}

/// What is found in the arms from `i` on.
pub open spec fn arms_outcome(arms: Seq<ArmV>, i: nat, span: Span, v: EnvV) -> OutcomeV
    decreases arms, arms.len() - i,
{
    if i >= arms.len() {
        fine()
    } else {
        let a = arms[i as int];
        followed(
            expr_outcome(a.cond, span, v),
            followed(stmts_outcome(a.body, 0, v), arms_outcome(arms, i + 1, span, v)),
        )
    }
}

/// What is found in a field.
pub open spec fn field_outcome(f: FieldV, v: EnvV) -> OutcomeV
    decreases f,
{
    match f.value {
        FieldValueV::Expr(e) => expr_outcome(e, f.span, v),
        FieldValueV::Probe(fs) => fields_outcome(fs, 0, v),
        FieldValueV::ProbeRef(name) => if known(v, DeclKind::Probe, name) {
            fine()
        } else {
            fails(f.span, "undefined probe '"@ + name + "'"@)
        },
        FieldValueV::StringList(_) => fine(),
    }
}

/// What is found in the fields from `i` on.
pub open spec fn fields_outcome(fs: Seq<FieldV>, i: nat, v: EnvV) -> OutcomeV
    decreases fs, fs.len() - i,
{
    if i >= fs.len() {
        fine()
    } else {
        followed(field_outcome(fs[i as int], v), fields_outcome(fs, i + 1, v))
    }
}

/// What is found in a declaration.
pub open spec fn decl_outcome(d: DeclV, v: EnvV) -> OutcomeV {
    match d {
        DeclV::Backend { body: Some(fs), .. } => fields_outcome(fs, 0, v),
        DeclV::Probe { body, .. } => fields_outcome(body, 0, v),
        DeclV::Sub { body, .. } => stmts_outcome(body, 0, v),
        _ => fine(),
    }
}

/// What is found in the declarations from `i` on.
pub open spec fn decls_outcome(ds: Seq<DeclV>, i: nat, v: EnvV) -> OutcomeV
    decreases ds.len() - i,
{
    if i >= ds.len() {
        fine()
    } else {
        followed(decl_outcome(ds[i as int], v), decls_outcome(ds, i + 1, v))
    }
}

// ───────────────────────── objects ─────────────────────────

/// The objects made so far, and what was found.
pub struct MadeV {
    pub objects: Map<Seq<char>, InstanceV>,
    pub found: OutcomeV,
}

/// The references of an environment with these objects.
pub open spec fn with_objects(v: EnvV, objects: Map<Seq<char>, InstanceV>) -> EnvV {
    EnvV { objects, ..v }
}

/// What is found in a `new`.
pub open spec fn new_outcome(
    name: Seq<char>,
    vmod: Seq<char>,
    ctor: Seq<char>,
    args: Seq<ArgV>,
    span: Span,
    v: EnvV,
) -> OutcomeV {
    if !known(v, DeclKind::Import, vmod) {
        fails(span, "new: vmod '"@ + vmod + "' is not imported"@)
    } else if v.objects.contains_key(name) {
        fails(span, "duplicate vmod object name '"@ + name + "'"@)
    } else if !v.specs.contains_key(vmod) {
        args_outcome(args, 0, span, v)
    } else if !v.specs[vmod].objects@.contains_key(ctor) {
        fails(span, "unknown constructor '"@ + vmod + "."@ + ctor + "'"@)
    } else {
        let sig = v.specs[vmod].objects@[ctor].init@;
        match args_fault(args, sig) {
            Some(msg) => fails(span, msg),
            None => slots_outcome(args, sig, 0, span, v),
        }
    }
}

/// What comes behind what was made and found so far.
pub open spec fn made_after(found: OutcomeV, rest: MadeV) -> MadeV {
    MadeV { objects: rest.objects, found: followed(found, rest.found) }
}

/// The objects that a statement makes.
pub open spec fn made_here(s: StmtV, v: EnvV) -> MadeV
    decreases s, 0nat,
{
    match s {
        StmtV::New { name, vmod, ctor, args, span } => MadeV {
            objects: v.objects.insert(name, InstanceV { vmod, ctor }),
            found: new_outcome(name, vmod, ctor, args, span, v),
        },
        StmtV::If { arms, else_body, .. } => {
            let a = made_in_arms(arms, 0, v);
            match else_body {
                Some(b) if a.found.error is None => made_after(
                    a.found,
                    made_from(b, 0, with_objects(v, a.objects)),
                ),
                _ => a,
            }
        },
        _ => MadeV { objects: v.objects, found: fine() },
    }
}

/// The objects that the statements from `i` on make.
pub open spec fn made_from(ss: Seq<StmtV>, i: nat, v: EnvV) -> MadeV
    decreases ss, ss.len() - i,
{
    if i >= ss.len() {
        MadeV { objects: v.objects, found: fine() }
    } else {
        let here = made_here(ss[i as int], v);
        if here.found.error is Some {
            here
        } else {
            made_after(here.found, made_from(ss, i + 1, with_objects(v, here.objects)))
        }
    }
}

pub open spec fn made_in_arms(arms: Seq<ArmV>, i: nat, v: EnvV) -> MadeV
    decreases arms, arms.len() - i,
{
    if i >= arms.len() {
        MadeV { objects: v.objects, found: fine() }
    } else {
        let here = made_from(arms[i as int].body, 0, v);
        if here.found.error is Some {
            here
        } else {
            made_after(here.found, made_in_arms(arms, i + 1, with_objects(v, here.objects)))
        }
    }
}

/// The objects that the `i`th declaration makes: only a subroutine that is
/// reached from `vcl_init` may make any.
pub open spec fn made_by_decl(ds: Seq<DeclV>, i: int, v: EnvV) -> MadeV {
    match ds[i] {
        DeclV::Sub { name, body, .. } => if reachable(ds, name) {
            made_from(body, 0, v)
        } else {
            MadeV {
                objects: v.objects,
                found: match first_new(body, 0) {
                    Some(s) => fails(s, "'new' is only allowed inside sub vcl_init"@),
                    None => fine(),
                },
            }
        },
        _ => MadeV { objects: v.objects, found: fine() },
    }
}

/// The objects that the declarations from `i` on make.
pub open spec fn made_by_decls(ds: Seq<DeclV>, i: nat, v: EnvV) -> MadeV
    decreases ds.len() - i,
{
    if i >= ds.len() {
        MadeV { objects: v.objects, found: fine() }
    } else {
        let here = made_by_decl(ds, i as int, v);
        if here.found.error is Some {
            here
        } else {
            made_after(here.found, made_by_decls(ds, i + 1, with_objects(v, here.objects)))
        }
    }
}

/// What is found in a program: in what it declares, then in the objects that it
/// makes, then in what it refers to.
pub open spec fn outcome(p: ProgramV, specs: Map<Seq<char>, VmodSpec>) -> OutcomeV {
    let v = EnvV { decls: p.decls, objects: Map::empty(), specs };
    let made = made_by_decls(p.decls, 0, v);
    followed(
        declaring_from(p.decls, 0),
        followed(made.found, decls_outcome(p.decls, 0, with_objects(v, made.objects))),
    )
}

// ───────────────────────── the code: findings ─────────────────────────

/// Whether a check told what it was to find: it added its warnings and returned
/// its error.
spec fn told(o: OutcomeV, w0: Seq<String>, w1: Seq<String>, r: VclResult<()>) -> bool {
    &&& text::texts(w1) == text::texts(w0) + o.warnings
    &&& match r {
        Ok(_) => o.error is None,
        Err(e) => o.error == Some(e@),
    }
}

/// Whether `rest` is what is still to be found of `all`.
spec fn ahead(all: OutcomeV, w0: Seq<String>, w1: Seq<String>, rest: OutcomeV) -> bool {
    &&& text::texts(w0) + all.warnings == text::texts(w1) + rest.warnings
    &&& all.error == rest.error
}

proof fn lemma_ahead_start(all: OutcomeV, w: Seq<String>)
    ensures
        ahead(all, w, w, all),
{
}

proof fn lemma_ahead_end(all: OutcomeV, w0: Seq<String>, w1: Seq<String>)
    requires
        ahead(all, w0, w1, fine()),
    ensures
        told(all, w0, w1, Ok(())),
{
    assert(text::texts(w1) + Seq::<Seq<char>>::empty() =~= text::texts(w1));
}

/// One check of several went well.
proof fn lemma_ahead_step(
    all: OutcomeV,
    w0: Seq<String>,
    w1: Seq<String>,
    w2: Seq<String>,
    here: OutcomeV,
    rest: OutcomeV,
)
    requires
        ahead(all, w0, w1, followed(here, rest)),
        told(here, w1, w2, Ok(())),
    ensures
        ahead(all, w0, w2, rest),
{
    assert(text::texts(w1) + (here.warnings + rest.warnings) =~= (text::texts(w1) + here.warnings)
        + rest.warnings);
}

/// One check of several ended in an error.
proof fn lemma_ahead_fail(
    all: OutcomeV,
    w0: Seq<String>,
    w1: Seq<String>,
    w2: Seq<String>,
    here: OutcomeV,
    rest: OutcomeV,
    e: VclError,
)
    requires
        ahead(all, w0, w1, followed(here, rest)),
        told(here, w1, w2, Err(e)),
    ensures
        told(all, w0, w2, Err(e)),
{
}

proof fn lemma_told_fine(w: Seq<String>)
    ensures
        told(fine(), w, w, Ok(())),
{
    assert(text::texts(w) + Seq::<Seq<char>>::empty() =~= text::texts(w));
}

fn fail(span: Span, msg: String, w: &Vec<String>) -> (r: VclResult<()>)
    ensures
        r is Err,
        told(fails(span, msg@), w@, w@, r),
{
    assert(text::texts(w@) + Seq::<Seq<char>>::empty() =~= text::texts(w@));
    Err(VclError::new(span, msg))
}

fn warn(msg: String, w: &mut Vec<String>)
    ensures
        told(warns(msg@), old(w)@, final(w)@, Ok(())),
{
    let ghost before = w@;
    w.push(msg);
    assert(text::texts(w@) =~= text::texts(before) + seq![msg@]);
}

/// A name between two texts.
fn around(before: &str, name: &str, after: &str) -> (r: String)
    ensures
        r@ == before@ + name@ + after@,
{
    let mut r = before.to_string();
    r.append(name);
    r.append(after);
    r
}

// ───────────────────────── the code: what is declared ─────────────────────────

fn kind_of(d: &Decl) -> (r: DeclKind)
    ensures
        r == decl_kind(d@),
{
    match d {
        Decl::Import { .. } => DeclKind::Import,
        Decl::Backend { .. } => DeclKind::Backend,
        Decl::Probe { .. } => DeclKind::Probe,
        Decl::Acl { .. } => DeclKind::Acl,
        Decl::Sub { .. } => DeclKind::Sub,
    }
}

fn is_declared(ds: &Vec<Decl>, n: usize, k: DeclKind, name: &str) -> (r: bool)
    requires
        n <= ds@.len(),
    ensures
        r == declares(ast::decls_view(ds@), n as nat, k, name@),
{
    let ghost dv = ast::decls_view(ds@);
    let mut i: usize = 0;
    while i < n
        invariant
            i <= n <= ds@.len(),
            dv == ast::decls_view(ds@),
            forall|j: int|
                0 <= j < i ==> !(decl_kind(#[trigger] dv[j]) == k && ast::decl_name(dv[j])
                    == name@),
        decreases n - i,
    {
        assert(dv[i as int] == ds@[i as int]@);
        if kind_of(&ds[i]) == k && text::str_eq(ds[i].name().as_str(), name) {
            return true;
        }
        i += 1;
    }
    false
}

fn check_declaring(ds: &Vec<Decl>, i: usize, w: &mut Vec<String>) -> (r: VclResult<()>)
    requires
        i < ds@.len(),
    ensures
        told(declaring(ast::decls_view(ds@), i as int), old(w)@, final(w)@, r),
{
    let ghost dv = ast::decls_view(ds@);
    assert(dv[i as int] == ds@[i as int]@);
    proof {
        lemma_told_fine(w@);
    }
    let d = &ds[i];
    let name = d.name();
    let again = is_declared(ds, i, kind_of(d), name.as_str());
    match d {
        Decl::Import { .. } => Ok(()),
        Decl::Backend { span, .. } => if again {
            fail(*span, around("duplicate backend '", name.as_str(), "'"), w)
        } else {
            Ok(())
        },
        Decl::Probe { span, .. } => if again {
            fail(*span, around("duplicate probe '", name.as_str(), "'"), w)
        } else {
            Ok(())
        },
        Decl::Acl { span, .. } => if again {
            fail(*span, around("duplicate acl '", name.as_str(), "'"), w)
        } else {
            Ok(())
        },
        Decl::Sub { span, .. } => if again {
            if ast::is_builtin_sub(name.as_str()) {
                Ok(())
            } else {
                fail(*span, around("duplicate sub '", name.as_str(), "'"), w)
            }
        } else if ast::is_builtin_sub(name.as_str()) && !text::contains_text(
            &ast::builtin_sub_order(),
            name.as_str(),
        ) {
            warn(
                around(
                    "'",
                    name.as_str(),
                    "' is not a recognized builtin vcl_* subroutine name -- possible typo, or a vmod-specific hook this tool doesn't know about (treated as a hook: kept as-is, may be declared more than once)",
                ),
                w,
            );
            Ok(())
        } else {
            Ok(())
        },
    }
}

fn check_all_declaring(ds: &Vec<Decl>, w: &mut Vec<String>) -> (r: VclResult<()>)
    ensures
        told(declaring_from(ast::decls_view(ds@), 0), old(w)@, final(w)@, r),
{
    let ghost dv = ast::decls_view(ds@);
    let ghost all = declaring_from(dv, 0);
    let ghost w0 = w@;
    let mut i: usize = 0;
    while i < ds.len()
        invariant
            i <= ds@.len(),
            dv == ast::decls_view(ds@),
            w0 == old(w)@,
            all == declaring_from(dv, 0),
            ahead(all, w0, w@, declaring_from(dv, i as nat)),
        decreases ds@.len() - i,
    {
        let ghost w1 = w@;
        let ghost here = declaring(dv, i as int);
        let ghost rest = declaring_from(dv, i as nat + 1);
        match check_declaring(ds, i, w) {
            Ok(_) => {
                proof {
                    lemma_ahead_step(all, w0, w1, w@, here, rest);
                }
            },
            Err(e) => {
                proof {
                    lemma_ahead_fail(all, w0, w1, w@, here, rest, e);
                }
                return Err(e);
            },
        }
        i += 1;
    }
    proof {
        lemma_ahead_end(all, w0, w@);
    }
    Ok(())
}

// ───────────────────────── the code: where objects may be made ─────────────────────────

/// Whether one of the first `n` declarations is a subroutine `a` that calls `b`.
spec fn calls_among(ds: Seq<DeclV>, n: int, a: Seq<char>, b: Seq<char>) -> bool {
    exists|i: int|
        0 <= i < n && (#[trigger] ds[i] matches DeclV::Sub { name, body, .. } && name == a
            && uses::body_uses(body).contains(UseV::Sub(b)))
}

/// Whether a list of calls holds this one.
spec fn has_call(e: Seq<(String, String)>, a: Seq<char>, b: Seq<char>) -> bool {
    exists|i: int| 0 <= i < e.len() && (#[trigger] e[i]).0@ == a && e[i].1@ == b
}

proof fn lemma_has_call_push(e: Seq<(String, String)>, x: (String, String))
    ensures
        forall|a: Seq<char>, b: Seq<char>| #[trigger]
            has_call(e.push(x), a, b) == (has_call(e, a, b) || (a == x.0@ && b == x.1@)),
{
    let t = e.push(x);
    assert forall|a: Seq<char>, b: Seq<char>| #[trigger] has_call(t, a, b) == (has_call(e, a, b)
        || (a == x.0@ && b == x.1@)) by {
        if has_call(e, a, b) {
            let i = choose|i: int| 0 <= i < e.len() && (#[trigger] e[i]).0@ == a && e[i].1@ == b;
            assert(t[i].0@ == a);
        }
        if a == x.0@ && b == x.1@ {
            assert(t[e.len() as int].0@ == a);
        }
        if has_call(t, a, b) {
            let i = choose|i: int| 0 <= i < t.len() && (#[trigger] t[i]).0@ == a && t[i].1@ == b;
            assert(i < e.len() ==> e[i].0@ == a);
        }
    }
}

/// The calls of one subroutine, added to a list.
fn add_calls(name: &str, us: &Vec<Use>, e: &mut Vec<(String, String)>)
    ensures
        forall|a: Seq<char>, b: Seq<char>| #[trigger]
            has_call(final(e)@, a, b) == (has_call(old(e)@, a, b) || (a == name@
                && uses::uses_view(us@).contains(UseV::Sub(b)))),
{
    let ghost uv = uses::uses_view(us@);
    let ghost start = e@;
    let mut i: usize = 0;
    while i < us.len()
        invariant
            i <= us@.len(),
            uv == uses::uses_view(us@),
            forall|a: Seq<char>, b: Seq<char>| #[trigger]
                has_call(e@, a, b) == (has_call(start, a, b) || (a == name@ && uv.take(
                    i as int,
                ).contains(UseV::Sub(b)))),
        decreases us@.len() - i,
    {
        let ghost before = e@;
        let ghost done = uv.take(i as int);
        let ghost next = uv.take(i + 1);
        assert(uv[i as int] == us@[i as int]@);
        assert(next =~= done.push(uv[i as int]));
        if let Use::Sub(b) = &us[i] {
            let x = (name.to_string(), b.clone());
            proof {
                lemma_has_call_push(before, x);
            }
            e.push(x);
        }
        proof {
            assert forall|b: Seq<char>| #[trigger] next.contains(UseV::Sub(b)) == (done.contains(
                UseV::Sub(b),
            ) || uv[i as int] == UseV::Sub(b)) by {
                if done.contains(UseV::Sub(b)) {
                    let j = choose|j: int| 0 <= j < done.len() && done[j] == UseV::Sub(b);
                    assert(next[j] == UseV::Sub(b));
                }
                if uv[i as int] == UseV::Sub(b) {
                    assert(next[i as int] == UseV::Sub(b));
                }
                if next.contains(UseV::Sub(b)) {
                    let j = choose|j: int| 0 <= j < next.len() && next[j] == UseV::Sub(b);
                    assert(j < i ==> done[j] == UseV::Sub(b));
                }
            }
        }
        i += 1;
    }
    assert(uv.take(uv.len() as int) =~= uv);
}

/// All calls of a program: the caller and what it calls.
fn all_calls(ds: &Vec<Decl>) -> (r: Vec<(String, String)>)
    ensures
        forall|a: Seq<char>, b: Seq<char>| #[trigger]
            has_call(r@, a, b) == calls(ast::decls_view(ds@), a, b),
{
    let ghost dv = ast::decls_view(ds@);
    let mut e: Vec<(String, String)> = Vec::new();
    let mut i: usize = 0;
    while i < ds.len()
        invariant
            i <= ds@.len(),
            dv == ast::decls_view(ds@),
            forall|a: Seq<char>, b: Seq<char>| #[trigger]
                has_call(e@, a, b) == calls_among(dv, i as int, a, b),
        decreases ds@.len() - i,
    {
        let ghost before = e@;
        assert(dv[i as int] == ds@[i as int]@);
        if let Decl::Sub { name, body, .. } = &ds[i] {
            let us = uses::uses_of(body);
            add_calls(name.as_str(), &us, &mut e);
        }
        proof {
            let d = dv[i as int];
            assert forall|a: Seq<char>, b: Seq<char>| #[trigger] has_call(e@, a, b) == calls_among(
                dv,
                i + 1,
                a,
                b,
            ) by {
                if calls_among(dv, i as int, a, b) {
                    let j = choose|j: int|
                        0 <= j < i && (#[trigger] dv[j] matches DeclV::Sub { name, body, .. }
                            && name == a && uses::body_uses(body).contains(UseV::Sub(b)));
                    assert(dv[j] is Sub);
                }
                if calls_among(dv, i + 1, a, b) {
                    let j = choose|j: int|
                        0 <= j < i + 1 && (#[trigger] dv[j] matches DeclV::Sub { name, body, .. }
                            && name == a && uses::body_uses(body).contains(UseV::Sub(b)));
                    assert(dv[j] is Sub);
                    if j < i {
                        assert(calls_among(dv, i as int, a, b));
                    }
                }
                assert(has_call(before, a, b) == calls_among(dv, i as int, a, b));
                assert(d == dv[i as int]);
            }
        }
        i += 1;
    }
    assert(forall|a: Seq<char>, b: Seq<char>|
        calls_among(dv, dv.len() as int, a, b) == calls(dv, a, b));
    e
}

spec fn holds(v: Seq<String>, n: Seq<char>) -> bool {
    text::texts(v).contains(n)
}

proof fn lemma_holds_push(v: Seq<String>, x: String)
    ensures
        forall|n: Seq<char>| #[trigger] holds(v.push(x), n) == (holds(v, n) || n == x@),
        text::texts(v.push(x)).to_set() == text::texts(v).to_set().insert(x@),
{
    let a = text::texts(v);
    let b = text::texts(v.push(x));
    assert(b =~= a.push(x@));
    assert forall|n: Seq<char>| #[trigger] holds(v.push(x), n) == (holds(v, n) || n == x@) by {
        if a.contains(n) {
            let i = choose|i: int| 0 <= i < a.len() && a[i] == n;
            assert(b[i] == n);
        }
        if n == x@ {
            assert(b[a.len() as int] == n);
        }
        if b.contains(n) {
            let i = choose|i: int| 0 <= i < b.len() && b[i] == n;
            assert(i < a.len() ==> a[i] == n);
        }
    }
    assert forall|n: Seq<char>| #[trigger] b.to_set().contains(n) == a.to_set().insert(
        x@,
    ).contains(n) by {
        assert(holds(v.push(x), n) == (holds(v, n) || n == x@));
    }
    assert(b.to_set() =~= a.to_set().insert(x@));
}

proof fn lemma_holds_pop(v: Seq<String>)
    requires
        v.len() > 0,
    ensures
        forall|n: Seq<char>| #[trigger] holds(v, n) == (holds(v.drop_last(), n) || n == v.last()@),
{
    lemma_holds_push(v.drop_last(), v.last());
    assert(v.drop_last().push(v.last()) =~= v);
}

/// A set that is closed under calls and holds `vcl_init` holds all that is
/// reached.
proof fn lemma_closed(ds: Seq<DeclV>, v: Seq<String>, name: Seq<char>, n: nat)
    requires
        holds(v, "vcl_init"@),
        forall|a: Seq<char>, b: Seq<char>| holds(v, a) && #[trigger] calls(ds, a, b) ==> holds(v, b),
        reached_in(ds, name, n),
    ensures
        holds(v, name),
    decreases n,
{
    if n > 0 {
        let m = choose|m: Seq<char>|
            reached_in(ds, m, (n - 1) as nat) && #[trigger] calls(ds, m, name);
        lemma_closed(ds, v, m, (n - 1) as nat);
    }
}

/// The names that a list of calls can lead to.
spec fn targets(e: Seq<(String, String)>) -> Set<Seq<char>> {
    Seq::new(e.len(), |i: int| e[i].1@).to_set().insert("vcl_init"@)
}

/// The subroutines that are reached from `vcl_init`.
fn reachable_from_vcl_init(ds: &Vec<Decl>) -> (r: Vec<String>)
    ensures
        forall|n: Seq<char>| #[trigger] holds(r@, n) == reachable(ast::decls_view(ds@), n),
{
    let ghost dv = ast::decls_view(ds@);
    let e = all_calls(ds);
    let mut visited: Vec<String> = Vec::new();
    let mut stack: Vec<String> = Vec::new();
    let first = "vcl_init".to_string();
    proof {
        lemma_holds_push(stack@, first);
        assert(reached_in(dv, "vcl_init"@, 0));
        vstd::seq_lib::seq_to_set_is_finite(Seq::new(e@.len(), |i: int| e@[i].1@));
    }
    stack.push(first);
    while stack.len() > 0
        invariant
            dv == ast::decls_view(ds@),
            targets(e@).finite(),
            forall|a: Seq<char>, b: Seq<char>| #[trigger] has_call(e@, a, b) == calls(dv, a, b),
            forall|n: Seq<char>| #[trigger] holds(visited@, n) ==> reachable(dv, n),
            forall|n: Seq<char>| #[trigger] holds(stack@, n) ==> reachable(dv, n)
                && targets(e@).contains(n),
            holds(visited@, "vcl_init"@) || holds(stack@, "vcl_init"@),
            forall|a: Seq<char>, b: Seq<char>|
                holds(visited@, a) && #[trigger] calls(dv, a, b) ==> holds(visited@, b) || holds(
                    stack@,
                    b,
                ),
        decreases targets(e@).difference(text::texts(visited@).to_set()).len(), stack@.len(),
    {
        let ghost stack0 = stack@;
        let ghost visited0 = visited@;
        proof {
            lemma_holds_pop(stack0);
        }
        if let Some(n) = stack.pop() {
            assert(stack@ =~= stack0.drop_last());
            assert(holds(stack0, n@));
            assert forall|m: Seq<char>| #[trigger] holds(stack@, m) implies reachable(dv, m)
                && targets(e@).contains(m) by {
                assert(holds(stack0, m));
            }
            if !text::contains_text(&visited, n.as_str()) {
                let ghost name = n@;
                proof {
                    lemma_holds_push(visited@, n);
                    let seen = text::texts(visited0).to_set();
                    targets(e@).difference(seen.insert(name)).lemma_subset_not_in_lt(
                        targets(e@).difference(seen),
                        name,
                    );
                }
                let mut i: usize = 0;
                while i < e.len()
                    invariant
                        i <= e@.len(),
                        n@ == name,
                        dv == ast::decls_view(ds@),
                        reachable(dv, name),
                        forall|a: Seq<char>, b: Seq<char>| #[trigger]
                            has_call(e@, a, b) == calls(dv, a, b),
                        forall|m: Seq<char>| #[trigger] holds(stack@, m) ==> reachable(dv, m)
                            && targets(e@).contains(m),
                        forall|m: Seq<char>| holds(stack0.drop_last(), m) ==> #[trigger] holds(
                            stack@,
                            m,
                        ),
                        forall|j: int|
                            0 <= j < i && (#[trigger] e@[j]).0@ == name ==> holds(stack@, e@[j].1@),
                    decreases e@.len() - i,
                {
                    if text::str_eq(e[i].0.as_str(), n.as_str()) {
                        let callee = e[i].1.clone();
                        proof {
                            lemma_holds_push(stack@, callee);
                            assert(e@[i as int].0@ == name);
                            assert(has_call(e@, name, callee@));
                            let k = choose|k: nat| #[trigger] reached_in(dv, name, k);
                            assert(reached_in(dv, callee@, k + 1));
                            let list = Seq::new(e@.len(), |j: int| e@[j].1@);
                            assert(list[i as int] == callee@);
                            assert(list.contains(callee@));
                            assert(targets(e@).contains(callee@));
                        }
                        stack.push(callee);
                    }
                    i += 1;
                }
                visited.push(n);
                proof {
                    assert forall|a: Seq<char>, b: Seq<char>|
                        holds(visited@, a) && #[trigger] calls(dv, a, b) implies holds(visited@, b)
                        || holds(stack@, b) by {
                        if a == name {
                            assert(has_call(e@, a, b));
                            let j = choose|j: int|
                                0 <= j < e@.len() && (#[trigger] e@[j]).0@ == a && e@[j].1@ == b;
                            assert(holds(stack@, e@[j].1@));
                        } else {
                            assert(holds(visited0, a));
                            if holds(stack0, b) && b != name {
                                assert(holds(stack0.drop_last(), b));
                            }
                        }
                    }
                    if holds(stack0, "vcl_init"@) && "vcl_init"@ != name {
                        assert(holds(stack0.drop_last(), "vcl_init"@));
                        assert(holds(stack@, "vcl_init"@));
                    }
                }
            } else {
                assert(holds(visited@, n@));
            }
        }
    }
    proof {
        assert(text::texts(stack@).len() == 0);
        assert(forall|n: Seq<char>| !holds(stack@, n));
        assert forall|n: Seq<char>| #[trigger] holds(visited@, n) == reachable(dv, n) by {
            if reachable(dv, n) {
                let k = choose|k: nat| #[trigger] reached_in(dv, n, k);
                lemma_closed(dv, visited@, n, k);
            }
        }
    }
    visited
}

// ───────────────────────── the code: references ─────────────────────────

/// What references are looked up in.
struct Env<'a> {
    decls: &'a Vec<Decl>,
    objects: &'a Table<(String, String)>,
    specs: &'a Table<VmodSpec>,
}

impl View for Env<'_> {
    type V = EnvV;

    closed spec fn view(&self) -> EnvV {
        EnvV {
            decls: ast::decls_view(self.decls@),
            objects: vmod_args::instances_view(self.objects@),
            specs: self.specs@,
        }
    }
}

impl Env<'_> {
    fn knows(&self, k: DeclKind, name: &str) -> (r: bool)
        ensures
            r == known(self@, k, name@),
    {
        is_declared(self.decls, self.decls.len(), k, name)
    }
}

/// How a call is checked.
enum Callee<'a> {
    Known(&'a Sig),
    Open,
    Bad(String),
}

spec fn callee_view(c: Callee) -> CalleeV {
    match c {
        Callee::Known(sig) => CalleeV::Known(sig@),
        Callee::Open => CalleeV::Open,
        Callee::Bad(msg) => CalleeV::Bad(msg@),
    }
}

/// Two names between three texts.
fn around2(a: &str, x: &str, b: &str, y: &str, c: &str) -> (r: String)
    ensures
        r@ == a@ + x@ + b@ + y@ + c@,
{
    let mut r = a.to_string();
    r.append(x);
    r.append(b);
    r.append(y);
    r.append(c);
    r
}

fn find_callee<'a>(v: &Env<'a>, target: &Vec<String>) -> (r: Callee<'a>)
    ensures
        callee_view(r) == callee(v@, text::texts(target@)),
{
    let n: usize = target.len();
    if n < 2 {
        return Callee::Open;
    }
    assert(text::texts(target@)[0] == target@[0]@);
    assert(text::texts(target@).last() == target@[n - 1]@);
    let ns = target[0].as_str();
    let member = target[n - 1].as_str();
    match v.objects.get(ns) {
        Some(o) => match v.specs.get(o.0.as_str()) {
            Some(spec) => match spec.objects.get(o.1.as_str()) {
                Some(obj) => match obj.methods.get(member) {
                    Some(sig) => Callee::Known(sig),
                    None => Callee::Bad(
                        around2("unknown method '", member, "' on object '", ns, "'"),
                    ),
                },
                None => Callee::Open,
            },
            None => Callee::Open,
        },
        None => if v.knows(DeclKind::Import, ns) {
            match v.specs.get(ns) {
                Some(spec) => match spec.funcs.get(member) {
                    Some(sig) => Callee::Known(sig),
                    None => Callee::Bad(
                        around2("unknown function '", member, "' in vmod '", ns, "'"),
                    ),
                },
                None => Callee::Open,
            }
        } else {
            Callee::Bad(around("call to unknown object or vmod '", ns, "'"))
        },
    }
}

fn find_args_fault(args: &Vec<Arg>, sig: &Sig) -> (r: Option<String>)
    ensures
        text::opt_text(r) == args_fault(ast::args_view(args@), sig@),
{
    let ghost av = ast::args_view(args@);
    let mut i: usize = 0;
    let mut n: usize = 0;
    while i < args.len()
        invariant
            i <= args@.len(),
            n <= i,
            av == ast::args_view(args@),
            misnamed(av, sig@, 0) == misnamed(av, sig@, i as nat),
            n as nat == positional(av, i as nat),
        decreases args@.len() - i,
    {
        assert(av[i as int] == args@[i as int]@);
        match &args[i].name {
            Some(name) => {
                if vmod_args::find_slot(sig, name.as_str()) >= sig.args.len() {
                    return Some(around("unknown named argument '", name.as_str(), "'"));
                }
            },
            None => {
                n += 1;
            },
        }
        i += 1;
    }
    if n > sig.args.len() {
        Some("too many positional arguments".to_string())
    } else {
        None
    }
}

fn resolve_expr(e: &Expr, span: Span, v: &Env, w: &mut Vec<String>) -> (r: VclResult<()>)
    ensures
        told(expr_outcome(e@, span, v@), old(w)@, final(w)@, r),
    decreases e,
{
    proof {
        lemma_told_fine(w@);
    }
    match e {
        Expr::Var(parts) => {
            if parts.len() == 1 {
                assert(text::texts(parts@)[0] == parts@[0]@);
                let name = parts[0].as_str();
                if !(v.knows(DeclKind::Backend, name) || v.knows(DeclKind::Probe, name) || v.knows(
                    DeclKind::Acl,
                    name,
                )) {
                    warn(
                        around(
                            "'",
                            name,
                            "' does not match any declared backend/probe/acl -- possible typo, or a vmod-defined enum constant this tool doesn't know about",
                        ),
                        w,
                    );
                }
            }
            Ok(())
        },
        Expr::Call { target, args } => match find_callee(v, target) {
            Callee::Bad(msg) => fail(span, msg, w),
            Callee::Open => resolve_args(args, span, v, w),
            Callee::Known(sig) => match find_args_fault(args, sig) {
                Some(msg) => fail(span, msg, w),
                None => resolve_slots(args, sig, span, v, w),
            },
        },
        Expr::Unary { expr, .. } => resolve_expr(expr, span, v, w),
        Expr::Binary { lhs, rhs, .. } => {
            let ghost w0 = w@;
            let ghost a = expr_outcome(lhs@, span, v@);
            let ghost b = expr_outcome(rhs@, span, v@);
            resolve_expr(lhs, span, v, w)?;
            assert((text::texts(w0) + a.warnings) + b.warnings =~= text::texts(w0) + (a.warnings
                + b.warnings));
            resolve_expr(rhs, span, v, w)
        },
        _ => Ok(()),
    }
}

fn resolve_args(args: &Vec<Arg>, span: Span, v: &Env, w: &mut Vec<String>) -> (r: VclResult<()>)
    ensures
        told(args_outcome(ast::args_view(args@), 0, span, v@), old(w)@, final(w)@, r),
    decreases args,
{
    let ghost av = ast::args_view(args@);
    let ghost all = args_outcome(ast::args_view(args@), 0, span, v@);
    let ghost w0 = w@;
    let mut i: usize = 0;
    while i < args.len()
        invariant
            i <= args@.len(),
            av == ast::args_view(args@),
            w0 == old(w)@,
            all == args_outcome(ast::args_view(args@), 0, span, v@),
            ahead(all, w0, w@, args_outcome(av, i as nat, span, v@)),
        decreases args@.len() - i,
    {
        let ghost w1 = w@;
        let ghost here = expr_outcome(av[i as int].value, span, v@);
        let ghost rest = args_outcome(av, i as nat + 1, span, v@);
        assert(av[i as int] == args@[i as int]@);
        match resolve_expr(&args[i].value, span, v, w) {
            Ok(_) => {
                proof {
                    lemma_ahead_step(all, w0, w1, w@, here, rest);
                }
            },
            Err(e) => {
                proof {
                    lemma_ahead_fail(all, w0, w1, w@, here, rest, e);
                }
                return Err(e);
            },
        }
        i += 1;
    }
    proof {
        lemma_ahead_end(all, w0, w@);
    }
    Ok(())
}

/// One argument in its slot.
fn resolve_slot(
    args: &Vec<Arg>,
    sig: &Sig,
    i: usize,
    n: usize,
    span: Span,
    v: &Env,
    w: &mut Vec<String>,
) -> (r: VclResult<()>)
    requires
        i < args@.len(),
        n as nat == positional(ast::args_view(args@), i as nat),
    ensures
        told(slot_outcome(ast::args_view(args@), sig@, i as int, span, v@), old(w)@, final(w)@, r),
    decreases args, 0nat,
{
    let ghost av = ast::args_view(args@);
    assert(av[i as int] == args@[i as int]@);
    proof {
        lemma_told_fine(w@);
    }
    let k: usize = match &args[i].name {
        Some(name) => vmod_args::find_slot(sig, name.as_str()),
        None => n,
    };
    if k < sig.args.len() {
        assert(sig@[k as int] == sig.args@[k as int]@);
        if let Some(values) = &sig.args[k].enum_values {
            if let Expr::Var(parts) = &args[i].value {
                if parts.len() == 1 {
                    assert(text::texts(parts@)[0] == parts@[0]@);
                    return if text::contains_text(values, parts[0].as_str()) {
                        Ok(())
                    } else {
                        fail(
                            span,
                            around2(
                                "'",
                                parts[0].as_str(),
                                "' is not a valid value for this enum argument (expected one of: ",
                                text::join_strings(values, ", ").as_str(),
                                ")",
                            ),
                            w,
                        )
                    };
                }
            }
        }
    }
    resolve_expr(&args[i].value, span, v, w)
}

fn resolve_slots(
    args: &Vec<Arg>,
    sig: &Sig,
    span: Span,
    v: &Env,
    w: &mut Vec<String>,
) -> (r: VclResult<()>)
    ensures
        told(slots_outcome(ast::args_view(args@), sig@, 0, span, v@), old(w)@, final(w)@, r),
    decreases args, 1nat,
{
    let ghost av = ast::args_view(args@);
    let ghost all = slots_outcome(av, sig@, 0, span, v@);
    let ghost w0 = w@;
    let mut i: usize = 0;
    let mut n: usize = 0;
    while i < args.len()
        invariant
            i <= args@.len(),
            n <= i,
            n as nat == positional(av, i as nat),
            av == ast::args_view(args@),
            w0 == old(w)@,
            all == slots_outcome(av, sig@, 0, span, v@),
            ahead(all, w0, w@, slots_outcome(av, sig@, i as nat, span, v@)),
        decreases args@.len() - i,
    {
        let ghost w1 = w@;
        let ghost here = slot_outcome(av, sig@, i as int, span, v@);
        let ghost rest = slots_outcome(av, sig@, i as nat + 1, span, v@);
        assert(av[i as int] == args@[i as int]@);
        match resolve_slot(args, sig, i, n, span, v, w) {
            Ok(_) => {
                proof {
                    lemma_ahead_step(all, w0, w1, w@, here, rest);
                }
            },
            Err(e) => {
                proof {
                    lemma_ahead_fail(all, w0, w1, w@, here, rest, e);
                }
                return Err(e);
            },
        }
        if args[i].name.is_none() {
            n += 1;
        }
        i += 1;
    }
    proof {
        lemma_ahead_end(all, w0, w@);
    }
    Ok(())
}

fn resolve_exprs(es: &Vec<Expr>, span: Span, v: &Env, w: &mut Vec<String>) -> (r: VclResult<()>)
    ensures
        told(exprs_outcome(ast::exprs_view(es@), 0, span, v@), old(w)@, final(w)@, r),
{
    let ghost ev = ast::exprs_view(es@);
    let ghost all = exprs_outcome(ast::exprs_view(es@), 0, span, v@);
    let ghost w0 = w@;
    let mut i: usize = 0;
    while i < es.len()
        invariant
            i <= es@.len(),
            ev == ast::exprs_view(es@),
            w0 == old(w)@,
            all == exprs_outcome(ast::exprs_view(es@), 0, span, v@),
            ahead(all, w0, w@, exprs_outcome(ev, i as nat, span, v@)),
        decreases es@.len() - i,
    {
        let ghost w1 = w@;
        let ghost here = expr_outcome(ev[i as int], span, v@);
        let ghost rest = exprs_outcome(ev, i as nat + 1, span, v@);
        assert(ev[i as int] == es@[i as int]@);
        match resolve_expr(&es[i], span, v, w) {
            Ok(_) => {
                proof {
                    lemma_ahead_step(all, w0, w1, w@, here, rest);
                }
            },
            Err(e) => {
                proof {
                    lemma_ahead_fail(all, w0, w1, w@, here, rest, e);
                }
                return Err(e);
            },
        }
        i += 1;
    }
    proof {
        lemma_ahead_end(all, w0, w@);
    }
    Ok(())
}

fn resolve_action(
    a: &Option<ReturnAction>,
    span: Span,
    v: &Env,
    w: &mut Vec<String>,
) -> (r: VclResult<()>)
    ensures
        told(action_outcome(ast::opt_action_view(*a), span, v@), old(w)@, final(w)@, r),
{
    match a {
        Some(x) => resolve_exprs(&x.args, span, v, w),
        None => {
            proof {
                lemma_told_fine(w@);
            }
            Ok(())
        },
    }
}

fn is_backend_target(parts: &Vec<String>) -> (r: bool)
    ensures
        r == takes_backend(text::texts(parts@)),
{
    let n: usize = parts.len();
    if n == 0 {
        return false;
    }
    assert(text::texts(parts@).last() == parts@[n - 1]@);
    text::str_eq(parts[n - 1].as_str(), "backend_hint") || text::str_eq(
        parts[n - 1].as_str(),
        "backend",
    )
}

fn resolve_assign(
    lhs: &Vec<String>,
    rhs: &Expr,
    span: Span,
    v: &Env,
    w: &mut Vec<String>,
) -> (r: VclResult<()>)
    ensures
        told(
            stmt_outcome(
                (StmtV::Assign { lhs: text::texts(lhs@), rhs: rhs@, span }),
                v@,
            ),
            old(w)@,
            final(w)@,
            r,
        ),
{
    if is_backend_target(lhs) {
        if let Expr::Var(parts) = rhs {
            if parts.len() == 1 {
                assert(text::texts(parts@)[0] == parts@[0]@);
                if !v.knows(DeclKind::Backend, parts[0].as_str()) {
                    return fail(
                        span,
                        around("undefined reference '", parts[0].as_str(), "'"),
                        w,
                    );
                }
            }
        }
    }
    resolve_expr(rhs, span, v, w)
}

fn resolve_stmt(s: &Stmt, v: &Env, w: &mut Vec<String>) -> (r: VclResult<()>)
    ensures
        told(stmt_outcome(s@, v@), old(w)@, final(w)@, r),
    decreases s,
{
    proof {
        lemma_told_fine(w@);
    }
    match s {
        Stmt::Assign { lhs, rhs, span } => resolve_assign(&lhs.parts, rhs, *span, v, w),
        Stmt::Unset { .. } => Ok(()),
        Stmt::Call { sub, span } => {
            if ast::is_builtin_sub(sub.as_str()) {
                fail(*span, around("cannot 'call' builtin sub '", sub.as_str(), "'"), w)
            } else if !v.knows(DeclKind::Sub, sub.as_str()) {
                fail(*span, around("undefined sub '", sub.as_str(), "'"), w)
            } else {
                Ok(())
            }
        },
        Stmt::Return { action, span } => resolve_action(action, *span, v, w),
        Stmt::Synthetic { value, span } => resolve_expr(value, *span, v, w),
        Stmt::If { arms, else_body, span } => {
            let ghost w0 = w@;
            let ghost all = stmt_outcome(s@, v@);
            let ghost a = arms_outcome(ast::arms_view(arms@), 0, *span, v@);
            resolve_arms(arms, *span, v, w)?;
            let ghost w1 = w@;
            if let Some(b) = else_body {
                let ghost x = stmts_outcome(ast::stmts_view(b@), 0, v@);
                proof {
                    assert((text::texts(w0) + a.warnings) + x.warnings =~= text::texts(w0) + (
                    a.warnings + x.warnings));
                }
                resolve_stmts(b, v, w)?;
            } else {
                assert(a.warnings + Seq::<Seq<char>>::empty() =~= a.warnings);
            }
            Ok(())
        },
        Stmt::New { .. } => Ok(()),
        Stmt::Expr { expr, span } => resolve_expr(expr, *span, v, w),
    }
}

fn resolve_stmts(ss: &Vec<Stmt>, v: &Env, w: &mut Vec<String>) -> (r: VclResult<()>)
    ensures
        told(stmts_outcome(ast::stmts_view(ss@), 0, v@), old(w)@, final(w)@, r),
    decreases ss,
{
    let ghost sv = ast::stmts_view(ss@);
    let ghost all = stmts_outcome(ast::stmts_view(ss@), 0, v@);
    let ghost w0 = w@;
    let mut i: usize = 0;
    while i < ss.len()
        invariant
            i <= ss@.len(),
            sv == ast::stmts_view(ss@),
            w0 == old(w)@,
            all == stmts_outcome(ast::stmts_view(ss@), 0, v@),
            ahead(all, w0, w@, stmts_outcome(sv, i as nat, v@)),
        decreases ss@.len() - i,
    {
        let ghost w1 = w@;
        let ghost here = stmt_outcome(sv[i as int], v@);
        let ghost rest = stmts_outcome(sv, i as nat + 1, v@);
        assert(sv[i as int] == ss@[i as int]@);
        match resolve_stmt(&ss[i], v, w) {
            Ok(_) => {
                proof {
                    lemma_ahead_step(all, w0, w1, w@, here, rest);
                }
            },
            Err(e) => {
                proof {
                    lemma_ahead_fail(all, w0, w1, w@, here, rest, e);
                }
                return Err(e);
            },
        }
        i += 1;
    }
    proof {
        lemma_ahead_end(all, w0, w@);
    }
    Ok(())
}

fn resolve_arms(
    arms: &Vec<(Expr, Vec<Stmt>)>,
    span: Span,
    v: &Env,
    w: &mut Vec<String>,
) -> (r: VclResult<()>)
    ensures
        told(arms_outcome(ast::arms_view(arms@), 0, span, v@), old(w)@, final(w)@, r),
    decreases arms,
{
    let ghost av = ast::arms_view(arms@);
    let ghost all = arms_outcome(av, 0, span, v@);
    let ghost w0 = w@;
    let mut i: usize = 0;
    while i < arms.len()
        invariant
            i <= arms@.len(),
            av == ast::arms_view(arms@),
            w0 == old(w)@,
            all == arms_outcome(av, 0, span, v@),
            ahead(all, w0, w@, arms_outcome(av, i as nat, span, v@)),
        decreases arms@.len() - i,
    {
        let ghost w1 = w@;
        let ghost cond = expr_outcome(av[i as int].cond, span, v@);
        let ghost body = stmts_outcome(av[i as int].body, 0, v@);
        let ghost rest = arms_outcome(av, i as nat + 1, span, v@);
        assert(av[i as int] == ast::arm_view(arms@[i as int]));
        match resolve_expr(&arms[i].0, span, v, w) {
            Ok(_) => {
                proof {
                    lemma_ahead_step(all, w0, w1, w@, cond, followed(body, rest));
                }
            },
            Err(e) => {
                proof {
                    lemma_ahead_fail(all, w0, w1, w@, cond, followed(body, rest), e);
                }
                return Err(e);
            },
        }
        let ghost w2 = w@;
        match resolve_stmts(&arms[i].1, v, w) {
            Ok(_) => {
                proof {
                    lemma_ahead_step(all, w0, w2, w@, body, rest);
                }
            },
            Err(e) => {
                proof {
                    lemma_ahead_fail(all, w0, w2, w@, body, rest, e);
                }
                return Err(e);
            },
        }
        i += 1;
    }
    proof {
        lemma_ahead_end(all, w0, w@);
    }
    Ok(())
}

fn resolve_field(f: &Field, v: &Env, w: &mut Vec<String>) -> (r: VclResult<()>)
    ensures
        told(field_outcome(f@, v@), old(w)@, final(w)@, r),
    decreases f,
{
    match &f.value {
        FieldValue::Expr(e) => resolve_expr(e, f.span, v, w),
        FieldValue::Probe(fs) => resolve_fields(fs, v, w),
        FieldValue::ProbeRef(name) => {
            if v.knows(DeclKind::Probe, name.as_str()) {
                proof {
                    lemma_told_fine(w@);
                }
                Ok(())
            } else {
                fail(f.span, around("undefined probe '", name.as_str(), "'"), w)
            }
        },
        FieldValue::StringList(_) => {
            proof {
                lemma_told_fine(w@);
            }
            Ok(())
        },
    }
}

fn resolve_fields(fs: &Vec<Field>, v: &Env, w: &mut Vec<String>) -> (r: VclResult<()>)
    ensures
        told(fields_outcome(ast::fields_view(fs@), 0, v@), old(w)@, final(w)@, r),
    decreases fs,
{
    let ghost fv = ast::fields_view(fs@);
    let ghost all = fields_outcome(ast::fields_view(fs@), 0, v@);
    let ghost w0 = w@;
    let mut i: usize = 0;
    while i < fs.len()
        invariant
            i <= fs@.len(),
            fv == ast::fields_view(fs@),
            w0 == old(w)@,
            all == fields_outcome(ast::fields_view(fs@), 0, v@),
            ahead(all, w0, w@, fields_outcome(fv, i as nat, v@)),
        decreases fs@.len() - i,
    {
        let ghost w1 = w@;
        let ghost here = field_outcome(fv[i as int], v@);
        let ghost rest = fields_outcome(fv, i as nat + 1, v@);
        assert(fv[i as int] == fs@[i as int]@);
        match resolve_field(&fs[i], v, w) {
            Ok(_) => {
                proof {
                    lemma_ahead_step(all, w0, w1, w@, here, rest);
                }
            },
            Err(e) => {
                proof {
                    lemma_ahead_fail(all, w0, w1, w@, here, rest, e);
                }
                return Err(e);
            },
        }
        i += 1;
    }
    proof {
        lemma_ahead_end(all, w0, w@);
    }
    Ok(())
}

fn resolve_decl(d: &Decl, v: &Env, w: &mut Vec<String>) -> (r: VclResult<()>)
    ensures
        told(decl_outcome(d@, v@), old(w)@, final(w)@, r),
{
    match d {
        Decl::Backend { body: Some(fs), .. } => resolve_fields(fs, v, w),
        Decl::Probe { body, .. } => resolve_fields(body, v, w),
        Decl::Sub { body, .. } => resolve_stmts(body, v, w),
        _ => {
            proof {
                lemma_told_fine(w@);
            }
            Ok(())
        },
    }
}

fn resolve_decls(ds: &Vec<Decl>, v: &Env, w: &mut Vec<String>) -> (r: VclResult<()>)
    ensures
        told(decls_outcome(ast::decls_view(ds@), 0, v@), old(w)@, final(w)@, r),
{
    let ghost dv = ast::decls_view(ds@);
    let ghost all = decls_outcome(ast::decls_view(ds@), 0, v@);
    let ghost w0 = w@;
    let mut i: usize = 0;
    while i < ds.len()
        invariant
            i <= ds@.len(),
            dv == ast::decls_view(ds@),
            w0 == old(w)@,
            all == decls_outcome(ast::decls_view(ds@), 0, v@),
            ahead(all, w0, w@, decls_outcome(dv, i as nat, v@)),
        decreases ds@.len() - i,
    {
        let ghost w1 = w@;
        let ghost here = decl_outcome(dv[i as int], v@);
        let ghost rest = decls_outcome(dv, i as nat + 1, v@);
        assert(dv[i as int] == ds@[i as int]@);
        match resolve_decl(&ds[i], v, w) {
            Ok(_) => {
                proof {
                    lemma_ahead_step(all, w0, w1, w@, here, rest);
                }
            },
            Err(e) => {
                proof {
                    lemma_ahead_fail(all, w0, w1, w@, here, rest, e);
                }
                return Err(e);
            },
        }
        i += 1;
    }
    proof {
        lemma_ahead_end(all, w0, w@);
    }
    Ok(())
}

// ───────────────────────── the code: objects ─────────────────────────

fn find_new(ss: &Vec<Stmt>) -> (r: Option<Span>)
    ensures
        r == first_new(ast::stmts_view(ss@), 0),
    decreases ss,
{
    let ghost sv = ast::stmts_view(ss@);
    let mut i: usize = 0;
    while i < ss.len()
        invariant
            i <= ss@.len(),
            sv == ast::stmts_view(ss@),
            first_new(sv, 0) == first_new(sv, i as nat),
        decreases ss@.len() - i,
    {
        assert(sv[i as int] == ss@[i as int]@);
        match &ss[i] {
            Stmt::New { span, .. } => {
                return Some(*span);
            },
            Stmt::If { arms, else_body, .. } => {
                if let Some(s) = find_new_arm(arms) {
                    return Some(s);
                }
                if let Some(b) = else_body {
                    if let Some(s) = find_new(b) {
                        return Some(s);
                    }
                }
            },
            _ => {},
        }
        i += 1;
    }
    None
}

fn find_new_arm(arms: &Vec<(Expr, Vec<Stmt>)>) -> (r: Option<Span>)
    ensures
        r == first_new_arm(ast::arms_view(arms@), 0),
    decreases arms,
{
    let ghost av = ast::arms_view(arms@);
    let mut i: usize = 0;
    while i < arms.len()
        invariant
            i <= arms@.len(),
            av == ast::arms_view(arms@),
            first_new_arm(av, 0) == first_new_arm(av, i as nat),
        decreases arms@.len() - i,
    {
        assert(av[i as int] == ast::arm_view(arms@[i as int]));
        if let Some(s) = find_new(&arms[i].1) {
            return Some(s);
        }
        i += 1;
    }
    None
}

fn forbid_new(body: &Vec<Stmt>, w: &Vec<String>) -> (r: VclResult<()>)
    ensures
        told(
            match first_new(ast::stmts_view(body@), 0) {
                Some(s) => fails(s, "'new' is only allowed inside sub vcl_init"@),
                None => fine(),
            },
            w@,
            w@,
            r,
        ),
{
    proof {
        lemma_told_fine(w@);
    }
    match find_new(body) {
        Some(s) => fail(s, "'new' is only allowed inside sub vcl_init".to_string(), w),
        None => Ok(()),
    }
}

fn check_new(
    name: &str,
    vmod: &str,
    ctor: &str,
    args: &Vec<Arg>,
    span: Span,
    v: &Env,
    w: &mut Vec<String>,
) -> (r: VclResult<()>)
    ensures
        told(
            new_outcome(name@, vmod@, ctor@, ast::args_view(args@), span, v@),
            old(w)@,
            final(w)@,
            r,
        ),
{
    if !v.knows(DeclKind::Import, vmod) {
        return fail(span, around("new: vmod '", vmod, "' is not imported"), w);
    }
    if v.objects.contains_key(name) {
        return fail(span, around("duplicate vmod object name '", name, "'"), w);
    }
    match v.specs.get(vmod) {
        None => resolve_args(args, span, v, w),
        Some(spec) => match spec.objects.get(ctor) {
            None => fail(span, around2("unknown constructor '", vmod, ".", ctor, "'"), w),
            Some(obj) => match find_args_fault(args, &obj.init) {
                Some(msg) => fail(span, msg, w),
                None => resolve_slots(args, &obj.init, span, v, w),
            },
        },
    }
}

/// What a program and its vmods are, without the objects.
struct Base<'a> {
    decls: &'a Vec<Decl>,
    specs: &'a Table<VmodSpec>,
}

/// The environment of a program with these objects.
spec fn env_with(b: Base, objects: Map<Seq<char>, (String, String)>) -> EnvV {
    EnvV {
        decls: ast::decls_view(b.decls@),
        objects: vmod_args::instances_view(objects),
        specs: b.specs@,
    }
}

/// Whether what was to be made was made: its warnings are added, its objects
/// too, and its error is returned. Where it ends in an error the objects do not
/// matter.
spec fn made_told(
    m: MadeV,
    w0: Seq<String>,
    w1: Seq<String>,
    objects: Map<Seq<char>, (String, String)>,
    r: VclResult<()>,
) -> bool {
    &&& told(m.found, w0, w1, r)
    &&& r is Ok ==> m.objects == vmod_args::instances_view(objects)
}

/// Whether `rest` is what is still to be made of `all`.
spec fn made_ahead(all: MadeV, w0: Seq<String>, w1: Seq<String>, rest: MadeV) -> bool {
    &&& ahead(all.found, w0, w1, rest.found)
    &&& all.found.error is None ==> all.objects == rest.objects
}

/// One part and, unless it ends in an error, the rest.
spec fn made_then(here: MadeV, rest: MadeV) -> MadeV {
    if here.found.error is Some {
        here
    } else {
        made_after(here.found, rest)
    }
}

proof fn lemma_made_step(
    all: MadeV,
    w0: Seq<String>,
    w1: Seq<String>,
    w2: Seq<String>,
    here: MadeV,
    rest: MadeV,
)
    requires
        made_ahead(all, w0, w1, made_then(here, rest)),
        told(here.found, w1, w2, Ok(())),
    ensures
        made_ahead(all, w0, w2, rest),
{
    lemma_ahead_step(all.found, w0, w1, w2, here.found, rest.found);
}

proof fn lemma_made_fail(
    all: MadeV,
    w0: Seq<String>,
    w1: Seq<String>,
    w2: Seq<String>,
    here: MadeV,
    rest: MadeV,
    e: VclError,
)
    requires
        made_ahead(all, w0, w1, made_then(here, rest)),
        told(here.found, w1, w2, Err(e)),
    ensures
        told(all.found, w0, w2, Err(e)),
{
}

fn make_stmt(
    s: &Stmt,
    b: &Base,
    objects: &mut Table<(String, String)>,
    w: &mut Vec<String>,
) -> (r: VclResult<()>)
    ensures
        made_told(
            made_here(s@, env_with(*b, old(objects)@)),
            old(w)@,
            final(w)@,
            final(objects)@,
            r,
        ),
    decreases s,
{
    proof {
        lemma_told_fine(w@);
    }
    match s {
        Stmt::New { name, vmod, ctor, args, span } => {
            let ghost before = objects@;
            let v = Env { decls: b.decls, objects: &*objects, specs: b.specs };
            check_new(name.as_str(), vmod.as_str(), ctor.as_str(), args, *span, &v, w)?;
            objects.insert(name.clone(), (vmod.clone(), ctor.clone()));
            assert(vmod_args::instances_view(objects@) =~= vmod_args::instances_view(before).insert(
                name@,
                InstanceV { vmod: vmod@, ctor: ctor@ },
            ));
            Ok(())
        },
        Stmt::If { arms, else_body, .. } => {
            let ghost w0 = w@;
            let ghost a = made_in_arms(ast::arms_view(arms@), 0, env_with(*b, objects@));
            make_arms(arms, b, objects, w)?;
            if let Some(body) = else_body {
                let ghost x = made_from(ast::stmts_view(body@), 0, env_with(*b, objects@));
                assert((text::texts(w0) + a.found.warnings) + x.found.warnings =~= text::texts(w0)
                    + (a.found.warnings + x.found.warnings));
                make_stmts(body, b, objects, w)?;
            }
            Ok(())
        },
        _ => Ok(()),
    }
}

fn make_stmts(
    ss: &Vec<Stmt>,
    b: &Base,
    objects: &mut Table<(String, String)>,
    w: &mut Vec<String>,
) -> (r: VclResult<()>)
    ensures
        made_told(
            made_from(ast::stmts_view(ss@), 0, env_with(*b, old(objects)@)),
            old(w)@,
            final(w)@,
            final(objects)@,
            r,
        ),
    decreases ss,
{
    let ghost sv = ast::stmts_view(ss@);
    let ghost all = made_from(sv, 0, env_with(*b, objects@));
    let ghost w0 = w@;
    let mut i: usize = 0;
    while i < ss.len()
        invariant
            i <= ss@.len(),
            sv == ast::stmts_view(ss@),
            w0 == old(w)@,
            all == made_from(sv, 0, env_with(*b, old(objects)@)),
            made_ahead(all, w0, w@, made_from(sv, i as nat, env_with(*b, objects@))),
        decreases ss@.len() - i,
    {
        let ghost w1 = w@;
        let ghost v1 = env_with(*b, objects@);
        let ghost here = made_here(sv[i as int], v1);
        let ghost rest = made_from(sv, i as nat + 1, with_objects(v1, here.objects));
        assert(sv[i as int] == ss@[i as int]@);
        match make_stmt(&ss[i], b, objects, w) {
            Ok(_) => {
                proof {
                    lemma_made_step(all, w0, w1, w@, here, rest);
                    assert(with_objects(v1, here.objects) == env_with(*b, objects@));
                }
            },
            Err(e) => {
                proof {
                    lemma_made_fail(all, w0, w1, w@, here, rest, e);
                }
                return Err(e);
            },
        }
        i += 1;
    }
    proof {
        lemma_ahead_end(all.found, w0, w@);
    }
    Ok(())
}

fn make_arms(
    arms: &Vec<(Expr, Vec<Stmt>)>,
    b: &Base,
    objects: &mut Table<(String, String)>,
    w: &mut Vec<String>,
) -> (r: VclResult<()>)
    ensures
        made_told(
            made_in_arms(ast::arms_view(arms@), 0, env_with(*b, old(objects)@)),
            old(w)@,
            final(w)@,
            final(objects)@,
            r,
        ),
    decreases arms,
{
    let ghost av = ast::arms_view(arms@);
    let ghost all = made_in_arms(av, 0, env_with(*b, objects@));
    let ghost w0 = w@;
    let mut i: usize = 0;
    while i < arms.len()
        invariant
            i <= arms@.len(),
            av == ast::arms_view(arms@),
            w0 == old(w)@,
            all == made_in_arms(av, 0, env_with(*b, old(objects)@)),
            made_ahead(all, w0, w@, made_in_arms(av, i as nat, env_with(*b, objects@))),
        decreases arms@.len() - i,
    {
        let ghost w1 = w@;
        let ghost v1 = env_with(*b, objects@);
        let ghost here = made_from(av[i as int].body, 0, v1);
        let ghost rest = made_in_arms(av, i as nat + 1, with_objects(v1, here.objects));
        assert(av[i as int] == ast::arm_view(arms@[i as int]));
        match make_stmts(&arms[i].1, b, objects, w) {
            Ok(_) => {
                proof {
                    lemma_made_step(all, w0, w1, w@, here, rest);
                    assert(with_objects(v1, here.objects) == env_with(*b, objects@));
                }
            },
            Err(e) => {
                proof {
                    lemma_made_fail(all, w0, w1, w@, here, rest, e);
                }
                return Err(e);
            },
        }
        i += 1;
    }
    proof {
        lemma_ahead_end(all.found, w0, w@);
    }
    Ok(())
}

fn make_decls(
    b: &Base,
    objects: &mut Table<(String, String)>,
    w: &mut Vec<String>,
) -> (r: VclResult<()>)
    ensures
        made_told(
            made_by_decls(ast::decls_view(b.decls@), 0, env_with(*b, old(objects)@)),
            old(w)@,
            final(w)@,
            final(objects)@,
            r,
        ),
{
    let ds = b.decls;
    let reached = reachable_from_vcl_init(ds);
    let ghost dv = ast::decls_view(ds@);
    let ghost all = made_by_decls(dv, 0, env_with(*b, objects@));
    let ghost w0 = w@;
    let mut i: usize = 0;
    while i < ds.len()
        invariant
            i <= ds@.len(),
            ds == b.decls,
            dv == ast::decls_view(ds@),
            w0 == old(w)@,
            forall|n: Seq<char>| #[trigger] holds(reached@, n) == reachable(dv, n),
            all == made_by_decls(dv, 0, env_with(*b, old(objects)@)),
            made_ahead(all, w0, w@, made_by_decls(dv, i as nat, env_with(*b, objects@))),
        decreases ds@.len() - i,
    {
        let ghost w1 = w@;
        let ghost v1 = env_with(*b, objects@);
        let ghost here = made_by_decl(dv, i as int, v1);
        let ghost rest = made_by_decls(dv, i as nat + 1, with_objects(v1, here.objects));
        assert(dv[i as int] == ds@[i as int]@);
        proof {
            lemma_told_fine(w1);
        }
        let r = match &ds[i] {
            Decl::Sub { name, body, .. } => {
                assert(holds(reached@, name@) == reachable(dv, name@));
                if text::contains_text(&reached, name.as_str()) {
                    make_stmts(body, b, objects, w)
                } else {
                    forbid_new(body, w)
                }
            },
            _ => Ok(()),
        };
        match r {
            Ok(_) => {
                proof {
                    lemma_made_step(all, w0, w1, w@, here, rest);
                    assert(with_objects(v1, here.objects) == env_with(*b, objects@));
                }
            },
            Err(e) => {
                proof {
                    lemma_made_fail(all, w0, w1, w@, here, rest, e);
                }
                return Err(e);
            },
        }
        i += 1;
    }
    proof {
        lemma_ahead_end(all.found, w0, w@);
    }
    Ok(())
}

// ───────────────────────── the check ─────────────────────────

/// Checks the names of a program, adds the warnings to `warnings`, and returns
/// the first error.
pub fn validate_with_warnings(
    p: &Program,
    specs: &Table<VmodSpec>,
    warnings: &mut Vec<String>,
) -> (r: VclResult<()>)
    ensures
        text::texts(final(warnings)@) == text::texts(old(warnings)@) + outcome(
            p@,
            specs@,
        ).warnings,
        match r {
            Ok(_) => outcome(p@, specs@).error is None,
            Err(e) => outcome(p@, specs@).error == Some(e@),
        },
{
    let ghost w0 = warnings@;
    let ghost all = outcome(p@, specs@);
    let b = Base { decls: &p.decls, specs };
    let mut objects: Table<(String, String)> = Table::new();
    assert(vmod_args::instances_view(objects@) =~= Map::<Seq<char>, InstanceV>::empty());
    let ghost v = env_with(b, objects@);
    let ghost made = made_by_decls(p@.decls, 0, v);
    let ghost first = declaring_from(p@.decls, 0);
    let ghost last = decls_outcome(p@.decls, 0, with_objects(v, made.objects));
    proof {
        lemma_ahead_start(all, w0);
    }
    match check_all_declaring(&p.decls, warnings) {
        Ok(_) => {
            proof {
                lemma_ahead_step(all, w0, w0, warnings@, first, followed(made.found, last));
            }
        },
        Err(e) => {
            proof {
                lemma_ahead_fail(all, w0, w0, warnings@, first, followed(made.found, last), e);
            }
            return Err(e);
        },
    }
    let ghost w1 = warnings@;
    match make_decls(&b, &mut objects, warnings) {
        Ok(_) => {
            proof {
                lemma_ahead_step(all, w0, w1, warnings@, made.found, last);
            }
        },
        Err(e) => {
            proof {
                lemma_ahead_fail(all, w0, w1, warnings@, made.found, last, e);
            }
            return Err(e);
        },
    }
    let env = Env { decls: &p.decls, objects: &objects, specs };
    resolve_decls(&p.decls, &env, warnings)
}

/// Checks the names of a program and returns the first error.
pub fn validate(p: &Program, specs: &Table<VmodSpec>) -> (r: VclResult<()>)
    ensures
        match r {
            Ok(_) => outcome(p@, specs@).error is None,
            Err(e) => outcome(p@, specs@).error == Some(e@),
        },
{
    let mut warnings: Vec<String> = Vec::new();
    validate_with_warnings(p, specs, &mut warnings)
}

} // verus!
