//! The canonical JSON of a program: its declarations without places and
//! comments. Two programs are equivalent if their canonical trees are equal.

use crate::ast;
use crate::ast::{
    AclEntry, AclEntryV, Arg, ArgV, ArmV, BinOp, Decl, DeclV, Expr, ExprV, Field, FieldV,
    FieldValue, FieldValueV, Program, ProgramV, ReturnAction, ReturnActionV, Stmt, StmtV, UnOp,
};
use crate::decimal::{Decimal, DecimalV};
use crate::json;
use crate::json::{Json, JsonV, MemberV};
use crate::text;
use vstd::prelude::*;
use vstd::string::*;

verus! {

// ───────────────────────── trees ─────────────────────────

pub open spec fn member(key: Seq<char>, value: JsonV) -> MemberV {
    MemberV { key, value }
}

/// A node that names its kind in its first member.
pub open spec fn tagged(tag: Seq<char>, rest: Seq<MemberV>) -> JsonV {
    JsonV::Object(seq![member("type"@, JsonV::Str(tag))] + rest)
}

/// A node that holds its content in the member `value`.
pub open spec fn holding(tag: Seq<char>, value: JsonV) -> JsonV {
    tagged(tag, seq![member("value"@, value)])
}

pub open spec fn strs_json(s: Seq<Seq<char>>) -> JsonV {
    JsonV::Array(Seq::new(s.len(), |i: int| JsonV::Str(s[i])))
}

pub open spec fn opt_str_json(s: Option<Seq<char>>) -> JsonV {
    match s {
        Some(t) => JsonV::Str(t),
        None => JsonV::Null,
    }
}

pub open spec fn nat_json(n: nat) -> JsonV {
    JsonV::Number(text::nat_text(n))
}

/// Seconds, with a fraction also where they are whole.
pub open spec fn seconds_json(d: DecimalV) -> JsonV {
    JsonV::Number(
        if d.scale == 0 {
            d.text() + ".0"@
        } else {
            d.text()
        },
    )
}

pub open spec fn un_op_name(op: UnOp) -> Seq<char> {
    match op {
        UnOp::Not => "not"@,
        UnOp::Neg => "neg"@,
    }
}

pub open spec fn bin_op_name(op: BinOp) -> Seq<char> {
    match op {
        BinOp::Eq => "eq"@,
        BinOp::Ne => "ne"@,
        BinOp::Match => "match"@,
        BinOp::NotMatch => "not_match"@,
        BinOp::Lt => "lt"@,
        BinOp::Le => "le"@,
        BinOp::Gt => "gt"@,
        BinOp::Ge => "ge"@,
        BinOp::And => "and"@,
        BinOp::Or => "or"@,
        BinOp::Add => "add"@,
        BinOp::Sub => "sub"@,
        BinOp::Mul => "mul"@,
        BinOp::Div => "div"@,
    }
}

pub open spec fn expr_json(e: ExprV) -> JsonV
    decreases e,
{
    match e {
        ExprV::Str(s) => holding("str"@, JsonV::Str(s)),
        ExprV::Num(n) => holding("num"@, JsonV::Str(n)),
        ExprV::Duration(d) => holding("duration"@, seconds_json(d)),
        ExprV::Bytes(n) => holding("bytes"@, nat_json(n as nat)),
        ExprV::Bool(b) => holding("bool"@, JsonV::Bool(b)),
        ExprV::Omitted => tagged("omitted"@, seq![]),
        ExprV::CSource(c) => holding("c_source"@, JsonV::Str(c)),
        ExprV::Var(parts) => holding("var"@, strs_json(parts)),
        ExprV::Call { target, args } => holding(
            "call"@,
            JsonV::Object(
                seq![member("target"@, strs_json(target)), member("args"@, args_json(args))],
            ),
        ),
        ExprV::Unary { op, expr } => holding(
            "unary"@,
            JsonV::Object(
                seq![
                    member("op"@, JsonV::Str(un_op_name(op))),
                    member("expr"@, expr_json(*expr)),
                ],
            ),
        ),
        ExprV::Binary { op, lhs, rhs } => holding(
            "binary"@,
            JsonV::Object(
                seq![
                    member("op"@, JsonV::Str(bin_op_name(op))),
                    member("lhs"@, expr_json(*lhs)),
                    member("rhs"@, expr_json(*rhs)),
                ],
            ),
        ),
    }
}

pub open spec fn arg_json(a: ArgV) -> JsonV
    decreases a,
{
    JsonV::Object(
        seq![member("name"@, opt_str_json(a.name)), member("value"@, expr_json(a.value))],
    )
}

pub open spec fn args_json(s: Seq<ArgV>) -> JsonV
    decreases s,
{
    JsonV::Array(
        Seq::new(
            s.len(),
            |i: int|
                if 0 <= i < s.len() {
                    arg_json(s[i])
                } else {
                    arbitrary()
                },
        ),
    )
}

pub open spec fn exprs_json(s: Seq<ExprV>) -> JsonV {
    JsonV::Array(Seq::new(s.len(), |i: int| expr_json(s[i])))
}

pub open spec fn action_json(a: Option<ReturnActionV>) -> JsonV {
    match a {
        Some(x) => JsonV::Object(
            seq![member("name"@, JsonV::Str(x.name)), member("args"@, exprs_json(x.args))],
        ),
        None => JsonV::Null,
    }
}

pub open spec fn stmt_json(s: StmtV) -> JsonV
    decreases s,
{
    match s {
        StmtV::Assign { lhs, rhs, .. } => tagged(
            "set"@,
            seq![member("lhs"@, strs_json(lhs)), member("rhs"@, expr_json(rhs))],
        ),
        StmtV::Unset { lhs, .. } => tagged("unset"@, seq![member("lhs"@, strs_json(lhs))]),
        StmtV::Call { sub, .. } => tagged("call"@, seq![member("sub"@, JsonV::Str(sub))]),
        StmtV::Return { action, .. } => tagged(
            "return"@,
            seq![member("action"@, action_json(action))],
        ),
        StmtV::Synthetic { value, .. } => tagged(
            "synthetic"@,
            seq![member("value"@, expr_json(value))],
        ),
        StmtV::If { arms, else_body, .. } => tagged(
            "if"@,
            seq![
                member("arms"@, arms_json(arms)),
                member("else_body"@, else_json(else_body)),
            ],
        ),
        StmtV::New { name, vmod, ctor, args, .. } => tagged(
            "new"@,
            seq![
                member("name"@, JsonV::Str(name)),
                member("vmod"@, JsonV::Str(vmod)),
                member("ctor"@, JsonV::Str(ctor)),
                member("args"@, args_json(args)),
            ],
        ),
        StmtV::Expr { expr, .. } => tagged("expr"@, seq![member("expr"@, expr_json(expr))]),
    }
}

pub open spec fn else_json(b: Option<Seq<StmtV>>) -> JsonV
    decreases b,
{
    match b {
        Some(x) => stmts_json(x),
        None => JsonV::Null,
    }
}

pub open spec fn stmts_json(s: Seq<StmtV>) -> JsonV
    decreases s,
{
    JsonV::Array(
        Seq::new(
            s.len(),
            |i: int|
                if 0 <= i < s.len() {
                    stmt_json(s[i])
                } else {
                    arbitrary()
                },
        ),
    )
}

pub open spec fn arm_json(a: ArmV) -> JsonV
    decreases a,
{
    JsonV::Array(seq![expr_json(a.cond), stmts_json(a.body)])
}

pub open spec fn arms_json(s: Seq<ArmV>) -> JsonV
    decreases s,
{
    JsonV::Array(
        Seq::new(
            s.len(),
            |i: int|
                if 0 <= i < s.len() {
                    arm_json(s[i])
                } else {
                    arbitrary()
                },
        ),
    )
}

pub open spec fn field_value_json(v: FieldValueV) -> JsonV
    decreases v,
{
    match v {
        FieldValueV::Expr(e) => holding("expr"@, expr_json(e)),
        FieldValueV::Probe(fs) => holding("probe"@, fields_json(fs)),
        FieldValueV::ProbeRef(n) => holding("probe_ref"@, JsonV::Str(n)),
        FieldValueV::StringList(l) => holding("string_list"@, strs_json(l)),
    }
}

pub open spec fn field_json(f: FieldV) -> JsonV
    decreases f,
{
    JsonV::Object(
        seq![member("name"@, JsonV::Str(f.name)), member("value"@, field_value_json(f.value))],
    )
}

pub open spec fn fields_json(s: Seq<FieldV>) -> JsonV
    decreases s,
{
    JsonV::Array(
        Seq::new(
            s.len(),
            |i: int|
                if 0 <= i < s.len() {
                    field_json(s[i])
                } else {
                    arbitrary()
                },
        ),
    )
}

pub open spec fn mask_json(m: Option<u8>) -> JsonV {
    match m {
        Some(x) => nat_json(x as nat),
        None => JsonV::Null,
    }
}

pub open spec fn acl_entry_json(e: AclEntryV) -> JsonV {
    JsonV::Object(
        seq![
            member("negated"@, JsonV::Bool(e.negated)),
            member("addr"@, JsonV::Str(e.addr)),
            member("mask"@, mask_json(e.mask)),
        ],
    )
}

pub open spec fn acl_entries_json(s: Seq<AclEntryV>) -> JsonV {
    JsonV::Array(Seq::new(s.len(), |i: int| acl_entry_json(s[i])))
}

pub open spec fn body_json(b: Option<Seq<FieldV>>) -> JsonV {
    match b {
        Some(fs) => fields_json(fs),
        None => JsonV::Null,
    }
}

pub open spec fn decl_json(d: DeclV) -> JsonV {
    match d {
        DeclV::Import { name, from, .. } => tagged(
            "import"@,
            seq![member("name"@, JsonV::Str(name)), member("from"@, opt_str_json(from))],
        ),
        DeclV::Backend { name, none, body, .. } => tagged(
            "backend"@,
            seq![
                member("name"@, JsonV::Str(name)),
                member("none"@, JsonV::Bool(none)),
                member("body"@, body_json(body)),
            ],
        ),
        DeclV::Probe { name, body, .. } => tagged(
            "probe"@,
            seq![member("name"@, JsonV::Str(name)), member("body"@, fields_json(body))],
        ),
        DeclV::Acl { name, entries, .. } => tagged(
            "acl"@,
            seq![member("name"@, JsonV::Str(name)), member("entries"@, acl_entries_json(entries))],
        ),
        DeclV::Sub { name, body, .. } => tagged(
            "sub"@,
            seq![member("name"@, JsonV::Str(name)), member("body"@, stmts_json(body))],
        ),
    }
}

pub open spec fn decls_json(s: Seq<DeclV>) -> JsonV {
    JsonV::Array(Seq::new(s.len(), |i: int| decl_json(s[i])))
}

/// The canonical tree of a program.
pub open spec fn program_json(p: ProgramV) -> JsonV {
    JsonV::Object(
        seq![
            member("vcl_normalizer_canon_version"@, nat_json(1)),
            member("vcl"@, JsonV::Str("4.1"@)),
            member("decls"@, decls_json(p.decls)),
        ],
    )
}

// ───────────────────────── building them ─────────────────────────

fn str_of(s: &str) -> (r: Json)
    ensures
        r@ == JsonV::Str(s@),
{
    Json::Str(s.to_string())
}

fn members() -> (r: Vec<(String, Json)>)
    ensures
        json::members_view(r@) == Seq::<MemberV>::empty(),
{
    let v: Vec<(String, Json)> = Vec::new();
    assert(json::members_view(v@) =~= Seq::<MemberV>::empty());
    v
}

fn add_member(m: &mut Vec<(String, Json)>, key: &str, value: Json)
    ensures
        json::members_view(final(m)@) == json::members_view(old(m)@).push(member(key@, value@)),
{
    let k = key.to_string();
    proof {
        json::lemma_members_push(m@, (k, value));
    }
    m.push((k, value));
}

fn object1(k1: &str, v1: Json) -> (r: Json)
    ensures
        r@ == JsonV::Object(seq![member(k1@, v1@)]),
{
    let mut m = members();
    add_member(&mut m, k1, v1);
    assert(json::members_view(m@) =~= seq![member(k1@, v1@)]);
    Json::Object(m)
}

fn object2(k1: &str, v1: Json, k2: &str, v2: Json) -> (r: Json)
    ensures
        r@ == JsonV::Object(seq![member(k1@, v1@), member(k2@, v2@)]),
{
    let mut m = members();
    add_member(&mut m, k1, v1);
    add_member(&mut m, k2, v2);
    assert(json::members_view(m@) =~= seq![member(k1@, v1@), member(k2@, v2@)]);
    Json::Object(m)
}

fn object3(k1: &str, v1: Json, k2: &str, v2: Json, k3: &str, v3: Json) -> (r: Json)
    ensures
        r@ == JsonV::Object(seq![member(k1@, v1@), member(k2@, v2@), member(k3@, v3@)]),
{
    let mut m = members();
    add_member(&mut m, k1, v1);
    add_member(&mut m, k2, v2);
    add_member(&mut m, k3, v3);
    assert(json::members_view(m@) =~= seq![
        member(k1@, v1@),
        member(k2@, v2@),
        member(k3@, v3@),
    ]);
    Json::Object(m)
}

fn tag1(tag: &str, k1: &str, v1: Json) -> (r: Json)
    ensures
        r@ == tagged(tag@, seq![member(k1@, v1@)]),
{
    let r = object2("type", str_of(tag), k1, v1);
    assert(r@->Object_0 =~= tagged(tag@, seq![member(k1@, v1@)])->Object_0);
    r
}

fn tag2(tag: &str, k1: &str, v1: Json, k2: &str, v2: Json) -> (r: Json)
    ensures
        r@ == tagged(tag@, seq![member(k1@, v1@), member(k2@, v2@)]),
{
    let r = object3("type", str_of(tag), k1, v1, k2, v2);
    assert(r@->Object_0 =~= tagged(
        tag@,
        seq![member(k1@, v1@), member(k2@, v2@)],
    )->Object_0);
    r
}

fn holding_json(tag: &str, value: Json) -> (r: Json)
    ensures
        r@ == holding(tag@, value@),
{
    tag1(tag, "value", value)
}

fn strs_to_json(s: &Vec<String>) -> (r: Json)
    ensures
        r@ == strs_json(text::texts(s@)),
{
    let mut v: Vec<Json> = Vec::new();
    let mut i: usize = 0;
    while i < s.len()
        invariant
            i <= s.len(),
            v.len() == i,
            forall|j: int| 0 <= j < i ==> json::json_view(#[trigger] v@[j]) == JsonV::Str(s@[j]@),
        decreases s.len() - i,
    {
        v.push(str_of(s[i].as_str()));
        i += 1;
    }
    assert(json::items_view(v@) =~= strs_json(text::texts(s@))->Array_0);
    Json::Array(v)
}

fn opt_str_to_json(s: &Option<String>) -> (r: Json)
    ensures
        r@ == opt_str_json(text::opt_text(*s)),
{
    match s {
        Some(t) => str_of(t.as_str()),
        None => Json::Null,
    }
}

fn nat_to_json(n: u64) -> (r: Json)
    ensures
        r@ == nat_json(n as nat),
{
    Json::Number(text::u64_text(n))
}

fn seconds_to_json(d: &Decimal) -> (r: Json)
    ensures
        r@ == seconds_json(d@),
{
    let mut t = d.text();
    if d.is_whole() {
        t.append(".0");
    }
    Json::Number(t)
}

fn un_op_str(op: UnOp) -> (r: &'static str)
    ensures
        r@ == un_op_name(op),
{
    match op {
        UnOp::Not => "not",
        UnOp::Neg => "neg",
    }
}

fn bin_op_str(op: BinOp) -> (r: &'static str)
    ensures
        r@ == bin_op_name(op),
{
    match op {
        BinOp::Eq => "eq",
        BinOp::Ne => "ne",
        BinOp::Match => "match",
        BinOp::NotMatch => "not_match",
        BinOp::Lt => "lt",
        BinOp::Le => "le",
        BinOp::Gt => "gt",
        BinOp::Ge => "ge",
        BinOp::And => "and",
        BinOp::Or => "or",
        BinOp::Add => "add",
        BinOp::Sub => "sub",
        BinOp::Mul => "mul",
        BinOp::Div => "div",
    }
}

/// The canonical tree of an expression.
pub fn expr_to_json(e: &Expr) -> (r: Json)
    ensures
        r@ == expr_json(e@),
    decreases e,
{
    match e {
        Expr::Str(s) => holding_json("str", str_of(s.as_str())),
        Expr::Num(n) => holding_json("num", str_of(n.as_str())),
        Expr::Duration(d) => holding_json("duration", seconds_to_json(d)),
        Expr::Bytes(n) => holding_json("bytes", nat_to_json(*n)),
        Expr::Bool(b) => holding_json("bool", Json::Bool(*b)),
        Expr::Omitted => {
            let r = object1("type", str_of("omitted"));
            assert(r@->Object_0 =~= tagged("omitted"@, seq![])->Object_0);
            r
        },
        Expr::CSource(c) => holding_json("c_source", str_of(c.as_str())),
        Expr::Var(parts) => holding_json("var", strs_to_json(parts)),
        Expr::Call { target, args } => holding_json(
            "call",
            object2("target", strs_to_json(target), "args", args_to_json(args)),
        ),
        Expr::Unary { op, expr } => holding_json(
            "unary",
            object2("op", str_of(un_op_str(*op)), "expr", expr_to_json(expr)),
        ),
        Expr::Binary { op, lhs, rhs } => holding_json(
            "binary",
            object3(
                "op",
                str_of(bin_op_str(*op)),
                "lhs",
                expr_to_json(lhs),
                "rhs",
                expr_to_json(rhs),
            ),
        ),
    }
}

/// The canonical tree of an argument.
pub fn arg_to_json(a: &Arg) -> (r: Json)
    ensures
        r@ == arg_json(a@),
    decreases a,
{
    object2("name", opt_str_to_json(&a.name), "value", expr_to_json(&a.value))
}

fn args_to_json(args: &Vec<Arg>) -> (r: Json)
    ensures
        r@ == args_json(ast::args_view(args@)),
    decreases args,
{
    let mut v: Vec<Json> = Vec::new();
    let mut i: usize = 0;
    while i < args.len()
        invariant
            i <= args.len(),
            v.len() == i,
            forall|j: int| 0 <= j < i ==> json::json_view(#[trigger] v@[j]) == arg_json(
                ast::arg_view(args@[j]),
            ),
        decreases args.len() - i,
    {
        v.push(arg_to_json(&args[i]));
        i += 1;
    }
    assert(json::items_view(v@) =~= args_json(ast::args_view(args@))->Array_0);
    Json::Array(v)
}

fn exprs_to_json(es: &Vec<Expr>) -> (r: Json)
    ensures
        r@ == exprs_json(ast::exprs_view(es@)),
{
    let mut v: Vec<Json> = Vec::new();
    let mut i: usize = 0;
    while i < es.len()
        invariant
            i <= es.len(),
            v.len() == i,
            forall|j: int| 0 <= j < i ==> json::json_view(#[trigger] v@[j]) == expr_json(
                ast::expr_view(es@[j]),
            ),
        decreases es.len() - i,
    {
        v.push(expr_to_json(&es[i]));
        i += 1;
    }
    assert(json::items_view(v@) =~= exprs_json(ast::exprs_view(es@))->Array_0);
    Json::Array(v)
}

fn action_to_json(a: &Option<ReturnAction>) -> (r: Json)
    ensures
        r@ == action_json(ast::opt_action_view(*a)),
{
    match a {
        Some(x) => object2("name", str_of(x.name.as_str()), "args", exprs_to_json(&x.args)),
        None => Json::Null,
    }
}

/// The canonical tree of a statement.
pub fn stmt_to_json(s: &Stmt) -> (r: Json)
    ensures
        r@ == stmt_json(s@),
    decreases s,
{
    match s {
        Stmt::Assign { lhs, rhs, .. } => tag2(
            "set",
            "lhs",
            strs_to_json(&lhs.parts),
            "rhs",
            expr_to_json(rhs),
        ),
        Stmt::Unset { lhs, .. } => tag1("unset", "lhs", strs_to_json(&lhs.parts)),
        Stmt::Call { sub, .. } => tag1("call", "sub", str_of(sub.as_str())),
        Stmt::Return { action, .. } => tag1("return", "action", action_to_json(action)),
        Stmt::Synthetic { value, .. } => tag1("synthetic", "value", expr_to_json(value)),
        Stmt::If { arms, else_body, .. } => {
            let e = match else_body {
                Some(b) => stmts_to_json(b),
                None => Json::Null,
            };
            let a = arms_to_json(arms);
            assert(e@ == else_json(s@->else_body));
            tag2("if", "arms", a, "else_body", e)
        },
        Stmt::New { name, vmod, ctor, args, .. } => {
            let mut m = members();
            add_member(&mut m, "type", str_of("new"));
            add_member(&mut m, "name", str_of(name.as_str()));
            add_member(&mut m, "vmod", str_of(vmod.as_str()));
            add_member(&mut m, "ctor", str_of(ctor.as_str()));
            add_member(&mut m, "args", args_to_json(args));
            assert(json::members_view(m@) =~= stmt_json(s@)->Object_0);
            Json::Object(m)
        },
        Stmt::Expr { expr, .. } => tag1("expr", "expr", expr_to_json(expr)),
    }
}

fn stmts_to_json(ss: &Vec<Stmt>) -> (r: Json)
    ensures
        r@ == stmts_json(ast::stmts_view(ss@)),
    decreases ss,
{
    let mut v: Vec<Json> = Vec::new();
    let mut i: usize = 0;
    while i < ss.len()
        invariant
            i <= ss.len(),
            v.len() == i,
            forall|j: int| 0 <= j < i ==> json::json_view(#[trigger] v@[j]) == stmt_json(
                ast::stmt_view(ss@[j]),
            ),
        decreases ss.len() - i,
    {
        v.push(stmt_to_json(&ss[i]));
        i += 1;
    }
    assert(json::items_view(v@) =~= stmts_json(ast::stmts_view(ss@))->Array_0);
    Json::Array(v)
}

fn arm_to_json(a: &(Expr, Vec<Stmt>)) -> (r: Json)
    ensures
        r@ == arm_json(ast::arm_view(*a)),
    decreases a,
{
    let mut v: Vec<Json> = Vec::new();
    v.push(expr_to_json(&a.0));
    v.push(stmts_to_json(&a.1));
    assert(json::items_view(v@) =~= arm_json(ast::arm_view(*a))->Array_0);
    Json::Array(v)
}

fn arms_to_json(arms: &Vec<(Expr, Vec<Stmt>)>) -> (r: Json)
    ensures
        r@ == arms_json(ast::arms_view(arms@)),
    decreases arms,
{
    let mut v: Vec<Json> = Vec::new();
    let mut i: usize = 0;
    while i < arms.len()
        invariant
            i <= arms.len(),
            v.len() == i,
            forall|j: int| 0 <= j < i ==> json::json_view(#[trigger] v@[j]) == arm_json(
                ast::arm_view(arms@[j]),
            ),
        decreases arms.len() - i,
    {
        v.push(arm_to_json(&arms[i]));
        i += 1;
    }
    assert(json::items_view(v@) =~= arms_json(ast::arms_view(arms@))->Array_0);
    Json::Array(v)
}

/// The canonical tree of a field's value.
pub fn field_value_to_json(f: &FieldValue) -> (r: Json)
    ensures
        r@ == field_value_json(f@),
    decreases f,
{
    match f {
        FieldValue::Expr(e) => holding_json("expr", expr_to_json(e)),
        FieldValue::Probe(fs) => holding_json("probe", fields_to_json(fs)),
        FieldValue::ProbeRef(n) => holding_json("probe_ref", str_of(n.as_str())),
        FieldValue::StringList(l) => holding_json("string_list", strs_to_json(l)),
    }
}

/// The canonical tree of a field.
pub fn field_to_json(f: &Field) -> (r: Json)
    ensures
        r@ == field_json(f@),
    decreases f,
{
    object2("name", str_of(f.name.as_str()), "value", field_value_to_json(&f.value))
}

/// The canonical tree of a list of fields.
pub fn fields_to_json(fs: &Vec<Field>) -> (r: Json)
    ensures
        r@ == fields_json(ast::fields_view(fs@)),
    decreases fs,
{
    let mut v: Vec<Json> = Vec::new();
    let mut i: usize = 0;
    while i < fs.len()
        invariant
            i <= fs.len(),
            v.len() == i,
            forall|j: int| 0 <= j < i ==> json::json_view(#[trigger] v@[j]) == field_json(
                ast::field_view(fs@[j]),
            ),
        decreases fs.len() - i,
    {
        v.push(field_to_json(&fs[i]));
        i += 1;
    }
    assert(json::items_view(v@) =~= fields_json(ast::fields_view(fs@))->Array_0);
    Json::Array(v)
}

/// The canonical tree of an address.
pub fn acl_entry_to_json(e: &AclEntry) -> (r: Json)
    ensures
        r@ == acl_entry_json(e@),
{
    let mask = match e.mask {
        Some(m) => nat_to_json(m as u64),
        None => Json::Null,
    };
    assert(mask@ == mask_json(e.mask));
    object3("negated", Json::Bool(e.negated), "addr", str_of(e.addr.as_str()), "mask", mask)
}

fn acl_entries_to_json(es: &Vec<AclEntry>) -> (r: Json)
    ensures
        r@ == acl_entries_json(ast::acl_entries_view(es@)),
{
    let mut v: Vec<Json> = Vec::new();
    let mut i: usize = 0;
    while i < es.len()
        invariant
            i <= es.len(),
            v.len() == i,
            forall|j: int| 0 <= j < i ==> json::json_view(#[trigger] v@[j]) == acl_entry_json(
                ast::acl_entry_view(es@[j]),
            ),
        decreases es.len() - i,
    {
        v.push(acl_entry_to_json(&es[i]));
        i += 1;
    }
    assert(json::items_view(v@) =~= acl_entries_json(ast::acl_entries_view(es@))->Array_0);
    Json::Array(v)
}

/// The canonical tree of a declaration.
pub fn decl_to_json(d: &Decl) -> (r: Json)
    ensures
        r@ == decl_json(d@),
{
    match d {
        Decl::Import { name, from, .. } => tag2(
            "import",
            "name",
            str_of(name.as_str()),
            "from",
            opt_str_to_json(from),
        ),
        Decl::Backend { name, none, body, .. } => {
            let b = match body {
                Some(fs) => fields_to_json(fs),
                None => Json::Null,
            };
            let mut m = members();
            add_member(&mut m, "type", str_of("backend"));
            add_member(&mut m, "name", str_of(name.as_str()));
            add_member(&mut m, "none", Json::Bool(*none));
            add_member(&mut m, "body", b);
            assert(json::members_view(m@) =~= decl_json(d@)->Object_0);
            Json::Object(m)
        },
        Decl::Probe { name, body, .. } => tag2(
            "probe",
            "name",
            str_of(name.as_str()),
            "body",
            fields_to_json(body),
        ),
        Decl::Acl { name, entries, .. } => tag2(
            "acl",
            "name",
            str_of(name.as_str()),
            "entries",
            acl_entries_to_json(entries),
        ),
        Decl::Sub { name, body, .. } => tag2(
            "sub",
            "name",
            str_of(name.as_str()),
            "body",
            stmts_to_json(body),
        ),
    }
}

fn decls_to_json(ds: &Vec<Decl>) -> (r: Json)
    ensures
        r@ == decls_json(ast::decls_view(ds@)),
{
    let mut v: Vec<Json> = Vec::new();
    let mut i: usize = 0;
    while i < ds.len()
        invariant
            i <= ds.len(),
            v.len() == i,
            forall|j: int| 0 <= j < i ==> json::json_view(#[trigger] v@[j]) == decl_json(
                ast::decl_view(ds@[j]),
            ),
        decreases ds.len() - i,
    {
        v.push(decl_to_json(&ds[i]));
        i += 1;
    }
    assert(json::items_view(v@) =~= decls_json(ast::decls_view(ds@))->Array_0);
    Json::Array(v)
}

/// The canonical tree of a program, with the version of the format and of VCL.
pub fn to_json(p: &Program) -> (r: Json)
    ensures
        r@ == program_json(p@),
{
    object3(
        "vcl_normalizer_canon_version",
        nat_to_json(1),
        "vcl",
        str_of("4.1"),
        "decls",
        decls_to_json(&p.decls),
    )
}

/// The canonical JSON text of a program, indented.
pub fn to_string(p: &Program) -> (r: String)
    ensures
        r@ == json::pretty_text(program_json(p@)),
{
    json::pretty(&to_json(p))
}

/// Whether two programs have the same canonical tree.
pub fn canon_eq(a: &Program, b: &Program) -> (r: bool)
    ensures
        r == (program_json(a@) == program_json(b@)),
{
    json::json_eq(&to_json(a), &to_json(b))
}

} // verus!
