//! The canonical form tells all of a program but its places.

use crate::ast::{
    AclEntryV, ArgV, ArmV, BinOp, DeclV, ExprV, FieldV, FieldValueV, ProgramV, ReturnActionV, StmtV,
    UnOp,
};
use crate::canon;
use crate::compare;
use crate::compare::exactness;
use crate::decimal;
use crate::decimal::DecimalV;
use crate::json::{JsonV, MemberV};
use crate::layout;
use crate::text;
use vstd::arithmetic::div_mod::lemma_div_denominator;
use vstd::prelude::*;
use vstd::string::*;

verus! {

// ───────────────────────── durations in lowest terms ─────────────────────────

/// Whether the durations in an expression are in lowest terms.
pub open spec fn lowest_expr(e: ExprV) -> bool
    decreases e,
{
    match e {
        ExprV::Duration(d) => d.lowest(),
        ExprV::Call { args, .. } => lowest_args(args),
        ExprV::Unary { expr, .. } => lowest_expr(*expr),
        ExprV::Binary { lhs, rhs, .. } => lowest_expr(*lhs) && lowest_expr(*rhs),
        _ => true,
    }
}

/// Whether the durations in an argument are in lowest terms.
pub open spec fn lowest_arg(a: ArgV) -> bool
    decreases a,
{
    lowest_expr(a.value)
}

/// Whether the durations in arguments are in lowest terms.
pub open spec fn lowest_args(s: Seq<ArgV>) -> bool
    decreases s,
{
    forall|i: int| 0 <= i < s.len() ==> lowest_arg(#[trigger] s[i])
}

/// Whether the durations in expressions are in lowest terms.
pub open spec fn lowest_exprs(s: Seq<ExprV>) -> bool {
    forall|i: int| 0 <= i < s.len() ==> lowest_expr(#[trigger] s[i])
}

/// Whether the durations in a statement are in lowest terms.
pub open spec fn lowest_stmt(s: StmtV) -> bool
    decreases s,
{
    match s {
        StmtV::Assign { rhs, .. } => lowest_expr(rhs),
        StmtV::Unset { .. } => true,
        StmtV::Call { .. } => true,
        StmtV::Return { action, .. } => match action {
            Some(a) => lowest_exprs(a.args),
            None => true,
        },
        StmtV::Synthetic { value, .. } => lowest_expr(value),
        StmtV::If { arms, else_body, .. } => lowest_arms(arms) && match else_body {
            Some(b) => lowest_stmts(b),
            None => true,
        },
        StmtV::New { args, .. } => lowest_args(args),
        StmtV::Expr { expr, .. } => lowest_expr(expr),
    }
}

/// Whether the durations in statements are in lowest terms.
pub open spec fn lowest_stmts(s: Seq<StmtV>) -> bool
    decreases s,
{
    forall|i: int| 0 <= i < s.len() ==> lowest_stmt(#[trigger] s[i])
}

/// Whether the durations in an arm are in lowest terms.
pub open spec fn lowest_arm(a: ArmV) -> bool
    decreases a,
{
    lowest_expr(a.cond) && lowest_stmts(a.body)
}

/// Whether the durations in arms are in lowest terms.
pub open spec fn lowest_arms(s: Seq<ArmV>) -> bool
    decreases s,
{
    forall|i: int| 0 <= i < s.len() ==> lowest_arm(#[trigger] s[i])
}

/// Whether the durations in the value of a field are in lowest terms.
pub open spec fn lowest_value(v: FieldValueV) -> bool
    decreases v,
{
    match v {
        FieldValueV::Expr(e) => lowest_expr(e),
        FieldValueV::Probe(fs) => lowest_fields(fs),
        _ => true,
    }
}

/// Whether the durations in a field are in lowest terms.
pub open spec fn lowest_field(f: FieldV) -> bool
    decreases f,
{
    lowest_value(f.value)
}

/// Whether the durations in fields are in lowest terms.
pub open spec fn lowest_fields(s: Seq<FieldV>) -> bool
    decreases s,
{
    forall|i: int| 0 <= i < s.len() ==> lowest_field(#[trigger] s[i])
}

/// Whether the durations in a declaration are in lowest terms.
pub open spec fn lowest_decl(d: DeclV) -> bool {
    match d {
        DeclV::Import { .. } => true,
        DeclV::Backend { body, .. } => match body {
            Some(fs) => lowest_fields(fs),
            None => true,
        },
        DeclV::Probe { body, .. } => lowest_fields(body),
        DeclV::Acl { .. } => true,
        DeclV::Sub { body, .. } => lowest_stmts(body),
    }
}

/// Whether the durations in declarations are in lowest terms.
pub open spec fn lowest_decls(s: Seq<DeclV>) -> bool {
    forall|i: int| 0 <= i < s.len() ==> lowest_decl(#[trigger] s[i])
}

// ───────────────────────── numbers ─────────────────────────

proof fn lemma_digits(n: nat)
    ensures
        forall|i: int| 0 <= i < text::nat_text(n).len() ==> #[trigger] text::nat_text(n)[i] != '.',
    decreases n,
{
    let s = text::nat_text(n);
    assert(text::digit_char(n % 10) as int == 48 + n % 10);
    if n >= 10 {
        lemma_digits(n / 10);
        assert forall|i: int| 0 <= i < s.len() implies #[trigger] s[i] != '.' by {
            if i + 1 < s.len() {
                assert(s[i] == text::nat_text(n / 10)[i]);
            }
        }
    }
}

proof fn lemma_point(m: nat, n: nat, x: Seq<char>, y: Seq<char>)
    requires
        text::nat_text(m).push('.') + x == text::nat_text(n).push('.') + y,
    ensures
        m == n,
        x == y,
{
    let (a, b) = (text::nat_text(m), text::nat_text(n));
    let (s, t) = (a.push('.') + x, b.push('.') + y);
    lemma_digits(m);
    lemma_digits(n);
    assert(s[a.len() as int] == '.' && t[b.len() as int] == '.');
    if a.len() < b.len() {
        assert(t[a.len() as int] == b[a.len() as int]);
    }
    if b.len() < a.len() {
        assert(s[b.len() as int] == a[b.len() as int]);
    }
    assert forall|i: int| 0 <= i < a.len() implies a[i] == b[i] by {
        assert(s[i] == a[i] && t[i] == b[i]);
    }
    assert(a =~= b);
    text::lemma_nat_text_injective(m, n);
    assert(x =~= s.skip(a.len() as int + 1));
    assert(y =~= t.skip(b.len() as int + 1));
}

proof fn lemma_low_len(n: nat, k: nat)
    ensures
        decimal::low_digits(n, k).len() == k,
    decreases k,
{
    if k > 0 {
        lemma_low_len(n / 10, (k - 1) as nat);
    }
}

proof fn lemma_low(m: nat, n: nat, k: nat)
    requires
        decimal::low_digits(m, k) == decimal::low_digits(n, k),
        m / decimal::pow10(k) == n / decimal::pow10(k),
    ensures
        m == n,
    decreases k,
{
    if k == 0 {
        lemma_whole(m);
        lemma_whole(n);
    } else {
        let j = (k - 1) as nat;
        let (x, y) = (decimal::low_digits(m, k), decimal::low_digits(n, k));
        assert(x.last() == text::digit_char(m % 10) && y.last() == text::digit_char(n % 10));
        assert(x.drop_last() =~= decimal::low_digits(m / 10, j));
        assert(y.drop_last() =~= decimal::low_digits(n / 10, j));
        lemma_power(j);
        lemma_div_denominator(m as int, 10, decimal::pow10(j) as int);
        lemma_div_denominator(n as int, 10, decimal::pow10(j) as int);
        lemma_low(m / 10, n / 10, j);
        assert(m % 10 == n % 10);
    }
}

proof fn lemma_whole(n: nat)
    ensures
        n / decimal::pow10(0) == n,
{
    assert(decimal::pow10(0) == 1);
    assert(n / 1 == n);
}

proof fn lemma_power(k: nat)
    ensures
        decimal::pow10(k) > 0,
    decreases k,
{
    if k > 0 {
        lemma_power((k - 1) as nat);
    }
}

proof fn lemma_fraction(n: nat, k: nat)
    requires
        k > 0,
        n % 10 != 0,
    ensures
        decimal::low_digits(n, k) != "0"@,
{
    reveal_strlit("0");
    let x = decimal::low_digits(n, k);
    assert(x.last() == text::digit_char(n % 10));
    assert("0"@.last() == '0');
}

proof fn lemma_seconds(d: DecimalV, e: DecimalV)
    requires
        d.lowest(),
        e.lowest(),
        canon::seconds_json(d) == canon::seconds_json(e),
    ensures
        d == e,
{
    let (x, y) = (tail(d), tail(e));
    lemma_seconds_text(d);
    lemma_seconds_text(e);
    lemma_point(d.floor(), e.floor(), x, y);
    if d.scale > 0 {
        lemma_fraction(d.num, d.scale);
        lemma_low_len(d.num, d.scale);
    }
    if e.scale > 0 {
        lemma_fraction(e.num, e.scale);
        lemma_low_len(e.num, e.scale);
    }
    if d.scale > 0 && e.scale > 0 {
        lemma_low(d.num, e.num, d.scale);
    }
    lemma_whole(d.num);
    lemma_whole(e.num);
}

/// What stands behind the point.
spec fn tail(d: DecimalV) -> Seq<char> {
    if d.scale == 0 {
        "0"@
    } else {
        decimal::low_digits(d.num, d.scale)
    }
}

proof fn lemma_seconds_text(d: DecimalV)
    ensures
        canon::seconds_json(d) == JsonV::Number(text::nat_text(d.floor()).push('.') + tail(d)),
{
    reveal_strlit(".0");
    reveal_strlit("0");
    lemma_whole(d.num);
    if d.scale == 0 {
        assert(text::nat_text(d.num) + ".0"@ =~= text::nat_text(d.num).push('.') + "0"@);
    }
}

// ───────────────────────── expressions ─────────────────────────

proof fn lemma_holding(t: Seq<char>, v: JsonV, u: Seq<char>, w: JsonV)
    requires
        canon::holding(t, v) == canon::holding(u, w),
    ensures
        t == u,
        v == w,
{
    exactness::lemma_tagged(
        t,
        seq![canon::member("value"@, v)],
        u,
        seq![canon::member("value"@, w)],
    );
    exactness::lemma_one("value"@, v, w);
}

spec fn expr_tag(e: ExprV) -> Seq<char> {
    match e {
        ExprV::Str(_) => "str"@,
        ExprV::Num(_) => "num"@,
        ExprV::Duration(_) => "duration"@,
        ExprV::Bytes(_) => "bytes"@,
        ExprV::Bool(_) => "bool"@,
        ExprV::Omitted => "omitted"@,
        ExprV::CSource(_) => "c_source"@,
        ExprV::Var(_) => "var"@,
        ExprV::Call { .. } => "call"@,
        ExprV::Unary { .. } => "unary"@,
        ExprV::Binary { .. } => "binary"@,
    }
}

spec fn kind_number(e: ExprV) -> int {
    match e {
        ExprV::Str(_) => 0,
        ExprV::Num(_) => 1,
        ExprV::Duration(_) => 2,
        ExprV::Bytes(_) => 3,
        ExprV::Bool(_) => 4,
        ExprV::Omitted => 5,
        ExprV::CSource(_) => 6,
        ExprV::Var(_) => 7,
        ExprV::Call { .. } => 8,
        ExprV::Unary { .. } => 9,
        ExprV::Binary { .. } => 10,
    }
}

proof fn lemma_tag(e: ExprV)
    ensures
        canon::expr_json(e) is Object,
        canon::expr_json(e)->Object_0.len() > 0,
        canon::expr_json(e)->Object_0[0] == canon::member("type"@, JsonV::Str(expr_tag(e))),
{
}

proof fn lemma_expr_kinds(a: ExprV, b: ExprV)
    requires
        canon::expr_json(a) == canon::expr_json(b),
    ensures
        kind_number(a) == kind_number(b),
{
    reveal_strlit("str");
    reveal_strlit("num");
    reveal_strlit("duration");
    reveal_strlit("bytes");
    reveal_strlit("bool");
    reveal_strlit("omitted");
    reveal_strlit("c_source");
    reveal_strlit("var");
    reveal_strlit("call");
    reveal_strlit("unary");
    reveal_strlit("binary");
    assert("str"@.len() == 3 && "num"@.len() == 3 && "var"@.len() == 3);
    assert("str"@[0] == 's' && "num"@[0] == 'n' && "var"@[0] == 'v');
    assert("duration"@.len() == 8 && "c_source"@.len() == 8);
    assert("duration"@[0] == 'd' && "c_source"@[0] == 'c');
    assert("bytes"@.len() == 5 && "unary"@.len() == 5);
    assert("bytes"@[0] == 'b' && "unary"@[0] == 'u');
    assert("bool"@.len() == 4 && "call"@.len() == 4);
    assert("bool"@[0] == 'b' && "call"@[0] == 'c');
    assert("omitted"@.len() == 7 && "binary"@.len() == 6);
    lemma_tag(a);
    lemma_tag(b);
    assert(expr_tag(a) == expr_tag(b));
}

proof fn lemma_un_op(a: UnOp, b: UnOp)
    requires
        canon::un_op_name(a) == canon::un_op_name(b),
    ensures
        a == b,
{
    reveal_strlit("not");
    reveal_strlit("neg");
    assert("not"@[1] == 'o' && "neg"@[1] == 'e');
}

proof fn lemma_bin_op(a: BinOp, b: BinOp)
    requires
        canon::bin_op_name(a) == canon::bin_op_name(b),
    ensures
        a == b,
{
    reveal_strlit("eq");
    reveal_strlit("ne");
    reveal_strlit("match");
    reveal_strlit("not_match");
    reveal_strlit("lt");
    reveal_strlit("le");
    reveal_strlit("gt");
    reveal_strlit("ge");
    reveal_strlit("and");
    reveal_strlit("or");
    reveal_strlit("add");
    reveal_strlit("sub");
    reveal_strlit("mul");
    reveal_strlit("div");
    assert("eq"@.len() == 2 && "ne"@.len() == 2 && "lt"@.len() == 2 && "le"@.len() == 2);
    assert("gt"@.len() == 2 && "ge"@.len() == 2 && "or"@.len() == 2);
    assert("match"@.len() == 5 && "not_match"@.len() == 9);
    assert("and"@.len() == 3 && "add"@.len() == 3 && "sub"@.len() == 3);
    assert("mul"@.len() == 3 && "div"@.len() == 3);
    assert("eq"@[0] == 'e' && "ne"@[0] == 'n' && "or"@[0] == 'o');
    assert("lt"@[0] == 'l' && "le"@[0] == 'l' && "gt"@[0] == 'g' && "ge"@[0] == 'g');
    assert("lt"@[1] == 't' && "le"@[1] == 'e' && "gt"@[1] == 't' && "ge"@[1] == 'e');
    assert("and"@[0] == 'a' && "add"@[0] == 'a' && "and"@[1] == 'n' && "add"@[1] == 'd');
    assert("sub"@[0] == 's' && "mul"@[0] == 'm' && "div"@[0] == 'd');
}

proof fn lemma_call_parts(t: Seq<Seq<char>>, x: Seq<ArgV>, u: Seq<Seq<char>>, y: Seq<ArgV>)
    requires
        canon::expr_json(ExprV::Call { target: t, args: x }) == canon::expr_json(
            ExprV::Call { target: u, args: y },
        ),
    ensures
        t == u,
        canon::args_json(x) == canon::args_json(y),
{
    let v = seq![
        canon::member("target"@, canon::strs_json(t)),
        canon::member("args"@, canon::args_json(x)),
    ];
    let w = seq![
        canon::member("target"@, canon::strs_json(u)),
        canon::member("args"@, canon::args_json(y)),
    ];
    lemma_holding("call"@, JsonV::Object(v), "call"@, JsonV::Object(w));
    exactness::lemma_two(
        "target"@,
        canon::strs_json(t),
        canon::strs_json(u),
        "args"@,
        canon::args_json(x),
        canon::args_json(y),
    );
    exactness::lemma_strs(t, u);
}

proof fn lemma_unary_parts(p: UnOp, x: ExprV, q: UnOp, y: ExprV)
    requires
        canon::expr_json(ExprV::Unary { op: p, expr: Box::new(x) }) == canon::expr_json(
            ExprV::Unary { op: q, expr: Box::new(y) },
        ),
    ensures
        p == q,
        canon::expr_json(x) == canon::expr_json(y),
{
    let v = seq![
        canon::member("op"@, JsonV::Str(canon::un_op_name(p))),
        canon::member("expr"@, canon::expr_json(x)),
    ];
    let w = seq![
        canon::member("op"@, JsonV::Str(canon::un_op_name(q))),
        canon::member("expr"@, canon::expr_json(y)),
    ];
    lemma_holding("unary"@, JsonV::Object(v), "unary"@, JsonV::Object(w));
    exactness::lemma_two(
        "op"@,
        JsonV::Str(canon::un_op_name(p)),
        JsonV::Str(canon::un_op_name(q)),
        "expr"@,
        canon::expr_json(x),
        canon::expr_json(y),
    );
    lemma_un_op(p, q);
}

proof fn lemma_binary_parts(p: BinOp, x: ExprV, y: ExprV, q: BinOp, z: ExprV, u: ExprV)
    requires
        canon::expr_json(
            ExprV::Binary { op: p, lhs: Box::new(x), rhs: Box::new(y) },
        ) == canon::expr_json(ExprV::Binary { op: q, lhs: Box::new(z), rhs: Box::new(u) }),
    ensures
        p == q,
        canon::expr_json(x) == canon::expr_json(z),
        canon::expr_json(y) == canon::expr_json(u),
{
    let v = seq![
        canon::member("op"@, JsonV::Str(canon::bin_op_name(p))),
        canon::member("lhs"@, canon::expr_json(x)),
        canon::member("rhs"@, canon::expr_json(y)),
    ];
    let w = seq![
        canon::member("op"@, JsonV::Str(canon::bin_op_name(q))),
        canon::member("lhs"@, canon::expr_json(z)),
        canon::member("rhs"@, canon::expr_json(u)),
    ];
    lemma_holding("binary"@, JsonV::Object(v), "binary"@, JsonV::Object(w));
    exactness::lemma_three(
        "op"@,
        JsonV::Str(canon::bin_op_name(p)),
        JsonV::Str(canon::bin_op_name(q)),
        "lhs"@,
        canon::expr_json(x),
        canon::expr_json(z),
        "rhs"@,
        canon::expr_json(y),
        canon::expr_json(u),
    );
    lemma_bin_op(p, q);
}

proof fn lemma_expr(a: ExprV, b: ExprV)
    requires
        lowest_expr(a),
        lowest_expr(b),
        canon::expr_json(a) == canon::expr_json(b),
    ensures
        layout::bare_expr(a) == layout::bare_expr(b),
    decreases a, 0nat,
{
    lemma_expr_kinds(a, b);
    match (a, b) {
        (ExprV::Str(x), ExprV::Str(y)) => {
            lemma_holding("str"@, JsonV::Str(x), "str"@, JsonV::Str(y));
        },
        (ExprV::Num(x), ExprV::Num(y)) => {
            lemma_holding("num"@, JsonV::Str(x), "num"@, JsonV::Str(y));
        },
        (ExprV::Duration(x), ExprV::Duration(y)) => {
            lemma_holding(
                "duration"@,
                canon::seconds_json(x),
                "duration"@,
                canon::seconds_json(y),
            );
            lemma_seconds(x, y);
        },
        (ExprV::Bytes(x), ExprV::Bytes(y)) => {
            lemma_holding(
                "bytes"@,
                canon::nat_json(x as nat),
                "bytes"@,
                canon::nat_json(y as nat),
            );
            text::lemma_nat_text_injective(x as nat, y as nat);
        },
        (ExprV::Bool(x), ExprV::Bool(y)) => {
            lemma_holding("bool"@, JsonV::Bool(x), "bool"@, JsonV::Bool(y));
        },
        (ExprV::CSource(x), ExprV::CSource(y)) => {
            lemma_holding("c_source"@, JsonV::Str(x), "c_source"@, JsonV::Str(y));
        },
        (ExprV::Var(x), ExprV::Var(y)) => {
            lemma_holding("var"@, canon::strs_json(x), "var"@, canon::strs_json(y));
            exactness::lemma_strs(x, y);
        },
        (ExprV::Call { target: t, args: x }, ExprV::Call { target: u, args: y }) => {
            lemma_call_parts(t, x, u, y);
            lemma_args(x, y);
        },
        (ExprV::Unary { op: p, expr: x }, ExprV::Unary { op: q, expr: y }) => {
            lemma_unary_parts(p, *x, q, *y);
            lemma_expr(*x, *y);
        },
        (
            ExprV::Binary { op: p, lhs: x, rhs: y },
            ExprV::Binary { op: q, lhs: z, rhs: u },
        ) => {
            lemma_binary_parts(p, *x, *y, q, *z, *u);
            lemma_expr(*x, *z);
            lemma_expr(*y, *u);
        },
        _ => {},
    }
}

proof fn lemma_arg(a: ArgV, b: ArgV)
    requires
        lowest_arg(a),
        lowest_arg(b),
        canon::arg_json(a) == canon::arg_json(b),
    ensures
        layout::bare_arg(a) == layout::bare_arg(b),
    decreases a, 0nat,
{
    exactness::lemma_arg(a, b);
    lemma_expr(a.value, b.value);
}

proof fn lemma_args(a: Seq<ArgV>, b: Seq<ArgV>)
    requires
        lowest_args(a),
        lowest_args(b),
        canon::args_json(a) == canon::args_json(b),
    ensures
        layout::bare_args(a) == layout::bare_args(b),
    decreases a, 0nat,
{
    let x = canon::args_json(a)->Array_0;
    let y = canon::args_json(b)->Array_0;
    assert(x.len() == a.len() && y.len() == b.len());
    assert forall|i: int| 0 <= i < a.len() implies layout::bare_args(a)[i] == layout::bare_args(
        b,
    )[i] by {
        assert(x[i] == y[i]);
        lemma_arg(a[i], b[i]);
    }
    assert(layout::bare_args(a) =~= layout::bare_args(b));
}

proof fn lemma_exprs(a: Seq<ExprV>, b: Seq<ExprV>)
    requires
        lowest_exprs(a),
        lowest_exprs(b),
        canon::exprs_json(a) == canon::exprs_json(b),
    ensures
        layout::bare_exprs(a) == layout::bare_exprs(b),
{
    let x = canon::exprs_json(a)->Array_0;
    let y = canon::exprs_json(b)->Array_0;
    assert(x.len() == a.len() && y.len() == b.len());
    assert forall|i: int| 0 <= i < a.len() implies layout::bare_exprs(a)[i] == layout::bare_exprs(
        b,
    )[i] by {
        assert(x[i] == y[i]);
        lemma_expr(a[i], b[i]);
    }
    assert(layout::bare_exprs(a) =~= layout::bare_exprs(b));
}

// ───────────────────────── statements ─────────────────────────

proof fn lemma_action(a: Option<ReturnActionV>, b: Option<ReturnActionV>)
    requires
        canon::action_json(a) == canon::action_json(b),
    ensures
        match (a, b) {
            (Some(x), Some(y)) => x.name == y.name && canon::exprs_json(x.args)
                == canon::exprs_json(y.args),
            (None, None) => true,
            _ => false,
        },
{
    match (a, b) {
        (Some(x), Some(y)) => exactness::lemma_two(
            "name"@,
            JsonV::Str(x.name),
            JsonV::Str(y.name),
            "args"@,
            canon::exprs_json(x.args),
            canon::exprs_json(y.args),
        ),
        _ => {},
    }
}

/// The members of a statement behind its kind.
spec fn members(s: StmtV) -> Seq<MemberV> {
    match s {
        StmtV::Assign { lhs, rhs, .. } => seq![
            canon::member("lhs"@, canon::strs_json(lhs)),
            canon::member("rhs"@, canon::expr_json(rhs)),
        ],
        StmtV::Unset { lhs, .. } => seq![canon::member("lhs"@, canon::strs_json(lhs))],
        StmtV::Call { sub, .. } => seq![canon::member("sub"@, JsonV::Str(sub))],
        StmtV::Return { action, .. } => seq![canon::member("action"@, canon::action_json(action))],
        StmtV::Synthetic { value, .. } => seq![canon::member("value"@, canon::expr_json(value))],
        StmtV::If { arms, else_body, .. } => seq![
            canon::member("arms"@, canon::arms_json(arms)),
            canon::member("else_body"@, canon::else_json(else_body)),
        ],
        StmtV::New { name, vmod, ctor, args, .. } => seq![
            canon::member("name"@, JsonV::Str(name)),
            canon::member("vmod"@, JsonV::Str(vmod)),
            canon::member("ctor"@, JsonV::Str(ctor)),
            canon::member("args"@, canon::args_json(args)),
        ],
        StmtV::Expr { expr, .. } => seq![canon::member("expr"@, canon::expr_json(expr))],
    }
}

proof fn lemma_members(a: StmtV, b: StmtV)
    requires
        canon::stmt_json(a) == canon::stmt_json(b),
    ensures
        compare::same_stmt_kind(a, b),
        members(a) == members(b),
{
    if !compare::same_stmt_kind(a, b) {
        exactness::lemma_stmt_kinds(a, b);
    }
    let (t, u) = (compare::stmt_kind(a), compare::stmt_kind(b));
    assert(canon::stmt_json(a) == canon::tagged(t, members(a)));
    assert(canon::stmt_json(b) == canon::tagged(u, members(b)));
    exactness::lemma_tagged(t, members(a), u, members(b));
}

proof fn lemma_stmt(a: StmtV, b: StmtV)
    requires
        lowest_stmt(a),
        lowest_stmt(b),
        canon::stmt_json(a) == canon::stmt_json(b),
    ensures
        layout::bare_stmt(a) == layout::bare_stmt(b),
    decreases a, 0nat,
{
    lemma_members(a, b);
    let (x, y) = (members(a), members(b));
    assert(x[0] == y[0]);
    match (a, b) {
        (
            StmtV::Assign { lhs: la, rhs: ra, .. },
            StmtV::Assign { lhs: lb, rhs: rb, .. },
        ) => {
            assert(x[1] == y[1]);
            exactness::lemma_strs(la, lb);
            lemma_expr(ra, rb);
        },
        (StmtV::Unset { lhs: la, .. }, StmtV::Unset { lhs: lb, .. }) => {
            exactness::lemma_strs(la, lb);
        },
        (StmtV::Return { action: xa, .. }, StmtV::Return { action: xb, .. }) => {
            lemma_action(xa, xb);
            match (xa, xb) {
                (Some(v), Some(w)) => lemma_exprs(v.args, w.args),
                _ => {},
            }
        },
        (StmtV::Synthetic { value: va, .. }, StmtV::Synthetic { value: vb, .. }) => {
            lemma_expr(va, vb);
        },
        (
            StmtV::If { arms: xa, else_body: ea, .. },
            StmtV::If { arms: xb, else_body: eb, .. },
        ) => {
            assert(x[1] == y[1]);
            lemma_arms(xa, xb);
            match (ea, eb) {
                (Some(v), Some(w)) => lemma_stmts(v, w),
                _ => {},
            }
        },
        (StmtV::New { args: xa, .. }, StmtV::New { args: xb, .. }) => {
            assert(x[1] == y[1] && x[2] == y[2] && x[3] == y[3]);
            lemma_args(xa, xb);
        },
        (StmtV::Expr { expr: xa, .. }, StmtV::Expr { expr: xb, .. }) => {
            lemma_expr(xa, xb);
        },
        _ => {},
    }
}

proof fn lemma_stmts(a: Seq<StmtV>, b: Seq<StmtV>)
    requires
        lowest_stmts(a),
        lowest_stmts(b),
        canon::stmts_json(a) == canon::stmts_json(b),
    ensures
        layout::bare_stmts(a) == layout::bare_stmts(b),
    decreases a, 0nat,
{
    let x = canon::stmts_json(a)->Array_0;
    let y = canon::stmts_json(b)->Array_0;
    assert(x.len() == a.len() && y.len() == b.len());
    assert forall|i: int| 0 <= i < a.len() implies layout::bare_stmts(a)[i] == layout::bare_stmts(
        b,
    )[i] by {
        assert(x[i] == y[i]);
        lemma_stmt(a[i], b[i]);
    }
    assert(layout::bare_stmts(a) =~= layout::bare_stmts(b));
}

proof fn lemma_arm(a: ArmV, b: ArmV)
    requires
        lowest_arm(a),
        lowest_arm(b),
        canon::arm_json(a) == canon::arm_json(b),
    ensures
        layout::bare_arm(a) == layout::bare_arm(b),
    decreases a, 0nat,
{
    exactness::lemma_arm(a, b);
    lemma_expr(a.cond, b.cond);
    lemma_stmts(a.body, b.body);
}

proof fn lemma_arms(a: Seq<ArmV>, b: Seq<ArmV>)
    requires
        lowest_arms(a),
        lowest_arms(b),
        canon::arms_json(a) == canon::arms_json(b),
    ensures
        layout::bare_arms(a) == layout::bare_arms(b),
    decreases a, 0nat,
{
    let x = canon::arms_json(a)->Array_0;
    let y = canon::arms_json(b)->Array_0;
    assert(x.len() == a.len() && y.len() == b.len());
    assert forall|i: int| 0 <= i < a.len() implies layout::bare_arms(a)[i] == layout::bare_arms(
        b,
    )[i] by {
        assert(x[i] == y[i]);
        lemma_arm(a[i], b[i]);
    }
    assert(layout::bare_arms(a) =~= layout::bare_arms(b));
}

// ───────────────────────── declarations ─────────────────────────

spec fn value_tag(v: FieldValueV) -> Seq<char> {
    match v {
        FieldValueV::Expr(_) => "expr"@,
        FieldValueV::Probe(_) => "probe"@,
        FieldValueV::ProbeRef(_) => "probe_ref"@,
        FieldValueV::StringList(_) => "string_list"@,
    }
}

spec fn value_held(v: FieldValueV) -> JsonV {
    match v {
        FieldValueV::Expr(e) => canon::expr_json(e),
        FieldValueV::Probe(fs) => canon::fields_json(fs),
        FieldValueV::ProbeRef(n) => JsonV::Str(n),
        FieldValueV::StringList(l) => canon::strs_json(l),
    }
}

proof fn lemma_value(a: FieldValueV, b: FieldValueV)
    requires
        lowest_value(a),
        lowest_value(b),
        canon::field_value_json(a) == canon::field_value_json(b),
    ensures
        layout::bare_value(a) == layout::bare_value(b),
    decreases a, 0nat,
{
    reveal_strlit("expr");
    reveal_strlit("probe");
    reveal_strlit("probe_ref");
    reveal_strlit("string_list");
    assert("expr"@.len() == 4 && "probe"@.len() == 5 && "probe_ref"@.len() == 9);
    assert("string_list"@.len() == 11);
    assert(canon::field_value_json(a) == canon::holding(value_tag(a), value_held(a)));
    assert(canon::field_value_json(b) == canon::holding(value_tag(b), value_held(b)));
    lemma_holding(value_tag(a), value_held(a), value_tag(b), value_held(b));
    match (a, b) {
        (FieldValueV::Expr(x), FieldValueV::Expr(y)) => lemma_expr(x, y),
        (FieldValueV::Probe(x), FieldValueV::Probe(y)) => lemma_fields(x, y),
        (FieldValueV::StringList(x), FieldValueV::StringList(y)) => exactness::lemma_strs(x, y),
        _ => {},
    }
}

proof fn lemma_field(a: FieldV, b: FieldV)
    requires
        lowest_field(a),
        lowest_field(b),
        canon::field_json(a) == canon::field_json(b),
    ensures
        layout::bare_field(a) == layout::bare_field(b),
    decreases a, 0nat,
{
    exactness::lemma_two(
        "name"@,
        JsonV::Str(a.name),
        JsonV::Str(b.name),
        "value"@,
        canon::field_value_json(a.value),
        canon::field_value_json(b.value),
    );
    lemma_value(a.value, b.value);
}

proof fn lemma_fields(a: Seq<FieldV>, b: Seq<FieldV>)
    requires
        lowest_fields(a),
        lowest_fields(b),
        canon::fields_json(a) == canon::fields_json(b),
    ensures
        layout::bare_fields(a) == layout::bare_fields(b),
    decreases a, 0nat,
{
    let x = canon::fields_json(a)->Array_0;
    let y = canon::fields_json(b)->Array_0;
    assert(x.len() == a.len() && y.len() == b.len());
    assert forall|i: int| 0 <= i < a.len() implies layout::bare_fields(a)[i] == layout::bare_fields(
        b,
    )[i] by {
        assert(x[i] == y[i]);
        lemma_field(a[i], b[i]);
    }
    assert(layout::bare_fields(a) =~= layout::bare_fields(b));
}

proof fn lemma_entries(a: Seq<AclEntryV>, b: Seq<AclEntryV>)
    requires
        canon::acl_entries_json(a) == canon::acl_entries_json(b),
    ensures
        layout::bare_entries(a) == layout::bare_entries(b),
{
    let x = canon::acl_entries_json(a)->Array_0;
    let y = canon::acl_entries_json(b)->Array_0;
    assert(x.len() == a.len() && y.len() == b.len());
    assert forall|i: int| 0 <= i < a.len() implies layout::bare_entries(a)[i]
        == layout::bare_entries(b)[i] by {
        assert(x[i] == y[i]);
        exactness::lemma_entry(a[i], b[i]);
    }
    assert(layout::bare_entries(a) =~= layout::bare_entries(b));
}

/// The members of a declaration behind its kind.
spec fn parts(d: DeclV) -> Seq<MemberV> {
    match d {
        DeclV::Import { name, from, .. } => seq![
            canon::member("name"@, JsonV::Str(name)),
            canon::member("from"@, canon::opt_str_json(from)),
        ],
        DeclV::Backend { name, none, body, .. } => seq![
            canon::member("name"@, JsonV::Str(name)),
            canon::member("none"@, JsonV::Bool(none)),
            canon::member("body"@, canon::body_json(body)),
        ],
        DeclV::Probe { name, body, .. } => seq![
            canon::member("name"@, JsonV::Str(name)),
            canon::member("body"@, canon::fields_json(body)),
        ],
        DeclV::Acl { name, entries, .. } => seq![
            canon::member("name"@, JsonV::Str(name)),
            canon::member("entries"@, canon::acl_entries_json(entries)),
        ],
        DeclV::Sub { name, body, .. } => seq![
            canon::member("name"@, JsonV::Str(name)),
            canon::member("body"@, canon::stmts_json(body)),
        ],
    }
}

proof fn lemma_decl(a: DeclV, b: DeclV)
    requires
        lowest_decl(a),
        lowest_decl(b),
        canon::decl_json(a) == canon::decl_json(b),
    ensures
        layout::bare_decl(a) == layout::bare_decl(b),
{
    if !compare::same_decl_kind(a, b) {
        exactness::lemma_decl_kinds(a, b);
    }
    let (t, u) = (compare::decl_kind(a), compare::decl_kind(b));
    let (x, y) = (parts(a), parts(b));
    assert(canon::decl_json(a) == canon::tagged(t, x));
    assert(canon::decl_json(b) == canon::tagged(u, y));
    exactness::lemma_tagged(t, x, u, y);
    assert(x[0] == y[0] && x[1] == y[1]);
    match (a, b) {
        (DeclV::Backend { body: xa, .. }, DeclV::Backend { body: xb, .. }) => {
            assert(x[2] == y[2]);
            match (xa, xb) {
                (Some(v), Some(w)) => lemma_fields(v, w),
                _ => {},
            }
        },
        (DeclV::Probe { body: xa, .. }, DeclV::Probe { body: xb, .. }) => lemma_fields(xa, xb),
        (DeclV::Acl { entries: xa, .. }, DeclV::Acl { entries: xb, .. }) => lemma_entries(xa, xb),
        (DeclV::Sub { body: xa, .. }, DeclV::Sub { body: xb, .. }) => lemma_stmts(xa, xb),
        _ => {},
    }
}

proof fn lemma_decls(a: Seq<DeclV>, b: Seq<DeclV>)
    requires
        lowest_decls(a),
        lowest_decls(b),
        canon::decls_json(a) == canon::decls_json(b),
    ensures
        layout::bare_decls(a) == layout::bare_decls(b),
{
    let x = canon::decls_json(a)->Array_0;
    let y = canon::decls_json(b)->Array_0;
    assert(x.len() == a.len() && y.len() == b.len());
    assert forall|i: int| 0 <= i < a.len() implies layout::bare_decls(a)[i] == layout::bare_decls(
        b,
    )[i] by {
        assert(x[i] == y[i]);
        lemma_decl(a[i], b[i]);
    }
    assert(layout::bare_decls(a) =~= layout::bare_decls(b));
}

/// Two programs whose durations are in lowest terms have one canonical form
/// exactly where their declarations are the same but for their places: the form
/// keeps all that they say.
pub proof fn law_canonical_form_tells_all(p: ProgramV, q: ProgramV)
    requires
        lowest_decls(p.decls),
        lowest_decls(q.decls),
    ensures
        canon::program_json(p) == canon::program_json(q) <==> layout::bare_decls(p.decls)
            == layout::bare_decls(q.decls),
{
    let (x, y) = (canon::program_json(p)->Object_0, canon::program_json(q)->Object_0);
    if canon::program_json(p) == canon::program_json(q) {
        assert(x[2] == y[2]);
        lemma_decls(p.decls, q.decls);
    }
    layout::law_canonical_form_has_no_places(p);
    layout::law_canonical_form_has_no_places(q);
}

} // verus!
