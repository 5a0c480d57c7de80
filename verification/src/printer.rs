//! The canonical text of a program: four spaces of indentation, one statement
//! per line, durations in seconds and sizes in bytes, comments where they
//! stood.

use crate::ast;
use crate::ast::{
    AclEntry, AclEntryV, Arg, ArgV, ArmV, BinOp, CommentMap, CommentMapV, CommentV, Decl, DeclV,
    Expr, ExprV, Field, FieldV, FieldValue, FieldValueV, LeadingComment, Program, ProgramV, Span,
    Stmt, StmtV, UnOp,
};
use crate::decimal::{Decimal, DecimalV};
use crate::text;
use vstd::prelude::*;
use vstd::string::*;
use vstd::utf8::*;

pub mod shown;

verus! {

// ───────────────────────── expressions ─────────────────────────

/// A string literal: in quotes, or in long quotes where it holds a quote or a
/// newline.
pub open spec fn string_text(s: Seq<char>) -> Seq<char> {
    if s.contains('"') || s.contains('\n') {
        "{\""@ + s + "\""@ + "}"@
    } else {
        "\""@ + s + "\""@
    }
}

/// A duration in seconds; a whole number is cut at `u64::MAX`.
pub open spec fn duration_text(d: DecimalV) -> Seq<char> {
    if d.scale == 0 {
        text::nat_text(ast::least(d.num, u64::MAX as nat)) + "s"@
    } else {
        d.text() + "s"@
    }
}

pub open spec fn unary_text(op: UnOp) -> Seq<char> {
    match op {
        UnOp::Not => "!"@,
        UnOp::Neg => "-"@,
    }
}

pub open spec fn binary_text(op: BinOp) -> Seq<char> {
    match op {
        BinOp::Eq => "=="@,
        BinOp::Ne => "!="@,
        BinOp::Match => "~"@,
        BinOp::NotMatch => "!~"@,
        BinOp::Lt => "<"@,
        BinOp::Le => "<="@,
        BinOp::Gt => ">"@,
        BinOp::Ge => ">="@,
        BinOp::And => "&&"@,
        BinOp::Or => "||"@,
        BinOp::Add => "+"@,
        BinOp::Sub => "-"@,
        BinOp::Mul => "*"@,
        BinOp::Div => "/"@,
    }
}

/// An operand: a binary expression stands in parentheses.
pub open spec fn operand_text(e: ExprV, t: Seq<char>) -> Seq<char> {
    if e is Binary {
        "("@ + t + ")"@
    } else {
        t
    }
}

/// An expression on one line.
pub open spec fn expr_text(e: ExprV) -> Seq<char>
    decreases e, 0nat,
{
    match e {
        ExprV::Str(s) => string_text(s),
        ExprV::Num(n) => n,
        ExprV::Duration(d) => duration_text(d),
        ExprV::Bytes(n) => text::nat_text(n as nat) + "B"@,
        ExprV::Bool(b) => if b {
            "true"@
        } else {
            "false"@
        },
        ExprV::Omitted => seq![],
        ExprV::CSource(c) => "C{"@ + c + "}C"@,
        ExprV::Var(parts) => text::join(parts, "."@),
        ExprV::Call { target, args } => text::join(target, "."@) + "("@ + text::join(
            arg_texts(args, "="@, args.len()),
            ", "@,
        ) + ")"@,
        ExprV::Unary { op, expr } => unary_text(op) + operand_text(*expr, expr_text(*expr)),
        ExprV::Binary { op, lhs, rhs } => operand_text(*lhs, expr_text(*lhs)) + " "@
            + binary_text(op) + " "@ + operand_text(*rhs, expr_text(*rhs)),
    }
}

/// The first `n` arguments, without those left out; `sep` stands behind the
/// name of a named one.
pub open spec fn arg_texts(args: Seq<ArgV>, sep: Seq<char>, n: nat) -> Seq<Seq<char>>
    decreases args, n,
{
    if n == 0 || n > args.len() {
        seq![]
    } else {
        let a = args[n - 1];
        let done = arg_texts(args, sep, (n - 1) as nat);
        if a.value is Omitted {
            done
        } else {
            done.push(
                match a.name {
                    Some(name) => name + sep + expr_text(a.value),
                    None => expr_text(a.value),
                },
            )
        }
    }
}

/// An argument: its name, where it has one, and its value.
pub open spec fn arg_text(a: ArgV, sep: Seq<char>) -> Seq<char> {
    match a.name {
        Some(name) => name + sep + expr_text(a.value),
        None => expr_text(a.value),
    }
}

fn glue(a: &str, b: &str, c: &str) -> (r: String)
    ensures
        r@ == a@ + b@ + c@,
{
    let mut s = a.to_string();
    s.append(b);
    s.append(c);
    s
}

fn format_string(s: &str) -> (r: String)
    ensures
        r@ == string_text(s@),
{
    if text::contains_char(s, '"') || text::contains_char(s, '\n') {
        let mut t = glue("{\"", s, "\"");
        t.append("}");
        t
    } else {
        glue("\"", s, "\"")
    }
}

fn format_duration(d: &Decimal) -> (r: String)
    ensures
        r@ == duration_text(d@),
{
    let mut s = if d.is_whole() {
        let n: u64 = d.floor();
        assert(crate::decimal::pow10(0) == 1);
        assert(d@.num / 1 == d@.num);
        text::u64_text(n)
    } else {
        d.text()
    };
    s.append("s");
    s
}

fn unary_str(op: UnOp) -> (r: &'static str)
    ensures
        r@ == unary_text(op),
{
    match op {
        UnOp::Not => "!",
        UnOp::Neg => "-",
    }
}

fn binary_str(op: BinOp) -> (r: &'static str)
    ensures
        r@ == binary_text(op),
{
    match op {
        BinOp::Eq => "==",
        BinOp::Ne => "!=",
        BinOp::Match => "~",
        BinOp::NotMatch => "!~",
        BinOp::Lt => "<",
        BinOp::Le => "<=",
        BinOp::Gt => ">",
        BinOp::Ge => ">=",
        BinOp::And => "&&",
        BinOp::Or => "||",
        BinOp::Add => "+",
        BinOp::Sub => "-",
        BinOp::Mul => "*",
        BinOp::Div => "/",
    }
}

/// Prints an expression on one line.
pub fn expr_to_string(e: &Expr) -> (r: String)
    ensures
        r@ == expr_text(e@),
    decreases e, 1nat,
{
    match e {
        Expr::Str(s) => format_string(s.as_str()),
        Expr::Num(n) => n.clone(),
        Expr::Duration(d) => format_duration(d),
        Expr::Bytes(n) => {
            let mut s = text::u64_text(*n);
            s.append("B");
            s
        },
        Expr::Bool(b) => if *b {
            "true".to_string()
        } else {
            "false".to_string()
        },
        Expr::Omitted => String::new(),
        Expr::CSource(c) => glue("C{", c.as_str(), "}C"),
        Expr::Var(parts) => text::join_strings(parts, "."),
        Expr::Call { target, args } => {
            let list = args_to_strings(args, "=");
            let mut s = text::join_strings(target, ".");
            s.append("(");
            s.append(text::join_strings(&list, ", ").as_str());
            s.append(")");
            s
        },
        Expr::Unary { op, expr } => {
            let mut s = unary_str(*op).to_string();
            s.append(operand_to_string(expr).as_str());
            s
        },
        Expr::Binary { op, lhs, rhs } => {
            let mut s = operand_to_string(lhs);
            s.append(" ");
            s.append(binary_str(*op));
            s.append(" ");
            s.append(operand_to_string(rhs).as_str());
            s
        },
    }
}

fn operand_to_string(e: &Expr) -> (r: String)
    ensures
        r@ == operand_text(e@, expr_text(e@)),
    decreases e, 2nat,
{
    let t = expr_to_string(e);
    if matches!(e, Expr::Binary { .. }) {
        glue("(", t.as_str(), ")")
    } else {
        t
    }
}

fn arg_to_string(a: &Arg, sep: &str) -> (r: String)
    ensures
        r@ == arg_text(a@, sep@),
    decreases a, 0nat,
{
    let v = expr_to_string(&a.value);
    match &a.name {
        Some(n) => glue(n.as_str(), sep, v.as_str()),
        None => v,
    }
}

/// The arguments, without those left out.
fn args_to_strings(args: &Vec<Arg>, sep: &str) -> (r: Vec<String>)
    ensures
        text::texts(r@) == arg_texts(ast::args_view(args@), sep@, args@.len()),
    decreases args, 0nat,
{
    let mut out: Vec<String> = Vec::new();
    let mut i: usize = 0;
    assert(text::texts(out@) =~= Seq::<Seq<char>>::empty());
    while i < args.len()
        invariant
            i <= args.len(),
            text::texts(out@) == arg_texts(ast::args_view(args@), sep@, i as nat),
        decreases args.len() - i,
    {
        if !matches!(args[i].value, Expr::Omitted) {
            let t = arg_to_string(&args[i], sep);
            proof {
                text::lemma_texts_push(out@, t);
            }
            out.push(t);
        }
        i += 1;
    }
    out
}

// ───────────────────────── statements on one line ─────────────────────────

/// A `return` without its indentation and semicolon.
pub open spec fn return_text(action: Option<ast::ReturnActionV>) -> Seq<char> {
    match action {
        None => "return"@,
        Some(a) => if a.args.len() == 0 {
            "return ("@ + a.name + ")"@
        } else {
            "return ("@ + a.name + " ("@ + text::join(expr_texts(a.args), ", "@) + "))"@
        },
    }
}

pub open spec fn expr_texts(es: Seq<ExprV>) -> Seq<Seq<char>> {
    Seq::new(es.len(), |i: int| expr_text(es[i]))
}

/// A statement in short, on one line; the bodies of an `if` are left out.
pub open spec fn stmt_text(s: StmtV) -> Seq<char> {
    match s {
        StmtV::Assign { lhs, rhs, .. } => "set "@ + text::join(lhs, "."@) + " = "@ + expr_text(rhs),
        StmtV::Unset { lhs, .. } => "unset "@ + text::join(lhs, "."@),
        StmtV::Call { sub, .. } => "call "@ + sub,
        StmtV::Return { action, .. } => return_text(action),
        StmtV::Synthetic { value, .. } => "synthetic ("@ + expr_text(value) + ")"@,
        StmtV::If { arms, else_body, .. } => {
            let cond = if arms.len() > 0 {
                expr_text(arms[0].cond)
            } else {
                seq![]
            };
            if arms.len() == 1 && else_body is None {
                "if ("@ + cond + ") { ... }"@
            } else {
                "if ("@ + cond + ") { ... } [else ...]"@
            }
        },
        StmtV::New { name, vmod, ctor, args, .. } => "new "@ + name + " = "@ + vmod + "."@ + ctor
            + "("@ + text::join(arg_texts(args, "="@, args.len()), ", "@) + ")"@,
        StmtV::Expr { expr, .. } => expr_text(expr),
    }
}

fn return_to_string(action: &Option<ast::ReturnAction>) -> (r: String)
    ensures
        r@ == return_text(ast::opt_action_view(*action)),
{
    match action {
        None => "return".to_string(),
        Some(a) => {
            let mut list: Vec<String> = Vec::new();
            let mut i: usize = 0;
            while i < a.args.len()
                invariant
                    i <= a.args.len(),
                    list.len() == i,
                    forall|j: int| 0 <= j < i ==> (#[trigger] list@[j])@ == expr_text(
                        ast::expr_view(a.args@[j]),
                    ),
                decreases a.args.len() - i,
            {
                list.push(expr_to_string(&a.args[i]));
                i += 1;
            }
            assert(text::texts(list@) =~= expr_texts(ast::exprs_view(a.args@)));
            if list.len() == 0 {
                glue("return (", a.name.as_str(), ")")
            } else {
                let mut s = glue("return (", a.name.as_str(), " (");
                s.append(text::join_strings(&list, ", ").as_str());
                s.append("))");
                s
            }
        },
    }
}

/// Prints a statement in short, on one line.
pub fn stmt_to_string(s: &Stmt) -> (r: String)
    ensures
        r@ == stmt_text(s@),
{
    match s {
        Stmt::Assign { lhs, rhs, .. } => {
            let mut t = glue("set ", text::join_strings(&lhs.parts, ".").as_str(), " = ");
            t.append(expr_to_string(rhs).as_str());
            t
        },
        Stmt::Unset { lhs, .. } => {
            let mut t = "unset ".to_string();
            t.append(text::join_strings(&lhs.parts, ".").as_str());
            t
        },
        Stmt::Call { sub, .. } => {
            let mut t = "call ".to_string();
            t.append(sub.as_str());
            t
        },
        Stmt::Return { action, .. } => return_to_string(action),
        Stmt::Synthetic { value, .. } => glue("synthetic (", expr_to_string(value).as_str(), ")"),
        Stmt::If { arms, else_body, .. } => {
            assert(arms@.len() > 0 ==> ast::arms_view(arms@)[0] == ast::arm_view(arms@[0]));
            let cond = if arms.len() > 0 {
                expr_to_string(&arms[0].0)
            } else {
                String::new()
            };
            if arms.len() == 1 && else_body.is_none() {
                glue("if (", cond.as_str(), ") { ... }")
            } else {
                glue("if (", cond.as_str(), ") { ... } [else ...]")
            }
        },
        Stmt::New { name, vmod, ctor, args, .. } => {
            let mut t = glue("new ", name.as_str(), " = ");
            t.append(vmod.as_str());
            t.append(".");
            t.append(ctor.as_str());
            t.append("(");
            t.append(text::join_strings(&args_to_strings(args, "="), ", ").as_str());
            t.append(")");
            t
        },
        Stmt::Expr { expr, .. } => expr_to_string(expr),
    }
}

// ───────────────────────── comments ─────────────────────────

/// When a blank line stands before an item that is not the first one.
pub enum BlankRule {
    /// Always: declarations.
    Always,
    /// Where the item has comments before it: statements, fields, addresses.
    IfLeading,
    /// Never: arguments.
    Never,
}

/// The indentation one level deeper.
pub open spec fn deeper(ind: Seq<char>) -> Seq<char> {
    ind + "    "@
}

/// How many spaces and tabs a line starts with, from `i` on.
pub open spec fn margin(l: Seq<char>, i: nat) -> nat
    decreases l.len() - i,
{
    if i < l.len() && (l[i as int] == ' ' || l[i as int] == '\t') {
        margin(l, i + 1)
    } else {
        i
    }
}

/// The smallest margin among the first `n` lines that are not blank.
pub open spec fn least_margin(lines: Seq<Seq<char>>, n: nat) -> Option<nat>
    decreases n,
{
    if n == 0 {
        None
    } else {
        let done = least_margin(lines, (n - 1) as nat);
        let l = lines[n - 1];
        if text::blank(l) {
            done
        } else {
            match done {
                None => Some(margin(l, 0)),
                Some(m) => Some(ast::least(m, margin(l, 0))),
            }
        }
    }
}

/// A line without its first `n` bytes; where they do not end at a character,
/// without its leading white space.
pub open spec fn cut_margin(l: Seq<char>, n: nat) -> Seq<char> {
    let b = encode_utf8(l);
    if is_char_boundary(b, n as int) {
        text::text_of(b, n as int, b.len() as int)
    } else {
        l.subrange(text::next_word(l, 0) as int, l.len() as int)
    }
}

/// The lines of a comment. A comment of several lines moves as a whole: its
/// further lines lose the margin that they share.
pub open spec fn comment_lines(c: CommentV, margin: Seq<char>) -> Seq<Seq<char>> {
    let ind = if c.unindented {
        seq![]
    } else {
        margin
    };
    if !c.text.contains('\n') {
        seq![ind + c.text]
    } else {
        let lines = text::split_from(c.text, '\n', 0);
        let rest = lines.subrange(1, lines.len() as int);
        let m = match least_margin(rest, rest.len()) {
            Some(m) => m,
            None => 0,
        };
        seq![ind + lines[0]] + Seq::new(rest.len(), |i: int| ind + cut_margin(rest[i], m))
    }
}

/// The lines of the first `n` comments.
pub open spec fn block_lines(cs: Seq<CommentV>, ind: Seq<char>, n: nat) -> Seq<Seq<char>>
    decreases n,
{
    if n == 0 {
        seq![]
    } else {
        block_lines(cs, ind, (n - 1) as nat) + comment_lines(cs[n - 1], ind)
    }
}

/// A text with spaces for its newlines.
pub open spec fn one_line(t: Seq<char>) -> Seq<char> {
    Seq::new(
        t.len(),
        |i: int|
            if t[i] == '\n' {
                ' '
            } else {
                t[i]
            },
    )
}

/// The lines of an item with its trailing comment on the first one.
pub open spec fn with_trailing(core: Seq<Seq<char>>, trailing: Option<Seq<char>>) -> Seq<
    Seq<char>,
> {
    match trailing {
        Some(t) => if core.len() > 0 {
            core.update(0, core[0] + "  "@ + one_line(t))
        } else {
            core
        },
        None => core,
    }
}

/// The lines of an item with its comments around them.
pub open spec fn item_lines(
    cm: CommentMapV,
    span: Span,
    ind: Seq<char>,
    first: bool,
    rule: BlankRule,
    core: Seq<Seq<char>>,
) -> Seq<Seq<char>> {
    let c = ast::comments_at(cm, span);
    let gap = !first && match rule {
        BlankRule::Always => true,
        BlankRule::IfLeading => c.leading.len() > 0,
        BlankRule::Never => false,
    };
    let head = if gap {
        seq![Seq::<char>::empty()]
    } else {
        seq![]
    };
    let tail = if c.after.len() > 0 {
        seq![Seq::<char>::empty()] + block_lines(c.after, ind, c.after.len())
    } else {
        seq![]
    };
    head + block_lines(c.leading, ind, c.leading.len()) + with_trailing(core, c.trailing) + tail
}

fn push_line(lines: &mut Vec<String>, t: String)
    ensures
        text::texts(final(lines)@) == text::texts(old(lines)@).push(t@),
{
    proof {
        text::lemma_texts_push(lines@, t);
    }
    lines.push(t);
}

fn push_lines(lines: &mut Vec<String>, more: Vec<String>)
    ensures
        text::texts(final(lines)@) == text::texts(old(lines)@) + text::texts(more@),
{
    let mut m = more;
    proof {
        text::lemma_texts_add(lines@, m@);
    }
    lines.append(&mut m);
}

fn no_lines() -> (r: Vec<String>)
    ensures
        text::texts(r@) == Seq::<Seq<char>>::empty(),
{
    let v: Vec<String> = Vec::new();
    assert(text::texts(v@) =~= Seq::<Seq<char>>::empty());
    v
}

fn one(t: String) -> (r: Vec<String>)
    ensures
        text::texts(r@) == seq![t@],
{
    let mut v: Vec<String> = no_lines();
    push_line(&mut v, t);
    assert(text::texts(v@) =~= seq![t@]);
    v
}

/// How many spaces and tabs a line starts with.
fn margin_of(l: &str) -> (r: usize)
    ensures
        r == margin(l@, 0),
{
    let v = text::to_chars(l);
    let mut i: usize = 0;
    while i < v.len() && (v[i] == ' ' || v[i] == '\t')
        invariant
            v@ == l@,
            i <= v.len(),
            margin(l@, i as nat) == margin(l@, 0),
        decreases v.len() - i,
    {
        i += 1;
    }
    i
}

fn is_blank(l: &str) -> (r: bool)
    ensures
        r == text::blank(l@),
{
    let v = text::to_chars(l);
    let mut i: usize = 0;
    while i < v.len()
        invariant
            v@ == l@,
            i <= v.len(),
            forall|j: int| 0 <= j < i ==> text::white_space(#[trigger] l@[j]),
        decreases v.len() - i,
    {
        if !text::is_white_space(v[i]) {
            assert(!text::white_space(l@[i as int]));
            return false;
        }
        i += 1;
    }
    true
}

fn without_margin(l: &str, n: usize) -> (r: String)
    ensures
        r@ == cut_margin(l@, n as nat),
{
    proof {
        encode_utf8_valid_utf8(l@);
        is_char_boundary_start_end_of_seq(l.spec_bytes());
    }
    let len: usize = l.as_bytes().len();
    if l.is_char_boundary(n) {
        proof {
            lemma_boundary_inside(l.spec_bytes(), n as int);
        }
        return text::slice_text(l, n, len);
    }
    let v = text::to_chars(l);
    let mut i: usize = 0;
    while i < v.len() && text::is_white_space(v[i])
        invariant
            v@ == l@,
            i <= v.len(),
            text::next_word(l@, i as nat) == text::next_word(l@, 0),
        decreases v.len() - i,
    {
        i += 1;
    }
    text::from_chars(&v, i, v.len())
}

pub(crate) proof fn lemma_boundary_inside(b: Seq<u8>, n: int)
    requires
        valid_utf8(b),
        is_char_boundary(b, n),
    ensures
        0 <= n <= b.len(),
{
    reveal_with_fuel(is_char_boundary, 2);
}

/// Adds the lines of a comment.
fn render_comment_block(out: &mut Vec<String>, margin: &str, c: &LeadingComment)
    ensures
        text::texts(final(out)@) == text::texts(old(out)@) + comment_lines(c@, margin@),
{
    let ghost before = text::texts(out@);
    let ind = if c.unindented {
        String::new()
    } else {
        margin.to_string()
    };
    if !text::contains_char(c.text.as_str(), '\n') {
        push_line(out, glue(ind.as_str(), c.text.as_str(), ""));
        proof {
            reveal_strlit("");
            assert(ind@ + c.text@ + ""@ =~= ind@ + c.text@);
            assert(text::texts(out@) =~= before + comment_lines(c@, margin@));
        }
        return;
    }
    let lines = text::split_char(c.text.as_str(), '\n');
    let ghost lv = text::texts(lines@);
    let ghost rest = lv.subrange(1, lv.len() as int);
    let mut least: Option<usize> = None;
    let mut i: usize = 1;
    while i < lines.len()
        invariant
            1 <= i <= lines.len(),
            lv == text::texts(lines@),
            rest == lv.subrange(1, lv.len() as int),
            match least {
                Some(m) => least_margin(rest, (i - 1) as nat) == Some(m as nat),
                None => least_margin(rest, (i - 1) as nat) is None,
            },
        decreases lines.len() - i,
    {
        assert(rest[i - 1] == lines@[i as int]@);
        if !is_blank(lines[i].as_str()) {
            let m: usize = margin_of(lines[i].as_str());
            least = match least {
                Some(x) => if x <= m {
                    Some(x)
                } else {
                    Some(m)
                },
                None => Some(m),
            };
        }
        i += 1;
    }
    let m: usize = match least {
        Some(x) => x,
        None => 0,
    };
    let ghost more = Seq::new(rest.len(), |j: int| ind@ + cut_margin(rest[j], m as nat));
    push_line(out, glue(ind.as_str(), lines[0].as_str(), ""));
    proof {
        reveal_strlit("");
        assert(ind@ + lv[0] + ""@ =~= ind@ + lv[0]);
        assert(more.take(0) =~= Seq::<Seq<char>>::empty());
        assert(text::texts(out@) =~= before.push(ind@ + lv[0]) + more.take(0));
    }
    let mut k: usize = 1;
    while k < lines.len()
        invariant
            1 <= k <= lines.len(),
            lv == text::texts(lines@),
            rest == lv.subrange(1, lv.len() as int),
            more == Seq::new(rest.len(), |j: int| ind@ + cut_margin(rest[j], m as nat)),
            text::texts(out@) == before.push(ind@ + lv[0]) + more.take(k - 1),
        decreases lines.len() - k,
    {
        assert(rest[k - 1] == lines@[k as int]@);
        let cut = without_margin(lines[k].as_str(), m);
        push_line(out, glue(ind.as_str(), cut.as_str(), ""));
        proof {
            reveal_strlit("");
            assert(ind@ + cut@ + ""@ =~= ind@ + cut@);
            assert(more.take(k as int) =~= more.take(k - 1).push(more[k - 1]));
            assert(text::texts(out@) =~= before.push(ind@ + lv[0]) + more.take(k as int));
        }
        k += 1;
    }
    proof {
        assert(more.take(rest.len() as int) =~= more);
        assert(text::texts(out@) =~= before + comment_lines(c@, margin@));
    }
}

/// Adds the lines of some comments.
fn render_blocks(out: &mut Vec<String>, ind: &str, cs: &Vec<LeadingComment>)
    ensures
        text::texts(final(out)@) == text::texts(old(out)@) + block_lines(
            ast::comments_view(cs@),
            ind@,
            cs@.len(),
        ),
{
    let ghost before = text::texts(out@);
    let ghost cv = ast::comments_view(cs@);
    let mut i: usize = 0;
    assert(text::texts(out@) =~= before + block_lines(cv, ind@, 0));
    while i < cs.len()
        invariant
            i <= cs.len(),
            cv == ast::comments_view(cs@),
            text::texts(out@) == before + block_lines(cv, ind@, i as nat),
        decreases cs.len() - i,
    {
        render_comment_block(out, ind, &cs[i]);
        i += 1;
        assert(text::texts(out@) =~= before + block_lines(cv, ind@, i as nat));
    }
}

fn spaced(t: &str) -> (r: String)
    ensures
        r@ == one_line(t@),
{
    let v = text::to_chars(t);
    let mut s = String::new();
    let mut i: usize = 0;
    assert(s@ =~= one_line(t@).take(0));
    while i < v.len()
        invariant
            v@ == t@,
            i <= v.len(),
            s@ == one_line(t@).take(i as int),
        decreases v.len() - i,
    {
        if v[i] == '\n' {
            s.push(' ');
        } else {
            s.push(v[i]);
        }
        i += 1;
        assert(s@ =~= one_line(t@).take(i as int));
    }
    assert(s@ =~= one_line(t@));
    s
}

/// The lines of an item with its comments around them.
fn wrap_comments(
    cm: &CommentMap,
    span: Span,
    ind: &str,
    first: bool,
    rule: BlankRule,
    core: Vec<String>,
) -> (r: Vec<String>)
    ensures
        text::texts(r@) == item_lines(
            cm@,
            span,
            ind@,
            first,
            rule,
            text::texts(core@),
        ),
{
    let mut lines = core;
    let mut out: Vec<String> = no_lines();
    let always = matches!(rule, BlankRule::Always);
    let ghost c = ast::comments_at(cm@, span);
    match cm.get(span) {
        None => {
            if !first && always {
                push_line(&mut out, String::new());
            }
            push_lines(&mut out, lines);
            proof {
                assert(block_lines(c.leading, ind@, 0) =~= Seq::<Seq<char>>::empty());
                assert(text::texts(out@) =~= item_lines(
                    cm@,
                    span,
                    ind@,
                    first,
                    rule,
                    text::texts(core@),
                ));
            }
            out
        },
        Some(nc) => {
            let gap = match rule {
                BlankRule::Always => true,
                BlankRule::IfLeading => nc.leading.len() > 0,
                BlankRule::Never => false,
            };
            if !first && gap {
                push_line(&mut out, String::new());
            }
            render_blocks(&mut out, ind, &nc.leading);
            if let Some(t) = &nc.trailing {
                if lines.len() > 0 {
                    let ghost old_lines = lines@;
                    let first_line = glue(lines[0].as_str(), "  ", spaced(t.as_str()).as_str());
                    lines.set(0, first_line);
                    assert(text::texts(lines@) =~= text::texts(old_lines).update(
                        0,
                        first_line@,
                    ));
                }
            }
            assert(text::texts(lines@) == with_trailing(text::texts(core@), c.trailing));
            push_lines(&mut out, lines);
            if nc.after.len() > 0 {
                push_line(&mut out, String::new());
                render_blocks(&mut out, ind, &nc.after);
            }
            assert(text::texts(out@) =~= item_lines(
                cm@,
                span,
                ind@,
                first,
                rule,
                text::texts(core@),
            ));
            out
        },
    }
}

/// Whether a node has any comments.
pub open spec fn commented(cm: CommentMapV, span: Span) -> bool {
    let c = ast::comments_at(cm, span);
    c.leading.len() > 0 || c.trailing is Some || c.after.len() > 0
}

fn has_comments(cm: &CommentMap, span: Span) -> (r: bool)
    ensures
        r == commented(cm@, span),
{
    match cm.get(span) {
        Some(c) => c.leading.len() > 0 || c.trailing.is_some() || c.after.len() > 0,
        None => false,
    }
}

// ───────────────────────── statements ─────────────────────────

/// How many of the first `n` arguments are not left out.
pub open spec fn shown(args: Seq<ArgV>, n: nat) -> nat
    decreases n,
{
    if n == 0 {
        0
    } else {
        shown(args, (n - 1) as nat) + if args[n - 1].value is Omitted {
            0nat
        } else {
            1nat
        }
    }
}

/// Whether one of the first `n` arguments is shown and has comments.
pub open spec fn any_commented(args: Seq<ArgV>, cm: CommentMapV, n: nat) -> bool {
    exists|i: int|
        0 <= i < n && !((#[trigger] args[i]).value is Omitted) && commented(cm, args[i].span)
}

/// The first `n` arguments, one on a line.
pub open spec fn arg_lines(
    args: Seq<ArgV>,
    cm: CommentMapV,
    ind: Seq<char>,
    sep: Seq<char>,
    n: nat,
) -> Seq<Seq<char>>
    decreases n,
{
    if n == 0 {
        seq![]
    } else {
        let done = arg_lines(args, cm, ind, sep, (n - 1) as nat);
        let a = args[n - 1];
        if a.value is Omitted {
            done
        } else {
            let comma = if shown(args, n) < shown(args, args.len()) {
                ","@
            } else {
                ""@
            };
            done + item_lines(
                cm,
                a.span,
                ind,
                shown(args, (n - 1) as nat) == 0,
                BlankRule::Never,
                seq![ind + arg_text(a, sep) + comma],
            )
        }
    }
}

/// A call with its semicolon: on one line, or with one argument on a line
/// where an argument has comments.
pub open spec fn call_lines(
    prefix: Seq<char>,
    args: Seq<ArgV>,
    cm: CommentMapV,
    ind: Seq<char>,
    sep: Seq<char>,
) -> Seq<Seq<char>> {
    if !any_commented(args, cm, args.len()) {
        seq![prefix + "("@ + text::join(arg_texts(args, sep, args.len()), ", "@) + ");"@]
    } else {
        seq![prefix + "("@] + arg_lines(args, cm, deeper(ind), sep, args.len()) + seq![
            ind + ");"@,
        ]
    }
}

/// The lines of a statement, without its comments.
pub open spec fn stmt_lines(s: StmtV, ind: Seq<char>, cm: CommentMapV) -> Seq<Seq<char>>
    decreases s, 0nat,
{
    match s {
        StmtV::If { arms, else_body, .. } => arms_lines(
            arms,
            else_body is Some,
            ind,
            cm,
            arms.len(),
        ) + match else_body {
            Some(b) => stmts_lines(b, deeper(ind), cm, b.len()) + seq![ind + "}"@],
            None => seq![],
        },
        StmtV::New { name, vmod, ctor, args, .. } => call_lines(
            ind + "new "@ + name + " = "@ + vmod + "."@ + ctor,
            args,
            cm,
            ind,
            " = "@,
        ),
        StmtV::Expr { expr: ExprV::Call { target, args }, .. } => call_lines(
            ind + text::join(target, "."@),
            args,
            cm,
            ind,
            "="@,
        ),
        StmtV::Expr { expr: ExprV::CSource(_), .. } => seq![ind + stmt_text(s)],
        _ => seq![ind + stmt_text(s) + ";"@],
    }
}

/// The lines of the first `n` arms of an `if`.
pub open spec fn arms_lines(
    arms: Seq<ArmV>,
    has_else: bool,
    ind: Seq<char>,
    cm: CommentMapV,
    n: nat,
) -> Seq<Seq<char>>
    decreases arms, n,
{
    if n == 0 || n > arms.len() {
        seq![]
    } else {
        let a = arms[n - 1];
        let head = if n == 1 {
            "if"@
        } else {
            "else if"@
        };
        let close = if n < arms.len() {
            "} "@
        } else if has_else {
            "} else {"@
        } else {
            "}"@
        };
        arms_lines(arms, has_else, ind, cm, (n - 1) as nat).push(
            ind + head + " ("@ + expr_text(a.cond) + ") {"@,
        ) + stmts_lines(a.body, deeper(ind), cm, a.body.len()).push(ind + close)
    }
}

/// The lines of the first `n` statements, with their comments.
pub open spec fn stmts_lines(stmts: Seq<StmtV>, ind: Seq<char>, cm: CommentMapV, n: nat) -> Seq<
    Seq<char>,
>
    decreases stmts, n,
{
    if n == 0 || n > stmts.len() {
        seq![]
    } else {
        stmts_lines(stmts, ind, cm, (n - 1) as nat) + item_lines(
            cm,
            ast::stmt_span(stmts[n - 1]),
            ind,
            n == 1,
            BlankRule::IfLeading,
            stmt_lines(stmts[n - 1], ind, cm),
        )
    }
}

fn count_shown(args: &Vec<Arg>) -> (r: usize)
    ensures
        r == shown(ast::args_view(args@), args@.len()),
{
    let ghost av = ast::args_view(args@);
    let mut n: usize = 0;
    let mut i: usize = 0;
    while i < args.len()
        invariant
            i <= args.len(),
            n <= i,
            av == ast::args_view(args@),
            n == shown(av, i as nat),
        decreases args.len() - i,
    {
        if !matches!(args[i].value, Expr::Omitted) {
            n += 1;
        }
        i += 1;
    }
    n
}

/// The lines of a call with its semicolon.
fn print_call_like(prefix: &str, args: &Vec<Arg>, cm: &CommentMap, ind: &str, sep: &str) -> (r:
    Vec<String>)
    ensures
        text::texts(r@) == call_lines(prefix@, ast::args_view(args@), cm@, ind@, sep@),
{
    let ghost av = ast::args_view(args@);
    let mut any = false;
    let mut i: usize = 0;
    while i < args.len()
        invariant
            i <= args.len(),
            av == ast::args_view(args@),
            any == any_commented(av, cm@, i as nat),
        decreases args.len() - i,
    {
        if !matches!(args[i].value, Expr::Omitted) && has_comments(cm, args[i].span) {
            any = true;
            assert(!(av[i as int].value is Omitted));
        }
        assert(av[i as int] == ast::arg_view(args@[i as int]));
        i += 1;
    }
    if !any {
        let mut s = glue(
            prefix,
            "(",
            text::join_strings(&args_to_strings(args, sep), ", ").as_str(),
        );
        s.append(");");
        return one(s);
    }
    let total: usize = count_shown(args);
    let inner = glue(ind, "    ", "");
    let mut lines = one(glue(prefix, "(", ""));
    proof {
        reveal_strlit("");
        assert(prefix@ + "("@ + ""@ =~= prefix@ + "("@);
        assert(ind@ + "    "@ + ""@ =~= deeper(ind@));
    }
    let ghost head = seq![prefix@ + "("@];
    let mut k: usize = 0;
    let mut count: usize = 0;
    assert(text::texts(lines@) =~= head + arg_lines(av, cm@, deeper(ind@), sep@, 0));
    while k < args.len()
        invariant
            k <= args.len(),
            av == ast::args_view(args@),
            total == shown(av, av.len()),
            count == shown(av, k as nat),
            count <= k,
            inner@ == deeper(ind@),
            text::texts(lines@) == head + arg_lines(
                av,
                cm@,
                deeper(ind@),
                sep@,
                k as nat,
            ),
        decreases args.len() - k,
    {
        if !matches!(args[k].value, Expr::Omitted) {
            let first = count == 0;
            count += 1;
            let comma = if count < total {
                ","
            } else {
                ""
            };
            let core = one(
                glue(inner.as_str(), arg_to_string(&args[k], sep).as_str(), comma),
            );
            push_lines(
                &mut lines,
                wrap_comments(cm, args[k].span, inner.as_str(), first, BlankRule::Never, core),
            );
        }
        k += 1;
        assert(text::texts(lines@) =~= head + arg_lines(
            av,
            cm@,
            deeper(ind@),
            sep@,
            k as nat,
        ));
    }
    let mut last = ind.to_string();
    last.append(");");
    push_line(&mut lines, last);
    assert(text::texts(lines@) =~= call_lines(prefix@, av, cm@, ind@, sep@));
    lines
}


/// The lines of a statement, without its comments.
fn stmt_to_lines(s: &Stmt, ind: &str, cm: &CommentMap) -> (r: Vec<String>)
    ensures
        text::texts(r@) == stmt_lines(s@, ind@, cm@),
    decreases s, 0nat,
{
    match s {
        Stmt::If { arms, else_body, .. } => {
            let inner = deeper_str(ind);
            let mut lines = arms_to_lines(arms, else_body.is_some(), ind, cm);
            if let Some(b) = else_body {
                push_lines(&mut lines, print_stmts(b, inner.as_str(), cm));
                let mut close = ind.to_string();
                close.append("}");
                push_line(&mut lines, close);
            }
            assert(text::texts(lines@) =~= stmt_lines(s@, ind@, cm@));
            lines
        },
        Stmt::New { name, vmod, ctor, args, .. } => {
            let mut p = glue(ind, "new ", name.as_str());
            p.append(" = ");
            p.append(vmod.as_str());
            p.append(".");
            p.append(ctor.as_str());
            print_call_like(p.as_str(), args, cm, ind, " = ")
        },
        Stmt::Expr { expr: Expr::Call { target, args }, .. } => {
            let mut p = ind.to_string();
            p.append(text::join_strings(target, ".").as_str());
            print_call_like(p.as_str(), args, cm, ind, "=")
        },
        Stmt::Expr { expr: Expr::CSource(_), .. } => {
            let t = stmt_to_string(s);
            proof {
                reveal_strlit("");
                assert(ind@ + t@ + ""@ =~= ind@ + t@);
            }
            one(glue(ind, t.as_str(), ""))
        },
        _ => {
            let t = stmt_to_string(s);
            one(glue(ind, t.as_str(), ";"))
        },
    }
}

fn deeper_str(ind: &str) -> (r: String)
    ensures
        r@ == deeper(ind@),
{
    let mut s = ind.to_string();
    s.append("    ");
    s
}

/// The lines of the arms of an `if`.
fn arms_to_lines(arms: &Vec<(Expr, Vec<Stmt>)>, has_else: bool, ind: &str, cm: &CommentMap) -> (r:
    Vec<String>)
    ensures
        text::texts(r@) == arms_lines(
            ast::arms_view(arms@),
            has_else,
            ind@,
            cm@,
            arms@.len(),
        ),
    decreases arms, 0nat,
{
    let inner = deeper_str(ind);
    let ghost av = ast::arms_view(arms@);
    let mut lines = no_lines();
    let mut i: usize = 0;
    while i < arms.len()
        invariant
            i <= arms.len(),
            av == ast::arms_view(arms@),
            inner@ == deeper(ind@),
            text::texts(lines@) == arms_lines(av, has_else, ind@, cm@, i as nat),
        decreases arms.len() - i,
    {
        let head = if i == 0 {
            "if"
        } else {
            "else if"
        };
        let mut line = glue(ind, head, " (");
        line.append(expr_to_string(&arms[i].0).as_str());
        line.append(") {");
        push_line(&mut lines, line);
        push_lines(&mut lines, print_stmts(&arms[i].1, inner.as_str(), cm));
        let close = if i + 1 < arms.len() {
            "} "
        } else if has_else {
            "} else {"
        } else {
            "}"
        };
        let mut last = ind.to_string();
        last.append(close);
        push_line(&mut lines, last);
        i += 1;
        assert(av[i - 1] == ast::arm_view(arms@[i - 1]));
        assert(text::texts(lines@) =~= arms_lines(av, has_else, ind@, cm@, i as nat));
    }
    lines
}

/// The lines of statements, with their comments.
fn print_stmts(stmts: &Vec<Stmt>, ind: &str, cm: &CommentMap) -> (r: Vec<String>)
    ensures
        text::texts(r@) == stmts_lines(ast::stmts_view(stmts@), ind@, cm@, stmts@.len()),
    decreases stmts, 0nat,
{
    let ghost sv = ast::stmts_view(stmts@);
    let mut lines = no_lines();
    let mut i: usize = 0;
    while i < stmts.len()
        invariant
            i <= stmts.len(),
            sv == ast::stmts_view(stmts@),
            text::texts(lines@) == stmts_lines(sv, ind@, cm@, i as nat),
        decreases stmts.len() - i,
    {
        let core = stmt_to_lines(&stmts[i], ind, cm);
        push_lines(
            &mut lines,
            wrap_comments(cm, stmts[i].span(), ind, i == 0, BlankRule::IfLeading, core),
        );
        i += 1;
        assert(sv[i - 1] == ast::stmt_view(stmts@[i - 1]));
    }
    lines
}

// ───────────────────────── declarations ─────────────────────────

/// Whether an expression is a single name. Such a name stands in parentheses as
/// the value of a field, where the bare name is that of a probe.
pub open spec fn is_word(e: ExprV) -> bool {
    e matches ExprV::Var(parts) && parts.len() == 1
}

/// The value of a field; a probe in place is printed on several lines.
pub open spec fn field_value_text(v: FieldValueV, cm: CommentMapV) -> Seq<char>
    decreases v, 0nat,
{
    match v {
        FieldValueV::Expr(e) => if is_word(e) {
            "("@ + expr_text(e) + ")"@
        } else {
            expr_text(e)
        },
        FieldValueV::ProbeRef(n) => n,
        FieldValueV::StringList(l) => text::join(
            Seq::new(l.len(), |i: int| string_text(l[i])),
            " "@,
        ),
        FieldValueV::Probe(fs) => {
            let inner = fields_lines(fs, "        "@, cm, fs.len());
            "{\n"@ + ended_lines(inner, inner.len()) + "    }"@
        },
    }
}

/// The first `n` lines, each with a newline behind it.
pub open spec fn ended_lines(lines: Seq<Seq<char>>, n: nat) -> Seq<char>
    decreases n,
{
    if n == 0 {
        seq![]
    } else {
        ended_lines(lines, (n - 1) as nat) + lines[n - 1] + "\n"@
    }
}

/// `.name = value;`; a probe in place has no semicolon.
pub open spec fn field_text(f: FieldV, cm: CommentMapV) -> Seq<char>
    decreases f, 0nat,
{
    "."@ + f.name + " = "@ + field_value_text(f.value, cm) + if f.value is Probe {
        ""@
    } else {
        ";"@
    }
}

/// The lines of the first `n` fields, with their comments.
pub open spec fn fields_lines(fs: Seq<FieldV>, ind: Seq<char>, cm: CommentMapV, n: nat) -> Seq<
    Seq<char>,
>
    decreases fs, n,
{
    if n == 0 || n > fs.len() {
        seq![]
    } else {
        fields_lines(fs, ind, cm, (n - 1) as nat) + item_lines(
            cm,
            fs[n - 1].span,
            ind,
            n == 1,
            BlankRule::IfLeading,
            seq![ind + field_text(fs[n - 1], cm)],
        )
    }
}

fn field_value_to_string(v: &FieldValue, cm: &CommentMap) -> (r: String)
    ensures
        r@ == field_value_text(v@, cm@),
    decreases v, 0nat,
{
    match v {
        FieldValue::Expr(e) => {
            let t = expr_to_string(e);
            match e {
                Expr::Var(parts) if parts.len() == 1 => glue("(", t.as_str(), ")"),
                _ => t,
            }
        },
        FieldValue::ProbeRef(n) => n.clone(),
        FieldValue::StringList(l) => {
            let mut list: Vec<String> = Vec::new();
            let mut i: usize = 0;
            while i < l.len()
                invariant
                    i <= l.len(),
                    list.len() == i,
                    forall|j: int| 0 <= j < i ==> (#[trigger] list@[j])@ == string_text(l@[j]@),
                decreases l.len() - i,
            {
                list.push(format_string(l[i].as_str()));
                i += 1;
            }
            let ghost lv = text::texts(l@);
            assert(text::texts(list@) =~= Seq::new(lv.len(), |i: int| string_text(lv[i])));
            text::join_strings(&list, " ")
        },
        FieldValue::Probe(fs) => {
            let inner = print_fields(fs, "        ", cm);
            let ghost iv = text::texts(inner@);
            let mut s = "{\n".to_string();
            let ghost head = s@;
            let mut i: usize = 0;
            assert(s@ =~= head + ended_lines(iv, 0));
            while i < inner.len()
                invariant
                    i <= inner.len(),
                    iv == text::texts(inner@),
                    s@ == head + ended_lines(iv, i as nat),
                decreases inner.len() - i,
            {
                s.append(inner[i].as_str());
                s.append("\n");
                i += 1;
                assert(s@ =~= head + ended_lines(iv, i as nat));
            }
            s.append("    }");
            s
        },
    }
}

fn field_to_string(f: &Field, cm: &CommentMap) -> (r: String)
    ensures
        r@ == field_text(f@, cm@),
    decreases f, 0nat,
{
    let mut s = glue(".", f.name.as_str(), " = ");
    s.append(field_value_to_string(&f.value, cm).as_str());
    if matches!(f.value, FieldValue::Probe(_)) {
        s.append("");
    } else {
        s.append(";");
    }
    s
}

/// The lines of fields, with their comments.
fn print_fields(fs: &Vec<Field>, ind: &str, cm: &CommentMap) -> (r: Vec<String>)
    ensures
        text::texts(r@) == fields_lines(ast::fields_view(fs@), ind@, cm@, fs@.len()),
    decreases fs, 0nat,
{
    let ghost fv = ast::fields_view(fs@);
    let mut lines = no_lines();
    let mut i: usize = 0;
    while i < fs.len()
        invariant
            i <= fs.len(),
            fv == ast::fields_view(fs@),
            text::texts(lines@) == fields_lines(fv, ind@, cm@, i as nat),
        decreases fs.len() - i,
    {
        let mut line = ind.to_string();
        line.append(field_to_string(&fs[i], cm).as_str());
        let core = one(line);
        push_lines(
            &mut lines,
            wrap_comments(cm, fs[i].span, ind, i == 0, BlankRule::IfLeading, core),
        );
        i += 1;
        assert(fv[i - 1] == ast::field_view(fs@[i - 1]));
    }
    lines
}

/// `"addr" / mask;`
pub open spec fn acl_entry_text(e: AclEntryV) -> Seq<char> {
    let neg = if e.negated {
        "!"@
    } else {
        ""@
    };
    match e.mask {
        Some(m) => neg + string_text(e.addr) + " / "@ + text::nat_text(m as nat) + ";"@,
        None => neg + string_text(e.addr) + ";"@,
    }
}

/// The lines of the first `n` addresses, with their comments.
pub open spec fn entries_lines(es: Seq<AclEntryV>, cm: CommentMapV, n: nat) -> Seq<Seq<char>>
    decreases n,
{
    if n == 0 {
        seq![]
    } else {
        entries_lines(es, cm, (n - 1) as nat) + item_lines(
            cm,
            es[n - 1].span,
            "    "@,
            n == 1,
            BlankRule::IfLeading,
            seq!["    "@ + acl_entry_text(es[n - 1])],
        )
    }
}

/// The lines of a declaration, without its comments.
pub open spec fn decl_lines(d: DeclV, cm: CommentMapV) -> Seq<Seq<char>> {
    match d {
        DeclV::Import { name, from, .. } => match from {
            Some(f) => seq!["import "@ + name + " from "@ + string_text(f) + ";"@],
            None => seq!["import "@ + name + ";"@],
        },
        DeclV::Backend { name, none, body, .. } => if none {
            seq!["backend "@ + name + " none;"@]
        } else {
            match body {
                Some(fs) => seq!["backend "@ + name + " {"@] + fields_lines(
                    fs,
                    "    "@,
                    cm,
                    fs.len(),
                ) + seq!["}"@],
                None => seq!["backend "@ + name + " {};"@],
            }
        },
        DeclV::Probe { name, body, .. } => seq!["probe "@ + name + " {"@] + fields_lines(
            body,
            "    "@,
            cm,
            body.len(),
        ) + seq!["}"@],
        DeclV::Acl { name, entries, .. } => seq!["acl "@ + name + " {"@] + entries_lines(
            entries,
            cm,
            entries.len(),
        ) + seq!["}"@],
        DeclV::Sub { name, body, .. } => seq!["sub "@ + name + " {"@] + stmts_lines(
            body,
            "    "@,
            cm,
            body.len(),
        ) + seq!["}"@],
    }
}

/// The lines of the first `n` declarations, with their comments.
pub open spec fn decls_lines(ds: Seq<DeclV>, cm: CommentMapV, n: nat) -> Seq<Seq<char>>
    decreases n,
{
    if n == 0 {
        seq![]
    } else {
        decls_lines(ds, cm, (n - 1) as nat) + item_lines(
            cm,
            ast::decl_span(ds[n - 1]),
            seq![],
            n == 1,
            BlankRule::Always,
            decl_lines(ds[n - 1], cm),
        )
    }
}

/// The lines of a program.
pub open spec fn program_lines(p: ProgramV) -> Seq<Seq<char>> {
    let tail = if p.trailing_comments.len() > 0 {
        seq![Seq::<char>::empty()] + block_lines(
            p.trailing_comments,
            seq![],
            p.trailing_comments.len(),
        )
    } else {
        seq![]
    };
    seq!["vcl 4.1;"@] + decls_lines(p.decls, p.comments, p.decls.len()) + tail
}

/// The canonical text of a program.
pub open spec fn program_text(p: ProgramV) -> Seq<char> {
    text::join(program_lines(p), "\n"@)
}

fn acl_entry_to_string(e: &AclEntry) -> (r: String)
    ensures
        r@ == acl_entry_text(e@),
{
    let neg = if e.negated {
        "!"
    } else {
        ""
    };
    let mut s = neg.to_string();
    s.append(format_string(e.addr.as_str()).as_str());
    if let Some(m) = e.mask {
        s.append(" / ");
        s.append(text::u64_text(m as u64).as_str());
    }
    s.append(";");
    s
}

fn print_entries(es: &Vec<AclEntry>, cm: &CommentMap) -> (r: Vec<String>)
    ensures
        text::texts(r@) == entries_lines(ast::acl_entries_view(es@), cm@, es@.len()),
{
    let ghost ev = ast::acl_entries_view(es@);
    let mut lines = no_lines();
    let mut i: usize = 0;
    while i < es.len()
        invariant
            i <= es.len(),
            ev == ast::acl_entries_view(es@),
            text::texts(lines@) == entries_lines(ev, cm@, i as nat),
        decreases es.len() - i,
    {
        let mut line = "    ".to_string();
        line.append(acl_entry_to_string(&es[i]).as_str());
        let core = one(line);
        push_lines(
            &mut lines,
            wrap_comments(cm, es[i].span, "    ", i == 0, BlankRule::IfLeading, core),
        );
        i += 1;
    }
    lines
}

/// `head`, the lines of a body, and a closing brace.
fn braced(keyword: &str, name: &str, body: Vec<String>) -> (r: Vec<String>)
    ensures
        text::texts(r@) == seq![keyword@ + name@ + " {"@] + text::texts(body@) + seq!["}"@],
{
    let mut lines = one(glue(keyword, name, " {"));
    push_lines(&mut lines, body);
    push_line(&mut lines, "}".to_string());
    assert(text::texts(lines@) =~= seq![keyword@ + name@ + " {"@] + text::texts(body@) + seq![
        "}"@,
    ]);
    lines
}

/// The lines of a declaration, without its comments.
fn decl_to_lines(d: &Decl, cm: &CommentMap) -> (r: Vec<String>)
    ensures
        text::texts(r@) == decl_lines(d@, cm@),
{
    match d {
        Decl::Import { name, from, .. } => match from {
            Some(f) => {
                let mut s = glue("import ", name.as_str(), " from ");
                s.append(format_string(f.as_str()).as_str());
                s.append(";");
                one(s)
            },
            None => one(glue("import ", name.as_str(), ";")),
        },
        Decl::Backend { name, none, body, .. } => {
            if *none {
                return one(glue("backend ", name.as_str(), " none;"));
            }
            match body {
                Some(fs) => braced("backend ", name.as_str(), print_fields(fs, "    ", cm)),
                None => one(glue("backend ", name.as_str(), " {};")),
            }
        },
        Decl::Probe { name, body, .. } => braced(
            "probe ",
            name.as_str(),
            print_fields(body, "    ", cm),
        ),
        Decl::Acl { name, entries, .. } => braced("acl ", name.as_str(), print_entries(entries, cm)),
        Decl::Sub { name, body, .. } => braced(
            "sub ",
            name.as_str(),
            print_stmts(body, "    ", cm),
        ),
    }
}

/// The lines of a declaration, with its comments.
fn print_decl(d: &Decl, cm: &CommentMap, first: bool) -> (r: Vec<String>)
    ensures
        text::texts(r@) == item_lines(
            cm@,
            ast::decl_span(d@),
            seq![],
            first,
            BlankRule::Always,
            decl_lines(d@, cm@),
        ),
{
    let core = decl_to_lines(d, cm);
    proof {
        reveal_strlit("");
        assert(""@ =~= Seq::<char>::empty());
    }
    wrap_comments(cm, d.span(), "", first, BlankRule::Always, core)
}

/// Prints a program as canonical text.
pub fn print(p: &Program) -> (r: String)
    ensures
        r@ == program_text(p@),
{
    let ghost pv = p@;
    let ghost head = seq!["vcl 4.1;"@];
    let mut lines = one("vcl 4.1;".to_string());
    let mut i: usize = 0;
    assert(text::texts(lines@) =~= head + decls_lines(pv.decls, pv.comments, 0));
    while i < p.decls.len()
        invariant
            i <= p.decls.len(),
            pv == p@,
            text::texts(lines@) == head + decls_lines(pv.decls, pv.comments, i as nat),
        decreases p.decls.len() - i,
    {
        push_lines(&mut lines, print_decl(&p.decls[i], &p.comments, i == 0));
        i += 1;
        assert(text::texts(lines@) =~= head + decls_lines(pv.decls, pv.comments, i as nat));
    }
    if p.trailing_comments.len() > 0 {
        push_line(&mut lines, String::new());
        proof {
            reveal_strlit("");
            assert(""@ =~= Seq::<char>::empty());
        }
        render_blocks(&mut lines, "", &p.trailing_comments);
    }
    assert(text::texts(lines@) =~= program_lines(pv));
    text::join_strings(&lines, "\n")
}

} // verus!
