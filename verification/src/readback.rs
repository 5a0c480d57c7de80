//! What is printed is read back: the text of a program stands for the same
//! program.
//!
//! Not every tree has a text that stands for it: a text cannot show an argument
//! that is left out between two others, nor an operator applied to a binary
//! expression without parentheses around it. The trees that have one are the
//! printable ones.

use crate::ast::{
    AclEntryV, ArgV, ArmV, BinOp, DeclV, ExprV, FieldV, FieldValueV, ProgramV, ReturnActionV,
    StmtV, UnOp,
};
use crate::decimal;
use crate::decimal::DecimalV;
use crate::layout;
use crate::layout::lexing;
use crate::layout::whole;
use crate::lexer;
use crate::lexer::TokV;
use crate::parser;
use crate::printer;
use crate::statements;
use crate::text;
use crate::vmod::VmodSpec;
use vstd::prelude::*;

pub mod blocks;
pub mod canonical;
pub mod declarations;
pub mod described;
pub mod fixpoint;
pub mod lifted;
pub mod lines;
pub mod names;
pub mod prepared;
pub mod remarks;
pub mod source;
pub mod terms;
pub mod trees;
pub mod words;
pub mod writable;

verus! {

// ───────────────────────── what can be printed ─────────────────────────

/// Whether a character can start a name.
pub open spec fn starts_name(c: char) -> bool {
    'a' <= c <= 'z' || 'A' <= c <= 'Z' || c == '_'
}

/// Whether a character can stand inside a name.
pub open spec fn in_name(c: char) -> bool {
    starts_name(c) || '0' <= c <= '9' || c == '-'
}

/// Whether a text is a name.
pub open spec fn is_name(s: Seq<char>) -> bool {
    &&& s.len() > 0
    &&& starts_name(s[0])
    &&& forall|i: int| 0 <= i < s.len() ==> in_name(#[trigger] s[i])
}

/// Whether a text is a dotted name.
pub open spec fn is_dotted(parts: Seq<Seq<char>>) -> bool {
    &&& parts.len() > 0
    &&& forall|i: int| 0 <= i < parts.len() ==> is_name(#[trigger] parts[i])
}

/// Whether a name is that of a truth value.
pub open spec fn is_truth(s: Seq<char>) -> bool {
    s == "true"@ || s == "false"@
}

/// Whether a string can be printed: one in long quotes cannot hold what ends
/// them.
pub open spec fn can_quote(s: Seq<char>) -> bool {
    (s.contains('"') || s.contains('\n')) ==> forall|i: int|
        0 <= i < s.len() - 1 ==> !(#[trigger] s[i] == '"' && s[i + 1] == '}')
}

/// Whether C source can be printed: it cannot hold what ends it.
#[verifier::opaque]
pub open spec fn can_embed(c: Seq<char>) -> bool {
    forall|i: int| 0 <= i < c.len() - 1 ==> !(#[trigger] c[i] == '}' && c[i + 1] == 'C')
}

/// Whether a duration is printed in full.
pub open spec fn can_time(d: DecimalV) -> bool {
    &&& d.lowest()
    &&& d.scale == 0 ==> d.num <= u64::MAX
    &&& d.scale + 3 <= usize::MAX
}

/// Whether an expression has a text that stands for it.
pub open spec fn can_expr(e: ExprV) -> bool
    decreases e,
{
    match e {
        ExprV::Str(s) => can_quote(s),
        ExprV::Num(n) => decimal::decimal_value(n) is Some,
        ExprV::Duration(d) => can_time(d),
        ExprV::Bytes(_) => true,
        ExprV::Bool(_) => true,
        ExprV::Omitted => false,
        ExprV::CSource(c) => can_embed(c),
        ExprV::Var(parts) => is_dotted(parts) && !is_truth(parts[0]),
        ExprV::Call { target, args } => is_dotted(target) && !is_truth(target[0]) && can_args(args),
        ExprV::Unary { expr, .. } => can_expr(*expr),
        ExprV::Binary { lhs, rhs, .. } => can_expr(*lhs) && can_expr(*rhs),
    }
}

/// Whether an argument has a text that stands for it.
pub open spec fn can_arg(a: ArgV) -> bool
    decreases a,
{
    can_expr(a.value) && match a.name {
        Some(n) => is_name(n),
        None => true,
    }
}

/// Whether all arguments have texts that stand for them.
pub open spec fn can_args(s: Seq<ArgV>) -> bool
    decreases s,
{
    forall|i: int| 0 <= i < s.len() ==> can_arg(#[trigger] s[i])
}

/// Whether all expressions have texts that stand for them.
pub open spec fn can_exprs(s: Seq<ExprV>) -> bool {
    forall|i: int| 0 <= i < s.len() ==> can_expr(#[trigger] s[i])
}

/// Whether a word starts a statement of its own kind.
pub open spec fn is_keyword(s: Seq<char>) -> bool {
    s == "set"@ || s == "unset"@ || s == "call"@ || s == "return"@ || s == "synthetic"@ || s
        == "new"@ || s == "if"@
}

/// Whether a statement has a text that stands for it.
pub open spec fn can_stmt(s: StmtV) -> bool
    decreases s,
{
    match s {
        StmtV::Assign { lhs, rhs, .. } => is_dotted(lhs) && can_expr(rhs),
        StmtV::Unset { lhs, .. } => is_dotted(lhs),
        StmtV::Call { sub, .. } => is_name(sub),
        StmtV::Return { action, .. } => match action {
            Some(a) => is_name(a.name) && can_exprs(a.args),
            None => true,
        },
        StmtV::Synthetic { value, .. } => can_expr(value),
        StmtV::If { arms, else_body, .. } => arms.len() > 0 && can_arms(arms) && match else_body {
            Some(b) => can_stmts(b),
            None => true,
        },
        StmtV::New { name, vmod, ctor, args, .. } => is_name(name) && is_name(vmod) && is_name(ctor)
            && can_args(args),
        StmtV::Expr { expr, .. } => match expr {
            ExprV::Call { target, args } => is_dotted(target) && !is_keyword(target[0]) && can_args(
                args,
            ),
            ExprV::CSource(c) => can_embed(c),
            _ => false,
        },
    }
}

/// Whether a statement is an `if` without an `else`.
pub open spec fn open_if(s: StmtV) -> bool {
    s matches StmtV::If { else_body, .. } && else_body is None
}

/// Whether a statement starts with a word that goes on with an `if`.
pub open spec fn goes_on_if(s: StmtV) -> bool {
    s matches StmtV::Expr { expr, .. } && expr matches ExprV::Call { target, .. } && (target[0]
        == "else"@ || target[0] == "elsif"@ || target[0] == "elseif"@)
}

/// Whether the statement before `i` ends where it should.
pub open spec fn ended_before(s: Seq<StmtV>, i: int) -> bool {
    open_if(s[i - 1]) ==> !goes_on_if(s[i])
}

/// Whether all statements have texts that stand for them.
pub open spec fn can_stmts(s: Seq<StmtV>) -> bool
    decreases s,
{
    &&& forall|i: int| 0 <= i < s.len() ==> can_stmt(#[trigger] s[i])
    &&& forall|i: int| 0 < i < s.len() ==> #[trigger] ended_before(s, i)
}

/// Whether an arm has a text that stands for it.
pub open spec fn can_arm(a: ArmV) -> bool
    decreases a,
{
    can_expr(a.cond) && can_stmts(a.body)
}

/// Whether all arms have texts that stand for them.
pub open spec fn can_arms(s: Seq<ArmV>) -> bool
    decreases s,
{
    forall|i: int| 0 <= i < s.len() ==> can_arm(#[trigger] s[i])
}

/// Whether the value of a field has a text that stands for it. A single string
/// is no list.
pub open spec fn can_value(v: FieldValueV) -> bool
    decreases v,
{
    match v {
        FieldValueV::Expr(e) => can_expr(e),
        FieldValueV::Probe(fs) => can_fields(fs),
        FieldValueV::ProbeRef(n) => is_name(n) && !is_truth(n),
        FieldValueV::StringList(l) => l.len() >= 2 && forall|i: int|
            0 <= i < l.len() ==> can_quote(#[trigger] l[i]),
    }
}

/// Whether a field has a text that stands for it.
pub open spec fn can_field(f: FieldV) -> bool
    decreases f,
{
    is_name(f.name) && can_value(f.value)
}

/// Whether all fields have texts that stand for them.
pub open spec fn can_fields(s: Seq<FieldV>) -> bool
    decreases s,
{
    forall|i: int| 0 <= i < s.len() ==> can_field(#[trigger] s[i])
}

/// Whether a declaration has a text that stands for it.
pub open spec fn can_decl(d: DeclV) -> bool {
    match d {
        DeclV::Import { name, from, .. } => is_name(name) && match from {
            Some(f) => can_quote(f),
            None => true,
        },
        DeclV::Backend { name, none, body, .. } => is_name(name) && match body {
            Some(fs) => !none && can_fields(fs),
            None => none,
        },
        DeclV::Probe { name, body, .. } => is_name(name) && can_fields(body),
        DeclV::Acl { name, entries, .. } => is_name(name) && forall|i: int|
            0 <= i < entries.len() ==> can_quote((#[trigger] entries[i]).addr),
        DeclV::Sub { name, body, .. } => is_name(name) && can_stmts(body),
    }
}

/// Whether all declarations have texts that stand for them.
pub open spec fn can_decls(ds: Seq<DeclV>) -> bool {
    forall|i: int| 0 <= i < ds.len() ==> can_decl(#[trigger] ds[i])
}

// ───────────────────────── the tokens that are printed ─────────────────────────

/// The tokens of a dotted name's first `n` parts.
pub open spec fn dotted_toks(parts: Seq<Seq<char>>, n: nat) -> Seq<TokV>
    decreases n,
{
    if n == 0 {
        seq![]
    } else if n == 1 {
        seq![TokV::Ident(parts[0])]
    } else {
        dotted_toks(parts, (n - 1) as nat) + seq![TokV::Dot, TokV::Ident(parts[n - 1])]
    }
}

/// The token of an operator.
pub open spec fn op_tok(op: BinOp) -> TokV {
    match op {
        BinOp::Eq => TokV::EqEq,
        BinOp::Ne => TokV::Neq,
        BinOp::Match => TokV::Tilde,
        BinOp::NotMatch => TokV::NTilde,
        BinOp::Lt => TokV::Lt,
        BinOp::Le => TokV::Leq,
        BinOp::Gt => TokV::Gt,
        BinOp::Ge => TokV::Geq,
        BinOp::And => TokV::AndAnd,
        BinOp::Or => TokV::OrOr,
        BinOp::Add => TokV::Plus,
        BinOp::Sub => TokV::Minus,
        BinOp::Mul => TokV::Star,
        BinOp::Div => TokV::Slash,
    }
}

/// The number in a printed duration.
pub open spec fn time_digits(d: DecimalV) -> Seq<char> {
    if d.scale == 0 {
        text::nat_text(d.num)
    } else {
        d.text()
    }
}

/// The tokens of an operand: a binary expression stands in parentheses.
#[verifier::opaque]
pub open spec fn operand_toks(e: ExprV, t: Seq<TokV>) -> Seq<TokV> {
    if e is Binary {
        seq![TokV::LParen] + t + seq![TokV::RParen]
    } else {
        t
    }
}

/// The tokens of an expression.
pub open spec fn expr_toks(e: ExprV) -> Seq<TokV>
    decreases e, 0nat,
{
    match e {
        ExprV::Str(s) => seq![TokV::Str(s)],
        ExprV::Num(n) => seq![TokV::Num(n)],
        ExprV::Duration(d) => seq![TokV::Duration(time_digits(d), "s"@)],
        ExprV::Bytes(n) => seq![TokV::Bytes(text::nat_text(n as nat), "B"@)],
        ExprV::Bool(b) => seq![
            TokV::Ident(
                if b {
                    "true"@
                } else {
                    "false"@
                },
            ),
        ],
        ExprV::Omitted => seq![],
        ExprV::CSource(c) => seq![TokV::CSource(c)],
        ExprV::Var(parts) => dotted_toks(parts, parts.len()),
        ExprV::Call { target, args } => dotted_toks(target, target.len()) + (seq![TokV::LParen] + (
        args_toks(args, args.len()) + seq![TokV::RParen])),
        ExprV::Unary { op, expr } => seq![
            match op {
                UnOp::Not => TokV::Bang,
                UnOp::Neg => TokV::Minus,
            },
        ] + operand_toks(*expr, expr_toks(*expr)),
        ExprV::Binary { op, lhs, rhs } => operand_toks(*lhs, expr_toks(*lhs)) + (seq![op_tok(op)]
            + operand_toks(*rhs, expr_toks(*rhs))),
    }
}

/// The tokens of an argument.
pub open spec fn arg_toks(a: ArgV) -> Seq<TokV>
    decreases a, 0nat,
{
    match a.name {
        Some(n) => seq![TokV::Ident(n), TokV::Eq] + expr_toks(a.value),
        None => expr_toks(a.value),
    }
}

/// The tokens of the first `n` arguments, with commas between them.
pub open spec fn args_toks(args: Seq<ArgV>, n: nat) -> Seq<TokV>
    decreases args, n,
{
    if n == 0 || n > args.len() {
        seq![]
    } else if n == 1 {
        arg_toks(args[0])
    } else {
        args_toks(args, (n - 1) as nat) + (seq![TokV::Comma] + arg_toks(args[n - 1]))
    }
}

/// The tokens of the first `n` expressions, with commas between them.
pub open spec fn exprs_toks(es: Seq<ExprV>, n: nat) -> Seq<TokV>
    decreases n,
{
    if n == 0 {
        seq![]
    } else if n == 1 {
        expr_toks(es[0])
    } else {
        exprs_toks(es, (n - 1) as nat) + (seq![TokV::Comma] + expr_toks(es[n - 1]))
    }
}

/// The tokens of a word.
pub open spec fn word(s: Seq<char>) -> Seq<TokV> {
    seq![TokV::Ident(s)]
}

/// The tokens of what a `return` asks for.
pub open spec fn action_toks(action: Option<ReturnActionV>) -> Seq<TokV> {
    match action {
        None => seq![],
        Some(a) => seq![TokV::LParen] + (word(a.name) + ((if a.args.len() == 0 {
            seq![]
        } else {
            seq![TokV::LParen] + (exprs_toks(a.args, a.args.len()) + seq![TokV::RParen])
        }) + seq![TokV::RParen])),
    }
}

/// The tokens of a call without its target.
pub open spec fn call_toks(args: Seq<ArgV>) -> Seq<TokV> {
    seq![TokV::LParen] + (args_toks(args, args.len()) + seq![TokV::RParen])
}

/// The tokens of a statement.
pub open spec fn stmt_toks(s: StmtV) -> Seq<TokV>
    decreases s, 0nat,
{
    let end = seq![TokV::Semi];
    match s {
        StmtV::Assign { lhs, rhs, .. } => word("set"@) + (dotted_toks(lhs, lhs.len()) + (seq![
            TokV::Eq,
        ] + (expr_toks(rhs) + end))),
        StmtV::Unset { lhs, .. } => word("unset"@) + (dotted_toks(lhs, lhs.len()) + end),
        StmtV::Call { sub, .. } => word("call"@) + (word(sub) + end),
        StmtV::Return { action, .. } => word("return"@) + (action_toks(action) + end),
        StmtV::Synthetic { value, .. } => word("synthetic"@) + (seq![TokV::LParen] + (expr_toks(
            value,
        ) + (seq![TokV::RParen] + end))),
        StmtV::If { arms, else_body, .. } => arms_toks(arms, arms.len()) + match else_body {
            Some(b) => word("else"@) + (seq![TokV::LBrace] + (stmts_toks(b, b.len()) + seq![
                TokV::RBrace,
            ])),
            None => seq![],
        },
        StmtV::New { name, vmod, ctor, args, .. } => word("new"@) + (word(name) + (seq![TokV::Eq]
            + (word(vmod) + (seq![TokV::Dot] + (word(ctor) + (call_toks(args) + end)))))),
        StmtV::Expr { expr, .. } => expr_toks(expr) + if expr is CSource {
            seq![]
        } else {
            end
        },
    }
}

/// The tokens of the first `n` statements.
pub open spec fn stmts_toks(s: Seq<StmtV>, n: nat) -> Seq<TokV>
    decreases s, n,
{
    if n == 0 || n > s.len() {
        seq![]
    } else {
        stmts_toks(s, (n - 1) as nat) + stmt_toks(s[n - 1])
    }
}

/// The tokens of the first `n` arms.
pub open spec fn arms_toks(s: Seq<ArmV>, n: nat) -> Seq<TokV>
    decreases s, n,
{
    if n == 0 || n > s.len() {
        seq![]
    } else {
        let a = s[n - 1];
        arms_toks(s, (n - 1) as nat) + ((if n == 1 {
            word("if"@)
        } else {
            word("else"@) + word("if"@)
        }) + (seq![TokV::LParen] + (expr_toks(a.cond) + (seq![TokV::RParen, TokV::LBrace] + (
        stmts_toks(a.body, a.body.len()) + seq![TokV::RBrace])))))
    }
}

/// The tokens of the first `n` strings.
pub open spec fn strings_toks(l: Seq<Seq<char>>, n: nat) -> Seq<TokV>
    decreases n,
{
    if n == 0 {
        seq![]
    } else {
        strings_toks(l, (n - 1) as nat) + seq![TokV::Str(l[n - 1])]
    }
}

/// The tokens of an expression as the value of a field: a single name stands in
/// parentheses.
pub open spec fn word_toks(e: ExprV, t: Seq<TokV>) -> Seq<TokV> {
    if printer::is_word(e) {
        seq![TokV::LParen] + (t + seq![TokV::RParen])
    } else {
        t
    }
}

/// The tokens of the value of a field, with the semicolon behind it.
pub open spec fn value_toks(v: FieldValueV) -> Seq<TokV>
    decreases v, 0nat,
{
    match v {
        FieldValueV::Expr(e) => word_toks(e, expr_toks(e)) + seq![TokV::Semi],
        FieldValueV::ProbeRef(n) => word(n) + seq![TokV::Semi],
        FieldValueV::StringList(l) => strings_toks(l, l.len()) + seq![TokV::Semi],
        FieldValueV::Probe(fs) => seq![TokV::LBrace] + (fields_toks(fs, fs.len()) + seq![
            TokV::RBrace,
        ]),
    }
}

/// The tokens of a field.
pub open spec fn field_toks(f: FieldV) -> Seq<TokV>
    decreases f, 0nat,
{
    seq![TokV::Dot] + (word(f.name) + (seq![TokV::Eq] + value_toks(f.value)))
}

/// The tokens of the first `n` fields.
pub open spec fn fields_toks(s: Seq<FieldV>, n: nat) -> Seq<TokV>
    decreases s, n,
{
    if n == 0 || n > s.len() {
        seq![]
    } else {
        fields_toks(s, (n - 1) as nat) + field_toks(s[n - 1])
    }
}

/// The tokens of an address.
pub open spec fn entry_toks(e: AclEntryV) -> Seq<TokV> {
    (if e.negated {
        seq![TokV::Bang]
    } else {
        seq![]
    }) + (seq![TokV::Str(e.addr)] + ((match e.mask {
        Some(m) => seq![TokV::Slash, TokV::Num(text::nat_text(m as nat))],
        None => seq![],
    }) + seq![TokV::Semi]))
}

/// The tokens of the first `n` addresses.
pub open spec fn entries_toks(s: Seq<AclEntryV>, n: nat) -> Seq<TokV>
    decreases n,
{
    if n == 0 {
        seq![]
    } else {
        entries_toks(s, (n - 1) as nat) + entry_toks(s[n - 1])
    }
}

/// Tokens in braces.
pub open spec fn braced(k: Seq<TokV>) -> Seq<TokV> {
    seq![TokV::LBrace] + (k + seq![TokV::RBrace])
}

/// The tokens of a declaration.
pub open spec fn decl_toks(d: DeclV) -> Seq<TokV> {
    let end = seq![TokV::Semi];
    match d {
        DeclV::Import { name, from, .. } => word("import"@) + (word(name) + (match from {
            Some(f) => word("from"@) + (seq![TokV::Str(f)] + end),
            None => end,
        })),
        DeclV::Backend { name, none, body, .. } => word("backend"@) + (word(name) + (match body {
            Some(fs) => braced(fields_toks(fs, fs.len())),
            None => word("none"@) + end,
        })),
        DeclV::Probe { name, body, .. } => word("probe"@) + (word(name) + braced(
            fields_toks(body, body.len()),
        )),
        DeclV::Acl { name, entries, .. } => word("acl"@) + (word(name) + braced(
            entries_toks(entries, entries.len()),
        )),
        DeclV::Sub { name, body, .. } => word("sub"@) + (word(name) + braced(
            stmts_toks(body, body.len()),
        )),
    }
}

/// The tokens of the first `n` declarations.
pub open spec fn decls_toks(s: Seq<DeclV>, n: nat) -> Seq<TokV>
    decreases n,
{
    if n == 0 {
        seq![]
    } else {
        decls_toks(s, (n - 1) as nat) + decl_toks(s[n - 1])
    }
}

/// The tokens of a program.
pub open spec fn program_toks(p: ProgramV) -> Seq<TokV> {
    seq![TokV::Ident("vcl"@), TokV::Num("4.1"@), TokV::Semi] + decls_toks(p.decls, p.decls.len())
}

// ───────────────────────── reading back ─────────────────────────

/// Whether a program has a text that stands for it: its declarations do, and
/// its comments are comments where they are printed.
pub open spec fn can_program(p: ProgramV) -> bool {
    &&& can_decls(p.decls)
    &&& lines::can_comments(p.comments)
    &&& lines::can_block(p.trailing_comments)
}

/// What is printed is read back: the text of a printable program stands for
/// the same program, up to places and comments.
pub proof fn law_printed_programs_are_read_back(p: ProgramV)
    requires
        can_program(p),
    ensures
        match parser::program_of(lexer::lex_alone(printer::program_text(p))) {
            Ok(q) => layout::bare_program(q) == layout::bare_program(p),
            Err(_) => false,
        },
{
    let t = printer::program_text(p);
    declarations::law_text_has_the_tokens_of_the_program(p);
    lexing::law_file_has_the_tokens_of_its_text(t, 0);
    match lexer::lex_alone(t) {
        Ok(v) => {
            let inp = statements::input(v.lexed);
            let k = program_toks(p);
            reveal(terms::holds);
            assert forall|i: int| 0 <= i < k.len() implies inp.toks[0 + i].tok
                == #[trigger] k[i] by {
                let l = lexer::lex_text(t, 0)->Ok_0;
                assert(lexing::kinds(l.tokens)[i] == l.tokens[i].tok);
            }
            trees::law_tokens_stand_for_the_program(inp, p);
        },
        Err(_) => {},
    }
}

/// A printed program has the form of the program itself.
pub proof fn law_printed_programs_keep_their_form(
    p: ProgramV,
    specs: Map<Seq<char>, VmodSpec>,
    rename: bool,
)
    requires
        can_program(p),
    ensures
        whole::form(
            parser::program_of(lexer::lex_alone(printer::program_text(p))),
            specs,
            rename,
        ) == whole::form(Ok(p), specs, rename),
{
    law_printed_programs_are_read_back(p);
    match parser::program_of(lexer::lex_alone(printer::program_text(p))) {
        Ok(q) => whole::law_places_do_not_matter(q, p, specs, rename),
        Err(_) => {},
    }
}

} // verus!
