//! What a statement is shows at its first token.

use crate::ast::{ArmV, ExprV, Span, StmtV};
use crate::grammar;
use crate::grammar::{InputV, Parse, PlaceV};
use crate::lexer::TokV;
use vstd::prelude::*;
use vstd::string::*;

verus! {

proof fn lemma_if(inp: InputV, at: PlaceV, start: Span, arms: Seq<ArmV>)
    ensures
        grammar::p_if_rest(inp, at, start, arms) matches Parse::Read(x, _) ==> x is If,
    decreases grammar::left(inp, at),
{
    reveal(grammar::another_arm);
    match grammar::another_arm(inp, at) {
        Some(n) => match grammar::p_arm(inp, PlaceV { pos: at.pos + n, ..at }) {
            Parse::Bad(_) => {},
            Parse::Read(a, s) => if grammar::moved(inp, at, s) {
                lemma_if(inp, s, start, arms.push(a));
            },
        },
        None => {},
    }
}

/// What a statement is shows at its first token: `set`, `unset`, `call`, `return`,
/// `synthetic`, `new` and `if` each start their own, C source stands for itself, and
/// any other name starts a call of what it heads.
#[verifier::spinoff_prover]
#[verifier::rlimit(60)]
pub proof fn law_statements_show_at_their_first_token(inp: InputV, at: PlaceV)
    ensures
        grammar::p_stmt(inp, at) matches Parse::Read(x, _) ==> match grammar::tok(inp, at) {
            TokV::CSource(t) => x matches StmtV::Expr { expr, .. } && expr == ExprV::CSource(t),
            TokV::Ident(w) => {
                &&& w == "set"@ <==> x is Assign
                &&& w == "unset"@ <==> x is Unset
                &&& w == "call"@ <==> x is Call
                &&& w == "return"@ <==> x is Return
                &&& w == "synthetic"@ <==> x is Synthetic
                &&& w == "new"@ <==> x is New
                &&& w == "if"@ <==> x is If
                &&& x matches StmtV::Expr { expr, .. } ==> (expr matches ExprV::Call { target, .. }
                    && target.len() > 0 && target[0] == w)
            },
            _ => false,
        },
{
    reveal(grammar::p_set);
    reveal(grammar::p_unset);
    reveal(grammar::p_call);
    reveal(grammar::p_return);
    reveal(grammar::p_synthetic);
    reveal(grammar::p_new);
    reveal(grammar::p_expr_stmt);
    lemma_words();
    let start = grammar::here(inp, at);
    match grammar::p_arm(inp, grammar::next(at)) {
        Parse::Bad(_) => {},
        Parse::Read(a, s) => lemma_if(inp, s, start, seq![a]),
    }
    if let TokV::Ident(w) = grammar::tok(inp, at) {
        lemma_dotted(inp, grammar::next(at), seq![w]);
    }
    reveal(grammar::p_dotted);
}

proof fn lemma_dotted(inp: InputV, at: PlaceV, parts: Seq<Seq<char>>)
    requires
        parts.len() > 0,
    ensures
        grammar::p_dotted_rest(inp, at, parts) matches Parse::Read(all, _) ==> all.len() > 0
            && all[0] == parts[0],
    decreases grammar::left(inp, at),
{
    reveal(grammar::p_dotted_rest);
    match grammar::p_ident(inp, grammar::next(at)) {
        Parse::Bad(_) => {},
        Parse::Read(p, s) => {
            if grammar::left(inp, s) < grammar::left(inp, at) {
                lemma_dotted(inp, s, parts.push(p));
            }
        },
    }
}

proof fn lemma_words()
    ensures
        "set"@ != "unset"@ && "set"@ != "call"@ && "set"@ != "return"@ && "set"@ != "synthetic"@
            && "set"@ != "new"@ && "set"@ != "if"@,
        "unset"@ != "call"@ && "unset"@ != "return"@ && "unset"@ != "synthetic"@ && "unset"@
            != "new"@ && "unset"@ != "if"@,
        "call"@ != "return"@ && "call"@ != "synthetic"@ && "call"@ != "new"@ && "call"@ != "if"@,
        "return"@ != "synthetic"@ && "return"@ != "new"@ && "return"@ != "if"@,
        "synthetic"@ != "new"@ && "synthetic"@ != "if"@,
        "new"@ != "if"@,
{
    reveal_strlit("set");
    reveal_strlit("unset");
    reveal_strlit("call");
    reveal_strlit("return");
    reveal_strlit("synthetic");
    reveal_strlit("new");
    reveal_strlit("if");
    assert("set"@.len() == 3 && "unset"@.len() == 5 && "call"@.len() == 4 && "return"@.len() == 6
        && "synthetic"@.len() == 9 && "new"@.len() == 3 && "if"@.len() == 2);
    assert("set"@[0] == 's' && "new"@[0] == 'n');
}

} // verus!
