//! Tests of what is said of texts that are no programs.

use vcl_normalizer::lexer::lex_str;
use vcl_normalizer::parser::{parse_str, parse_vcl_show_text};
use vcl_normalizer::symbols::{validate, validate_with_warnings};
use vcl_normalizer::table::Table;
use vcl_normalizer::vclshow::parse_chunks;
use vcl_normalizer::vmod::{ArgSpec, ObjSpec, Sig, VmodSpec};

fn lex_fault(src: &str) -> String {
    match lex_str(src) {
        Ok(_) => panic!("tokens of {src}"),
        Err(e) => e.msg,
    }
}

fn parse_fault(src: &str) -> String {
    match parse_str(src) {
        Ok(_) => panic!("a program {src}"),
        Err(e) => e.msg,
    }
}

fn in_sub(body: &str) -> String {
    format!("vcl 4.1; sub vcl_recv {{ {body} }}")
}

fn check_fault(src: &str, specs: &Table<VmodSpec>) -> String {
    validate(&parse_str(src).expect("a program"), specs).expect_err("a fault").msg
}

#[test]
fn texts_that_have_no_tokens() {
    assert_eq!(lex_fault("a & b"), "unexpected character '&' (did you mean '&&'?)");
    assert_eq!(lex_fault("a | b"), "unexpected character '|' (did you mean '||'?)");
    assert_eq!(lex_fault("a ? b"), "unexpected character '?'");
    assert_eq!(lex_fault("a @"), "unexpected character '@'");
    assert_eq!(lex_fault("\u{1}"), "unexpected character '\\u{1}'");
    assert_eq!(lex_fault("/* a"), "unterminated block comment");
    assert_eq!(lex_fault("C{ a }"), "unterminated C{ ... }C block");
    assert_eq!(lex_fault("{\"a\""), "unterminated {\"...\"} string");
    assert_eq!(lex_fault("\"\"\"a\"\""), "unterminated \"\"\"...\"\"\" string");
    let open = "unterminated string (contains newline or runs to EOF)";
    assert_eq!(lex_fault("\"a"), open);
    assert_eq!(lex_fault("\"a\nb\""), open);
}

#[test]
fn tokens_that_are_no_program() {
    assert_eq!(parse_fault(""), "expected 'vcl', found Eof");
    assert_eq!(parse_fault("vcl x;"), "expected VCL version number, found Ident(\"x\")");
    assert_eq!(parse_fault("vcl 4.0;"), "only VCL 4.1 supported");
    assert_eq!(parse_fault("vcl 4;"), "expected Dot, found Semi");
    assert_eq!(parse_fault("vcl 4 . x;"), "expected version minor number, found Ident(\"x\")");
    assert_eq!(parse_fault("vcl 4.1"), "expected Semi, found Eof");
    assert_eq!(
        parse_fault("vcl 4.1; director d;"),
        "expected top-level declaration (import/backend/probe/acl/sub), found Ident(\"director\")"
    );
    assert_eq!(parse_fault("vcl 4.1; import 1;"), "expected identifier, found Num(\"1\")");
    assert_eq!(parse_fault("vcl 4.1; import a from b;"), "expected string literal, found Ident(\"b\")");
    assert_eq!(parse_fault("vcl 4.1; acl a { \"x\" / y; }"), "expected mask number, found Ident(\"y\")");
    assert_eq!(parse_fault("vcl 4.1; acl a { \"x\"/256; }"), "invalid ACL mask");
    assert_eq!(parse_fault("vcl 4.1; sub a {"), "unterminated block, expected '}'");
    assert_eq!(parse_fault(&in_sub("= 1;")), "expected statement, found Eq");
    assert_eq!(parse_fault(&in_sub("set a = ;")), "expected expression, found Semi");
    assert_eq!(parse_fault(&in_sub("set a = 1")), "expected Semi, found RBrace");
    assert_eq!(parse_fault(&in_sub("set a = \"q\\\" 5s 6KB;")), "expected Semi, found Duration(\"5\", \"s\")");
    assert_eq!(parse_fault(&in_sub("set a = 5s \"q\\\";")), "expected Semi, found Str(\"q\\\\\")");
    assert_eq!(parse_fault(&in_sub("set a = b 6KB;")), "expected Semi, found Bytes(\"6\", \"KB\")");
    assert_eq!(parse_fault(&in_sub("set a = b C{x}C;")), "expected Semi, found CSource(\"x\")");
    assert_eq!(
        parse_fault(&in_sub("if (a == b == c) { }")),
        "comparison operators are non-associative"
    );
}

fn word(name: Option<&str>, words: Option<&[&str]>) -> ArgSpec {
    ArgSpec {
        name: name.map(|n| n.to_string()),
        default: None,
        optional: false,
        enum_values: words.map(|w| w.iter().map(|x| x.to_string()).collect()),
    }
}

fn specs() -> Table<VmodSpec> {
    let mut funcs = Table::new();
    funcs.insert("f".to_string(), Sig { args: vec![word(Some("m"), Some(&["on", "off"]))] });
    let mut methods = Table::new();
    methods.insert("get".to_string(), Sig { args: vec![] });
    let mut objects = Table::new();
    objects.insert("o".to_string(), ObjSpec { init: Sig { args: vec![] }, methods });
    let mut specs = Table::new();
    specs.insert("t".to_string(), VmodSpec { funcs, objects });
    specs
}

#[test]
fn programs_that_are_not_valid() {
    let s = specs();
    let with = |body: &str| format!("vcl 4.1; import t; sub vcl_recv {{ {body} }}");
    let init = |body: &str| format!("vcl 4.1; import t; sub vcl_init {{ {body} }}");
    let d = |what: &str| format!("vcl 4.1; {what} {what}");
    assert_eq!(check_fault(&d("backend x none;"), &s), "duplicate backend 'x'");
    assert_eq!(check_fault(&d("probe x { }"), &s), "duplicate probe 'x'");
    assert_eq!(check_fault(&d("acl x { }"), &s), "duplicate acl 'x'");
    assert_eq!(check_fault(&d("sub x { }"), &s), "duplicate sub 'x'");
    assert_eq!(check_fault(&with("call vcl_hit;"), &s), "cannot 'call' builtin sub 'vcl_hit'");
    assert_eq!(check_fault(&with("call x;"), &s), "undefined sub 'x'");
    assert_eq!(
        check_fault("vcl 4.1; backend b { .probe = p; }", &s),
        "undefined probe 'p'"
    );
    assert_eq!(check_fault(&with("set req.backend_hint = x;"), &s), "undefined reference 'x'");
    assert_eq!(check_fault(&with("t.g();"), &s), "unknown function 'g' in vmod 't'");
    assert_eq!(check_fault(&with("u.g();"), &s), "call to unknown object or vmod 'u'");
    assert_eq!(check_fault(&init("new x = u.o();"), &s), "new: vmod 'u' is not imported");
    assert_eq!(check_fault(&init("new x = t.p();"), &s), "unknown constructor 't.p'");
    assert_eq!(
        check_fault(&init("new x = t.o(); x.put();"), &s),
        "unknown method 'put' on object 'x'"
    );
    assert_eq!(check_fault(&with("new x = t.o();"), &s), "'new' is only allowed inside sub vcl_init");
    assert_eq!(check_fault(&with("t.f(on, off);"), &s), "too many positional arguments");
    assert_eq!(check_fault(&with("t.f(k = on);"), &s), "unknown named argument 'k'");
    assert_eq!(
        check_fault(&with("t.f(up);"), &s),
        "'up' is not a valid value for this enum argument (expected one of: on, off)"
    );
    validate(&parse_str(&with("t.f(off);")).unwrap(), &s).unwrap();
}

#[test]
fn warnings_are_no_faults() {
    let p = parse_str("vcl 4.1; sub vcl_recv { set req.http.x = someting; } sub vcl_made { }").unwrap();
    let mut warnings = Vec::new();
    validate_with_warnings(&p, &Table::new(), &mut warnings).unwrap();
    assert!(warnings.iter().any(|w| w.contains("'someting' does not match")), "{warnings:?}");
    assert!(warnings.iter().any(|w| w.contains("vcl_made")), "{warnings:?}");
}

#[test]
fn dumps_that_are_not_whole() {
    let fault = |s: &str| match parse_chunks(s) {
        Ok(_) => panic!("chunks of {s}"),
        Err(e) => e.msg,
    };
    assert_eq!(
        fault("// VCL.SHOW 0 1\nx"),
        "malformed VCL.SHOW marker: expected at least 3 fields, got 2"
    );
    assert_eq!(fault("// VCL.SHOW x 1 a\nx"), "invalid chunk index 'x': expected u32");
    assert_eq!(fault("// VCL.SHOW 0 y a\nx"), "invalid declared length 'y': expected u32");
    assert!(fault("// VCL.SHOW 1 1 a\nx").starts_with("chunk index mismatch: expected 0, got 1"));
    assert_eq!(fault("vcl 4.1;"), "no VCL.SHOW marker found in input");
    assert_eq!(fault(""), "no VCL.SHOW chunks found in input");
    assert_eq!(fault("// VCL.SHOW 0 1 a"), "marker line has no newline");
    assert_eq!(
        fault("// VCL.SHOW 0 3 a\nx"),
        "chunk 0 (a): content extends past end of input (declared length 3)"
    );
    assert!(parse_vcl_show_text("vcl 4.1;").expect("no cut dump").is_err());
    assert!(parse_vcl_show_text("// VCL.SHOW 0 1 a\n\u{e9}").is_none());
}
