//! Tests of the printer.

use vcl_normalizer::ast::builder::{
    acl, acl_entry, arg, assign, backend, bin, bool_, bytes, call, dur, expr_stmt, fcall, fexpr,
    narg, num, program, ret, str_, sub, var,
};
use vcl_normalizer::ast::{BinOp, Expr, Program};
use vcl_normalizer::canon;
use vcl_normalizer::decimal::Decimal;
use vcl_normalizer::normalize::rename::merge_only;
use vcl_normalizer::normalize::sort;
use vcl_normalizer::parser::parse_str;
use vcl_normalizer::printer::{expr_to_string, print};

fn dec(s: &str) -> Decimal {
    Decimal::parse(s).expect("a decimal")
}

#[test]
fn c3_printer_deterministic_strings() {
    // String containing quote should use {"..."}
    let prog = program(vec![sub("vcl_recv", vec![expr_stmt(str_("test\"quote"))])]);
    let output = print(&prog);
    // Long string syntax is {" ... "} so {"test"quote"} is the correct output
    assert!(
        output.contains("{\"test\"quote\""),
        "String with quote should use {{\"...\"}} long-string syntax"
    );

    // Regular string should use "..."
    let prog2 = program(vec![sub("vcl_recv", vec![expr_stmt(str_("simple"))])]);
    let output2 = print(&prog2);
    assert!(
        output2.contains("\"simple\""),
        "Simple string should use \"...\" syntax"
    );
}

#[test]
fn c3_printer_deterministic_durations() {
    // 60 seconds should be "60s" not "1m"
    let prog = program(vec![sub("vcl_recv", vec![expr_stmt(dur(dec("60")))])]);
    let output = print(&prog);
    assert!(output.contains("60s"), "Duration 60 should print as 60s");

    // 0.5 seconds should be "0.5s"
    let prog2 = program(vec![sub("vcl_recv", vec![expr_stmt(dur(dec("0.5")))])]);
    let output2 = print(&prog2);
    assert!(
        output2.contains("0.5s"),
        "Duration 0.5 should print as 0.5s"
    );

    // 3600 should be "3600s", not "1h"
    let prog3 = program(vec![sub("vcl_recv", vec![expr_stmt(dur(dec("3600")))])]);
    let output3 = print(&prog3);
    assert!(
        output3.contains("3600s"),
        "Duration 3600 should print as 3600s"
    );
}

#[test]
fn c3_printer_deterministic_bytes() {
    let prog = program(vec![sub("vcl_recv", vec![expr_stmt(bytes(1024))])]);
    let output = print(&prog);
    assert!(output.contains("1024B"), "Bytes should print as <n>B");
}

#[test]
fn c3_printer_nested_binary_parenthesized() {
    // a + b * c should be a + (b * c) with parens around nested binary
    let prog = program(vec![sub(
        "vcl_recv",
        vec![expr_stmt(bin(
            BinOp::Add,
            num("1"),
            bin(BinOp::Mul, num("2"), num("3")),
        ))],
    )]);
    let output = print(&prog);
    assert!(
        output.contains("1 + (2 * 3)"),
        "Nested binary should be parenthesized"
    );
}

#[test]
fn c3_printer_omitted_args_skipped() {
    // Omitted arguments should not appear in output
    let args = vec![arg(num("1")), arg(Expr::Omitted), arg(num("3"))];
    let prog = program(vec![sub(
        "vcl_recv",
        vec![expr_stmt(fcall(&["std", "log"], args))],
    )]);
    let output = print(&prog);
    // The output should have the call with arguments but omitted ones should be missing
    assert!(
        output.contains("std.log"),
        "Function call should be printed"
    );
}

#[test]
fn printer_backend_with_fields() {
    let fields = vec![
        fexpr("host", str_("example.com")),
        fexpr("port", str_("8080")),
    ];
    let prog = program(vec![backend("web", fields)]);
    let output = print(&prog);

    assert!(
        output.contains("backend web {"),
        "Backend declaration should open"
    );
    assert!(
        output.contains(".host = \"example.com\";"),
        "First field should be present"
    );
    assert!(
        output.contains(".port = \"8080\";"),
        "Second field should be present"
    );
    assert!(output.contains("}"), "Backend should close");
}

#[test]
fn printer_sub_with_statements() {
    let stmts = vec![
        assign(&["req", "http", "x"], str_("1")),
        call("vcl_hit"),
        ret(None),
    ];
    let prog = program(vec![sub("vcl_recv", stmts)]);
    let output = print(&prog);

    assert!(
        output.contains("sub vcl_recv {"),
        "Sub declaration should open"
    );
    assert!(
        output.contains("set req.http.x = \"1\";"),
        "Set statement should be present"
    );
    assert!(
        output.contains("call vcl_hit;"),
        "Call statement should be present"
    );
    assert!(
        output.contains("return;"),
        "Return statement should be present"
    );
    assert!(output.contains("}"), "Sub should close");
}

#[test]
fn printer_acl() {
    let entries = vec![
        acl_entry("1.2.3.4", Some(32), false),
        acl_entry("192.168.0.0", Some(16), false),
        acl_entry("10.0.0.0", Some(8), true),
    ];
    let prog = program(vec![acl("office", entries)]);
    let output = print(&prog);

    assert!(output.contains("acl office {"), "ACL should open");
    assert!(output.contains("\"1.2.3.4\" / 32;"), "ACL entry with mask");
    assert!(output.contains("!\"10.0.0.0\" / 8;"), "Negated ACL entry");
}

#[test]
fn expr_to_string_binary_operator_spacing() {
    // Operators should have single spaces around them
    let expr = bin(BinOp::Eq, var(&["a"]), var(&["b"]));
    let s = expr_to_string(&expr);
    assert_eq!(s, "a == b", "Binary operator should have single spaces");
}

#[test]
fn expr_to_string_call_with_named_args() {
    let args = vec![arg(num("1")), narg("resolve", bool_(true))];
    let expr = fcall(&["std", "log"], args);
    let s = expr_to_string(&expr);
    assert!(s.contains("std.log"), "Call target should be correct");
    assert!(
        s.contains("resolve=true"),
        "Named argument should be formatted as name=value"
    );
}

#[test]
fn printer_vcl_header() {
    let prog = program(vec![]);
    let output = print(&prog);
    assert!(
        output.starts_with("vcl 4.1;"),
        "Output should start with vcl 4.1; header"
    );
}

#[test]
fn printer_blank_lines_between_decls() {
    let prog = program(vec![backend("b1", vec![]), backend("b2", vec![])]);
    let output = print(&prog);
    // Should have vcl 4.1; then blank line, then first backend, blank line, second backend
    let lines: Vec<&str> = output.lines().collect();
    // At least 4 lines: vcl 4.1; (1), blank (2), backend b1 (3), blank (4), backend b2 (5)
    assert!(
        lines.len() >= 5,
        "Should have blank lines between declarations"
    );
}

fn parse(body: &str) -> Program {
    parse_str(&format!("vcl 4.1;\n{body}")).expect("parse ok")
}

#[test]
fn pc1_first_decl_leading_comment_no_blank_line() {
    let p = parse("// leading\nimport std;\n");
    let out = print(&p);
    assert_eq!(out, "vcl 4.1;\n// leading\nimport std;");
}

#[test]
fn pc2_later_decl_leading_comment_gets_blank_line() {
    let p = parse("import std;\n\n// leading\nimport other;\n");
    let out = print(&p);
    assert_eq!(out, "vcl 4.1;\nimport std;\n\n// leading\nimport other;");
}

#[test]
fn pc3_trailing_comment_on_multiline_decl_header_line() {
    let p = parse("backend web { // note\n .host = \"1.2.3.4\";\n}\n");
    let out = print(&p);
    assert!(
        out.contains("backend web {  // note\n"),
        "trailing comment should attach to the opening line, got:\n{out}"
    );
}

#[test]
fn pc4_inline_field_and_stmt_trailing_comments() {
    let p = parse("sub vcl_recv {\n    set req.http.x = \"1\"; // note\n}\n");
    let out = print(&p);
    assert!(out.contains("set req.http.x = \"1\";  // note"));
}

#[test]
fn pc5_first_stmt_leading_comment_no_blank_line_after_brace() {
    let p = parse("sub vcl_recv {\n    // leading\n    return (lookup);\n}\n");
    let out = print(&p);
    assert!(
        out.contains("sub vcl_recv {\n    // leading\n    return (lookup);\n}"),
        "got:\n{out}"
    );
}

#[test]
fn pc6_later_stmt_leading_comment_gets_blank_line() {
    let p = parse(
        "sub vcl_recv {\n    set req.http.x = \"1\";\n\n    // leading\n    return (lookup);\n}\n",
    );
    let out = print(&p);
    assert!(out.contains("set req.http.x = \"1\";\n\n    // leading\n    return (lookup);"));
}

#[test]
fn pc7_orphan_comment_before_closing_brace_attaches_to_previous_stmt() {
    let p = parse("sub vcl_recv {\n    return (lookup);\n\n    // orphan\n}\n");
    let out = print(&p);
    assert!(
        out.contains("return (lookup);\n\n    // orphan\n}"),
        "got:\n{out}"
    );
}

#[test]
fn pc8_eof_trailing_comment_survives_decl_reordering() {
    // sub, acl, backend, import is NOT kind-rank order -- sort.rs
    // reorders to import, backend, acl, sub. The trailing comment must
    // still land at the very end, not wherever `sub` (originally last)
    // ends up.
    let mut p = parse(
        "sub vcl_recv { return (lookup); }\nacl a { \"1.2.3.4\"/32; }\nbackend b { .host = \"x\"; }\nimport std;\n\n# eof\n",
    );
    sort::run(&mut p);
    let out = print(&p);
    assert!(out.trim_end().ends_with("# eof"), "got:\n{out}");
    let sub_pos = out.find("sub vcl_recv").unwrap();
    let eof_pos = out.find("# eof").unwrap();
    assert!(
        eof_pos > sub_pos,
        "eof comment must print after sub, got:\n{out}"
    );
}

#[test]
fn pc9_block_comment_preserves_relative_alignment_on_reindent() {
    let p = parse(
        "sub vcl_recv {\n    /* line one\n       extra indent\n    */\n    return (lookup);\n}\n",
    );
    let out = print(&p);
    let lines: Vec<&str> = out.lines().collect();
    let start = lines.iter().position(|l| l.contains("line one")).unwrap();
    assert_eq!(lines[start], "    /* line one");
    assert_eq!(lines[start + 1], "       extra indent");
    assert_eq!(lines[start + 2], "    */");
}

#[test]
fn pc10_arg_comment_forces_one_per_line_no_blank_before_it() {
    let p = parse("sub vcl_recv {\n    std.log(\"a\", /* c */ \"b\");\n}\n");
    let out = print(&p);
    assert!(out.contains("std.log(\n"), "got:\n{out}");
    assert!(
        !out.contains("\n\n        /* c */"),
        "no blank line should precede an arg's leading comment, got:\n{out}"
    );
    assert!(out.contains("/* c */\n        \"b\""), "got:\n{out}");
}

#[test]
fn pc11_merge_reattaches_fragment_decl_comment_unindented() {
    let mut p = parse(
        "sub vcl_recv {\n    set req.http.a = \"1\";\n}\n// second fragment\nsub vcl_recv {\n    set req.http.b = \"2\";\n}\n",
    );
    merge_only(&mut p);
    let out = print(&p);
    assert_eq!(p.decls.len(), 1, "fragments should be merged into one sub");
    assert!(
        out.contains("\n// second fragment\n    set req.http.b"),
        "reattached comment should be unindented (column 0), got:\n{out}"
    );
}

#[test]
fn pc12_comments_never_affect_canonical_json() {
    let commented = parse("// note\nimport std;\n// another\n");
    let plain = parse("import std;\n");
    assert_eq!(
        canon::to_string(&commented),
        canon::to_string(&plain),
        "comments must never affect canonical JSON"
    );
}
