//! Tests of the parser.

use vcl_normalizer::ast::builder::{bin, num, un, var};
use vcl_normalizer::ast::{BinOp, Decl, Expr, FieldValue, Program, Span, Stmt, UnOp};
use vcl_normalizer::parser::parse_str;

fn prog(src: &str) -> Program {
    parse_str(src).expect("parse ok")
}

fn wrap(body: &str) -> String {
    format!("vcl 4.1;\n{body}\n")
}

// ───────────────────────── P1: top-level productions ─────────────────────────

#[test]
fn p1_import_plain_and_from() {
    let p = prog(&wrap(r#"import std;"#));
    assert_eq!(p.decls.len(), 1);
    match &p.decls[0] {
        Decl::Import { name, from, .. } => {
            assert_eq!(name, "std");
            assert_eq!(from, &None);
        }
        other => panic!("unexpected decl: {other:?}"),
    }

    let p2 = prog(&wrap(r#"import mymod from "path/to/mymod.so";"#));
    match &p2.decls[0] {
        Decl::Import { name, from, .. } => {
            assert_eq!(name, "mymod");
            assert_eq!(from.as_deref(), Some("path/to/mymod.so"));
        }
        other => panic!("unexpected decl: {other:?}"),
    }
}

#[test]
fn p1_backend_body_and_none() {
    let p = prog(&wrap(
        r#"backend web { .host = "1.2.3.4"; .port = "80"; }
           backend b2 none;"#,
    ));
    match &p.decls[0] {
        Decl::Backend {
            name, none, body, ..
        } => {
            assert_eq!(name, "web");
            assert!(!*none);
            assert_eq!(body.as_ref().unwrap().len(), 2);
        }
        other => panic!("unexpected decl: {other:?}"),
    }
    match &p.decls[1] {
        Decl::Backend {
            name, none, body, ..
        } => {
            assert_eq!(name, "b2");
            assert!(*none);
            assert!(body.is_none());
        }
        other => panic!("unexpected decl: {other:?}"),
    }
}

#[test]
fn p1_probe() {
    let p = prog(&wrap(
        r#"probe healthcheck { .url = "/healthz"; .interval = 5s; }"#,
    ));
    match &p.decls[0] {
        Decl::Probe { name, body, .. } => {
            assert_eq!(name, "healthcheck");
            assert_eq!(body.len(), 2);
        }
        other => panic!("unexpected decl: {other:?}"),
    }
}

#[test]
fn p1_acl() {
    let p = prog(&wrap(r#"acl office { "10.0.0.0"/8; !"192.168.1.1"; }"#));
    match &p.decls[0] {
        Decl::Acl { name, entries, .. } => {
            assert_eq!(name, "office");
            assert_eq!(entries.len(), 2);
            assert_eq!(entries[0].addr, "10.0.0.0");
            assert_eq!(entries[0].mask, Some(8));
            assert!(!entries[0].negated);
            assert_eq!(entries[1].addr, "192.168.1.1");
            assert_eq!(entries[1].mask, None);
            assert!(entries[1].negated);
        }
        other => panic!("unexpected decl: {other:?}"),
    }
}

#[test]
fn p1_sub() {
    let p = prog(&wrap(r#"sub vcl_recv { return (lookup); }"#));
    match &p.decls[0] {
        Decl::Sub { name, body, .. } => {
            assert_eq!(name, "vcl_recv");
            assert_eq!(body.len(), 1);
        }
        other => panic!("unexpected decl: {other:?}"),
    }
}

// ───────────────────────── P2: statement productions ─────────────────────────

#[test]
fn p2_set_unset_call() {
    let p = prog(&wrap(
        r#"sub vcl_recv {
             set req.http.x-foo = "bar";
             unset req.http.x-foo;
             call custom_sub;
           }"#,
    ));
    let body = match &p.decls[0] {
        Decl::Sub { body, .. } => body,
        _ => panic!("expected sub"),
    };
    assert_eq!(body.len(), 3);
    assert!(
        matches!(&body[0], Stmt::Assign { lhs, .. } if lhs.parts == vec!["req","http","x-foo"])
    );
    assert!(
        matches!(&body[1], Stmt::Unset { lhs, .. } if lhs.parts == vec!["req","http","x-foo"])
    );
    assert!(matches!(&body[2], Stmt::Call { sub, .. } if sub == "custom_sub"));
}

#[test]
fn p2_return_variants() {
    let p = prog(&wrap(
        r#"sub vcl_recv {
             return;
             return (pass);
             return (synth(404, "x"));
             return (vcl(lbl));
           }"#,
    ));
    let body = match &p.decls[0] {
        Decl::Sub { body, .. } => body,
        _ => panic!("expected sub"),
    };
    assert_eq!(body.len(), 4);
    assert!(matches!(&body[0], Stmt::Return { action: None, .. }));
    assert!(
        matches!(&body[1], Stmt::Return { action: Some(a), .. } if a.name == "pass" && a.args.is_empty())
    );
    match &body[2] {
        Stmt::Return {
            action: Some(a), ..
        } => {
            assert_eq!(a.name, "synth");
            assert_eq!(a.args.len(), 2);
            assert!(matches!(&a.args[0], Expr::Num(n) if n == "404"));
            assert!(matches!(&a.args[1], Expr::Str(s) if s == "x"));
        }
        other => panic!("unexpected: {other:?}"),
    }
    match &body[3] {
        Stmt::Return {
            action: Some(a), ..
        } => {
            assert_eq!(a.name, "vcl");
            assert_eq!(a.args.len(), 1);
            assert!(
                matches!(&a.args[0], Expr::Var(parts) if parts == &vec!["lbl".to_string()])
            );
        }
        other => panic!("unexpected: {other:?}"),
    }
}

#[test]
fn p2_synthetic_new_bare_call() {
    let p = prog(&wrap(
        r#"sub vcl_init {
             new counter = std.counter();
           }
           sub vcl_synth {
             synthetic("hello");
             std.log("logged");
           }"#,
    ));
    let init_body = match &p.decls[0] {
        Decl::Sub { body, .. } => body,
        _ => panic!("expected sub"),
    };
    match &init_body[0] {
        Stmt::New {
            name,
            vmod,
            ctor,
            args,
            ..
        } => {
            assert_eq!(name, "counter");
            assert_eq!(vmod, "std");
            assert_eq!(ctor, "counter");
            assert!(args.is_empty());
        }
        other => panic!("unexpected: {other:?}"),
    }
    let synth_body = match &p.decls[1] {
        Decl::Sub { body, .. } => body,
        _ => panic!("expected sub"),
    };
    assert!(
        matches!(&synth_body[0], Stmt::Synthetic { value: Expr::Str(s), .. } if s == "hello")
    );
    match &synth_body[1] {
        Stmt::Expr {
            expr: Expr::Call { target, args },
            ..
        } => {
            assert_eq!(target, &vec!["std".to_string(), "log".to_string()]);
            assert_eq!(args.len(), 1);
        }
        other => panic!("unexpected: {other:?}"),
    }
}

// ───────────────────────── P3: elsif/elseif/else-if ─────────────────────────

#[test]
fn p3_elsif_spellings_identical_ast() {
    let a = prog(&wrap(
        r#"sub vcl_recv {
             if (req.http.a) { set req.http.x = "1"; }
             elsif (req.http.b) { set req.http.x = "2"; }
             else { set req.http.x = "3"; }
           }"#,
    ));
    let b = prog(&wrap(
        r#"sub vcl_recv {
             if (req.http.a) { set req.http.x = "1"; }
             elseif (req.http.b) { set req.http.x = "2"; }
             else { set req.http.x = "3"; }
           }"#,
    ));
    let c = prog(&wrap(
        r#"sub vcl_recv {
             if (req.http.a) { set req.http.x = "1"; }
             else if (req.http.b) { set req.http.x = "2"; }
             else { set req.http.x = "3"; }
           }"#,
    ));

    fn norm(p: &Program) -> &Stmt {
        match &p.decls[0] {
            Decl::Sub { body, .. } => &body[0],
            _ => panic!("expected sub"),
        }
    }
    let (sa, sb, sc) = (norm(&a), norm(&b), norm(&c));
    match (sa, sb, sc) {
        (
            Stmt::If {
                arms: aa,
                else_body: ea,
                ..
            },
            Stmt::If {
                arms: ab,
                else_body: eb,
                ..
            },
            Stmt::If {
                arms: ac,
                else_body: ec,
                ..
            },
        ) => {
            assert_eq!(aa.len(), 2);
            assert_eq!(ab.len(), 2);
            assert_eq!(ac.len(), 2);
            assert!(ea.is_some() && eb.is_some() && ec.is_some());
        }
        _ => panic!("expected If everywhere"),
    }
}

#[test]
fn p3_chain_of_three_arms_plus_else() {
    let p = prog(&wrap(
        r#"sub vcl_recv {
             if (a) { }
             elsif (b) { }
             elsif (c) { }
             else { }
           }"#,
    ));
    match &p.decls[0] {
        Decl::Sub { body, .. } => match &body[0] {
            Stmt::If {
                arms, else_body, ..
            } => {
                assert_eq!(arms.len(), 3);
                assert!(else_body.is_some());
            }
            other => panic!("unexpected: {other:?}"),
        },
        _ => panic!("expected sub"),
    }
}

// ───────────────────────── P4: precedence ─────────────────────────

#[test]
fn p4_precedence_or_and() {
    // a || b && c -> Or(a, And(b, c))
    let e = parse_expr_from_str("a || b && c");
    let expected = bin(
        BinOp::Or,
        var(&["a"]),
        bin(BinOp::And, var(&["b"]), var(&["c"])),
    );
    assert_eq!(format!("{e:?}"), format!("{expected:?}"));
}

#[test]
fn p4_precedence_add_mul() {
    // 1 + 2 * 3 -> Add(1, Mul(2,3))
    let e = parse_expr_from_str("1 + 2 * 3");
    let expected = bin(
        BinOp::Add,
        num("1"),
        bin(BinOp::Mul, num("2"), num("3")),
    );
    assert_eq!(format!("{e:?}"), format!("{expected:?}"));
}

#[test]
fn p4_unary_binding() {
    let e = parse_expr_from_str("!a == b");
    // '!' binds tighter than '==': Eq(Not(a), b)
    let expected = bin(BinOp::Eq, un(UnOp::Not, var(&["a"])), var(&["b"]));
    assert_eq!(format!("{e:?}"), format!("{expected:?}"));

    let e2 = parse_expr_from_str("-1 + 2");
    let expected2 = bin(BinOp::Add, un(UnOp::Neg, num("1")), num("2"));
    assert_eq!(format!("{e2:?}"), format!("{expected2:?}"));
}

fn parse_expr_from_str(e: &str) -> Expr {
    let src = wrap(&format!("sub vcl_recv {{ if ({e}) {{ }} }}"));
    let p = prog(&src);
    match &p.decls[0] {
        Decl::Sub { body, .. } => match &body[0] {
            Stmt::If { arms, .. } => arms[0].0.clone(),
            other => panic!("unexpected: {other:?}"),
        },
        _ => panic!("expected sub"),
    }
}

// ───────────────────────── P5: non-associative comparison ─────────────────────────

#[test]
fn p5_comparison_non_associative_is_error() {
    let src = wrap("sub vcl_recv { if (a < b < c) { } }");
    let err = parse_str(&src).expect_err("expected parse error");
    assert!(
        err.msg.to_lowercase().contains("non-associative")
            || err.msg.to_lowercase().contains("comparison")
    );
}

// ───────────────────────── P6: named args ─────────────────────────

#[test]
fn p6_named_args_and_no_misparse_on_eqeq() {
    let e = parse_expr_from_str_call("f(a, x=1)");
    match e {
        Expr::Call { target, args } => {
            assert_eq!(target, vec!["f".to_string()]);
            assert_eq!(args.len(), 2);
            assert_eq!(args[0].name, None);
            assert_eq!(args[1].name, Some("x".into()));
        }
        other => panic!("unexpected: {other:?}"),
    }

    let e2 = parse_expr_from_str_call("f(x == 1)");
    match e2 {
        Expr::Call { target, args } => {
            assert_eq!(target, vec!["f".to_string()]);
            assert_eq!(args.len(), 1);
            assert_eq!(args[0].name, None);
            assert!(matches!(
                &args[0].value,
                Expr::Binary {
                    op: BinOp::Eq,
                    ..
                }
            ));
        }
        other => panic!("unexpected: {other:?}"),
    }
}

fn parse_expr_from_str_call(e: &str) -> Expr {
    let src = wrap(&format!("sub vcl_recv {{ set req.http.x = {e}; }}"));
    let p = prog(&src);
    match &p.decls[0] {
        Decl::Sub { body, .. } => match &body[0] {
            Stmt::Assign { rhs, .. } => rhs.clone(),
            other => panic!("unexpected: {other:?}"),
        },
        _ => panic!("expected sub"),
    }
}

// ───────────────────────── P7: field values ─────────────────────────

#[test]
fn p7_inline_probe_ref_stringlist() {
    // Note: no ';' after the inline probe block's closing '}' -- unlike
    // every other field-value form, real VCC rejects one there
    // (confirmed against `varnishd -C`).
    let p = prog(&wrap(
        r#"probe named_probe { .url = "/"; }
           backend b1 {
             .host = "1.2.3.4";
             .probe = { .url = "/health"; }
           }
           backend b2 {
             .host = "1.2.3.5";
             .probe = named_probe;
           }
           backend b3 {
             .request = "GET / HTTP/1.1" "Host: x";
           }"#,
    ));
    match &p.decls[1] {
        Decl::Backend { body, .. } => {
            let fields = body.as_ref().unwrap();
            match &fields[1].value {
                FieldValue::Probe(inner) => assert_eq!(inner.len(), 1),
                other => panic!("unexpected: {other:?}"),
            }
        }
        _ => panic!("expected backend"),
    }
    match &p.decls[2] {
        Decl::Backend { body, .. } => {
            let fields = body.as_ref().unwrap();
            match &fields[1].value {
                FieldValue::ProbeRef(name) => assert_eq!(name, "named_probe"),
                other => panic!("unexpected: {other:?}"),
            }
        }
        _ => panic!("expected backend"),
    }
    match &p.decls[3] {
        Decl::Backend { body, .. } => {
            let fields = body.as_ref().unwrap();
            match &fields[0].value {
                FieldValue::StringList(strs) => {
                    assert_eq!(
                        strs,
                        &vec!["GET / HTTP/1.1".to_string(), "Host: x".to_string()]
                    )
                }
                other => panic!("unexpected: {other:?}"),
            }
        }
        _ => panic!("expected backend"),
    }
}

#[test]
fn p7b_inline_probe_trailing_semicolon_is_a_parse_error() {
    // Real VCC rejects a ';' after an inline probe block's closing '}'
    // (unlike every other field-value form) -- our grammar must match.
    let src = wrap(
        r#"backend b1 {
             .host = "1.2.3.4";
             .probe = { .url = "/health"; };
           }"#,
    );
    assert!(
        parse_str(&src).is_err(),
        "trailing ';' after inline probe block should be rejected"
    );
}

// ───────────────────────── P8: error locations ─────────────────────────

#[test]
fn p8_errors_carry_correct_location() {
    // missing ';'
    let src = "vcl 4.1;\nsub vcl_recv {\n  set req.http.x = \"y\"\n}\n";
    let err = parse_str(src).expect_err("expected error");
    assert!(err.span.is_some());

    // unclosed brace
    let src2 = "vcl 4.1;\nsub vcl_recv {\n  set req.http.x = \"y\";\n";
    let err2 = parse_str(src2).expect_err("expected error");
    assert!(err2.span.is_some());

    // vcl 4.0 rejected
    let src3 = "vcl 4.0;\n";
    let err3 = parse_str(src3).expect_err("expected error");
    assert!(err3.msg.contains("only VCL 4.1 supported"));
}

// ───────────────────────── P9: every span non-dummy ─────────────────────────

#[test]
fn p9_all_spans_non_dummy() {
    let p = prog(&wrap(
        r#"
           import std;
           probe hc { .url = "/"; }
           backend web {
             .host = "1.2.3.4";
             .probe = hc;
           }
           acl office { "10.0.0.0"/8; }
           sub vcl_recv {
             set req.http.x = "1";
             unset req.http.x;
             call vcl_recv;
             if (req.url == "/") {
               return (lookup);
             } else {
               return (pass);
             }
           }
        "#,
    ));
    assert_span_ok(p.vcl_version);
    for d in &p.decls {
        assert_span_ok(d.span());
        match d {
            Decl::Backend {
                body: Some(fields), ..
            }
            | Decl::Probe { body: fields, .. } => {
                for f in fields {
                    assert_span_ok(f.span);
                }
            }
            Decl::Acl { entries, .. } => {
                for e in entries {
                    assert_span_ok(e.span);
                }
            }
            Decl::Sub { body, .. } => {
                for s in body {
                    check_stmt_span(s);
                }
            }
            _ => {}
        }
    }
}

// ───────────────────────── P10: secondary vcl declarations ─────────────────────────

#[test]
fn p10a_secondary_vcl_decl_matching_version() {
    // A secondary vcl 4.1; (matching version) in mid-stream should be
    // tolerated and discarded, not appearing in Program.decls
    let src = wrap(
        r#"backend b1 none;
           vcl 4.1;
           backend b2 none;"#,
    );
    let p = prog(&src);
    // Should have 2 backend decls, not 3 (no vcl decl in the list)
    assert_eq!(p.decls.len(), 2);
    match &p.decls[0] {
        Decl::Backend { name, .. } => assert_eq!(name, "b1"),
        _ => panic!("expected backend"),
    }
    match &p.decls[1] {
        Decl::Backend { name, .. } => assert_eq!(name, "b2"),
        _ => panic!("expected backend"),
    }
}

#[test]
fn p10b_secondary_vcl_decl_mismatched_version_still_accepted() {
    // Per verified fact 1: a secondary vcl with mismatched version (e.g. 4.0)
    // is still accepted and silently discarded (no error).
    // This matches real Varnish behavior.
    let src = wrap(
        r#"backend b1 none;
           vcl 4.0;
           backend b2 none;"#,
    );
    let p = prog(&src);
    // Should parse OK and have 2 backend decls
    assert_eq!(p.decls.len(), 2);
    match &p.decls[0] {
        Decl::Backend { name, .. } => assert_eq!(name, "b1"),
        _ => panic!("expected backend"),
    }
    match &p.decls[1] {
        Decl::Backend { name, .. } => assert_eq!(name, "b2"),
        _ => panic!("expected backend"),
    }
}

#[test]
fn p10c_secondary_vcl_decl_malformed_is_error() {
    // A malformed secondary vcl decl (e.g. vcl garbage;) should still error
    // -- the shape is enforced, just not the version check.
    let src = wrap(
        r#"backend b1 none;
           vcl garbage;
           backend b2 none;"#,
    );
    let result = parse_str(&src);
    assert!(
        result.is_err(),
        "malformed secondary vcl decl (vcl garbage;) should error"
    );
    let err = result.unwrap_err();
    // Should complain about expected version number
    assert!(
        err.msg.contains("expected VCL version number")
            || err.msg.contains("expected version minor number"),
        "error message: {}",
        err.msg
    );
}

fn check_stmt_span(s: &Stmt) {
    assert_span_ok(s.span());
    if let Stmt::If {
        arms, else_body, ..
    } = s
    {
        for (_, body) in arms {
            for st in body {
                check_stmt_span(st);
            }
        }
        if let Some(eb) = else_body {
            for st in eb {
                check_stmt_span(st);
            }
        }
    }
}

fn assert_span_ok(sp: Span) {
    // A dummy span is file:0 lo:0 hi:0; any real token has hi > lo (or at
    // least is not the exact dummy sentinel) and resolves cleanly.
    assert_ne!(
        (sp.lo, sp.hi),
        (0, 0),
        "span should not be the dummy sentinel"
    );
}
