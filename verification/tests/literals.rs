//! Tests of the canonical literals.

use vcl_normalizer::ast::builder;
use vcl_normalizer::ast::{bytes_val, duration_secs, Decl, Expr, Stmt};
use vcl_normalizer::decimal::Decimal;
use vcl_normalizer::normalize::literals::run;

fn dec(s: &str) -> Decimal {
    Decimal::parse(s).expect("a decimal")
}

// Test N1: each duration unit and bytes unit, plus integer canonicalization
#[test]
fn test_duration_units() {
    let units = vec![
        ("ms", "0.001"),
        ("s", "1"),
        ("m", "60"),
        ("h", "3600"),
        ("d", "86400"),
        ("w", "604800"),
        ("y", "31557600"),
    ];

    for (unit, expected_secs) in units {
        let result = duration_secs(&dec("1"), unit);
        assert_eq!(
            result,
            Some(dec(expected_secs)),
            "unit {} should convert to {}",
            unit,
            expected_secs
        );
    }
}

#[test]
fn test_bytes_units() {
    let units = vec![
        ("B", 1),
        ("KB", 1 << 10),
        ("MB", 1 << 20),
        ("GB", 1 << 30),
        ("TB", 1 << 40),
    ];

    for (unit, expected_bytes) in units {
        let result = bytes_val(&dec("1"), unit);
        assert_eq!(
            result,
            Some(expected_bytes),
            "unit {} should convert to {}",
            unit,
            expected_bytes
        );
    }
}

#[test]
fn test_num_integer_canonicalization() {
    let mut prog = builder::program(vec![builder::sub(
        "test",
        vec![builder::assign(&["req", "http", "x"], builder::num("5"))],
    )]);

    run(&mut prog);

    let sub = &prog.decls[0];
    if let Decl::Sub { body, .. } = sub {
        if let Stmt::Assign {
            rhs: Expr::Num(text),
            ..
        } = &body[0]
        {
            // Integer without dot should remain unchanged
            assert_eq!(text, "5");
        } else {
            panic!("Expected Set statement");
        }
    }
}

#[test]
fn test_num_float_canonicalization() {
    let mut prog = builder::program(vec![builder::sub(
        "test",
        vec![builder::assign(&["req", "http", "x"], builder::num("1.5"))],
    )]);

    run(&mut prog);

    let sub = &prog.decls[0];
    if let Decl::Sub { body, .. } = sub {
        if let Stmt::Assign {
            rhs: Expr::Num(text),
            ..
        } = &body[0]
        {
            // Float should be reformatted via f64 round-trip
            assert_eq!(text, "1.5");
        } else {
            panic!("Expected Set statement");
        }
    }
}

// Test N2: header lowercasing (read positions only -- see module doc).
#[test]
fn test_header_write_case_preserved_in_set_lvalue() {
    // Bug regression: `set req.http.foO = req.http.Bar;` must keep the
    // write target's case exactly ("foO") while still lowercasing the
    // read ("Bar" -> "bar") -- writing a header is case-sensitive
    // (determines the literal header name on the wire); reading one is
    // a case-insensitive lookup.
    let mut prog = builder::program(vec![builder::sub(
        "test",
        vec![builder::assign(
            &["req", "http", "foO"],
            builder::var(&["req", "http", "Bar"]),
        )],
    )]);

    run(&mut prog);

    let sub = &prog.decls[0];
    if let Decl::Sub { body, .. } = sub {
        if let Stmt::Assign {
            lhs,
            rhs: Expr::Var(rhs_parts),
            ..
        } = &body[0]
        {
            assert_eq!(
                &lhs.parts,
                &["req", "http", "foO"],
                "write target case must be preserved exactly"
            );
            assert_eq!(
                rhs_parts,
                &["req", "http", "bar"],
                "read case is still lowercased for comparison"
            );
        } else {
            panic!("Expected Set statement with Var rhs");
        }
    }
}

#[test]
fn test_header_write_case_preserved_in_unset_lvalue() {
    let mut prog = builder::program(vec![builder::sub(
        "test",
        vec![builder::unset(&["req", "http", "X-Forwarded-For"])],
    )]);

    run(&mut prog);

    let sub = &prog.decls[0];
    if let Decl::Sub { body, .. } = sub {
        if let Stmt::Unset { lhs, .. } = &body[0] {
            assert_eq!(&lhs.parts, &["req", "http", "X-Forwarded-For"]);
        } else {
            panic!("Expected Unset statement");
        }
    }
}

#[test]
fn test_header_lowercase_in_var() {
    let mut prog = builder::program(vec![builder::sub(
        "test",
        vec![builder::assign(
            &["req", "http", "x"],
            builder::var(&["req", "http", "Cookie"]),
        )],
    )]);

    run(&mut prog);

    let sub = &prog.decls[0];
    if let Decl::Sub { body, .. } = sub {
        if let Stmt::Assign {
            rhs: Expr::Var(parts),
            ..
        } = &body[0]
        {
            assert_eq!(parts, &["req", "http", "cookie"]);
        } else {
            panic!("Expected Set statement with Var");
        }
    }
}

#[test]
fn test_header_lowercase_in_call() {
    let mut prog = builder::program(vec![builder::sub(
        "test",
        vec![builder::assign(
            &["req", "http", "x"],
            builder::fcall(&["req", "http", "get_header"], vec![]),
        )],
    )]);

    run(&mut prog);

    let sub = &prog.decls[0];
    if let Decl::Sub { body, .. } = sub {
        if let Stmt::Assign {
            rhs: Expr::Call { target, .. },
            ..
        } = &body[0]
        {
            assert_eq!(target, &["req", "http", "get_header"]);
        } else {
            panic!("Expected Set statement with Call");
        }
    }
}

#[test]
fn test_header_lowercase_only_after_http() {
    let mut prog = builder::program(vec![builder::sub(
        "test",
        vec![builder::assign(
            &["req", "http", "x"],
            builder::var(&["req", "Url"]),
        )],
    )]);

    run(&mut prog);

    let sub = &prog.decls[0];
    if let Decl::Sub { body, .. } = sub {
        if let Stmt::Assign {
            rhs: Expr::Var(parts),
            ..
        } = &body[0]
        {
            // Only the segment right after 'http' is lowercased; `req.Url`
            // has no 'http' segment at all, so it's untouched.
            assert_eq!(parts, &["req", "Url"]);
        } else {
            panic!("Expected Set statement with Var rhs");
        }
    }
}

// Test N3: ACL default masks
#[test]
fn test_acl_ipv4_mask() {
    let mut prog = builder::program(vec![builder::acl(
        "test",
        vec![builder::acl_entry("192.168.1.1", None, false)],
    )]);

    run(&mut prog);

    let acl = &prog.decls[0];
    if let Decl::Acl { entries, .. } = acl {
        assert_eq!(entries[0].mask, Some(32));
    } else {
        panic!("Expected Acl declaration");
    }
}

#[test]
fn test_acl_ipv6_mask() {
    let mut prog = builder::program(vec![builder::acl(
        "test",
        vec![builder::acl_entry("::1", None, false)],
    )]);

    run(&mut prog);

    let acl = &prog.decls[0];
    if let Decl::Acl { entries, .. } = acl {
        assert_eq!(entries[0].mask, Some(128));
    } else {
        panic!("Expected Acl declaration");
    }
}

#[test]
fn test_acl_dns_name_no_mask() {
    let mut prog = builder::program(vec![builder::acl(
        "test",
        vec![builder::acl_entry("example.com", None, false)],
    )]);

    run(&mut prog);

    let acl = &prog.decls[0];
    if let Decl::Acl { entries, .. } = acl {
        assert_eq!(entries[0].mask, None);
    } else {
        panic!("Expected Acl declaration");
    }
}

#[test]
fn test_acl_existing_mask_preserved() {
    let mut prog = builder::program(vec![builder::acl(
        "test",
        vec![builder::acl_entry("192.168.0.0", Some(16), false)],
    )]);

    run(&mut prog);

    let acl = &prog.decls[0];
    if let Decl::Acl { entries, .. } = acl {
        assert_eq!(entries[0].mask, Some(16));
    } else {
        panic!("Expected Acl declaration");
    }
}
