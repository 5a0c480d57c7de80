//! Tests of the check of names.

use vcl_normalizer::ast::VclResult;
use vcl_normalizer::parser::parse_str;
use vcl_normalizer::symbols::validate;
use vcl_normalizer::table::Table;
use vcl_normalizer::vmod::{ArgSpec, Sig, VmodSpec};

fn no_specs() -> Table<VmodSpec> {
    Table::new()
}

fn ok(src: &str) {
    let p = parse_str(src).expect("parse failed");
    validate(&p, &no_specs()).expect("expected validate() to succeed");
}

fn err(src: &str) -> String {
    let p = parse_str(src).expect("parse failed");
    let e = validate(&p, &no_specs()).expect_err("expected validate() to fail");
    e.msg
}

// S1: Duplicate backend/acl/probe name -> error; multiple same-named
// `sub` blocks -> OK.
#[test]
fn s1_duplicate_names_error_same_name_subs_ok() {
    // Duplicate import: legal, no error (confirmed against `varnishd
    // -C`) -- unlike every other decl kind. Common in real multi-file
    // VCL: several included files each `import std;` independently.
    let dup_import = r#"
        vcl 4.1;
        import std;
        import std;
        sub vcl_recv { return (hash); }
    "#;
    ok(dup_import);

    let dup_backend = r#"
        vcl 4.1;
        backend b { .host = "1.2.3.4"; .port = "80"; }
        backend b { .host = "1.2.3.5"; .port = "80"; }
        sub vcl_recv { return (hash); }
    "#;
    assert!(err(dup_backend).contains("duplicate backend"));

    let dup_probe = r#"
        vcl 4.1;
        probe p { .url = "/"; }
        probe p { .url = "/x"; }
        sub vcl_recv { return (hash); }
    "#;
    assert!(err(dup_probe).contains("duplicate probe"));

    let dup_acl = r#"
        vcl 4.1;
        acl a { "127.0.0.1"; }
        acl a { "127.0.0.2"; }
        sub vcl_recv { return (hash); }
    "#;
    assert!(err(dup_acl).contains("duplicate acl"));

    // Multiple same-named *builtin* subs: legal, no error, bodies
    // effectively both present (validate() must walk both without
    // complaint) -- VCC concatenates them.
    let same_sub = r#"
        vcl 4.1;
        sub vcl_recv { set req.http.X-A = "1"; }
        sub vcl_recv { set req.http.X-B = "2"; }
    "#;
    ok(same_sub);

    // Redeclaring a *custom* sub name is a real VCC error (confirmed
    // against `varnishd -C`: "Subroutine 'helper' redefined") -- only
    // the fixed builtin hook names get the concatenation behavior.
    let dup_custom_sub = r#"
        vcl 4.1;
        sub helper { set req.http.a = "1"; }
        sub helper { set req.http.b = "2"; }
        sub vcl_recv { call helper; }
    "#;
    assert!(err(dup_custom_sub).contains("duplicate sub"));
}

// S1b: an unrecognized vcl_*-prefixed name (e.g. `vcl_devliver`, a typo
// of `vcl_deliver`) is deliberately NOT a hard error -- only a
// non-fatal warning (see the doc comment on this match arm and on
// `ast::is_builtin_sub`: real Varnish Enterprise VCL legitimately uses
// additional `vcl_*` hook names we cannot enumerate, so we can't
// reliably distinguish a real hook from a typo).
#[test]
fn s1b_unrecognized_vcl_prefixed_sub_name_is_not_an_error() {
    let typo_builtin = r#"
        vcl 4.1;
        backend default none;
        sub vcl_recv { set req.http.x = "1"; }
        sub vcl_devliver { set resp.http.y = "1"; }
    "#;
    ok(typo_builtin);

    // A real builtin name is still fine, even declared just once.
    let real_builtin = r#"
        vcl 4.1;
        sub vcl_deliver { set resp.http.y = "1"; }
    "#;
    ok(real_builtin);

    // vcl_connect (Enterprise-specific, confirmed via real customer VCL
    // -- see ast::BUILTIN_SUB_ORDER's doc comment) must not false-positive
    // as an invalid vcl_*-prefixed name.
    let vcl_connect = r#"
        vcl 4.1;
        sub vcl_connect { return (accept); }
    "#;
    ok(vcl_connect);
}

// S2: undefined `call`, `.probe = missing`, bare-var `backend_hint` ->
// error each.
#[test]
fn s2_undefined_references_error() {
    let bad_call = r#"
        vcl 4.1;
        sub vcl_recv { call missing; }
    "#;
    assert!(err(bad_call).contains("undefined sub"));

    let bad_probe_ref = r#"
        vcl 4.1;
        backend b {
            .host = "1.2.3.4";
            .port = "80";
            .probe = missing;
        }
        sub vcl_recv { return (hash); }
    "#;
    assert!(err(bad_probe_ref).contains("undefined probe"));

    let bad_bare_var = r#"
        vcl 4.1;
        backend b { .host = "1.2.3.4"; .port = "80"; }
        sub vcl_recv {
            set req.backend_hint = missing;
            return (hash);
        }
    "#;
    assert!(err(bad_bare_var).contains("undefined reference"));
}

// S3: `new` outside vcl_init -> error; inside -> registers VmodObject;
// method call on unknown object -> error.
#[test]
fn s3_new_placement_and_object_resolution() {
    let new_outside_init = r#"
        vcl 4.1;
        import std;
        sub vcl_recv {
            new obj = std.foo();
            return (hash);
        }
    "#;
    assert!(err(new_outside_init).contains("vcl_init"));

    let new_inside_init_and_used = r#"
        vcl 4.1;
        import directors;
        backend web01 { .host = "1.2.3.4"; .port = "80"; }
        sub vcl_init {
            new vdir = directors.round_robin();
            vdir.add_backend(web01);
        }
        sub vcl_recv {
            set req.backend_hint = vdir.backend();
            return (hash);
        }
    "#;
    ok(new_inside_init_and_used);

    let unknown_object_method = r#"
        vcl 4.1;
        sub vcl_recv {
            set req.http.X = foo.bar();
            return (hash);
        }
    "#;
    assert!(err(unknown_object_method).contains("unknown object or vmod"));
}

// S3b: `new` is legal in a custom sub transitively reachable from
// vcl_init via `call` (not just literally named "vcl_init") --
// confirmed against `varnishd -C`: a real multi-file setup pattern is
// vcl_init -> setup_sub -> helper_sub, each contributing `new` objects.
// Still forbidden in a sub reachable only from a request-time hook.
#[test]
fn s3b_new_legal_transitively_reachable_from_vcl_init() {
    let transitively_reachable = r#"
        vcl 4.1;
        import directors;
        backend web01 { .host = "1.2.3.4"; .port = "80"; }
        sub vcl_init { call setup; }
        sub setup { call helper; }
        sub helper {
            new vdir = directors.round_robin();
            vdir.add_backend(web01);
        }
        sub vcl_recv {
            set req.backend_hint = vdir.backend();
            return (hash);
        }
    "#;
    ok(transitively_reachable);

    // A sub only reachable from vcl_recv (a request-time hook), even
    // transitively through another custom sub, still forbids `new`.
    let reachable_only_from_recv = r#"
        vcl 4.1;
        import directors;
        sub not_reachable_from_init { new vdir = directors.round_robin(); }
        sub vcl_recv { call not_reachable_from_init; return (hash); }
    "#;
    assert!(err(reachable_only_from_recv).contains("vcl_init"));
}

// S4: `call vcl_recv;` (a builtin) -> error.
#[test]
fn s4_call_builtin_is_error() {
    let src = r#"
        vcl 4.1;
        sub vcl_recv {
            call vcl_recv;
            return (hash);
        }
    "#;
    assert!(err(src).contains("builtin"));
}

// S5: with a fake loaded spec: unknown function, bad arity, unknown
// named arg -> error each; value/type checks are NOT performed
// (lenient).
#[test]
fn s5_vmod_signature_checks() {
    let mut specs = Table::new();
    specs.insert(
        "std".to_string(),
        VmodSpec {
            funcs: {
                let mut m = Table::new();
                m.insert(
                    "tolower".to_string(),
                    Sig {
                        args: vec![ArgSpec {
                            name: Some("s".to_string()),
                            default: None,
                            optional: false,
                            enum_values: None,
                        }],
                    },
                );
                m
            },
            objects: Table::new(),
        },
    );

    let parse_and_validate = |src: &str| -> VclResult<()> {
        let p = parse_str(src).unwrap();
        validate(&p, &specs)
    };

    // Unknown function.
    let unknown_func = r#"
        vcl 4.1;
        import std;
        sub vcl_recv {
            set req.http.X = std.nonexistent(req.url);
            return (hash);
        }
    "#;
    let e = parse_and_validate(unknown_func).expect_err("expected error");
    assert!(e.msg.contains("unknown function"), "{}", e.msg);

    // Bad arity: tolower takes exactly one slot; three positional args
    // can never be valid, regardless of optionality.
    let bad_arity = r#"
        vcl 4.1;
        import std;
        sub vcl_recv {
            set req.http.X = std.tolower(req.url, "a", "b");
            return (hash);
        }
    "#;
    let e = parse_and_validate(bad_arity).expect_err("expected error");
    assert!(e.msg.contains("too many"), "{}", e.msg);

    // Unknown named argument.
    let unknown_named = r#"
        vcl 4.1;
        import std;
        sub vcl_recv {
            set req.http.X = std.tolower(bogus = req.url);
            return (hash);
        }
    "#;
    let e = parse_and_validate(unknown_named).expect_err("expected error");
    assert!(e.msg.contains("unknown named argument"), "{}", e.msg);

    // Correct usage: one positional arg -> fine (value/type checks are
    // out of scope; a non-STRING arg like a bool wouldn't be flagged
    // either, and that's intentional).
    let ok_call = r#"
        vcl 4.1;
        import std;
        sub vcl_recv {
            set req.http.X = std.tolower(req.url);
            return (hash);
        }
    "#;
    parse_and_validate(ok_call).expect("expected success");
}

// S5b: ENUM-typed vmod arguments are validated against the legal value
// list straight from the JSON spec (real shape, from libvmod_blob's
// actual `encode` function) -- a valid literal is silent, an invalid
// one is a hard error (unlike the generic bare-Var case, this is
// unambiguous: the vmod spec exhaustively lists what's legal).
#[test]
fn s5b_enum_argument_values_checked_against_spec() {
    let mut specs = Table::new();
    specs.insert(
        "blob".to_string(),
        VmodSpec {
            funcs: {
                let mut m = Table::new();
                m.insert(
                    "encode".to_string(),
                    Sig {
                        args: vec![
                            ArgSpec {
                                name: Some("encoding".to_string()),
                                default: Some("IDENTITY".to_string()),
                                optional: true,
                                enum_values: Some(
                                    ["IDENTITY", "BASE64", "BASE64URL", "HEX", "URL"]
                                        .iter()
                                        .map(|s| s.to_string())
                                        .collect(),
                                ),
                            },
                            ArgSpec {
                                name: Some("blob".to_string()),
                                default: None,
                                optional: false,
                                enum_values: None,
                            },
                        ],
                    },
                );
                m
            },
            objects: Table::new(),
        },
    );

    let parse_and_validate = |src: &str| -> VclResult<()> {
        let p = parse_str(src).unwrap();
        validate(&p, &specs)
    };

    let valid_enum = r#"
        vcl 4.1;
        import blob;
        sub vcl_recv {
            set req.http.X = blob.encode(encoding = HEX, blob = req.hash);
            return (hash);
        }
    "#;
    parse_and_validate(valid_enum).expect("HEX is a legal encoding value");

    let invalid_enum = r#"
        vcl 4.1;
        import blob;
        sub vcl_recv {
            set req.http.X = blob.encode(encoding = BOGUS, blob = req.hash);
            return (hash);
        }
    "#;
    let e = parse_and_validate(invalid_enum).expect_err("BOGUS is not a legal encoding value");
    assert!(e.msg.contains("BOGUS"), "{}", e.msg);
    assert!(e.msg.contains("not a valid value"), "{}", e.msg);
}
