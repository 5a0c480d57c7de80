//! Tests of the canonical form.

use vcl_normalizer::ast::builder::{acl, acl_entry, backend, call, fexpr, program, str_, sub};
use vcl_normalizer::canon::{to_json, to_string};
use vcl_normalizer::json::{compact, Json};

#[test]
fn c1_json_contains_metadata_and_no_spans() {
    let prog = program(vec![backend(
        "b1",
        vec![fexpr("host", str_("example.com"))],
    )]);
    let json = to_json(&prog);

    // Check metadata is present
    assert_eq!(
        json.get("vcl_normalizer_canon_version"),
        Some(&Json::Number("1".to_string()))
    );
    assert_eq!(json.get("vcl"), Some(&Json::Str("4.1".to_string())));
    assert!(matches!(json.get("decls"), Some(Json::Array(_))));

    // Check no span fields anywhere in the JSON tree
    let json_str = compact(&json);
    assert!(
        !json_str.contains("\"file\"")
            && !json_str.contains("\"lo\"")
            && !json_str.contains("\"hi\""),
        "JSON should not contain span fields (file, lo, hi). Got: {}",
        json_str
    );
}

#[test]
fn c2_same_ast_produces_byte_identical_json() {
    let prog1 = program(vec![
        backend("b1", vec![fexpr("host", str_("example.com"))]),
        acl("acl1", vec![acl_entry("1.2.3.4", Some(32), false)]),
    ]);
    let prog2 = program(vec![
        backend("b1", vec![fexpr("host", str_("example.com"))]),
        acl("acl1", vec![acl_entry("1.2.3.4", Some(32), false)]),
    ]);

    let json1 = to_string(&prog1);
    let json2 = to_string(&prog2);

    assert_eq!(json1, json2, "Same AST should produce byte-identical JSON");
}

#[test]
fn c3_printer_deterministic_and_reparseable() {
    // This test is really for printer.rs, but we verify the JSON part is deterministic.
    let prog = program(vec![sub("vcl_recv", vec![call("vcl_hit")])]);

    // Multiple serializations should be identical
    let json1 = to_json(&prog);
    let json2 = to_json(&prog);
    assert_eq!(json1, json2);
}
