//! Tests of reading vmod descriptions.

use vcl_normalizer::vmod::{binary_name, load_vmod, not_found};

/// Helper to create a test fixture .so file with embedded JSON spec.
fn create_test_vmod(json_spec: &str) -> Vec<u8> {
    let mut data = Vec::new();
    // Arbitrary padding before marker.
    data.extend_from_slice(b"ELF\x7f\x00\x00\x00\x00padding");
    // The marker + JSON.
    data.extend_from_slice(b"VMOD_JSON_SPEC\x02");
    data.extend_from_slice(json_spec.as_bytes());
    data.push(3);
    // Arbitrary padding after marker.
    data.extend_from_slice(b"more padding");
    data
}

#[test]
fn v1_extract_spec_from_fixture() {
    // V1: Extract spec from fixture byte blob
    let spec_json = r#"[["$VMOD","2.0","foo"],["$FUNC","tolower",[["STRING"],null,"VCP_void",["STRING","s",null]]]]"#;
    let data = create_test_vmod(spec_json);

    let spec = load_vmod("test_vmod_v1", &data).unwrap();

    assert!(spec.funcs.contains_key("tolower"));
    let tolower_sig = spec.funcs.get("tolower").unwrap();
    assert_eq!(tolower_sig.args.len(), 1);
}

#[test]
fn v2_missing_marker_truncated_json_bad_version() {
    // V2: Missing marker / truncated JSON / $VMOD version "3.0" → warning + None
    // Missing marker
    let data = b"ELF\x7f\x00\x00padding only, no marker";
    let result = load_vmod("test_vmod_v2_no_marker", data);
    assert_eq!(
        result.unwrap_err(),
        "vmod 'test_vmod_v2_no_marker' has no VMOD_JSON_SPEC marker"
    );

    // Version "3.0" (unsupported)
    let spec_json = r#"[["$VMOD","3.0","foo"]]"#;
    let data = create_test_vmod(spec_json);
    let result = load_vmod("test_vmod_v2_bad_version", &data);
    assert_eq!(
        result.unwrap_err(),
        "vmod 'test_vmod_v2_bad_version' has unsupported spec version '3.0'"
    );

    // Truncated JSON (no end marker)
    let mut data = Vec::new();
    data.extend_from_slice(b"ELF\x7f");
    data.extend_from_slice(b"VMOD_JSON_SPEC\x02");
    data.extend_from_slice(b"[incomplete json...");
    let result = load_vmod("test_vmod_v2_truncated", &data);
    assert_eq!(
        result.unwrap_err(),
        "vmod 'test_vmod_v2_truncated' has truncated VMOD_JSON_SPEC (no end marker)"
    );
}

#[test]
fn v3_func_parsing_optional_args() {
    // V3: $FUNC parsing: names, arg count, optional-arg detection
    let spec_json = r#"[
        ["$VMOD","2.0","foo"],
        ["$FUNC","func_with_optional",[["STRING"],null,"VCP_void",
            ["STRING","required",null],
            ["STRING","optional_with_default","opt_internal","default_value"],
            ["INT",null,"positional_only_internal"]
        ]]
    ]"#;
    let data = create_test_vmod(spec_json);

    let spec = load_vmod("test_vmod_v3", &data).unwrap();

    let func = spec.funcs.get("func_with_optional").unwrap();
    assert_eq!(func.args.len(), 3);

    // First arg: required (name="required", no default)
    assert_eq!(func.args[0].name.as_deref(), Some("required"));
    assert_eq!(func.args[0].default, None);
    assert!(!func.args[0].optional);

    // Second arg: optional with default
    assert_eq!(func.args[1].name.as_deref(), Some("optional_with_default"));
    assert_eq!(func.args[1].default, Some("default_value".to_string()));
    assert!(func.args[1].optional);

    // Third arg: positional-only (name=null)
    assert_eq!(func.args[2].name, None);
    assert!(!func.args[2].optional);
}

#[test]
fn v4_obj_parsing_init_and_methods() {
    // V4: $OBJ parsing: $INIT signature + $METHOD list; $CPROTO/$EVENT ignored
    let spec_json = r#"[
        ["$VMOD","2.0","foo"],
        ["$OBJ","myobj",{},"struct obj *",
            ["$INIT",[["VOID"],null,"myobj_init",["STRING","arg1",null]]],
            ["$CPROTO","..."],
            ["$EVENT","..."],
            ["$METHOD","method1",[["STRING"],null,"myobj_method1"]],
            ["$METHOD","method2",[["INT"],null,"myobj_method2",["STRING","param",null]]]
        ]
    ]"#;
    let data = create_test_vmod(spec_json);

    let spec = load_vmod("test_vmod_v4", &data).unwrap();

    let obj = spec.objects.get("myobj").unwrap();
    assert_eq!(obj.init.args.len(), 1);
    assert_eq!(obj.init.args[0].name.as_deref(), Some("arg1"));

    assert!(obj.methods.contains_key("method1"));
    assert!(obj.methods.contains_key("method2"));
    assert!(!obj.methods.contains_key("$CPROTO"));
    assert_eq!(obj.methods.get("method2").unwrap().args.len(), 1);
}

#[test]
fn description_faults_are_told() {
    let fault = |json: &str| load_vmod("m", &create_test_vmod(json)).unwrap_err();
    assert_eq!(fault("{}"), "vmod 'm' spec is not a JSON array");
    assert_eq!(fault(r#"[["$VMOD"]]"#), "vmod 'm' has no version in $VMOD entry");
    let bad = fault("[1,");
    assert!(bad.starts_with("vmod 'm' has invalid JSON spec: "), "{bad}");
    assert!(bad.contains("EOF while parsing"), "{bad}");
}

#[test]
fn defaults_are_literals() {
    let json = r#"[["$FUNC","f",[[],null,"",
        ["INT","a",null,12],["REAL","b",null,1.50],["BOOL","c",null,true],
        ["STRING","d",null,null],["X","e",null,[1,"z"]],["X","g",null,{"k":false}]]]]"#;
    let spec = load_vmod("m", &create_test_vmod(json)).unwrap();
    let args = &spec.funcs.get("f").unwrap().args;
    let defaults: Vec<&str> = args.iter().map(|a| a.default.as_deref().unwrap()).collect();
    assert_eq!(defaults, vec!["12", "1.5", "true", "null", "[1,\"z\"]", "{\"k\":false}"]);
}

#[test]
fn enum_words_and_flags() {
    let json = r#"[["$FUNC","f",[[],null,"",
        ["ENUM","e",null,"A",["A","B",7]],["INT","o",null],[],"x"]],
        ["$FUNC","g",[["VOID"],null,""]],
        ["$FUNC","h"],
        ["$OBJ","o",{},"t",["$METHOD","m",[["VOID"],null,""]]]]"#;
    let spec = load_vmod("m", &create_test_vmod(json)).unwrap();
    let args = &spec.funcs.get("f").unwrap().args;
    assert_eq!(args.len(), 2);
    assert_eq!(args[0].enum_values, Some(vec!["A".to_string(), "B".to_string()]));
    assert!(args[0].optional);
    assert_eq!(args[1].enum_values, None);
    assert!(!args[1].optional);
    // A function may have no arguments, and one without a signature is none.
    assert_eq!(spec.funcs.get("g").unwrap().args.len(), 0);
    assert!(!spec.funcs.contains_key("h"));
    // An object without a constructor is none.
    assert!(!spec.objects.contains_key("o"));
}

#[test]
fn an_argument_may_be_marked_optional() {
    let json = r#"[["$FUNC","f",[[],null,"",["INT","a","c","0",null,true]]]]"#;
    let spec = load_vmod("m", &create_test_vmod(json)).unwrap();
    assert!(spec.funcs.get("f").unwrap().args[0].optional);
}

#[test]
fn binaries_are_named_after_their_vmods() {
    assert_eq!(binary_name("std"), "libvmod_std.so");
    assert_eq!(not_found("std"), "vmod 'std' not found in vmod paths");
}

#[test]
fn signatures_must_not_be_cut_short() {
    let short = [
        r#"[["$VMOD","2.0","m"],["$FUNC","f",[]]]"#,
        r#"[["$VMOD","2.0","m"],["$FUNC","f",[["VOID"],null]]]"#,
        r#"[["$OBJ","o",{},"t",["$INIT",[["VOID"]]]]]"#,
        r#"[["$OBJ","o",{},"t",["$METHOD","m",[]]]]"#,
        r#"[["$OBJ","o",{},"t",["$INIT",[["VOID"],null,"",["INT","a",null]]],["$METHOD","m",[1,2]]]]"#,
    ];
    for json in short {
        assert_eq!(
            load_vmod("m", &create_test_vmod(json)).unwrap_err(),
            "vmod 'm' has a signature that is cut short",
            "{json}"
        );
    }
    // What is not read does not matter.
    let fine = [
        r#"[["$FUNC",1,[]]]"#,
        r#"[["$CPROTO","x",[]]]"#,
        r#"[["$OBJ","o",{},"t",["$FINI",[]],["$METHOD",1,[]]]]"#,
    ];
    for json in fine {
        assert!(load_vmod("m", &create_test_vmod(json)).is_ok(), "{json}");
    }
}

#[test]
fn the_first_directory_that_holds_a_vmod_is_taken() {
    assert_eq!(vcl_normalizer::vmod::first_holder(&[]), None);
    assert_eq!(vcl_normalizer::vmod::first_holder(&[false, false]), None);
    assert_eq!(vcl_normalizer::vmod::first_holder(&[false, true, true]), Some(1));
    assert_eq!(vcl_normalizer::vmod::first_holder(&[true]), Some(0));
}
