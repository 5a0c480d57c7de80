//! Tests of the commands, from source texts to what is shown.

use vcl_normalizer::ast::{NameMap, Program, SourceMap, VclResult};
use vcl_normalizer::canon::{canon_eq, to_string};
use vcl_normalizer::parser::{parse_str, parse_vcl_show_text};
use vcl_normalizer::pipeline::{
    diff, error_text, names_text, parse_error_text, prepare, remove_comments, report,
};
use vcl_normalizer::printer::print;
use vcl_normalizer::table::Table;
use vcl_normalizer::vmod::VmodSpec;

fn no_specs() -> Table<VmodSpec> {
    Table::new()
}

fn prepared(src: &str, rename: bool) -> VclResult<(Program, NameMap)> {
    let mut warnings = Vec::new();
    prepare(parse_str(src)?, &no_specs(), rename, &mut warnings)
}

fn canonical(src: &str) -> Program {
    prepared(src, true).expect("a valid program").0
}

fn equivalent(a: &str, b: &str) -> bool {
    canon_eq(&canonical(a), &canonical(b))
}

fn from_show(dump: &str) -> VclResult<Program> {
    let (p, _) = parse_vcl_show_text(dump).expect("a whole dump")?;
    let mut warnings = Vec::new();
    Ok(prepare(p, &no_specs(), true, &mut warnings)?.0)
}

fn build_vcl_show(chunks: &[(&str, &str)]) -> String {
    let mut out = String::new();
    for (i, (filename, content)) in chunks.iter().enumerate() {
        out.push_str(&format!("// VCL.SHOW {i} {} {filename}\n", content.len()));
        out.push_str(content);
    }
    out
}

fn vcl_show_fixture() -> String {
    let root = "vcl 4.1;\nbackend default none;\ninclude \"child_a.vcl\";\ninclude \"child_b.vcl\";\nsub vcl_recv { call helper_a; call helper_b; return (hash); }\n";
    let child_a = "sub helper_a { set req.http.a = \"1\"; }\n";
    let child_b = "vcl 4.1;\nsub helper_b { set req.http.b = \"2\"; }\n";
    let builtin = "sub vcl_init { return (ok); }\n"; // never reached, must be dropped
    build_vcl_show(&[
        ("/etc/varnish/root.vcl", root),
        ("/etc/varnish/child_a.vcl", child_a),
        ("/etc/varnish/child_b.vcl", child_b),
        ("Builtin", builtin),
    ])
}

#[test]
fn i9_header_write_case_sensitive_read_case_insensitive() {
    let write_a = "vcl 4.1;\nbackend default { .host = \"127.0.0.1\"; .port = \"80\"; }\nsub vcl_recv {\n    set req.http.foo = \"1\";\n}\n";
    let write_b = "vcl 4.1;\nbackend default { .host = \"127.0.0.1\"; .port = \"80\"; }\nsub vcl_recv {\n    set req.http.FOO = \"1\";\n}\n";
    assert!(!equivalent(write_a, write_b));

    let read_a = "vcl 4.1;\nbackend default { .host = \"127.0.0.1\"; .port = \"80\"; }\nsub vcl_recv {\n    if (req.http.bar == \"x\") {\n        set req.http.hit = \"1\";\n    }\n}\n";
    let read_b = "vcl 4.1;\nbackend default { .host = \"127.0.0.1\"; .port = \"80\"; }\nsub vcl_recv {\n    if (req.http.BAR == \"x\") {\n        set req.http.hit = \"1\";\n    }\n}\n";
    assert!(equivalent(read_a, read_b));
}

#[test]
fn i10_unrecognized_vcl_prefixed_sub_name_warns_but_succeeds() {
    let src = "vcl 4.1;\nbackend default none;\nsub vcl_recv {\n    set req.http.x = \"1\";\n}\nsub vcl_devliver {\n    set resp.http.y = \"1\";\n}\n";
    let mut warnings = Vec::new();
    prepare(parse_str(src).unwrap(), &no_specs(), true, &mut warnings).expect("no error");
    assert_eq!(warnings.len(), 1);
    assert!(warnings[0].contains("vcl_devliver"), "{}", warnings[0]);
}

#[test]
fn i12a_from_vcl_show_dump_succeeds() {
    let p = from_show(&vcl_show_fixture()).expect("parses");
    let json = to_string(&p);
    assert!(json.contains("helper_a") || json.contains("sub_"), "{json}");
}

#[test]
fn i12c_from_vcl_show_trivially_equivalent_to_self() {
    let a = from_show(&vcl_show_fixture()).expect("parses");
    let b = from_show(&vcl_show_fixture()).expect("parses");
    assert!(canon_eq(&a, &b));
}

#[test]
fn i12d_from_vcl_show_with_cartouche() {
    let dashes = "-".repeat(32);
    let dumped = format!("{dashes}\nItem 1: test\n{dashes}\n{}", vcl_show_fixture());
    let a = from_show(&dumped).expect("parses");
    let b = from_show(&vcl_show_fixture()).expect("parses");
    assert!(canon_eq(&a, &b));
}

#[test]
fn i12e_from_vcl_show_bad_chunk_length_errors() {
    let dump = vcl_show_fixture();
    let real_marker = dump.lines().next().unwrap().to_string();
    let parts: Vec<&str> = real_marker.split_whitespace().collect();
    let wrong_marker = format!("{} {} {} 999999 {}", parts[0], parts[1], parts[2], parts[4]);
    let corrupted = dump.replacen(&real_marker, &wrong_marker, 1);
    assert!(from_show(&corrupted).is_err());
}

#[test]
fn i12f_from_vcl_show_non_builtin_leftover_errors() {
    let root = "vcl 4.1;\nbackend default none;\nsub vcl_recv { return (hash); }\n";
    let orphan = "sub never_called { set req.http.x = \"1\"; }\n";
    let dump = build_vcl_show(&[
        ("/etc/varnish/root.vcl", root),
        ("/etc/varnish/orphan.vcl", orphan),
    ]);
    let err = from_show(&dump).expect_err("a leftover chunk");
    assert!(err.msg.contains("unused"), "{}", err.msg);
}

#[test]
fn naming_order_formatting_and_literals_do_not_matter() {
    let a = r#"vcl 4.1;
        import std;
        // the first
        backend web01 { .host = "a"; .probe = { .url = "/"; .interval = 1m; } }
        backend web02 { .host = "b"; }
        acl office { "10.0.0.0"; }
        sub pick { set req.backend_hint = web02; }
        sub vcl_recv {
            if (client.ip ~ office) { set req.backend_hint = web01; }
            elsif (req.http.Cookie) { call pick; }
        }"#;
    let b = r#"vcl 4.1;
        sub vcl_recv {
            if (client.ip ~ lan) { set req.backend_hint = b1; }
            else if (req.http.cookie) { call choose; }
        }
        sub choose { set req.backend_hint = b2; }
        probe hc { .url = "/"; .interval = 60s; }
        backend b2 { .host = "b"; }
        backend b1 { .host = "a"; .probe = hc; }
        acl lan { "10.0.0.0"/32; }
        import std;"#;
    assert!(equivalent(a, b));
    assert_eq!(to_string(&canonical(a)), to_string(&canonical(b)));
    assert!(!equivalent(a, &b.replace("60s", "61s")));
}

#[test]
fn a_printed_program_is_the_same_program() {
    let src = r#"vcl 4.1;
        import std;
        backend web { .host = "a"; .probe = { .url = "/"; } }
        sub helper { set req.http.x = "1" + req.http.Y; }
        sub vcl_recv { if (!req.http.a && req.url ~ "x") { call helper; } return (hash); }"#;
    for rename in [true, false] {
        let (p, _) = prepared(src, rename).unwrap();
        assert_eq!(to_string(&canonical(&print(&p))), to_string(&canonical(src)));
    }
}

#[test]
fn names_are_kept_unless_asked() {
    let src = "vcl 4.1; backend web { .host = \"a\"; .probe = { .url = \"/\"; } }";
    let (kept, none) = prepared(src, false).unwrap();
    let text = print(&kept);
    assert!(text.contains("backend web") && text.contains("probe probe_1"), "{text}");
    assert!(!text.contains('$'));
    assert!(none.entries.is_empty());
    let (renamed, names) = prepared(src, true).unwrap();
    let text = print(&renamed);
    assert!(text.contains("backend backend_1") && !text.contains("web"), "{text}");
    assert_eq!(names.entries.len(), 2);
}

#[test]
fn a_report_says_where_programs_differ() {
    let a = canonical("vcl 4.1; sub vcl_recv { set req.http.x = \"1\"; }");
    let b = canonical("vcl 4.1; sub vcl_recv { set req.http.x = \"2\"; }");
    let sm = SourceMap::default();
    assert_eq!(report(&a, &sm, &a, &sm, 20), None);
    let text = report(&a, &sm, &b, &sm, 20).expect("a report");
    assert!(text.contains("decls[0] (sub vcl_recv)"), "{text}");
    assert!(!text.contains("more divergences"), "{text}");
    let capped = report(&a, &sm, &b, &sm, 1).expect("a report");
    assert!(capped.contains("more divergences"), "{capped}");
    let d = diff(&a, &b);
    assert!(d.contains("@@"), "{d}");
    assert!(d.contains("-    set req.http.x = \"1\";"), "{d}");
    assert!(d.contains("+    set req.http.x = \"2\";"), "{d}");
    assert_eq!(diff(&a, &a), "");
}

#[test]
fn renamings_are_shown_in_columns() {
    let (_, names) = prepared("vcl 4.1; acl office { \"1.2.3.4\"; }", true).unwrap();
    assert_eq!(
        names_text(&names, &NameMap::default()),
        "names (A: canonical <- original):\n  acl        acl_1                    <- office\nnames (B: canonical <- original):\n"
    );
}

#[test]
fn comments_can_be_removed() {
    let mut p = parse_str("vcl 4.1;\n// note\nimport std;\n# end\n").unwrap();
    assert!(print(&p).contains("// note"));
    remove_comments(&mut p);
    assert_eq!(print(&p), "vcl 4.1;\nimport std;");
}

#[test]
fn errors_are_shown_with_their_places() {
    let src = "vcl 4.1;\nbackend b1 {\n    .host = \"127.0.0.1\"\n}\n";
    let e = parse_str(src).unwrap_err();
    let text = parse_error_text(&e, "bad.vcl", Some(src.to_string()));
    assert!(text.starts_with("bad.vcl:4:1: "), "{text}");
    assert!(text.ends_with("\n  }\n  ^"), "{text}");
    assert_eq!(parse_error_text(&e, "bad.vcl", None), e.msg);
    assert_eq!(parse_error_text(&e, "bad.vcl", Some("vcl".to_string())), e.msg);

    let mut sm = SourceMap::default();
    sm.add("sem.vcl".to_string(), "vcl 4.1;\nsub vcl_recv { call x; }\n".to_string());
    let e = prepared("vcl 4.1;\nsub vcl_recv { call x; }\n", true).unwrap_err();
    assert_eq!(
        error_text(&e, &sm),
        "sem.vcl:2:16: undefined sub 'x'\n  sub vcl_recv { call x; }\n                 ^"
    );
    assert_eq!(error_text(&e, &SourceMap::default()), "undefined sub 'x'");
}

#[test]
fn an_empty_dump_is_a_fault() {
    let r = parse_vcl_show_text("").expect("no cut dump");
    assert_eq!(r.err().expect("a fault").msg, "no VCL.SHOW chunks found in input");
}
