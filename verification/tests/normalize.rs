//! Tests of the passes together.

use vcl_normalizer::ast::builder::{
    acl, acl_entry, arg, assign, backend, bin, bool_, expr_stmt, fcall, fexpr, field, if_, narg,
    num, program, str_, sub, var,
};
use vcl_normalizer::ast::{BinOp, FieldValue};
use vcl_normalizer::canon::to_json;
use vcl_normalizer::json::Json;
use vcl_normalizer::normalize::normalize;
use vcl_normalizer::table::Table;
use vcl_normalizer::vmod::{ArgSpec, Sig, VmodSpec};

fn member<'a>(j: &'a Json, key: &str) -> &'a Json {
    j.get(key).unwrap_or_else(|| panic!("no member {key}"))
}

fn items(j: &Json) -> &Vec<Json> {
    j.as_array().expect("an array")
}

fn text(j: &Json) -> &str {
    j.as_str().expect("a string")
}

// N13: pass-order integration — full pipeline on one hand-built AST
// exercising all five passes: a Num float literal (pass 1), a vmod call
// with a default arg (pass 2), an inline probe (pass 3), a
// shuffled/renameable backend (pass 4), and unsorted decls (pass 5).
#[test]
fn n13_full_pipeline_all_five_passes() {
    let fields_b = vec![
        fexpr("host", str_("b.example.com")),
        field(
            "probe",
            FieldValue::Probe(vec![
                fexpr("url", str_("/health")),
                // Pass 1: Num "2.50" -> canonical "2.5" via f64 round-trip.
                fexpr("interval", num("2.50")),
            ]),
        ),
    ];
    let fields_a = vec![fexpr("host", str_("a.example.com"))];

    let vcl_recv_body = vec![
        // web_a is referenced first -> becomes backend_1 (pass 4 usage-order).
        assign(&["req", "http", "x"], var(&["web_a"])),
        assign(&["req", "http", "y"], var(&["web_b"])),
        if_(
            vec![(
                bin(BinOp::Match, var(&["client", "ip"]), var(&["secure"])),
                vec![],
            )],
            None,
        ),
        // Pass 2: resolve=false equals the spec default -> Omitted -> truncated.
        expr_stmt(fcall(
            &["std", "log"],
            vec![arg(str_("hi")), narg("resolve", bool_(false))],
        )),
    ];

    // Declared in shuffled / unsorted order on purpose.
    let mut prog = program(vec![
        sub("vcl_recv", vcl_recv_body),
        backend("web_b", fields_b),
        backend("web_a", fields_a),
        acl("secure", vec![acl_entry("10.0.0.0", None, false)]),
    ]);

    let mut funcs = Table::new();
    funcs.insert(
        "log".to_string(),
        Sig {
            args: vec![
                ArgSpec {
                    name: Some("msg".to_string()),
                    default: None,
                    optional: false,
                    enum_values: None,
                },
                ArgSpec {
                    name: Some("resolve".to_string()),
                    default: Some("false".to_string()),
                    optional: true,
                    enum_values: None,
                },
            ],
        },
    );
    let mut specs = Table::new();
    specs.insert(
        "std".to_string(),
        VmodSpec {
            funcs,
            objects: Table::new(),
        },
    );

    let names = normalize(&mut prog, &specs, true).expect("normalize should succeed");

    // Pass 4 bijection: web_a used first -> backend_1, web_b second -> backend_2.
    let backend_name = |orig: &str| -> String {
        names
            .entries
            .iter()
            .find(|e| e.0 == "backend" && e.2 == orig)
            .unwrap_or_else(|| panic!("no rename entry for {orig}"))
            .1
            .clone()
    };
    assert_eq!(backend_name("web_a"), "backend_1");
    assert_eq!(backend_name("web_b"), "backend_2");

    let json = to_json(&prog);
    let decls = items(member(&json, "decls"));

    // Pass 5: sorted by kind_rank (probe < backend < acl < sub).
    let kinds: Vec<&str> = decls.iter().map(|d| text(member(d, "type"))).collect();
    assert_eq!(kinds, vec!["probe", "backend", "backend", "acl", "sub"]);

    // Pass 3: inline probe lifted to top-level, renamed to probe_1 (pass 4).
    let probe = &decls[0];
    assert_eq!(text(member(probe, "name")), "probe_1");
    let interval_field = items(member(probe, "body"))
        .iter()
        .find(|f| text(member(f, "name")) == "interval")
        .unwrap();
    assert_eq!(
        text(member(member(member(interval_field, "value"), "value"), "value")),
        "2.5"
    );

    // backend_2 (former web_b) still references the lifted, renamed probe.
    let b2 = decls
        .iter()
        .find(|d| text(member(d, "type")) == "backend" && text(member(d, "name")) == "backend_2")
        .unwrap();
    let probe_field = items(member(b2, "body"))
        .iter()
        .find(|f| text(member(f, "name")) == "probe")
        .unwrap();
    assert_eq!(text(member(member(probe_field, "value"), "type")), "probe_ref");
    assert_eq!(text(member(member(probe_field, "value"), "value")), "probe_1");

    // Pass 2: default-valued optional arg collapsed to Omitted and truncated.
    let vcl_recv = decls
        .iter()
        .find(|d| text(member(d, "name")) == "vcl_recv")
        .unwrap();
    let body = items(member(vcl_recv, "body"));
    let log_stmt = &body[3];
    assert_eq!(text(member(log_stmt, "type")), "expr");
    let call_expr = member(log_stmt, "expr");
    assert_eq!(text(member(call_expr, "type")), "call");
    let call_args = items(member(member(call_expr, "value"), "args"));
    assert_eq!(call_args.len(), 1);
    assert_eq!(member(&call_args[0], "name"), &Json::Null);
    assert_eq!(text(member(member(&call_args[0], "value"), "type")), "str");
    assert_eq!(text(member(member(&call_args[0], "value"), "value")), "hi");
}
