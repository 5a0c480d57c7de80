//! Tests of the comparison.

use vcl_normalizer::ast::builder::{
    assign, backend, bin, call, fexpr, if_, program, ret_action, str_, sub, var,
};
use vcl_normalizer::ast::{BinOp, SourceMap, Span};
use vcl_normalizer::compare::{compare, render_report, Divergence};

#[test]
fn d1_equal_asts_produce_no_divergences() {
    let a = program(vec![
        backend("b1", vec![fexpr("host", str_("example.com"))]),
        sub(
            "vcl_recv",
            vec![
                assign(&["req", "http", "x"], str_("1")),
                ret_action("lookup", vec![]),
            ],
        ),
    ]);
    let b = program(vec![
        backend("b1", vec![fexpr("host", str_("example.com"))]),
        sub(
            "vcl_recv",
            vec![
                assign(&["req", "http", "x"], str_("1")),
                ret_action("lookup", vec![]),
            ],
        ),
    ]);

    let divs = compare(&a, &b, 20);
    assert_eq!(divs, Vec::new());
}

#[test]
fn d2_single_mismatch_reports_one_entry_with_correct_path_no_descent() {
    let a = program(vec![sub(
        "vcl_recv",
        vec![
            call("vcl_hit"),
            call("vcl_hit"),
            if_(
                vec![(
                    bin(
                        BinOp::Match,
                        var(&["req", "http", "cookie"]),
                        str_("session"),
                    ),
                    vec![ret_action("hash", vec![])],
                )],
                None,
            ),
        ],
    )]);
    let b = program(vec![sub(
        "vcl_recv",
        vec![
            call("vcl_hit"),
            call("vcl_hit"),
            if_(
                vec![(
                    bin(
                        BinOp::Match,
                        var(&["req", "http", "cookie"]),
                        str_("sessionid"),
                    ),
                    vec![ret_action("hash", vec![])],
                )],
                None,
            ),
        ],
    )]);

    let divs = compare(&a, &b, 20);
    assert_eq!(divs.len(), 1, "expected exactly one divergence: {:?}", divs);
    let d = &divs[0];
    assert_eq!(
        d.path,
        "decls[0] (sub vcl_recv) › body[2] › if › arms[0].cond"
    );
    assert_eq!(d.snippet_a, "req.http.cookie ~ \"session\"");
    assert_eq!(d.snippet_b, "req.http.cookie ~ \"sessionid\"");
}

#[test]
fn d3_max_reports_caps_number_of_entries() {
    // 5 subs, each with one mismatching `set` statement -> 5 divergences available.
    let mut a_decls = Vec::new();
    let mut b_decls = Vec::new();
    for i in 0..5 {
        let name = format!("vcl_recv_{}", i);
        // custom subs (not builtin) so sort pass ordering is by name; identical
        // names/kinds keep decls aligned, only the body differs.
        a_decls.push(sub(&name, vec![assign(&["req", "http", "x"], str_("a"))]));
        b_decls.push(sub(&name, vec![assign(&["req", "http", "x"], str_("b"))]));
    }
    let a = program(a_decls);
    let b = program(b_decls);

    let divs = compare(&a, &b, 2);
    assert_eq!(divs.len(), 2, "should stop at max_reports: {:?}", divs);

    let report = render_report(
        divs.as_slice(),
        &SourceMap::default(),
        &SourceMap::default(),
        true,
    );
    assert!(
        report.contains("more divergences"),
        "capped report should note more divergences exist: {}",
        report
    );
}

#[test]
fn d4_dual_spans_resolve_to_correct_included_file() {
    // Build source maps with 2 files each, simulating an include: file 0 is the
    // "main" file, file 1 is the "included" file. The differing node's span
    // points at file 1 in both source maps.
    let mut sm_a = SourceMap::default();
    sm_a.add("main_a.vcl".to_string(), "vcl 4.1;\n".to_string());
    sm_a.add(
        "included_a.vcl".to_string(),
        "sub vcl_recv {\n    set req.http.x = \"a\";\n}\n".to_string(),
    );

    let mut sm_b = SourceMap::default();
    sm_b.add("main_b.vcl".to_string(), "vcl 4.1;\n".to_string());
    sm_b.add(
        "included_b.vcl".to_string(),
        "sub vcl_recv {\n    set req.http.x = \"b\";\n}\n".to_string(),
    );

    // Span pointing at `"a"`/`"b"` on line 2 of the included file (file index 1).
    let span_a = Span {
        file: 1,
        lo: 34,
        hi: 37,
    };
    let span_b = Span {
        file: 1,
        lo: 34,
        hi: 37,
    };

    let divs = vec![Divergence {
        path: "decls[0] (sub vcl_recv) › body[0] › set › rhs".to_string(),
        span_a: Some(span_a),
        span_b: Some(span_b),
        snippet_a: "\"a\"".to_string(),
        snippet_b: "\"b\"".to_string(),
    }];

    let report = render_report(&divs, &sm_a, &sm_b, false);
    assert!(
        report.contains("included_a.vcl:2:"),
        "should resolve to the included file for A: {}",
        report
    );
    assert!(
        report.contains("included_b.vcl:2:"),
        "should resolve to the included file for B: {}",
        report
    );
    assert!(
        !report.contains("main_a.vcl") && !report.contains("main_b.vcl"),
        "should not resolve to the main file: {}",
        report
    );
}

#[test]
fn compare_handles_none_spans_with_placeholder() {
    // Dummy spans from ast::builder resolve to file 0 which may not exist in an
    // empty SourceMap; render_loc must fall back to a placeholder rather than
    // panicking on out-of-bounds access.
    let a = program(vec![sub("vcl_recv", vec![call("vcl_hit")])]);
    let b = program(vec![sub("vcl_recv", vec![call("vcl_miss")])]);
    let divs = compare(&a, &b, 20);
    assert_eq!(divs.len(), 1);

    let empty_sm = SourceMap::default();
    let report = render_report(&divs, &empty_sm, &empty_sm, false);
    assert!(
        report.contains("?:?:?"),
        "out-of-range span should render as placeholder: {}",
        report
    );
}

#[test]
fn d5_merged_multi_fragment_sub_divergence_reports_correct_body_index() {
    // compare() runs on already-normalized programs, so a sub that VCL
    // source split into several `sub name { ... }` fragments has already
    // been merged (by normalize::rename::merge_subs) into one Decl::Sub
    // with a concatenated body by the time it gets here. Build that
    // merged shape directly: body [X, Z] in A vs [X, W] in B — same
    // first statement (as if the first fragment matched), diverging in
    // the second (as if the second fragment differed).
    let a = program(vec![sub(
        "vcl_recv",
        vec![
            assign(&["req", "http", "x"], str_("X")),
            assign(&["req", "http", "z"], str_("Z")),
        ],
    )]);
    let b = program(vec![sub(
        "vcl_recv",
        vec![
            assign(&["req", "http", "x"], str_("X")),
            assign(&["req", "http", "z"], str_("W")),
        ],
    )]);

    let divs = compare(&a, &b, 20);
    assert_eq!(divs.len(), 1, "expected exactly one divergence: {:?}", divs);
    let d = &divs[0];
    // The path indexes into the merged body ("body[1]"), not a fragment
    // number — there is no fragment concept left post-merge.
    assert_eq!(d.path, "decls[0] (sub vcl_recv) › body[1] › set › rhs");
    assert_eq!(d.snippet_a, "\"Z\"");
    assert_eq!(d.snippet_b, "\"W\"");
}
