//! Tests of canonical names.

use vcl_normalizer::ast::builder::{
    acl, acl_entry, assign, backend, backend_none, bin, call, fexpr, field, if_, probe, program,
    str_, sub, var,
};
use vcl_normalizer::ast::{is_builtin_sub, BinOp, Decl, FieldValue};
use vcl_normalizer::canon::to_json;
use vcl_normalizer::normalize::merge::merge_subs;
use vcl_normalizer::normalize::rename::{merge_only, run};
use vcl_normalizer::normalize::{probes, sort};

#[test]
fn n7_shuffled_decls_produce_identical_canonical_ast() {
    let decls_a = vec![
        backend("web_a", vec![fexpr("host", str_("a.example.com"))]),
        backend("web_b", vec![fexpr("host", str_("b.example.com"))]),
        acl("internal", vec![acl_entry("10.0.0.0", Some(8), false)]),
        sub(
            "vcl_recv",
            vec![
                assign(&["req", "http", "x"], var(&["web_a"])),
                if_(
                    vec![(
                        bin(
                            BinOp::Match,
                            var(&["client", "ip"]),
                            var(&["internal"]),
                        ),
                        vec![call("helper")],
                    )],
                    None,
                ),
            ],
        ),
        sub("helper", vec![assign(&["req", "http", "y"], var(&["web_b"]))]),
    ];
    // Shuffled order.
    let decls_b = vec![
        decls_a[3].clone(),
        decls_a[4].clone(),
        decls_a[1].clone(),
        decls_a[0].clone(),
        decls_a[2].clone(),
    ];

    let mut pa = program(decls_a);
    let mut pb = program(decls_b);

    run(&mut pa);
    run(&mut pb);
    sort::run(&mut pa);
    sort::run(&mut pb);

    let ja = to_json(&pa);
    let jb = to_json(&pb);
    assert_eq!(ja, jb);
}

#[test]
fn n7b_interleaved_same_name_subs_merge_in_relative_order_regardless_of_interleaving() {
    // sub vcl_recv { X } / sub vcl_deliver { Y } / sub vcl_recv { Z }
    let decls_a = vec![
        sub("vcl_recv", vec![assign(&["req", "http", "x"], str_("X"))]),
        sub("vcl_deliver", vec![assign(&["resp", "http", "y"], str_("Y"))]),
        sub("vcl_recv", vec![assign(&["req", "http", "z"], str_("Z"))]),
    ];
    // Same fragments, but vcl_deliver now precedes both vcl_recv fragments.
    let decls_b = vec![
        sub("vcl_deliver", vec![assign(&["resp", "http", "y"], str_("Y"))]),
        sub("vcl_recv", vec![assign(&["req", "http", "x"], str_("X"))]),
        sub("vcl_recv", vec![assign(&["req", "http", "z"], str_("Z"))]),
    ];

    let mut pa = program(decls_a);
    let mut pb = program(decls_b);

    run(&mut pa);
    run(&mut pb);
    sort::run(&mut pa);
    sort::run(&mut pb);

    // Both merge to one vcl_recv body [X, Z] and one vcl_deliver body [Y] —
    // interleaving a different-named sub between the two vcl_recv fragments
    // must not change the merged (concatenated) order, and top-level sort
    // makes the surrounding decl order a non-difference.
    let ja = to_json(&pa);
    let jb = to_json(&pb);
    assert_eq!(ja, jb);

    let recv = pa
        .decls
        .iter()
        .find(|d| d.name() == "vcl_recv")
        .expect("vcl_recv present");
    if let Decl::Sub { body, .. } = recv {
        assert_eq!(body.len(), 2, "expected merged 2-statement body");
    } else {
        panic!("expected Decl::Sub");
    }
}

#[test]
fn merge_only_keeps_real_names_but_finalizes_anonymous_probe() {
    // Mirrors the real pipeline with rename disabled (`vcl-normalizer print`
    // without `--rename`): pass 3 (probes::run) lifts an inline probe
    // to a `$anon_probe_1` placeholder decl first; merge_only must turn
    // that into a valid identifier ("probe_1") without touching any of
    // the real, user-declared names (web01, vcl_recv, ...).
    let mut p = program(vec![
        backend(
            "web01",
            vec![
                fexpr("host", str_("1.2.3.4")),
                field(
                    "probe",
                    FieldValue::Probe(vec![fexpr("url", str_("/health"))]),
                ),
            ],
        ),
        sub(
            "vcl_recv",
            vec![assign(&["req", "http", "x"], var(&["web01"]))],
        ),
    ]);
    probes::run(&mut p);

    // Sanity: the placeholder exists before merge_only runs.
    assert!(p.decls.iter().any(|d| d.name() == "$anon_probe_1"));

    merge_only(&mut p);

    assert!(
        !p.decls.iter().any(|d| d.name().starts_with('$')),
        "no placeholder name should survive merge_only: {:?}",
        p.decls.iter().map(Decl::name).collect::<Vec<_>>()
    );
    assert!(p.decls.iter().any(|d| d.name() == "probe_1"));
    // Real, user-declared names are untouched.
    assert!(p.decls.iter().any(|d| d.name() == "web01"));
    assert!(p.decls.iter().any(|d| d.name() == "vcl_recv"));

    let backend = p
        .decls
        .iter()
        .find(|d| d.name() == "web01")
        .expect("web01 present");
    if let Decl::Backend {
        body: Some(fields), ..
    } = backend
    {
        let probe_field = fields.iter().find(|f| f.name == "probe").unwrap();
        match &probe_field.value {
            FieldValue::ProbeRef(name) => assert_eq!(name, "probe_1"),
            other => panic!("expected ProbeRef, got {other:?}"),
        }
    } else {
        panic!("expected Decl::Backend with a body");
    }
}

#[test]
fn n7c_merge_subs_only_merges_builtin_names_leaves_custom_duplicates_unmerged() {
    let mut p = program(vec![
        sub("vcl_recv", vec![assign(&["req", "http", "a"], str_("A"))]),
        sub("helper", vec![assign(&["req", "http", "b"], str_("B"))]),
        sub("vcl_recv", vec![assign(&["req", "http", "c"], str_("C"))]),
        sub("helper", vec![assign(&["req", "http", "d"], str_("D"))]),
    ]);

    merge_subs(&mut p);

    let recv_count = p
        .decls
        .iter()
        .filter(|d| matches!(d, Decl::Sub{name, ..} if name == "vcl_recv"))
        .count();
    assert_eq!(recv_count, 1, "builtin fragments merge into one decl");
    let recv = p
        .decls
        .iter()
        .find(|d| matches!(d, Decl::Sub{name, ..} if name == "vcl_recv"))
        .unwrap();
    if let Decl::Sub { body, .. } = recv {
        assert_eq!(body.len(), 2, "merged vcl_recv body is [A, C]");
    }

    let helper_count = p
        .decls
        .iter()
        .filter(|d| matches!(d, Decl::Sub{name, ..} if name == "helper"))
        .count();
    assert_eq!(
        helper_count, 2,
        "duplicate custom sub fragments are left separate, not merged"
    );
}

#[test]
fn n7d_split_builtin_sub_calling_custom_helper_anchored_regardless_of_interleaving() {
    // vcl_recv split into two (legal, builtin) fragments with an
    // unrelated acl interleaved between them; the first fragment calls
    // a plain (non-split) custom sub "helper".
    let decls_a = vec![
        sub("vcl_recv", vec![call("helper")]),
        acl("distract", vec![acl_entry("10.0.0.0", Some(8), false)]),
        sub("vcl_recv", vec![assign(&["req", "http", "z"], str_("Z"))]),
        sub("helper", vec![assign(&["req", "http", "a"], str_("A"))]),
    ];
    // Same fragments, but the interleaving acl now precedes both.
    let decls_b = vec![
        decls_a[1].clone(),
        decls_a[0].clone(),
        decls_a[2].clone(),
        decls_a[3].clone(),
    ];

    let mut pa = program(decls_a);
    let mut pb = program(decls_b);

    let map_a = run(&mut pa);
    let map_b = run(&mut pb);
    sort::run(&mut pa);
    sort::run(&mut pb);

    let ja = to_json(&pa);
    let jb = to_json(&pb);
    assert_eq!(ja, jb);

    // helper is renamed exactly once, anchored at the call inside the
    // first vcl_recv fragment, regardless of the acl's position.
    for map in [&map_a, &map_b] {
        let helper_entries: Vec<_> = map.entries.iter().filter(|e| e.2 == "helper").collect();
        assert_eq!(helper_entries.len(), 1, "helper renamed exactly once");
        assert_eq!(helper_entries[0].1, "sub_1");
    }

    // vcl_recv's merged body is [call helper, set z] in declaration order.
    for p in [&pa, &pb] {
        let recv = p
            .decls
            .iter()
            .find(|d| matches!(d, Decl::Sub{name, ..} if name == "vcl_recv"))
            .expect("vcl_recv present");
        if let Decl::Sub { body, .. } = recv {
            assert_eq!(body.len(), 2, "expected merged 2-statement vcl_recv body");
        } else {
            panic!("expected Decl::Sub");
        }
    }
}

#[test]
fn n8_usage_order_anchoring() {
    // web_b is declared first but web_a is referenced first in vcl_recv.
    let mut p = program(vec![
        backend("web_b", vec![fexpr("host", str_("b.example.com"))]),
        backend("web_a", vec![fexpr("host", str_("a.example.com"))]),
        sub(
            "vcl_recv",
            vec![assign(&["req", "http", "x"], var(&["web_a"]))],
        ),
    ]);

    let map = run(&mut p);

    let backend_name = |orig: &str| -> String {
        map.entries
            .iter()
            .find(|e| e.0 == "backend" && e.2 == orig)
            .unwrap_or_else(|| panic!("no rename entry for {orig}"))
            .1
            .clone()
    };
    assert_eq!(backend_name("web_a"), "backend_1");
    assert_eq!(backend_name("web_b"), "backend_2");
}

#[test]
fn n9_call_dfs_diamond_visited_once() {
    // vcl_recv calls "top"; top calls "left" then "right"; both left and
    // right call "shared". Diamond call graph: shared is visited once,
    // numbered at the first call-site position (via left).
    let mut p = program(vec![
        sub("shared", vec![assign(&["req", "http", "z"], str_("v"))]),
        sub("right", vec![call("shared")]),
        sub("left", vec![call("shared")]),
        sub("top", vec![call("left"), call("right")]),
        sub("vcl_recv", vec![call("top")]),
    ]);

    let map = run(&mut p);

    let sub_name = |orig: &str| -> String {
        map.entries
            .iter()
            .find(|e| e.0 == "sub" && e.2 == orig)
            .unwrap_or_else(|| panic!("no rename entry for {orig}"))
            .1
            .clone()
    };
    assert_eq!(sub_name("top"), "sub_1");
    assert_eq!(sub_name("left"), "sub_2");
    assert_eq!(sub_name("shared"), "sub_3");
    assert_eq!(sub_name("right"), "sub_4");

    // Order in the NameMap reflects assignment order too.
    let names: Vec<&str> = map
        .entries
        .iter()
        .filter(|e| e.0 == "sub")
        .map(|e| e.2.as_str())
        .collect();
    assert_eq!(names, vec!["top", "left", "shared", "right"]);
}

#[test]
fn unknown_vcl_prefixed_hook_still_dfs_anchors_its_calls() {
    // vcl_vha_internal-style scenario: a vcl_*-prefixed sub NOT in
    // BUILTIN_SUB_ORDER (so real-VCC-unenumerable, treated as a hook
    // per is_builtin_sub) that itself `call`s a custom sub. Without
    // walking it, "helper" would incorrectly fall into the dead
    // (unreferenced) tie-break pool instead of being anchored by its
    // real call site.
    let mut p = program(vec![
        sub("helper", vec![assign(&["req", "http", "x"], str_("1"))]),
        sub("vcl_vha_internal", vec![call("helper")]),
    ]);

    let map = run(&mut p);

    let helper_entry = map
        .entries
        .iter()
        .find(|e| e.0 == "sub" && e.2 == "helper")
        .expect("helper should be renamed via the DFS walk, not the dead pool");
    assert_eq!(helper_entry.1, "sub_1");

    // vcl_vha_internal itself keeps its name (it's a hook).
    assert!(p
        .decls
        .iter()
        .any(|d| matches!(d, Decl::Sub{name, ..} if name == "vcl_vha_internal")));
}

#[test]
fn is_builtin_sub_is_a_prefix_check() {
    // Every name that begins with `vcl_` is one of a hook.
    assert!(is_builtin_sub("vcl_deliver"));
    assert!(is_builtin_sub("vcl_recv"));
    assert!(is_builtin_sub("vcl_devliver")); // typo of vcl_deliver -- still treated as a hook
    assert!(is_builtin_sub("vcl_vha_internal")); // real Enterprise hook, not in BUILTIN_SUB_ORDER
    assert!(!is_builtin_sub("vc_typo"));
    assert!(!is_builtin_sub("helper"));
}

#[test]
fn n10_builtin_and_default_keep_names_dead_tie_break_deterministic() {
    let mut p1 = program(vec![
        backend_none("default"),
        acl("z_acl", vec![acl_entry("1.2.3.4", Some(32), false)]),
        acl("a_acl", vec![acl_entry("1.2.3.4", Some(32), false)]),
        sub("vcl_recv", vec![call("vcl_hit")]),
    ]);
    let mut p2 = program(p1.decls.clone());

    let map1 = run(&mut p1);
    let map2 = run(&mut p2);

    // vcl_* builtin subs and the `default` backend keep their names and are
    // NOT recorded in the bijection (only renamed objects are).
    assert!(map1
        .entries
        .iter()
        .all(|e| e.2 != "vcl_recv" && e.2 != "default"));
    assert_eq!(
        p1.decls
            .iter()
            .find(|d| d.name() == "default")
            .unwrap()
            .name(),
        "default"
    );
    assert!(p1
        .decls
        .iter()
        .any(|d| matches!(d, Decl::Sub { name, .. } if name == "vcl_recv")));

    // Two structurally-identical dead ACLs get distinct canonical names,
    // deterministically (same result on repeated runs of the same input).
    let acl_names_1: Vec<String> = map1
        .entries
        .iter()
        .filter(|e| e.0 == "acl")
        .map(|e| e.1.clone())
        .collect();
    let acl_names_2: Vec<String> = map2
        .entries
        .iter()
        .filter(|e| e.0 == "acl")
        .map(|e| e.1.clone())
        .collect();
    assert_eq!(acl_names_1.len(), 2);
    assert_eq!(acl_names_1, acl_names_2);
}

#[test]
fn n11_bijection_recorded_correctly() {
    let mut p = program(vec![
        backend("web1", vec![fexpr("host", str_("1.example.com"))]),
        probe("hc", vec![fexpr("url", str_("/health"))]),
        sub("vcl_recv", vec![assign(&["req", "http", "x"], str_("1"))]),
    ]);
    // Wire the probe onto the backend via a ProbeRef (as pass 3 would leave it).
    if let Decl::Backend {
        body: Some(fields), ..
    } = &mut p.decls[0]
    {
        fields.push(field("probe", FieldValue::ProbeRef("hc".to_string())));
    }
    if let Decl::Sub { body, .. } = &mut p.decls[2] {
        body.push(assign(&["req", "http", "y"], var(&["web1"])));
    }

    let map = run(&mut p);

    // web1 -> backend_1, and its probe hc -> probe_1, cascaded at backend
    // assignment time (both appear in the map since both are user objects).
    assert!(map.entries.contains(&(
        "backend".to_string(),
        "backend_1".to_string(),
        "web1".to_string()
    )));
    assert!(map.entries.contains(&(
        "probe".to_string(),
        "probe_1".to_string(),
        "hc".to_string()
    )));
    // vcl_recv is a builtin sub — never present in the map.
    assert!(!map.entries.iter().any(|e| e.2 == "vcl_recv"));
}
