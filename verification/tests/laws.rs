//! What holds of all programs, on some.

use vcl_normalizer::ast::builder::{bin, expr_stmt, fcall, if_, program, ret_action, sub, un, var};
use vcl_normalizer::ast::{
    Arg, BinOp, Expr, NameMap, Program, SourceMap, Span, UnOp, VclResult,
};
use vcl_normalizer::canon::{canon_eq, to_string};
use vcl_normalizer::compare::compare;
use vcl_normalizer::lexer::{lex_from_vcl_show, lex_single_file, Tok};
use vcl_normalizer::normalize::vmod_args::rewrite_args;
use vcl_normalizer::normalize::{literals, merge, normalize, probes, sort, vmod_args};
use vcl_normalizer::order::{sort_pairs, Key};
use vcl_normalizer::parser::{parse_str, parse_vcl_show_text};
use vcl_normalizer::pipeline::{prepare, remove_comments};
use vcl_normalizer::printer::{expr_to_string, print};
use vcl_normalizer::symbols::validate;
use vcl_normalizer::table::Table;
use vcl_normalizer::vclshow::parse_chunks;
use vcl_normalizer::vmod::{ArgSpec, ObjSpec, Sig, VmodSpec};

fn no_specs() -> Table<VmodSpec> {
    Table::new()
}

fn spec(name: &str, default: Option<&str>) -> ArgSpec {
    ArgSpec {
        name: Some(name.to_string()),
        default: default.map(|d| d.to_string()),
        optional: default.is_some(),
        enum_values: None,
    }
}

/// A vmod `t` with a function `f(a, b = 5, c)` and objects `o(size = 10)` that
/// have a method `get(key, deep = false)`.
fn some_specs() -> Table<VmodSpec> {
    let mut funcs = Table::new();
    funcs.insert(
        "f".to_string(),
        Sig { args: vec![spec("a", None), spec("b", Some("5")), spec("c", Some("\"x\""))] },
    );
    let mut methods = Table::new();
    methods.insert(
        "get".to_string(),
        Sig { args: vec![spec("key", None), spec("deep", Some("false"))] },
    );
    let mut objects = Table::new();
    objects.insert(
        "o".to_string(),
        ObjSpec { init: Sig { args: vec![spec("size", Some("10"))] }, methods },
    );
    let mut specs = Table::new();
    specs.insert("t".to_string(), VmodSpec { funcs, objects });
    specs
}

fn prepared_with(src: &str, specs: &Table<VmodSpec>, rename: bool) -> VclResult<(Program, NameMap)> {
    let mut warnings = Vec::new();
    prepare(parse_str(src)?, specs, rename, &mut warnings)
}

fn dumped(src: &str) -> String {
    to_string(&prepared_with(src, &some_specs(), true).expect("a valid program").0)
}

fn printed(src: &str) -> String {
    print(&prepared_with(src, &some_specs(), false).expect("a valid program").0)
}

const RICH: &str = r#"vcl 4.1;
# what this is
import t; // a vmod
import std from "/usr/lib/std.so";

/* the way
   in */
backend web { // behind a name
    .host = "a.example"; # quoted
    .port = "80";
    .connect_timeout = 1.50s;
    .probe = {
        .url = "/"; .interval = 1m;
        .request = "GET / HTTP/1.1" "Host: a" "Connection: close";
    }
}
backend spare none;
probe hc { .url = {"/he"al"th"}; .threshold = 3; .enabled = true; .timeout = 0.05s; }
backend checked { .host = "b"; .probe = hc; .max = 10KB; }

acl office { "10.0.0.0"/8; !"10.1.2.3"; "example.org"; "::1"; }

sub vcl_init {
    new cache = t.o(
        // as large as needed
        size = 20 // entries
    );
    return (ok);
}

sub helper { unset req.http.X-Old; }

sub vcl_recv {
    // only from inside
    if (client.ip ~ office && (req.url ~ "^/a" || !req.http.Cookie)) {
        set req.http.X-In = "1" + req.http.Host + t.f(c = "y", b = 7, a = 1.0);
        call helper;
    } elsif (req.restarts > 0) {
        return (synth(404, "gone"));
    } else {
        cache.get(key = "k", deep = false);
        t.f(2, b = 5);
    }
    set req.backend_hint = web; /* here */ # and there
    /* the last one */
}

sub vcl_synth { synthetic("a" + -1 * (2 - 3)); return (deliver); }
sub vcl_recv { set req.backend_hint = checked; return; }
// the end
"#;

#[test]
fn what_is_printed_is_read_back() {
    let p = parse_str(RICH).unwrap();
    let again = parse_str(&print(&p)).expect("a program");
    assert_eq!(to_string(&again), to_string(&p));
    assert_eq!(print(&again), print(&p));

    let mut bare = parse_str(RICH).unwrap();
    remove_comments(&mut bare);
    let text = print(&bare);
    assert!(!text.contains("//") || text.contains("\"//"), "{text}");
    assert_eq!(to_string(&parse_str(&text).unwrap()), to_string(&p));
}

#[test]
fn a_denied_comparison_is_read_back() {
    let not = |e: Expr| un(UnOp::Not, e);
    assert_eq!(expr_to_string(&not(bin(BinOp::Eq, var(&["a"]), var(&["b"])))), "!(a == b)");
    assert_eq!(expr_to_string(&not(not(var(&["a"])))), "!!a");
    for cond in ["!(a && b)", "!(a == b)", "-(1 + 2) < 3", "!(!(a || b) && c)"] {
        let p = parse_str(&format!("vcl 4.1; sub vcl_recv {{ if ({cond}) {{ return; }} }}")).unwrap();
        let text = print(&p);
        assert!(text.contains(&format!("if ({cond})")), "{text}");
        assert_eq!(to_string(&parse_str(&text).unwrap()), to_string(&p), "{cond}");
    }
}

#[test]
fn inline_c_is_read_back() {
    let p = program(vec![sub(
        "vcl_recv",
        vec![expr_stmt(Expr::CSource(" int x = 1; ".to_string())), ret_action("lookup", vec![])],
    )]);
    let text = print(&p);
    assert!(text.contains("    C{ int x = 1; }C\n    return (lookup);\n"), "{text}");
    assert_eq!(to_string(&parse_str(&text).unwrap()), to_string(&p));
}

#[test]
fn a_name_as_the_value_of_a_field_is_read_back() {
    let src = "vcl 4.1; probe x { .url = \"/\"; } backend b { .host = (x); .probe = x; }";
    let p = parse_str(src).unwrap();
    let text = print(&p);
    assert!(text.contains(".host = (x);") && text.contains(".probe = x;"), "{text}");
    assert_eq!(to_string(&parse_str(&text).unwrap()), to_string(&p));
}

#[test]
fn what_follows_a_newline_is_moved() {
    let (a, b) = ("set x = 1; # one", "/* two */ call y;");
    let (la, lb) = (lex_single_file(a, 3).unwrap(), lex_single_file(b, 3).unwrap());
    let all = lex_single_file(&format!("{a}\n{b}"), 3).unwrap();
    let k = a.len() as u32 + 1;
    let n = la.tokens.len();
    assert_eq!(all.tokens.len(), n + lb.tokens.len());
    for (i, t) in all.tokens.iter().enumerate() {
        let (want, by) = if i < n { (&la.tokens[i], 0) } else { (&lb.tokens[i - n], k) };
        assert_eq!(t.tok, want.tok);
        assert_eq!((t.span.lo, t.span.hi), (want.span.lo + by, want.span.hi + by));
    }
    assert_eq!(all.comments.len(), 2);
    assert_eq!(all.comments[1].span.lo, lb.comments[0].span.lo + k);
    assert!(all.comments[1].standalone && !all.comments[0].standalone);
}

#[test]
fn the_reported_line_is_shown() {
    let text = "one\ntwo and more\n\nfour";
    let mut sm = SourceMap::default();
    let file = sm.add("f".to_string(), text.to_string());
    let lines: Vec<&str> = text.split('\n').collect();
    for lo in 0..=text.len() as u32 {
        let span = Span { file, lo, hi: lo };
        let (_, line, col) = sm.resolve(span);
        let shown = sm.line_text(span);
        assert_eq!(shown, lines[line as usize - 1]);
        assert!(col as usize - 1 <= shown.len());
    }
}

#[test]
fn the_words_of_another_arm_do_not_matter() {
    let src = |words: &str| {
        format!("vcl 4.1; sub vcl_recv {{ if (a) {{ return; }} {words} (b) {{ call c; }} else {{ unset d; }} }}")
    };
    let want = to_string(&parse_str(&src("elsif")).unwrap());
    for words in ["elseif", "else if", "else  /* x */ if"] {
        assert_eq!(to_string(&parse_str(&src(words)).unwrap()), want, "{words}");
    }
}

#[test]
fn the_words_of_arms_do_not_matter_anywhere() {
    let src = |a: &str, b: &str, c: &str| {
        format!(
            "vcl 4.1; sub s {{ if (x) {{ if (y) {{ }} {a} (z) {{ }} }} {b} (x == \"elsif\") {{ call s; }} \
             {c} (w) {{ }} else {{ elsif(1); }} }} backend b {{ .host = \"else if\"; }}"
        )
    };
    let want = to_string(&parse_str(&src("elsif", "elsif", "elsif")).unwrap());
    let words = ["elsif", "elseif", "else if"];
    for a in words {
        for b in words {
            for c in words {
                assert_eq!(to_string(&parse_str(&src(a, b, c)).unwrap()), want, "{a} {b} {c}");
            }
        }
    }
    // Behind an `if` with an `else`, only one of the words is the name of a call.
    let call = |word: &str| format!("vcl 4.1; sub s {{ if (x) {{ }} else {{ }} {word}(1); }}");
    assert!(parse_str(&call("elsif")).is_ok());
    assert!(parse_str(&call("else if")).is_err());
}

#[test]
fn a_heading_does_not_matter() {
    let content = "vcl 4.1;";
    let dump = format!("// VCL.SHOW 0 {} a b.vcl\n{content}\n", content.len());
    let want = parse_chunks(&dump).unwrap();
    for head in ["---\nItem 1\n---\n", "------\r\nItem\n----\n", "----\nItem x\n-----\r\n"] {
        assert_eq!(parse_chunks(&format!("{head}{dump}")).unwrap(), want, "{head:?}");
    }
    assert!(parse_chunks(&format!("--\nItem\n---\n{dump}")).is_err());
    let bad = parse_chunks("// VCL.SHOW x").unwrap_err().msg;
    assert_eq!(parse_chunks("---\nItem\n---\n// VCL.SHOW x").unwrap_err().msg, bad);
}

#[test]
fn the_path_of_an_inclusion_does_not_matter_in_a_dump() {
    let dump = |path: &str| {
        let root = format!("vcl 4.1; include \"{path}\"; sub vcl_recv {{ return; }}");
        let part = "acl a { \"::1\"; }";
        format!(
            "// VCL.SHOW 0 {} root\n{root}\n// VCL.SHOW 1 {} part\n{part}\n",
            root.len(),
            part.len()
        )
    };
    let kinds = |path: &str| {
        let chunks = parse_chunks(&dump(path)).unwrap();
        let (tokens, _) = lex_from_vcl_show(&chunks).unwrap();
        tokens.into_iter().map(|t| t.tok).collect::<Vec<Tok>>()
    };
    assert_eq!(kinds("part"), kinds("/some/where/else.vcl"));
    assert_eq!(kinds("part"), kinds(""));
}

#[test]
fn probes_in_place_and_apart_have_one_form() {
    let apart = "vcl 4.1; probe q { .url = \"/b\"; } backend y { .host = \"b\"; .probe = q; }
        sub vcl_recv { set req.backend_hint = x; if (a) { set req.backend_hint = y; } }
        probe p { .url = \"/a\"; } backend x { .host = \"a\"; .probe = p; }";
    let within = "vcl 4.1; backend one { .host = \"a\"; .probe = { .url = \"/a\"; } }
        backend two { .host = \"b\"; .probe = { .url = \"/b\"; } }
        sub vcl_recv { set req.backend_hint = one; if (a) { set req.backend_hint = two; } }";
    let turned = "vcl 4.1; sub vcl_recv { set req.backend_hint = n1; if (a) { set req.backend_hint = n2; } }
        backend n2 { .host = \"b\"; .probe = { .url = \"/b\"; } }
        backend n1 { .host = \"a\"; .probe = { .url = \"/a\"; } }";
    assert_eq!(dumped(within), dumped(apart));
    assert_eq!(dumped(within), dumped(turned));
}

#[test]
fn names_and_order_do_not_decide_what_is_wrong() {
    let bad = "vcl 4.1; backend a { .host = \"x\"; } sub s { call gone; } sub vcl_recv { call s; }";
    let worse = "vcl 4.1; sub vcl_recv { call t; } sub t { call gone; } backend b { .host = \"x\"; }";
    let message = |src: &str| prepared_with(src, &no_specs(), true).unwrap_err().msg;
    assert_eq!(message(bad), "undefined sub 'gone'");
    assert_eq!(message(worse), "undefined sub 'gone'");
}

#[test]
fn arguments_are_put_in_order_once() {
    let specs = some_specs();
    let mut p = parse_str("vcl 4.1; import t; sub vcl_recv { t.f(c = \"y\", a = t.f(1, c = \"x\"), b = 5); }").unwrap();
    vmod_args::run(&mut p, &specs).unwrap();
    let once = to_string(&p);
    vmod_args::run(&mut p, &specs).unwrap();
    assert_eq!(to_string(&p), once);
}

#[test]
fn printing_is_a_fixpoint() {
    let text = printed(RICH);
    assert_eq!(dumped(&text), dumped(RICH));
    assert_eq!(printed(&text), text);
    assert!(text.contains("probe probe_1 {") && text.contains(".probe = probe_1;"), "{text}");
    assert_eq!(text.matches("sub vcl_recv {").count(), 1);
}

#[test]
fn printing_under_canonical_names_is_a_fixpoint() {
    let idle = "vcl 4.1; acl z { \"::1\"; } acl y { \"::2\"; } sub c { call b; } sub b { return; } \
                backend default { .host = \"1\"; .probe = { .url = \"/\"; } } sub vcl_deliver { call c; }";
    for src in [RICH, idle] {
        let text = print(&prepared_with(src, &some_specs(), true).unwrap().0);
        assert_eq!(dumped(&text), dumped(src), "{text}");
        let again = print(&prepared_with(&text, &some_specs(), true).unwrap().0);
        assert_eq!(again, text);
    }
}

#[test]
fn an_argument_left_out_in_the_middle_is_not_printed() {
    let src = |args: &str| format!("vcl 4.1; import t; sub vcl_recv {{ t.f({args}); }}");
    let full = src("c = \"y\", b = 7, a = 1");
    assert_eq!(dumped(&printed(&full)), dumped(&full));
    let gap = src("c = \"y\", a = 1");
    assert!(printed(&gap).contains("t.f(1, \"y\");"), "{}", printed(&gap));
    assert_ne!(dumped(&printed(&gap)), dumped(&gap));
}

#[test]
fn comments_are_no_tokens_wherever_they_stand() {
    let plain = "vcl 4.1; backend b { .host = \"x\"; } sub vcl_recv { set req.backend_hint = b; }";
    let remarks = ["#r\n", "//r\n", "/*r*/", "/* a * b / c */", "/**/", " /* a\n * b\n */ "];
    for r in remarks {
        for (at, _) in plain.match_indices(' ') {
            let (head, tail) = plain.split_at(at);
            let src = format!("{head} {r} {tail}");
            assert_eq!(dumped(&src), dumped(plain), "{src}");
            assert_eq!(dumped(&print(&parse_str(&src).unwrap())), dumped(plain), "{src}");
        }
    }
}

#[test]
fn white_space_is_optional_between_marks() {
    let wide = "vcl 4.1 ;\n\tsub vcl_recv\r\n{ if ( a == b ) { call x ; } }\nsub x { return ( hash ) ; }";
    let tight = "vcl 4.1;sub vcl_recv{if(a==b){call x;}}sub x{return(hash);}";
    assert_eq!(dumped(wide), dumped(tight));
    let other = "vcl 4.1;sub vcl_recv{if(a=b){call x;}}sub x{return(hash);}";
    assert!(parse_str(other).is_err());
}

#[test]
fn a_dump_stands_for_its_files() {
    let root = "vcl 4.1;\ninclude \"a.vcl\";\nsub vcl_recv { call x; }\n";
    let child = "sub x { set req.http.a = \"1\"; }\n";
    let dump = format!(
        "// VCL.SHOW 0 {} root.vcl\n{root}// VCL.SHOW 1 {} a.vcl\n{child}",
        root.len(),
        child.len()
    );
    let (p, _) = parse_vcl_show_text(&dump).expect("a whole dump").unwrap();
    let whole = "vcl 4.1; sub x { set req.http.a = \"1\"; } sub vcl_recv { call x; }";
    assert_eq!(to_string(&p), to_string(&parse_str(whole).unwrap()));
}

#[test]
fn spelling_does_not_matter() {
    let body = |e: &str| format!("vcl 4.1; sub vcl_recv {{ set req.http.x = {e}; }}");
    let alike = [
        ("1m", "60s"),
        ("1500ms", "1.5s"),
        ("1d", "24h"),
        ("2w", "14d"),
        ("1y", "31557600s"),
        ("1KB", "1024B"),
        ("0.5MB", "512KB"),
        ("2.50", "2.5"),
        ("1.0", "1"),
        ("req.http.Foo-Bar", "req.http.FOO-bar"),
        ("{\"a\"}", "\"a\""),
        ("\"\"\"a\"\"\"", "\"a\""),
    ];
    for (a, b) in alike {
        assert_eq!(dumped(&body(a)), dumped(&body(b)), "{a} {b}");
    }
    for (a, b) in [("1m", "61s"), ("1KB", "1000B"), ("2.5", "2.05"), ("010", "10"), ("\"A\"", "\"a\"")] {
        assert_ne!(dumped(&body(a)), dumped(&body(b)), "{a} {b}");
    }
}

#[test]
fn the_style_of_arguments_does_not_matter() {
    let call = |args: &str| {
        format!("vcl 4.1; import t; sub vcl_recv {{ t.f({args}); }}")
    };
    for args in ["1, 5, \"x\"", "a = 1", "1, c = \"x\"", "c = \"x\", a = 1, b = 5", "b = 5, a = 1"] {
        assert_eq!(dumped(&call(args)), dumped(&call("1")), "{args}");
    }
    assert_ne!(dumped(&call("1, 6")), dumped(&call("1")));
    assert_eq!(dumped(&call("1, c = \"z\", b = 6")), dumped(&call("1, 6, \"z\"")));
    let made = |args: &str, call: &str| {
        format!(
            "vcl 4.1; import t; sub vcl_init {{ new x = t.o({args}); }} sub vcl_recv {{ x.get({call}); }}"
        )
    };
    assert_eq!(
        dumped(&made("size = 10", "deep = true, key = \"k\"")),
        dumped(&made("", "\"k\", true"))
    );
}

#[test]
fn arguments_are_placed_by_their_signature() {
    let sig = Sig { args: vec![spec("a", None), spec("b", Some("5")), spec("c", Some("\"x\""))] };
    let at = Span { file: 0, lo: 3, hi: 4 };
    let arg = |name: Option<&str>, n: &str, lo: u32| Arg {
        name: name.map(|s| s.to_string()),
        value: Expr::Num(n.to_string()),
        span: Span { file: 0, lo, hi: lo + 1 },
    };
    let mut args = vec![arg(Some("c"), "3", 10), arg(None, "1", 20), arg(Some("b"), "2", 30)];
    rewrite_args(&mut args, &sig, at).unwrap();
    let placed = || vec![arg(None, "1", 20), arg(None, "2", 30), arg(None, "3", 10)];
    assert_eq!(args, placed());
    rewrite_args(&mut args, &sig, at).unwrap();
    assert_eq!(args, placed());

    let mut args = vec![arg(None, "1", 20), arg(None, "5", 30)];
    rewrite_args(&mut args, &sig, at).unwrap();
    assert_eq!(args, vec![arg(None, "1", 20)]);

    let mut args = vec![arg(Some("c"), "3", 10)];
    rewrite_args(&mut args, &sig, at).unwrap();
    let gap = || Arg { name: None, value: Expr::Omitted, span: Span::dummy() };
    assert_eq!(args, vec![gap(), gap(), arg(None, "3", 10)]);

    let faults = [
        (vec![arg(Some("d"), "1", 0)], "unknown vmod argument name 'd'"),
        (
            vec![arg(None, "1", 0), arg(None, "2", 1), arg(None, "3", 2), arg(None, "4", 3)],
            "too many positional arguments in vmod call",
        ),
        (
            vec![arg(None, "1", 0), arg(Some("a"), "2", 1)],
            "duplicate value for vmod argument slot 0",
        ),
    ];
    for (mut args, msg) in faults {
        let e = rewrite_args(&mut args, &sig, at).unwrap_err();
        assert_eq!((e.msg.as_str(), e.span), (msg, Some(at)));
        assert!(args.is_empty());
    }
}

#[test]
fn arguments_need_slots() {
    let fault = |args: &str| {
        let mut p = parse_str(&format!("vcl 4.1; sub vcl_recv {{ t.f({args}); }}")).unwrap();
        vmod_args::run(&mut p, &some_specs()).expect_err("a fault").msg
    };
    assert_eq!(fault("1, 2, 3, 4"), "too many positional arguments in vmod call");
    assert_eq!(fault("1, d = 2"), "unknown vmod argument name 'd'");
    assert_eq!(fault("1, a = 2"), "duplicate value for vmod argument slot 0");
}

#[test]
fn names_and_order_do_not_matter() {
    let a = "vcl 4.1; backend x { .host = \"1\"; .probe = p; } backend y { .host = \"2\"; } \
             probe p { .url = \"/\"; } acl l { \"10.0.0.0\"/8; } \
             sub vcl_recv { if (client.ip ~ l) { set req.backend_hint = y; } else { call s; } } \
             sub s { set req.backend_hint = x; } sub unused { return; }";
    let b = "vcl 4.1; sub idle { return; } sub t { set req.backend_hint = two; } \
             acl net { \"10.0.0.0\"/8; } backend one { .host = \"2\"; } probe q { .url = \"/\"; } \
             sub vcl_recv { if (client.ip ~ net) { set req.backend_hint = one; } else { call t; } } \
             backend two { .host = \"1\"; .probe = q; }";
    assert_eq!(dumped(a), dumped(b));
    let swapped = b.replace("\"10.0.0.0\"/8", "\"10.0.0.0\"/9");
    assert_ne!(dumped(a), dumped(&swapped));
}

#[test]
fn unused_declarations_that_are_alike_can_change_places() {
    let decls = [
        "acl a { \"::1\"; }",
        "acl b { \"::1\"; }",
        "probe p { .url = \"/\"; }",
        "probe q { .url = \"/\"; }",
        "backend x { .host = \"1\"; }",
        "backend y { .host = \"1\"; }",
        "sub s { call s; }",
        "sub t { call t; }",
        "sub vcl_recv { return; }",
    ];
    let src = |order: &[usize]| {
        let parts: Vec<&str> = order.iter().map(|&i| decls[i]).collect();
        format!("vcl 4.1; {}", parts.join(" "))
    };
    let want = dumped(&src(&[0, 1, 2, 3, 4, 5, 6, 7, 8]));
    assert!(want.contains("acl_2") && want.contains("probe_2") && want.contains("sub_2"));
    for order in [
        [1, 0, 3, 2, 5, 4, 7, 6, 8],
        [8, 7, 6, 5, 4, 3, 2, 1, 0],
        [7, 1, 3, 8, 6, 5, 0, 4, 2],
    ] {
        assert_eq!(dumped(&src(&order)), want, "{order:?}");
    }
    let kept = |a: &str, b: &str| format!("vcl 4.1; {a} {{ .url = \"/\"; }} {b} {{ .url = \"/\"; }}");
    assert_eq!(
        dumped(&kept("probe default", "probe other")),
        dumped(&kept("probe other", "probe default"))
    );
    // One of them is named by another unused declaration: the order shows.
    let named = |acls: &str| format!("vcl 4.1; {acls} sub s {{ if (client.ip ~ a) {{ return; }} }}");
    assert_ne!(
        dumped(&named("acl a { \"::1\"; } acl b { \"::1\"; }")),
        dumped(&named("acl b { \"::1\"; } acl a { \"::1\"; }"))
    );
}

#[test]
fn names_are_numbered_by_first_use() {
    let src = "vcl 4.1; backend z { .host = \"1\"; } backend a { .host = \"2\"; } \
               backend default { .host = \"3\"; } \
               sub vcl_recv { set req.backend_hint = z; call b; } sub b { call c; } \
               sub c { set req.backend_hint = a; }";
    let (_, names) = prepared_with(src, &no_specs(), true).unwrap();
    let want = [
        ("backend", "backend_1", "z"),
        ("sub", "sub_1", "b"),
        ("sub", "sub_2", "c"),
        ("backend", "backend_2", "a"),
    ];
    let got: Vec<(&str, &str, &str)> =
        names.entries.iter().map(|(k, c, o)| (k.as_str(), c.as_str(), o.as_str())).collect();
    assert_eq!(got, want);
}

#[test]
fn a_probe_in_place_is_like_a_named_one() {
    let inline = "vcl 4.1; backend b { .host = \"x\"; .probe = { .url = \"/\"; } } \
                  sub vcl_recv { set req.backend_hint = b; }";
    let named = "vcl 4.1; sub vcl_recv { set req.backend_hint = b; } probe p { .url = \"/\"; } \
                 backend b { .host = \"x\"; .probe = p; }";
    assert_eq!(dumped(inline), dumped(named));
}

#[test]
fn passes_are_done_once() {
    let mut p = parse_str(RICH).unwrap();
    let specs = some_specs();
    let passes: [fn(&mut Program, &Table<VmodSpec>); 5] = [
        |p, _| literals::run(p),
        |p, s| vmod_args::run(p, s).unwrap(),
        |p, _| probes::run(p),
        |p, _| merge::merge_subs(p),
        |p, _| sort::run(p),
    ];
    for pass in passes {
        pass(&mut p, &specs);
        let once = to_string(&p);
        pass(&mut p, &specs);
        assert_eq!(to_string(&p), once);
    }
    let settled = to_string(&p);
    for pass in passes {
        pass(&mut p, &specs);
        assert_eq!(to_string(&p), settled);
    }
}

#[test]
fn renaming_and_sorting_again_change_nothing() {
    let mut p = parse_str(RICH).unwrap();
    normalize(&mut p, &some_specs(), true).unwrap();
    let once = to_string(&p);
    let names = normalize(&mut p, &some_specs(), true).unwrap();
    assert_eq!(to_string(&p), once);
    for (_, canonical, original) in names.entries.iter() {
        assert_eq!(canonical, original);
    }
}

#[test]
fn divergences_tell_programs_apart() {
    let a = parse_str(RICH).unwrap();
    let changed = [
        ("1.50s", "1.51s"),
        ("\"a.example\"", "\"b.example\""),
        ("!\"10.1.2.3\"", "\"10.1.2.3\""),
        ("req.restarts > 0", "req.restarts >= 0"),
        ("unset req.http.X-Old", "unset req.http.X-New"),
        ("call helper", "call helpers"),
        ("return (ok)", "return (fail)"),
        ("t.o(", "t.p("),
        ("backend spare none;", ""),
        ("deep = false", "deep = true"),
        ("Connection: close", "Connection: open"),
        (".probe = hc", ".probe = hd"),
    ];
    assert!(compare(&a, &parse_str(RICH).unwrap(), 20).is_empty());
    for (from, to) in changed {
        let b = parse_str(&RICH.replacen(from, to, 1)).unwrap();
        assert!(!canon_eq(&a, &b), "{from}");
        assert!(!compare(&a, &b, 20).is_empty(), "{from}");
        assert_eq!(compare(&a, &b, 1).len(), 1, "{from}");
        assert!(compare(&a, &b, 0).is_empty(), "{from}");
    }
    let spaced = parse_str(&RICH.replace(' ', "  ")).unwrap();
    assert_eq!(canon_eq(&a, &spaced), compare(&a, &spaced, 1).is_empty());
}

#[test]
fn sorting_is_stable() {
    let key = |rank: u64, text: &str| Key { rank, text: text.to_string() };
    let items = vec![
        (key(1, "b"), 1u64),
        (key(0, "z"), 2),
        (key(1, "a"), 3),
        (key(1, "b"), 4),
        (key(1, "aa"), 5),
        (key(1, ""), 6),
    ];
    let order: Vec<u64> = sort_pairs(items).iter().map(|x| x.1).collect();
    assert_eq!(order, [2, 6, 3, 5, 1, 4]);
}

#[test]
fn a_valid_program_declares_what_it_names() {
    let valid = "vcl 4.1; import t; probe p { .url = \"/\"; } backend b { .host = \"x\"; .probe = p; } \
                 sub make { new x = t.o(); } sub vcl_init { call make; } sub vcl_recv { call go; } \
                 sub go { return; }";
    validate(&parse_str(valid).unwrap(), &some_specs()).unwrap();
    let faults = [
        ("call go", "call gone", "undefined sub 'gone'"),
        (".probe = p", ".probe = q", "undefined probe 'q'"),
        ("sub go", "sub make", "duplicate sub 'make'"),
        ("call make; ", "", "'new' is only allowed inside sub vcl_init"),
        ("new x = t.o();", "new x = t.o(); new x = t.o();", "duplicate vmod object name 'x'"),
    ];
    for (from, to, msg) in faults {
        let p = parse_str(&valid.replacen(from, to, 1)).unwrap();
        assert_eq!(validate(&p, &some_specs()).unwrap_err().msg, msg);
    }
}

#[test]
fn parentheses_stand_where_they_are_needed() {
    let e = |s: &str| {
        let p = parse_str(&format!("vcl 4.1; sub vcl_recv {{ set a = {s}; }}")).unwrap();
        match &p.decls[0] {
            vcl_normalizer::ast::Decl::Sub { body, .. } => match &body[0] {
                vcl_normalizer::ast::Stmt::Assign { rhs, .. } => expr_to_string(rhs),
                _ => panic!("an assignment"),
            },
            _ => panic!("a subroutine"),
        }
    };
    assert_eq!(e("a + b + c"), "(a + b) + c");
    assert_eq!(e("a * (b - c)"), "a * (b - c)");
    assert_eq!(e("!a || b && c"), "!a || (b && c)");
    assert_eq!(e("(a) == (b)"), "a == b");
}

#[test]
fn no_placeholder_is_printed() {
    let src = "vcl 4.1; probe hc { .url = \"/hc\"; } \
               backend a { .host = \"1\"; .probe = { .url = \"/a\"; } .second = { .url = \"/b\"; } } \
               backend b { .host = \"2\"; .third = hc; .probe = { .url = \"/c\"; } } \
               sub vcl_recv { set req.backend_hint = b; }";
    for rename in [false, true] {
        let text = print(&prepared_with(src, &no_specs(), rename).unwrap().0);
        assert!(!text.contains('$'), "{text}");
        assert_eq!(dumped(&text), dumped(src));
    }
    let kept = printed(src);
    assert!(kept.contains(".second = probe_2;") && kept.contains(".third = hc;"), "{kept}");
}

#[test]
fn the_form_tells_programs_apart() {
    let form = |body: &str| {
        to_string(&parse_str(&format!("vcl 4.1; sub vcl_recv {{ {body} }}")).unwrap())
    };
    let bodies = [
        "set x = 5s;",
        "set x = 0.5s;",
        "set x = 5B;",
        "set x = 5;",
        "set x = \"5\";",
        "set x = y;",
        "set x = true;",
        "set x = !y;",
        "set x = -y;",
        "set x = y + 1;",
        "set x = y - 1;",
        "set x = y.z;",
        "set x = y.z();",
        "set x = y.z(a);",
        "set x = y.z(a = a);",
        "set x.y = 5s;",
        "unset x;",
        "call x;",
        "return;",
        "return (x);",
        "return (x(1));",
        "synthetic(x);",
        "if (x) { }",
        "if (x) { } else { }",
        "if (x) { } elsif (y) { }",
        "new x = y.z();",
        "y.z();",
        "C{ y }C",
    ];
    for (i, a) in bodies.iter().enumerate() {
        for (j, b) in bodies.iter().enumerate() {
            assert_eq!(form(a) == form(b), i == j, "{a} {b}");
        }
        assert_eq!(form(a), form(&format!("\n  {a} # here\n")), "{a}");
    }
    assert_eq!(form("set x = 5s;"), form("set x = 5.0s;"));
    assert_eq!(form("set x = 5s;"), form("set x = 5000ms;"));
}

#[test]
fn sources_are_read_back() {
    let sources = [
        RICH,
        "vcl 4.1; sub vcl_recv { if (!(a ~ \"b\") && -(1 - 2) < 3) { C{ int x; }C } elseif (b) { } x.y(); }",
        "vcl 4.1; backend b none; backend c { .host = (b); .list = \"x\" \"y\"; .probe = { .interval = 1.5h; } }",
        "vcl 4.1; acl a { ! \"10.0.0.0\" / 8; \"::1\"; } import t from \"x\"; probe p { .request = \"a\" \"b\"; }",
        "vcl 4.1; sub s { return (synth(404, {\"a \" b\"})); new o = t.o(size = 1KB, true); unset req.http.Host; }",
    ];
    for src in sources {
        let mut p = parse_str(src).unwrap();
        let with = parse_str(&print(&p)).unwrap();
        assert_eq!(to_string(&with), to_string(&p), "{src}");
        remove_comments(&mut p);
        let q = parse_str(&print(&p)).unwrap();
        assert_eq!(to_string(&q), to_string(&p), "{src}");
    }
    let last = "vcl 4.1; sub s { # a\n return; /* b */ } // c\n# d\n/* e\n f */";
    let text = print(&parse_str(last).unwrap());
    assert!(text.contains("// c") && text.contains("# d") && text.contains("/* e"), "{text}");
    assert_eq!(to_string(&parse_str(&text).unwrap()), to_string(&parse_str(last).unwrap()));
    // A call whose name starts like another arm is taken for one.
    let odd = program(vec![sub(
        "vcl_recv",
        vec![if_(vec![(var(&["a"]), vec![])], None), expr_stmt(fcall(&["else"], vec![]))],
    )]);
    assert!(parse_str(&print(&odd)).is_err());
}

#[test]
fn ascii_headers_are_in_lower_case_once() {
    let form = |name: &str| dumped(&format!("vcl 4.1; sub vcl_recv {{ if (req.http.{name}) {{ return; }} }}"));
    assert_eq!(form("X-Ab_9"), form("x-aB_9"));
    assert!(form("X-Ab_9").contains("x-ab_9"));
    assert_ne!(form("X-Ab_9"), form("X-Ab-9"));
}

#[test]
fn calls_stay_without_descriptions() {
    let src = "vcl 4.1; import t; sub vcl_init { new o = t.o(b = 1, 2); } sub vcl_recv { t.f(x = t.g(y = 1), 2); o.m(z = 3); }";
    let mut p = parse_str(src).unwrap();
    let before = to_string(&p);
    vmod_args::run(&mut p, &no_specs()).unwrap();
    assert_eq!(to_string(&p), before);
}
