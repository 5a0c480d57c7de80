//! Tests of the lexer.

use vcl_normalizer::lexer::{lex_from_vcl_show, lex_str, Tok};
use vcl_normalizer::vclshow::VclShowChunk;

fn toks(src: &str) -> Vec<Tok> {
    lex_str(src)
        .expect("lex ok")
        .0
        .into_iter()
        .map(|t| t.tok)
        .collect()
}

#[test]
fn l1_comment_styles_stripped_but_not_in_strings() {
    let src = "# hash comment\nident1 // slash comment\nident2 /* block\ncomment */ ident3 \"# not a comment\"";
    let t = toks(src);
    assert_eq!(
        t,
        vec![
            Tok::Ident("ident1".into()),
            Tok::Ident("ident2".into()),
            Tok::Ident("ident3".into()),
            Tok::Str("# not a comment".into()),
            Tok::Eof,
        ]
    );
}

#[test]
fn l2_three_string_forms_same_value_no_escapes() {
    let a = toks(r#""hello\nworld""#);
    let b = toks(r#"{"hello\nworld"}"#);
    let c = toks("\"\"\"hello\\nworld\"\"\"");
    // literal backslash-n, NOT a newline escape
    assert_eq!(a, vec![Tok::Str("hello\\nworld".into()), Tok::Eof]);
    assert_eq!(b, vec![Tok::Str("hello\\nworld".into()), Tok::Eof]);
    assert_eq!(c, vec![Tok::Str("hello\\nworld".into()), Tok::Eof]);
}

#[test]
fn l3_long_string_terminators() {
    // {"..."} ends at first "}, may contain '"' and newlines
    let t = toks("{\"a \"quoted\" \n multiline\"}");
    assert_eq!(
        t,
        vec![Tok::Str("a \"quoted\" \n multiline".into()), Tok::Eof]
    );

    // """...""" form: ends at first """
    let t3 = toks("\"\"\"line1\nline2\"\"\"");
    assert_eq!(t3, vec![Tok::Str("line1\nline2".into()), Tok::Eof]);
}

#[test]
fn l4_ident_vs_minus() {
    assert_eq!(toks("a-b"), vec![Tok::Ident("a-b".into()), Tok::Eof]);
    assert_eq!(
        toks("a - b"),
        vec![
            Tok::Ident("a".into()),
            Tok::Minus,
            Tok::Ident("b".into()),
            Tok::Eof
        ]
    );
    assert_eq!(
        toks("10-5"),
        vec![
            Tok::Num("10".into()),
            Tok::Minus,
            Tok::Num("5".into()),
            Tok::Eof
        ]
    );
}

#[test]
fn l5_unit_suffixes() {
    assert_eq!(
        toks("1ms"),
        vec![Tok::Duration("1".into(), "ms".into()), Tok::Eof]
    );
    assert_eq!(
        toks("1s"),
        vec![Tok::Duration("1".into(), "s".into()), Tok::Eof]
    );
    assert_eq!(
        toks("1m"),
        vec![Tok::Duration("1".into(), "m".into()), Tok::Eof]
    );
    assert_eq!(
        toks("1h"),
        vec![Tok::Duration("1".into(), "h".into()), Tok::Eof]
    );
    assert_eq!(
        toks("1d"),
        vec![Tok::Duration("1".into(), "d".into()), Tok::Eof]
    );
    assert_eq!(
        toks("1w"),
        vec![Tok::Duration("1".into(), "w".into()), Tok::Eof]
    );
    assert_eq!(
        toks("1y"),
        vec![Tok::Duration("1".into(), "y".into()), Tok::Eof]
    );
    assert_eq!(
        toks("1B"),
        vec![Tok::Bytes("1".into(), "B".into()), Tok::Eof]
    );
    assert_eq!(
        toks("1KB"),
        vec![Tok::Bytes("1".into(), "KB".into()), Tok::Eof]
    );
    assert_eq!(
        toks("1MB"),
        vec![Tok::Bytes("1".into(), "MB".into()), Tok::Eof]
    );
    assert_eq!(
        toks("1GB"),
        vec![Tok::Bytes("1".into(), "GB".into()), Tok::Eof]
    );
    assert_eq!(
        toks("1TB"),
        vec![Tok::Bytes("1".into(), "TB".into()), Tok::Eof]
    );
    // longest-match: 1ms is one token, not "1m" + "s"
    assert_eq!(
        toks("1ms"),
        vec![Tok::Duration("1".into(), "ms".into()), Tok::Eof]
    );
    // decimal duration, single token
    assert_eq!(
        toks("1.5h"),
        vec![Tok::Duration("1.5".into(), "h".into()), Tok::Eof]
    );
}

#[test]
fn l6_inline_c_verbatim() {
    let src = "C{\nint x = 1; /* not a vcl comment */\n}C";
    let t = toks(src);
    assert_eq!(
        t,
        vec![
            Tok::CSource("\nint x = 1; /* not a vcl comment */\n".into()),
            Tok::Eof
        ]
    );
}

#[test]
fn l9_span_offsets_and_line_col() {
    let src = "ab cd\nef";
    let (tokens, sm) = lex_str(src).expect("lex ok");
    // "ab" at 0..2, "cd" at 3..5, "ef" at 6..8
    assert_eq!(tokens[0].span.lo, 0);
    assert_eq!(tokens[0].span.hi, 2);
    assert_eq!(tokens[1].span.lo, 3);
    assert_eq!(tokens[1].span.hi, 5);
    assert_eq!(tokens[2].span.lo, 6);
    assert_eq!(tokens[2].span.hi, 8);

    let (_, line, col) = sm.resolve(tokens[2].span);
    assert_eq!(line, 2);
    assert_eq!(col, 1);
}

// ───────────────────── VCL.SHOW tests ─────────────────

#[test]
fn v1_single_chunk_no_includes() {
    // 1 chunk, no includes — tokens should match plain lex_single_file
    let content = "backend default none;";
    let chunks = vec![VclShowChunk {
        index: 0,
        declared_len: content.len() as u32,
        filename: "/etc/varnish/root.vcl".to_string(),
        content: content.to_string(),
    }];

    let (tokens, sm) = lex_from_vcl_show(&chunks).expect("lex ok");
    // Remove the Eof token to compare with plain lex_single_file
    let tokens_without_eof: Vec<Tok> = tokens[..tokens.len() - 1]
        .iter()
        .map(|t| t.tok.clone())
        .collect();

    let (plain_tokens, _) = lex_str(content).expect("plain lex ok");
    let plain_without_eof: Vec<Tok> = plain_tokens[..plain_tokens.len() - 1]
        .iter()
        .map(|t| t.tok.clone())
        .collect();

    assert_eq!(tokens_without_eof, plain_without_eof);
    assert!(matches!(tokens.last(), Some(t) if matches!(t.tok, Tok::Eof)));
    assert_eq!(sm.files.len(), 1);
    assert_eq!(sm.files[0].0, "/etc/varnish/root.vcl");
}

#[test]
fn v2_root_includes_one_child() {
    // Root includes 1 child (no grandchildren) — tokens spliced correctly, both get correct file ids
    let root_content = "include \"child.vcl\";";
    let child_content = "backend default none;";
    let chunks = vec![
        VclShowChunk {
            index: 0,
            declared_len: root_content.len() as u32,
            filename: "/etc/varnish/root.vcl".to_string(),
            content: root_content.to_string(),
        },
        VclShowChunk {
            index: 1,
            declared_len: child_content.len() as u32,
            filename: "/etc/varnish/child.vcl".to_string(),
            content: child_content.to_string(),
        },
    ];

    let (tokens, sm) = lex_from_vcl_show(&chunks).expect("lex ok");
    let toks: Vec<Tok> = tokens.iter().map(|t| t.tok.clone()).collect();

    // After splicing, we should have tokens from child, then Eof (include is replaced)
    assert_eq!(
        toks,
        vec![
            Tok::Ident("backend".into()),
            Tok::Ident("default".into()),
            Tok::Ident("none".into()),
            Tok::Semi,
            Tok::Eof,
        ]
    );

    // Check that we have two files in the source map
    assert_eq!(sm.files.len(), 2);
    assert_eq!(sm.files[0].0, "/etc/varnish/root.vcl");
    assert_eq!(sm.files[1].0, "/etc/varnish/child.vcl");

    // Child's token should be in file 1
    let backend_token = &tokens[0];
    assert_eq!(backend_token.span.file, 1);
}

#[test]
fn v3_branching_includes_dfs_order() {
    // Root includes child A, which includes grandchild B, then root includes sibling C
    // Verify chunk consumption order == index order and splicing is correct
    let root = "include \"a.vcl\"; include \"c.vcl\";";
    let a = "include \"b.vcl\";";
    let b = "backend b none;";
    let c = "backend c none;";

    let chunks = vec![
        VclShowChunk {
            index: 0,
            declared_len: root.len() as u32,
            filename: "/etc/varnish/root.vcl".to_string(),
            content: root.to_string(),
        },
        VclShowChunk {
            index: 1,
            declared_len: a.len() as u32,
            filename: "/etc/varnish/a.vcl".to_string(),
            content: a.to_string(),
        },
        VclShowChunk {
            index: 2,
            declared_len: b.len() as u32,
            filename: "/etc/varnish/b.vcl".to_string(),
            content: b.to_string(),
        },
        VclShowChunk {
            index: 3,
            declared_len: c.len() as u32,
            filename: "/etc/varnish/c.vcl".to_string(),
            content: c.to_string(),
        },
    ];

    let (tokens, sm) = lex_from_vcl_show(&chunks).expect("lex ok");
    let toks: Vec<Tok> = tokens.iter().map(|t| t.tok.clone()).collect();

    // All chunks consumed in order: root -> a -> b, then c
    // Content order: b, c (root's includes are replaced inline in DFS order)
    assert_eq!(
        toks,
        vec![
            Tok::Ident("backend".into()),
            Tok::Ident("b".into()),
            Tok::Ident("none".into()),
            Tok::Semi,
            Tok::Ident("backend".into()),
            Tok::Ident("c".into()),
            Tok::Ident("none".into()),
            Tok::Semi,
            Tok::Eof,
        ]
    );

    assert_eq!(sm.files.len(), 4);
}

#[test]
fn v4_trailing_builtin_chunk_dropped() {
    // Trailing "Builtin" chunk after tree fully consumed — no error, silently dropped
    let root = "backend default none;";
    let builtin = "sub vcl_init { return (ok); }";

    let chunks = vec![
        VclShowChunk {
            index: 0,
            declared_len: root.len() as u32,
            filename: "/etc/varnish/root.vcl".to_string(),
            content: root.to_string(),
        },
        VclShowChunk {
            index: 1,
            declared_len: builtin.len() as u32,
            filename: "Builtin".to_string(),
            content: builtin.to_string(),
        },
    ];

    let (tokens, sm) = lex_from_vcl_show(&chunks).expect("lex ok");

    // Should parse without error; Builtin chunk is never added to source map (not consumed)
    // Tokens only from root
    assert!(matches!(tokens.last(), Some(t) if matches!(t.tok, Tok::Eof)));

    // Builtin chunk should NOT be in source map (it's not consumed by the tree)
    // Only root should be there
    assert_eq!(sm.files.len(), 1);
    assert_eq!(sm.files[0].0, "/etc/varnish/root.vcl");
}

#[test]
fn v5_trailing_non_builtin_leftover_errors() {
    // Trailing chunk with any other name — error naming the leftover filename
    let root = "backend default none;";
    let unused = "backend unused none;";

    let chunks = vec![
        VclShowChunk {
            index: 0,
            declared_len: root.len() as u32,
            filename: "/etc/varnish/root.vcl".to_string(),
            content: root.to_string(),
        },
        VclShowChunk {
            index: 1,
            declared_len: unused.len() as u32,
            filename: "/etc/varnish/unused.vcl".to_string(),
            content: unused.to_string(),
        },
    ];

    let err = lex_from_vcl_show(&chunks).expect_err("expected error");
    assert!(err.msg.contains("unused"), "msg: {}", err.msg);
    assert!(
        err.msg.contains("/etc/varnish/unused.vcl"),
        "msg: {}",
        err.msg
    );
}

#[test]
fn v6_include_with_no_chunks_left_errors() {
    // include statement but no chunks left (state.next >= chunks.len()) — error
    let root = "include \"child.vcl\";";

    let chunks = vec![VclShowChunk {
        index: 0,
        declared_len: root.len() as u32,
        filename: "/etc/varnish/root.vcl".to_string(),
        content: root.to_string(),
    }];

    let err = lex_from_vcl_show(&chunks).expect_err("expected error");
    assert!(err.msg.contains("include"), "msg: {}", err.msg);
    assert!(err.msg.contains("chunk"), "msg: {}", err.msg);
}

#[test]
fn v7_empty_chunks_slice_errors() {
    // Empty chunks slice — error ("no VCL.SHOW chunks")
    let chunks: Vec<VclShowChunk> = vec![];
    let err = lex_from_vcl_show(&chunks).expect_err("expected error");
    assert!(err.msg.contains("no VCL.SHOW chunks"), "msg: {}", err.msg);
}

#[test]
fn tokens_stand_in_order() {
    let src = "a/*b*/ {\"c\"}\n1.5s#d\n\"\u{e9}\"==";
    let (tokens, _) = lex_str(src).expect("lex ok");
    let places: Vec<(u32, u32)> = tokens.iter().map(|t| (t.span.lo, t.span.hi)).collect();
    assert_eq!(places, [(0, 1), (7, 12), (13, 17), (20, 24), (24, 26), (26, 26)]);
    for t in tokens.iter() {
        assert!(t.span.hi as usize <= src.len());
    }
}
