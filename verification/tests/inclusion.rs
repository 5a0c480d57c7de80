//! Tests of splicing files.

use vcl_normalizer::ast::{SourceMap, VclResult};
use vcl_normalizer::inclusion::{lex, Lookup, Question, Source, Sources, Step};
use vcl_normalizer::lexer::{Lexed, Tok};
use vcl_normalizer::parser::parse_file;

/// Files by their paths.
struct Disk {
    files: Vec<(String, String)>,
}

impl Disk {
    fn new(files: &[(&str, &str)]) -> Disk {
        Disk {
            files: files.iter().map(|(p, t)| (p.to_string(), t.to_string())).collect(),
        }
    }

    fn find(&self, path: &str) -> Option<&String> {
        self.files.iter().find(|(p, _)| p == path).map(|(_, t)| t)
    }

    fn answer(&self, q: Question, fs: &mut Sources) {
        match q {
            Question::File(p) => {
                let source = match self.find(&p) {
                    Some(t) => Source::Text {
                        canonical: p.clone(),
                        dir: p[..p.rfind('/').unwrap_or(0)].to_string(),
                        content: t.clone(),
                    },
                    None => Source::Unopenable("no such file".to_string()),
                };
                fs.files.insert(p, source);
            }
            Question::Lookup { dir, path } => {
                let full = format!("{dir}/{path}");
                let found = self.find(&full).map(|_| full.clone());
                fs.lookups.push(Lookup { dir, path, found });
            }
        }
    }

    fn lex(&self, path: &str, dirs: &[&str]) -> VclResult<(Lexed, SourceMap)> {
        let dirs: Vec<String> = dirs.iter().map(|d| d.to_string()).collect();
        let mut fs = Sources::new();
        loop {
            match lex(path, &dirs, &fs) {
                Step::Done(r) => return r,
                Step::Need(q) => self.answer(q, &mut fs),
            }
        }
    }
}

#[test]
fn l7_include_splice_relative_and_dash_i() {
    let disk = Disk::new(&[
        ("/d/relative.vcl", "ident_from_relative;"),
        ("/d/inc/fromdir.vcl", "ident_from_idir;"),
        (
            "/d/main.vcl",
            "before include \"relative.vcl\"; include \"fromdir.vcl\"; after",
        ),
    ]);
    let (l, sm) = disk.lex("/d/main.vcl", &["/d/inc"]).expect("lex ok");
    let kinds: Vec<Tok> = l.tokens.iter().map(|t| t.tok.clone()).collect();
    assert_eq!(
        kinds,
        vec![
            Tok::Ident("before".into()),
            Tok::Ident("ident_from_relative".into()),
            Tok::Semi,
            Tok::Ident("ident_from_idir".into()),
            Tok::Semi,
            Tok::Ident("after".into()),
            Tok::Eof,
        ]
    );

    // spliced tokens carry the included file's Span.file
    let file_id = |path: &str| sm.files.iter().position(|(p, _)| p == path).unwrap() as u32;
    assert_eq!(l.tokens[1].span.file, file_id("/d/relative.vcl"));
    assert_eq!(l.tokens[3].span.file, file_id("/d/inc/fromdir.vcl"));
}

#[test]
fn l8_circular_include_and_depth_cap() {
    let disk = Disk::new(&[
        ("/d/a.vcl", "include \"b.vcl\";"),
        ("/d/b.vcl", "include \"a.vcl\";"),
    ]);
    let err = disk.lex("/d/a.vcl", &[]).expect_err("expected circular include error");
    assert!(err.msg.contains("circular"), "msg was: {}", err.msg);

    // depth cap: chain of 40 includes, each including the next
    let files: Vec<(String, String)> = (0..40)
        .map(|i| {
            let body = if i == 39 {
                "ident_leaf;".to_string()
            } else {
                format!("include \"f{}.vcl\";", i + 1)
            };
            (format!("/d/f{i}.vcl"), body)
        })
        .collect();
    let deep = Disk { files };
    let err2 = deep.lex("/d/f0.vcl", &[]).expect_err("expected depth cap error");
    assert!(err2.msg.contains("depth"), "msg was: {}", err2.msg);
}

#[test]
fn a_file_that_is_missing_is_an_error() {
    let disk = Disk::new(&[("/d/a.vcl", "vcl 4.1; include \"b.vcl\";")]);
    assert!(disk.lex("/d/a.vcl", &["/i"]).is_err());
    assert!(disk.lex("/d/none.vcl", &[]).is_err());
}

#[test]
fn a_split_program_parses_like_a_whole_one() {
    let disk = Disk::new(&[
        ("/d/main.vcl", "vcl 4.1;\ninclude \"b.vcl\";\nsub vcl_recv { call b; }\n"),
        ("/d/b.vcl", "sub b { set req.http.x = \"1\"; }\n"),
        (
            "/d/whole.vcl",
            "vcl 4.1;\nsub b { set req.http.x = \"1\"; }\nsub vcl_recv { call b; }\n",
        ),
    ]);
    let parse = |path: &str| {
        let mut fs = Sources::new();
        loop {
            match parse_file(path, &vec![], &fs) {
                Step::Done(r) => return r.expect("parses").0,
                Step::Need(q) => disk.answer(q, &mut fs),
            }
        }
    };
    let (a, b) = (parse("/d/main.vcl"), parse("/d/whole.vcl"));
    assert!(vcl_normalizer::canon::canon_eq(&a, &b));
}

#[test]
fn only_what_is_not_known_is_asked_for() {
    let disk = Disk::new(&[
        ("/d/a.vcl", "x include \"b.vcl\"; include \"b.vcl\"; y"),
        ("/e/b.vcl", "z"),
    ]);
    let dirs = vec!["/e".to_string()];
    let mut fs = Sources::new();
    let mut asked: Vec<String> = Vec::new();
    let first = loop {
        match lex("/d/a.vcl", &dirs, &fs) {
            Step::Done(r) => break r.expect("lex ok").0,
            Step::Need(q) => {
                let text = format!("{q:?}");
                assert!(!asked.contains(&text), "{text}");
                asked.push(text);
                disk.answer(q, &mut fs);
            }
        }
    };
    assert_eq!(asked.len(), 4);
    // What else is found out changes nothing.
    disk.answer(Question::File("/other.vcl".to_string()), &mut fs);
    fs.lookups.push(Lookup {
        dir: "/d".to_string(),
        path: "c.vcl".to_string(),
        found: Some("/e/b.vcl".to_string()),
    });
    match lex("/d/a.vcl", &dirs, &fs) {
        Step::Done(r) => assert_eq!(r.expect("lex ok").0.tokens, first.tokens),
        Step::Need(q) => panic!("{q:?}"),
    }
}
