//! Tests of the arguments of vmod calls.

use vcl_normalizer::ast::builder::{
    arg, bool_, expr_stmt, fcall, narg, new_, program, str_, sub,
};
use vcl_normalizer::ast::{Arg, Decl, Expr, Program, Stmt};
use vcl_normalizer::normalize::vmod_args::run;
use vcl_normalizer::table::Table;
use vcl_normalizer::vmod::{ArgSpec, ObjSpec, Sig, VmodSpec};

fn log_spec() -> Table<VmodSpec> {
    let mut funcs = Table::new();
    funcs.insert(
        "log".to_string(),
        Sig {
            args: vec![
                ArgSpec {
                    name: Some("msg".to_string()),
                    default: None,
                    optional: false,
                    enum_values: None,
                },
                ArgSpec {
                    name: Some("resolve".to_string()),
                    default: Some("false".to_string()),
                    optional: true,
                    enum_values: None,
                },
            ],
        },
    );
    let mut specs = Table::new();
    specs.insert(
        "std".to_string(),
        VmodSpec {
            funcs,
            objects: Table::new(),
        },
    );
    specs
}

fn call_args(prog: &Program) -> Vec<Arg> {
    if let Decl::Sub { body, .. } = &prog.decls[0] {
        if let Stmt::Expr {
            expr: Expr::Call { args, .. },
            ..
        } = &body[0]
        {
            return args.clone();
        }
    }
    panic!("expected a Call expr statement");
}

// N4: named -> positional reorder; omitted-optional and explicit-default
// both -> Omitted; trailing Omitted truncated.
#[test]
fn n4_named_reorder_omitted_optional_truncated() {
    let mut prog = program(vec![sub(
        "vcl_recv",
        vec![expr_stmt(fcall(
            &["std", "log"],
            vec![narg("resolve", bool_(true)), narg("msg", str_("hi"))],
        ))],
    )]);
    let specs = log_spec();

    run(&mut prog, &specs).unwrap();

    let args = call_args(&prog);
    // resolve=true (not default) so it survives; reordered to declaration
    // order: [msg, resolve].
    assert_eq!(args.len(), 2);
    assert_eq!(args[0].name, None);
    assert!(matches!(&args[0].value, Expr::Str(s) if s == "hi"));
    assert_eq!(args[1].name, None);
    assert!(matches!(args[1].value, Expr::Bool(true)));
}

#[test]
fn n4_omitted_optional_unfilled_truncated() {
    let mut prog = program(vec![sub(
        "vcl_recv",
        vec![expr_stmt(fcall(
            &["std", "log"],
            vec![narg("msg", str_("hi"))],
        ))],
    )]);
    let specs = log_spec();

    run(&mut prog, &specs).unwrap();

    let args = call_args(&prog);
    // resolve unfilled -> Omitted -> trailing truncated.
    assert_eq!(args.len(), 1);
    assert!(matches!(&args[0].value, Expr::Str(s) if s == "hi"));
}

#[test]
fn n4_explicit_default_value_truncated() {
    let mut prog = program(vec![sub(
        "vcl_recv",
        vec![expr_stmt(fcall(
            &["std", "log"],
            vec![arg(str_("hi")), narg("resolve", bool_(false))],
        ))],
    )]);
    let specs = log_spec();

    run(&mut prog, &specs).unwrap();

    let args = call_args(&prog);
    // resolve=false equals the spec default "false" -> Omitted -> truncated.
    assert_eq!(args.len(), 1);
    assert!(matches!(&args[0].value, Expr::Str(s) if s == "hi"));
}

// N5: duplicate slot / unknown name errors; spec-less vmod calls untouched.
#[test]
fn n5_duplicate_slot_errors() {
    let mut prog = program(vec![sub(
        "vcl_recv",
        vec![expr_stmt(fcall(
            &["std", "log"],
            vec![arg(str_("hi")), narg("msg", str_("bye"))],
        ))],
    )]);
    let specs = log_spec();

    let err = run(&mut prog, &specs).unwrap_err();
    assert!(err.msg.contains("duplicate"), "got: {}", err.msg);
}

#[test]
fn n5_unknown_named_arg_errors() {
    let mut prog = program(vec![sub(
        "vcl_recv",
        vec![expr_stmt(fcall(
            &["std", "log"],
            vec![narg("bogus", str_("hi"))],
        ))],
    )]);
    let specs = log_spec();

    let err = run(&mut prog, &specs).unwrap_err();
    assert!(err.msg.contains("unknown"), "got: {}", err.msg);
}

#[test]
fn n5_spec_less_vmod_left_untouched() {
    let original_args = vec![arg(str_("hi")), narg("resolve", bool_(true))];
    let mut prog = program(vec![sub(
        "vcl_recv",
        vec![expr_stmt(fcall(&["other", "func"], original_args.clone()))],
    )]);
    let specs = log_spec(); // only knows "std", not "other"

    run(&mut prog, &specs).unwrap();

    let args = call_args(&prog);
    assert_eq!(args.len(), original_args.len());
    assert_eq!(args[0].name, original_args[0].name);
    assert_eq!(args[1].name, original_args[1].name);
    assert!(matches!(&args[0].value, Expr::Str(s) if s == "hi"));
    assert!(matches!(args[1].value, Expr::Bool(true)));
}

#[test]
fn method_call_on_known_object_instance_rewritten() {
    // new obj = myvmod.ctor(); obj.method(msg="x");
    let mut methods = Table::new();
    methods.insert(
        "method".to_string(),
        Sig {
            args: vec![ArgSpec {
                name: Some("msg".to_string()),
                default: None,
                optional: false,
                enum_values: None,
            }],
        },
    );
    let mut objects = Table::new();
    objects.insert(
        "ctor".to_string(),
        ObjSpec {
            init: Sig { args: vec![] },
            methods,
        },
    );
    let mut specs = Table::new();
    specs.insert(
        "myvmod".to_string(),
        VmodSpec {
            funcs: Table::new(),
            objects,
        },
    );

    let mut prog = program(vec![sub(
        "vcl_init",
        vec![
            new_("obj", "myvmod", "ctor", vec![]),
            expr_stmt(fcall(&["obj", "method"], vec![narg("msg", str_("hi"))])),
        ],
    )]);

    run(&mut prog, &specs).unwrap();

    if let Decl::Sub { body, .. } = &prog.decls[0] {
        if let Stmt::Expr {
            expr: Expr::Call { args, .. },
            ..
        } = &body[1]
        {
            assert_eq!(args.len(), 1);
            assert_eq!(args[0].name, None);
            assert!(matches!(&args[0].value, Expr::Str(s) if s == "hi"));
            return;
        }
    }
    panic!("expected method call rewritten");
}
