// Unit tests of the helpers the stages are built from.

use minilustre::ast::{Type, Const, Binop, Equation, Node};
use minilustre::ast::Expr as RawExpr;
use minilustre::normalizer::normalize;
use minilustre::sequentializer::sequentialize;
use minilustre::nast::{Atom, Bexpr, Expr};
use minilustre::typer::{type_of_const, type_of};
use minilustre::rustfmt::{get_type, capitalize, format_arg_list};
use minilustre::sequentializer::propagate;

#[test]
fn constant_types() {
    assert!(matches!(type_of_const(&Const::Unit), Type::Unit));
    assert!(matches!(type_of_const(&Const::Bool(true)), Type::Bool));
    assert!(matches!(type_of_const(&Const::Int(3)), Type::Int));
    assert!(matches!(type_of_const(&Const::Float("1.5".to_string())), Type::Float));
    assert!(matches!(type_of_const(&Const::Str("x".to_string())), Type::Str));
}

#[test]
fn shape_determined_types() {
    let c = Bexpr::Atom(Atom::Const(Const::Bool(true)));
    let t = Bexpr::Atom(Atom::Const(Const::Int(1)));
    let f = Bexpr::Atom(Atom::Const(Const::Int(2)));
    let e = Expr::Bexpr(Bexpr::If(Box::new((c, t, f))));
    assert!(matches!(type_of(&e), Type::Int));
    let cmp = Expr::Bexpr(Bexpr::Binop(
        Binop::Lt,
        Box::new((
            Bexpr::Atom(Atom::Const(Const::Int(1))),
            Bexpr::Atom(Atom::Const(Const::Int(2))),
        )),
    ));
    assert!(matches!(type_of(&cmp), Type::Bool));
}

#[test]
fn target_type_names() {
    assert_eq!(get_type(Type::Unit), "()");
    assert_eq!(get_type(Type::Bool), "bool");
    assert_eq!(get_type(Type::Int), "i32");
    assert_eq!(get_type(Type::Float), "f32");
    assert_eq!(get_type(Type::Str), "String");
}

#[test]
fn capitalize_identifiers() {
    assert_eq!(capitalize(&"counter".to_string()), "Counter");
    assert_eq!(capitalize(&"Main".to_string()), "Main");
    assert_eq!(capitalize(&"x2".to_string()), "X2");
    assert_eq!(capitalize(&"".to_string()), "");
}

#[test]
fn arg_list_forms() {
    let args = vec![("x".to_string(), Type::Int), ("y".to_string(), Type::Bool)];
    let mut both = String::new();
    format_arg_list(&mut both, &args, true, true);
    assert_eq!(both, "x: i32, y: bool");
    let mut names = String::new();
    format_arg_list(&mut names, &args, true, false);
    assert_eq!(names, "x, y");
    let mut types = String::new();
    format_arg_list(&mut types, &args, false, true);
    assert_eq!(types, "i32, bool");
}

#[test]
fn propagate_closes_chains() {
    let deps = vec![
        ("a".to_string(), vec!["b".to_string()]),
        ("b".to_string(), vec!["c".to_string()]),
        ("c".to_string(), vec![]),
    ];
    let closed = propagate(&deps);
    assert_eq!(closed.len(), 3);
    assert_eq!(closed[0].0, "a");
    assert_eq!(closed[0].1, vec!["b".to_string(), "c".to_string()]);
    assert_eq!(closed[1].1, vec!["c".to_string()]);
    assert!(closed[2].1.is_empty());
}

#[test]
fn propagate_keeps_self_loops_visible() {
    let deps = vec![
        ("a".to_string(), vec!["b".to_string()]),
        ("b".to_string(), vec!["a".to_string()]),
    ];
    let closed = propagate(&deps);
    assert!(closed[0].1.contains(&"a".to_string()));
    assert!(closed[0].1.contains(&"b".to_string()));
    assert!(closed[1].1.contains(&"a".to_string()));
    assert!(closed[1].1.contains(&"b".to_string()));
}

#[test]
fn negative_constants_emit_sign() {
    let prog = vec![Node {
        name: "K".to_string(),
        args_in: vec![],
        args_out: vec![("o".to_string(), Type::Int)],
        locals: vec![],
        body: vec![Equation {
            names: vec!["o".to_string()],
            body: RawExpr::Const(Const::Int(-2147483648)),
        }],
    }];
    let nf = normalize(&prog).unwrap();
    let sf = sequentialize(&nf).unwrap();
    let out = minilustre::rustfmt::format(&sf).unwrap();
    assert!(out.contains("\tlet o = -2147483648;\n"));
}

#[test]
fn string_and_float_constants_keep_their_text() {
    let prog = vec![Node {
        name: "K".to_string(),
        args_in: vec![],
        args_out: vec![("a".to_string(), Type::Str), ("b".to_string(), Type::Float)],
        locals: vec![],
        body: vec![
            Equation {
                names: vec!["a".to_string()],
                body: RawExpr::Const(Const::Str("hi".to_string())),
            },
            Equation {
                names: vec!["b".to_string()],
                body: RawExpr::Const(Const::Float("2.5".to_string())),
            },
        ],
    }];
    let nf = normalize(&prog).unwrap();
    let sf = sequentialize(&nf).unwrap();
    let out = minilustre::rustfmt::format(&sf).unwrap();
    assert!(out.contains("\tlet a = \"hi\";\n"));
    assert!(out.contains("\tlet b = 2.5;\n"));
}
