// End-to-end runs of the three stages on small programs.

use minilustre::ast::{Type, Const, Binop, Expr, Equation, Node};
use minilustre::error::CompileError;
use minilustre::normalizer::normalize;
use minilustre::sequentializer::{sequentialize, check_deps};
use minilustre::rustfmt::check_emit_ready;
use minilustre::nast;

fn ident(s: &str) -> Expr {
    Expr::Ident(s.to_string())
}

fn eint(i: i32) -> Expr {
    Expr::Const(Const::Int(i))
}

fn node(
    name: &str,
    args_in: Vec<(&str, Type)>,
    args_out: Vec<(&str, Type)>,
    locals: Vec<(&str, Type)>,
    body: Vec<Equation>,
) -> Node {
    Node {
        name: name.to_string(),
        args_in: args_in.iter().map(|(n, t)| (n.to_string(), *t)).collect(),
        args_out: args_out.iter().map(|(n, t)| (n.to_string(), *t)).collect(),
        locals: locals.iter().map(|(n, t)| (n.to_string(), *t)).collect(),
        body,
    }
}

fn eq(names: Vec<&str>, body: Expr) -> Equation {
    Equation { names: names.iter().map(|n| n.to_string()).collect(), body }
}

fn compile(prog: Vec<Node>) -> Result<String, CompileError> {
    let nf = normalize(&prog)?;
    assert!(check_deps(&nf));
    assert!(check_emit_ready(&nf));
    let sf = sequentialize(&nf)?;
    assert!(check_emit_ready(&sf));
    minilustre::rustfmt::format(&sf)
}

#[test]
fn constant_stream() {
    // node C() returns (o: int); let o = 42; tel
    let prog = vec![node("C", vec![], vec![("o", Type::Int)], vec![], vec![
        eq(vec!["o"], eint(42)),
    ])];
    let out = compile(prog).unwrap();
    let expected = "fn print(s: &str) {\n\tprintln!(\"{}\", s);\n}\n\nfn C() -> i32 {\n\tlet o = 42;\n\treturn o;\n}\n\nfn main() {\n\teprintln!(\"We will call node `C` 10 times.\");\n\tfor _ in 0..10 {\n\t\tlet v = C();\n\t\teprintln!(\"{:?}\", &v);\n\t}\n}\n";
    assert_eq!(out, expected);
}

#[test]
fn simple_delay() {
    // node D() returns (o: int); let o = 0 fby (o + 1); tel
    let prog = vec![node("D", vec![], vec![("o", Type::Int)], vec![], vec![
        eq(
            vec!["o"],
            Expr::Fby(Box::new((
                eint(0),
                Expr::Binop(Binop::Plus, Box::new((ident("o"), eint(1)))),
            ))),
        ),
    ])];
    let out = compile(prog).unwrap();
    let expected = "fn print(s: &str) {\n\tprintln!(\"{}\", s);\n}\n\n#[derive(Debug)]\nstruct MemD {\n\to: i32,\n}\n\nimpl Default for MemD {\n\tfn default() -> Self {\n\t\tSelf {\n\t\t\to: 0,\n\t\t}\n\t}\n}\n\nfn D(mem: &mut MemD) -> i32 {\n\tlet o = mem.o;\n\tmem.o = o + 1;\n\treturn o;\n}\n\nfn main() {\n\teprintln!(\"We will call node `D` 10 times.\");\n\tlet mut mem: MemD = Default::default();\n\tfor _ in 0..10 {\n\t\tlet v = D(&mut mem);\n\t\teprintln!(\"{:?}\", &v);\n\t}\n}\n";
    assert_eq!(out, expected);
}

#[test]
fn cycle_rejection() {
    // node X() returns (a, b: int); let a = b + 1; b = a + 1; tel
    let prog = vec![node(
        "X",
        vec![],
        vec![("a", Type::Int), ("b", Type::Int)],
        vec![],
        vec![
            eq(vec!["a"], Expr::Binop(Binop::Plus, Box::new((ident("b"), eint(1))))),
            eq(vec!["b"], Expr::Binop(Binop::Plus, Box::new((ident("a"), eint(1))))),
        ],
    )];
    match compile(prog) {
        Err(CompileError::Cycle { node, name }) => {
            assert_eq!(node, "X");
            assert!(name == "a" || name == "b");
        },
        other => panic!("expected a cycle error, got {:?}", other),
    }
}

#[test]
fn cycle_broken_by_fby() {
    // node Y() returns (a: int); var b: int; let a = 0 fby b; b = a + 1; tel
    let prog = vec![node(
        "Y",
        vec![],
        vec![("a", Type::Int)],
        vec![("b", Type::Int)],
        vec![
            eq(vec!["a"], Expr::Fby(Box::new((eint(0), ident("b"))))),
            eq(vec!["b"], Expr::Binop(Binop::Plus, Box::new((ident("a"), eint(1))))),
        ],
    )];
    let out = compile(prog).unwrap();
    assert!(out.contains("struct MemY {\n\ta: i32,\n}"));
    assert!(out.contains("\t\t\ta: 0,\n"));
    assert!(out.contains(
        "fn Y(mem: &mut MemY) -> i32 {\n\tlet a = mem.a;\n\tlet b = a + 1;\n\tmem.a = b;\n\treturn a;\n}"
    ));
}

#[test]
fn nested_calls_normalized() {
    // node f(x: int) returns (y: int); let y = x; tel
    // node N() returns (o: int); let o = f(f(1)); tel
    let f = node("f", vec![("x", Type::Int)], vec![("y", Type::Int)], vec![], vec![
        eq(vec!["y"], ident("x")),
    ]);
    let n = node("N", vec![], vec![("o", Type::Int)], vec![], vec![
        eq(
            vec!["o"],
            Expr::Call {
                name: "f".to_string(),
                args: vec![Expr::Call { name: "f".to_string(), args: vec![eint(1)] }],
            },
        ),
    ]);
    let nf = normalize(&vec![f, n]).unwrap();
    // the nested call is lifted into an intermediate equation
    assert_eq!(nf[1].locals, vec!["tmp1".to_string()]);
    assert_eq!(nf[1].body.len(), 2);
    assert_eq!(nf[1].body[0].names, vec!["o".to_string()]);
    assert_eq!(nf[1].body[1].names, vec!["tmp1".to_string()]);
    // the sequentializer places the intermediate first
    assert!(check_deps(&nf));
    let sf = sequentialize(&nf).unwrap();
    assert_eq!(sf[1].body[0].names, vec!["tmp1".to_string()]);
    assert_eq!(sf[1].body[1].names, vec!["o".to_string()]);
    let out = minilustre::rustfmt::format(&sf).unwrap();
    assert!(out.contains("fn N() -> i32 {\n\tlet tmp1 = f(1);\n\tlet o = f(tmp1);\n\treturn o;\n}"));
}

#[test]
fn tuple_arity_mismatch() {
    // node Z() returns (a, b: int); let (a, b) = 0 fby (1, 2, 3); tel
    let prog = vec![node(
        "Z",
        vec![],
        vec![("a", Type::Int), ("b", Type::Int)],
        vec![],
        vec![
            eq(
                vec!["a", "b"],
                Expr::Fby(Box::new((
                    eint(0),
                    Expr::Tuple(vec![eint(1), eint(2), eint(3)]),
                ))),
            ),
        ],
    )];
    match normalize(&prog) {
        Err(CompileError::TupleArityMismatch { node }) => {
            assert_eq!(node, "Z");
        },
        other => panic!("expected a tuple-arity error, got {:?}", other),
    }
}

#[test]
fn tuple_fby_of_unequal_tuples() {
    let prog = vec![node("W", vec![], vec![("a", Type::Int), ("b", Type::Int)], vec![], vec![
        eq(
            vec!["a", "b"],
            Expr::Fby(Box::new((
                Expr::Tuple(vec![eint(0), eint(0)]),
                Expr::Tuple(vec![eint(1), eint(2), eint(3)]),
            ))),
        ),
    ])];
    assert!(matches!(
        normalize(&prog),
        Err(CompileError::TupleArityMismatch { .. })
    ));
}

#[test]
fn duplicate_definition() {
    let prog = vec![node("U", vec![], vec![("o", Type::Int)], vec![], vec![
        eq(vec!["o"], eint(1)),
        eq(vec!["o"], eint(2)),
    ])];
    let nf = normalize(&prog).unwrap();
    assert!(check_deps(&nf));
    match sequentialize(&nf) {
        Err(CompileError::DuplicateDefinition { node, name }) => {
            assert_eq!(node, "U");
            assert_eq!(name, "o");
        },
        other => panic!("expected a duplicate-definition error, got {:?}", other),
    }
}

#[test]
fn non_constant_fby_initial() {
    // node V(i: int) returns (o: int); let o = i fby 1; tel
    let prog = vec![node("V", vec![("i", Type::Int)], vec![("o", Type::Int)], vec![], vec![
        eq(vec!["o"], Expr::Fby(Box::new((ident("i"), eint(1))))),
    ])];
    let nf = normalize(&prog).unwrap();
    assert!(check_emit_ready(&nf));
    match minilustre::rustfmt::format(&nf) {
        Err(CompileError::NonConstFbyInit { node, name }) => {
            assert_eq!(node, "V");
            assert_eq!(name, "o");
        },
        other => panic!("expected a non-constant-initial error, got {:?}", other),
    }
}

#[test]
fn renormalizing_is_identity() {
    // the normalized form of the delay node, written as raw input again
    let raw = vec![node("D", vec![], vec![("o", Type::Int)], vec![], vec![
        eq(
            vec!["o"],
            Expr::Fby(Box::new((
                eint(0),
                Expr::Binop(Binop::Plus, Box::new((ident("o"), eint(1)))),
            ))),
        ),
    ])];
    let once = normalize(&raw).unwrap();
    let again = normalize(&raw).unwrap();
    assert_eq!(format!("{:?}", once), format!("{:?}", again));
    // normalizing left the already-normal equation untouched
    assert_eq!(once[0].body.len(), 1);
    assert!(once[0].locals.is_empty());
    assert!(matches!(once[0].body[0].body, nast::Expr::Fby(_, _)));
}

#[test]
fn inputs_are_read_in_main() {
    // node P(i: int, s: string, u: unit) returns (o: int); let o = i; tel
    let prog = vec![node(
        "P",
        vec![("i", Type::Int), ("s", Type::Str), ("u", Type::Unit)],
        vec![("o", Type::Int)],
        vec![],
        vec![eq(vec!["o"], ident("i"))],
    )];
    let out = compile(prog).unwrap();
    assert!(out.contains("fn P(i: i32, s: String, u: ()) -> i32 {\n"));
    assert!(out.contains("\tlet i = i_str.trim().parse::<i32>().unwrap();\n"));
    assert!(out.contains("\tlet s = s_str;\n"));
    assert!(out.contains("\tlet u = ();\n"));
    assert!(out.contains("\t\tlet v = P(i, s, u);\n"));
}

#[test]
fn stateful_callee_threads_memory() {
    // node D() returns (o: int); let o = 0 fby (o + 1); tel
    // node T() returns (p: int); let p = D(); tel
    let d = node("D", vec![], vec![("o", Type::Int)], vec![], vec![
        eq(
            vec!["o"],
            Expr::Fby(Box::new((
                eint(0),
                Expr::Binop(Binop::Plus, Box::new((ident("o"), eint(1)))),
            ))),
        ),
    ]);
    let t = node("T", vec![], vec![("p", Type::Int)], vec![], vec![
        eq(vec!["p"], Expr::Call { name: "D".to_string(), args: vec![] }),
    ]);
    let out = compile(vec![d, t]).unwrap();
    // the caller's memory holds the callee's memory under the bound name
    assert!(out.contains("struct MemT {\n\tp: MemD,\n}"));
    assert!(out.contains("\t\t\tp: Default::default(),\n"));
    assert!(out.contains("fn T(mem: &mut MemT) -> i32 {\n\tlet p = D(&mut mem.p);\n\treturn p;\n}"));
    assert!(out.contains("\t\tlet v = T(&mut mem);\n"));
}

#[test]
fn multi_name_equation_emits_tuple_binding() {
    // node M() returns (a, b: int); let (a, b) = (1, 2); tel
    let prog = vec![node("M", vec![], vec![("a", Type::Int), ("b", Type::Int)], vec![], vec![
        eq(vec!["a", "b"], Expr::Tuple(vec![eint(1), eint(2)])),
    ])];
    let out = compile(prog).unwrap();
    assert!(out.contains("fn M() -> (i32, i32) {\n"));
    assert!(out.contains("\tlet (a, b) = (1, 2);\n"));
    assert!(out.contains("\treturn (a, b);\n"));
}

#[test]
fn empty_program() {
    let out = compile(vec![]).unwrap();
    assert_eq!(
        out,
        "fn print(s: &str) {\n\tprintln!(\"{}\", s);\n}\n\nfn main() {\n}\n"
    );
}

#[test]
fn tuple_delay_reads_and_updates_both_slots() {
    // node G() returns (a, b: int); let (a, b) = (0, 1) fby (a + 1, b + 2); tel
    let prog = vec![node(
        "G",
        vec![],
        vec![("a", Type::Int), ("b", Type::Int)],
        vec![],
        vec![eq(
            vec!["a", "b"],
            Expr::Fby(Box::new((
                Expr::Tuple(vec![eint(0), eint(1)]),
                Expr::Tuple(vec![
                    Expr::Binop(Binop::Plus, Box::new((ident("a"), eint(1)))),
                    Expr::Binop(Binop::Plus, Box::new((ident("b"), eint(2)))),
                ]),
            ))),
        )],
    )];
    let out = compile(prog).unwrap();
    assert!(out.contains("struct MemG {\n\ta: i32,\n\tb: i32,\n}"));
    assert!(out.contains("\t\t\ta: 0,\n"));
    assert!(out.contains("\t\t\tb: 1,\n"));
    assert!(out.contains("\tlet (a, b) = (mem.a, mem.b);\n"));
    assert!(out.contains("\tmem.a = a + 1;\n"));
    assert!(out.contains("\tmem.b = b + 2;\n"));
}
