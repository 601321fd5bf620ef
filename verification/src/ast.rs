//! Raw syntax tree, as the parser hands it over.
//!
//! Every stream type is one of five scalar types.  A float constant keeps
//! the literal text it was written with: the middle end never computes
//! with the numeric value, it only records the constant's type and copies
//! the text into the emitted program.

use vstd::prelude::*;

verus! {

broadcast use vstd::std_specs::vec::axiom_vec_index_decreases;

#[derive(Debug, Clone, Copy, PartialEq, Eq, Structural)]
pub enum Type {
    Unit,
    Bool,
    Int,
    Float,
    Str,
}

#[derive(Debug)]
pub enum Const {
    Unit,
    Bool(bool),
    Int(i32),
    /// The source text of a float literal.
    Float(String),
    Str(String),
}

/// Unary operators.
#[derive(Debug, Clone, Copy, PartialEq, Eq, Structural)]
pub enum Unop {
    Minus,
    MinusDot,
    Not,
}

/// Binary operators; the dotted forms are the float variants.
#[derive(Debug, Clone, Copy, PartialEq, Eq, Structural)]
pub enum Binop {
    Plus,
    Minus,
    Mult,
    Div,
    PlusDot,
    MinusDot,
    MultDot,
    DivDot,
    Lt,
    Gt,
    Leq,
    Geq,
    Eq,
    And,
    Or,
}

#[derive(Debug)]
pub enum Expr {
    Call { name: String, args: Vec<Expr> },
    Const(Const),
    Unop(Unop, Box<Expr>),
    Binop(Binop, Box<(Expr, Expr)>),
    /// Yields an initial value followed by an expression.
    Fby(Box<(Expr, Expr)>),
    If(Box<(Expr, Expr, Expr)>),
    /// Reference to the result of another equation.
    Ident(String),
    Tuple(Vec<Expr>),
}

#[derive(Debug)]
pub struct Equation {
    pub names: Vec<String>,
    pub body: Expr,
}

#[derive(Debug)]
pub struct Node {
    pub name: String,
    pub args_in: Vec<(String, Type)>,
    pub args_out: Vec<(String, Type)>,
    pub locals: Vec<(String, Type)>,
    pub body: Vec<Equation>,
}

/// Mathematical value of a constant.
#[verifier::ext_equal]
pub enum ConstV {
    Unit,
    Bool(bool),
    Int(int),
    Float(Seq<char>),
    Str(Seq<char>),
}

/// Mathematical value of a raw expression.
#[verifier::ext_equal]
pub enum ExprV {
    Call { name: Seq<char>, args: Seq<ExprV> },
    Const(ConstV),
    Unop(Unop, Box<ExprV>),
    Binop(Binop, Box<ExprV>, Box<ExprV>),
    Fby(Box<ExprV>, Box<ExprV>),
    If(Box<ExprV>, Box<ExprV>, Box<ExprV>),
    Ident(Seq<char>),
    Tuple(Seq<ExprV>),
}

#[verifier::ext_equal]
pub struct EquationV {
    pub names: Seq<Seq<char>>,
    pub body: ExprV,
}

#[verifier::ext_equal]
pub struct NodeV {
    pub name: Seq<char>,
    pub args_in: Seq<(Seq<char>, Type)>,
    pub args_out: Seq<(Seq<char>, Type)>,
    pub locals: Seq<(Seq<char>, Type)>,
    pub body: Seq<EquationV>,
}

impl View for Const {
    type V = ConstV;

    open spec fn view(&self) -> ConstV {
        match self {
            Const::Unit => ConstV::Unit,
            Const::Bool(b) => ConstV::Bool(*b),
            Const::Int(i) => ConstV::Int(*i as int),
            Const::Float(s) => ConstV::Float(s@),
            Const::Str(s) => ConstV::Str(s@),
        }
    }
}

impl View for Expr {
    type V = ExprV;

    open spec fn view(&self) -> ExprV
        decreases self,
    {
        match self {
            Expr::Call { name, args } => ExprV::Call {
                name: name@,
                args: Seq::new(
                    args@.len(),
                    |i: int|
                        if 0 <= i < args@.len() {
                            args[i]@
                        } else {
                            ExprV::Const(ConstV::Unit)
                        },
                ),
            },
            Expr::Const(c) => ExprV::Const(c@),
            Expr::Unop(op, e) => ExprV::Unop(*op, Box::new((**e)@)),
            Expr::Binop(op, es) => ExprV::Binop(*op, Box::new(es.0@), Box::new(es.1@)),
            Expr::Fby(es) => ExprV::Fby(Box::new(es.0@), Box::new(es.1@)),
            Expr::If(es) => ExprV::If(Box::new(es.0@), Box::new(es.1@), Box::new(es.2@)),
            Expr::Ident(s) => ExprV::Ident(s@),
            Expr::Tuple(es) => ExprV::Tuple(
                Seq::new(
                    es@.len(),
                    |i: int|
                        if 0 <= i < es@.len() {
                            es[i]@
                        } else {
                            ExprV::Const(ConstV::Unit)
                        },
                ),
            ),
        }
    }
}

/// A list of raw expressions, element by element.
pub open spec fn exprs_view(es: Seq<Expr>) -> Seq<ExprV> {
    es.map_values(|e: Expr| e@)
}

/// A list of identifiers, as a sequence of character sequences.
pub open spec fn strings_view(ss: Seq<String>) -> Seq<Seq<char>> {
    ss.map_values(|s: String| s@)
}

/// A list of raw equations, element by element.
pub open spec fn equations_view(eqs: Seq<Equation>) -> Seq<EquationV> {
    eqs.map_values(|eq: Equation| eq@)
}

impl View for Equation {
    type V = EquationV;

    open spec fn view(&self) -> EquationV {
        EquationV { names: strings_view(self.names@), body: self.body@ }
    }
}

/// The argument and local declarations of a node, as name/type pairs.
pub open spec fn args_view(args: Seq<(String, Type)>) -> Seq<(Seq<char>, Type)> {
    args.map_values(|a: (String, Type)| (a.0@, a.1))
}

impl View for Node {
    type V = NodeV;

    open spec fn view(&self) -> NodeV {
        NodeV {
            name: self.name@,
            args_in: args_view(self.args_in@),
            args_out: args_view(self.args_out@),
            locals: args_view(self.locals@),
            body: equations_view(self.body@),
        }
    }
}

/// A program is a list of nodes; the last one is the entry point.
pub open spec fn program_view(prog: Seq<Node>) -> Seq<NodeV> {
    prog.map_values(|n: Node| n@)
}

/// Copies a list of identifiers.
pub fn clone_strings(v: &Vec<String>) -> (r: Vec<String>)
    ensures
        strings_view(r@) =~= strings_view(v@),
{
    let mut r: Vec<String> = Vec::new();
    let mut i: usize = 0;
    while i < v.len()
        invariant
            i <= v.len(),
            r@.len() == i,
            forall|k: int| 0 <= k < i ==> (#[trigger] r@[k])@ == v@[k]@,
        decreases v.len() - i,
    {
        r.push(v[i].clone());
        i = i + 1;
    }
    proof {
        assert forall|k: int| 0 <= k < r@.len() implies strings_view(r@)[k] == strings_view(
            v@,
        )[k] by {
            assert(strings_view(r@)[k] == r@[k]@);
            assert(strings_view(v@)[k] == v@[k]@);
        }
    }
    r
}

/// Copies a list of name/type declarations.
pub fn clone_args(v: &Vec<(String, Type)>) -> (r: Vec<(String, Type)>)
    ensures
        args_view(r@) =~= args_view(v@),
{
    let mut r: Vec<(String, Type)> = Vec::new();
    let mut i: usize = 0;
    while i < v.len()
        invariant
            i <= v.len(),
            r@.len() == i,
            forall|k: int|
                0 <= k < i ==> (#[trigger] r@[k]).0@ == v@[k].0@ && r@[k].1 == v@[k].1,
        decreases v.len() - i,
    {
        let p = &v[i];
        r.push((p.0.clone(), p.1));
        i = i + 1;
    }
    proof {
        assert forall|k: int| 0 <= k < r@.len() implies args_view(r@)[k] == args_view(v@)[k] by {
            assert(args_view(r@)[k] == (r@[k].0@, r@[k].1));
            assert(args_view(v@)[k] == (v@[k].0@, v@[k].1));
        }
    }
    r
}

impl Clone for Const {
    /// Cloning keeps the mathematical value.
    fn clone(&self) -> (r: Const)
        ensures
            r@ == self@,
    {
        match self {
            Const::Unit => Const::Unit,
            Const::Bool(b) => Const::Bool(*b),
            Const::Int(i) => Const::Int(*i),
            Const::Float(s) => Const::Float(s.clone()),
            Const::Str(s) => Const::Str(s.clone()),
        }
    }
}

} // verus!
