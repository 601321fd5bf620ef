//! Normalized syntax tree.
//!
//! Three strata keep calls and delays at equation top level: an `Atom` is
//! an identifier or a constant; a `Bexpr` is built from atoms with
//! operators, conditionals and tuples only; an equation body (`Expr`) is a
//! `Bexpr`, a single call whose arguments are `Bexpr`s, or a single `fby`
//! whose initial operands are atoms.  The stratification itself rules out
//! nested calls and delays; it is enforced by these types.
//!
//! Local declarations keep their declared order; normalization appends the
//! names it synthesizes at the end, so emission order is deterministic.
//! After normalization only the *names* of the locals matter — they keep
//! fresh names from colliding, and emitted local bindings carry no
//! declared type — so a normalized node records local names without
//! types, and nothing downstream asks for one.

use vstd::prelude::*;

pub use crate::ast::{Type, Const, Unop, Binop, ConstV};
use crate::ast::strings_view;

verus! {

broadcast use vstd::std_specs::vec::axiom_vec_index_decreases;

#[derive(Debug)]
pub enum Atom {
    Ident(String),
    Const(Const),
}

#[derive(Debug)]
pub enum Bexpr {
    Atom(Atom),
    Unop(Unop, Box<Bexpr>),
    Binop(Binop, Box<(Bexpr, Bexpr)>),
    If(Box<(Bexpr, Bexpr, Bexpr)>),
    Tuple(Vec<Bexpr>),
}

#[derive(Debug)]
pub enum Expr {
    Bexpr(Bexpr),
    Call { name: String, args: Vec<Bexpr> },
    /// The initial atoms and the next-cycle expressions, one pair per
    /// name bound by the equation.
    Fby(Vec<Atom>, Vec<Bexpr>),
}

#[derive(Debug)]
pub struct Equation {
    pub names: Vec<String>,
    pub body: Expr,
}

#[derive(Debug)]
pub struct Node {
    pub name: String,
    pub args_in: Vec<(String, Type)>,
    pub args_out: Vec<(String, Type)>,
    /// Declared locals in declared order, then synthesized locals in
    /// the order they were minted.
    pub locals: Vec<String>,
    pub body: Vec<Equation>,
}

/// Mathematical value of an atom.
#[verifier::ext_equal]
pub enum AtomV {
    Ident(Seq<char>),
    Const(ConstV),
}

/// Mathematical value of a basic expression.
#[verifier::ext_equal]
pub enum BexprV {
    Atom(AtomV),
    Unop(Unop, Box<BexprV>),
    Binop(Binop, Box<BexprV>, Box<BexprV>),
    If(Box<BexprV>, Box<BexprV>, Box<BexprV>),
    Tuple(Seq<BexprV>),
}

/// Mathematical value of an equation body.
#[verifier::ext_equal]
pub enum ExprV {
    Bexpr(BexprV),
    Call { name: Seq<char>, args: Seq<BexprV> },
    Fby(Seq<AtomV>, Seq<BexprV>),
}

#[verifier::ext_equal]
pub struct EquationV {
    pub names: Seq<Seq<char>>,
    pub body: ExprV,
}

#[verifier::ext_equal]
pub struct NodeV {
    pub name: Seq<char>,
    pub args_in: Seq<(Seq<char>, Type)>,
    pub args_out: Seq<(Seq<char>, Type)>,
    pub locals: Seq<Seq<char>>,
    pub body: Seq<EquationV>,
}

impl View for Atom {
    type V = AtomV;

    open spec fn view(&self) -> AtomV {
        match self {
            Atom::Ident(s) => AtomV::Ident(s@),
            Atom::Const(c) => AtomV::Const(c@),
        }
    }
}

impl View for Bexpr {
    type V = BexprV;

    open spec fn view(&self) -> BexprV
        decreases self,
    {
        match self {
            Bexpr::Atom(a) => BexprV::Atom(a@),
            Bexpr::Unop(op, e) => BexprV::Unop(*op, Box::new((**e)@)),
            Bexpr::Binop(op, es) => BexprV::Binop(*op, Box::new(es.0@), Box::new(es.1@)),
            Bexpr::If(es) => BexprV::If(Box::new(es.0@), Box::new(es.1@), Box::new(es.2@)),
            Bexpr::Tuple(es) => BexprV::Tuple(
                Seq::new(
                    es@.len(),
                    |i: int|
                        if 0 <= i < es@.len() {
                            es[i]@
                        } else {
                            BexprV::Atom(AtomV::Const(ConstV::Unit))
                        },
                ),
            ),
        }
    }
}

/// A list of normalized equations, element by element.
pub open spec fn equations_view(eqs: Seq<Equation>) -> Seq<EquationV> {
    eqs.map_values(|eq: Equation| eq@)
}

/// A list of basic expressions, element by element.
pub open spec fn bexprs_view(es: Seq<Bexpr>) -> Seq<BexprV> {
    es.map_values(|e: Bexpr| e@)
}

/// A list of atoms, element by element.
pub open spec fn atoms_view(atoms: Seq<Atom>) -> Seq<AtomV> {
    atoms.map_values(|a: Atom| a@)
}

impl View for Expr {
    type V = ExprV;

    open spec fn view(&self) -> ExprV {
        match self {
            Expr::Bexpr(e) => ExprV::Bexpr(e@),
            Expr::Call { name, args } => ExprV::Call { name: name@, args: bexprs_view(args@) },
            Expr::Fby(inits, nexts) => ExprV::Fby(atoms_view(inits@), bexprs_view(nexts@)),
        }
    }
}

impl View for Equation {
    type V = EquationV;

    open spec fn view(&self) -> EquationV {
        EquationV { names: strings_view(self.names@), body: self.body@ }
    }
}

impl View for Node {
    type V = NodeV;

    open spec fn view(&self) -> NodeV {
        NodeV {
            name: self.name@,
            args_in: crate::ast::args_view(self.args_in@),
            args_out: crate::ast::args_view(self.args_out@),
            locals: strings_view(self.locals@),
            body: equations_view(self.body@),
        }
    }
}

/// A program is a list of nodes; the last one is the entry point.
pub open spec fn program_view(prog: Seq<Node>) -> Seq<NodeV> {
    prog.map_values(|n: Node| n@)
}

impl Clone for Atom {
    /// Cloning keeps the mathematical value.
    fn clone(&self) -> (r: Atom)
        ensures
            r@ == self@,
    {
        match self {
            Atom::Ident(s) => Atom::Ident(s.clone()),
            Atom::Const(c) => Atom::Const(c.clone()),
        }
    }
}

impl Clone for Bexpr {
    /// Cloning keeps the mathematical value.
    #[verifier::loop_isolation(false)]
    fn clone(&self) -> (r: Bexpr)
        ensures
            r@ == self@,
        decreases self,
    {
        match self {
            Bexpr::Atom(a) => Bexpr::Atom(a.clone()),
            Bexpr::Unop(op, e) => Bexpr::Unop(*op, Box::new((**e).clone())),
            Bexpr::Binop(op, es) => Bexpr::Binop(*op, Box::new((es.0.clone(), es.1.clone()))),
            Bexpr::If(es) => Bexpr::If(Box::new((es.0.clone(), es.1.clone(), es.2.clone()))),
            Bexpr::Tuple(es) => {
                let mut out: Vec<Bexpr> = Vec::new();
                let mut i: usize = 0;
                while i < es.len()
                    invariant
                        i <= es.len(),
                        out@.len() == i,
                        forall|k: int| 0 <= k < i ==> out@[k]@ == es@[k]@,
                    decreases es.len() - i,
                {
                    out.push(es[i].clone());
                    i = i + 1;
                }
                let r = Bexpr::Tuple(out);
                proof {
                    assert(r@->Tuple_0 =~= self@->Tuple_0);
                    assert(r@ =~= self@);
                }
                r
            },
        }
    }
}

impl Clone for Expr {
    /// Cloning keeps the mathematical value.
    fn clone(&self) -> (r: Expr)
        ensures
            r@ == self@,
    {
        match self {
            Expr::Bexpr(e) => Expr::Bexpr(e.clone()),
            Expr::Call { name, args } => {
                let mut out: Vec<Bexpr> = Vec::new();
                let mut i: usize = 0;
                while i < args.len()
                    invariant
                        i <= args.len(),
                        out@.len() == i,
                        forall|k: int| 0 <= k < i ==> out@[k]@ == args@[k]@,
                    decreases args.len() - i,
                {
                    out.push(args[i].clone());
                    i = i + 1;
                }
                proof {
                    assert(bexprs_view(out@) =~= bexprs_view(args@));
                }
                Expr::Call { name: name.clone(), args: out }
            },
            Expr::Fby(inits, nexts) => {
                let mut is: Vec<Atom> = Vec::new();
                let mut i: usize = 0;
                while i < inits.len()
                    invariant
                        i <= inits.len(),
                        is@.len() == i,
                        forall|k: int| 0 <= k < i ==> is@[k]@ == inits@[k]@,
                    decreases inits.len() - i,
                {
                    is.push(inits[i].clone());
                    i = i + 1;
                }
                let mut ns: Vec<Bexpr> = Vec::new();
                let mut j: usize = 0;
                while j < nexts.len()
                    invariant
                        j <= nexts.len(),
                        ns@.len() == j,
                        forall|k: int| 0 <= k < j ==> ns@[k]@ == nexts@[k]@,
                    decreases nexts.len() - j,
                {
                    ns.push(nexts[j].clone());
                    j = j + 1;
                }
                proof {
                    assert(atoms_view(is@) =~= atoms_view(inits@));
                    assert(bexprs_view(ns@) =~= bexprs_view(nexts@));
                }
                Expr::Fby(is, ns)
            },
        }
    }
}

impl Clone for Equation {
    /// Cloning keeps the mathematical value.
    fn clone(&self) -> (r: Equation)
        ensures
            r@ == self@,
    {
        let mut names: Vec<String> = Vec::new();
        let mut i: usize = 0;
        while i < self.names.len()
            invariant
                i <= self.names.len(),
                names@.len() == i,
                forall|k: int| 0 <= k < i ==> names@[k]@ == self.names@[k]@,
            decreases self.names.len() - i,
        {
            names.push(self.names[i].clone());
            i = i + 1;
        }
        proof {
            assert(strings_view(names@) =~= strings_view(self.names@));
        }
        Equation { names, body: self.body.clone() }
    }
}

} // verus!
