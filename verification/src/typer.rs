//! Minimal typing of constants and of the basic expressions whose type is
//! determined by their shape alone.
//!
//! Memory synthesis only needs the type of a constant.  `type_of` covers
//! the expressions whose type can be read off without an environment: a
//! constant, an operator application, or a conditional whose then-branch
//! is such an expression.  Identifiers and tuples have no shape-determined
//! type, so `type_of` asks for a typeable expression up front.

use vstd::prelude::*;

use crate::ast::{Type, Const, Unop, Binop, ConstV};
use crate::nast::{Atom, Bexpr, Expr, AtomV, BexprV, ExprV};

verus! {

/// The type of a constant.
pub open spec fn spec_type_of_const(c: ConstV) -> Type {
    match c {
        ConstV::Unit => Type::Unit,
        ConstV::Bool(_) => Type::Bool,
        ConstV::Int(_) => Type::Int,
        ConstV::Float(_) => Type::Float,
        ConstV::Str(_) => Type::Str,
    }
}

/// Whether the type of a basic expression is determined by its shape:
/// the spine followed by `spec_type_of_bexpr` meets no identifier and no
/// tuple.
pub open spec fn bexpr_typeable(e: BexprV) -> bool
    decreases e,
{
    match e {
        BexprV::Atom(a) => a is Const,
        BexprV::Unop(_, _) => true,
        BexprV::Binop(_, _, _) => true,
        BexprV::If(_, t, _) => bexpr_typeable(*t),
        BexprV::Tuple(_) => false,
    }
}

/// The shape-determined type of a basic expression.
pub open spec fn spec_type_of_bexpr(e: BexprV) -> Type
    recommends
        bexpr_typeable(e),
    decreases e,
{
    match e {
        BexprV::Atom(a) => match a {
            AtomV::Const(c) => spec_type_of_const(c),
            AtomV::Ident(_) => Type::Unit,
        },
        BexprV::Unop(op, _) => match op {
            Unop::Minus => Type::Int,
            Unop::MinusDot => Type::Float,
            Unop::Not => Type::Bool,
        },
        BexprV::Binop(op, _, _) => match op {
            Binop::Plus | Binop::Minus | Binop::Mult | Binop::Div => Type::Int,
            Binop::PlusDot | Binop::MinusDot | Binop::MultDot | Binop::DivDot => Type::Float,
            Binop::Lt | Binop::Gt | Binop::Leq | Binop::Geq | Binop::Eq | Binop::And
                | Binop::Or => Type::Bool,
        },
        BexprV::If(_, t, _) => spec_type_of_bexpr(*t),
        BexprV::Tuple(_) => Type::Unit,
    }
}

/// Whether the type of an equation body is determined by its shape: it
/// must be a basic expression, since a call's or a delay's type depends
/// on its node or its operands.
pub open spec fn expr_typeable(e: ExprV) -> bool {
    e matches ExprV::Bexpr(b) && bexpr_typeable(b)
}

/// The shape-determined type of an equation body.
pub open spec fn spec_type_of(e: ExprV) -> Type
    recommends
        expr_typeable(e),
{
    match e {
        ExprV::Bexpr(b) => spec_type_of_bexpr(b),
        ExprV::Call { .. } => Type::Unit,
        ExprV::Fby(_, _) => Type::Unit,
    }
}

pub fn type_of_const(c: &Const) -> (t: Type)
    ensures
        t == spec_type_of_const(c@),
{
    match c {
        Const::Unit => Type::Unit,
        Const::Bool(_) => Type::Bool,
        Const::Int(_) => Type::Int,
        Const::Float(_) => Type::Float,
        Const::Str(_) => Type::Str,
    }
}

fn type_of_atom(a: &Atom) -> (t: Type)
    requires
        a@ is Const,
    ensures
        t == spec_type_of_bexpr(BexprV::Atom(a@)),
{
    match a {
        Atom::Const(c) => type_of_const(c),
        Atom::Ident(_) => unreached(),
    }
}

fn type_of_bexpr(e: &Bexpr) -> (t: Type)
    requires
        bexpr_typeable(e@),
    ensures
        t == spec_type_of_bexpr(e@),
    decreases *e,
{
    match e {
        Bexpr::Unop(op, _) => match op {
            Unop::Minus => Type::Int,
            Unop::MinusDot => Type::Float,
            Unop::Not => Type::Bool,
        },
        Bexpr::Binop(op, _) => match op {
            Binop::Plus | Binop::Minus | Binop::Mult | Binop::Div => Type::Int,
            Binop::PlusDot | Binop::MinusDot | Binop::MultDot | Binop::DivDot => Type::Float,
            Binop::Lt | Binop::Gt | Binop::Leq | Binop::Geq | Binop::Eq | Binop::And
                | Binop::Or => Type::Bool,
        },
        Bexpr::If(iff) => type_of_bexpr(&iff.1),
        Bexpr::Tuple(_) => unreached(),
        Bexpr::Atom(a) => type_of_atom(a),
    }
}

pub fn type_of(e: &Expr) -> (t: Type)
    requires
        expr_typeable(e@),
    ensures
        t == spec_type_of(e@),
{
    match e {
        Expr::Call { .. } => unreached(),
        Expr::Fby(_, _) => unreached(),
        Expr::Bexpr(b) => type_of_bexpr(b),
    }
}

} // verus!
