//! Normalization: raw syntax trees become normalized ones.
//!
//! Any subterm that may not stay where it stands — a call or a delay
//! under an operator, or a compound term where only an atom is allowed —
//! is lifted: the subterm is normalized as a full equation body, recorded
//! under a fresh name `tmpK`, and replaced by that name.  Recorded
//! intermediates become extra equations appended to the node's body, and
//! their names extra locals, in the order they were minted.
//!
//! The whole pass is described by the `spec_*` functions below, which
//! thread the table of intermediates through the traversal; the executable
//! functions are proved to compute exactly those values.  A `fby` whose
//! sides are one tuple and one non-tuple, or two tuples of different
//! arities, fails the pass.

use vstd::prelude::*;

use crate::ast;
use crate::ast::{ConstV, Type};
use crate::nast::{Atom, Bexpr, Expr, Equation, Node, AtomV, BexprV, ExprV, EquationV, NodeV};
use crate::error::CompileError;
use crate::text::{tmp_name, str_eq};

verus! {

broadcast use vstd::std_specs::vec::axiom_vec_index_decreases;

/// The table of intermediates: names seeded from the node's locals
/// (no definition) and names minted during normalization (with the
/// equation body they stand for), in insertion order.
pub type Inter = Seq<(Seq<char>, Option<ExprV>)>;

/// Whether `name` is already present in the table.
pub open spec fn inter_has(m: Inter, name: Seq<char>) -> bool {
    exists|i: int| 0 <= i < m.len() && (#[trigger] m[i]).0 == name
}

/// Walks candidate indices upward until one is unused; the fuel is
/// enough by the pigeonhole argument of `lemma_fresh_exists`.
pub open spec fn spec_fresh_from(m: Inter, k: nat, fuel: nat) -> nat
    decreases fuel,
{
    if fuel == 0 {
        k
    } else if !inter_has(m, tmp_name(k)) {
        k
    } else {
        spec_fresh_from(m, k + 1, (fuel - 1) as nat)
    }
}

/// The smallest index at or above 1 whose `tmpK` name is unused.
pub open spec fn spec_fresh(m: Inter) -> nat {
    spec_fresh_from(m, 1, m.len() + 1)
}

/// In any window of `m.len() + 1` consecutive candidates some name is
/// unused: the table cannot hold them all.
pub proof fn lemma_fresh_exists(m: Inter, k0: nat)
    ensures
        exists|j: nat| k0 <= j <= k0 + m.len() && !inter_has(m, tmp_name(j)),
    decreases m.len(),
{
    if !inter_has(m, tmp_name(k0)) {
        assert(k0 <= k0 <= k0 + m.len() && !inter_has(m, tmp_name(k0)));
    } else {
        let i = choose|i: int| 0 <= i < m.len() && (#[trigger] m[i]).0 == tmp_name(k0);
        let m2 = m.remove(i);
        assert(forall|l: int| 0 <= l < i ==> m2[l] == m[l]);
        assert(forall|l: int| i <= l < m2.len() ==> m2[l] == m[l + 1]);
        lemma_fresh_exists(m2, k0 + 1);
        let j = choose|j: nat|
            k0 + 1 <= j <= k0 + 1 + m2.len() && !inter_has(m2, tmp_name(j));
        assert(!inter_has(m, tmp_name(j))) by {
            if inter_has(m, tmp_name(j)) {
                let l = choose|l: int| 0 <= l < m.len() && (#[trigger] m[l]).0 == tmp_name(j);
                if l == i {
                    crate::text::lemma_tmp_name_injective(j, k0);
                } else if l < i {
                    assert(m2[l].0 == tmp_name(j));
                } else {
                    assert(m2[l - 1].0 == tmp_name(j));
                }
            }
        }
        assert(k0 <= j <= k0 + m.len() && !inter_has(m, tmp_name(j)));
    }
}

/// What `spec_fresh` returns: an unused index, above every used prefix.
pub proof fn lemma_spec_fresh(m: Inter)
    ensures
        1 <= spec_fresh(m) <= m.len() + 1,
        !inter_has(m, tmp_name(spec_fresh(m))),
        forall|j: nat| 1 <= j < spec_fresh(m) ==> inter_has(m, tmp_name(j)),
{
    lemma_fresh_exists(m, 1);
    lemma_fresh_from(m, 1, m.len() + 1);
}

proof fn lemma_fresh_from(m: Inter, k0: nat, fuel: nat)
    requires
        exists|j: nat| k0 <= j < k0 + fuel && !inter_has(m, tmp_name(j)),
    ensures
        k0 <= spec_fresh_from(m, k0, fuel) < k0 + fuel,
        !inter_has(m, tmp_name(spec_fresh_from(m, k0, fuel))),
        forall|j: nat|
            k0 <= j < spec_fresh_from(m, k0, fuel) ==> inter_has(m, tmp_name(j)),
    decreases fuel,
{
    if !inter_has(m, tmp_name(k0)) {
    } else {
        let j0 = choose|j: nat| k0 <= j < k0 + fuel && !inter_has(m, tmp_name(j));
        assert(j0 != k0);
        assert(k0 + 1 <= j0 < (k0 + 1) + (fuel - 1));
        lemma_fresh_from(m, k0 + 1, (fuel - 1) as nat);
    }
}

/// How each spec function reports its `fby` arity check: the result
/// value with the table after it, or the failure.
pub type NormRes<A> = Result<(A, Inter), ()>;

/// Rank of an expression for the atom pass, used to order the mutual
/// recursion: a compound expression first becomes a full body, a call
/// or delay is lifted through the body pass.
pub open spec fn rank_atom(e: ast::ExprV) -> nat {
    match e {
        ast::ExprV::Const(_) | ast::ExprV::Ident(_) => 0,
        ast::ExprV::Call { .. } | ast::ExprV::Fby(_, _) => 1,
        _ => 3,
    }
}

/// Rank of an expression for the body pass.
pub open spec fn rank_expr(e: ast::ExprV) -> nat {
    match e {
        ast::ExprV::Call { .. } | ast::ExprV::Fby(_, _) => 0,
        _ => 2,
    }
}

/// Rank of an expression for the basic-expression pass.
pub open spec fn rank_bexpr(e: ast::ExprV) -> nat {
    match e {
        ast::ExprV::Call { .. } | ast::ExprV::Fby(_, _) => 2,
        ast::ExprV::Const(_) | ast::ExprV::Ident(_) => 1,
        _ => 0,
    }
}

/// Normalizing to an atom: constants and identifiers stay; anything
/// else is lifted under a fresh name.
pub open spec fn spec_norm_atom(e: ast::ExprV, m: Inter) -> NormRes<AtomV>
    decreases e, rank_atom(e),
{
    match e {
        ast::ExprV::Const(c) => Ok((AtomV::Const(c), m)),
        ast::ExprV::Ident(s) => Ok((AtomV::Ident(s), m)),
        _ => match spec_norm_expr(e, m) {
            Err(()) => Err(()),
            Ok((body, m1)) => {
                let k = spec_fresh(m1);
                Ok((AtomV::Ident(tmp_name(k)), m1.push((tmp_name(k), Some(body)))))
            },
        },
    }
}

/// Normalizing to a basic expression: operators, conditionals and
/// tuples are rewritten in place; calls and delays are lifted.
pub open spec fn spec_norm_bexpr(e: ast::ExprV, m: Inter) -> NormRes<BexprV>
    decreases e, rank_bexpr(e),
{
    match e {
        ast::ExprV::Unop(op, e1) => match spec_norm_bexpr(*e1, m) {
            Err(()) => Err(()),
            Ok((b1, m1)) => Ok((BexprV::Unop(op, Box::new(b1)), m1)),
        },
        ast::ExprV::Binop(op, e1, e2) => match spec_norm_bexpr(*e1, m) {
            Err(()) => Err(()),
            Ok((b1, m1)) => match spec_norm_bexpr(*e2, m1) {
                Err(()) => Err(()),
                Ok((b2, m2)) => Ok((BexprV::Binop(op, Box::new(b1), Box::new(b2)), m2)),
            },
        },
        ast::ExprV::If(e1, e2, e3) => match spec_norm_bexpr(*e1, m) {
            Err(()) => Err(()),
            Ok((b1, m1)) => match spec_norm_bexpr(*e2, m1) {
                Err(()) => Err(()),
                Ok((b2, m2)) => match spec_norm_bexpr(*e3, m2) {
                    Err(()) => Err(()),
                    Ok((b3, m3)) => Ok(
                        (BexprV::If(Box::new(b1), Box::new(b2), Box::new(b3)), m3),
                    ),
                },
            },
        },
        ast::ExprV::Tuple(es) => match spec_norm_bexpr_list(es, m) {
            Err(()) => Err(()),
            Ok((bs, m1)) => Ok((BexprV::Tuple(bs), m1)),
        },
        _ => match spec_norm_atom(e, m) {
            Err(()) => Err(()),
            Ok((a, m1)) => Ok((BexprV::Atom(a), m1)),
        },
    }
}

/// Normalizing a whole equation body: a call keeps its place with
/// normalized arguments; a delay is split elementwise when both sides
/// are tuples, fails when only one side is, and otherwise yields one
/// initial atom and one next expression.
pub open spec fn spec_norm_expr(e: ast::ExprV, m: Inter) -> NormRes<ExprV>
    decreases e, rank_expr(e),
{
    match e {
        ast::ExprV::Call { name, args } => match spec_norm_bexpr_list(args, m) {
            Err(()) => Err(()),
            Ok((bs, m1)) => Ok((ExprV::Call { name: name, args: bs }, m1)),
        },
        ast::ExprV::Fby(e1, e2) => match (*e1, *e2) {
            (ast::ExprV::Tuple(v1), ast::ExprV::Tuple(v2)) => {
                if v1.len() != v2.len() {
                    Err(())
                } else {
                    match spec_norm_atom_list(v1, m) {
                        Err(()) => Err(()),
                        Ok((inits, m1)) => match spec_norm_bexpr_list(v2, m1) {
                            Err(()) => Err(()),
                            Ok((nexts, m2)) => Ok((ExprV::Fby(inits, nexts), m2)),
                        },
                    }
                }
            },
            (ast::ExprV::Tuple(_), _) => Err(()),
            (_, ast::ExprV::Tuple(_)) => Err(()),
            _ => match spec_norm_atom(*e1, m) {
                Err(()) => Err(()),
                Ok((init, m1)) => match spec_norm_bexpr(*e2, m1) {
                    Err(()) => Err(()),
                    Ok((next, m2)) => Ok((ExprV::Fby(seq![init], seq![next]), m2)),
                },
            },
        },
        _ => match spec_norm_bexpr(e, m) {
            Err(()) => Err(()),
            Ok((b, m1)) => Ok((ExprV::Bexpr(b), m1)),
        },
    }
}

/// The arguments of a call or the sides of a tuple `fby`, left to right.
pub open spec fn spec_norm_bexpr_list(es: Seq<ast::ExprV>, m: Inter) -> NormRes<Seq<BexprV>>
    decreases es, 0nat,
{
    if es.len() == 0 {
        Ok((Seq::empty(), m))
    } else {
        match spec_norm_bexpr(es[0], m) {
            Err(()) => Err(()),
            Ok((b, m1)) => match spec_norm_bexpr_list(es.drop_first(), m1) {
                Err(()) => Err(()),
                Ok((bs, m2)) => Ok((seq![b] + bs, m2)),
            },
        }
    }
}

pub open spec fn spec_norm_atom_list(es: Seq<ast::ExprV>, m: Inter) -> NormRes<Seq<AtomV>>
    decreases es, 0nat,
{
    if es.len() == 0 {
        Ok((Seq::empty(), m))
    } else {
        match spec_norm_atom(es[0], m) {
            Err(()) => Err(()),
            Ok((a, m1)) => match spec_norm_atom_list(es.drop_first(), m1) {
                Err(()) => Err(()),
                Ok((atoms, m2)) => Ok((seq![a] + atoms, m2)),
            },
        }
    }
}

pub open spec fn spec_norm_equation(eq: ast::EquationV, m: Inter) -> NormRes<EquationV> {
    match spec_norm_expr(eq.body, m) {
        Err(()) => Err(()),
        Ok((body, m1)) => Ok((EquationV { names: eq.names, body: body }, m1)),
    }
}

pub open spec fn spec_norm_eq_list(eqs: Seq<ast::EquationV>, m: Inter) -> NormRes<
    Seq<EquationV>,
>
    decreases eqs.len(),
{
    if eqs.len() == 0 {
        Ok((Seq::empty(), m))
    } else {
        match spec_norm_equation(eqs[0], m) {
            Err(()) => Err(()),
            Ok((eq, m1)) => match spec_norm_eq_list(eqs.drop_first(), m1) {
                Err(()) => Err(()),
                Ok((rest, m2)) => Ok((seq![eq] + rest, m2)),
            },
        }
    }
}

/// The names and definitions the pass recorded, in insertion order:
/// the entries of the table that carry a definition.
pub open spec fn inter_extras(m: Inter) -> Seq<(Seq<char>, ExprV)>
    decreases m.len(),
{
    if m.len() == 0 {
        Seq::empty()
    } else {
        (match m[0].1 {
            Some(e) => seq![(m[0].0, e)],
            None => Seq::empty(),
        }) + inter_extras(m.drop_first())
    }
}

/// The names of the declared locals of a raw node.
pub open spec fn local_names(locals: Seq<(Seq<char>, Type)>) -> Seq<Seq<char>> {
    locals.map_values(|p: (Seq<char>, Type)| p.0)
}

/// One node: the table is seeded with the declared locals, every
/// equation body is normalized, and the recorded intermediates become
/// appended equations and appended locals.
pub open spec fn spec_norm_node(n: ast::NodeV) -> Result<NodeV, ()> {
    let m0 = local_names(n.locals).map_values(|s: Seq<char>| (s, Option::<ExprV>::None));
    match spec_norm_eq_list(n.body, m0) {
        Err(()) => Err(()),
        Ok((eqs, m1)) => {
            let extras = inter_extras(m1);
            Ok(
                NodeV {
                    name: n.name,
                    args_in: n.args_in,
                    args_out: n.args_out,
                    locals: local_names(n.locals) + extras.map_values(
                        |p: (Seq<char>, ExprV)| p.0,
                    ),
                    body: eqs + extras.map_values(
                        |p: (Seq<char>, ExprV)| EquationV { names: seq![p.0], body: p.1 },
                    ),
                },
            )
        },
    }
}

/// The whole program, node by node; a failure carries the name of the
/// first node that fails.
pub open spec fn spec_normalize(prog: Seq<ast::NodeV>) -> Result<Seq<NodeV>, Seq<char>>
    decreases prog.len(),
{
    if prog.len() == 0 {
        Ok(Seq::empty())
    } else {
        match spec_norm_node(prog[0]) {
            Err(()) => Err(prog[0].name),
            Ok(n0) => match spec_normalize(prog.drop_first()) {
                Err(name) => Err(name),
                Ok(rest) => Ok(seq![n0] + rest),
            },
        }
    }
}

/// Mathematical value of the executable table.
pub open spec fn inter_view(m: Seq<(String, Option<Expr>)>) -> Inter {
    m.map_values(
        |p: (String, Option<Expr>)|
            (
                p.0@,
                match p.1 {
                    Some(e) => Some(e@),
                    None => None,
                },
            ),
    )
}

fn contains_key(inter: &Vec<(String, Option<Expr>)>, name: &String) -> (b: bool)
    ensures
        b == inter_has(inter_view(inter@), name@),
{
    let mut i: usize = 0;
    while i < inter.len()
        invariant
            i <= inter.len(),
            forall|k: int| 0 <= k < i ==> (#[trigger] inter@[k]).0@ != name@,
        decreases inter.len() - i,
    {
        if str_eq(&inter[i].0, name) {
            proof {
                assert((inter_view(inter@)[i as int]).0 == name@);
            }
            return true;
        }
        i = i + 1;
    }
    proof {
        assert forall|l: int| 0 <= l < inter_view(inter@).len() implies (#[trigger] inter_view(
            inter@,
        )[l]).0 != name@ by {
            assert(inter@[l].0@ != name@);
        }
    }
    false
}

fn fresh_intermediate(inter: &Vec<(String, Option<Expr>)>) -> (name: String)
    ensures
        name@ == tmp_name(spec_fresh(inter_view(inter@))),
        !inter_has(inter_view(inter@), name@),
{
    let ghost m = inter_view(inter@);
    let n = inter.len();
    proof {
        lemma_spec_fresh(m);
        assert(m.len() == n as nat);
    }
    let mut k: u128 = 1;
    loop
        invariant
            m.len() <= usize::MAX,
            1 <= k <= spec_fresh(m) as int,
            forall|j: nat| 1 <= j < k ==> inter_has(m, tmp_name(j)),
            m == inter_view(inter@),
            1 <= spec_fresh(m) <= m.len() + 1,
            !inter_has(m, tmp_name(spec_fresh(m))),
            forall|j: nat| 1 <= j < spec_fresh(m) ==> inter_has(m, tmp_name(j)),
        decreases spec_fresh(m) as int - k,
    {
        let name = crate::text::tmp_name_of(k);
        if !contains_key(inter, &name) {
            proof {
                if k < spec_fresh(m) as int {
                    assert(inter_has(m, tmp_name(k as nat)));
                }
            }
            return name;
        }
        proof {
            if k == spec_fresh(m) as int {
                assert(!inter_has(m, tmp_name(k as nat)));
            }
        }
        k = k + 1;
    }
}

fn normalize_atom(e: &ast::Expr, inter: &mut Vec<(String, Option<Expr>)>) -> (r: Result<
    Atom,
    (),
>)
    ensures
        (r is Ok) == (spec_norm_atom(e@, inter_view(old(inter)@)) is Ok),
        r matches Ok(a) ==> spec_norm_atom(e@, inter_view(old(inter)@)) matches Ok(p) && a@
            =~= p.0 && inter_view(final(inter)@) =~= p.1,
    decreases *e, rank_atom(e@),
{
    match e {
        ast::Expr::Const(c) => Ok(Atom::Const(c.clone())),
        ast::Expr::Ident(s) => Ok(Atom::Ident(s.clone())),
        _ => {
            match normalize_expr(e, inter) {
                Err(()) => Err(()),
                Ok(body) => {
                    let ghost bv = body@;
                    let ghost m1 = inter_view(inter@);
                    let name = fresh_intermediate(inter);
                    inter.push((name.clone(), Some(body)));
                    proof {
                        assert(inter_view(inter@) =~= m1.push((name@, Some(bv))));
                    }
                    Ok(Atom::Ident(name))
                },
            }
        },
    }
}

#[verifier::rlimit(60)]
fn normalize_bexpr(e: &ast::Expr, inter: &mut Vec<(String, Option<Expr>)>) -> (r: Result<
    Bexpr,
    (),
>)
    ensures
        (r is Ok) == (spec_norm_bexpr(e@, inter_view(old(inter)@)) is Ok),
        r matches Ok(b) ==> spec_norm_bexpr(e@, inter_view(old(inter)@)) matches Ok(p) && b@
            =~= p.0 && inter_view(final(inter)@) =~= p.1,
    decreases *e, rank_bexpr(e@),
{
    let ghost m0 = inter_view(inter@);
    match e {
        ast::Expr::Unop(op, e1) => {
            match normalize_bexpr(e1, inter) {
                Err(()) => Err(()),
                Ok(b1) => {
                    let res = Bexpr::Unop(*op, Box::new(b1));
                    proof {
                        match spec_norm_bexpr(e@, m0) {
                            Ok(p) => {
                                assert(res@ =~= p.0);
                                assert(inter_view(inter@) =~= p.1);
                            },
                            Err(()) => {
                                assert(false);
                            },
                        }
                    }
                    Ok(res)
                },
            }
        },
        ast::Expr::Binop(op, es) => {
            match normalize_bexpr(&es.0, inter) {
                Err(()) => Err(()),
                Ok(b1) => match normalize_bexpr(&es.1, inter) {
                    Err(()) => Err(()),
                    Ok(b2) => {
                        let res = Bexpr::Binop(*op, Box::new((b1, b2)));
                        proof {
                            match spec_norm_bexpr(e@, m0) {
                                Ok(p) => {
                                    assert(res@ =~= p.0);
                                    assert(inter_view(inter@) =~= p.1);
                                },
                                Err(()) => {
                                    assert(false);
                                },
                            }
                        }
                        Ok(res)
                    },
                },
            }
        },
        ast::Expr::If(es) => {
            match normalize_bexpr(&es.0, inter) {
                Err(()) => Err(()),
                Ok(b1) => match normalize_bexpr(&es.1, inter) {
                    Err(()) => Err(()),
                    Ok(b2) => match normalize_bexpr(&es.2, inter) {
                        Err(()) => Err(()),
                        Ok(b3) => {
                            let res = Bexpr::If(Box::new((b1, b2, b3)));
                            proof {
                                match spec_norm_bexpr(e@, m0) {
                                    Ok(p) => {
                                        assert(res@ =~= p.0);
                                        assert(inter_view(inter@) =~= p.1);
                                    },
                                    Err(()) => {
                                        assert(false);
                                    },
                                }
                            }
                            Ok(res)
                        },
                    },
                },
            }
        },
        ast::Expr::Tuple(es) => {
            proof {
                match e@ {
                    ast::ExprV::Tuple(s) => {
                        assert(s =~= crate::ast::exprs_view(es@).skip(0));
                    },
                    _ => {},
                }
            }
            match normalize_bexpr_list(es, 0, inter) {
                Err(()) => Err(()),
                Ok(bs) => {
                    let res = Bexpr::Tuple(bs);
                    proof {
                        match (res@, spec_norm_bexpr(e@, m0)) {
                            (BexprV::Tuple(sv), Ok(p)) => {
                                match &res {
                                    Bexpr::Tuple(bs2) => {
                                        assert forall|ii: int|
                                            0 <= ii < sv.len() implies sv[ii]
                                            == crate::nast::bexprs_view(bs2@)[ii] by {
                                            assert(sv[ii] == bs2[ii]@);
                                            assert(crate::nast::bexprs_view(bs2@)[ii] == bs2@[ii]@);
                                        }
                                        assert(sv =~= crate::nast::bexprs_view(bs2@));
                                    },
                                    _ => {},
                                }
                                assert(res@ =~= p.0);
                                assert(inter_view(inter@) =~= p.1);
                            },
                            (_, Err(())) => {
                                assert(false);
                            },
                            _ => {},
                        }
                    }
                    Ok(res)
                },
            }
        },
        _ => {
            match normalize_atom(e, inter) {
                Err(()) => Err(()),
                Ok(a) => {
                    let res = Bexpr::Atom(a);
                    proof {
                        match spec_norm_bexpr(e@, m0) {
                            Ok(p) => {
                                assert(res@ =~= p.0);
                                assert(inter_view(inter@) =~= p.1);
                            },
                            Err(()) => {
                                assert(false);
                            },
                        }
                    }
                    Ok(res)
                },
            }
        },
    }
}

fn normalize_bexpr_list(
    es: &Vec<ast::Expr>,
    i: usize,
    inter: &mut Vec<(String, Option<Expr>)>,
) -> (r: Result<Vec<Bexpr>, ()>)
    requires
        i <= es.len(),
    ensures
        (r is Ok) == (spec_norm_bexpr_list(
            crate::ast::exprs_view(es@).skip(i as int),
            inter_view(old(inter)@),
        ) is Ok),
        r matches Ok(bs) ==> spec_norm_bexpr_list(
            crate::ast::exprs_view(es@).skip(i as int),
            inter_view(old(inter)@),
        ) matches Ok(p) && crate::nast::bexprs_view(bs@) =~= p.0 && inter_view(final(inter)@)
            =~= p.1,
    decreases *es, es@.len() - i,
{
    let ghost tail = crate::ast::exprs_view(es@).skip(i as int);
    if i == es.len() {
        proof {
            assert(tail =~= Seq::<ast::ExprV>::empty());
        }
        Ok(Vec::new())
    } else {
        proof {
            assert(tail[0] == es@[i as int]@);
            assert(tail.drop_first() =~= crate::ast::exprs_view(es@).skip(i as int + 1));
        }
        match normalize_bexpr(&es[i], inter) {
            Err(()) => Err(()),
            Ok(b) => {
                match normalize_bexpr_list(es, i + 1, inter) {
                    Err(()) => Err(()),
                    Ok(rest) => {
                        let ghost bv = b@;
                        let mut bs = rest;
                        bs.insert(0, b);
                        proof {
                            assert(crate::nast::bexprs_view(bs@) =~= seq![bv]
                                + crate::nast::bexprs_view(bs@.drop_first()));
                        }
                        Ok(bs)
                    },
                }
            },
        }
    }
}

fn normalize_atom_list(
    es: &Vec<ast::Expr>,
    i: usize,
    inter: &mut Vec<(String, Option<Expr>)>,
) -> (r: Result<Vec<Atom>, ()>)
    requires
        i <= es.len(),
    ensures
        (r is Ok) == (spec_norm_atom_list(
            crate::ast::exprs_view(es@).skip(i as int),
            inter_view(old(inter)@),
        ) is Ok),
        r matches Ok(atoms) ==> spec_norm_atom_list(
            crate::ast::exprs_view(es@).skip(i as int),
            inter_view(old(inter)@),
        ) matches Ok(p) && crate::nast::atoms_view(atoms@) =~= p.0 && inter_view(
            final(inter)@,
        ) =~= p.1,
    decreases *es, es@.len() - i,
{
    let ghost tail = crate::ast::exprs_view(es@).skip(i as int);
    if i == es.len() {
        proof {
            assert(tail =~= Seq::<ast::ExprV>::empty());
        }
        Ok(Vec::new())
    } else {
        proof {
            assert(tail[0] == es@[i as int]@);
            assert(tail.drop_first() =~= crate::ast::exprs_view(es@).skip(i as int + 1));
        }
        match normalize_atom(&es[i], inter) {
            Err(()) => Err(()),
            Ok(a) => {
                match normalize_atom_list(es, i + 1, inter) {
                    Err(()) => Err(()),
                    Ok(rest) => {
                        let ghost av = a@;
                        let mut atoms = rest;
                        atoms.insert(0, a);
                        proof {
                            assert(crate::nast::atoms_view(atoms@) =~= seq![av]
                                + crate::nast::atoms_view(atoms@.drop_first()));
                        }
                        Ok(atoms)
                    },
                }
            },
        }
    }
}

fn normalize_expr(e: &ast::Expr, inter: &mut Vec<(String, Option<Expr>)>) -> (r: Result<
    Expr,
    (),
>)
    ensures
        (r is Ok) == (spec_norm_expr(e@, inter_view(old(inter)@)) is Ok),
        r matches Ok(ne) ==> spec_norm_expr(e@, inter_view(old(inter)@)) matches Ok(p) && ne@
            =~= p.0 && inter_view(final(inter)@) =~= p.1,
    decreases *e, rank_expr(e@),
{
    match e {
        ast::Expr::Call { name, args } => {
            proof {
                match e@ {
                    ast::ExprV::Call { name: nv, args: av } => {
                        assert(av =~= crate::ast::exprs_view(args@).skip(0));
                    },
                    _ => {},
                }
            }
            match normalize_bexpr_list(args, 0, inter) {
                Err(()) => Err(()),
                Ok(bs) => Ok(Expr::Call { name: name.clone(), args: bs }),
            }
        },
        ast::Expr::Fby(fby) => {
            match (&fby.0, &fby.1) {
                (ast::Expr::Tuple(v1), ast::Expr::Tuple(v2)) => {
                    proof {
                        let v0 = fby.0@;
                        let w0 = fby.1@;
                        match v0 {
                            ast::ExprV::Tuple(s1) => {
                                assert(s1.len() == v1@.len());
                                assert forall|ii: int| 0 <= ii < s1.len() implies s1[ii]
                                    == crate::ast::exprs_view(v1@).skip(0)[ii] by {
                                    assert(s1[ii] == v1[ii]@);
                                    assert(crate::ast::exprs_view(v1@)[ii] == v1@[ii]@);
                                }
                                assert(s1 =~= crate::ast::exprs_view(v1@).skip(0));
                            },
                            _ => {},
                        }
                        match w0 {
                            ast::ExprV::Tuple(s2) => {
                                assert(s2.len() == v2@.len());
                                assert forall|ii: int| 0 <= ii < s2.len() implies s2[ii]
                                    == crate::ast::exprs_view(v2@).skip(0)[ii] by {
                                    assert(s2[ii] == v2[ii]@);
                                    assert(crate::ast::exprs_view(v2@)[ii] == v2@[ii]@);
                                }
                                assert(s2 =~= crate::ast::exprs_view(v2@).skip(0));
                            },
                            _ => {},
                        }
                    }
                    if v1.len() != v2.len() {
                        Err(())
                    } else {
                        match normalize_atom_list(v1, 0, inter) {
                            Err(()) => Err(()),
                            Ok(inits) => match normalize_bexpr_list(v2, 0, inter) {
                                Err(()) => Err(()),
                                Ok(nexts) => Ok(Expr::Fby(inits, nexts)),
                            },
                        }
                    }
                },
                (ast::Expr::Tuple(_), _) => Err(()),
                (_, ast::Expr::Tuple(_)) => Err(()),
                _ => {
                    match normalize_atom(&fby.0, inter) {
                        Err(()) => Err(()),
                        Ok(init) => match normalize_bexpr(&fby.1, inter) {
                            Err(()) => Err(()),
                            Ok(next) => {
                                let ghost iv = init@;
                                let ghost nv = next@;
                                let mut ivec: Vec<Atom> = Vec::new();
                                ivec.push(init);
                                let mut nvec: Vec<Bexpr> = Vec::new();
                                nvec.push(next);
                                proof {
                                    assert(crate::nast::atoms_view(ivec@) =~= seq![iv]);
                                    assert(crate::nast::bexprs_view(nvec@) =~= seq![nv]);
                                }
                                Ok(Expr::Fby(ivec, nvec))
                            },
                        },
                    }
                },
            }
        },
        _ => {
            match normalize_bexpr(e, inter) {
                Err(()) => Err(()),
                Ok(b) => Ok(Expr::Bexpr(b)),
            }
        },
    }
}


fn normalize_equation(eq: &ast::Equation, inter: &mut Vec<(String, Option<Expr>)>) -> (r:
    Result<Equation, ()>)
    ensures
        (r is Ok) == (spec_norm_equation(eq@, inter_view(old(inter)@)) is Ok),
        r matches Ok(out) ==> spec_norm_equation(eq@, inter_view(old(inter)@)) matches Ok(p)
            && out@ =~= p.0 && inter_view(final(inter)@) =~= p.1,
{
    match normalize_expr(&eq.body, inter) {
        Err(()) => Err(()),
        Ok(body) => Ok(Equation { names: crate::ast::clone_strings(&eq.names), body }),
    }
}

fn normalize_eq_list(
    eqs: &Vec<ast::Equation>,
    i: usize,
    inter: &mut Vec<(String, Option<Expr>)>,
) -> (r: Result<Vec<Equation>, ()>)
    requires
        i <= eqs.len(),
    ensures
        (r is Ok) == (spec_norm_eq_list(
            crate::ast::equations_view(eqs@).skip(i as int),
            inter_view(old(inter)@),
        ) is Ok),
        r matches Ok(out) ==> spec_norm_eq_list(
            crate::ast::equations_view(eqs@).skip(i as int),
            inter_view(old(inter)@),
        ) matches Ok(p) && crate::nast::equations_view(out@) =~= p.0 && inter_view(
            final(inter)@,
        ) =~= p.1,
    decreases eqs@.len() - i,
{
    let ghost tail = crate::ast::equations_view(eqs@).skip(i as int);
    if i == eqs.len() {
        proof {
            assert(tail =~= Seq::<ast::EquationV>::empty());
        }
        Ok(Vec::new())
    } else {
        proof {
            assert(tail[0] == eqs@[i as int]@);
            assert(tail.drop_first() =~= crate::ast::equations_view(eqs@).skip(i as int + 1));
        }
        match normalize_equation(&eqs[i], inter) {
            Err(()) => Err(()),
            Ok(eq) => {
                match normalize_eq_list(eqs, i + 1, inter) {
                    Err(()) => Err(()),
                    Ok(rest) => {
                        let ghost ev = eq@;
                        let mut out = rest;
                        out.insert(0, eq);
                        proof {
                            assert(crate::nast::equations_view(out@) =~= seq![ev]
                                + crate::nast::equations_view(out@.drop_first()));
                        }
                        Ok(out)
                    },
                }
            },
        }
    }
}

/// Gathers the recorded intermediates of the table from position `i`
/// on: their names, and one equation per definition.
fn collect_extras(inter: &Vec<(String, Option<Expr>)>, i: usize) -> (r: (
    Vec<String>,
    Vec<Equation>,
))
    requires
        i <= inter.len(),
    ensures
        ({
            let ex = inter_extras(inter_view(inter@).skip(i as int));
            crate::ast::strings_view(r.0@) =~= ex.map_values(|p: (Seq<char>, ExprV)| p.0)
                && crate::nast::equations_view(r.1@) =~= ex.map_values(
                |p: (Seq<char>, ExprV)| EquationV { names: seq![p.0], body: p.1 },
            )
        }),
    decreases inter.len() - i,
{
    let ghost tail = inter_view(inter@).skip(i as int);
    if i == inter.len() {
        proof {
            assert(tail =~= Seq::<(Seq<char>, Option<ExprV>)>::empty());
        }
        (Vec::new(), Vec::new())
    } else {
        proof {
            assert(tail[0] == inter_view(inter@)[i as int]);
            assert(inter_view(inter@)[i as int] == (
                inter@[i as int].0@,
                match inter@[i as int].1 {
                    Some(e) => Some(e@),
                    None => None::<ExprV>,
                },
            ));
            assert(tail.drop_first() =~= inter_view(inter@).skip(i as int + 1));
        }
        let (mut names, mut eqs) = collect_extras(inter, i + 1);
        let entry = &inter[i];
        match &entry.1 {
            Some(e) => {
                let name = entry.0.clone();
                let ghost nv = name@;
                let ghost ev = e@;
                let mut one: Vec<String> = Vec::new();
                one.push(name.clone());
                proof {
                    assert(crate::ast::strings_view(one@) =~= seq![nv]);
                }
                names.insert(0, name);
                eqs.insert(0, Equation { names: one, body: e.clone() });
                proof {
                    let ex = inter_extras(tail);
                    assert(ex =~= seq![(nv, ev)] + inter_extras(tail.drop_first()));
                    assert(crate::ast::strings_view(names@) =~= seq![nv]
                        + crate::ast::strings_view(names@.drop_first()));
                    assert(eqs@[0]@ =~= (EquationV { names: seq![nv], body: ev }));
                    assert(crate::nast::equations_view(eqs@)[0] == eqs@[0]@);
                    assert(crate::nast::equations_view(eqs@) =~= seq![
                        EquationV { names: seq![nv], body: ev },
                    ] + crate::nast::equations_view(eqs@.drop_first()));
                    assert(crate::ast::strings_view(names@.drop_first()) =~= inter_extras(
                        tail.drop_first(),
                    ).map_values(|p: (Seq<char>, ExprV)| p.0));
                    assert((seq![(nv, ev)] + inter_extras(tail.drop_first())).map_values(
                        |p: (Seq<char>, ExprV)| p.0,
                    ) =~= seq![nv] + inter_extras(tail.drop_first()).map_values(
                        |p: (Seq<char>, ExprV)| p.0,
                    ));
                    assert((seq![(nv, ev)] + inter_extras(tail.drop_first())).map_values(
                        |p: (Seq<char>, ExprV)| EquationV { names: seq![p.0], body: p.1 },
                    ) =~= seq![EquationV { names: seq![nv], body: ev }] + inter_extras(
                        tail.drop_first(),
                    ).map_values(
                        |p: (Seq<char>, ExprV)| EquationV { names: seq![p.0], body: p.1 },
                    ));
                    assert(crate::ast::strings_view(names@) =~= inter_extras(tail).map_values(
                        |p: (Seq<char>, ExprV)| p.0,
                    ));
                    assert(crate::nast::equations_view(eqs@) =~= inter_extras(tail).map_values(
                        |p: (Seq<char>, ExprV)| EquationV { names: seq![p.0], body: p.1 },
                    ));
                }
                (names, eqs)
            },
            None => {
                proof {
                    assert(inter_extras(tail) =~= inter_extras(tail.drop_first()));
                }
                (names, eqs)
            },
        }
    }
}

fn normalize_node(n: &ast::Node) -> (r: Result<Node, ()>)
    ensures
        (r is Ok) == (spec_norm_node(n@) is Ok),
        r matches Ok(out) ==> spec_norm_node(n@) matches Ok(o) && out@ =~= o,
{
    let ghost seed = local_names(n@.locals).map_values(
        |s: Seq<char>| (s, Option::<ExprV>::None),
    );
    let mut inter: Vec<(String, Option<Expr>)> = Vec::new();
    let mut li: usize = 0;
    while li < n.locals.len()
        invariant
            li <= n.locals.len(),
            inter@.len() == li,
            forall|k: int|
                0 <= k < li ==> (#[trigger] inter@[k]).0@ == n.locals@[k].0@ && inter@[k].1
                    is None,
        decreases n.locals.len() - li,
    {
        inter.push((n.locals[li].0.clone(), None));
        li = li + 1;
    }
    proof {
        assert forall|k: int| 0 <= k < seed.len() implies inter_view(inter@)[k] == seed[k] by {
            assert(inter_view(inter@)[k] == (
                inter@[k].0@,
                match inter@[k].1 {
                    Some(e) => Some(e@),
                    None => None::<ExprV>,
                },
            ));
            assert(local_names(n@.locals)[k] == n@.locals[k].0);
            assert(n@.locals[k] == (n.locals@[k].0@, n.locals@[k].1));
        }
        assert(inter_view(inter@) =~= seed);
    }
    match normalize_eq_list(&n.body, 0, &mut inter) {
        Err(()) => {
            proof {
                assert(crate::ast::equations_view(n.body@).skip(0) =~= n@.body);
            }
            Err(())
        },
        Ok(eqs) => {
            proof {
                assert(crate::ast::equations_view(n.body@).skip(0) =~= n@.body);
            }
            let (mut extra_names, mut extra_eqs) = collect_extras(&inter, 0);
            proof {
                assert(inter_view(inter@).skip(0) =~= inter_view(inter@));
            }
            let mut locals: Vec<String> = Vec::new();
            let mut di: usize = 0;
            while di < n.locals.len()
                invariant
                    di <= n.locals.len(),
                    locals@.len() == di,
                    forall|k: int| 0 <= k < di ==> (#[trigger] locals@[k])@ == n.locals@[k].0@,
                decreases n.locals.len() - di,
            {
                locals.push(n.locals[di].0.clone());
                di = di + 1;
            }
            proof {
                assert forall|k: int| 0 <= k < locals@.len() implies crate::ast::strings_view(
                    locals@,
                )[k] == local_names(n@.locals)[k] by {
                    assert(crate::ast::strings_view(locals@)[k] == locals@[k]@);
                    assert(n@.locals[k] == (n.locals@[k].0@, n.locals@[k].1));
                }
                assert(crate::ast::strings_view(locals@) =~= local_names(n@.locals));
            }
            let ghost decl = crate::ast::strings_view(locals@);
            let ghost extn = crate::ast::strings_view(extra_names@);
            let ghost eqsv = crate::nast::equations_view(eqs@);
            let ghost exteq = crate::nast::equations_view(extra_eqs@);
            let mut body = eqs;
            locals.append(&mut extra_names);
            body.append(&mut extra_eqs);
            proof {
                assert(crate::ast::strings_view(locals@) =~= decl + extn);
                assert(crate::nast::equations_view(body@) =~= eqsv + exteq);
            }
            let node = Node {
                name: n.name.clone(),
                args_in: crate::ast::clone_args(&n.args_in),
                args_out: crate::ast::clone_args(&n.args_out),
                locals,
                body,
            };
            proof {
                match spec_norm_node(n@) {
                    Ok(o) => {
                        assert(node@ =~= o);
                    },
                    Err(()) => {
                        assert(false);
                    },
                }
            }
            Ok(node)
        },
    }
}

fn normalize_list(f: &Vec<ast::Node>, i: usize) -> (r: Result<Vec<Node>, String>)
    requires
        i <= f.len(),
    ensures
        (r is Ok) == (spec_normalize(crate::ast::program_view(f@).skip(i as int)) is Ok),
        r matches Ok(out) ==> spec_normalize(crate::ast::program_view(f@).skip(i as int))
            matches Ok(o) && crate::nast::program_view(out@) =~= o,
        r matches Err(name) ==> spec_normalize(crate::ast::program_view(f@).skip(i as int))
            matches Err(nm) && name@ == nm,
    decreases f@.len() - i,
{
    let ghost tail = crate::ast::program_view(f@).skip(i as int);
    if i == f.len() {
        proof {
            assert(tail =~= Seq::<ast::NodeV>::empty());
        }
        Ok(Vec::new())
    } else {
        proof {
            assert(tail[0] == f@[i as int]@);
            assert(tail.drop_first() =~= crate::ast::program_view(f@).skip(i as int + 1));
        }
        match normalize_node(&f[i]) {
            Err(()) => Err(f[i].name.clone()),
            Ok(n0) => {
                match normalize_list(f, i + 1) {
                    Err(name) => Err(name),
                    Ok(rest) => {
                        let ghost nv = n0@;
                        let mut out = rest;
                        out.insert(0, n0);
                        proof {
                            assert(crate::nast::program_view(out@) =~= seq![nv]
                                + crate::nast::program_view(out@.drop_first()));
                        }
                        Ok(out)
                    },
                }
            },
        }
    }
}

/// Normalizes every node of a program, or reports the first node whose
/// `fby` fails the tuple-arity check.
pub fn normalize(f: &Vec<ast::Node>) -> (r: Result<Vec<Node>, CompileError>)
    ensures
        (r is Ok) == (spec_normalize(crate::ast::program_view(f@)) is Ok),
        r matches Ok(out) ==> spec_normalize(crate::ast::program_view(f@)) matches Ok(o)
            && crate::nast::program_view(out@) =~= o,
        r matches Err(e) ==> spec_normalize(crate::ast::program_view(f@)) matches Err(nm)
            && e@ == (crate::error::CompileErrorV::TupleArityMismatch { node: nm }),
{
    proof {
        assert(crate::ast::program_view(f@).skip(0) =~= crate::ast::program_view(f@));
    }
    match normalize_list(f, 0) {
        Ok(out) => Ok(out),
        Err(name) => Err(CompileError::TupleArityMismatch { node: name }),
    }
}


proof fn lemma_norm_eq_list_names(eqs: Seq<ast::EquationV>, m: Inter)
    requires
        spec_norm_eq_list(eqs, m) is Ok,
    ensures
        ({
            let out = spec_norm_eq_list(eqs, m)->Ok_0.0;
            &&& out.len() == eqs.len()
            &&& forall|i: int| 0 <= i < out.len() ==> (#[trigger] out[i]).names == eqs[i].names
        }),
    decreases eqs.len(),
{
    if eqs.len() > 0 {
        let m1 = spec_norm_equation(eqs[0], m)->Ok_0.1;
        lemma_norm_eq_list_names(eqs.drop_first(), m1);
        let out = spec_norm_eq_list(eqs, m)->Ok_0.0;
        let rest = spec_norm_eq_list(eqs.drop_first(), m1)->Ok_0.0;
        assert forall|i: int| 0 <= i < out.len() implies (#[trigger] out[i]).names
            == eqs[i].names by {
            if i == 0 {
            } else {
                assert(out[i] == rest[i - 1]);
                assert(eqs.drop_first()[i - 1] == eqs[i]);
            }
        }
    }
}

/// Normalization preserves every name of the input node: the node
/// name and the signatures are unchanged, the declared locals stay a
/// prefix of the locals, the original equations keep their names and
/// places, and each appended equation binds exactly the synthesized
/// local appended at the same offset.
pub proof fn lemma_normalize_preserves_names(n: ast::NodeV)
    requires
        spec_norm_node(n) is Ok,
    ensures
        ({
            let o = spec_norm_node(n)->Ok_0;
            &&& o.name == n.name
            &&& o.args_in == n.args_in
            &&& o.args_out == n.args_out
            &&& o.locals.len() >= n.locals.len()
            &&& o.locals.take(n.locals.len() as int) =~= local_names(n.locals)
            &&& o.body.len() >= n.body.len()
            &&& o.body.len() - n.body.len() == o.locals.len() - n.locals.len()
            &&& forall|i: int|
                0 <= i < n.body.len() ==> (#[trigger] o.body[i]).names == n.body[i].names
            &&& forall|i: int|
                n.body.len() <= i < o.body.len() ==> (#[trigger] o.body[i]).names == seq![
                    o.locals[n.locals.len() + (i - n.body.len())],
                ]
        }),
{
    let m0 = local_names(n.locals).map_values(|s: Seq<char>| (s, Option::<ExprV>::None));
    lemma_norm_eq_list_names(n.body, m0);
    let o = spec_norm_node(n)->Ok_0;
    let eqs = spec_norm_eq_list(n.body, m0)->Ok_0.0;
    let m1 = spec_norm_eq_list(n.body, m0)->Ok_0.1;
    let extras = inter_extras(m1);
    let exn = extras.map_values(|p: (Seq<char>, ExprV)| p.0);
    let exq = extras.map_values(
        |p: (Seq<char>, ExprV)| EquationV { names: seq![p.0], body: p.1 },
    );
    assert(o.locals =~= local_names(n.locals) + exn);
    assert(o.body =~= eqs + exq);
    assert(o.locals.take(n.locals.len() as int) =~= local_names(n.locals));
    assert forall|i: int| 0 <= i < n.body.len() implies (#[trigger] o.body[i]).names
        == n.body[i].names by {
        assert(o.body[i] == eqs[i]);
    }
    assert forall|i: int| n.body.len() <= i < o.body.len() implies (#[trigger] o.body[i]).names
        == seq![o.locals[n.locals.len() + (i - n.body.len())]] by {
        let j = i - n.body.len();
        assert(o.body[i] == exq[j]);
        assert(exq[j] == (EquationV { names: seq![extras[j].0], body: extras[j].1 }));
        assert(o.locals[n.locals.len() + j] == exn[j]);
        assert(exn[j] == extras[j].0);
    }
}

/// The inclusion of normalized trees back into raw trees, used to
/// state that normalization is idempotent.
pub open spec fn embed_atom(a: AtomV) -> ast::ExprV {
    match a {
        AtomV::Ident(s) => ast::ExprV::Ident(s),
        AtomV::Const(c) => ast::ExprV::Const(c),
    }
}

pub open spec fn embed_bexpr(b: BexprV) -> ast::ExprV
    decreases b,
{
    match b {
        BexprV::Atom(a) => embed_atom(a),
        BexprV::Unop(op, e) => ast::ExprV::Unop(op, Box::new(embed_bexpr(*e))),
        BexprV::Binop(op, e1, e2) => ast::ExprV::Binop(
            op,
            Box::new(embed_bexpr(*e1)),
            Box::new(embed_bexpr(*e2)),
        ),
        BexprV::If(c, t, f) => ast::ExprV::If(
            Box::new(embed_bexpr(*c)),
            Box::new(embed_bexpr(*t)),
            Box::new(embed_bexpr(*f)),
        ),
        BexprV::Tuple(es) => ast::ExprV::Tuple(embed_bexpr_list(es)),
    }
}

pub open spec fn embed_bexpr_list(es: Seq<BexprV>) -> Seq<ast::ExprV>
    decreases es,
{
    if es.len() == 0 {
        Seq::empty()
    } else {
        seq![embed_bexpr(es[0])] + embed_bexpr_list(es.drop_first())
    }
}

pub open spec fn embed_atom_list(atoms: Seq<AtomV>) -> Seq<ast::ExprV>
    decreases atoms.len(),
{
    if atoms.len() == 0 {
        Seq::empty()
    } else {
        seq![embed_atom(atoms[0])] + embed_atom_list(atoms.drop_first())
    }
}

pub open spec fn embed_expr(e: ExprV) -> ast::ExprV {
    match e {
        ExprV::Bexpr(b) => embed_bexpr(b),
        ExprV::Call { name, args } => ast::ExprV::Call { name, args: embed_bexpr_list(args) },
        ExprV::Fby(inits, nexts) => if inits.len() == 1 && nexts.len() == 1 {
            ast::ExprV::Fby(
                Box::new(embed_atom(inits[0])),
                Box::new(embed_bexpr(nexts[0])),
            )
        } else {
            ast::ExprV::Fby(
                Box::new(ast::ExprV::Tuple(embed_atom_list(inits))),
                Box::new(ast::ExprV::Tuple(embed_bexpr_list(nexts))),
            )
        },
    }
}

pub open spec fn embed_equation(eq: EquationV) -> ast::EquationV {
    ast::EquationV { names: eq.names, body: embed_expr(eq.body) }
}

pub open spec fn embed_node(q: NodeV) -> ast::NodeV {
    ast::NodeV {
        name: q.name,
        args_in: q.args_in,
        args_out: q.args_out,
        locals: q.locals.map_values(|s: Seq<char>| (s, Type::Unit)),
        body: q.body.map_values(|eq: EquationV| embed_equation(eq)),
    }
}

pub open spec fn embed_program(prog: Seq<NodeV>) -> Seq<ast::NodeV> {
    prog.map_values(|q: NodeV| embed_node(q))
}

/// The shapes normalization itself produces: a delay carries two
/// equal-length lists, and a one-element delay does not hide a tuple
/// in its next expression (a raw `fby` of one plain side and one
/// tuple side is rejected, so no normalized tree of that shape ever
/// arises).
pub open spec fn renorm_stable_expr(e: ExprV) -> bool {
    e matches ExprV::Fby(inits, nexts) ==> inits.len() == nexts.len() && (nexts.len() == 1
        ==> !(nexts[0] is Tuple))
}

pub open spec fn is_normal_node(q: NodeV) -> bool {
    forall|i: int| 0 <= i < q.body.len() ==> renorm_stable_expr((#[trigger] q.body[i]).body)
}

proof fn lemma_renorm_atom(a: AtomV, m: Inter)
    ensures
        spec_norm_atom(embed_atom(a), m) == Ok::<(AtomV, Inter), ()>((a, m)),
{
}

proof fn lemma_renorm_bexpr(b: BexprV, m: Inter)
    ensures
        spec_norm_bexpr(embed_bexpr(b), m) == Ok::<(BexprV, Inter), ()>((b, m)),
    decreases b, 0nat,
{
    match b {
        BexprV::Atom(a) => {
            lemma_renorm_atom(a, m);
        },
        BexprV::Unop(op, e) => {
            lemma_renorm_bexpr(*e, m);
        },
        BexprV::Binop(op, e1, e2) => {
            lemma_renorm_bexpr(*e1, m);
            lemma_renorm_bexpr(*e2, m);
        },
        BexprV::If(c, t, f) => {
            lemma_renorm_bexpr(*c, m);
            lemma_renorm_bexpr(*t, m);
            lemma_renorm_bexpr(*f, m);
        },
        BexprV::Tuple(es) => {
            lemma_renorm_bexpr_list(es, m);
        },
    }
}

proof fn lemma_renorm_bexpr_list(es: Seq<BexprV>, m: Inter)
    ensures
        spec_norm_bexpr_list(embed_bexpr_list(es), m) == Ok::<(Seq<BexprV>, Inter), ()>(
            (es, m),
        ),
    decreases es, 1nat,
{
    if es.len() == 0 {
        assert(embed_bexpr_list(es) =~= Seq::<ast::ExprV>::empty());
        assert(spec_norm_bexpr_list(embed_bexpr_list(es), m) == Ok::<(Seq<BexprV>, Inter), ()>(
            (Seq::empty(), m),
        ));
        assert(es =~= Seq::<BexprV>::empty());
    } else {
        let el = embed_bexpr_list(es);
        assert(el[0] == embed_bexpr(es[0]));
        assert(el.drop_first() =~= embed_bexpr_list(es.drop_first()));
        lemma_renorm_bexpr(es[0], m);
        lemma_renorm_bexpr_list(es.drop_first(), m);
        assert(seq![es[0]] + es.drop_first() =~= es);
    }
}

proof fn lemma_renorm_atom_list(atoms: Seq<AtomV>, m: Inter)
    ensures
        spec_norm_atom_list(embed_atom_list(atoms), m) == Ok::<(Seq<AtomV>, Inter), ()>(
            (atoms, m),
        ),
    decreases atoms.len(),
{
    if atoms.len() == 0 {
        assert(embed_atom_list(atoms) =~= Seq::<ast::ExprV>::empty());
        assert(atoms =~= Seq::<AtomV>::empty());
    } else {
        let el = embed_atom_list(atoms);
        assert(el[0] == embed_atom(atoms[0]));
        assert(el.drop_first() =~= embed_atom_list(atoms.drop_first()));
        lemma_renorm_atom(atoms[0], m);
        lemma_renorm_atom_list(atoms.drop_first(), m);
        assert(seq![atoms[0]] + atoms.drop_first() =~= atoms);
    }
}

proof fn lemma_embed_bexpr_list_len(es: Seq<BexprV>)
    ensures
        embed_bexpr_list(es).len() == es.len(),
    decreases es,
{
    if es.len() > 0 {
        lemma_embed_bexpr_list_len(es.drop_first());
    }
}

proof fn lemma_embed_atom_list_len(atoms: Seq<AtomV>)
    ensures
        embed_atom_list(atoms).len() == atoms.len(),
    decreases atoms.len(),
{
    if atoms.len() > 0 {
        lemma_embed_atom_list_len(atoms.drop_first());
    }
}

proof fn lemma_renorm_expr(e: ExprV, m: Inter)
    requires
        renorm_stable_expr(e),
    ensures
        spec_norm_expr(embed_expr(e), m) == Ok::<(ExprV, Inter), ()>((e, m)),
{
    match e {
        ExprV::Bexpr(b) => {
            lemma_renorm_bexpr(b, m);
            assert(!(embed_bexpr(b) is Call) && !(embed_bexpr(b) is Fby)) by {
                match b {
                    BexprV::Atom(a) => {
                        match a {
                            AtomV::Ident(_) => {},
                            AtomV::Const(_) => {},
                        }
                    },
                    _ => {},
                }
            }
        },
        ExprV::Call { name, args } => {
            lemma_renorm_bexpr_list(args, m);
        },
        ExprV::Fby(inits, nexts) => {
            if inits.len() == 1 && nexts.len() == 1 {
                lemma_renorm_atom(inits[0], m);
                lemma_renorm_bexpr(nexts[0], m);
                assert(!(embed_atom(inits[0]) is Tuple)) by {
                    match inits[0] {
                        AtomV::Ident(_) => {},
                        AtomV::Const(_) => {},
                    }
                }
                assert(!(embed_bexpr(nexts[0]) is Tuple)) by {
                    match nexts[0] {
                        BexprV::Atom(a) => {
                            match a {
                                AtomV::Ident(_) => {},
                                AtomV::Const(_) => {},
                            }
                        },
                        _ => {},
                    }
                }
                assert(seq![inits[0]] =~= inits);
                assert(seq![nexts[0]] =~= nexts);
            } else {
                lemma_embed_atom_list_len(inits);
                lemma_embed_bexpr_list_len(nexts);
                lemma_renorm_atom_list(inits, m);
                lemma_renorm_bexpr_list(nexts, m);
            }
        },
    }
}

proof fn lemma_renorm_eq_list(eqs: Seq<EquationV>, m: Inter)
    requires
        forall|i: int| 0 <= i < eqs.len() ==> renorm_stable_expr((#[trigger] eqs[i]).body),
    ensures
        spec_norm_eq_list(eqs.map_values(|eq: EquationV| embed_equation(eq)), m) == Ok::<
            (Seq<EquationV>, Inter),
            (),
        >((eqs, m)),
    decreases eqs.len(),
{
    let el = eqs.map_values(|eq: EquationV| embed_equation(eq));
    if eqs.len() == 0 {
        assert(el =~= Seq::<ast::EquationV>::empty());
        assert(eqs =~= Seq::<EquationV>::empty());
    } else {
        assert(el[0] == embed_equation(eqs[0]));
        lemma_renorm_expr(eqs[0].body, m);
        assert(el.drop_first() =~= eqs.drop_first().map_values(
            |eq: EquationV| embed_equation(eq),
        ));
        lemma_renorm_eq_list(eqs.drop_first(), m);
        assert(seq![eqs[0]] + eqs.drop_first() =~= eqs);
        assert(spec_norm_equation(el[0], m) == Ok::<(EquationV, Inter), ()>((eqs[0], m)))
            by {
            assert((EquationV { names: eqs[0].names, body: eqs[0].body }) =~= eqs[0]);
        }
    }
}

proof fn lemma_extras_of_seeds(m: Inter)
    requires
        forall|i: int| 0 <= i < m.len() ==> (#[trigger] m[i]).1 is None,
    ensures
        inter_extras(m) =~= Seq::<(Seq<char>, ExprV)>::empty(),
    decreases m.len(),
{
    if m.len() > 0 {
        assert(m[0].1 is None);
        lemma_extras_of_seeds(m.drop_first());
    }
}

proof fn lemma_renorm_node(q: NodeV)
    requires
        is_normal_node(q),
    ensures
        spec_norm_node(embed_node(q)) == Ok::<NodeV, ()>(q),
{
    let n = embed_node(q);
    let m0 = local_names(n.locals).map_values(|s: Seq<char>| (s, Option::<ExprV>::None));
    assert(local_names(n.locals) =~= q.locals);
    assert(n.body =~= q.body.map_values(|eq: EquationV| embed_equation(eq)));
    lemma_renorm_eq_list(q.body, m0);
    assert(spec_norm_eq_list(n.body, m0) == Ok::<(Seq<EquationV>, Inter), ()>((q.body, m0)));
    assert(forall|i: int| 0 <= i < m0.len() ==> (#[trigger] m0[i]).1 is None);
    lemma_extras_of_seeds(m0);
    let o = spec_norm_node(n)->Ok_0;
    assert(o.locals =~= q.locals);
    assert(o.body =~= q.body);
    assert(o =~= q);
}

/// Normalizing a normalized program gives it back unchanged: the pass
/// is idempotent.
pub proof fn lemma_normalize_idempotent(prog: Seq<NodeV>)
    requires
        forall|k: int| 0 <= k < prog.len() ==> is_normal_node(#[trigger] prog[k]),
    ensures
        spec_normalize(embed_program(prog)) == Ok::<Seq<NodeV>, Seq<char>>(prog),
    decreases prog.len(),
{
    let ep = embed_program(prog);
    if prog.len() == 0 {
        assert(ep =~= Seq::<ast::NodeV>::empty());
        assert(prog =~= Seq::<NodeV>::empty());
    } else {
        assert(ep[0] == embed_node(prog[0]));
        lemma_renorm_node(prog[0]);
        assert(ep.drop_first() =~= embed_program(prog.drop_first()));
        lemma_normalize_idempotent(prog.drop_first());
        assert(seq![prog[0]] + prog.drop_first() =~= prog);
    }
}


/// The delay-shape invariant of normalized bodies: a `fby` carries
/// one initial atom per next expression.
pub open spec fn fby_lens_ok_expr(e: ExprV) -> bool {
    e matches ExprV::Fby(inits, nexts) ==> inits.len() == nexts.len()
}

/// Every definition the table records keeps the delay shape.
pub open spec fn inter_fby_ok(m: Inter) -> bool {
    forall|i: int|
        0 <= i < m.len() ==> ((#[trigger] m[i]).1 matches Some(e) ==> fby_lens_ok_expr(e))
}

proof fn lemma_norm_bexpr_list_len(es: Seq<ast::ExprV>, m: Inter)
    requires
        spec_norm_bexpr_list(es, m) is Ok,
    ensures
        spec_norm_bexpr_list(es, m)->Ok_0.0.len() == es.len(),
    decreases es.len(),
{
    if es.len() > 0 {
        let m1 = spec_norm_bexpr(es[0], m)->Ok_0.1;
        lemma_norm_bexpr_list_len(es.drop_first(), m1);
    }
}

proof fn lemma_norm_atom_list_len(es: Seq<ast::ExprV>, m: Inter)
    requires
        spec_norm_atom_list(es, m) is Ok,
    ensures
        spec_norm_atom_list(es, m)->Ok_0.0.len() == es.len(),
    decreases es.len(),
{
    if es.len() > 0 {
        let m1 = spec_norm_atom(es[0], m)->Ok_0.1;
        lemma_norm_atom_list_len(es.drop_first(), m1);
    }
}

proof fn lemma_norm_atom_fby(e: ast::ExprV, m: Inter)
    requires
        inter_fby_ok(m),
        spec_norm_atom(e, m) is Ok,
    ensures
        inter_fby_ok(spec_norm_atom(e, m)->Ok_0.1),
    decreases e, rank_atom(e),
{
    match e {
        ast::ExprV::Const(_) => {},
        ast::ExprV::Ident(_) => {},
        _ => {
            lemma_norm_expr_fby(e, m);
            let m1 = spec_norm_expr(e, m)->Ok_0.1;
            let body = spec_norm_expr(e, m)->Ok_0.0;
            let k = spec_fresh(m1);
            let m2 = m1.push((tmp_name(k), Some(body)));
            assert forall|i: int|
                0 <= i < m2.len() implies ((#[trigger] m2[i]).1 matches Some(e2)
                ==> fby_lens_ok_expr(e2)) by {
                if i < m1.len() {
                    assert(m2[i] == m1[i]);
                }
            }
        },
    }
}

proof fn lemma_norm_bexpr_fby(e: ast::ExprV, m: Inter)
    requires
        inter_fby_ok(m),
        spec_norm_bexpr(e, m) is Ok,
    ensures
        inter_fby_ok(spec_norm_bexpr(e, m)->Ok_0.1),
    decreases e, rank_bexpr(e),
{
    match e {
        ast::ExprV::Unop(_, e1) => {
            lemma_norm_bexpr_fby(*e1, m);
        },
        ast::ExprV::Binop(_, e1, e2) => {
            lemma_norm_bexpr_fby(*e1, m);
            let m1 = spec_norm_bexpr(*e1, m)->Ok_0.1;
            lemma_norm_bexpr_fby(*e2, m1);
        },
        ast::ExprV::If(e1, e2, e3) => {
            lemma_norm_bexpr_fby(*e1, m);
            let m1 = spec_norm_bexpr(*e1, m)->Ok_0.1;
            lemma_norm_bexpr_fby(*e2, m1);
            let m2 = spec_norm_bexpr(*e2, m1)->Ok_0.1;
            lemma_norm_bexpr_fby(*e3, m2);
        },
        ast::ExprV::Tuple(es) => {
            lemma_norm_bexpr_list_fby(es, m);
        },
        _ => {
            lemma_norm_atom_fby(e, m);
        },
    }
}

proof fn lemma_norm_bexpr_list_fby(es: Seq<ast::ExprV>, m: Inter)
    requires
        inter_fby_ok(m),
        spec_norm_bexpr_list(es, m) is Ok,
    ensures
        inter_fby_ok(spec_norm_bexpr_list(es, m)->Ok_0.1),
    decreases es, 0nat,
{
    if es.len() > 0 {
        lemma_norm_bexpr_fby(es[0], m);
        let m1 = spec_norm_bexpr(es[0], m)->Ok_0.1;
        lemma_norm_bexpr_list_fby(es.drop_first(), m1);
    }
}

proof fn lemma_norm_atom_list_fby(es: Seq<ast::ExprV>, m: Inter)
    requires
        inter_fby_ok(m),
        spec_norm_atom_list(es, m) is Ok,
    ensures
        inter_fby_ok(spec_norm_atom_list(es, m)->Ok_0.1),
    decreases es, 0nat,
{
    if es.len() > 0 {
        lemma_norm_atom_fby(es[0], m);
        let m1 = spec_norm_atom(es[0], m)->Ok_0.1;
        lemma_norm_atom_list_fby(es.drop_first(), m1);
    }
}

proof fn lemma_norm_expr_fby(e: ast::ExprV, m: Inter)
    requires
        inter_fby_ok(m),
        spec_norm_expr(e, m) is Ok,
    ensures
        inter_fby_ok(spec_norm_expr(e, m)->Ok_0.1),
        fby_lens_ok_expr(spec_norm_expr(e, m)->Ok_0.0),
    decreases e, rank_expr(e),
{
    match e {
        ast::ExprV::Call { name: _, args } => {
            lemma_norm_bexpr_list_fby(args, m);
        },
        ast::ExprV::Fby(e1, e2) => {
            match (*e1, *e2) {
                (ast::ExprV::Tuple(v1), ast::ExprV::Tuple(v2)) => {
                    lemma_norm_atom_list_fby(v1, m);
                    lemma_norm_atom_list_len(v1, m);
                    let m1 = spec_norm_atom_list(v1, m)->Ok_0.1;
                    lemma_norm_bexpr_list_fby(v2, m1);
                    lemma_norm_bexpr_list_len(v2, m1);
                },
                (ast::ExprV::Tuple(_), _) => {},
                (_, ast::ExprV::Tuple(_)) => {},
                _ => {
                    lemma_norm_atom_fby(*e1, m);
                    let m1 = spec_norm_atom(*e1, m)->Ok_0.1;
                    lemma_norm_bexpr_fby(*e2, m1);
                },
            }
        },
        _ => {
            lemma_norm_bexpr_fby(e, m);
        },
    }
}

proof fn lemma_norm_eq_list_fby(eqs: Seq<ast::EquationV>, m: Inter)
    requires
        inter_fby_ok(m),
        spec_norm_eq_list(eqs, m) is Ok,
    ensures
        inter_fby_ok(spec_norm_eq_list(eqs, m)->Ok_0.1),
        forall|i: int|
            0 <= i < spec_norm_eq_list(eqs, m)->Ok_0.0.len() ==> fby_lens_ok_expr(
                (#[trigger] spec_norm_eq_list(eqs, m)->Ok_0.0[i]).body,
            ),
    decreases eqs.len(),
{
    if eqs.len() > 0 {
        lemma_norm_expr_fby(eqs[0].body, m);
        let m1 = spec_norm_equation(eqs[0], m)->Ok_0.1;
        lemma_norm_eq_list_fby(eqs.drop_first(), m1);
        let out = spec_norm_eq_list(eqs, m)->Ok_0.0;
        let rest = spec_norm_eq_list(eqs.drop_first(), m1)->Ok_0.0;
        assert forall|i: int| 0 <= i < out.len() implies fby_lens_ok_expr(
            (#[trigger] out[i]).body,
        ) by {
            if i > 0 {
                assert(out[i] == rest[i - 1]);
            }
        }
    }
}

proof fn lemma_extras_fby(m: Inter)
    requires
        inter_fby_ok(m),
    ensures
        forall|j: int|
            0 <= j < inter_extras(m).len() ==> fby_lens_ok_expr(
                (#[trigger] inter_extras(m)[j]).1,
            ),
    decreases m.len(),
{
    if m.len() > 0 {
        assert(forall|i: int|
            0 <= i < m.drop_first().len() ==> m.drop_first()[i] == m[i + 1]);
        lemma_extras_fby(m.drop_first());
        let ex = inter_extras(m);
        let rest = inter_extras(m.drop_first());
        assert forall|j: int| 0 <= j < ex.len() implies fby_lens_ok_expr(
            (#[trigger] ex[j]).1,
        ) by {
            match m[0].1 {
                Some(e) => {
                    if j > 0 {
                        assert(ex[j] == rest[j - 1]);
                    }
                },
                None => {
                    assert(ex[j] == rest[j]);
                },
            }
        }
    }
}

/// Every delay in a normalized node carries equal-length lists: one
/// initial atom per next expression.
pub proof fn lemma_normalize_fby_shapes(n: ast::NodeV)
    requires
        spec_norm_node(n) is Ok,
    ensures
        forall|i: int|
            0 <= i < spec_norm_node(n)->Ok_0.body.len() ==> fby_lens_ok_expr(
                (#[trigger] spec_norm_node(n)->Ok_0.body[i]).body,
            ),
{
    let m0 = local_names(n.locals).map_values(|s: Seq<char>| (s, Option::<ExprV>::None));
    assert(inter_fby_ok(m0)) by {
        assert(forall|i: int| 0 <= i < m0.len() ==> (#[trigger] m0[i]).1 is None);
    }
    lemma_norm_eq_list_fby(n.body, m0);
    let eqs = spec_norm_eq_list(n.body, m0)->Ok_0.0;
    let m1 = spec_norm_eq_list(n.body, m0)->Ok_0.1;
    lemma_extras_fby(m1);
    let extras = inter_extras(m1);
    let o = spec_norm_node(n)->Ok_0;
    let exq = extras.map_values(
        |p: (Seq<char>, ExprV)| EquationV { names: seq![p.0], body: p.1 },
    );
    assert forall|i: int| 0 <= i < o.body.len() implies fby_lens_ok_expr(
        (#[trigger] o.body[i]).body,
    ) by {
        if i < eqs.len() {
            assert(o.body[i] == eqs[i]);
        } else {
            assert(o.body[i] == exq[i - eqs.len()]);
            assert(exq[i - eqs.len()].body == extras[i - eqs.len()].1);
        }
    }
}

} // verus!