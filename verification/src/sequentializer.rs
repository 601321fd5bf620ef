//! Sequentialization: each node's unordered equation set becomes a total
//! order compatible with its instantaneous data dependencies.
//!
//! The dependency set of an equation is the set of identifiers its body
//! reads within the current cycle.  A `fby` body reads only its initial
//! atoms now — the next-cycle expressions are consumed one cycle later —
//! which is what lets a delay break a feedback loop.
//!
//! Four steps, as the `spec_*` functions state them: build the map from
//! defined name to direct dependencies, rejecting a name defined twice;
//! close the map under reachability (`propagate`); reject any name that
//! reaches itself; and place equations one by one, always the first (in
//! input order) whose dependencies are all inputs or already placed.

use vstd::prelude::*;

use crate::nast::{Atom, Bexpr, Expr, Equation, Node, AtomV, BexprV, ExprV, EquationV, NodeV};
use crate::ast::strings_view;
use crate::ast::Type;
use crate::error::CompileError;
use crate::text::str_eq;

verus! {

broadcast use {vstd::std_specs::vec::axiom_vec_index_decreases, vstd::seq_lib::group_to_multiset_ensures};

/// The direct-dependency map: defined name to the names its equation
/// reads instantaneously, in definition order.
pub type DepMap = Seq<(Seq<char>, Seq<Seq<char>>)>;

pub open spec fn spec_find_dep_atom(a: AtomV) -> Seq<Seq<char>> {
    match a {
        AtomV::Ident(s) => seq![s],
        AtomV::Const(_) => Seq::empty(),
    }
}

pub open spec fn spec_find_dep_bexpr(e: BexprV) -> Seq<Seq<char>>
    decreases e,
{
    match e {
        BexprV::Atom(a) => spec_find_dep_atom(a),
        BexprV::Unop(_, e1) => spec_find_dep_bexpr(*e1),
        BexprV::Binop(_, e1, e2) => spec_find_dep_bexpr(*e1) + spec_find_dep_bexpr(*e2),
        BexprV::If(e1, e2, e3) => spec_find_dep_bexpr(*e1) + spec_find_dep_bexpr(*e2)
            + spec_find_dep_bexpr(*e3),
        BexprV::Tuple(es) => spec_find_dep_bexpr_list(es),
    }
}

pub open spec fn spec_find_dep_bexpr_list(es: Seq<BexprV>) -> Seq<Seq<char>>
    decreases es,
{
    if es.len() == 0 {
        Seq::empty()
    } else {
        spec_find_dep_bexpr(es[0]) + spec_find_dep_bexpr_list(es.drop_first())
    }
}

pub open spec fn spec_find_dep_atom_list(atoms: Seq<AtomV>) -> Seq<Seq<char>>
    decreases atoms.len(),
{
    if atoms.len() == 0 {
        Seq::empty()
    } else {
        spec_find_dep_atom(atoms[0]) + spec_find_dep_atom_list(atoms.drop_first())
    }
}

/// The instantaneous dependencies of one equation.
pub open spec fn spec_find_dep_eq(eq: EquationV) -> Seq<Seq<char>> {
    match eq.body {
        ExprV::Bexpr(b) => spec_find_dep_bexpr(b),
        ExprV::Call { name: _, args } => spec_find_dep_bexpr_list(args),
        ExprV::Fby(inits, _) => spec_find_dep_atom_list(inits),
    }
}

pub open spec fn dep_has_key(m: DepMap, name: Seq<char>) -> bool {
    exists|i: int| 0 <= i < m.len() && (#[trigger] m[i]).0 == name
}

/// The first entry under a key.
pub open spec fn dep_lookup(m: DepMap, name: Seq<char>) -> Option<Seq<Seq<char>>>
    decreases m.len(),
{
    if m.len() == 0 {
        None
    } else if m[0].0 == name {
        Some(m[0].1)
    } else {
        dep_lookup(m.drop_first(), name)
    }
}

/// Adds one equation's names to the map, left to right; a name already
/// present is a duplicate definition.
pub open spec fn spec_add_eq(m: DepMap, names: Seq<Seq<char>>, deps: Seq<Seq<char>>) -> Result<
    DepMap,
    Seq<char>,
>
    decreases names.len(),
{
    if names.len() == 0 {
        Ok(m)
    } else if dep_has_key(m, names[0]) {
        Err(names[0])
    } else {
        spec_add_eq(m.push((names[0], deps)), names.drop_first(), deps)
    }
}

/// The direct-dependency map of a body, or the first name defined twice.
pub open spec fn spec_dep_map(eqs: Seq<EquationV>, m: DepMap) -> Result<DepMap, Seq<char>>
    decreases eqs.len(),
{
    if eqs.len() == 0 {
        Ok(m)
    } else {
        match spec_add_eq(m, eqs[0].names, spec_find_dep_eq(eqs[0])) {
            Err(name) => Err(name),
            Ok(m1) => spec_dep_map(eqs.drop_first(), m1),
        }
    }
}

/// One edge of the dependency graph: `b` is a direct dependency of the
/// name `a`.
pub open spec fn dep_edge(m: DepMap, a: Seq<char>, b: Seq<char>) -> bool {
    match dep_lookup(m, a) {
        Some(ds) => ds.contains(b),
        None => false,
    }
}

/// A path of at most `n + 1` edges from `a` to `b`.
pub open spec fn reach_n(m: DepMap, a: Seq<char>, b: Seq<char>, n: nat) -> bool
    decreases n,
{
    dep_edge(m, a, b) || (n > 0 && exists|c: Seq<char>|
        #[trigger] dep_edge(m, a, c) && reach_n(m, c, b, (n - 1) as nat))
}

/// `b` is reachable from `a` along dependency edges: `b` must be known
/// before `a` can be computed.
pub open spec fn reaches(m: DepMap, a: Seq<char>, b: Seq<char>) -> bool {
    exists|n: nat| reach_n(m, a, b, n)
}

/// An edge into a path is a path.
pub proof fn lemma_reach_prepend(m: DepMap, a: Seq<char>, b: Seq<char>, c: Seq<char>)
    requires
        dep_edge(m, a, b),
        reaches(m, b, c),
    ensures
        reaches(m, a, c),
{
    let n = choose|n: nat| reach_n(m, b, c, n);
    assert(reach_n(m, a, c, n + 1));
}

/// A path out of a path's end extends it.
pub proof fn lemma_reach_extend(m: DepMap, a: Seq<char>, b: Seq<char>, c: Seq<char>)
    requires
        reaches(m, a, b),
        dep_edge(m, b, c),
    ensures
        reaches(m, a, c),
{
    let n = choose|n: nat| reach_n(m, a, b, n);
    lemma_reach_extend_n(m, a, b, c, n);
}

proof fn lemma_reach_extend_n(m: DepMap, a: Seq<char>, b: Seq<char>, c: Seq<char>, n: nat)
    requires
        reach_n(m, a, b, n),
        dep_edge(m, b, c),
    ensures
        reaches(m, a, c),
    decreases n,
{
    if dep_edge(m, a, b) {
        assert(reach_n(m, a, c, 1)) by {
            assert(dep_edge(m, a, b) && reach_n(m, b, c, 0));
        }
    } else {
        let d = choose|d: Seq<char>| #[trigger] dep_edge(m, a, d) && reach_n(
            m,
            d,
            b,
            (n - 1) as nat,
        );
        lemma_reach_extend_n(m, d, b, c, (n - 1) as nat);
        let j = choose|j: nat| reach_n(m, d, c, j);
        assert(reach_n(m, a, c, j + 1));
    }
}

/// Mathematical value of the executable dependency map.
pub open spec fn dep_view(m: Seq<(String, Vec<String>)>) -> DepMap {
    m.map_values(|p: (String, Vec<String>)| (p.0@, strings_view(p.1@)))
}

/// Every name a map mentions: its keys and the entries of its rows.
pub open spec fn all_names(m: DepMap) -> Seq<Seq<char>>
    decreases m.len(),
{
    if m.len() == 0 {
        Seq::empty()
    } else {
        seq![m[0].0] + m[0].1 + all_names(m.drop_first())
    }
}

/// A direct dependency of any name is among the map's names.
pub proof fn lemma_edge_in_all_names(m: DepMap, a: Seq<char>)
    ensures
        forall|x: Seq<char>| dep_edge(m, a, x) ==> all_names(m).contains(x),
    decreases m.len(),
{
    if m.len() > 0 {
        lemma_edge_in_all_names(m.drop_first(), a);
        assert forall|x: Seq<char>| dep_edge(m, a, x) implies all_names(m).contains(x) by {
            if m[0].0 == a {
                assert(m[0].1.contains(x));
                let j = choose|j: int| 0 <= j < m[0].1.len() && m[0].1[j] == x;
                assert(all_names(m)[1 + j] == x);
            } else {
                assert(dep_edge(m.drop_first(), a, x));
                let j = choose|j: int|
                    0 <= j < all_names(m.drop_first()).len() && all_names(m.drop_first())[j]
                        == x;
                assert(all_names(m)[1 + m[0].1.len() + j] == x);
            }
        }
    }
}

proof fn lemma_dep_lookup_at(m: DepMap, name: Seq<char>, i: int)
    requires
        0 <= i < m.len(),
        m[i].0 == name,
        forall|j: int| 0 <= j < i ==> (#[trigger] m[j]).0 != name,
    ensures
        dep_lookup(m, name) == Some(m[i].1),
    decreases i,
{
    if i > 0 {
        lemma_dep_lookup_at(m.drop_first(), name, i - 1);
    }
}

proof fn lemma_dep_lookup_none(m: DepMap, name: Seq<char>)
    requires
        forall|j: int| 0 <= j < m.len() ==> (#[trigger] m[j]).0 != name,
    ensures
        dep_lookup(m, name) is None,
    decreases m.len(),
{
    if m.len() > 0 {
        lemma_dep_lookup_none(m.drop_first(), name);
    }
}

/// Whether a name occurs in a list of identifiers.
fn contains_str(v: &Vec<String>, x: &String) -> (b: bool)
    ensures
        b == strings_view(v@).contains(x@),
{
    let mut i: usize = 0;
    while i < v.len()
        invariant
            i <= v.len(),
            forall|k: int| 0 <= k < i ==> (#[trigger] v@[k])@ != x@,
        decreases v.len() - i,
    {
        if str_eq(&v[i], x) {
            proof {
                assert(strings_view(v@)[i as int] == x@);
            }
            return true;
        }
        i = i + 1;
    }
    proof {
        assert forall|k: int| 0 <= k < strings_view(v@).len() implies #[trigger] strings_view(
            v@,
        )[k] != x@ by {
            assert(strings_view(v@)[k] == v@[k]@);
        }
    }
    false
}

/// The first row under a key.
fn dep_lookup_exec<'a>(m: &'a Vec<(String, Vec<String>)>, name: &String) -> (r: Option<
    &'a Vec<String>,
>)
    ensures
        match r {
            Some(vs) => dep_lookup(dep_view(m@), name@) == Some(strings_view(vs@)),
            None => dep_lookup(dep_view(m@), name@) is None,
        },
{
    let ghost mv = dep_view(m@);
    let mut i: usize = 0;
    while i < m.len()
        invariant
            i <= m.len(),
            mv == dep_view(m@),
            forall|k: int| 0 <= k < i ==> (#[trigger] mv[k]).0 != name@,
        decreases m.len() - i,
    {
        if str_eq(&m[i].0, name) {
            proof {
                assert(mv[i as int] == (m@[i as int].0@, strings_view(m@[i as int].1@)));
                lemma_dep_lookup_at(mv, name@, i as int);
            }
            return Some(&m[i].1);
        }
        proof {
            assert(mv[i as int] == (m@[i as int].0@, strings_view(m@[i as int].1@)));
        }
        i = i + 1;
    }
    proof {
        lemma_dep_lookup_none(mv, name@);
    }
    None
}

/// A set closed under edges and holding every direct dependency of `a`
/// holds everything reachable from `a`.
proof fn lemma_closed_reach(
    m: DepMap,
    s: Seq<Seq<char>>,
    a: Seq<char>,
    x: Seq<char>,
    n: nat,
)
    requires
        forall|d: Seq<char>, y: Seq<char>|
            s.contains(d) && #[trigger] dep_edge(m, d, y) ==> s.contains(y),
        forall|y: Seq<char>| #[trigger] dep_edge(m, a, y) ==> s.contains(y),
        reach_n(m, a, x, n),
    ensures
        s.contains(x),
    decreases n,
{
    if dep_edge(m, a, x) {
    } else {
        let c = choose|c: Seq<char>| #[trigger] dep_edge(m, a, c) && reach_n(
            m,
            c,
            x,
            (n - 1) as nat,
        );
        assert(s.contains(c));
        lemma_closed_reach(m, s, c, x, (n - 1) as nat);
    }
}

/// The names reachable from `key`, gathered by a worklist walk.
fn close_over(deps: &Vec<(String, Vec<String>)>, key: &String) -> (r: Vec<String>)
    ensures
        forall|x: Seq<char>|
            #[trigger] strings_view(r@).contains(x) <==> reaches(dep_view(deps@), key@, x),
        strings_view(r@).no_duplicates(),
{
    let ghost m = dep_view(deps@);
    let ghost k0 = key@;
    let ghost univ = all_names(m).to_set();
    proof {
        broadcast use vstd::seq_lib::seq_to_set_is_finite;

        assert(univ.finite());
    }
    let mut alldeps: Vec<String> = Vec::new();
    let mut todo: Vec<String> = Vec::new();
    match dep_lookup_exec(deps, key) {
        Some(vs) => {
            let mut i: usize = 0;
            while i < vs.len()
                invariant
                    i <= vs.len(),
                    todo@.len() == i,
                    forall|k: int| 0 <= k < i ==> (#[trigger] todo@[k])@ == vs@[k]@,
                decreases vs.len() - i,
            {
                todo.push(vs[i].clone());
                i = i + 1;
            }
            proof {
                lemma_edge_in_all_names(m, k0);
                assert forall|j: int| 0 <= j < todo@.len() implies dep_edge(
                    m,
                    k0,
                    #[trigger] todo@[j]@,
                ) && univ.contains(todo@[j]@) && reaches(m, k0, todo@[j]@) by {
                    assert(strings_view(vs@)[j] == vs@[j]@);
                    assert(all_names(m).contains(todo@[j]@));
                    assert(reach_n(m, k0, todo@[j]@, 0));
                }
                assert forall|x: Seq<char>| #[trigger] dep_edge(m, k0, x) implies strings_view(
                    todo@,
                ).contains(x) by {
                    assert(strings_view(vs@).contains(x));
                    let jj = choose|jj: int|
                        0 <= jj < strings_view(vs@).len() && strings_view(vs@)[jj] == x;
                    assert(vs@[jj]@ == x);
                    assert(todo@[jj]@ == vs@[jj]@);
                    assert(strings_view(todo@)[jj] == x);
                }
            }
        },
        None => {},
    }
    let mut qi: usize = 0;
    while qi < todo.len()
        invariant
            m == dep_view(deps@),
            univ == all_names(m).to_set(),
            qi <= todo@.len(),
            strings_view(alldeps@).no_duplicates(),
            strings_view(alldeps@).to_set().subset_of(univ),
            univ.finite(),
            alldeps@.len() <= univ.len(),
            forall|i: int| 0 <= i < alldeps@.len() ==> reaches(m, k0, (#[trigger] alldeps@[i])@),
            forall|j: int| 0 <= j < todo@.len() ==> reaches(m, k0, (#[trigger] todo@[j])@),
            forall|j: int| 0 <= j < todo@.len() ==> univ.contains((#[trigger] todo@[j])@),
            forall|j: int|
                0 <= j < qi ==> strings_view(alldeps@).contains((#[trigger] todo@[j])@),
            forall|i: int, x: Seq<char>|
                0 <= i < alldeps@.len() && #[trigger] dep_edge(m, alldeps@[i]@, x)
                    ==> strings_view(alldeps@).contains(x) || strings_view(todo@).contains(x),
            forall|x: Seq<char>|
                #[trigger] dep_edge(m, k0, x) ==> strings_view(alldeps@).contains(x)
                    || strings_view(todo@).contains(x),
        decreases univ.len() - alldeps@.len(), todo@.len() - qi,
    {
        let d = todo[qi].clone();
        qi = qi + 1;
        if !contains_str(&alldeps, &d) {
            let ghost olddeps = alldeps@;
            alldeps.push(d.clone());
            proof {
                broadcast use vstd::seq_lib::seq_to_set_is_finite;

                assert(strings_view(alldeps@) =~= strings_view(olddeps).push(d@));
                assert(strings_view(alldeps@).drop_last() =~= strings_view(olddeps));
                assert(strings_view(alldeps@).no_duplicates());
                assert(reaches(m, k0, d@));
                lemma_edge_in_all_names(m, d@);
                assert(strings_view(todo@).contains(d@)) by {
                    assert(todo@[qi - 1]@ == d@);
                    assert(strings_view(todo@)[qi - 1] == d@);
                }
                assert(univ.contains(d@)) by {
                    assert(todo@[qi - 1]@ == d@);
                }
                assert(strings_view(alldeps@).to_set().subset_of(univ));
                strings_view(alldeps@).unique_seq_to_set();
                vstd::set_lib::lemma_len_subset(strings_view(alldeps@).to_set(), univ);
                assert(strings_view(alldeps@)[alldeps@.len() - 1] == d@);
                assert(strings_view(alldeps@).contains(d@));
                assert forall|x: Seq<char>|
                    strings_view(olddeps).contains(x) implies #[trigger] strings_view(
                    alldeps@,
                ).contains(x) by {
                    let l = choose|l: int|
                        0 <= l < strings_view(olddeps).len() && strings_view(olddeps)[l] == x;
                    assert(strings_view(alldeps@)[l] == x);
                }
            }
            match dep_lookup_exec(deps, &d) {
                Some(vs) => {
                    let mut i: usize = 0;
                    while i < vs.len()
                        invariant
                            m == dep_view(deps@),
                            univ == all_names(m).to_set(),
                            dep_lookup(m, d@) == Some(strings_view(vs@)),
                            i <= vs.len(),
                            strings_view(alldeps@).no_duplicates(),
                            strings_view(alldeps@).to_set().subset_of(univ),
                            univ.finite(),
                            alldeps@.len() <= univ.len(),
                            alldeps@.len() > 0,
                            strings_view(alldeps@).contains(d@),
                            forall|l: int|
                                0 <= l < alldeps@.len() ==> reaches(
                                    m,
                                    k0,
                                    (#[trigger] alldeps@[l])@,
                                ),
                            forall|j: int|
                                0 <= j < todo@.len() ==> reaches(m, k0, (#[trigger] todo@[j])@),
                            forall|j: int|
                                0 <= j < todo@.len() ==> univ.contains((#[trigger] todo@[j])@),
                            qi <= todo@.len(),
                            forall|j: int|
                                0 <= j < qi ==> strings_view(alldeps@).contains(
                                    (#[trigger] todo@[j])@,
                                ),
                            forall|l: int, x: Seq<char>|
                                0 <= l < alldeps@.len() - 1 && #[trigger] dep_edge(
                                    m,
                                    alldeps@[l]@,
                                    x,
                                ) ==> strings_view(alldeps@).contains(x) || strings_view(
                                    todo@,
                                ).contains(x),
                            forall|l: int|
                                0 <= l < i ==> strings_view(alldeps@).contains(
                                    (#[trigger] vs@[l])@,
                                ) || strings_view(todo@).contains(vs@[l]@),
                            forall|x: Seq<char>|
                                #[trigger] dep_edge(m, k0, x) ==> strings_view(
                                    alldeps@,
                                ).contains(x) || strings_view(todo@).contains(x),
                        decreases vs.len() - i,
                    {
                        let v = &vs[i];
                        let ghost oldtodo = todo@;
                        let in_all = contains_str(&alldeps, v);
                        let mut in_todo = true;
                        if !in_all {
                            in_todo = contains_str(&todo, v);
                            if !in_todo {
                                todo.push(v.clone());
                            }
                        }
                        proof {
                            assert(strings_view(vs@)[i as int] == vs@[i as int]@);
                            if !in_all && !in_todo {
                                assert(todo@.drop_last() =~= oldtodo);
                                assert(strings_view(todo@)[todo@.len() - 1] == v@);
                                assert(strings_view(todo@).contains(v@));
                                assert(dep_edge(m, d@, v@)) by {
                                    assert(strings_view(vs@)[i as int] == v@);
                                }
                                assert(reaches(m, k0, v@)) by {
                                    lemma_reach_extend(m, k0, d@, v@);
                                }
                                assert(univ.contains(v@)) by {
                                    lemma_edge_in_all_names(m, d@);
                                    assert(all_names(m).contains(v@));
                                }
                            } else {
                                assert(todo@ == oldtodo);
                                if in_all {
                                    assert(strings_view(alldeps@).contains(v@));
                                } else {
                                    assert(strings_view(todo@).contains(v@));
                                }
                            }
                            assert forall|x: Seq<char>|
                                strings_view(oldtodo).contains(x) implies #[trigger] strings_view(
                                todo@,
                            ).contains(x) by {
                                let l = choose|l: int|
                                    0 <= l < strings_view(oldtodo).len() && strings_view(
                                        oldtodo,
                                    )[l] == x;
                                assert(oldtodo[l] == todo@[l]);
                                assert(strings_view(todo@)[l] == x);
                            }
                            assert forall|j: int|
                                0 <= j < todo@.len() implies reaches(
                                m,
                                k0,
                                (#[trigger] todo@[j])@,
                            ) && univ.contains(todo@[j]@) by {
                                if j < oldtodo.len() {
                                    assert(todo@[j] == oldtodo[j]);
                                }
                            }
                        }
                        i = i + 1;
                    }
                    proof {
                        assert forall|l: int, x: Seq<char>|
                            0 <= l < alldeps@.len() && #[trigger] dep_edge(m, alldeps@[l]@, x)
                            implies strings_view(alldeps@).contains(x) || strings_view(
                            todo@,
                        ).contains(x) by {
                            if l == alldeps@.len() - 1 {
                                assert(alldeps@[l]@ == d@);
                                assert(strings_view(vs@).contains(x));
                                let jj = choose|jj: int|
                                    0 <= jj < strings_view(vs@).len() && strings_view(vs@)[jj]
                                        == x;
                                assert(vs@[jj]@ == x);
                            }
                        }
                    }
                },
                None => {
                    proof {
                        assert forall|l: int, x: Seq<char>|
                            0 <= l < alldeps@.len() && #[trigger] dep_edge(m, alldeps@[l]@, x)
                            implies strings_view(alldeps@).contains(x) || strings_view(
                            todo@,
                        ).contains(x) by {
                            if l == alldeps@.len() - 1 {
                                assert(alldeps@[l]@ == d@);
                                assert(dep_lookup(m, d@) is None);
                            }
                        }
                    }
                },
            }
        }
    }
    proof {
        let av = strings_view(alldeps@);
        assert forall|x: Seq<char>| #[trigger] av.contains(x) implies reaches(m, k0, x) by {
            let l = choose|l: int| 0 <= l < av.len() && av[l] == x;
            assert(alldeps@[l]@ == x);
        }
        assert forall|x: Seq<char>| reaches(m, k0, x) implies av.contains(x) by {
            let n = choose|n: nat| reach_n(m, k0, x, n);
            assert forall|dd: Seq<char>, y: Seq<char>|
                av.contains(dd) && #[trigger] dep_edge(m, dd, y) implies av.contains(y) by {
                let l = choose|l: int| 0 <= l < av.len() && av[l] == dd;
                assert(dep_edge(m, alldeps@[l]@, y));
                if strings_view(todo@).contains(y) {
                    let j = choose|j: int|
                        0 <= j < strings_view(todo@).len() && strings_view(todo@)[j] == y;
                    assert(av.contains(todo@[j]@));
                }
            }
            assert forall|y: Seq<char>| #[trigger] dep_edge(m, k0, y) implies av.contains(
                y,
            ) by {
                if strings_view(todo@).contains(y) {
                    let j = choose|j: int|
                        0 <= j < strings_view(todo@).len() && strings_view(todo@)[j] == y;
                    assert(av.contains(todo@[j]@));
                }
            }
            lemma_closed_reach(m, av, k0, x, n);
        }
    }
    alldeps
}


fn find_dep_atom_into(a: &Atom, out: &mut Vec<String>)
    ensures
        strings_view(final(out)@) =~= strings_view(old(out)@) + spec_find_dep_atom(a@),
{
    match a {
        Atom::Ident(s) => {
            out.push(s.clone());
            proof {
                assert(strings_view(out@).drop_last() =~= strings_view(out@.drop_last()));
            }
        },
        Atom::Const(_) => {
            proof {
                assert(strings_view(out@) =~= strings_view(out@) + Seq::<Seq<char>>::empty());
            }
        },
    }
}

fn find_dep_bexpr_into(e: &Bexpr, out: &mut Vec<String>)
    ensures
        strings_view(final(out)@) =~= strings_view(old(out)@) + spec_find_dep_bexpr(e@),
    decreases *e,
{
    match e {
        Bexpr::Atom(a) => {
            find_dep_atom_into(a, out);
        },
        Bexpr::Unop(_, e1) => {
            find_dep_bexpr_into(e1, out);
        },
        Bexpr::Binop(_, es) => {
            find_dep_bexpr_into(&es.0, out);
            find_dep_bexpr_into(&es.1, out);
            proof {
                assert(strings_view(out@) =~= strings_view(old(out)@) + spec_find_dep_bexpr(
                    e@,
                ));
            }
        },
        Bexpr::If(es) => {
            find_dep_bexpr_into(&es.0, out);
            find_dep_bexpr_into(&es.1, out);
            find_dep_bexpr_into(&es.2, out);
            proof {
                assert(strings_view(out@) =~= strings_view(old(out)@) + spec_find_dep_bexpr(
                    e@,
                ));
            }
        },
        Bexpr::Tuple(es) => {
            proof {
                match e@ {
                    BexprV::Tuple(sv) => {
                        assert forall|ii: int| 0 <= ii < sv.len() implies sv[ii]
                            == crate::nast::bexprs_view(es@).skip(0)[ii] by {
                            assert(sv[ii] == es[ii]@);
                            assert(crate::nast::bexprs_view(es@)[ii] == es@[ii]@);
                        }
                        assert(sv =~= crate::nast::bexprs_view(es@).skip(0));
                    },
                    _ => {},
                }
            }
            find_dep_bexpr_list_into(es, 0, out);
        },
    }
}

fn find_dep_bexpr_list_into(es: &Vec<Bexpr>, i: usize, out: &mut Vec<String>)
    requires
        i <= es.len(),
    ensures
        strings_view(final(out)@) =~= strings_view(old(out)@) + spec_find_dep_bexpr_list(
            crate::nast::bexprs_view(es@).skip(i as int),
        ),
    decreases *es, es@.len() - i,
{
    let ghost tail = crate::nast::bexprs_view(es@).skip(i as int);
    if i == es.len() {
        proof {
            assert(tail =~= Seq::<BexprV>::empty());
            assert(strings_view(out@) =~= strings_view(out@) + spec_find_dep_bexpr_list(tail));
        }
    } else {
        proof {
            assert(tail[0] == es@[i as int]@);
            assert(tail.drop_first() =~= crate::nast::bexprs_view(es@).skip(i as int + 1));
        }
        find_dep_bexpr_into(&es[i], out);
        find_dep_bexpr_list_into(es, i + 1, out);
        proof {
            assert(strings_view(out@) =~= strings_view(old(out)@) + spec_find_dep_bexpr_list(
                tail,
            ));
        }
    }
}

fn find_dep_atom_list_into(atoms: &Vec<Atom>, i: usize, out: &mut Vec<String>)
    requires
        i <= atoms.len(),
    ensures
        strings_view(final(out)@) =~= strings_view(old(out)@) + spec_find_dep_atom_list(
            crate::nast::atoms_view(atoms@).skip(i as int),
        ),
    decreases atoms@.len() - i,
{
    let ghost tail = crate::nast::atoms_view(atoms@).skip(i as int);
    if i == atoms.len() {
        proof {
            assert(tail =~= Seq::<AtomV>::empty());
            assert(strings_view(out@) =~= strings_view(out@) + spec_find_dep_atom_list(tail));
        }
    } else {
        proof {
            assert(tail[0] == atoms@[i as int]@);
            assert(tail.drop_first() =~= crate::nast::atoms_view(atoms@).skip(i as int + 1));
        }
        find_dep_atom_into(&atoms[i], out);
        find_dep_atom_list_into(atoms, i + 1, out);
        proof {
            assert(strings_view(out@) =~= strings_view(old(out)@) + spec_find_dep_atom_list(
                tail,
            ));
        }
    }
}

/// The instantaneous dependencies of one equation, as a list of names.
fn find_dep_eq(eq: &Equation) -> (r: Vec<String>)
    ensures
        strings_view(r@) =~= spec_find_dep_eq(eq@),
{
    let mut out: Vec<String> = Vec::new();
    match &eq.body {
        Expr::Bexpr(b) => {
            find_dep_bexpr_into(b, &mut out);
        },
        Expr::Call { name: _, args } => {
            proof {
                assert(crate::nast::bexprs_view(args@).skip(0) =~= crate::nast::bexprs_view(
                    args@,
                ));
            }
            find_dep_bexpr_list_into(args, 0, &mut out);
        },
        Expr::Fby(inits, _) => {
            proof {
                assert(crate::nast::atoms_view(inits@).skip(0) =~= crate::nast::atoms_view(
                    inits@,
                ));
            }
            find_dep_atom_list_into(inits, 0, &mut out);
        },
    }
    proof {
        assert(strings_view(out@) =~= Seq::<Seq<char>>::empty() + spec_find_dep_eq(eq@));
        assert(strings_view(out@) =~= spec_find_dep_eq(eq@));
    }
    out
}

fn dep_map_has(m: &Vec<(String, Vec<String>)>, name: &String) -> (b: bool)
    ensures
        b == dep_has_key(dep_view(m@), name@),
{
    let mut i: usize = 0;
    while i < m.len()
        invariant
            i <= m.len(),
            forall|k: int| 0 <= k < i ==> (#[trigger] m@[k]).0@ != name@,
        decreases m.len() - i,
    {
        if str_eq(&m[i].0, name) {
            proof {
                assert((dep_view(m@)[i as int]).0 == name@);
            }
            return true;
        }
        i = i + 1;
    }
    proof {
        assert forall|l: int| 0 <= l < dep_view(m@).len() implies (#[trigger] dep_view(
            m@,
        )[l]).0 != name@ by {
            assert(m@[l].0@ != name@);
        }
    }
    false
}

fn add_eq_names(
    m: &mut Vec<(String, Vec<String>)>,
    names: &Vec<String>,
    i: usize,
    deps: &Vec<String>,
) -> (r: Result<(), String>)
    requires
        i <= names.len(),
    ensures
        ({
            let s = spec_add_eq(
                dep_view(old(m)@),
                strings_view(names@).skip(i as int),
                strings_view(deps@),
            );
            &&& (r is Ok) == (s is Ok)
            &&& (r matches Ok(()) ==> s matches Ok(m2) && dep_view(final(m)@) =~= m2)
            &&& (r matches Err(name) ==> s matches Err(nm) && name@ == nm)
        }),
    decreases names@.len() - i,
{
    let ghost tail = strings_view(names@).skip(i as int);
    if i == names.len() {
        proof {
            assert(tail =~= Seq::<Seq<char>>::empty());
        }
        Ok(())
    } else {
        proof {
            assert(tail[0] == names@[i as int]@);
            assert(tail.drop_first() =~= strings_view(names@).skip(i as int + 1));
        }
        if dep_map_has(m, &names[i]) {
            Err(names[i].clone())
        } else {
            let ghost oldm = dep_view(m@);
            m.push((names[i].clone(), crate::ast::clone_strings(deps)));
            proof {
                assert(dep_view(m@) =~= oldm.push((names@[i as int]@, strings_view(deps@))));
            }
            add_eq_names(m, names, i + 1, deps)
        }
    }
}

fn build_dep_map(
    body: &Vec<Equation>,
    i: usize,
    m: &mut Vec<(String, Vec<String>)>,
) -> (r: Result<(), String>)
    requires
        i <= body.len(),
    ensures
        ({
            let s = spec_dep_map(
                crate::nast::equations_view(body@).skip(i as int),
                dep_view(old(m)@),
            );
            &&& (r is Ok) == (s is Ok)
            &&& (r matches Ok(()) ==> s matches Ok(m2) && dep_view(final(m)@) =~= m2)
            &&& (r matches Err(name) ==> s matches Err(nm) && name@ == nm)
        }),
    decreases body@.len() - i,
{
    let ghost tail = crate::nast::equations_view(body@).skip(i as int);
    if i == body.len() {
        proof {
            assert(tail =~= Seq::<EquationV>::empty());
        }
        Ok(())
    } else {
        proof {
            assert(tail[0] == body@[i as int]@);
            assert(tail.drop_first() =~= crate::nast::equations_view(body@).skip(i as int + 1));
        }
        let deps = find_dep_eq(&body[i]);
        proof {
            assert(strings_view(body[i as int].names@).skip(0) =~= body@[i as int]@.names);
        }
        match add_eq_names(m, &body[i].names, 0, &deps) {
            Err(name) => Err(name),
            Ok(()) => build_dep_map(body, i + 1, m),
        }
    }
}

/// Whether a key of the row set is already in its own row: the check
/// runs over the closed map, where this means a cycle.
pub open spec fn find_cycle_from(m: DepMap, i: int) -> int
    decreases m.len() - i,
{
    if i < 0 || i >= m.len() {
        -1
    } else if reaches(m, m[i].0, m[i].0) {
        i
    } else {
        find_cycle_from(m, i + 1)
    }
}

/// Closes the direct-dependency map under reachability: each name is
/// mapped to everything it transitively depends on.
pub fn propagate(deps: &Vec<(String, Vec<String>)>) -> (r: Vec<(String, Vec<String>)>)
    ensures
        r@.len() == deps@.len(),
        forall|i: int| 0 <= i < r@.len() ==> (#[trigger] r@[i]).0@ == deps@[i].0@,
        forall|i: int|
            0 <= i < r@.len() ==> strings_view((#[trigger] r@[i]).1@).no_duplicates(),
        forall|i: int, x: Seq<char>|
            0 <= i < r@.len() ==> (#[trigger] strings_view(r@[i].1@).contains(x) <==> reaches(
                dep_view(deps@),
                deps@[i].0@,
                x,
            )),
{
    let mut r: Vec<(String, Vec<String>)> = Vec::new();
    let mut i: usize = 0;
    while i < deps.len()
        invariant
            i <= deps.len(),
            r@.len() == i,
            forall|k: int| 0 <= k < i ==> (#[trigger] r@[k]).0@ == deps@[k].0@,
            forall|k: int|
                0 <= k < i ==> strings_view((#[trigger] r@[k]).1@).no_duplicates(),
            forall|k: int, x: Seq<char>|
                0 <= k < i ==> (#[trigger] strings_view(r@[k].1@).contains(x) <==> reaches(
                    dep_view(deps@),
                    deps@[k].0@,
                    x,
                )),
        decreases deps.len() - i,
    {
        let row = close_over(deps, &deps[i].0);
        r.push((deps[i].0.clone(), row));
        i = i + 1;
    }
    r
}


/// Every name defined by a list of equations, in order.
pub open spec fn names_of(eqs: Seq<EquationV>) -> Seq<Seq<char>>
    decreases eqs.len(),
{
    if eqs.len() == 0 {
        Seq::empty()
    } else {
        eqs[0].names + names_of(eqs.drop_first())
    }
}

pub proof fn lemma_names_of_push(eqs: Seq<EquationV>, eq: EquationV)
    ensures
        names_of(eqs.push(eq)) =~= names_of(eqs) + eq.names,
    decreases eqs.len(),
{
    if eqs.len() == 0 {
        assert(eqs.push(eq)[0] == eq);
        assert(eqs.push(eq).drop_first() =~= Seq::<EquationV>::empty());
        assert(names_of(eqs.push(eq).drop_first()) =~= Seq::<Seq<char>>::empty());
        assert(names_of(eqs.push(eq)) =~= eq.names + Seq::<Seq<char>>::empty());
        assert(names_of(eqs) =~= Seq::<Seq<char>>::empty());
        assert(names_of(eqs) + eq.names =~= eq.names + Seq::<Seq<char>>::empty());
    } else {
        assert(eqs.push(eq)[0] == eqs[0]);
        assert(eqs.push(eq).drop_first() =~= eqs.drop_first().push(eq));
        lemma_names_of_push(eqs.drop_first(), eq);
        let a = eqs[0].names;
        let b = names_of(eqs.drop_first());
        let c = eq.names;
        assert(names_of(eqs.push(eq)) =~= a + (b + c));
        assert(a + (b + c) =~= (a + b) + c);
    }
}

pub proof fn lemma_names_of_index(eqs: Seq<EquationV>, i: int, j: int)
    requires
        0 <= i < eqs.len(),
        0 <= j < eqs[i].names.len(),
    ensures
        names_of(eqs).contains(eqs[i].names[j]),
    decreases i,
{
    if i == 0 {
        assert(names_of(eqs)[j] == eqs[0].names[j]);
    } else {
        lemma_names_of_index(eqs.drop_first(), i - 1, j);
        let nm = eqs[i].names[j];
        let l = choose|l: int|
            0 <= l < names_of(eqs.drop_first()).len() && names_of(eqs.drop_first())[l] == nm;
        assert(names_of(eqs)[eqs[0].names.len() + l] == nm);
    }
}

pub proof fn lemma_names_of_mem(eqs: Seq<EquationV>, d: Seq<char>)
    requires
        names_of(eqs).contains(d),
    ensures
        exists|i: int, j: int|
            0 <= i < eqs.len() && 0 <= j < eqs[i].names.len() && (#[trigger] eqs[i].names[j])
                == d,
    decreases eqs.len(),
{
    let l = choose|l: int| 0 <= l < names_of(eqs).len() && names_of(eqs)[l] == d;
    if l < eqs[0].names.len() {
        assert(eqs[0].names[l] == d);
    } else {
        assert(names_of(eqs.drop_first())[l - eqs[0].names.len()] == d);
        lemma_names_of_mem(eqs.drop_first(), d);
        let (i2, j2): (int, int) = choose|i2: int, j2: int|
            0 <= i2 < eqs.drop_first().len() && 0 <= j2 < eqs.drop_first()[i2].names.len() && (
            #[trigger] eqs.drop_first()[i2].names[j2]) == d;
        assert(eqs[i2 + 1].names[j2] == d);
    }
}

/// Whether every instantaneous dependency of an equation is an input
/// or a name already placed.
pub open spec fn spec_placeable(
    eq: EquationV,
    placed: Seq<Seq<char>>,
    inputs: Seq<Seq<char>>,
) -> bool {
    forall|d: Seq<char>|
        #[trigger] spec_find_dep_eq(eq).contains(d) ==> inputs.contains(d) || placed.contains(
            d,
        )
}

/// The first equation that can be placed, or -1.
pub open spec fn find_placeable(
    rest: Seq<EquationV>,
    placed: Seq<Seq<char>>,
    inputs: Seq<Seq<char>>,
) -> int
    decreases rest.len(),
{
    if rest.len() == 0 {
        -1
    } else if spec_placeable(rest[0], placed, inputs) {
        0
    } else {
        let r = find_placeable(rest.drop_first(), placed, inputs);
        if r < 0 {
            -1
        } else {
            r + 1
        }
    }
}

pub proof fn lemma_find_placeable_at(
    rest: Seq<EquationV>,
    placed: Seq<Seq<char>>,
    inputs: Seq<Seq<char>>,
    j: int,
)
    requires
        0 <= j < rest.len(),
        spec_placeable(rest[j], placed, inputs),
        forall|l: int| 0 <= l < j ==> !spec_placeable(#[trigger] rest[l], placed, inputs),
    ensures
        find_placeable(rest, placed, inputs) == j,
    decreases j,
{
    if j > 0 {
        lemma_find_placeable_at(rest.drop_first(), placed, inputs, j - 1);
    }
}

/// The greedy order: place the first placeable equation until none is
/// left; when none can be placed the remainder is appended as it
/// stands (the callers rule that case out).
pub open spec fn spec_order(
    placed: Seq<EquationV>,
    rest: Seq<EquationV>,
    inputs: Seq<Seq<char>>,
) -> Seq<EquationV>
    decreases rest.len(),
{
    if rest.len() == 0 {
        placed
    } else {
        let j = find_placeable(rest, names_of(placed), inputs);
        if 0 <= j < rest.len() {
            spec_order(placed.push(rest[j]), rest.remove(j), inputs)
        } else {
            placed + rest
        }
    }
}

/// Each name defined by one of the equations is mapped to that
/// equation's dependency set.
pub open spec fn mapped_to(m: DepMap, eqs: Seq<EquationV>) -> bool {
    forall|i: int, j: int|
        0 <= i < eqs.len() && 0 <= j < eqs[i].names.len() ==> dep_lookup(
            m,
            (#[trigger] eqs[i].names[j]),
        ) == Some(spec_find_dep_eq(eqs[i]))
}

/// No name needs itself within the current cycle.
pub open spec fn acyclic(m: DepMap) -> bool {
    forall|x: Seq<char>| !reaches(m, x, x)
}

/// Every dependency of every equation is an input or a defined name.
pub open spec fn eqs_deps_wf(
    eqs: Seq<EquationV>,
    inputs: Seq<Seq<char>>,
    defined: Seq<Seq<char>>,
) -> bool {
    forall|i: int, d: Seq<char>|
        0 <= i < eqs.len() && #[trigger] spec_find_dep_eq(eqs[i]).contains(d)
            ==> inputs.contains(d) || defined.contains(d)
}

/// The shape sequentialization asks of a node: every name an equation
/// reads instantaneously is an input of the node or defined by one of
/// its equations.
pub open spec fn node_deps_wf(n: NodeV) -> bool {
    eqs_deps_wf(n.body, crate::normalizer::local_names(n.args_in), names_of(n.body))
}

/// The body is order-correct: every dependency of the equation at a
/// position is an input or defined strictly earlier.
pub open spec fn ordered_ok(eqs: Seq<EquationV>, inputs: Seq<Seq<char>>) -> bool {
    forall|i: int, d: Seq<char>|
        0 <= i < eqs.len() && #[trigger] spec_find_dep_eq(eqs[i]).contains(d)
            ==> inputs.contains(d) || names_of(eqs.take(i)).contains(d)
}

/// A key of the map reaches through its own row.
proof fn lemma_lookup_some_has_key(m: DepMap, name: Seq<char>)
    requires
        dep_lookup(m, name) is Some,
    ensures
        dep_has_key(m, name),
    decreases m.len(),
{
    if m.len() > 0 {
        if m[0].0 == name {
        } else {
            lemma_lookup_some_has_key(m.drop_first(), name);
            let i = choose|i: int|
                0 <= i < m.drop_first().len() && (#[trigger] m.drop_first()[i]).0 == name;
            assert(m[i + 1].0 == name);
        }
    }
}

/// If no key reaches itself, no name at all does: a first step out of
/// a name needs a row under it.
proof fn lemma_acyclic_from_keys(m: DepMap)
    requires
        forall|k: int| 0 <= k < m.len() ==> !reaches(m, (#[trigger] m[k]).0, m[k].0),
    ensures
        acyclic(m),
{
    assert forall|x: Seq<char>| !reaches(m, x, x) by {
        if reaches(m, x, x) {
            let n = choose|n: nat| reach_n(m, x, x, n);
            assert(dep_lookup(m, x) is Some) by {
                if dep_edge(m, x, x) {
                } else {
                    let c = choose|c: Seq<char>| #[trigger] dep_edge(m, x, c) && reach_n(
                        m,
                        c,
                        x,
                        (n - 1) as nat,
                    );
                }
            }
            lemma_lookup_some_has_key(m, x);
            let k = choose|k: int| 0 <= k < m.len() && (#[trigger] m[k]).0 == x;
        }
    }
}

/// Scanning forward over keys that do not reach themselves keeps the
/// first self-reaching key the same.
proof fn lemma_find_cycle_skip(m: DepMap, i: int)
    requires
        0 <= i <= m.len(),
        forall|k: int| 0 <= k < i ==> !reaches(m, (#[trigger] m[k]).0, m[k].0),
    ensures
        find_cycle_from(m, 0) == find_cycle_from(m, i),
    decreases i,
{
    if i > 0 {
        lemma_find_cycle_skip(m, i - 1);
        assert(find_cycle_from(m, i - 1) == find_cycle_from(m, i));
    }
}


/// A name defined by one of the equations.
pub open spec fn rest_defined(eqs: Seq<EquationV>, y: Seq<char>) -> bool {
    exists|i: int, j: int|
        0 <= i < eqs.len() && 0 <= j < eqs[i].names.len() && (#[trigger] eqs[i].names[j]) == y
}

/// The names defined by the remaining equations that stand between
/// this equation and placement: its direct dependencies and everything
/// they reach.
spec fn blocked(m: DepMap, eqs: Seq<EquationV>, eq: EquationV) -> Set<Seq<char>> {
    Set::new(
        |y: Seq<char>|
            rest_defined(eqs, y) && (spec_find_dep_eq(eq).contains(y) || exists|d: Seq<char>|
                #[trigger] spec_find_dep_eq(eq).contains(d) && reaches(m, d, y)),
    )
}

proof fn lemma_blocked_finite(m: DepMap, eqs: Seq<EquationV>, eq: EquationV)
    ensures
        blocked(m, eqs, eq).finite(),
        blocked(m, eqs, eq).len() <= names_of(eqs).to_set().len(),
        names_of(eqs).to_set().finite(),
{
    broadcast use vstd::seq_lib::seq_to_set_is_finite;

    let b = blocked(m, eqs, eq);
    let u = names_of(eqs).to_set();
    assert forall|y: Seq<char>| b.contains(y) implies u.contains(y) by {
        let (i, j): (int, int) = choose|i: int, j: int|
            0 <= i < eqs.len() && 0 <= j < eqs[i].names.len() && (#[trigger] eqs[i].names[j])
                == y;
        lemma_names_of_index(eqs, i, j);
    }
    vstd::set_lib::lemma_len_subset(b, u);
}

proof fn lemma_progress_rec(
    m: DepMap,
    inputs: Seq<Seq<char>>,
    placed: Seq<Seq<char>>,
    rest: Seq<EquationV>,
    i: int,
)
    requires
        0 <= i < rest.len(),
        mapped_to(m, rest),
        acyclic(m),
        eqs_deps_wf(rest, inputs, placed + names_of(rest)),
    ensures
        exists|j: int| 0 <= j < rest.len() && spec_placeable(#[trigger] rest[j], placed, inputs),
    decreases blocked(m, rest, rest[i]).len(),
{
    if spec_placeable(rest[i], placed, inputs) {
    } else {
        let d = choose|d: Seq<char>|
            #[trigger] spec_find_dep_eq(rest[i]).contains(d) && !inputs.contains(d)
                && !placed.contains(d);
        assert((placed + names_of(rest)).contains(d));
        assert(names_of(rest).contains(d)) by {
            if placed.contains(d) {
            } else {
                let l = choose|l: int|
                    0 <= l < (placed + names_of(rest)).len() && (placed + names_of(rest))[l]
                        == d;
                assert((placed + names_of(rest))[l] == names_of(rest)[l - placed.len()]);
            }
        }
        lemma_names_of_mem(rest, d);
        let (i2, j2): (int, int) = choose|i2: int, j2: int|
            0 <= i2 < rest.len() && 0 <= j2 < rest[i2].names.len() && (#[trigger] rest[
                i2
            ].names[j2]) == d;
        // the row under d is the dependency set of the equation defining it
        assert(dep_lookup(m, d) == Some(spec_find_dep_eq(rest[i2])));
        let bi = blocked(m, rest, rest[i]);
        let b2 = blocked(m, rest, rest[i2]);
        assert(bi.contains(d)) by {
            assert(rest_defined(rest, d));
        }
        assert(!b2.contains(d)) by {
            if b2.contains(d) {
                if spec_find_dep_eq(rest[i2]).contains(d) {
                    assert(dep_edge(m, d, d));
                    assert(reach_n(m, d, d, 0));
                    assert(reaches(m, d, d));
                } else {
                    let dd = choose|dd: Seq<char>|
                        #[trigger] spec_find_dep_eq(rest[i2]).contains(dd) && reaches(m, dd, d);
                    assert(dep_edge(m, d, dd));
                    lemma_reach_prepend(m, d, dd, d);
                }
            }
        }
        assert forall|z: Seq<char>| b2.contains(z) implies bi.contains(z) by {
            if spec_find_dep_eq(rest[i2]).contains(z) {
                assert(dep_edge(m, d, z));
                assert(reach_n(m, d, z, 0));
                assert(reaches(m, d, z));
                assert(spec_find_dep_eq(rest[i]).contains(d) && reaches(m, d, z));
            } else {
                let dd = choose|dd: Seq<char>|
                    #[trigger] spec_find_dep_eq(rest[i2]).contains(dd) && reaches(m, dd, z);
                assert(dep_edge(m, d, dd));
                lemma_reach_prepend(m, d, dd, z);
                assert(spec_find_dep_eq(rest[i]).contains(d) && reaches(m, d, z));
            }
        }
        lemma_blocked_finite(m, rest, rest[i]);
        lemma_blocked_finite(m, rest, rest[i2]);
        assert(b2.insert(d).subset_of(bi));
        vstd::set_lib::lemma_len_subset(b2.insert(d), bi);
        assert(b2.len() < bi.len());
        lemma_progress_rec(m, inputs, placed, rest, i2);
    }
}

/// While equations remain and the graph is acyclic, some remaining
/// equation can be placed.
proof fn lemma_progress(
    m: DepMap,
    inputs: Seq<Seq<char>>,
    placed: Seq<Seq<char>>,
    rest: Seq<EquationV>,
)
    requires
        rest.len() > 0,
        mapped_to(m, rest),
        acyclic(m),
        eqs_deps_wf(rest, inputs, placed + names_of(rest)),
    ensures
        exists|j: int| 0 <= j < rest.len() && spec_placeable(#[trigger] rest[j], placed, inputs),
{
    lemma_progress_rec(m, inputs, placed, rest, 0);
}


proof fn lemma_lookup_push(m: DepMap, p: (Seq<char>, Seq<Seq<char>>), x: Seq<char>)
    ensures
        dep_has_key(m, x) ==> dep_lookup(m.push(p), x) == dep_lookup(m, x),
        !dep_has_key(m, x) && p.0 == x ==> dep_lookup(m.push(p), x) == Some(p.1),
        !dep_has_key(m, x) && p.0 != x ==> dep_lookup(m.push(p), x) is None,
        dep_lookup(m, x) is Some ==> dep_has_key(m, x),
    decreases m.len(),
{
    if dep_lookup(m, x) is Some {
        lemma_lookup_some_has_key(m, x);
    }
    if m.len() == 0 {
        assert(m.push(p)[0] == p);
        assert(m.push(p).drop_first() =~= Seq::<(Seq<char>, Seq<Seq<char>>)>::empty());
        assert(dep_lookup(Seq::<(Seq<char>, Seq<Seq<char>>)>::empty(), x) is None);
    } else {
        assert(m.push(p)[0] == m[0]);
        assert(m.push(p).drop_first() =~= m.drop_first().push(p));
        lemma_lookup_push(m.drop_first(), p, x);
        if m[0].0 != x {
            assert(dep_has_key(m, x) ==> dep_has_key(m.drop_first(), x)) by {
                if dep_has_key(m, x) {
                    let i = choose|i: int| 0 <= i < m.len() && (#[trigger] m[i]).0 == x;
                    assert(m.drop_first()[i - 1].0 == x);
                }
            }
            assert(dep_has_key(m.drop_first(), x) ==> dep_has_key(m, x)) by {
                if dep_has_key(m.drop_first(), x) {
                    let i = choose|i: int|
                        0 <= i < m.drop_first().len() && (#[trigger] m.drop_first()[i]).0 == x;
                    assert(m[i + 1].0 == x);
                }
            }
        } else {
            assert(dep_has_key(m, x)) by {
                assert((m[0]).0 == x);
            }
        }
    }
}

proof fn lemma_add_eq_facts(m0: DepMap, names: Seq<Seq<char>>, deps: Seq<Seq<char>>)
    requires
        spec_add_eq(m0, names, deps) is Ok,
    ensures
        ({
            let m1 = spec_add_eq(m0, names, deps)->Ok_0;
            &&& forall|x: Seq<char>|
                dep_lookup(m0, x) is Some ==> dep_lookup(m1, x) == dep_lookup(m0, x)
            &&& forall|j: int|
                0 <= j < names.len() ==> dep_lookup(m1, #[trigger] names[j]) == Some(deps)
            &&& forall|x: Seq<char>|
                #[trigger] dep_has_key(m1, x) ==> dep_has_key(m0, x) || names.contains(x)
        }),
    decreases names.len(),
{
    if names.len() == 0 {
    } else {
        let mp = m0.push((names[0], deps));
        lemma_add_eq_facts(mp, names.drop_first(), deps);
        let m1 = spec_add_eq(m0, names, deps)->Ok_0;
        assert forall|x: Seq<char>|
            dep_lookup(m0, x) is Some implies dep_lookup(m1, x) == dep_lookup(m0, x) by {
            lemma_lookup_push(m0, (names[0], deps), x);
        }
        assert forall|j: int|
            0 <= j < names.len() implies dep_lookup(m1, #[trigger] names[j]) == Some(deps) by {
            if j == 0 {
                lemma_lookup_push(m0, (names[0], deps), names[0]);
                assert(dep_lookup(mp, names[0]) == Some(deps));
            } else {
                assert(names.drop_first()[j - 1] == names[j]);
            }
        }
        assert forall|x: Seq<char>|
            #[trigger] dep_has_key(m1, x) implies dep_has_key(m0, x) || names.contains(x) by {
            if dep_has_key(m1, x) {
                if dep_has_key(mp, x) || names.drop_first().contains(x) {
                    if dep_has_key(mp, x) {
                        let i = choose|i: int| 0 <= i < mp.len() && (#[trigger] mp[i]).0 == x;
                        if i < m0.len() {
                            assert(m0[i].0 == x);
                        } else {
                            assert(x == names[0]);
                        }
                    } else {
                        let l = choose|l: int|
                            0 <= l < names.drop_first().len() && names.drop_first()[l] == x;
                        assert(names[l + 1] == x);
                    }
                }
            }
        }
    }
}

/// In the map a body builds, each defined name is mapped to its
/// equation's dependency set.
proof fn lemma_dep_map_mapped(eqs: Seq<EquationV>, m0: DepMap)
    requires
        spec_dep_map(eqs, m0) is Ok,
    ensures
        ({
            let m = spec_dep_map(eqs, m0)->Ok_0;
            &&& forall|x: Seq<char>|
                dep_lookup(m0, x) is Some ==> dep_lookup(m, x) == dep_lookup(m0, x)
            &&& mapped_to(m, eqs)
        }),
    decreases eqs.len(),
{
    if eqs.len() == 0 {
    } else {
        let m1 = spec_add_eq(m0, eqs[0].names, spec_find_dep_eq(eqs[0]))->Ok_0;
        lemma_add_eq_facts(m0, eqs[0].names, spec_find_dep_eq(eqs[0]));
        lemma_dep_map_mapped(eqs.drop_first(), m1);
        let m = spec_dep_map(eqs, m0)->Ok_0;
        assert forall|i: int, j: int|
            0 <= i < eqs.len() && 0 <= j < eqs[i].names.len() implies dep_lookup(
            m,
            (#[trigger] eqs[i].names[j]),
        ) == Some(spec_find_dep_eq(eqs[i])) by {
            if i == 0 {
                assert(dep_lookup(m1, eqs[0].names[j]) == Some(spec_find_dep_eq(eqs[0])));
            } else {
                assert(eqs.drop_first()[i - 1] == eqs[i]);
            }
        }
    }
}

/// Whether every dependency of this equation is an input or among the
/// given names.
fn is_placeable(eq: &Equation, placed_names: &Vec<String>, inputs: &Vec<String>) -> (b: bool)
    ensures
        b == spec_placeable(eq@, strings_view(placed_names@), strings_view(inputs@)),
{
    let deps = find_dep_eq(eq);
    let mut i: usize = 0;
    while i < deps.len()
        invariant
            i <= deps.len(),
            strings_view(deps@) =~= spec_find_dep_eq(eq@),
            forall|k: int|
                0 <= k < i ==> strings_view(inputs@).contains(
                    #[trigger] strings_view(deps@)[k],
                ) || strings_view(placed_names@).contains(strings_view(deps@)[k]),
        decreases deps.len() - i,
    {
        let in_inputs = contains_str(inputs, &deps[i]);
        let mut in_placed = true;
        if !in_inputs {
            in_placed = contains_str(placed_names, &deps[i]);
        }
        if !in_inputs && !in_placed {
            proof {
                assert(strings_view(deps@)[i as int] == deps@[i as int]@);
                assert(spec_find_dep_eq(eq@).contains(strings_view(deps@)[i as int]));
            }
            return false;
        }
        proof {
            assert(strings_view(deps@)[i as int] == deps@[i as int]@);
        }
        i = i + 1;
    }
    proof {
        assert forall|d: Seq<char>|
            #[trigger] spec_find_dep_eq(eq@).contains(d) implies strings_view(
            inputs@,
        ).contains(d) || strings_view(placed_names@).contains(d) by {
            let k = choose|k: int|
                0 <= k < strings_view(deps@).len() && strings_view(deps@)[k] == d;
        }
    }
    true
}

/// Places equations greedily: always the first whose dependencies are
/// inputs or already placed.
fn order(body: Vec<Equation>, inputs: &Vec<String>, Ghost(m): Ghost<DepMap>) -> (r: Vec<
    Equation,
>)
    requires
        mapped_to(m, crate::nast::equations_view(body@)),
        acyclic(m),
        eqs_deps_wf(
            crate::nast::equations_view(body@),
            strings_view(inputs@),
            names_of(crate::nast::equations_view(body@)),
        ),
    ensures
        crate::nast::equations_view(r@) =~= spec_order(
            Seq::empty(),
            crate::nast::equations_view(body@),
            strings_view(inputs@),
        ),
        crate::nast::equations_view(r@).to_multiset() == crate::nast::equations_view(
            body@,
        ).to_multiset(),
        ordered_ok(crate::nast::equations_view(r@), strings_view(inputs@)),
{
    let ghost body0 = crate::nast::equations_view(body@);
    let ghost iv = strings_view(inputs@);
    let mut rest = body;
    let mut placed: Vec<Equation> = Vec::new();
    let mut placed_names: Vec<String> = Vec::new();
    proof {
        assert(Seq::<Seq<char>>::empty() + names_of(body0) =~= names_of(body0));
        assert(crate::nast::equations_view(placed@) =~= Seq::<EquationV>::empty());
        assert(names_of(Seq::<EquationV>::empty()) =~= Seq::<Seq<char>>::empty());
        assert(strings_view(placed_names@) =~= names_of(
            crate::nast::equations_view(placed@),
        ));
        assert(crate::nast::equations_view(placed@).to_multiset()
            =~= vstd::multiset::Multiset::<EquationV>::empty());
        assert(crate::nast::equations_view(placed@).to_multiset().add(
            crate::nast::equations_view(rest@).to_multiset(),
        ) =~= crate::nast::equations_view(rest@).to_multiset());
    }
    while rest.len() > 0
        invariant
            iv == strings_view(inputs@),
            mapped_to(m, crate::nast::equations_view(rest@)),
            acyclic(m),
            eqs_deps_wf(
                crate::nast::equations_view(rest@),
                iv,
                strings_view(placed_names@) + names_of(crate::nast::equations_view(rest@)),
            ),
            strings_view(placed_names@) == names_of(crate::nast::equations_view(placed@)),
            spec_order(
                crate::nast::equations_view(placed@),
                crate::nast::equations_view(rest@),
                iv,
            ) == spec_order(Seq::empty(), body0, iv),
            crate::nast::equations_view(placed@).to_multiset().add(
                crate::nast::equations_view(rest@).to_multiset(),
            ) == body0.to_multiset(),
            forall|k: int|
                0 <= k < crate::nast::equations_view(placed@).len() ==> spec_placeable(
                    #[trigger] crate::nast::equations_view(placed@)[k],
                    names_of(crate::nast::equations_view(placed@).take(k)),
                    iv,
                ),
        decreases rest@.len(),
    {
        let ghost pv = crate::nast::equations_view(placed@);
        let ghost rv = crate::nast::equations_view(rest@);
        let mut j: usize = 0;
        let mut found = false;
        while j < rest.len() && !found
            invariant
                j <= rest.len(),
                rv == crate::nast::equations_view(rest@),
                strings_view(placed_names@) == names_of(crate::nast::equations_view(placed@)),
                iv == strings_view(inputs@),
                forall|l: int|
                    0 <= l < j ==> !spec_placeable(
                        #[trigger] rv[l],
                        strings_view(placed_names@),
                        iv,
                    ),
                found ==> j < rest@.len() && spec_placeable(
                    rv[j as int],
                    strings_view(placed_names@),
                    iv,
                ),
            decreases rest.len() - j, (if found { 0int } else { 1int }),
        {
            if is_placeable(&rest[j], &placed_names, inputs) {
                found = true;
            } else {
                j = j + 1;
            }
        }
        if !found {
            proof {
                assert(strings_view(placed_names@) + names_of(rv) == names_of(pv) + names_of(
                    rv,
                ));
                lemma_progress(m, iv, strings_view(placed_names@), rv);
                let jj = choose|jj: int|
                    0 <= jj < rv.len() && spec_placeable(
                        #[trigger] rv[jj],
                        strings_view(placed_names@),
                        iv,
                    );
                assert(false);
            }
            return unreached();
        }
        proof {
            lemma_find_placeable_at(rv, strings_view(placed_names@), iv, j as int);
        }
        let eq = rest.remove(j);
        let ghost eqv = eq@;
        proof {
            assert(rv[j as int] == eqv);
        }
        let mut extra = crate::ast::clone_strings(&eq.names);
        let ghost extran = strings_view(extra@);
        placed_names.append(&mut extra);
        placed.push(eq);
        proof {
            let pv2 = crate::nast::equations_view(placed@);
            let rv2 = crate::nast::equations_view(rest@);
            assert(rv2 =~= rv.remove(j as int));
            assert(pv2 =~= pv.push(eqv));
            lemma_names_of_push(pv, eqv);
            assert(extran =~= eqv.names);
            assert(strings_view(placed_names@) =~= names_of(pv) + eqv.names);
            assert(strings_view(placed_names@) == names_of(pv2));
            // the greedy step keeps the total order unchanged
            assert(spec_order(pv2, rv2, iv) == spec_order(Seq::empty(), body0, iv));
            // permutation is kept
            assert(pv2.to_multiset().add(rv2.to_multiset()) == body0.to_multiset()) by {
                assert(pv2.to_multiset() == pv.push(eqv).to_multiset());
                assert(pv.push(eqv).to_multiset() =~= pv.to_multiset().insert(eqv));
                assert(rv2.to_multiset() == rv.remove(j as int).to_multiset());
                assert(rv.remove(j as int).to_multiset() =~= rv.to_multiset().remove(rv[j as int]));
                assert(rv.to_multiset().count(eqv) > 0) by {
                    assert(rv.contains(eqv));
                }
                assert(pv.to_multiset().insert(eqv).add(rv.to_multiset().remove(eqv))
                    =~= pv.to_multiset().add(rv.to_multiset()));
            }
            // earlier placements stay justified
            assert forall|k: int| 0 <= k < pv2.len() implies spec_placeable(
                #[trigger] pv2[k],
                names_of(pv2.take(k)),
                iv,
            ) by {
                if k < pv.len() {
                    assert(pv2.take(k) =~= pv.take(k));
                    assert(pv2[k] == pv[k]);
                } else {
                    assert(pv2.take(k) =~= pv);
                    assert(pv2[k] == eqv);
                }
            }
            // the map still covers the remaining equations
            assert forall|i2: int, j2: int|
                0 <= i2 < rv2.len() && 0 <= j2 < rv2[i2].names.len() implies dep_lookup(
                m,
                (#[trigger] rv2[i2].names[j2]),
            ) == Some(spec_find_dep_eq(rv2[i2])) by {
                if i2 < j {
                    assert(rv2[i2] == rv[i2]);
                } else {
                    assert(rv2[i2] == rv[i2 + 1]);
                }
            }
            // remaining dependencies still point at inputs, placed
            // names, or remaining definitions
            assert forall|i2: int, d: Seq<char>|
                0 <= i2 < rv2.len() && #[trigger] spec_find_dep_eq(rv2[i2]).contains(d)
                implies iv.contains(d) || (strings_view(placed_names@) + names_of(
                rv2,
            )).contains(d) by {
                let old_eq = if i2 < j {
                    rv[i2]
                } else {
                    rv[i2 + 1]
                };
                assert(spec_find_dep_eq(old_eq).contains(d));
                if !iv.contains(d) {
                    assert((names_of(pv) + names_of(rv)).contains(d));
                    if names_of(pv).contains(d) {
                        let l = choose|l: int|
                            0 <= l < names_of(pv).len() && names_of(pv)[l] == d;
                        assert((strings_view(placed_names@))[l] == d);
                        assert((strings_view(placed_names@) + names_of(rv2))[l] == d);
                    } else {
                        let l = choose|l: int|
                            0 <= l < (names_of(pv) + names_of(rv)).len() && (names_of(pv)
                                + names_of(rv))[l] == d;
                        assert(names_of(rv)[l - names_of(pv).len()] == d);
                        lemma_names_of_mem(rv, d);
                        let (a, b): (int, int) = choose|a: int, b: int|
                            0 <= a < rv.len() && 0 <= b < rv[a].names.len() && (#[trigger] rv[
                                a
                            ].names[b]) == d;
                        if a == j {
                            let pnl = strings_view(placed_names@);
                            assert(pnl[names_of(pv).len() + b] == d);
                            assert((pnl + names_of(rv2))[names_of(pv).len() + b] == d);
                        } else {
                            let a2 = if a < j {
                                a
                            } else {
                                a - 1
                            };
                            assert(rv2[a2] == rv[a]);
                            lemma_names_of_index(rv2, a2, b);
                            let l2 = choose|l2: int|
                                0 <= l2 < names_of(rv2).len() && names_of(rv2)[l2] == d;
                            assert((strings_view(placed_names@) + names_of(rv2))[strings_view(
                                placed_names@,
                            ).len() + l2] == d);
                        }
                    }
                }
            }
        }
    }
    proof {
        let pv = crate::nast::equations_view(placed@);
        assert(crate::nast::equations_view(rest@).len() == 0);
        assert(spec_order(pv, crate::nast::equations_view(rest@), iv) == pv);
        assert(crate::nast::equations_view(rest@).to_multiset() =~= vstd::multiset::Multiset::<EquationV>::empty());
        assert(pv.to_multiset().add(vstd::multiset::Multiset::<EquationV>::empty()) =~= pv.to_multiset());
        assert forall|i: int, d: Seq<char>|
            0 <= i < pv.len() && #[trigger] spec_find_dep_eq(pv[i]).contains(d) implies
            iv.contains(d) || names_of(pv.take(i)).contains(d) by {
            assert(spec_placeable(pv[i], names_of(pv.take(i)), iv));
        }
    }
    placed
}


/// What sequentialization does to one node: reject a name defined
/// twice, then a name that instantaneously needs itself, and otherwise
/// reorder the body greedily.
pub open spec fn spec_sequentialize_node(n: NodeV) -> Result<NodeV, crate::error::CompileErrorV> {
    match spec_dep_map(n.body, Seq::empty()) {
        Err(name) => Err(
            crate::error::CompileErrorV::DuplicateDefinition { node: n.name, name },
        ),
        Ok(m) => {
            let ci = find_cycle_from(m, 0);
            if ci >= 0 {
                Err(crate::error::CompileErrorV::Cycle { node: n.name, name: m[ci].0 })
            } else {
                Ok(
                    NodeV {
                        name: n.name,
                        args_in: n.args_in,
                        args_out: n.args_out,
                        locals: n.locals,
                        body: spec_order(
                            Seq::empty(),
                            n.body,
                            crate::normalizer::local_names(n.args_in),
                        ),
                    },
                )
            }
        },
    }
}

/// The whole program, node by node; the first failing node decides.
pub open spec fn spec_sequentialize(prog: Seq<NodeV>) -> Result<
    Seq<NodeV>,
    crate::error::CompileErrorV,
>
    decreases prog.len(),
{
    if prog.len() == 0 {
        Ok(Seq::empty())
    } else {
        match spec_sequentialize_node(prog[0]) {
            Err(e) => Err(e),
            Ok(n0) => match spec_sequentialize(prog.drop_first()) {
                Err(e) => Err(e),
                Ok(rest) => Ok(seq![n0] + rest),
            },
        }
    }
}

/// The names of a node's inputs.
fn input_names(args_in: &Vec<(String, Type)>) -> (r: Vec<String>)
    ensures
        strings_view(r@) =~= crate::normalizer::local_names(crate::ast::args_view(args_in@)),
{
    let mut r: Vec<String> = Vec::new();
    let mut i: usize = 0;
    while i < args_in.len()
        invariant
            i <= args_in.len(),
            r@.len() == i,
            forall|k: int| 0 <= k < i ==> (#[trigger] r@[k])@ == args_in@[k].0@,
        decreases args_in.len() - i,
    {
        r.push(args_in[i].0.clone());
        i = i + 1;
    }
    proof {
        let lhs = strings_view(r@);
        let rhs = crate::normalizer::local_names(crate::ast::args_view(args_in@));
        assert forall|k: int| 0 <= k < lhs.len() implies lhs[k] == rhs[k] by {
            assert(lhs[k] == r@[k]@);
            assert(crate::ast::args_view(args_in@)[k] == (args_in@[k].0@, args_in@[k].1));
            assert(rhs[k] == crate::ast::args_view(args_in@)[k].0);
        }
    }
    r
}

/// Whether every name an equation of this node reads instantaneously
/// is an input or defined by one of its equations — what
/// `sequentialize` asks of its input.
pub fn check_node_deps(n: &Node) -> (b: bool)
    ensures
        b == node_deps_wf(n@),
{
    let inputs = input_names(&n.args_in);
    let mut defined: Vec<String> = Vec::new();
    let mut i: usize = 0;
    while i < n.body.len()
        invariant
            i <= n.body.len(),
            strings_view(defined@) =~= names_of(
                crate::nast::equations_view(n.body@).take(i as int),
            ),
        decreases n.body.len() - i,
    {
        let ghost bv = crate::nast::equations_view(n.body@);
        let mut extra = crate::ast::clone_strings(&n.body[i].names);
        let ghost extran = strings_view(extra@);
        defined.append(&mut extra);
        proof {
            assert(bv.take(i as int + 1) =~= bv.take(i as int).push(bv[i as int]));
            lemma_names_of_push(bv.take(i as int), bv[i as int]);
            assert(extran =~= bv[i as int].names);
            assert(strings_view(defined@) =~= names_of(bv.take(i as int)) + bv[i as int].names);
        }
        i = i + 1;
    }
    proof {
        let bv = crate::nast::equations_view(n.body@);
        assert(bv.take(bv.len() as int) =~= bv);
    }
    let mut k: usize = 0;
    while k < n.body.len()
        invariant
            k <= n.body.len(),
            strings_view(defined@) =~= names_of(crate::nast::equations_view(n.body@)),
            strings_view(inputs@) =~= crate::normalizer::local_names(n@.args_in),
            forall|l: int|
                0 <= l < k ==> spec_placeable(
                    #[trigger] crate::nast::equations_view(n.body@)[l],
                    strings_view(defined@),
                    strings_view(inputs@),
                ),
        decreases n.body.len() - k,
    {
        if !is_placeable(&n.body[k], &defined, &inputs) {
            proof {
                assert(!spec_placeable(
                    crate::nast::equations_view(n.body@)[k as int],
                    names_of(n@.body),
                    crate::normalizer::local_names(n@.args_in),
                ));
                let d = choose|d: Seq<char>|
                    #[trigger] spec_find_dep_eq(n@.body[k as int]).contains(d)
                        && !crate::normalizer::local_names(n@.args_in).contains(d) && !names_of(
                        n@.body,
                    ).contains(d);
            }
            return false;
        }
        k = k + 1;
    }
    proof {
        assert forall|i2: int, d: Seq<char>|
            0 <= i2 < n@.body.len() && #[trigger] spec_find_dep_eq(n@.body[i2]).contains(d)
            implies crate::normalizer::local_names(n@.args_in).contains(d) || names_of(
            n@.body,
        ).contains(d) by {
            assert(spec_placeable(
                crate::nast::equations_view(n.body@)[i2],
                strings_view(defined@),
                strings_view(inputs@),
            ));
        }
    }
    true
}

fn sequentialize_node(n: &Node) -> (r: Result<Node, CompileError>)
    requires
        node_deps_wf(n@),
    ensures
        (r is Ok) == (spec_sequentialize_node(n@) is Ok),
        r matches Ok(out) ==> spec_sequentialize_node(n@) matches Ok(o) && out@ =~= o,
        r matches Err(e) ==> spec_sequentialize_node(n@) matches Err(ev) && e@ =~= ev,
        r matches Ok(out) ==> out@.body.to_multiset() == n@.body.to_multiset(),
        r matches Ok(out) ==> ordered_ok(
            out@.body,
            crate::normalizer::local_names(n@.args_in),
        ),
{
    let ghost bv = crate::nast::equations_view(n.body@);
    let mut depm: Vec<(String, Vec<String>)> = Vec::new();
    proof {
        assert(bv.skip(0) =~= bv);
        assert(dep_view(depm@) =~= Seq::<(Seq<char>, Seq<Seq<char>>)>::empty());
    }
    match build_dep_map(&n.body, 0, &mut depm) {
        Err(name) => {
            return Err(CompileError::DuplicateDefinition { node: n.name.clone(), name });
        },
        Ok(()) => {},
    }
    let ghost m = dep_view(depm@);
    proof {
        assert(spec_dep_map(bv, Seq::empty()) == Ok::<DepMap, Seq<char>>(m));
    }
    let closed = propagate(&depm);
    let mut ci: usize = 0;
    while ci < closed.len()
        invariant
            closed@.len() == depm@.len(),
            m == dep_view(depm@),
            spec_dep_map(crate::nast::equations_view(n.body@), Seq::empty())
                == Ok::<DepMap, Seq<char>>(m),
            ci <= closed@.len(),
            forall|k: int| 0 <= k < closed@.len() ==> (#[trigger] closed@[k]).0@ == depm@[k].0@,
            forall|k: int|
                0 <= k < closed@.len() ==> strings_view((#[trigger] closed@[k]).1@).no_duplicates(),
            forall|k: int, x: Seq<char>|
                0 <= k < closed@.len() ==> (#[trigger] strings_view(closed@[k].1@).contains(x)
                    <==> reaches(m, depm@[k].0@, x)),
            forall|k: int| 0 <= k < ci ==> !reaches(m, (#[trigger] m[k]).0, m[k].0),
        decreases closed.len() - ci,
    {
        if contains_str(&closed[ci].1, &closed[ci].0) {
            proof {
                assert(reaches(m, depm@[ci as int].0@, closed@[ci as int].0@));
                assert(m[ci as int].0 == depm@[ci as int].0@);
                assert(reaches(m, m[ci as int].0, m[ci as int].0));
                lemma_find_cycle_skip(m, ci as int);
                assert(find_cycle_from(m, ci as int) == ci as int);
            }
            return Err(
                CompileError::Cycle { node: n.name.clone(), name: closed[ci].0.clone() },
            );
        }
        proof {
            assert(!strings_view(closed@[ci as int].1@).contains(closed@[ci as int].0@));
            assert(m[ci as int].0 == depm@[ci as int].0@);
            assert(!reaches(m, m[ci as int].0, m[ci as int].0));
        }
        ci = ci + 1;
    }
    proof {
        lemma_find_cycle_skip(m, m.len() as int);
        assert(find_cycle_from(m, m.len() as int) == -1);
        lemma_acyclic_from_keys(m);
        lemma_dep_map_mapped(bv, Seq::empty());
    }
    let inputs = input_names(&n.args_in);
    let mut body2: Vec<Equation> = Vec::new();
    let mut bi: usize = 0;
    while bi < n.body.len()
        invariant
            bi <= n.body.len(),
            body2@.len() == bi,
            forall|k: int| 0 <= k < bi ==> (#[trigger] body2@[k])@ == n.body@[k]@,
        decreases n.body.len() - bi,
    {
        body2.push(n.body[bi].clone());
        bi = bi + 1;
    }
    proof {
        assert(crate::nast::equations_view(body2@) =~= bv);
    }
    let ordered = order(body2, &inputs, Ghost(m));
    let out = Node {
        name: n.name.clone(),
        args_in: crate::ast::clone_args(&n.args_in),
        args_out: crate::ast::clone_args(&n.args_out),
        locals: crate::ast::clone_strings(&n.locals),
        body: ordered,
    };
    proof {
        match spec_sequentialize_node(n@) {
            Ok(o) => {
                assert(out@ =~= o);
            },
            Err(_) => {
                assert(false);
            },
        }
    }
    Ok(out)
}

fn sequentialize_list(f: &Vec<Node>, i: usize) -> (r: Result<Vec<Node>, CompileError>)
    requires
        i <= f.len(),
        forall|k: int|
            0 <= k < f@.len() ==> node_deps_wf(#[trigger] crate::nast::program_view(f@)[k]),
    ensures
        (r is Ok) == (spec_sequentialize(crate::nast::program_view(f@).skip(i as int)) is Ok),
        r matches Ok(out) ==> spec_sequentialize(crate::nast::program_view(f@).skip(i as int))
            matches Ok(o) && crate::nast::program_view(out@) =~= o,
        r matches Err(e) ==> spec_sequentialize(crate::nast::program_view(f@).skip(i as int))
            matches Err(ev) && e@ =~= ev,
    decreases f@.len() - i,
{
    let ghost tail = crate::nast::program_view(f@).skip(i as int);
    if i == f.len() {
        proof {
            assert(tail =~= Seq::<NodeV>::empty());
        }
        Ok(Vec::new())
    } else {
        proof {
            assert(tail[0] == f@[i as int]@);
            assert(crate::nast::program_view(f@)[i as int] == f@[i as int]@);
            assert(tail.drop_first() =~= crate::nast::program_view(f@).skip(i as int + 1));
        }
        match sequentialize_node(&f[i]) {
            Err(e) => Err(e),
            Ok(n0) => {
                match sequentialize_list(f, i + 1) {
                    Err(e) => Err(e),
                    Ok(rest) => {
                        let ghost nv = n0@;
                        let mut out = rest;
                        out.insert(0, n0);
                        proof {
                            assert(crate::nast::program_view(out@) =~= seq![nv]
                                + crate::nast::program_view(out@.drop_first()));
                        }
                        Ok(out)
                    },
                }
            },
        }
    }
}

/// Reorders every node's body into dependency order, or reports the
/// first duplicate definition or instantaneous cycle.
pub fn sequentialize(f: &Vec<Node>) -> (r: Result<Vec<Node>, CompileError>)
    requires
        forall|k: int|
            0 <= k < f@.len() ==> node_deps_wf(#[trigger] crate::nast::program_view(f@)[k]),
    ensures
        (r is Ok) == (spec_sequentialize(crate::nast::program_view(f@)) is Ok),
        r matches Ok(out) ==> spec_sequentialize(crate::nast::program_view(f@)) matches Ok(o)
            && crate::nast::program_view(out@) =~= o,
        r matches Err(e) ==> spec_sequentialize(crate::nast::program_view(f@)) matches Err(ev)
            && e@ =~= ev,
{
    proof {
        assert(crate::nast::program_view(f@).skip(0) =~= crate::nast::program_view(f@));
    }
    sequentialize_list(f, 0)
}


/// Whether every node of the program meets `node_deps_wf` — what
/// `sequentialize` asks of its input.
pub fn check_deps(f: &Vec<Node>) -> (b: bool)
    ensures
        b == (forall|k: int|
            0 <= k < f@.len() ==> node_deps_wf(#[trigger] crate::nast::program_view(f@)[k])),
{
    let mut i: usize = 0;
    while i < f.len()
        invariant
            i <= f.len(),
            forall|k: int|
                0 <= k < i ==> node_deps_wf(#[trigger] crate::nast::program_view(f@)[k]),
        decreases f.len() - i,
    {
        if !check_node_deps(&f[i]) {
            proof {
                assert(crate::nast::program_view(f@)[i as int] == f@[i as int]@);
            }
            return false;
        }
        proof {
            assert(crate::nast::program_view(f@)[i as int] == f@[i as int]@);
        }
        i = i + 1;
    }
    true
}


proof fn lemma_spec_order_mem(
    placed: Seq<EquationV>,
    rest: Seq<EquationV>,
    inputs: Seq<Seq<char>>,
)
    ensures
        forall|i: int|
            0 <= i < spec_order(placed, rest, inputs).len() ==> placed.contains(
                #[trigger] spec_order(placed, rest, inputs)[i],
            ) || rest.contains(spec_order(placed, rest, inputs)[i]),
    decreases rest.len(),
{
    let res = spec_order(placed, rest, inputs);
    if rest.len() == 0 {
        assert forall|i: int| 0 <= i < res.len() implies placed.contains(#[trigger] res[i])
            || rest.contains(res[i]) by {
            assert(placed[i] == res[i]);
        }
    } else {
        let j = find_placeable(rest, names_of(placed), inputs);
        if 0 <= j < rest.len() {
            let p2 = placed.push(rest[j]);
            let r2 = rest.remove(j);
            lemma_spec_order_mem(p2, r2, inputs);
            assert forall|i: int| 0 <= i < res.len() implies placed.contains(
                #[trigger] res[i],
            ) || rest.contains(res[i]) by {
                assert(res == spec_order(p2, r2, inputs));
                assert(p2.contains(spec_order(p2, r2, inputs)[i]) || r2.contains(
                    spec_order(p2, r2, inputs)[i],
                ));
                assert(p2.contains(res[i]) || r2.contains(res[i]));
                if p2.contains(res[i]) {
                    let l = choose|l: int| 0 <= l < p2.len() && p2[l] == res[i];
                    if l < placed.len() {
                        assert(placed[l] == res[i]);
                    } else {
                        assert(rest[j] == res[i]);
                    }
                } else {
                    let l = choose|l: int| 0 <= l < r2.len() && r2[l] == res[i];
                    if l < j {
                        assert(rest[l] == res[i]);
                    } else {
                        assert(rest[l + 1] == res[i]);
                    }
                }
            }
        } else {
            assert forall|i: int| 0 <= i < res.len() implies placed.contains(
                #[trigger] res[i],
            ) || rest.contains(res[i]) by {
                if i < placed.len() {
                    assert(placed[i] == res[i]);
                } else {
                    assert(rest[i - placed.len()] == res[i]);
                }
            }
        }
    }
}

/// Reordering keeps every equation, so a node ready for emission stays
/// ready after sequentialization.
pub proof fn lemma_sequentialize_preserves_emit_ready(n: NodeV)
    requires
        crate::rustfmt::node_emit_ready(n),
        spec_sequentialize_node(n) is Ok,
    ensures
        crate::rustfmt::node_emit_ready(spec_sequentialize_node(n)->Ok_0),
{
    let o = spec_sequentialize_node(n)->Ok_0;
    lemma_spec_order_mem(
        Seq::empty(),
        n.body,
        crate::normalizer::local_names(n.args_in),
    );
    assert forall|i: int| 0 <= i < o.body.len() implies crate::rustfmt::eq_emit_ready(
        #[trigger] o.body[i],
    ) by {
        assert(Seq::<EquationV>::empty().contains(o.body[i]) || n.body.contains(o.body[i]));
        let l = choose|l: int| 0 <= l < n.body.len() && n.body[l] == o.body[i];
        assert(crate::rustfmt::eq_emit_ready(n.body[l]));
    }
}


/// Reordering also keeps every equation's normal-form shape, so
/// re-normalizing a sequentialized node is still the identity (see
/// `normalizer::lemma_normalize_idempotent`): the round trip changes
/// nothing but the order fixed here.
pub proof fn lemma_sequentialize_preserves_normal_form(n: NodeV)
    requires
        crate::normalizer::is_normal_node(n),
        spec_sequentialize_node(n) is Ok,
    ensures
        crate::normalizer::is_normal_node(spec_sequentialize_node(n)->Ok_0),
{
    let o = spec_sequentialize_node(n)->Ok_0;
    lemma_spec_order_mem(
        Seq::empty(),
        n.body,
        crate::normalizer::local_names(n.args_in),
    );
    assert forall|i: int| 0 <= i < o.body.len() implies crate::normalizer::renorm_stable_expr(
        (#[trigger] o.body[i]).body,
    ) by {
        assert(Seq::<EquationV>::empty().contains(o.body[i]) || n.body.contains(o.body[i]));
        let l = choose|l: int| 0 <= l < n.body.len() && n.body[l] == o.body[i];
        assert(crate::normalizer::renorm_stable_expr(n.body[l].body));
    }
}

} // verus!