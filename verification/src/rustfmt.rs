//! Emission: a normalized, sequentialized program becomes Rust source
//! text.  This stage also lowers the delay operator.
//!
//! Each node first gets a memory, if it needs one: one field per name
//! defined by a `fby` equation, initialized with the constant on the
//! left of the operator, and one field per call to a node that itself
//! has a memory.  A node with a memory translates to a function taking
//! a mutable reference to it as its first parameter.  A `fby` body
//! reads the memory field; a footer updates every delay field to its
//! next value after all reads; a call to a stateful node borrows the
//! field that holds the callee's memory.  The entry point runs the last
//! node of the program ten times on values read from standard input.
//!
//! The `spec_*_text` functions state the emitted text exactly; every
//! writer is proved to append precisely that text.

use vstd::prelude::*;

use crate::ast::{Type, Const, Unop, Binop, ConstV, strings_view};
use crate::nast::{Atom, Bexpr, Expr, Equation, Node, AtomV, BexprV, ExprV, EquationV, NodeV};
use crate::error::CompileError;
use crate::text::{int_str, push_int};

verus! {

broadcast use vstd::std_specs::vec::axiom_vec_index_decreases;

/// The text of a constant: the unit value, a boolean, a decimal
/// integer, the float literal as written in the source, or a quoted
/// string.
pub open spec fn spec_const_text(c: ConstV) -> Seq<char> {
    match c {
        ConstV::Unit => "()"@,
        ConstV::Bool(b) => if b {
            "true"@
        } else {
            "false"@
        },
        ConstV::Int(i) => int_str(i),
        ConstV::Float(s) => s,
        ConstV::Str(s) => "\""@ + s + "\""@,
    }
}

pub open spec fn spec_atom_text(a: AtomV) -> Seq<char> {
    match a {
        AtomV::Const(c) => spec_const_text(c),
        AtomV::Ident(s) => s,
    }
}

pub open spec fn spec_unop_text(op: Unop) -> Seq<char> {
    match op {
        Unop::Minus | Unop::MinusDot => "-"@,
        Unop::Not => "!"@,
    }
}

pub open spec fn spec_binop_text(op: Binop) -> Seq<char> {
    match op {
        Binop::Plus | Binop::PlusDot => "+"@,
        Binop::Minus | Binop::MinusDot => "-"@,
        Binop::Mult | Binop::MultDot => "*"@,
        Binop::Div | Binop::DivDot => "/"@,
        Binop::Lt => "<"@,
        Binop::Gt => ">"@,
        Binop::Leq => "<="@,
        Binop::Geq => ">="@,
        Binop::Eq => "=="@,
        Binop::And => "&&"@,
        Binop::Or => "||"@,
    }
}

/// The text of a basic expression.  The int and float variant of an
/// operator emit the same target operator; a conditional is emitted in
/// expression position; a tuple is the target's tuple.
pub open spec fn spec_bexpr_text(e: BexprV) -> Seq<char>
    decreases e,
{
    match e {
        BexprV::Atom(a) => spec_atom_text(a),
        BexprV::Unop(op, e1) => spec_unop_text(op) + " "@ + spec_bexpr_text(*e1),
        BexprV::Binop(op, e1, e2) => spec_bexpr_text(*e1) + " "@ + spec_binop_text(op) + " "@
            + spec_bexpr_text(*e2),
        BexprV::If(c, t, f) => "if "@ + spec_bexpr_text(*c) + " { "@ + spec_bexpr_text(*t)
            + " } else { "@ + spec_bexpr_text(*f) + " }"@,
        BexprV::Tuple(es) => if es.len() == 0 {
            "()"@
        } else {
            "("@ + spec_bexpr_text(es[0]) + spec_bexpr_rest_text(es.drop_first()) + ")"@
        },
    }
}

/// The elements after the first, each behind a comma.
pub open spec fn spec_bexpr_rest_text(es: Seq<BexprV>) -> Seq<char>
    decreases es,
{
    if es.len() == 0 {
        Seq::empty()
    } else {
        ", "@ + spec_bexpr_text(es[0]) + spec_bexpr_rest_text(es.drop_first())
    }
}

fn push_str_lit(out: &mut String, s: &str)
    ensures
        final(out)@ == old(out)@ + s@,
{
    out.append(s);
}

fn push_string(out: &mut String, s: &String)
    ensures
        final(out)@ == old(out)@ + s@,
{
    out.append(s.as_str());
}

fn push_const(out: &mut String, c: &Const)
    ensures
        final(out)@ == old(out)@ + spec_const_text(c@),
{
    match c {
        Const::Unit => push_str_lit(out, "()"),
        Const::Bool(b) => {
            if *b {
                push_str_lit(out, "true");
            } else {
                push_str_lit(out, "false");
            }
        },
        Const::Int(i) => push_int(out, *i),
        Const::Float(s) => push_string(out, s),
        Const::Str(s) => {
            push_str_lit(out, "\"");
            push_string(out, s);
            push_str_lit(out, "\"");
            proof {
                assert(out@ =~= old(out)@ + spec_const_text(c@));
            }
        },
    }
}

fn push_atom(out: &mut String, a: &Atom)
    ensures
        final(out)@ == old(out)@ + spec_atom_text(a@),
{
    match a {
        Atom::Const(c) => push_const(out, c),
        Atom::Ident(s) => push_string(out, s),
    }
}

fn push_unop(out: &mut String, op: Unop)
    ensures
        final(out)@ == old(out)@ + spec_unop_text(op),
{
    match op {
        Unop::Minus | Unop::MinusDot => push_str_lit(out, "-"),
        Unop::Not => push_str_lit(out, "!"),
    }
}

fn push_binop(out: &mut String, op: Binop)
    ensures
        final(out)@ == old(out)@ + spec_binop_text(op),
{
    match op {
        Binop::Plus | Binop::PlusDot => push_str_lit(out, "+"),
        Binop::Minus | Binop::MinusDot => push_str_lit(out, "-"),
        Binop::Mult | Binop::MultDot => push_str_lit(out, "*"),
        Binop::Div | Binop::DivDot => push_str_lit(out, "/"),
        Binop::Lt => push_str_lit(out, "<"),
        Binop::Gt => push_str_lit(out, ">"),
        Binop::Leq => push_str_lit(out, "<="),
        Binop::Geq => push_str_lit(out, ">="),
        Binop::Eq => push_str_lit(out, "=="),
        Binop::And => push_str_lit(out, "&&"),
        Binop::Or => push_str_lit(out, "||"),
    }
}

fn push_bexpr(out: &mut String, e: &Bexpr)
    ensures
        final(out)@ == old(out)@ + spec_bexpr_text(e@),
    decreases *e,
{
    match e {
        Bexpr::Atom(a) => push_atom(out, a),
        Bexpr::Unop(op, e1) => {
            push_unop(out, *op);
            push_str_lit(out, " ");
            push_bexpr(out, e1);
            proof {
                assert(out@ =~= old(out)@ + spec_bexpr_text(e@));
            }
        },
        Bexpr::Binop(op, es) => {
            push_bexpr(out, &es.0);
            push_str_lit(out, " ");
            push_binop(out, *op);
            push_str_lit(out, " ");
            push_bexpr(out, &es.1);
            proof {
                assert(out@ =~= old(out)@ + spec_bexpr_text(e@));
            }
        },
        Bexpr::If(es) => {
            push_str_lit(out, "if ");
            push_bexpr(out, &es.0);
            push_str_lit(out, " { ");
            push_bexpr(out, &es.1);
            push_str_lit(out, " } else { ");
            push_bexpr(out, &es.2);
            push_str_lit(out, " }");
            proof {
                assert(out@ =~= old(out)@ + spec_bexpr_text(e@));
            }
        },
        Bexpr::Tuple(es) => {
            let ghost sv = match e@ {
                BexprV::Tuple(s) => s,
                _ => Seq::empty(),
            };
            proof {
                assert forall|ii: int| 0 <= ii < sv.len() implies sv[ii] == es@[ii]@ by {}
            }
            if es.len() == 0 {
                push_str_lit(out, "()");
            } else {
                push_str_lit(out, "(");
                push_bexpr(out, &es[0]);
                push_bexpr_rest(out, es, 1);
                push_str_lit(out, ")");
                proof {
                    assert(crate::nast::bexprs_view(es@).skip(1) =~= sv.drop_first());
                    assert(sv[0] == es@[0]@);
                    assert(out@ =~= old(out)@ + spec_bexpr_text(e@));
                }
            }
        },
    }
}

fn push_bexpr_rest(out: &mut String, es: &Vec<Bexpr>, i: usize)
    requires
        i <= es.len(),
    ensures
        final(out)@ == old(out)@ + spec_bexpr_rest_text(
            crate::nast::bexprs_view(es@).skip(i as int),
        ),
    decreases *es, es@.len() - i,
{
    let ghost tail = crate::nast::bexprs_view(es@).skip(i as int);
    if i == es.len() {
        proof {
            assert(tail =~= Seq::<BexprV>::empty());
            assert(out@ =~= out@ + spec_bexpr_rest_text(tail));
        }
    } else {
        proof {
            assert(tail[0] == es@[i as int]@);
            assert(tail.drop_first() =~= crate::nast::bexprs_view(es@).skip(i as int + 1));
        }
        push_str_lit(out, ", ");
        push_bexpr(out, &es[i]);
        push_bexpr_rest(out, es, i + 1);
        proof {
            assert(out@ =~= old(out)@ + spec_bexpr_rest_text(tail));
        }
    }
}

/// The target text of a stream type.
pub open spec fn spec_type_text(t: Type) -> Seq<char> {
    match t {
        Type::Unit => "()"@,
        Type::Bool => "bool"@,
        Type::Int => "i32"@,
        Type::Float => "f32"@,
        Type::Str => "String"@,
    }
}

/// The target text of a stream type.
pub fn get_type(t: Type) -> (s: &'static str)
    ensures
        s@ == spec_type_text(t),
{
    match t {
        Type::Unit => "()",
        Type::Bool => "bool",
        Type::Int => "i32",
        Type::Float => "f32",
        Type::Str => "String",
    }
}


/// An ASCII lowercase letter becomes its uppercase form; any other
/// character is kept.  Node names are plain identifiers, so this is
/// all the mangling of a memory type name needs.
pub open spec fn spec_upper_char(c: char) -> char {
    if c == 'a' {
        'A'
    } else if c == 'b' {
        'B'
    } else if c == 'c' {
        'C'
    } else if c == 'd' {
        'D'
    } else if c == 'e' {
        'E'
    } else if c == 'f' {
        'F'
    } else if c == 'g' {
        'G'
    } else if c == 'h' {
        'H'
    } else if c == 'i' {
        'I'
    } else if c == 'j' {
        'J'
    } else if c == 'k' {
        'K'
    } else if c == 'l' {
        'L'
    } else if c == 'm' {
        'M'
    } else if c == 'n' {
        'N'
    } else if c == 'o' {
        'O'
    } else if c == 'p' {
        'P'
    } else if c == 'q' {
        'Q'
    } else if c == 'r' {
        'R'
    } else if c == 's' {
        'S'
    } else if c == 't' {
        'T'
    } else if c == 'u' {
        'U'
    } else if c == 'v' {
        'V'
    } else if c == 'w' {
        'W'
    } else if c == 'x' {
        'X'
    } else if c == 'y' {
        'Y'
    } else if c == 'z' {
        'Z'
    } else {
        c
    }
}

/// The text with its first character uppercased.
pub open spec fn spec_capitalize(s: Seq<char>) -> Seq<char> {
    if s.len() == 0 {
        s
    } else {
        seq![spec_upper_char(s[0])] + s.drop_first()
    }
}

/// Uppercases the first character of an identifier.
pub fn capitalize(s: &String) -> (r: String)
    ensures
        r@ == spec_capitalize(s@),
{
    let st = s.as_str();
    let n = st.unicode_len();
    if n == 0 {
        let r = String::new();
        proof {
            assert(r@ =~= spec_capitalize(s@));
        }
        return r;
    }
    let c = st.get_char(0);
    let mut out = String::new();
    let up = match c {
        'a' => "A",
        'b' => "B",
        'c' => "C",
        'd' => "D",
        'e' => "E",
        'f' => "F",
        'g' => "G",
        'h' => "H",
        'i' => "I",
        'j' => "J",
        'k' => "K",
        'l' => "L",
        'm' => "M",
        'n' => "N",
        'o' => "O",
        'p' => "P",
        'q' => "Q",
        'r' => "R",
        's' => "S",
        't' => "T",
        'u' => "U",
        'v' => "V",
        'w' => "W",
        'x' => "X",
        'y' => "Y",
        'z' => "Z",
        _ => st.substring_char(0, 1),
    };
    proof {
        reveal_strlit("A");
        reveal_strlit("B");
        reveal_strlit("C");
        reveal_strlit("D");
        reveal_strlit("E");
        reveal_strlit("F");
        reveal_strlit("G");
        reveal_strlit("H");
        reveal_strlit("I");
        reveal_strlit("J");
        reveal_strlit("K");
        reveal_strlit("L");
        reveal_strlit("M");
        reveal_strlit("N");
        reveal_strlit("O");
        reveal_strlit("P");
        reveal_strlit("Q");
        reveal_strlit("R");
        reveal_strlit("S");
        reveal_strlit("T");
        reveal_strlit("U");
        reveal_strlit("V");
        reveal_strlit("W");
        reveal_strlit("X");
        reveal_strlit("Y");
        reveal_strlit("Z");
        assert(up@ =~= seq![spec_upper_char(s@[0])]);
    }
    out.append(up);
    out.append(st.substring_char(1, n));
    proof {
        assert(out@ =~= spec_capitalize(s@));
    }
    out
}

/// The memory of a stateful node: its mangled type name, its fields
/// (name and field-type text), and for each delay field the initial
/// constant and the next-value expression.  All lists keep the order
/// of the equations that gave rise to them.
#[derive(Debug)]
pub struct NodeMemory {
    pub name: String,
    pub fields: Vec<(String, String)>,
    pub init_values: Vec<(String, Const)>,
    pub next_values: Vec<(String, Bexpr)>,
}

/// Mathematical value of a node memory.
#[verifier::ext_equal]
pub struct NodeMemoryV {
    pub name: Seq<char>,
    pub fields: Seq<(Seq<char>, Seq<char>)>,
    pub init_values: Seq<(Seq<char>, ConstV)>,
    pub next_values: Seq<(Seq<char>, BexprV)>,
}

impl View for NodeMemory {
    type V = NodeMemoryV;

    open spec fn view(&self) -> NodeMemoryV {
        NodeMemoryV {
            name: self.name@,
            fields: self.fields@.map_values(|p: (String, String)| (p.0@, p.1@)),
            init_values: self.init_values@.map_values(|p: (String, Const)| (p.0@, p.1@)),
            next_values: self.next_values@.map_values(|p: (String, Bexpr)| (p.0@, p.1@)),
        }
    }
}

/// The memories registered so far, keyed by node name in program order.
pub type MemsV = Seq<(Seq<char>, NodeMemoryV)>;

pub open spec fn mems_view(ms: Seq<(String, NodeMemory)>) -> MemsV {
    ms.map_values(|p: (String, NodeMemory)| (p.0@, p.1@))
}

/// The first memory registered under a node name.
pub open spec fn mem_lookup(ms: MemsV, name: Seq<char>) -> Option<NodeMemoryV>
    decreases ms.len(),
{
    if ms.len() == 0 {
        None
    } else if ms[0].0 == name {
        Some(ms[0].1)
    } else {
        mem_lookup(ms.drop_first(), name)
    }
}

proof fn lemma_mem_lookup_at(ms: MemsV, name: Seq<char>, i: int)
    requires
        0 <= i < ms.len(),
        ms[i].0 == name,
        forall|j: int| 0 <= j < i ==> (#[trigger] ms[j]).0 != name,
    ensures
        mem_lookup(ms, name) == Some(ms[i].1),
    decreases i,
{
    if i > 0 {
        lemma_mem_lookup_at(ms.drop_first(), name, i - 1);
    }
}

proof fn lemma_mem_lookup_none(ms: MemsV, name: Seq<char>)
    requires
        forall|j: int| 0 <= j < ms.len() ==> (#[trigger] ms[j]).0 != name,
    ensures
        mem_lookup(ms, name) is None,
    decreases ms.len(),
{
    if ms.len() > 0 {
        lemma_mem_lookup_none(ms.drop_first(), name);
    }
}

fn mem_lookup_exec<'a>(ms: &'a Vec<(String, NodeMemory)>, name: &String) -> (r: Option<
    &'a NodeMemory,
>)
    ensures
        match r {
            Some(mv) => mem_lookup(mems_view(ms@), name@) == Some(mv@),
            None => mem_lookup(mems_view(ms@), name@) is None,
        },
{
    let ghost msv = mems_view(ms@);
    let mut i: usize = 0;
    while i < ms.len()
        invariant
            i <= ms.len(),
            msv == mems_view(ms@),
            forall|k: int| 0 <= k < i ==> (#[trigger] msv[k]).0 != name@,
        decreases ms.len() - i,
    {
        if crate::text::str_eq(&ms[i].0, name) {
            proof {
                assert(msv[i as int] == (ms@[i as int].0@, ms@[i as int].1@));
                lemma_mem_lookup_at(msv, name@, i as int);
            }
            return Some(&ms[i].1);
        }
        proof {
            assert(msv[i as int] == (ms@[i as int].0@, ms@[i as int].1@));
        }
        i = i + 1;
    }
    proof {
        lemma_mem_lookup_none(msv, name@);
    }
    None
}

/// What emission asks of every equation: at least one defined name,
/// and a `fby` body with exactly one initial atom and one next
/// expression per defined name.
pub open spec fn eq_emit_ready(eq: EquationV) -> bool {
    &&& eq.names.len() >= 1
    &&& (eq.body matches ExprV::Fby(inits, nexts) ==> inits.len() == eq.names.len()
        && nexts.len() == eq.names.len())
}

pub open spec fn node_emit_ready(n: NodeV) -> bool {
    forall|i: int| 0 <= i < n.body.len() ==> eq_emit_ready(#[trigger] n.body[i])
}

pub open spec fn prog_emit_ready(prog: Seq<NodeV>) -> bool {
    forall|i: int| 0 <= i < prog.len() ==> node_emit_ready(#[trigger] prog[i])
}

/// The three slot lists: fields, initial values, next values.
pub type SlotsV = (Seq<(Seq<char>, Seq<char>)>, Seq<(Seq<char>, ConstV)>, Seq<(
    Seq<char>,
    BexprV,
)>);

/// The delay slots of one `fby` equation, elementwise from position
/// `i`: the i-th defined name becomes a slot holding the i-th initial
/// constant, typed by that constant, updated to the i-th next
/// expression.  An identifier as initial operand is the failure this
/// stage reports.
pub open spec fn spec_fby_slots(
    names: Seq<Seq<char>>,
    inits: Seq<AtomV>,
    nexts: Seq<BexprV>,
    i: int,
) -> Result<SlotsV, Seq<char>>
    decreases names.len() - i,
{
    if i < 0 || i >= names.len() {
        Ok((Seq::empty(), Seq::empty(), Seq::empty()))
    } else {
        match inits[i] {
            AtomV::Ident(_) => Err(names[i]),
            AtomV::Const(c) => match spec_fby_slots(names, inits, nexts, i + 1) {
                Err(nm) => Err(nm),
                Ok(rest) => Ok(
                    (
                        seq![
                            (
                                names[i],
                                spec_type_text(crate::typer::spec_type_of_const(c)),
                            ),
                        ] + rest.0,
                        seq![(names[i], c)] + rest.1,
                        seq![(names[i], nexts[i])] + rest.2,
                    ),
                ),
            },
        }
    }
}

/// The slots one equation contributes: a call to a registered node
/// yields a field for the callee's memory under the first defined
/// name; a `fby` yields its delay slots; anything else yields none.
pub open spec fn spec_eq_slots(eq: EquationV, mems: MemsV) -> Result<SlotsV, Seq<char>> {
    match eq.body {
        ExprV::Call { name, args: _ } => match mem_lookup(mems, name) {
            Some(cm) => Ok(
                (seq![(eq.names[0], cm.name)], Seq::empty(), Seq::empty()),
            ),
            None => Ok((Seq::empty(), Seq::empty(), Seq::empty())),
        },
        ExprV::Fby(inits, nexts) => spec_fby_slots(eq.names, inits, nexts, 0),
        ExprV::Bexpr(_) => Ok((Seq::empty(), Seq::empty(), Seq::empty())),
    }
}

pub open spec fn spec_slots(body: Seq<EquationV>, mems: MemsV) -> Result<SlotsV, Seq<char>>
    decreases body.len(),
{
    if body.len() == 0 {
        Ok((Seq::empty(), Seq::empty(), Seq::empty()))
    } else {
        match spec_eq_slots(body[0], mems) {
            Err(nm) => Err(nm),
            Ok(h) => match spec_slots(body.drop_first(), mems) {
                Err(nm) => Err(nm),
                Ok(t) => Ok((h.0 + t.0, h.1 + t.1, h.2 + t.2)),
            },
        }
    }
}

/// The memory of one node: its slots, named `Mem` plus the
/// capitalized node name — or nothing, when there is no slot.
pub open spec fn spec_get_node_mem(n: NodeV, mems: MemsV) -> Result<
    Option<NodeMemoryV>,
    Seq<char>,
> {
    match spec_slots(n.body, mems) {
        Err(nm) => Err(nm),
        Ok(s) => if s.0.len() == 0 {
            Ok(None)
        } else {
            Ok(
                Some(
                    NodeMemoryV {
                        name: "Mem"@ + spec_capitalize(n.name),
                        fields: s.0,
                        init_values: s.1,
                        next_values: s.2,
                    },
                ),
            )
        },
    }
}

/// The memories of a whole program, callees before callers; the
/// failure carries the node name and the offending identifier.
pub open spec fn spec_mems_from(prog: Seq<NodeV>, acc: MemsV) -> Result<
    MemsV,
    (Seq<char>, Seq<char>),
>
    decreases prog.len(),
{
    if prog.len() == 0 {
        Ok(acc)
    } else {
        match spec_get_node_mem(prog[0], acc) {
            Err(nm) => Err((prog[0].name, nm)),
            Ok(None) => spec_mems_from(prog.drop_first(), acc),
            Ok(Some(mv)) => spec_mems_from(prog.drop_first(), acc.push((prog[0].name, mv))),
        }
    }
}


/// Exec slot lists.
pub type Slots = (Vec<(String, String)>, Vec<(String, Const)>, Vec<(String, Bexpr)>);

pub open spec fn slots_view(s: Slots) -> SlotsV {
    (
        s.0@.map_values(|p: (String, String)| (p.0@, p.1@)),
        s.1@.map_values(|p: (String, Const)| (p.0@, p.1@)),
        s.2@.map_values(|p: (String, Bexpr)| (p.0@, p.1@)),
    )
}

fn fby_slots(names: &Vec<String>, inits: &Vec<Atom>, nexts: &Vec<Bexpr>, i: usize) -> (r:
    Result<Slots, String>)
    requires
        i <= names.len(),
        inits@.len() == names@.len(),
        nexts@.len() == names@.len(),
    ensures
        ({
            let sp = spec_fby_slots(
                strings_view(names@),
                crate::nast::atoms_view(inits@),
                crate::nast::bexprs_view(nexts@),
                i as int,
            );
            &&& (r is Ok) == (sp is Ok)
            &&& (r matches Ok(sl) ==> sp matches Ok(sv) && slots_view(sl).0 =~= sv.0
                && slots_view(sl).1 =~= sv.1 && slots_view(sl).2 =~= sv.2)
            &&& (r matches Err(nm) ==> sp matches Err(nv) && nm@ == nv)
        }),
    decreases names@.len() - i,
{
    if i == names.len() {
        Ok((Vec::new(), Vec::new(), Vec::new()))
    } else {
        proof {
            assert(crate::nast::atoms_view(inits@)[i as int] == inits@[i as int]@);
            assert(crate::nast::bexprs_view(nexts@)[i as int] == nexts@[i as int]@);
            assert(strings_view(names@)[i as int] == names@[i as int]@);
        }
        match &inits[i] {
            Atom::Ident(_) => Err(names[i].clone()),
            Atom::Const(c) => {
                match fby_slots(names, inits, nexts, i + 1) {
                    Err(nm) => Err(nm),
                    Ok(rest) => {
                        let t = crate::typer::type_of_const(c);
                        let ghost cv = c@;
                        let ghost nmv = names@[i as int]@;
                        let ghost nxv = nexts@[i as int]@;
                        let (mut f, mut iv, mut nv) = rest;
                        f.insert(0, (names[i].clone(), String::from_str(get_type(t))));
                        iv.insert(0, (names[i].clone(), c.clone()));
                        nv.insert(0, (names[i].clone(), nexts[i].clone()));
                        let res = (f, iv, nv);
                        proof {
                            let sp = spec_fby_slots(
                                strings_view(names@),
                                crate::nast::atoms_view(inits@),
                                crate::nast::bexprs_view(nexts@),
                                i as int,
                            );
                            match sp {
                                Ok(sv) => {
                                    assert(slots_view(res).0 =~= sv.0);
                                    assert(slots_view(res).1 =~= sv.1);
                                    assert(slots_view(res).2 =~= sv.2);
                                },
                                Err(_) => {
                                    assert(false);
                                },
                            }
                        }
                        Ok(res)
                    },
                }
            },
        }
    }
}

fn body_slots(body: &Vec<Equation>, i: usize, mems: &Vec<(String, NodeMemory)>) -> (r: Result<
    Slots,
    String,
>)
    requires
        i <= body.len(),
        forall|k: int|
            0 <= k < body@.len() ==> eq_emit_ready(
                #[trigger] crate::nast::equations_view(body@)[k],
            ),
    ensures
        ({
            let sp = spec_slots(
                crate::nast::equations_view(body@).skip(i as int),
                mems_view(mems@),
            );
            &&& (r is Ok) == (sp is Ok)
            &&& (r matches Ok(sl) ==> sp matches Ok(sv) && slots_view(sl).0 =~= sv.0
                && slots_view(sl).1 =~= sv.1 && slots_view(sl).2 =~= sv.2)
            &&& (r matches Err(nm) ==> sp matches Err(nv) && nm@ == nv)
        }),
    decreases body@.len() - i,
{
    let ghost tail = crate::nast::equations_view(body@).skip(i as int);
    if i == body.len() {
        proof {
            assert(tail =~= Seq::<EquationV>::empty());
        }
        Ok((Vec::new(), Vec::new(), Vec::new()))
    } else {
        proof {
            assert(tail[0] == body@[i as int]@);
            assert(crate::nast::equations_view(body@)[i as int] == body@[i as int]@);
            assert(tail.drop_first() =~= crate::nast::equations_view(body@).skip(i as int + 1));
        }
        let eq = &body[i];
        let head: Result<Slots, String> = match &eq.body {
            Expr::Call { name, args: _ } => {
                match mem_lookup_exec(mems, name) {
                    Some(cm) => {
                        let mut f: Vec<(String, String)> = Vec::new();
                        f.push((eq.names[0].clone(), cm.name.clone()));
                        Ok((f, Vec::new(), Vec::new()))
                    },
                    None => Ok((Vec::new(), Vec::new(), Vec::new())),
                }
            },
            Expr::Fby(inits, nexts) => {
                proof {
                    assert(eq_emit_ready(body@[i as int]@));
                    assert(crate::nast::atoms_view(inits@).len() == inits@.len());
                }
                fby_slots(&eq.names, inits, nexts, 0)
            },
            Expr::Bexpr(_) => Ok((Vec::new(), Vec::new(), Vec::new())),
        };
        proof {
            let sp0 = spec_eq_slots(body@[i as int]@, mems_view(mems@));
            match (&head, sp0) {
                (Ok(h), Ok(hv)) => {
                    assert(slots_view(*h).0 =~= hv.0);
                    assert(slots_view(*h).1 =~= hv.1);
                    assert(slots_view(*h).2 =~= hv.2);
                },
                (Err(nm), Err(nv)) => {},
                _ => {},
            }
        }
        match head {
            Err(nm) => {
                proof {
                    assert(spec_eq_slots(body@[i as int]@, mems_view(mems@)) is Err);
                }
                Err(nm)
            },
            Ok(h) => {
                match body_slots(body, i + 1, mems) {
                    Err(nm) => Err(nm),
                    Ok(t) => {
                        let ghost hv = slots_view(h);
                        let ghost tv = slots_view(t);
                        let (mut f, mut iv, mut nv) = h;
                        let (mut f2, mut iv2, mut nv2) = t;
                        f.append(&mut f2);
                        iv.append(&mut iv2);
                        nv.append(&mut nv2);
                        let res = (f, iv, nv);
                        proof {
                            assert(slots_view(res).0 =~= hv.0 + tv.0);
                            assert(slots_view(res).1 =~= hv.1 + tv.1);
                            assert(slots_view(res).2 =~= hv.2 + tv.2);
                            let sp = spec_slots(tail, mems_view(mems@));
                            match sp {
                                Ok(sv) => {
                                    assert(slots_view(res).0 =~= sv.0);
                                    assert(slots_view(res).1 =~= sv.1);
                                    assert(slots_view(res).2 =~= sv.2);
                                },
                                Err(_) => {
                                    assert(false);
                                },
                            }
                        }
                        Ok(res)
                    },
                }
            },
        }
    }
}

/// The memory of one node, if it needs one; the failure is the name
/// bound by a `fby` whose initial operand is not a constant.
fn get_node_mem(n: &Node, mems: &Vec<(String, NodeMemory)>) -> (r: Result<
    Option<NodeMemory>,
    String,
>)
    requires
        node_emit_ready(n@),
    ensures
        ({
            let sp = spec_get_node_mem(n@, mems_view(mems@));
            &&& (r is Ok) == (sp is Ok)
            &&& (r matches Ok(opt) ==> sp matches Ok(optv) && ((opt is Some) == (
            optv is Some)) && (opt matches Some(mv) ==> optv matches Some(ov) && mv@ =~= ov))
            &&& (r matches Err(nm) ==> sp matches Err(nv) && nm@ == nv)
        }),
{
    proof {
        assert(crate::nast::equations_view(n.body@).skip(0) =~= n@.body);
    }
    match body_slots(&n.body, 0, mems) {
        Err(nm) => Err(nm),
        Ok(slots) => {
            let ghost sv = slots_view(slots);
            let (f, iv, nv) = slots;
            if f.len() == 0 {
                Ok(None)
            } else {
                let mut tn = String::from_str("Mem");
                let cap = capitalize(&n.name);
                tn.append(cap.as_str());
                let mem = NodeMemory { name: tn, fields: f, init_values: iv, next_values: nv };
                proof {
                    match spec_get_node_mem(n@, mems_view(mems@)) {
                        Ok(Some(ov)) => {
                            assert(mem@ =~= ov);
                        },
                        _ => {
                            assert(false);
                        },
                    }
                }
                Ok(Some(mem))
            }
        },
    }
}


/// Left-hand-side names, comma separated.
pub open spec fn spec_names_text(names: Seq<Seq<char>>) -> Seq<char>
    decreases names.len(),
{
    if names.len() == 0 {
        Seq::empty()
    } else {
        names[0] + spec_names_rest_text(names.drop_first())
    }
}

pub open spec fn spec_names_rest_text(names: Seq<Seq<char>>) -> Seq<char>
    decreases names.len(),
{
    if names.len() == 0 {
        Seq::empty()
    } else {
        ", "@ + names[0] + spec_names_rest_text(names.drop_first())
    }
}

/// The memory reads a `fby` body translates to, one per bound name.
pub open spec fn spec_mem_reads_text(dest: Seq<Seq<char>>) -> Seq<char>
    decreases dest.len(),
{
    if dest.len() == 0 {
        Seq::empty()
    } else {
        "mem."@ + dest[0] + spec_mem_reads_rest_text(dest.drop_first())
    }
}

pub open spec fn spec_mem_reads_rest_text(dest: Seq<Seq<char>>) -> Seq<char>
    decreases dest.len(),
{
    if dest.len() == 0 {
        Seq::empty()
    } else {
        ", "@ + "mem."@ + dest[0] + spec_mem_reads_rest_text(dest.drop_first())
    }
}

/// The text of an equation body.  A call to a stateful node takes a
/// mutable borrow of the caller's slot first (or of the whole memory,
/// at the entry point, where no name is bound); a `fby` body reads the
/// delay slots; a basic expression translates structurally.
pub open spec fn spec_expr_text(e: ExprV, dest: Seq<Seq<char>>, mems: MemsV) -> Seq<char> {
    match e {
        ExprV::Call { name, args } => name + "("@ + (match mem_lookup(mems, name) {
            Some(_) => (if dest.len() == 0 {
                "&mut mem"@
            } else {
                "&mut mem."@ + dest[0]
            }) + spec_bexpr_rest_text(args),
            None => if args.len() == 0 {
                Seq::empty()
            } else {
                spec_bexpr_text(args[0]) + spec_bexpr_rest_text(args.drop_first())
            },
        }) + ")"@,
        ExprV::Fby(_, _) => if dest.len() != 1 {
            "("@ + spec_mem_reads_text(dest) + ")"@
        } else {
            "mem."@ + dest[0]
        },
        ExprV::Bexpr(b) => spec_bexpr_text(b),
    }
}

/// One emitted equation: a `let` binding of its names to its body.
pub open spec fn spec_equation_text(eq: EquationV, mems: MemsV) -> Seq<char> {
    "\tlet "@ + (if eq.names.len() != 1 {
        "("@ + spec_names_text(eq.names) + ")"@
    } else {
        spec_names_text(eq.names)
    }) + " = "@ + spec_expr_text(eq.body, eq.names, mems) + ";\n"@
}

pub open spec fn spec_equations_text(body: Seq<EquationV>, mems: MemsV) -> Seq<char>
    decreases body.len(),
{
    if body.len() == 0 {
        Seq::empty()
    } else {
        spec_equation_text(body[0], mems) + spec_equations_text(body.drop_first(), mems)
    }
}

pub open spec fn spec_arg_item_text(a: (Seq<char>, Type), with_name: bool, with_typ: bool)
    -> Seq<char> {
    (if with_name {
        a.0
    } else {
        Seq::empty()
    }) + (if with_name && with_typ {
        ": "@
    } else {
        Seq::empty()
    }) + (if with_typ {
        spec_type_text(a.1)
    } else {
        Seq::empty()
    })
}

/// A declared argument list: names, types, or both, comma separated.
pub open spec fn spec_arg_list_text(
    args: Seq<(Seq<char>, Type)>,
    with_name: bool,
    with_typ: bool,
) -> Seq<char>
    decreases args.len(),
{
    if args.len() == 0 {
        Seq::empty()
    } else {
        spec_arg_item_text(args[0], with_name, with_typ) + spec_arg_rest_text(
            args.drop_first(),
            with_name,
            with_typ,
        )
    }
}

pub open spec fn spec_arg_rest_text(
    args: Seq<(Seq<char>, Type)>,
    with_name: bool,
    with_typ: bool,
) -> Seq<char>
    decreases args.len(),
{
    if args.len() == 0 {
        Seq::empty()
    } else {
        ", "@ + spec_arg_item_text(args[0], with_name, with_typ) + spec_arg_rest_text(
            args.drop_first(),
            with_name,
            with_typ,
        )
    }
}

/// The first initial value recorded under a field name.
pub open spec fn spec_init_lookup(inits: Seq<(Seq<char>, ConstV)>, k: Seq<char>) -> Option<
    ConstV,
>
    decreases inits.len(),
{
    if inits.len() == 0 {
        None
    } else if inits[0].0 == k {
        Some(inits[0].1)
    } else {
        spec_init_lookup(inits.drop_first(), k)
    }
}

pub open spec fn spec_fields_text(fields: Seq<(Seq<char>, Seq<char>)>) -> Seq<char>
    decreases fields.len(),
{
    if fields.len() == 0 {
        Seq::empty()
    } else {
        "\t"@ + fields[0].0 + ": "@ + fields[0].1 + ",\n"@ + spec_fields_text(
            fields.drop_first(),
        )
    }
}

pub open spec fn spec_defaults_text(
    fields: Seq<(Seq<char>, Seq<char>)>,
    inits: Seq<(Seq<char>, ConstV)>,
) -> Seq<char>
    decreases fields.len(),
{
    if fields.len() == 0 {
        Seq::empty()
    } else {
        "\t\t\t"@ + fields[0].0 + ": "@ + (match spec_init_lookup(inits, fields[0].0) {
            Some(c) => spec_const_text(c),
            None => "Default::default()"@,
        }) + ",\n"@ + spec_defaults_text(fields.drop_first(), inits)
    }
}

/// The memory type of a stateful node, with a `Default` that sets the
/// delay slots to their initial constants and the call slots to the
/// callee's default memory.
pub open spec fn spec_struct_text(mv: NodeMemoryV) -> Seq<char> {
    "#[derive(Debug)]\nstruct "@ + mv.name + " {\n"@ + spec_fields_text(mv.fields)
        + "}\n\n"@ + "impl Default for "@ + mv.name
        + " {\n\tfn default() -> Self {\n\t\tSelf {\n"@ + spec_defaults_text(
        mv.fields,
        mv.init_values,
    ) + "\t\t}\n\t}\n}\n\n"@
}

/// The deferred writes of the delay slots, emitted after every read.
pub open spec fn spec_updates_text(nexts: Seq<(Seq<char>, BexprV)>) -> Seq<char>
    decreases nexts.len(),
{
    if nexts.len() == 0 {
        Seq::empty()
    } else {
        "\tmem."@ + nexts[0].0 + " = "@ + spec_bexpr_text(nexts[0].1) + ";\n"@
            + spec_updates_text(nexts.drop_first())
    }
}

/// The memory type declaration of a node, when it has one.
pub open spec fn spec_node_struct_part(n: NodeV, mems: MemsV) -> Seq<char> {
    match mem_lookup(mems, n.name) {
        Some(mv) => spec_struct_text(mv),
        None => Seq::empty(),
    }
}

/// The opening of a step function: its name and, when the node is
/// stateful, the memory parameter.
pub open spec fn spec_node_open_text(n: NodeV, mems: MemsV) -> Seq<char> {
    "fn "@ + n.name + "("@ + (match mem_lookup(mems, n.name) {
        Some(mv) => "mem: &mut "@ + mv.name + (if n.args_in.len() > 0 {
            ", "@
        } else {
            Seq::empty()
        }),
        None => Seq::empty(),
    })
}

/// The declared inputs and the result type of a step function.
pub open spec fn spec_node_sig_text(n: NodeV) -> Seq<char> {
    spec_arg_list_text(n.args_in, true, true) + ") -> "@ + (if n.args_out.len() > 1 {
        "("@
    } else {
        Seq::empty()
    }) + spec_arg_list_text(n.args_out, false, true) + (if n.args_out.len() > 1 {
        ")"@
    } else {
        Seq::empty()
    }) + " {\n"@
}

/// The head of a step function: its name, the memory parameter when
/// the node is stateful, the declared inputs, and the result type.
pub open spec fn spec_node_header_text(n: NodeV, mems: MemsV) -> Seq<char> {
    spec_node_open_text(n, mems) + spec_node_sig_text(n)
}

/// The deferred delay-slot writes of a node, when it has a memory.
pub open spec fn spec_node_updates_part(n: NodeV, mems: MemsV) -> Seq<char> {
    match mem_lookup(mems, n.name) {
        Some(mv) => spec_updates_text(mv.next_values),
        None => Seq::empty(),
    }
}

/// The return statement assembling the declared outputs.
pub open spec fn spec_node_return_text(n: NodeV) -> Seq<char> {
    "\treturn "@ + (if n.args_out.len() > 1 {
        "("@
    } else {
        Seq::empty()
    }) + spec_arg_list_text(n.args_out, true, false) + (if n.args_out.len() > 1 {
        ")"@
    } else {
        Seq::empty()
    }) + ";\n"@ + "}\n\n"@
}

/// The step function of one node, with its memory type first when it
/// has one.
pub open spec fn spec_node_text(n: NodeV, mems: MemsV) -> Seq<char> {
    spec_node_struct_part(n, mems) + spec_node_header_text(n, mems) + spec_equations_text(
        n.body,
        mems,
    ) + spec_node_updates_part(n, mems) + spec_node_return_text(n)
}

pub open spec fn spec_nodes_text(prog: Seq<NodeV>, mems: MemsV) -> Seq<char>
    decreases prog.len(),
{
    if prog.len() == 0 {
        Seq::empty()
    } else {
        spec_node_text(prog[0], mems) + spec_nodes_text(prog.drop_first(), mems)
    }
}

/// Reading one input of the entry node from standard input, directed
/// by its type: the unit value needs no read, a string keeps the raw
/// line, the rest parse.
pub open spec fn spec_input_read_text(a: (Seq<char>, Type)) -> Seq<char> {
    if a.1 == Type::Unit {
        "\tlet "@ + a.0 + " = ();\n"@
    } else {
        "\teprint!(\""@ + a.0 + ": \");\n"@ + "\tlet mut "@ + a.0
            + "_str = String::new();\n"@ + "\tstd::io::stdin().read_line(&mut "@ + a.0
            + "_str).unwrap();\n"@ + (if a.1 == Type::Str {
            "\tlet "@ + a.0 + " = "@ + a.0 + "_str;\n"@
        } else {
            "\tlet "@ + a.0 + " = "@ + a.0 + "_str.trim().parse::<"@ + spec_type_text(a.1)
                + ">().unwrap();\n"@
        }) + "\n"@
    }
}

pub open spec fn spec_input_reads_text(args: Seq<(Seq<char>, Type)>) -> Seq<char>
    decreases args.len(),
{
    if args.len() == 0 {
        Seq::empty()
    } else {
        spec_input_read_text(args[0]) + spec_input_reads_text(args.drop_first())
    }
}

/// The call of the entry node on its freshly read inputs.
pub open spec fn spec_main_call(n: NodeV) -> ExprV {
    ExprV::Call {
        name: n.name,
        args: n.args_in.map_values(|p: (Seq<char>, Type)| BexprV::Atom(AtomV::Ident(p.0))),
    }
}

/// The entry point: reads each input of the last node, builds its
/// default memory when it has one, and runs it ten times, printing
/// each result.
pub open spec fn spec_main_text(prog: Seq<NodeV>, mems: MemsV) -> Seq<char> {
    "fn main() {\n"@ + (if prog.len() == 0 {
        Seq::empty()
    } else {
        let n = prog[prog.len() - 1];
        "\teprintln!(\"We will call node `"@ + n.name + "` 10 times.\");\n"@
            + spec_input_reads_text(n.args_in) + (match mem_lookup(mems, n.name) {
            Some(mv) => "\tlet mut mem: "@ + mv.name + " = Default::default();\n"@,
            None => Seq::empty(),
        }) + "\tfor _ in 0..10 {\n"@ + "\t\tlet v = "@ + spec_expr_text(
            spec_main_call(n),
            Seq::empty(),
            mems,
        ) + ";\n"@ + "\t\teprintln!(\"{:?}\", &v);\n"@ + "\t}\n"@
    }) + "}\n"@
}

/// The whole emitted program, or the node and identifier of a `fby`
/// initial that is not a constant.
pub open spec fn spec_format(prog: Seq<NodeV>) -> Result<Seq<char>, (Seq<char>, Seq<char>)> {
    match spec_mems_from(prog, Seq::empty()) {
        Err(p) => Err(p),
        Ok(mems) => Ok(
            "fn print(s: &str) {\n\tprintln!(\"{}\", s);\n}\n\n"@ + spec_nodes_text(
                prog,
                mems,
            ) + spec_main_text(prog, mems),
        ),
    }
}


fn push_names_rest(out: &mut String, names: &Vec<String>, i: usize)
    requires
        i <= names.len(),
    ensures
        final(out)@ == old(out)@ + spec_names_rest_text(strings_view(names@).skip(i as int)),
    decreases names@.len() - i,
{
    let ghost tail = strings_view(names@).skip(i as int);
    if i == names.len() {
        proof {
            assert(tail =~= Seq::<Seq<char>>::empty());
            assert(out@ =~= out@ + spec_names_rest_text(tail));
        }
    } else {
        proof {
            assert(tail[0] == names@[i as int]@);
            assert(tail.drop_first() =~= strings_view(names@).skip(i as int + 1));
        }
        push_str_lit(out, ", ");
        push_string(out, &names[i]);
        push_names_rest(out, names, i + 1);
        proof {
            assert(out@ =~= old(out)@ + spec_names_rest_text(tail));
        }
    }
}

fn push_names(out: &mut String, names: &Vec<String>)
    ensures
        final(out)@ == old(out)@ + spec_names_text(strings_view(names@)),
{
    if names.len() == 0 {
        proof {
            assert(out@ =~= out@ + spec_names_text(strings_view(names@)));
        }
    } else {
        push_string(out, &names[0]);
        push_names_rest(out, names, 1);
        proof {
            assert(strings_view(names@).drop_first() =~= strings_view(names@).skip(1));
            assert(strings_view(names@)[0] == names@[0]@);
            assert(out@ =~= old(out)@ + spec_names_text(strings_view(names@)));
        }
    }
}

fn push_mem_reads_rest(out: &mut String, dest: &Vec<String>, i: usize)
    requires
        i <= dest.len(),
    ensures
        final(out)@ == old(out)@ + spec_mem_reads_rest_text(
            strings_view(dest@).skip(i as int),
        ),
    decreases dest@.len() - i,
{
    let ghost tail = strings_view(dest@).skip(i as int);
    if i == dest.len() {
        proof {
            assert(tail =~= Seq::<Seq<char>>::empty());
            assert(out@ =~= out@ + spec_mem_reads_rest_text(tail));
        }
    } else {
        proof {
            assert(tail[0] == dest@[i as int]@);
            assert(tail.drop_first() =~= strings_view(dest@).skip(i as int + 1));
        }
        push_str_lit(out, ", ");
        push_str_lit(out, "mem.");
        push_string(out, &dest[i]);
        push_mem_reads_rest(out, dest, i + 1);
        proof {
            assert(out@ =~= old(out)@ + spec_mem_reads_rest_text(tail));
        }
    }
}

fn push_mem_reads(out: &mut String, dest: &Vec<String>)
    ensures
        final(out)@ == old(out)@ + spec_mem_reads_text(strings_view(dest@)),
{
    if dest.len() == 0 {
        proof {
            assert(out@ =~= out@ + spec_mem_reads_text(strings_view(dest@)));
        }
    } else {
        push_str_lit(out, "mem.");
        push_string(out, &dest[0]);
        push_mem_reads_rest(out, dest, 1);
        proof {
            assert(strings_view(dest@).drop_first() =~= strings_view(dest@).skip(1));
            assert(strings_view(dest@)[0] == dest@[0]@);
            assert(out@ =~= old(out)@ + spec_mem_reads_text(strings_view(dest@)));
        }
    }
}

fn push_expr(
    out: &mut String,
    e: &Expr,
    dest: &Vec<String>,
    mems: &Vec<(String, NodeMemory)>,
)
    ensures
        final(out)@ == old(out)@ + spec_expr_text(
            e@,
            strings_view(dest@),
            mems_view(mems@),
        ),
{
    match e {
        Expr::Call { name, args } => {
            push_string(out, name);
            push_str_lit(out, "(");
            match mem_lookup_exec(mems, name) {
                Some(_) => {
                    if dest.len() == 0 {
                        push_str_lit(out, "&mut mem");
                    } else {
                        push_str_lit(out, "&mut mem.");
                        push_string(out, &dest[0]);
                        proof {
                            assert(strings_view(dest@)[0] == dest@[0]@);
                        }
                    }
                    proof {
                        assert(crate::nast::bexprs_view(args@).skip(0)
                            =~= crate::nast::bexprs_view(args@));
                    }
                    push_bexpr_rest(out, args, 0);
                },
                None => {
                    if args.len() > 0 {
                        push_bexpr(out, &args[0]);
                        proof {
                            assert(crate::nast::bexprs_view(args@)[0] == args@[0]@);
                            assert(crate::nast::bexprs_view(args@).skip(1)
                                =~= crate::nast::bexprs_view(args@).drop_first());
                        }
                        push_bexpr_rest(out, args, 1);
                    }
                },
            }
            push_str_lit(out, ")");
            proof {
                assert(out@ =~= old(out)@ + spec_expr_text(
                    e@,
                    strings_view(dest@),
                    mems_view(mems@),
                ));
            }
        },
        Expr::Fby(_, _) => {
            if dest.len() != 1 {
                push_str_lit(out, "(");
                push_mem_reads(out, dest);
                push_str_lit(out, ")");
            } else {
                push_str_lit(out, "mem.");
                push_string(out, &dest[0]);
                proof {
                    assert(strings_view(dest@)[0] == dest@[0]@);
                }
            }
            proof {
                assert(out@ =~= old(out)@ + spec_expr_text(
                    e@,
                    strings_view(dest@),
                    mems_view(mems@),
                ));
            }
        },
        Expr::Bexpr(b) => {
            push_bexpr(out, b);
        },
    }
}

fn push_equation(out: &mut String, eq: &Equation, mems: &Vec<(String, NodeMemory)>)
    ensures
        final(out)@ == old(out)@ + spec_equation_text(eq@, mems_view(mems@)),
{
    push_str_lit(out, "\tlet ");
    if eq.names.len() != 1 {
        push_str_lit(out, "(");
        push_names(out, &eq.names);
        push_str_lit(out, ")");
    } else {
        push_names(out, &eq.names);
    }
    push_str_lit(out, " = ");
    push_expr(out, &eq.body, &eq.names, mems);
    push_str_lit(out, ";\n");
    proof {
        assert(out@ =~= old(out)@ + spec_equation_text(eq@, mems_view(mems@)));
    }
}

fn push_equations(
    out: &mut String,
    body: &Vec<Equation>,
    i: usize,
    mems: &Vec<(String, NodeMemory)>,
)
    requires
        i <= body.len(),
    ensures
        final(out)@ == old(out)@ + spec_equations_text(
            crate::nast::equations_view(body@).skip(i as int),
            mems_view(mems@),
        ),
    decreases body@.len() - i,
{
    let ghost tail = crate::nast::equations_view(body@).skip(i as int);
    if i == body.len() {
        proof {
            assert(tail =~= Seq::<EquationV>::empty());
            assert(out@ =~= out@ + spec_equations_text(tail, mems_view(mems@)));
        }
    } else {
        proof {
            assert(tail[0] == body@[i as int]@);
            assert(tail.drop_first() =~= crate::nast::equations_view(body@).skip(i as int + 1));
        }
        push_equation(out, &body[i], mems);
        push_equations(out, body, i + 1, mems);
        proof {
            assert(out@ =~= old(out)@ + spec_equations_text(tail, mems_view(mems@)));
        }
    }
}

fn push_arg_item(out: &mut String, a: &(String, Type), with_name: bool, with_typ: bool)
    ensures
        final(out)@ == old(out)@ + spec_arg_item_text((a.0@, a.1), with_name, with_typ),
{
    if with_name {
        push_string(out, &a.0);
    }
    if with_name && with_typ {
        push_str_lit(out, ": ");
    }
    if with_typ {
        push_str_lit(out, get_type(a.1));
    }
    proof {
        assert(out@ =~= old(out)@ + spec_arg_item_text((a.0@, a.1), with_name, with_typ));
    }
}

fn push_arg_rest(
    out: &mut String,
    args: &Vec<(String, Type)>,
    i: usize,
    with_name: bool,
    with_typ: bool,
)
    requires
        i <= args.len(),
    ensures
        final(out)@ == old(out)@ + spec_arg_rest_text(
            crate::ast::args_view(args@).skip(i as int),
            with_name,
            with_typ,
        ),
    decreases args@.len() - i,
{
    let ghost tail = crate::ast::args_view(args@).skip(i as int);
    if i == args.len() {
        proof {
            assert(tail =~= Seq::<(Seq<char>, Type)>::empty());
            assert(out@ =~= out@ + spec_arg_rest_text(tail, with_name, with_typ));
        }
    } else {
        proof {
            assert(tail[0] == (args@[i as int].0@, args@[i as int].1));
            assert(tail.drop_first() =~= crate::ast::args_view(args@).skip(i as int + 1));
        }
        push_str_lit(out, ", ");
        push_arg_item(out, &args[i], with_name, with_typ);
        push_arg_rest(out, args, i + 1, with_name, with_typ);
        proof {
            assert(out@ =~= old(out)@ + spec_arg_rest_text(tail, with_name, with_typ));
        }
    }
}

/// Appends a declared argument list: names, types, or both.
pub fn format_arg_list(
    out: &mut String,
    args: &Vec<(String, Type)>,
    with_name: bool,
    with_typ: bool,
)
    ensures
        final(out)@ == old(out)@ + spec_arg_list_text(
            crate::ast::args_view(args@),
            with_name,
            with_typ,
        ),
{
    if args.len() == 0 {
        proof {
            assert(out@ =~= out@ + spec_arg_list_text(
                crate::ast::args_view(args@),
                with_name,
                with_typ,
            ));
        }
    } else {
        push_arg_item(out, &args[0], with_name, with_typ);
        push_arg_rest(out, args, 1, with_name, with_typ);
        proof {
            assert(crate::ast::args_view(args@)[0] == (args@[0].0@, args@[0].1));
            assert(crate::ast::args_view(args@).drop_first() =~= crate::ast::args_view(
                args@,
            ).skip(1));
            assert(out@ =~= old(out)@ + spec_arg_list_text(
                crate::ast::args_view(args@),
                with_name,
                with_typ,
            ));
        }
    }
}

proof fn lemma_init_lookup_at(inits: Seq<(Seq<char>, ConstV)>, k: Seq<char>, i: int)
    requires
        0 <= i < inits.len(),
        inits[i].0 == k,
        forall|j: int| 0 <= j < i ==> (#[trigger] inits[j]).0 != k,
    ensures
        spec_init_lookup(inits, k) == Some(inits[i].1),
    decreases i,
{
    if i > 0 {
        lemma_init_lookup_at(inits.drop_first(), k, i - 1);
    }
}

proof fn lemma_init_lookup_none(inits: Seq<(Seq<char>, ConstV)>, k: Seq<char>)
    requires
        forall|j: int| 0 <= j < inits.len() ==> (#[trigger] inits[j]).0 != k,
    ensures
        spec_init_lookup(inits, k) is None,
    decreases inits.len(),
{
    if inits.len() > 0 {
        lemma_init_lookup_none(inits.drop_first(), k);
    }
}

fn init_lookup_exec<'a>(inits: &'a Vec<(String, Const)>, k: &String) -> (r: Option<
    &'a Const,
>)
    ensures
        ({
            let iv = inits@.map_values(|p: (String, Const)| (p.0@, p.1@));
            match r {
                Some(c) => spec_init_lookup(iv, k@) == Some(c@),
                None => spec_init_lookup(iv, k@) is None,
            }
        }),
{
    let ghost iv = inits@.map_values(|p: (String, Const)| (p.0@, p.1@));
    let mut i: usize = 0;
    while i < inits.len()
        invariant
            i <= inits.len(),
            iv == inits@.map_values(|p: (String, Const)| (p.0@, p.1@)),
            forall|j: int| 0 <= j < i ==> (#[trigger] iv[j]).0 != k@,
        decreases inits.len() - i,
    {
        if crate::text::str_eq(&inits[i].0, k) {
            proof {
                assert(iv[i as int] == (inits@[i as int].0@, inits@[i as int].1@));
                lemma_init_lookup_at(iv, k@, i as int);
            }
            return Some(&inits[i].1);
        }
        proof {
            assert(iv[i as int] == (inits@[i as int].0@, inits@[i as int].1@));
        }
        i = i + 1;
    }
    proof {
        lemma_init_lookup_none(iv, k@);
    }
    None
}

fn push_fields(out: &mut String, fields: &Vec<(String, String)>, i: usize)
    requires
        i <= fields.len(),
    ensures
        final(out)@ == old(out)@ + spec_fields_text(
            fields@.map_values(|p: (String, String)| (p.0@, p.1@)).skip(i as int),
        ),
    decreases fields@.len() - i,
{
    let ghost fv = fields@.map_values(|p: (String, String)| (p.0@, p.1@));
    let ghost tail = fv.skip(i as int);
    if i == fields.len() {
        proof {
            assert(tail =~= Seq::<(Seq<char>, Seq<char>)>::empty());
            assert(out@ =~= out@ + spec_fields_text(tail));
        }
    } else {
        proof {
            assert(tail[0] == (fields@[i as int].0@, fields@[i as int].1@));
            assert(tail.drop_first() =~= fv.skip(i as int + 1));
        }
        push_str_lit(out, "\t");
        push_string(out, &fields[i].0);
        push_str_lit(out, ": ");
        push_string(out, &fields[i].1);
        push_str_lit(out, ",\n");
        push_fields(out, fields, i + 1);
        proof {
            assert(out@ =~= old(out)@ + spec_fields_text(tail));
        }
    }
}

fn push_defaults(
    out: &mut String,
    fields: &Vec<(String, String)>,
    i: usize,
    inits: &Vec<(String, Const)>,
)
    requires
        i <= fields.len(),
    ensures
        final(out)@ == old(out)@ + spec_defaults_text(
            fields@.map_values(|p: (String, String)| (p.0@, p.1@)).skip(i as int),
            inits@.map_values(|p: (String, Const)| (p.0@, p.1@)),
        ),
    decreases fields@.len() - i,
{
    let ghost fv = fields@.map_values(|p: (String, String)| (p.0@, p.1@));
    let ghost tail = fv.skip(i as int);
    if i == fields.len() {
        proof {
            assert(tail =~= Seq::<(Seq<char>, Seq<char>)>::empty());
            assert(out@ =~= out@ + spec_defaults_text(
                tail,
                inits@.map_values(|p: (String, Const)| (p.0@, p.1@)),
            ));
        }
    } else {
        proof {
            assert(tail[0] == (fields@[i as int].0@, fields@[i as int].1@));
            assert(tail.drop_first() =~= fv.skip(i as int + 1));
        }
        push_str_lit(out, "\t\t\t");
        push_string(out, &fields[i].0);
        push_str_lit(out, ": ");
        match init_lookup_exec(inits, &fields[i].0) {
            Some(c) => push_const(out, c),
            None => push_str_lit(out, "Default::default()"),
        }
        push_str_lit(out, ",\n");
        push_defaults(out, fields, i + 1, inits);
        proof {
            assert(out@ =~= old(out)@ + spec_defaults_text(
                tail,
                inits@.map_values(|p: (String, Const)| (p.0@, p.1@)),
            ));
        }
    }
}

fn push_struct(out: &mut String, mem: &NodeMemory)
    ensures
        final(out)@ == old(out)@ + spec_struct_text(mem@),
{
    push_str_lit(out, "#[derive(Debug)]\nstruct ");
    push_string(out, &mem.name);
    push_str_lit(out, " {\n");
    push_fields(out, &mem.fields, 0);
    push_str_lit(out, "}\n\n");
    push_str_lit(out, "impl Default for ");
    push_string(out, &mem.name);
    push_str_lit(out, " {\n\tfn default() -> Self {\n\t\tSelf {\n");
    push_defaults(out, &mem.fields, 0, &mem.init_values);
    push_str_lit(out, "\t\t}\n\t}\n}\n\n");
    proof {
        assert(mem@.fields.skip(0) =~= mem@.fields);
        assert(out@ =~= old(out)@ + spec_struct_text(mem@));
    }
}

fn push_updates(out: &mut String, nexts: &Vec<(String, Bexpr)>, i: usize)
    requires
        i <= nexts.len(),
    ensures
        final(out)@ == old(out)@ + spec_updates_text(
            nexts@.map_values(|p: (String, Bexpr)| (p.0@, p.1@)).skip(i as int),
        ),
    decreases nexts@.len() - i,
{
    let ghost nv = nexts@.map_values(|p: (String, Bexpr)| (p.0@, p.1@));
    let ghost tail = nv.skip(i as int);
    if i == nexts.len() {
        proof {
            assert(tail =~= Seq::<(Seq<char>, BexprV)>::empty());
            assert(out@ =~= out@ + spec_updates_text(tail));
        }
    } else {
        proof {
            assert(tail[0] == (nexts@[i as int].0@, nexts@[i as int].1@));
            assert(tail.drop_first() =~= nv.skip(i as int + 1));
        }
        push_str_lit(out, "\tmem.");
        push_string(out, &nexts[i].0);
        push_str_lit(out, " = ");
        push_bexpr(out, &nexts[i].1);
        push_str_lit(out, ";\n");
        push_updates(out, nexts, i + 1);
        proof {
            assert(out@ =~= old(out)@ + spec_updates_text(tail));
        }
    }
}

fn push_node_open(out: &mut String, n: &Node, mems: &Vec<(String, NodeMemory)>)
    ensures
        final(out)@ == old(out)@ + spec_node_open_text(n@, mems_view(mems@)),
{
    push_str_lit(out, "fn ");
    push_string(out, &n.name);
    push_str_lit(out, "(");
    match mem_lookup_exec(mems, &n.name) {
        Some(mem) => {
            push_str_lit(out, "mem: &mut ");
            push_string(out, &mem.name);
            if n.args_in.len() > 0 {
                push_str_lit(out, ", ");
            }
        },
        None => {},
    }
    proof {
        assert(out@ =~= old(out)@ + spec_node_open_text(n@, mems_view(mems@)));
    }
}

fn push_node_sig(out: &mut String, n: &Node)
    ensures
        final(out)@ == old(out)@ + spec_node_sig_text(n@),
{
    format_arg_list(out, &n.args_in, true, true);
    push_str_lit(out, ") -> ");
    if n.args_out.len() > 1 {
        push_str_lit(out, "(");
    }
    format_arg_list(out, &n.args_out, false, true);
    if n.args_out.len() > 1 {
        push_str_lit(out, ")");
    }
    push_str_lit(out, " {\n");
    proof {
        assert(out@ =~= old(out)@ + spec_node_sig_text(n@));
    }
}

fn push_node_header(out: &mut String, n: &Node, mems: &Vec<(String, NodeMemory)>)
    ensures
        final(out)@ == old(out)@ + spec_node_header_text(n@, mems_view(mems@)),
{
    push_node_open(out, n, mems);
    push_node_sig(out, n);
    proof {
        assert(out@ =~= old(out)@ + spec_node_header_text(n@, mems_view(mems@)));
    }
}

fn push_node_return(out: &mut String, n: &Node)
    ensures
        final(out)@ == old(out)@ + spec_node_return_text(n@),
{
    push_str_lit(out, "\treturn ");
    if n.args_out.len() > 1 {
        push_str_lit(out, "(");
    }
    format_arg_list(out, &n.args_out, true, false);
    if n.args_out.len() > 1 {
        push_str_lit(out, ")");
    }
    push_str_lit(out, ";\n");
    push_str_lit(out, "}\n\n");
    proof {
        assert(out@ =~= old(out)@ + spec_node_return_text(n@));
    }
}

fn push_node(out: &mut String, n: &Node, mems: &Vec<(String, NodeMemory)>)
    ensures
        final(out)@ == old(out)@ + spec_node_text(n@, mems_view(mems@)),
{
    match mem_lookup_exec(mems, &n.name) {
        Some(mem) => push_struct(out, mem),
        None => {},
    }
    proof {
        assert(out@ =~= old(out)@ + spec_node_struct_part(n@, mems_view(mems@)));
    }
    push_node_header(out, n, mems);
    proof {
        assert(crate::nast::equations_view(n.body@).skip(0) =~= n@.body);
    }
    push_equations(out, &n.body, 0, mems);
    match mem_lookup_exec(mems, &n.name) {
        Some(mem) => {
            proof {
                assert(mem@.next_values.skip(0) =~= mem@.next_values);
            }
            push_updates(out, &mem.next_values, 0);
        },
        None => {},
    }
    proof {
        assert(out@ =~= old(out)@ + spec_node_struct_part(n@, mems_view(mems@))
            + spec_node_header_text(n@, mems_view(mems@)) + spec_equations_text(
            n@.body,
            mems_view(mems@),
        ) + spec_node_updates_part(n@, mems_view(mems@)));
    }
    push_node_return(out, n);
    proof {
        assert(out@ =~= old(out)@ + spec_node_text(n@, mems_view(mems@)));
    }
}

fn push_nodes(out: &mut String, f: &Vec<Node>, i: usize, mems: &Vec<(String, NodeMemory)>)
    requires
        i <= f.len(),
    ensures
        final(out)@ == old(out)@ + spec_nodes_text(
            crate::nast::program_view(f@).skip(i as int),
            mems_view(mems@),
        ),
    decreases f@.len() - i,
{
    let ghost tail = crate::nast::program_view(f@).skip(i as int);
    if i == f.len() {
        proof {
            assert(tail =~= Seq::<NodeV>::empty());
            assert(out@ =~= out@ + spec_nodes_text(tail, mems_view(mems@)));
        }
    } else {
        proof {
            assert(tail[0] == f@[i as int]@);
            assert(tail.drop_first() =~= crate::nast::program_view(f@).skip(i as int + 1));
        }
        push_node(out, &f[i], mems);
        push_nodes(out, f, i + 1, mems);
        proof {
            assert(out@ =~= old(out)@ + spec_nodes_text(tail, mems_view(mems@)));
        }
    }
}

#[verifier::rlimit(100)]
fn push_input_read(out: &mut String, name: &String, typ: Type)
    ensures
        final(out)@ == old(out)@ + spec_input_read_text((name@, typ)),
{
    match typ {
        Type::Unit => {
            push_str_lit(out, "\tlet ");
            push_string(out, name);
            push_str_lit(out, " = ();\n");
            proof {
                assert(out@ =~= old(out)@ + spec_input_read_text((name@, typ)));
            }
        },
        _ => {
            push_str_lit(out, "\teprint!(\"");
            push_string(out, name);
            push_str_lit(out, ": \");\n");
            push_str_lit(out, "\tlet mut ");
            push_string(out, name);
            push_str_lit(out, "_str = String::new();\n");
            push_str_lit(out, "\tstd::io::stdin().read_line(&mut ");
            push_string(out, name);
            push_str_lit(out, "_str).unwrap();\n");
            match typ {
                Type::Str => {
                    push_str_lit(out, "\tlet ");
                    push_string(out, name);
                    push_str_lit(out, " = ");
                    push_string(out, name);
                    push_str_lit(out, "_str;\n");
                },
                _ => {
                    push_str_lit(out, "\tlet ");
                    push_string(out, name);
                    push_str_lit(out, " = ");
                    push_string(out, name);
                    push_str_lit(out, "_str.trim().parse::<");
                    push_str_lit(out, get_type(typ));
                    push_str_lit(out, ">().unwrap();\n");
                },
            }
            push_str_lit(out, "\n");
            proof {
                assert(out@ =~= old(out)@ + spec_input_read_text((name@, typ)));
            }
        },
    }
}

fn push_input_reads(out: &mut String, args: &Vec<(String, Type)>, i: usize)
    requires
        i <= args.len(),
    ensures
        final(out)@ == old(out)@ + spec_input_reads_text(
            crate::ast::args_view(args@).skip(i as int),
        ),
    decreases args@.len() - i,
{
    let ghost tail = crate::ast::args_view(args@).skip(i as int);
    if i == args.len() {
        proof {
            assert(tail =~= Seq::<(Seq<char>, Type)>::empty());
            assert(out@ =~= out@ + spec_input_reads_text(tail));
        }
    } else {
        proof {
            assert(tail[0] == (args@[i as int].0@, args@[i as int].1));
            assert(tail.drop_first() =~= crate::ast::args_view(args@).skip(i as int + 1));
        }
        push_input_read(out, &args[i].0, args[i].1);
        push_input_reads(out, args, i + 1);
        proof {
            assert(out@ =~= old(out)@ + spec_input_reads_text(tail));
        }
    }
}

#[verifier::rlimit(60)]
fn push_main(out: &mut String, f: &Vec<Node>, mems: &Vec<(String, NodeMemory)>)
    ensures
        final(out)@ == old(out)@ + spec_main_text(
            crate::nast::program_view(f@),
            mems_view(mems@),
        ),
{
    push_str_lit(out, "fn main() {\n");
    if f.len() > 0 {
        let n = &f[f.len() - 1];
        proof {
            assert(crate::nast::program_view(f@)[f@.len() - 1] == f@[f@.len() - 1]@);
        }
        push_str_lit(out, "\teprintln!(\"We will call node `");
        push_string(out, &n.name);
        push_str_lit(out, "` 10 times.\");\n");
        proof {
            assert(crate::ast::args_view(n.args_in@).skip(0) =~= n@.args_in);
        }
        push_input_reads(out, &n.args_in, 0);
        match mem_lookup_exec(mems, &n.name) {
            Some(mem) => {
                push_str_lit(out, "\tlet mut mem: ");
                push_string(out, &mem.name);
                push_str_lit(out, " = Default::default();\n");
            },
            None => {},
        }
        push_str_lit(out, "\tfor _ in 0..10 {\n");
        push_str_lit(out, "\t\tlet v = ");
        let mut argv: Vec<Bexpr> = Vec::new();
        let mut ai: usize = 0;
        while ai < n.args_in.len()
            invariant
                ai <= n.args_in.len(),
                argv@.len() == ai,
                forall|k: int|
                    0 <= k < ai ==> (#[trigger] argv@[k])@ == BexprV::Atom(
                        AtomV::Ident(n.args_in@[k].0@),
                    ),
            decreases n.args_in.len() - ai,
        {
            argv.push(Bexpr::Atom(Atom::Ident(n.args_in[ai].0.clone())));
            ai = ai + 1;
        }
        let call = Expr::Call { name: n.name.clone(), args: argv };
        let empty_dest: Vec<String> = Vec::new();
        proof {
            assert(call@ =~= spec_main_call(f@[f@.len() - 1]@)) by {
                match (call@, spec_main_call(f@[f@.len() - 1]@)) {
                    (ExprV::Call { name: n1, args: a1 }, ExprV::Call { name: n2, args: a2 }) => {
                        assert forall|k: int| 0 <= k < a1.len() implies a1[k] == a2[k] by {
                            assert(a1[k] == argv@[k]@);
                            assert(a2[k] == BexprV::Atom(
                                AtomV::Ident(f@[f@.len() - 1]@.args_in[k].0),
                            ));
                            assert(f@[f@.len() - 1]@.args_in[k] == (
                                n.args_in@[k].0@,
                                n.args_in@[k].1,
                            ));
                        }
                        assert(a1 =~= a2);
                    },
                    _ => {},
                }
            }
            assert(strings_view(empty_dest@) =~= Seq::<Seq<char>>::empty());
        }
        push_expr(out, &call, &empty_dest, mems);
        push_str_lit(out, ";\n");
        push_str_lit(out, "\t\teprintln!(\"{:?}\", &v);\n");
        push_str_lit(out, "\t}\n");
    }
    push_str_lit(out, "}\n");
    proof {
        assert(out@ =~= old(out)@ + spec_main_text(
            crate::nast::program_view(f@),
            mems_view(mems@),
        ));
    }
}

/// Emits the whole program: the built-in `print`, one step function
/// per node (with its memory type where one is needed), and the entry
/// point running the last node.
pub fn format(f: &Vec<Node>) -> (r: Result<String, CompileError>)
    requires
        prog_emit_ready(crate::nast::program_view(f@)),
    ensures
        (r is Ok) == (spec_format(crate::nast::program_view(f@)) is Ok),
        r matches Ok(s) ==> spec_format(crate::nast::program_view(f@)) matches Ok(t) && s@
            == t,
        r matches Err(e) ==> spec_format(crate::nast::program_view(f@)) matches Err(p) && e@
            == (crate::error::CompileErrorV::NonConstFbyInit { node: p.0, name: p.1 }),
{
    let ghost pv = crate::nast::program_view(f@);
    let mut mems: Vec<(String, NodeMemory)> = Vec::new();
    let mut i: usize = 0;
    proof {
        assert(pv.skip(0) =~= pv);
        assert(mems_view(mems@) =~= Seq::<(Seq<char>, NodeMemoryV)>::empty());
    }
    while i < f.len()
        invariant
            i <= f.len(),
            pv == crate::nast::program_view(f@),
            prog_emit_ready(pv),
            spec_mems_from(pv, Seq::empty()) == spec_mems_from(
                pv.skip(i as int),
                mems_view(mems@),
            ),
        decreases f.len() - i,
    {
        proof {
            assert(pv.skip(i as int)[0] == f@[i as int]@);
            assert(pv[i as int] == f@[i as int]@);
            assert(pv.skip(i as int).drop_first() =~= pv.skip(i as int + 1));
        }
        match get_node_mem(&f[i], &mems) {
            Err(nm) => {
                return Err(
                    CompileError::NonConstFbyInit { node: f[i].name.clone(), name: nm },
                );
            },
            Ok(Some(m)) => {
                let ghost oldmems = mems_view(mems@);
                let ghost mv = m@;
                mems.push((f[i].name.clone(), m));
                proof {
                    assert(mems_view(mems@) =~= oldmems.push((f@[i as int].name@, mv)));
                }
            },
            Ok(None) => {},
        }
        i = i + 1;
    }
    proof {
        assert(pv.skip(f@.len() as int) =~= Seq::<NodeV>::empty());
    }
    let mut out = String::new();
    push_str_lit(&mut out, "fn print(s: &str) {\n\tprintln!(\"{}\", s);\n}\n\n");
    proof {
        assert(pv.skip(0) =~= pv);
    }
    push_nodes(&mut out, f, 0, &mems);
    push_main(&mut out, f, &mems);
    proof {
        match spec_format(pv) {
            Ok(t) => {
                assert(out@ =~= t);
            },
            Err(_) => {
                assert(false);
            },
        }
    }
    Ok(out)
}


fn eq_emit_ready_exec(eq: &Equation) -> (b: bool)
    ensures
        b == eq_emit_ready(eq@),
{
    let nlen = eq.names.len();
    if nlen < 1 {
        return false;
    }
    match &eq.body {
        Expr::Fby(inits, nexts) => inits.len() == nlen && nexts.len() == nlen,
        _ => true,
    }
}

/// Whether every equation of the node has the shape emission asks for.
pub fn check_node_emit_ready(n: &Node) -> (b: bool)
    ensures
        b == node_emit_ready(n@),
{
    let mut i: usize = 0;
    while i < n.body.len()
        invariant
            i <= n.body.len(),
            forall|k: int|
                0 <= k < i ==> eq_emit_ready(#[trigger] crate::nast::equations_view(n.body@)[k]),
        decreases n.body.len() - i,
    {
        if !eq_emit_ready_exec(&n.body[i]) {
            proof {
                assert(crate::nast::equations_view(n.body@)[i as int] == n.body@[i as int]@);
                assert(!eq_emit_ready(n@.body[i as int]));
            }
            return false;
        }
        proof {
            assert(crate::nast::equations_view(n.body@)[i as int] == n.body@[i as int]@);
        }
        i = i + 1;
    }
    true
}

/// Whether every node of the program is ready for emission.
pub fn check_emit_ready(f: &Vec<Node>) -> (b: bool)
    ensures
        b == prog_emit_ready(crate::nast::program_view(f@)),
{
    let mut i: usize = 0;
    while i < f.len()
        invariant
            i <= f.len(),
            forall|k: int|
                0 <= k < i ==> node_emit_ready(#[trigger] crate::nast::program_view(f@)[k]),
        decreases f.len() - i,
    {
        if !check_node_emit_ready(&f[i]) {
            proof {
                assert(crate::nast::program_view(f@)[i as int] == f@[i as int]@);
            }
            return false;
        }
        proof {
            assert(crate::nast::program_view(f@)[i as int] == f@[i as int]@);
        }
        i = i + 1;
    }
    true
}

/// A source of state in a body: a delay equation, or a call to a node
/// that has a memory.
pub open spec fn spec_has_state_source(body: Seq<EquationV>, mems: MemsV) -> bool {
    exists|i: int|
        0 <= i < body.len() && ((#[trigger] body[i]).body is Fby || (body[i].body
            matches ExprV::Call { name, args } && mem_lookup(mems, name) is Some))
}

proof fn lemma_fby_slots_len(
    names: Seq<Seq<char>>,
    inits: Seq<AtomV>,
    nexts: Seq<BexprV>,
    i: int,
)
    requires
        0 <= i <= names.len(),
        spec_fby_slots(names, inits, nexts, i) is Ok,
    ensures
        spec_fby_slots(names, inits, nexts, i)->Ok_0.0.len() == names.len() - i,
    decreases names.len() - i,
{
    if i < names.len() {
        lemma_fby_slots_len(names, inits, nexts, i + 1);
    }
}

proof fn lemma_slots_state(body: Seq<EquationV>, mems: MemsV)
    requires
        forall|k: int| 0 <= k < body.len() ==> eq_emit_ready(#[trigger] body[k]),
        spec_slots(body, mems) is Ok,
    ensures
        (spec_slots(body, mems)->Ok_0.0.len() > 0) <==> spec_has_state_source(body, mems),
    decreases body.len(),
{
    if body.len() == 0 {
    } else {
        let tail = body.drop_first();
        assert(forall|k: int| 0 <= k < tail.len() ==> eq_emit_ready(#[trigger] tail[k]));
        lemma_slots_state(tail, mems);
        let h = spec_eq_slots(body[0], mems)->Ok_0;
        let t = spec_slots(tail, mems)->Ok_0;
        match body[0].body {
            ExprV::Fby(inits, nexts) => {
                lemma_fby_slots_len(body[0].names, inits, nexts, 0);
                assert(h.0.len() == body[0].names.len());
                assert(eq_emit_ready(body[0]));
                assert(spec_has_state_source(body, mems)) by {
                    assert(body[0].body is Fby);
                }
            },
            ExprV::Call { name, args } => {
                match mem_lookup(mems, name) {
                    Some(_) => {
                        assert(h.0.len() == 1);
                        assert(spec_has_state_source(body, mems)) by {
                            assert(body[0].body is Call);
                            assert(mem_lookup(mems, name) is Some);
                        }
                    },
                    None => {
                        assert(h.0.len() == 0);
                        lemma_state_source_shift(body, mems);
                    },
                }
            },
            ExprV::Bexpr(_) => {
                assert(h.0.len() == 0);
                lemma_state_source_shift(body, mems);
            },
        }
    }
}

/// When the first equation is no source of state, the body has one
/// exactly when its tail has.
proof fn lemma_state_source_shift(body: Seq<EquationV>, mems: MemsV)
    requires
        body.len() > 0,
        !(body[0].body is Fby),
        body[0].body matches ExprV::Call { name, args } ==> mem_lookup(mems, name) is None,
    ensures
        spec_has_state_source(body, mems) <==> spec_has_state_source(body.drop_first(), mems),
{
    let tail = body.drop_first();
    if spec_has_state_source(body, mems) {
        let i = choose|i: int|
            0 <= i < body.len() && ((#[trigger] body[i]).body is Fby || (body[i].body
                matches ExprV::Call { name, args } && mem_lookup(mems, name) is Some));
        assert(i != 0);
        assert(tail[i - 1] == body[i]);
        assert(spec_has_state_source(tail, mems));
    }
    if spec_has_state_source(tail, mems) {
        let i = choose|i: int|
            0 <= i < tail.len() && ((#[trigger] tail[i]).body is Fby || (tail[i].body
                matches ExprV::Call { name, args } && mem_lookup(mems, name) is Some));
        assert(body[i + 1] == tail[i]);
        assert(spec_has_state_source(body, mems));
    }
}

/// A node has a memory exactly when its body holds at least one delay
/// equation or at least one call to a node that has a memory.
pub proof fn lemma_node_memory_iff(n: NodeV, mems: MemsV)
    requires
        node_emit_ready(n),
        spec_get_node_mem(n, mems) is Ok,
    ensures
        (spec_get_node_mem(n, mems)->Ok_0 is Some) <==> spec_has_state_source(n.body, mems),
{
    lemma_slots_state(n.body, mems);
}

} // verus!