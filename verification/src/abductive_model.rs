//! What the operations on analysis states compute.

use crate::abstract_value::AbstractValue;
use crate::access::Access;
use crate::attribute::Attribute;
use crate::base_attrs::{add_one, drop_kind};
use crate::base_domain::{base_subst, BaseV};
use crate::base_stack::{stack_add, stack_find, StackV};
use crate::formula::Operand;
use crate::formula::formula_model::{operand_int, FOutcome, FormulaModel};
use crate::formula::phi::NewEq;
use crate::formula::solver::run_var_equal;
use crate::formula::var_uf::{repr, Eqs};
use crate::heap_model::{
    edges_at, memory_add, memory_find, memory_register, EdgeEntry, EdgesV, MemoryV,
};
use crate::heap_reach::reachable_set;
use crate::invalidation::Invalidation;
use crate::key::KeyV;
use crate::ordered::{lookup, put, set_put};
use crate::sat_unsat::SatUnsat;
use crate::sil::{IntLit, Location, Mangled, Procname, Pvar, PvarKind, Typ, Var};
use crate::value_history::{HistoryEvent, ValueHistory, ValueWithHistory};
use vstd::prelude::*;

verus! {

/// An analysis state.
#[verifier::ext_equal]
pub struct AbductiveV {
    /// What the procedure assumes of its inputs.
    pub pre: BaseV,
    /// The current state.
    pub post: BaseV,
    /// The path condition.
    pub formula: FormulaModel,
    /// For each constant seen as an index, a value equal to it.
    pub consts: Seq<(i64, AbstractValue)>,
    /// Values whose dynamic type the procedure needs to know.
    pub need_types: Seq<AbstractValue>,
    /// Values that the procedure accesses.
    pub must_be_valid: Seq<AbstractValue>,
}

/// The representative of `v`.
pub open spec fn repr_in(d: AbductiveV, v: AbstractValue) -> AbstractValue {
    repr(d.formula.phi.eqs, v)
}

/// A value without provenance.
pub open spec fn plain(addr: AbstractValue) -> ValueWithHistory {
    ValueWithHistory { addr, history: ValueHistory::start() }
}

/// `d` with the formal `formal` of `proc_name` bound to `addr`, in the
/// precondition and in the current state.
pub open spec fn bind_formal(
    d: AbductiveV,
    proc_name: Procname,
    formal: Mangled,
    addr: AbstractValue,
) -> AbductiveV {
    let pvar = Pvar { name: formal, kind: PvarKind::Local { proc_name } };
    let var = Var::ProgramVar(Box::new(pvar));
    let value = ValueWithHistory {
        addr,
        history: ValueHistory::of_event(HistoryEvent::FormalArgument(pvar)),
    };
    AbductiveV {
        pre: BaseV {
            stack: stack_add(d.pre.stack, var, value),
            heap: memory_register(d.pre.heap, addr),
            ..d.pre
        },
        post: BaseV {
            stack: stack_add(d.post.stack, var, value),
            heap: memory_register(d.post.heap, addr),
            ..d.post
        },
        ..d
    }
}

/// `d` with the formals bound to consecutive values from `next` on.
pub open spec fn bind_formals(
    d: AbductiveV,
    proc_name: Procname,
    formals: Seq<(Mangled, Typ)>,
    next: int,
) -> AbductiveV
    decreases formals.len(),
{
    if formals.len() == 0 {
        d
    } else {
        bind_formal(
            bind_formals(d, proc_name, formals.drop_last(), next),
            proc_name,
            formals.last().0,
            AbstractValue((next + formals.len() - 1) as i64),
        )
    }
}

/// `d` with `var` bound to `addr`, unless it is bound already.
pub open spec fn evaluated(d: AbductiveV, var: Var, addr: AbstractValue) -> AbductiveV {
    if stack_find(d.post.stack, var) is Some {
        d
    } else {
        AbductiveV {
            post: BaseV { stack: stack_add(d.post.stack, var, plain(addr)), ..d.post },
            ..d
        }
    }
}

/// `d` after reading the edge from `src` along `access`: where there is none, one
/// to `fresh` is made, also in the precondition for an address that is there.
pub open spec fn after_read(
    d: AbductiveV,
    src: ValueWithHistory,
    access: Access,
    fresh: AbstractValue,
) -> AbductiveV {
    if memory_find(d.post.heap, src.addr, access) is Some {
        d
    } else {
        let value = ValueWithHistory { addr: fresh, history: src.history };
        AbductiveV {
            post: BaseV { heap: memory_add(d.post.heap, src.addr, access, value), ..d.post },
            pre: if lookup(d.pre.heap.graph, src.addr) is Some {
                BaseV {
                    heap: memory_register(memory_add(d.pre.heap, src.addr, access, value), fresh),
                    ..d.pre
                }
            } else {
                d.pre
            },
            ..d
        }
    }
}

/// What reading the edge from `src` along `access` gives.
pub open spec fn read_value(
    d: AbductiveV,
    src: ValueWithHistory,
    access: Access,
    fresh: AbstractValue,
) -> ValueWithHistory {
    match memory_find(d.post.heap, src.addr, access) {
        Some(v) => v,
        None => ValueWithHistory { addr: fresh, history: src.history },
    }
}

/// `d` after writing `value` to the edge from `addr` along `access`.
pub open spec fn after_write(
    d: AbductiveV,
    addr: AbstractValue,
    access: Access,
    value: ValueWithHistory,
) -> AbductiveV {
    AbductiveV {
        post: BaseV { heap: memory_add(d.post.heap, addr, access, value), ..d.post },
        ..d
    }
}

/// `d` with `attr` on the representative of `addr`.
pub open spec fn with_attr(d: AbductiveV, addr: AbstractValue, attr: Attribute) -> AbductiveV {
    AbductiveV {
        post: BaseV { attrs: add_one(d.post.attrs, repr_in(d, addr), attr), ..d.post },
        ..d
    }
}

/// The test for being in the class of `addr`.
pub open spec fn same_class(eqs: Eqs, addr: AbstractValue) -> spec_fn(AbstractValue) -> bool {
    |v: AbstractValue| repr(eqs, v) == repr(eqs, addr)
}

/// The address has edges, in the precondition or in the current state.
pub open spec fn has_edges(
    g: Seq<(AbstractValue, EdgesV)>,
    eqs: Eqs,
    addr: AbstractValue,
) -> bool {
    exists|i: int|
        0 <= i < g.len() && (#[trigger] g[i]).1.values.len() > 0 && repr(eqs, g[i].0) == addr
}

pub open spec fn heap_allocated(d: AbductiveV, addr: AbstractValue) -> bool {
    has_edges(d.post.heap.graph, d.formula.phi.eqs, addr) || has_edges(
        d.pre.heap.graph,
        d.formula.phi.eqs,
        addr,
    )
}

/// The address is that of a program variable.
pub open spec fn stack_allocated(d: AbductiveV, addr: AbstractValue) -> bool {
    exists|i: int|
        0 <= i < d.post.stack.len() && (#[trigger] d.post.stack[i]).1.var is ProgramVar && repr(
            d.formula.phi.eqs,
            d.post.stack[i].1.value.addr,
        ) == addr
}

/// The representative of the image of `v`.
pub open spec fn subst_repr(
    eqs: Eqs,
    old: AbstractValue,
    new: AbstractValue,
    v: AbstractValue,
) -> AbstractValue {
    repr(
        eqs,
        if v == old {
            new
        } else {
            v
        },
    )
}

/// The set of the representatives of the images.
pub open spec fn subst_set(
    eqs: Eqs,
    old: AbstractValue,
    new: AbstractValue,
    s: Seq<AbstractValue>,
) -> Seq<AbstractValue>
    decreases s.len(),
{
    if s.len() == 0 {
        seq![]
    } else {
        set_put::<AbstractValue>(
            subst_set(eqs, old, new, s.drop_last()),
            subst_repr(eqs, old, new, s.last()),
        )
    }
}

/// The constants with the representatives of the images.
pub open spec fn subst_consts(
    eqs: Eqs,
    old: AbstractValue,
    new: AbstractValue,
    s: Seq<(i64, AbstractValue)>,
) -> Seq<(i64, AbstractValue)> {
    Seq::new(s.len(), |i: int| (s[i].0, subst_repr(eqs, old, new, s[i].1)))
}

/// `d` with `old` replaced by the representative of `new` everywhere outside the
/// path condition.
pub open spec fn state_subst(d: AbductiveV, old: AbstractValue, new: AbstractValue) -> AbductiveV {
    let eqs = d.formula.phi.eqs;
    let target = repr(eqs, new);
    AbductiveV {
        pre: base_subst(d.pre, old, target),
        post: base_subst(d.post, old, target),
        formula: d.formula,
        consts: subst_consts(eqs, old, target, d.consts),
        need_types: subst_set(eqs, old, target, d.need_types),
        must_be_valid: subst_set(eqs, old, target, d.must_be_valid),
    }
}

/// The attribute of an address found to be null.
pub open spec fn null_attribute() -> Attribute {
    let inv = Invalidation::ConstantDereference(IntLit { value: 0 });
    Attribute::Invalid(
        inv,
        ValueHistory::of_event(
            (HistoryEvent::Invalidated { invalidation: inv, location: Location::nowhere() }),
        ),
    )
}

/// `d` with the equations that the path condition has found, and whether the
/// state is possible: an address of a program variable is not null, and a null
/// address with edges is invalid.
pub open spec fn incorporated(d: AbductiveV, eqs: Seq<NewEq>) -> (AbductiveV, bool)
    decreases eqs.len(),
{
    if eqs.len() == 0 {
        (d, true)
    } else {
        match eqs[0] {
            NewEq::Equal(a, b) => incorporated(
                if a == b {
                    d
                } else {
                    state_subst(d, a, b)
                },
                eqs.drop_first(),
            ),
            NewEq::EqZero(v) => {
                let r = repr_in(d, v);
                if stack_allocated(d, r) {
                    (d, false)
                } else {
                    incorporated(
                        if heap_allocated(d, r) {
                            AbductiveV {
                                post: BaseV {
                                    attrs: add_one(d.post.attrs, r, null_attribute()),
                                    ..d.post
                                },
                                ..d
                            }
                        } else {
                            d
                        },
                        eqs.drop_first(),
                    )
                }
            },
        }
    }
}

/// `d` with the outcome of an operation on its path condition.
pub open spec fn applied(d: AbductiveV, o: FOutcome) -> (AbductiveV, bool) {
    match o {
        Some((f, SatUnsat::Sat(eqs))) => incorporated(AbductiveV { formula: f, ..d }, eqs),
        Some((f, SatUnsat::Unsat)) => (AbductiveV { formula: f, ..d }, false),
        None => (d, false),
    }
}

/// The sets of addresses that a caller keeps while importing the facts of a
/// callee, together with the state.
#[verifier::ext_equal]
pub struct ImportV {
    pub state: AbductiveV,
    pub must_be_valid: Seq<AbstractValue>,
    pub stack_allocated: Seq<AbstractValue>,
    pub heap_allocated: Seq<AbstractValue>,
}

/// Outcome of applying callee-imported equalities to an abductive state.
#[derive(Clone, Copy, Debug, PartialEq, Eq, Structural)]
pub enum ImportedFormulaEffect {
    Sat,
    PotentialInvalidAccess(AbstractValue),
}

/// `m` with the equations that importing a fact has found. An address that the
/// caller had allocated before the call is not null; if the callee accesses it,
/// the access is potentially invalid.
pub open spec fn imported(m: ImportV, eqs: Seq<NewEq>) -> (ImportV, SatUnsat<ImportedFormulaEffect>)
    decreases eqs.len(),
{
    if eqs.len() == 0 {
        (m, SatUnsat::Sat(ImportedFormulaEffect::Sat))
    } else {
        match eqs[0] {
            NewEq::Equal(a, b) => imported(
                if a == b {
                    m
                } else {
                    let e = m.state.formula.phi.eqs;
                    ImportV {
                        state: state_subst(m.state, a, b),
                        must_be_valid: subst_set(e, a, b, m.must_be_valid),
                        stack_allocated: subst_set(e, a, b, m.stack_allocated),
                        heap_allocated: subst_set(e, a, b, m.heap_allocated),
                    }
                },
                eqs.drop_first(),
            ),
            NewEq::EqZero(v) => {
                let r = repr_in(m.state, v);
                if m.stack_allocated.contains(r) {
                    (m, SatUnsat::Unsat)
                } else if m.heap_allocated.contains(r) {
                    if m.must_be_valid.contains(r) {
                        (m, SatUnsat::Sat(ImportedFormulaEffect::PotentialInvalidAccess(r)))
                    } else {
                        (m, SatUnsat::Unsat)
                    }
                } else {
                    imported(m, eqs.drop_first())
                }
            },
        }
    }
}

/// The representatives of the addresses of program variables.
pub open spec fn stack_roots(eqs: Eqs, s: StackV) -> Seq<AbstractValue>
    decreases s.len(),
{
    if s.len() == 0 {
        seq![]
    } else {
        let rest = stack_roots(eqs, s.drop_last());
        if s.last().1.var is ProgramVar {
            set_put::<AbstractValue>(rest, repr(eqs, s.last().1.value.addr))
        } else {
            rest
        }
    }
}

/// `acc` with the representatives of the addresses that have edges.
pub open spec fn heap_roots(
    eqs: Eqs,
    g: Seq<(AbstractValue, EdgesV)>,
    acc: Seq<AbstractValue>,
) -> Seq<AbstractValue>
    decreases g.len(),
{
    if g.len() == 0 {
        acc
    } else {
        let rest = heap_roots(eqs, g.drop_last(), acc);
        if g.last().1.values.len() > 0 {
            set_put::<AbstractValue>(rest, repr(eqs, g.last().0))
        } else {
            rest
        }
    }
}

/// `d` after an index `v` has been looked up: a value known to be a constant is
/// made equal to the one seen before for that constant, or remembered as the
/// first. `None` where the arithmetic leaves its range.
pub open spec fn canonicalized(d: AbductiveV, v: AbstractValue) -> Option<
    (AbductiveV, AbstractValue),
> {
    match operand_int(d.formula.phi, Operand::AbstractValue(v)) {
        None => Some((d, repr_in(d, v))),
        Some(c) => match lookup(d.consts, c) {
            None => {
                let d1 = AbductiveV { consts: put::<i64, AbstractValue>(d.consts, c, v), ..d };
                Some((d1, repr_in(d1, v)))
            },
            Some(existing) => if existing == v {
                Some((d, repr_in(d, existing)))
            } else {
                match run_var_equal(d.formula.phi, v, existing) {
                    None => None,
                    Some((phi, res)) => {
                        let f = FormulaModel { phi, ..d.formula };
                        let d1 = applied(d, Some((f, res))).0;
                        Some((d1, repr_in(d1, existing)))
                    },
                }
            },
        },
    }
}

/// `h` with the edges of `addr` along the accesses of `s` leading to consecutive
/// values from `next` on.
pub open spec fn havoc_edges(
    h: MemoryV,
    addr: AbstractValue,
    s: Seq<(KeyV, EdgeEntry)>,
    next: int,
) -> MemoryV
    decreases s.len(),
{
    if s.len() == 0 {
        h
    } else {
        memory_add(
            havoc_edges(h, addr, s.drop_last(), next),
            addr,
            s.last().1.access,
            plain(AbstractValue((next + s.len() - 1) as i64)),
        )
    }
}

/// How many edges the addresses of `s` have, each counted when it is its turn.
pub open spec fn edge_count(h: MemoryV, s: Seq<AbstractValue>, next: int) -> nat
    decreases s.len(),
{
    if s.len() == 0 {
        0
    } else {
        let rest = s.drop_last();
        edge_count(h, rest, next) + edges_at(havocked_heap(h, rest, next), s.last()).values.len()
    }
}

/// `h` with all edges of the addresses of `s` leading to fresh values.
pub open spec fn havocked_heap(h: MemoryV, s: Seq<AbstractValue>, next: int) -> MemoryV
    decreases s.len(),
{
    if s.len() == 0 {
        h
    } else {
        let rest = s.drop_last();
        let before = havocked_heap(h, rest, next);
        havoc_edges(
            before,
            s.last(),
            edges_at(before, s.last()).values,
            next + edge_count(h, rest, next),
        )
    }
}

/// The attributes with no address of `s` marked as allocated.
pub open spec fn deallocated(
    m: crate::base_attrs::AttrMapV,
    s: Seq<AbstractValue>,
) -> crate::base_attrs::AttrMapV
    decreases s.len(),
{
    if s.len() == 0 {
        m
    } else {
        drop_kind(
            deallocated(m, s.drop_last()),
            s.last(),
            crate::attribute::AttributeKind::Allocated,
        )
    }
}

/// `d` after an unknown call was passed `addr`: the edges of every address it
/// leads to go to fresh values, and none of them counts as allocated any more.
pub open spec fn havocked(d: AbductiveV, addr: AbstractValue, next: int) -> AbductiveV {
    let s = reachable_set(d.post.heap.graph, addr);
    AbductiveV {
        post: BaseV {
            heap: havocked_heap(d.post.heap, s, next),
            attrs: deallocated(d.post.attrs, s),
            ..d.post
        },
        ..d
    }
}

} // verus!
