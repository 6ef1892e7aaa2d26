//! Abductive domain: the main analysis state.
//!
//! Wraps two [`BaseDomain`]s and a [`Formula`] to provide the safe API for
//! reading/writing the abstract heap, checking validity, and tracking path
//! conditions. The precondition is populated while the analysis reads memory
//! that the procedure got from its caller.

use crate::abductive_model::{
    after_read, after_write, applied, bind_formal, bind_formals, canonicalized, deallocated,
    edge_count, evaluated, has_edges, havoc_edges, havocked, havocked_heap, heap_allocated,
    heap_roots, imported, incorporated, null_attribute, plain, read_value, repr_in, same_class,
    stack_allocated, stack_roots, state_subst, subst_consts, subst_set, with_attr, AbductiveV,
    ImportV, ImportedFormulaEffect,
};
use crate::abstract_value::{AbstractValue, FreshCounters};
use crate::access::Access;
use crate::attribute::{first_of_kind, Allocator, Attribute, AttributeKind};
use crate::base_attrs::{add_one, attrs_at, initialized, invalid_at};
use crate::base_domain::{
    empty_base, graph_history, merge_heap_history, merge_stack_history, stack_history, test_fn,
    BaseDomain, BaseV, ValueTest,
};
use crate::base_memory::{BaseMemory, DEFAULT_RECENCY_LIMIT};
use crate::base_stack::stack_find;
use crate::binop::Binop;
use crate::formula::{operand_const, Formula, Operand};
use crate::formula::atom::Atom;
use crate::formula::formula_model::{
    enforce, equal_binop, less, lifted, normalized, not_equal, prune_const, prune_equal,
    prune_order, recorded, FormulaModel,
};
use crate::formula::lin_arith::LinArith;
use crate::formula::phi::{report, NewEq};
use crate::formula::resolve::ValueSet;
use crate::formula::solver::{
    empty_phi, known_const, run_atom, run_const_eq, run_linear_eq, run_var_equal,
};
use crate::formula::var_uf::repr;
use crate::heap_model::{edges_at, memory_find, EdgeEntry, EdgesV, MemoryV};
use crate::heap_reach::{reachable_from, reachable_set};
use crate::invalidation::Invalidation;
use crate::key::KeyV;
use crate::ordered::{lookup, set_put, sorted, Dup, OrdKey, OrdMap};
use crate::sat_unsat::SatUnsat;
use crate::sil::{IntLit, Location, Mangled, Procdesc, Procname, Pvar, Typ, Var};
use crate::value_history::{ValueHistory, ValueWithHistory};
use vstd::prelude::*;

verus! {

/// The abductive domain: pre-state + post-state + path condition.
#[derive(Debug, PartialEq, Eq)]
pub struct AbductiveDomain {
    /// The pre-condition: what the procedure reads from its inputs.
    pub pre: BaseDomain,
    /// The current (post-condition) abstract state.
    pub post: BaseDomain,
    /// Path condition: constraints on abstract values.
    pub path_condition: Formula,
    /// Constant value to canonical abstract value, so that `store &a[0]` and
    /// `load &a[0]` use the same heap edge.
    pub const_cache: OrdMap<i64, AbstractValue>,
    /// Abstract values that need dynamic type information for specialization.
    pub need_dynamic_type_specialization: ValueSet,
    /// Addresses the analysis checked validity for.
    pub must_be_valid: ValueSet,
}

impl View for AbductiveDomain {
    type V = AbductiveV;

    open spec fn view(&self) -> AbductiveV {
        AbductiveV {
            pre: self.pre@,
            post: self.post@,
            formula: self.path_condition@,
            consts: self.const_cache@,
            need_types: self.need_dynamic_type_specialization@,
            must_be_valid: self.must_be_valid@,
        }
    }
}

impl Dup for AbductiveDomain {
    fn dup(&self) -> (r: Self) {
        AbductiveDomain {
            pre: self.pre.dup(),
            post: self.post.dup(),
            path_condition: self.path_condition.clone(),
            const_cache: self.const_cache.dup(),
            need_dynamic_type_specialization: self.need_dynamic_type_specialization.dup(),
            must_be_valid: self.must_be_valid.dup(),
        }
    }
}

impl Clone for AbductiveDomain {
    fn clone(&self) -> (r: Self)
        ensures
            r@ == self@,
    {
        self.dup()
    }
}

/// The state in which nothing is known.
pub open spec fn blank_state() -> AbductiveV {
    AbductiveV {
        pre: empty_base(Some(DEFAULT_RECENCY_LIMIT)),
        post: empty_base(Some(DEFAULT_RECENCY_LIMIT)),
        formula: FormulaModel { conditions: seq![], phi: empty_phi() },
        consts: seq![],
        need_types: seq![],
        must_be_valid: seq![],
    }
}

struct InClass<'a> {
    formula: &'a Formula,
    root: AbstractValue,
}

impl<'a> ValueTest for InClass<'a> {
    closed spec fn holds(&self, v: AbstractValue) -> bool {
        repr(self.formula@.phi.eqs, v) == self.root
    }

    fn test(&self, v: AbstractValue) -> (b: bool) {
        self.formula.get_var_repr(v) == self.root
    }
}

impl AbductiveDomain {
    fn blank() -> (r: Self)
        ensures
            r@ == blank_state(),
    {
        AbductiveDomain {
            pre: BaseDomain::empty(),
            post: BaseDomain::empty(),
            path_condition: Formula::ttrue(),
            const_cache: OrdMap::new(),
            need_dynamic_type_specialization: ValueSet::new(),
            must_be_valid: ValueSet::new(),
        }
    }

    /// Create the initial state for analyzing a procedure.
    ///
    /// Allocates fresh abstract values for each formal parameter and binds them
    /// in the stack.
    pub fn mk_initial(pdesc: &Procdesc, counters: &mut FreshCounters) -> (r: Self)
        requires
            old(counters).wf(),
            old(counters).next_fresh + pdesc.formals@.len() <= i64::MAX,
        ensures
            r@ == bind_formals(
                blank_state(),
                pdesc.proc_name,
                pdesc.formals@,
                old(counters).next_fresh as int,
            ),
            final(counters).wf(),
            final(counters).next_fresh == old(counters).next_fresh + pdesc.formals@.len(),
            final(counters).next_fresh_restricted == old(counters).next_fresh_restricted,
    {
        let ghost first = counters.next_fresh as int;
        let mut state = Self::blank();
        let mut i: usize = 0;
        assert(pdesc.formals@.take(0) =~= Seq::<(Mangled, Typ)>::empty());
        while i < pdesc.formals.len()
            invariant
                i <= pdesc.formals@.len(),
                counters.wf(),
                first == old(counters).next_fresh,
                first + pdesc.formals@.len() <= i64::MAX,
                counters.next_fresh == first + i,
                counters.next_fresh_restricted == old(counters).next_fresh_restricted,
                state@ == bind_formals(
                    blank_state(),
                    pdesc.proc_name,
                    pdesc.formals@.take(i as int),
                    first,
                ),
            decreases pdesc.formals@.len() - i,
        {
            let ghost s = pdesc.formals@.take(i + 1);
            let ghost before = state@;
            assert(s.drop_last() =~= pdesc.formals@.take(i as int));
            assert(s.last() == pdesc.formals@[i as int]);
            let addr = AbstractValue::mk_fresh(counters);
            let pvar = Pvar::mk(pdesc.formals[i].0.clone(), pdesc.proc_name.clone());
            let var = Var::ProgramVar(Box::new(pvar.clone()));
            let value = ValueWithHistory::new(addr, ValueHistory::formal_argument(pvar));
            state.post.stack.add_with_history(var.clone(), value.clone());
            state.post.heap.register_address(addr);
            state.pre.stack.add_with_history(var, value);
            state.pre.heap.register_address(addr);
            assert(state@ =~= bind_formal(
                before,
                pdesc.proc_name,
                pdesc.formals@[i as int].0,
                addr,
            ));
            i = i + 1;
        }
        assert(pdesc.formals@.take(i as int) =~= pdesc.formals@);
        state
    }

    /// Look up a variable's abstract address in the stack.
    /// If not found, allocates a fresh address and binds it.
    pub fn eval_var(&mut self, var: &Var, counters: &mut FreshCounters) -> (r: AbstractValue)
        requires
            old(counters).wf(),
            stack_find(old(self)@.post.stack, *var) is None ==> old(counters).next_fresh < i64::MAX,
        ensures
            final(self)@ == evaluated(
                old(self)@,
                *var,
                AbstractValue(old(counters).next_fresh),
            ),
            r == (match stack_find(old(self)@.post.stack, *var) {
                Some(v) => v.addr,
                None => AbstractValue(old(counters).next_fresh),
            }),
            final(counters).wf(),
            final(counters).next_fresh_restricted == old(counters).next_fresh_restricted,
            final(counters).next_fresh == old(counters).next_fresh + (if stack_find(
                old(self)@.post.stack,
                *var,
            ) is Some {
                0int
            } else {
                1int
            }),
    {
        self.eval_var_with_history(var, counters).addr
    }

    /// Look up a variable together with its provenance.
    pub fn eval_var_with_history(&mut self, var: &Var, counters: &mut FreshCounters) -> (r:
        ValueWithHistory)
        requires
            old(counters).wf(),
            stack_find(old(self)@.post.stack, *var) is None ==> old(counters).next_fresh < i64::MAX,
        ensures
            final(self)@ == evaluated(
                old(self)@,
                *var,
                AbstractValue(old(counters).next_fresh),
            ),
            r == (match stack_find(old(self)@.post.stack, *var) {
                Some(v) => v,
                None => plain(AbstractValue(old(counters).next_fresh)),
            }),
            final(counters).wf(),
            final(counters).next_fresh_restricted == old(counters).next_fresh_restricted,
            final(counters).next_fresh == old(counters).next_fresh + (if stack_find(
                old(self)@.post.stack,
                *var,
            ) is Some {
                0int
            } else {
                1int
            }),
    {
        if let Some(value) = self.post.stack.find_with_history(var) {
            return value.clone();
        }
        let addr = AbstractValue::mk_fresh(counters);
        let value = ValueWithHistory::new(addr, ValueHistory::epoch());
        self.post.stack.add_with_history(var.clone(), value.clone());
        value
    }

    /// Read through a heap edge: follow `addr --access--> target`.
    /// If no edge exists, creates a fresh target and adds the edge.
    /// Also records the read in the pre-state.
    pub fn read_heap(
        &mut self,
        addr: AbstractValue,
        access: Access,
        counters: &mut FreshCounters,
    ) -> (r: AbstractValue)
        requires
            old(counters).wf(),
            memory_find(old(self)@.post.heap, addr, access) is None ==> old(counters).next_fresh
                < i64::MAX,
        ensures
            final(self)@ == after_read(
                old(self)@,
                plain(addr),
                access,
                AbstractValue(old(counters).next_fresh),
            ),
            r == read_value(
                old(self)@,
                plain(addr),
                access,
                AbstractValue(old(counters).next_fresh),
            ).addr,
            final(counters).wf(),
            final(counters).next_fresh_restricted == old(counters).next_fresh_restricted,
            final(counters).next_fresh == old(counters).next_fresh + (if memory_find(
                old(self)@.post.heap,
                addr,
                access,
            ) is Some {
                0int
            } else {
                1int
            }),
    {
        let src = ValueWithHistory::new(addr, ValueHistory::epoch());
        self.read_heap_with_history(src, access, counters).addr
    }

    /// Read through a heap edge and preserve the target provenance.
    pub fn read_heap_with_history(
        &mut self,
        src: ValueWithHistory,
        access: Access,
        counters: &mut FreshCounters,
    ) -> (r: ValueWithHistory)
        requires
            old(counters).wf(),
            memory_find(old(self)@.post.heap, src.addr, access) is None ==> old(counters).next_fresh
                < i64::MAX,
        ensures
            final(self)@ == after_read(
                old(self)@,
                src,
                access,
                AbstractValue(old(counters).next_fresh),
            ),
            r == read_value(old(self)@, src, access, AbstractValue(old(counters).next_fresh)),
            final(counters).wf(),
            final(counters).next_fresh_restricted == old(counters).next_fresh_restricted,
            final(counters).next_fresh == old(counters).next_fresh + (if memory_find(
                old(self)@.post.heap,
                src.addr,
                access,
            ) is Some {
                0int
            } else {
                1int
            }),
    {
        if let Some(target) = self.post.heap.find_edge_with_history(src.addr, &access) {
            return target.clone();
        }
        let target = AbstractValue::mk_fresh(counters);
        let value = ValueWithHistory::new(target, src.history.clone());
        self.post.heap.add_edge_with_history(src.addr, access.clone(), value.clone());
        // Only reads rooted in the existing pre-state are abduced, and the
        // original pre-edge is never overwritten once the post-state has diverged.
        if self.pre.heap.get_edges(src.addr).is_some() {
            self.pre.heap.add_edge_with_history(src.addr, access, value.clone());
            self.pre.heap.register_address(target);
        }
        value
    }

    /// Write through a heap edge: set `addr --access--> value`.
    pub fn write_heap(&mut self, addr: AbstractValue, access: Access, value: AbstractValue)
        ensures
            final(self)@ == after_write(old(self)@, addr, access, plain(value)),
    {
        self.write_heap_with_history(
            addr,
            access,
            ValueWithHistory::new(value, ValueHistory::epoch()),
        );
    }

    /// Write through a heap edge, preserving the target provenance.
    pub fn write_heap_with_history(
        &mut self,
        addr: AbstractValue,
        access: Access,
        value: ValueWithHistory,
    )
        ensures
            final(self)@ == after_write(old(self)@, addr, access, value),
    {
        self.post.heap.add_edge_with_history(addr, access, value);
    }

    /// Best-effort provenance lookup for a value in the current post-state.
    pub fn history_of_value(&self, addr: AbstractValue) -> (r: Option<ValueHistory>)
        ensures
            r == graph_history(
                self@.post.heap.graph,
                same_class(self@.formula.phi.eqs, addr),
                stack_history(
                    self@.post.stack,
                    same_class(self@.formula.phi.eqs, addr),
                    None,
                ),
            ),
    {
        let test = InClass {
            formula: &self.path_condition,
            root: self.path_condition.get_var_repr(addr),
        };
        assert(test_fn(test) =~= same_class(self@.formula.phi.eqs, addr));
        let history = merge_stack_history(&self.post.stack, &test, None);
        merge_heap_history(&self.post.heap, &test, history)
    }

    /// Check if dereferencing an address is valid.
    ///
    /// Returns `Ok(())` if valid, or `Err` with the invalidation reason if the
    /// address is known to be invalid (null, freed, etc.).
    pub fn check_valid(&self, addr: AbstractValue) -> (r: Result<
        (),
        Box<(Invalidation, ValueHistory)>,
    >)
        ensures
            invalid_at(self@.post.attrs, repr_in(self@, addr)) == (match r {
                Ok(()) => None,
                Err(e) => Some(*e),
            }),
    {
        let root = self.path_condition.get_var_repr(addr);
        self.post.attrs.check_valid(root)
    }

    /// Mark an address as invalid (freed, null, etc.).
    pub fn invalidate(&mut self, addr: AbstractValue, inv: Invalidation, history: ValueHistory)
        ensures
            final(self)@ == with_attr(old(self)@, addr, Attribute::Invalid(inv, history)),
    {
        let root = self.path_condition.get_var_repr(addr);
        self.post.attrs.invalidate(root, inv, history);
    }

    /// Mark an address as allocated.
    pub fn allocate(&mut self, addr: AbstractValue, allocator: Allocator, loc: Location)
        ensures
            final(self)@ == with_attr(old(self)@, addr, Attribute::Allocated(allocator, loc)),
    {
        let root = self.path_condition.get_var_repr(addr);
        self.post.attrs.allocate(root, allocator, loc);
    }

    /// Mark an address as initialized.
    pub fn initialize(&mut self, addr: AbstractValue)
        ensures
            final(self)@ == (AbductiveV {
                post: BaseV {
                    attrs: initialized(old(self)@.post.attrs, repr_in(old(self)@, addr)),
                    ..old(self)@.post
                },
                ..old(self)@
            }),
    {
        let root = self.path_condition.get_var_repr(addr);
        self.post.attrs.initialize(root);
    }

    /// Keep an address reachable across summary normalization.
    pub fn always_reachable(&mut self, addr: AbstractValue)
        ensures
            final(self)@ == with_attr(old(self)@, addr, Attribute::AlwaysReachable),
    {
        let root = self.path_condition.get_var_repr(addr);
        self.post.attrs.always_reachable(root);
    }

    /// Add a generic attribute to an address.
    pub fn add_attr(&mut self, addr: AbstractValue, attr: Attribute)
        ensures
            final(self)@ == with_attr(old(self)@, addr, attr),
    {
        let root = self.path_condition.get_var_repr(addr);
        self.post.attrs.add_one(root, attr);
    }

    fn subst_value_set(
        &self,
        values: &ValueSet,
        old_value: AbstractValue,
        new_value: AbstractValue,
    ) -> (r: ValueSet)
        ensures
            r@ == subst_set(self@.formula.phi.eqs, old_value, new_value, values@),
    {
        let ghost eqs = self@.formula.phi.eqs;
        let mut r = ValueSet::new();
        let mut i: usize = 0;
        assert(values@.take(0) =~= Seq::<AbstractValue>::empty());
        while i < values.len()
            invariant
                i <= values@.len(),
                eqs == self@.formula.phi.eqs,
                r@ == subst_set(eqs, old_value, new_value, values@.take(i as int)),
            decreases values@.len() - i,
        {
            let ghost s = values@.take(i + 1);
            assert(s.drop_last() =~= values@.take(i as int));
            assert(s.last() == values@[i as int]);
            let v = *values.at(i);
            let image = if v == old_value {
                new_value
            } else {
                v
            };
            r.insert(self.path_condition.get_var_repr(image));
            i = i + 1;
        }
        assert(values@.take(i as int) =~= values@);
        r
    }

    fn subst_const_cache(&self, old_value: AbstractValue, new_value: AbstractValue) -> (r: OrdMap<
        i64,
        AbstractValue,
    >)
        ensures
            r@ == subst_consts(self@.formula.phi.eqs, old_value, new_value, self@.consts),
    {
        let ghost eqs = self@.formula.phi.eqs;
        let ghost all = subst_consts(eqs, old_value, new_value, self@.consts);
        let mut r: OrdMap<i64, AbstractValue> = OrdMap::new();
        let n: usize = self.const_cache.len();
        let mut i: usize = 0;
        assert(all.take(0) =~= Seq::<(i64, AbstractValue)>::empty());
        while i < n
            invariant
                n == self.const_cache@.len(),
                sorted::<i64, AbstractValue>(self.const_cache@),
                eqs == self@.formula.phi.eqs,
                all == subst_consts(eqs, old_value, new_value, self.const_cache@),
                i <= n,
                r@ == all.take(i as int),
            decreases n - i,
        {
            let key = *self.const_cache.key_at(i);
            let v = *self.const_cache.value_at(i);
            let image = if v == old_value {
                new_value
            } else {
                v
            };
            let value = self.path_condition.get_var_repr(image);
            proof {
                assert(all[i as int] == (key, value));
                assert(all.take(i + 1) =~= all.take(i as int).push(all[i as int]));
                assert forall|j: int| 0 <= j < i implies <i64 as OrdKey>::lt(
                    (#[trigger] r@[j]).0,
                    key,
                ) by {
                    assert(r@[j] == all[j]);
                    assert(<i64 as OrdKey>::lt(
                        self.const_cache@[j].0,
                        self.const_cache@[i as int].0,
                    ));
                }
            }
            r.push_last(key, value);
            i = i + 1;
        }
        assert(all.take(i as int) =~= all);
        r
    }

    fn subst_var(&mut self, old_value: AbstractValue, new_value: AbstractValue)
        ensures
            final(self)@ == state_subst(old(self)@, old_value, new_value),
    {
        let target = self.path_condition.get_var_repr(new_value);
        let consts = self.subst_const_cache(old_value, target);
        let must_be_valid = self.subst_value_set(&self.must_be_valid, old_value, target);
        let need_types = self.subst_value_set(
            &self.need_dynamic_type_specialization,
            old_value,
            target,
        );
        self.pre.subst_var(old_value, target);
        self.post.subst_var(old_value, target);
        self.const_cache = consts;
        self.must_be_valid = must_be_valid;
        self.need_dynamic_type_specialization = need_types;
    }

    fn root_has_edges(&self, heap: &BaseMemory, addr: AbstractValue) -> (b: bool)
        ensures
            b == has_edges(heap@.graph, self@.formula.phi.eqs, addr),
    {
        let ghost g = heap@.graph;
        let mut i: usize = 0;
        while i < heap.len()
            invariant
                g == heap@.graph,
                i <= g.len(),
                forall|j: int|
                    0 <= j < i ==> !((#[trigger] g[j]).1.values.len() > 0 && repr(
                        self@.formula.phi.eqs,
                        g[j].0,
                    ) == addr),
            decreases g.len() - i,
        {
            if !heap.edges_at_position(i).is_empty() && self.path_condition.get_var_repr(
                heap.address_at(i),
            ) == addr {
                assert(g[i as int].1.values.len() > 0);
                return true;
            }
            i = i + 1;
        }
        false
    }

    fn is_heap_allocated(&self, addr: AbstractValue) -> (b: bool)
        ensures
            b == heap_allocated(self@, addr),
    {
        self.root_has_edges(&self.post.heap, addr) || self.root_has_edges(&self.pre.heap, addr)
    }

    fn is_stack_allocated(&self, addr: AbstractValue) -> (b: bool)
        ensures
            b == stack_allocated(self@, addr),
    {
        let ghost s = self@.post.stack;
        let mut i: usize = 0;
        while i < self.post.stack.len()
            invariant
                s == self.post.stack@,
                i <= s.len(),
                forall|j: int|
                    0 <= j < i ==> !((#[trigger] s[j]).1.var is ProgramVar && repr(
                        self@.formula.phi.eqs,
                        s[j].1.value.addr,
                    ) == addr),
            decreases s.len() - i,
        {
            if matches!(self.post.stack.var_at(i), Var::ProgramVar(_))
                && self.path_condition.get_var_repr(self.post.stack.value_at(i).addr) == addr {
                assert(s[i as int].1.var is ProgramVar);
                return true;
            }
            i = i + 1;
        }
        false
    }

    /// Substitutes the equalities that the path condition has found, and marks
    /// null addresses that are accessed as invalid.
    fn incorporate_new_eqs(&mut self, new_eqs: &Vec<NewEq>) -> (r: SatUnsat<()>)
        ensures
            (final(self)@, r is Sat) == incorporated(old(self)@, new_eqs@),
    {
        let ghost start = self@;
        let mut i: usize = 0;
        assert(new_eqs@.skip(0) =~= new_eqs@);
        while i < new_eqs.len()
            invariant
                start == old(self)@,
                i <= new_eqs@.len(),
                incorporated(self@, new_eqs@.skip(i as int)) == incorporated(start, new_eqs@),
            decreases new_eqs@.len() - i,
        {
            let ghost s = new_eqs@.skip(i as int);
            assert(s[0] == new_eqs@[i as int]);
            assert(s.drop_first() =~= new_eqs@.skip(i + 1));
            match new_eqs[i] {
                NewEq::Equal(a, b) => {
                    if a != b {
                        self.subst_var(a, b);
                    }
                },
                NewEq::EqZero(v) => {
                    let root = self.path_condition.get_var_repr(v);
                    if self.is_stack_allocated(root) {
                        return SatUnsat::Unsat;
                    }
                    if self.is_heap_allocated(root) {
                        let inv = Invalidation::ConstantDereference(IntLit::zero());
                        let history = ValueHistory::invalidated(
                            Invalidation::ConstantDereference(IntLit::zero()),
                            Location::dummy(),
                        );
                        assert(Attribute::Invalid(inv, history) == null_attribute());
                        self.post.attrs.invalidate(root, inv, history);
                    }
                },
            }
            i = i + 1;
        }
        assert(new_eqs@.skip(i as int).len() == 0);
        SatUnsat::Sat(())
    }

    fn apply_formula_result(&mut self, result: SatUnsat<Vec<NewEq>>) -> (r: SatUnsat<()>)
        ensures
            (final(self)@, r is Sat) == applied(
                old(self)@,
                Some((old(self)@.formula, report(result))),
            ),
    {
        match result {
            SatUnsat::Sat(new_eqs) => self.incorporate_new_eqs(&new_eqs),
            SatUnsat::Unsat => SatUnsat::Unsat,
        }
    }

    /// Apply callee-imported formula equalities: an address the caller had
    /// allocated before the call is reported or contradictory when it turns out
    /// to be null, and no synthetic invalidation is kept.
    pub fn apply_formula_result_for_summary_import(
        &mut self,
        result: SatUnsat<Vec<NewEq>>,
        imported_must_be_valid: &mut ValueSet,
        stack_allocated_before_call: &mut ValueSet,
        heap_allocated_before_call: &mut ValueSet,
    ) -> (r: SatUnsat<ImportedFormulaEffect>)
        ensures
            ({
                let before = ImportV {
                    state: old(self)@,
                    must_be_valid: old(imported_must_be_valid)@,
                    stack_allocated: old(stack_allocated_before_call)@,
                    heap_allocated: old(heap_allocated_before_call)@,
                };
                let after = ImportV {
                    state: final(self)@,
                    must_be_valid: final(imported_must_be_valid)@,
                    stack_allocated: final(stack_allocated_before_call)@,
                    heap_allocated: final(heap_allocated_before_call)@,
                };
                match report(result) {
                    SatUnsat::Sat(eqs) => (after, r) == imported(before, eqs),
                    SatUnsat::Unsat => after == before && r is Unsat,
                }
            }),
    {
        let new_eqs = match result {
            SatUnsat::Sat(new_eqs) => new_eqs,
            SatUnsat::Unsat => {
                return SatUnsat::Unsat;
            },
        };
        let ghost start = ImportV {
            state: self@,
            must_be_valid: imported_must_be_valid@,
            stack_allocated: stack_allocated_before_call@,
            heap_allocated: heap_allocated_before_call@,
        };
        let mut i: usize = 0;
        assert(new_eqs@.skip(0) =~= new_eqs@);
        while i < new_eqs.len()
            invariant
                start == (ImportV {
                    state: old(self)@,
                    must_be_valid: old(imported_must_be_valid)@,
                    stack_allocated: old(stack_allocated_before_call)@,
                    heap_allocated: old(heap_allocated_before_call)@,
                }),
                report(result) == SatUnsat::Sat(new_eqs@),
                i <= new_eqs@.len(),
                imported(
                    ImportV {
                        state: self@,
                        must_be_valid: imported_must_be_valid@,
                        stack_allocated: stack_allocated_before_call@,
                        heap_allocated: heap_allocated_before_call@,
                    },
                    new_eqs@.skip(i as int),
                ) == imported(start, new_eqs@),
            decreases new_eqs@.len() - i,
        {
            let ghost s = new_eqs@.skip(i as int);
            assert(s[0] == new_eqs@[i as int]);
            assert(s.drop_first() =~= new_eqs@.skip(i + 1));
            match new_eqs[i] {
                NewEq::Equal(a, b) => {
                    if a != b {
                        let must_be_valid = self.subst_value_set(imported_must_be_valid, a, b);
                        let on_stack = self.subst_value_set(stack_allocated_before_call, a, b);
                        let on_heap = self.subst_value_set(heap_allocated_before_call, a, b);
                        self.subst_var(a, b);
                        *imported_must_be_valid = must_be_valid;
                        *stack_allocated_before_call = on_stack;
                        *heap_allocated_before_call = on_heap;
                    }
                },
                NewEq::EqZero(v) => {
                    let root = self.path_condition.get_var_repr(v);
                    if stack_allocated_before_call.contains(&root) {
                        return SatUnsat::Unsat;
                    }
                    if heap_allocated_before_call.contains(&root) {
                        if imported_must_be_valid.contains(&root) {
                            return SatUnsat::Sat(
                                ImportedFormulaEffect::PotentialInvalidAccess(root),
                            );
                        }
                        return SatUnsat::Unsat;
                    }
                },
            }
            i = i + 1;
        }
        assert(new_eqs@.skip(i as int).len() == 0);
        SatUnsat::Sat(ImportedFormulaEffect::Sat)
    }

    /// Snapshot caller-owned allocated roots before applying a callee post: the
    /// addresses of program variables, and those that have edges.
    pub fn snapshot_allocated_before_call(&self) -> (r: (ValueSet, ValueSet))
        ensures
            r.0@ == stack_roots(self@.formula.phi.eqs, self@.post.stack),
            r.1@ == heap_roots(
                self@.formula.phi.eqs,
                self@.post.heap.graph,
                heap_roots(self@.formula.phi.eqs, self@.pre.heap.graph, seq![]),
            ),
    {
        let ghost eqs = self@.formula.phi.eqs;
        let ghost st = self@.post.stack;
        let mut stack_set = ValueSet::new();
        let mut i: usize = 0;
        assert(st.take(0) =~= Seq::empty());
        while i < self.post.stack.len()
            invariant
                eqs == self@.formula.phi.eqs,
                st == self.post.stack@,
                i <= st.len(),
                stack_set@ == stack_roots(eqs, st.take(i as int)),
            decreases st.len() - i,
        {
            let ghost s = st.take(i + 1);
            assert(s.drop_last() =~= st.take(i as int));
            assert(s.last() == st[i as int]);
            if matches!(self.post.stack.var_at(i), Var::ProgramVar(_)) {
                let addr = self.post.stack.value_at(i).addr;
                stack_set.insert(self.path_condition.get_var_repr(addr));
            }
            i = i + 1;
        }
        assert(st.take(i as int) =~= st);
        let mut heap_set = ValueSet::new();
        self.add_heap_roots(&self.pre.heap, &mut heap_set);
        self.add_heap_roots(&self.post.heap, &mut heap_set);
        (stack_set, heap_set)
    }

    fn add_heap_roots(&self, heap: &BaseMemory, set: &mut ValueSet)
        ensures
            final(set)@ == heap_roots(self@.formula.phi.eqs, heap@.graph, old(set)@),
    {
        let ghost eqs = self@.formula.phi.eqs;
        let ghost g = heap@.graph;
        let ghost start = set@;
        let mut i: usize = 0;
        assert(g.take(0) =~= Seq::<(AbstractValue, EdgesV)>::empty());
        while i < heap.len()
            invariant
                eqs == self@.formula.phi.eqs,
                g == heap@.graph,
                i <= g.len(),
                set@ == heap_roots(eqs, g.take(i as int), start),
            decreases g.len() - i,
        {
            let ghost s = g.take(i + 1);
            assert(s.drop_last() =~= g.take(i as int));
            assert(s.last() == g[i as int]);
            if !heap.edges_at_position(i).is_empty() {
                set.insert(self.path_condition.get_var_repr(heap.address_at(i)));
            }
            i = i + 1;
        }
        assert(g.take(i as int) =~= g);
    }

    /// Record that two abstract values are equal.
    pub fn and_equal(&mut self, v1: AbstractValue, v2: AbstractValue) -> (r: SatUnsat<()>)
        requires
            lifted(old(self)@.formula, run_var_equal(old(self)@.formula.phi, v1, v2)) is Some,
        ensures
            (final(self)@, r is Sat) == applied(
                old(self)@,
                lifted(old(self)@.formula, run_var_equal(old(self)@.formula.phi, v1, v2)),
            ),
    {
        let result = self.path_condition.and_equal_vars(v1, v2);
        self.apply_formula_result(result)
    }

    /// Record that an abstract value equals a constant.
    pub fn and_equal_const(&mut self, v: AbstractValue, c: i64) -> (r: SatUnsat<()>)
        requires
            lifted(old(self)@.formula, run_const_eq(old(self)@.formula.phi, v, c)) is Some,
        ensures
            (final(self)@, r is Sat) == applied(
                old(self)@,
                lifted(old(self)@.formula, run_const_eq(old(self)@.formula.phi, v, c)),
            ),
    {
        let result = self.path_condition.and_equal_const(v, c);
        self.apply_formula_result(result)
    }

    /// Record that an abstract value is positive (non-null for pointers).
    pub fn and_positive(&mut self, v: AbstractValue) -> (r: SatUnsat<()>)
        requires
            lifted(
                old(self)@.formula,
                less(
                    old(self)@.formula.phi,
                    true,
                    Operand::ConstOperand(0),
                    Operand::AbstractValue(v),
                ),
            ) is Some,
        ensures
            (final(self)@, r is Sat) == applied(
                old(self)@,
                lifted(
                    old(self)@.formula,
                    less(
                        old(self)@.formula.phi,
                        true,
                        Operand::ConstOperand(0),
                        Operand::AbstractValue(v),
                    ),
                ),
            ),
    {
        let result = self.path_condition.and_positive(v);
        self.apply_formula_result(result)
    }

    /// Record that a variable equals a linear expression.
    pub fn and_equal_linear(&mut self, v: AbstractValue, lin: LinArith) -> (r: SatUnsat<()>)
        requires
            lifted(old(self)@.formula, run_linear_eq(old(self)@.formula.phi, v, lin@)) is Some,
        ensures
            (final(self)@, r is Sat) == applied(
                old(self)@,
                lifted(old(self)@.formula, run_linear_eq(old(self)@.formula.phi, v, lin@)),
            ),
    {
        let result = self.path_condition.and_equal_linear(v, lin);
        self.apply_formula_result(result)
    }

    /// Record that a variable equals a binary operation.
    pub fn and_equal_binop(
        &mut self,
        v: AbstractValue,
        op: Binop,
        x: &Operand,
        y: &Operand,
    ) -> (r: SatUnsat<()>)
        requires
            lifted(old(self)@.formula, equal_binop(old(self)@.formula.phi, v, op, *x, *y)) is Some,
        ensures
            (final(self)@, r is Sat) == applied(
                old(self)@,
                lifted(old(self)@.formula, equal_binop(old(self)@.formula.phi, v, op, *x, *y)),
            ),
    {
        let result = self.path_condition.and_equal_binop(v, op, x, y);
        self.apply_formula_result(result)
    }

    /// Add a translated callee atom directly to the path condition.
    pub fn and_atom_direct(&mut self, atom: Atom) -> (r: SatUnsat<()>)
        requires
            lifted(old(self)@.formula, run_atom(old(self)@.formula.phi, atom)) is Some,
        ensures
            (final(self)@, r is Sat) == applied(
                old(self)@,
                lifted(old(self)@.formula, run_atom(old(self)@.formula.phi, atom)),
            ),
    {
        let result = self.path_condition.and_atom_direct(atom);
        self.apply_formula_result(result)
    }

    /// Add a translated callee prune condition and remember its depth.
    pub fn and_condition_direct(&mut self, atom: Atom, depth: usize) -> (r: SatUnsat<()>)
        requires
            recorded(
                normalized(old(self)@.formula, atom),
                enforce(old(self)@.formula, atom),
                depth,
            ) is Some,
        ensures
            (final(self)@, r is Sat) == applied(
                old(self)@,
                recorded(
                    normalized(old(self)@.formula, atom),
                    enforce(old(self)@.formula, atom),
                    depth,
                ),
            ),
    {
        let result = self.path_condition.and_condition_direct(atom, depth);
        self.apply_formula_result(result)
    }

    /// Record a disequality.
    pub fn and_not_equal(&mut self, op1: &Operand, op2: &Operand) -> (r: SatUnsat<()>)
        requires
            lifted(old(self)@.formula, not_equal(old(self)@.formula.phi, *op1, *op2)) is Some,
        ensures
            (final(self)@, r is Sat) == applied(
                old(self)@,
                lifted(old(self)@.formula, not_equal(old(self)@.formula.phi, *op1, *op2)),
            ),
    {
        let result = self.path_condition.and_not_equal(op1, op2);
        self.apply_formula_result(result)
    }

    /// Add a prune constraint (from a branch condition).
    pub fn prune_eq(
        &mut self,
        v1: AbstractValue,
        v2: AbstractValue,
        negated: bool,
    ) -> (r: SatUnsat<()>)
        requires
            prune_equal(old(self)@.formula, v1, v2, negated, 0) is Some,
        ensures
            (final(self)@, r is Sat) == applied(
                old(self)@,
                prune_equal(old(self)@.formula, v1, v2, negated, 0),
            ),
    {
        let result = self.path_condition.prune_eq(v1, v2, negated);
        self.apply_formula_result(result)
    }

    /// Add a prune constraint with a constant.
    pub fn prune_eq_const(&mut self, v: AbstractValue, c: i64, negated: bool) -> (r: SatUnsat<()>)
        requires
            prune_const(old(self)@.formula, v, c, negated) is Some,
        ensures
            (final(self)@, r is Sat) == applied(
                old(self)@,
                prune_const(old(self)@.formula, v, c, negated),
            ),
    {
        let result = self.path_condition.prune_eq_const(v, c, negated);
        self.apply_formula_result(result)
    }

    /// Record a local `<` prune condition.
    pub fn prune_less_than(&mut self, op1: &Operand, op2: &Operand) -> (r: SatUnsat<()>)
        requires
            prune_order(old(self)@.formula, true, *op1, *op2) is Some,
        ensures
            (final(self)@, r is Sat) == applied(
                old(self)@,
                prune_order(old(self)@.formula, true, *op1, *op2),
            ),
    {
        let result = self.path_condition.prune_less_than(op1, op2);
        self.apply_formula_result(result)
    }

    /// Record a local `<=` prune condition.
    pub fn prune_less_equal(&mut self, op1: &Operand, op2: &Operand) -> (r: SatUnsat<()>)
        requires
            prune_order(old(self)@.formula, false, *op1, *op2) is Some,
        ensures
            (final(self)@, r is Sat) == applied(
                old(self)@,
                prune_order(old(self)@.formula, false, *op1, *op2),
            ),
    {
        let result = self.path_condition.prune_less_equal(op1, op2);
        self.apply_formula_result(result)
    }

    /// Get the known constant value of a variable, if it is an integer.
    pub fn get_const(&self, v: AbstractValue) -> (r: Option<i64>)
        ensures
            r == (match known_const(self@.formula.phi, v) {
                Some(q) => if q.denom == 1 {
                    Some(q.numer)
                } else {
                    None
                },
                None => None,
            }),
    {
        match self.path_condition.is_known_const(v) {
            Some(q) => if q.is_integer() {
                Some(q.numer())
            } else {
                None
            },
            None => None,
        }
    }

    /// Get the closure/function-pointer procedure name for an abstract value.
    pub fn get_closure_proc_name(&self, addr: AbstractValue) -> (r: Option<&Procname>)
        ensures
            first_of_kind(attrs_at(self@.post.attrs, addr), AttributeKind::Closure) == (match r {
                Some(p) => Some(Attribute::Closure(*p)),
                None => None,
            }),
    {
        self.post.attrs.get_closure_proc_name(addr)
    }

    /// Mark an address as requiring validity (the procedure dereferences it).
    pub fn mark_must_be_valid(&mut self, addr: AbstractValue)
        ensures
            final(self)@ == (AbductiveV {
                must_be_valid: set_put::<AbstractValue>(
                    old(self)@.must_be_valid,
                    repr_in(old(self)@, addr),
                ),
                ..old(self)@
            }),
    {
        let root = self.path_condition.get_var_repr(addr);
        self.must_be_valid.insert(root);
    }

    /// Record a must-be-valid access at a concrete program location. An address
    /// that the precondition knows also gets the attribute there.
    pub fn mark_must_be_valid_at(&mut self, addr: AbstractValue, loc: &Location)
        ensures
            ({
                let d = old(self)@;
                let root = repr_in(d, addr);
                final(self)@ == (AbductiveV {
                    must_be_valid: set_put::<AbstractValue>(d.must_be_valid, root),
                    pre: if lookup(d.pre.heap.graph, root) is Some {
                        BaseV {
                            attrs: add_one(
                                d.pre.attrs,
                                root,
                                Attribute::MustBeValid(0, *loc, None),
                            ),
                            ..d.pre
                        }
                    } else {
                        d.pre
                    },
                    ..d
                })
            }),
    {
        let root = self.path_condition.get_var_repr(addr);
        self.must_be_valid.insert(root);
        if self.pre.heap.get_edges(root).is_some() {
            self.pre.attrs.add_one(root, Attribute::MustBeValid(0, loc.clone(), None));
        }
    }

    /// Check if an address was marked as must-be-valid.
    pub fn is_must_be_valid(&self, addr: AbstractValue) -> (b: bool)
        ensures
            b == self@.must_be_valid.contains(repr_in(self@, addr)),
    {
        let root = self.path_condition.get_var_repr(addr);
        self.must_be_valid.contains(&root)
    }

    /// Record that an abstract value needs dynamic type information for
    /// specialization (e.g., an unresolved function pointer).
    pub fn add_need_dynamic_type_specialization(&mut self, addr: AbstractValue)
        ensures
            final(self)@ == (AbductiveV {
                need_types: set_put::<AbstractValue>(old(self)@.need_types, addr),
                ..old(self)@
            }),
    {
        self.need_dynamic_type_specialization.insert(addr);
    }

    /// Check if an abstract value is known to be zero (null).
    pub fn is_known_zero(&self, v: AbstractValue) -> (b: bool)
        ensures
            b == (known_const(self@.formula.phi, v) matches Some(q) && q.numer == 0),
    {
        self.path_condition.is_known_zero(v)
    }

    /// Get the canonical representative of an abstract value.
    pub fn get_var_repr(&self, v: AbstractValue) -> (r: AbstractValue)
        ensures
            r == repr_in(self@, v),
    {
        self.path_condition.get_var_repr(v)
    }

    /// Canonicalize an abstract value for use as an array index.
    ///
    /// If the value is known to equal a constant, unify it with any previously
    /// seen value for the same constant.
    pub fn canonicalize_for_access(&mut self, v: AbstractValue) -> (r: AbstractValue)
        requires
            canonicalized(old(self)@, v) is Some,
        ensures
            canonicalized(old(self)@, v) == Some((final(self)@, r)),
    {
        if let Some(c) = operand_const(&Operand::AbstractValue(v), self.path_condition.phi()) {
            let seen = match self.const_cache.get(&c) {
                Some(existing) => Some(*existing),
                None => None,
            };
            if let Some(existing) = seen {
                if existing != v {
                    let _ = self.and_equal(v, existing);
                }
                return self.path_condition.get_var_repr(existing);
            }
            self.const_cache.insert(c, v);
        }
        self.path_condition.get_var_repr(v)
    }

    fn havoc_address(&mut self, addr: AbstractValue, counters: &mut FreshCounters)
        requires
            old(counters).wf(),
            old(counters).next_fresh + edges_at(old(self)@.post.heap, addr).values.len()
                <= i64::MAX,
        ensures
            final(self)@ == (AbductiveV {
                post: BaseV {
                    heap: havoc_edges(
                        old(self)@.post.heap,
                        addr,
                        edges_at(old(self)@.post.heap, addr).values,
                        old(counters).next_fresh as int,
                    ),
                    ..old(self)@.post
                },
                ..old(self)@
            }),
            final(counters).wf(),
            final(counters).next_fresh_restricted == old(counters).next_fresh_restricted,
            final(counters).next_fresh == old(counters).next_fresh + edges_at(
                old(self)@.post.heap,
                addr,
            ).values.len(),
    {
        let ghost d = self@;
        let ghost all = edges_at(d.post.heap, addr).values;
        let ghost first = counters.next_fresh as int;
        let edges = match self.post.heap.get_edges(addr) {
            Some(edges) => edges.dup(),
            None => {
                return;
            },
        };
        let mut i: usize = 0;
        assert(all.take(0) =~= Seq::<(KeyV, EdgeEntry)>::empty());
        while i < edges.len()
            invariant
                edges@.values == all,
                i <= all.len(),
                counters.wf(),
                first + all.len() <= i64::MAX,
                counters.next_fresh == first + i,
                counters.next_fresh_restricted == old(counters).next_fresh_restricted,
                self@ == (AbductiveV {
                    post: BaseV {
                        heap: havoc_edges(d.post.heap, addr, all.take(i as int), first),
                        ..d.post
                    },
                    ..d
                }),
            decreases all.len() - i,
        {
            let ghost s = all.take(i + 1);
            assert(s.drop_last() =~= all.take(i as int));
            assert(s.last() == all[i as int]);
            let fresh = AbstractValue::mk_fresh(counters);
            self.post.heap.add_edge(addr, edges.access_at(i).clone(), fresh);
            i = i + 1;
        }
        assert(all.take(i as int) =~= all);
    }

    /// Apply the effect of an unknown/external call on a value: havoc all memory
    /// reachable from `addr` by replacing edge targets with fresh values, and
    /// forget that it was allocated, since the call may have taken ownership.
    pub fn apply_unknown_effect(&mut self, addr: AbstractValue, counters: &mut FreshCounters)
        requires
            old(counters).wf(),
            old(counters).next_fresh + edge_count(
                old(self)@.post.heap,
                reachable_set(old(self)@.post.heap.graph, addr),
                old(counters).next_fresh as int,
            ) <= i64::MAX,
        ensures
            final(self)@ == havocked(old(self)@, addr, old(counters).next_fresh as int),
            final(counters).wf(),
            final(counters).next_fresh_restricted == old(counters).next_fresh_restricted,
            final(counters).next_fresh == old(counters).next_fresh + edge_count(
                old(self)@.post.heap,
                reachable_set(old(self)@.post.heap.graph, addr),
                old(counters).next_fresh as int,
            ),
    {
        let ghost d = self@;
        let ghost first = counters.next_fresh as int;
        let reachable = reachable_from(&self.post.heap, addr);
        let ghost all = reachable@;
        let mut i: usize = 0;
        assert(all.take(0) =~= Seq::<AbstractValue>::empty());
        while i < reachable.len()
            invariant
                all == reachable@,
                i <= all.len(),
                counters.wf(),
                first + edge_count(d.post.heap, all, first) <= i64::MAX,
                counters.next_fresh == first + edge_count(
                    d.post.heap,
                    all.take(i as int),
                    first,
                ),
                counters.next_fresh_restricted == old(counters).next_fresh_restricted,
                self@ == (AbductiveV {
                    post: BaseV {
                        heap: havocked_heap(d.post.heap, all.take(i as int), first),
                        attrs: deallocated(d.post.attrs, all.take(i as int)),
                        ..d.post
                    },
                    ..d
                }),
            decreases all.len() - i,
        {
            let ghost s = all.take(i + 1);
            assert(s.drop_last() =~= all.take(i as int));
            assert(s.last() == all[i as int]);
            proof {
                lemma_edge_count_grows(d.post.heap, all, i + 1, first);
            }
            let reached = *reachable.at(i);
            self.havoc_address(reached, counters);
            self.post.attrs.remove_allocated(reached);
            i = i + 1;
        }
        assert(all.take(i as int) =~= all);
    }

    /// For unknown calls on `&slot`, ensure future loads from the slot see a
    /// fresh post-state value even if the slot had not been materialized yet.
    pub fn ensure_deref_edge_if_missing(
        &mut self,
        addr: AbstractValue,
        counters: &mut FreshCounters,
    )
        requires
            old(counters).wf(),
            memory_find(
                old(self)@.post.heap,
                repr_in(old(self)@, addr),
                Access::Dereference,
            ) is None ==> old(counters).next_fresh < i64::MAX,
        ensures
            ({
                let d = old(self)@;
                let root = repr_in(d, addr);
                if memory_find(d.post.heap, root, Access::Dereference) is Some {
                    final(self)@ == d && *final(counters) == *old(counters)
                } else {
                    &&& final(self)@ == after_write(
                        d,
                        root,
                        Access::Dereference,
                        plain(AbstractValue(old(counters).next_fresh)),
                    )
                    &&& final(counters).next_fresh == old(counters).next_fresh + 1
                    &&& final(counters).next_fresh_restricted == old(
                        counters,
                    ).next_fresh_restricted
                }
            }),
            final(counters).wf(),
    {
        let root = self.path_condition.get_var_repr(addr);
        if self.post.heap.find_edge(root, &Access::Dereference).is_none() {
            let fresh = AbstractValue::mk_fresh(counters);
            self.post.heap.add_edge(root, Access::Dereference, fresh);
        }
    }
}

proof fn lemma_edge_count_grows(h: MemoryV, s: Seq<AbstractValue>, i: int, next: int)
    requires
        0 <= i <= s.len(),
    ensures
        edge_count(h, s.take(i), next) <= edge_count(h, s, next),
    decreases s.len() - i,
{
    if i == s.len() {
        assert(s.take(i) =~= s);
    } else {
        lemma_edge_count_grows(h, s, i + 1, next);
        assert(s.take(i + 1).drop_last() =~= s.take(i));
    }
}

} // verus!
