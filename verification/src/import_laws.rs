//! What importing the facts of a callee does to what the caller had allocated.

use crate::abductive_model::{
    has_edges, heap_allocated, heap_roots, imported, stack_allocated, stack_roots, state_subst,
    subst_repr, subst_set, AbductiveV, ImportV, ImportedFormulaEffect,
};
use crate::abstract_value::AbstractValue;
use crate::base_stack::StackV;
use crate::formula::formula_model::FormulaModel;
use crate::formula::phi::NewEq;
use crate::formula::progress_laws::coarser;
use crate::formula::var_uf::{eqs_wf, law_representative_is_smallest, repr, Eqs};
use crate::heap_model::EdgesV;
use crate::ordered::{lemma_lookup_has_key, lemma_set_put_contains, lookup};
use crate::sat_unsat::SatUnsat;
use vstd::prelude::*;

verus! {

/// One of the addresses of the set is equal to `v`.
pub open spec fn among(eqs: Eqs, s: Seq<AbstractValue>, v: AbstractValue) -> bool {
    exists|i: int| 0 <= i < s.len() && repr(eqs, #[trigger] s[i]) == repr(eqs, v)
}

/// The equalities that an import reports hold in the path condition.
pub open spec fn taken_up(eqs: Eqs, news: Seq<NewEq>) -> bool {
    forall|i: int|
        0 <= i < news.len() ==> ((#[trigger] news[i]) matches NewEq::Equal(a, b) ==> repr(eqs, a)
            == repr(eqs, b))
}

/// The addresses of the set are representatives.
pub open spec fn representative_set(eqs: Eqs, s: Seq<AbstractValue>) -> bool {
    forall|i: int| 0 <= i < s.len() ==> repr(eqs, #[trigger] s[i]) == s[i]
}

/// A set after a substitution holds the representatives of the images, and nothing
/// else.
pub proof fn law_subst_set(
    eqs: Eqs,
    old_value: AbstractValue,
    new_value: AbstractValue,
    s: Seq<AbstractValue>,
    x: AbstractValue,
)
    ensures
        subst_set(eqs, old_value, new_value, s).contains(x) <==> exists|i: int|
            0 <= i < s.len() && x == repr(
                eqs,
                if #[trigger] s[i] == old_value {
                    new_value
                } else {
                    s[i]
                },
            ),
    decreases s.len(),
{
    if s.len() > 0 {
        let rest = s.drop_last();
        let y = subst_repr(eqs, old_value, new_value, s.last());
        law_subst_set(eqs, old_value, new_value, rest, x);
        lemma_set_put_contains::<AbstractValue>(subst_set(eqs, old_value, new_value, rest), y, x);
        if subst_set(eqs, old_value, new_value, rest).contains(x) {
            let i = choose|i: int|
                0 <= i < rest.len() && x == repr(
                    eqs,
                    if #[trigger] rest[i] == old_value {
                        new_value
                    } else {
                        rest[i]
                    },
                );
            assert(s[i] == rest[i]);
        }
        if x == y {
            assert(s[s.len() - 1] == s.last());
        }
        if exists|i: int|
            0 <= i < s.len() && x == repr(
                eqs,
                if #[trigger] s[i] == old_value {
                    new_value
                } else {
                    s[i]
                },
            ) {
            let i = choose|i: int|
                0 <= i < s.len() && x == repr(
                    eqs,
                    if #[trigger] s[i] == old_value {
                        new_value
                    } else {
                        s[i]
                    },
                );
            if i < rest.len() {
                assert(rest[i] == s[i]);
            }
        }
    }
}

proof fn lemma_subst_among(
    eqs: Eqs,
    a: AbstractValue,
    b: AbstractValue,
    s: Seq<AbstractValue>,
    v: AbstractValue,
)
    requires
        eqs_wf(eqs),
        repr(eqs, a) == repr(eqs, b),
    ensures
        representative_set(eqs, subst_set(eqs, a, b, s)),
        among(eqs, subst_set(eqs, a, b, s), v) == among(eqs, s, v),
{
    let t = subst_set(eqs, a, b, s);
    assert forall|i: int| 0 <= i < t.len() implies repr(eqs, #[trigger] t[i]) == t[i] by {
        law_subst_set(eqs, a, b, s, t[i]);
        assert(t.contains(t[i]));
        let j = choose|j: int|
            0 <= j < s.len() && t[i] == repr(
                eqs,
                if #[trigger] s[j] == a {
                    b
                } else {
                    s[j]
                },
            );
        law_representative_is_smallest(eqs, s[j]);
        law_representative_is_smallest(eqs, b);
    }
    if among(eqs, t, v) {
        let i = choose|i: int| 0 <= i < t.len() && repr(eqs, #[trigger] t[i]) == repr(eqs, v);
        law_subst_set(eqs, a, b, s, t[i]);
        assert(t.contains(t[i]));
        let j = choose|j: int|
            0 <= j < s.len() && t[i] == repr(
                eqs,
                if #[trigger] s[j] == a {
                    b
                } else {
                    s[j]
                },
            );
        assert(repr(eqs, s[j]) == repr(eqs, v));
    }
    if among(eqs, s, v) {
        let j = choose|j: int| 0 <= j < s.len() && repr(eqs, #[trigger] s[j]) == repr(eqs, v);
        let x = repr(eqs, s[j]);
        law_subst_set(eqs, a, b, s, x);
        assert(t.contains(x));
        let i = choose|i: int| 0 <= i < t.len() && t[i] == x;
        assert(repr(eqs, t[i]) == repr(eqs, v));
    }
}

proof fn lemma_held_among(eqs: Eqs, s: Seq<AbstractValue>, v: AbstractValue)
    requires
        eqs_wf(eqs),
    ensures
        s.contains(repr(eqs, v)) ==> among(eqs, s, v),
{
    law_representative_is_smallest(eqs, v);
    if s.contains(repr(eqs, v)) {
        let i = choose|i: int| 0 <= i < s.len() && s[i] == repr(eqs, v);
        assert(repr(eqs, s[i]) == repr(eqs, v));
    }
}

proof fn lemma_representative_among(eqs: Eqs, s: Seq<AbstractValue>, v: AbstractValue)
    requires
        eqs_wf(eqs),
        representative_set(eqs, s),
    ensures
        s.contains(repr(eqs, v)) == among(eqs, s, v),
{
    law_representative_is_smallest(eqs, v);
    if s.contains(repr(eqs, v)) {
        let i = choose|i: int| 0 <= i < s.len() && s[i] == repr(eqs, v);
        assert(repr(eqs, s[i]) == repr(eqs, v));
    }
    if among(eqs, s, v) {
        let i = choose|i: int| 0 <= i < s.len() && repr(eqs, #[trigger] s[i]) == repr(eqs, v);
        assert(s[i] == repr(eqs, v));
    }
}

/// The sets of an import hold representatives.
pub open spec fn representative_sets(m: ImportV) -> bool {
    let eqs = m.state.formula.phi.eqs;
    &&& representative_set(eqs, m.must_be_valid)
    &&& representative_set(eqs, m.stack_allocated)
    &&& representative_set(eqs, m.heap_allocated)
}

/// By the time the report at `i` is taken up the sets hold representatives: they did
/// before, or an equality between different values was taken up, which sees to it.
pub open spec fn settled(m: ImportV, news: Seq<NewEq>, i: int) -> bool {
    representative_sets(m) || exists|j: int|
        0 <= j < i && ((#[trigger] news[j]) matches NewEq::Equal(a, b) && a != b)
}

/// `v` is equal to an address that the caller had allocated.
pub open spec fn caller_had(m: ImportV, v: AbstractValue) -> bool {
    let eqs = m.state.formula.phi.eqs;
    among(eqs, m.stack_allocated, v) || among(eqs, m.heap_allocated, v)
}

/// The import after the equality `a = b` was taken up.
proof fn lemma_import_step(m: ImportV, a: AbstractValue, b: AbstractValue, v: AbstractValue)
    requires
        eqs_wf(m.state.formula.phi.eqs),
        repr(m.state.formula.phi.eqs, a) == repr(m.state.formula.phi.eqs, b),
    ensures
        ({
            let e = m.state.formula.phi.eqs;
            let n = ImportV {
                state: state_subst(m.state, a, b),
                must_be_valid: subst_set(e, a, b, m.must_be_valid),
                stack_allocated: subst_set(e, a, b, m.stack_allocated),
                heap_allocated: subst_set(e, a, b, m.heap_allocated),
            };
            &&& representative_sets(n)
            &&& n.state.formula == m.state.formula
            &&& among(e, n.must_be_valid, v) == among(e, m.must_be_valid, v)
            &&& among(e, n.stack_allocated, v) == among(e, m.stack_allocated, v)
            &&& among(e, n.heap_allocated, v) == among(e, m.heap_allocated, v)
        }),
{
    let e = m.state.formula.phi.eqs;
    lemma_subst_among(e, a, b, m.must_be_valid, v);
    lemma_subst_among(e, a, b, m.stack_allocated, v);
    lemma_subst_among(e, a, b, m.heap_allocated, v);
}

/// The first null value that is equal to an address that the caller had decides an
/// import. On the stack it makes the import impossible; so does it on the heap,
/// unless the callee accesses the address, which is then a potentially invalid
/// access.
pub proof fn law_import_of_null(m: ImportV, news: Seq<NewEq>, i: int, v: AbstractValue)
    requires
        eqs_wf(m.state.formula.phi.eqs),
        taken_up(m.state.formula.phi.eqs, news),
        0 <= i < news.len(),
        settled(m, news, i),
        news[i] == NewEq::EqZero(v),
        caller_had(m, v),
        forall|j: int|
            0 <= j < i ==> ((#[trigger] news[j]) matches NewEq::EqZero(w) ==> !caller_had(m, w)),
    ensures
        ({
            let eqs = m.state.formula.phi.eqs;
            let effect = imported(m, news).1;
            if among(eqs, m.stack_allocated, v) || !among(eqs, m.must_be_valid, v) {
                effect is Unsat
            } else {
                effect == SatUnsat::Sat(
                    ImportedFormulaEffect::PotentialInvalidAccess(repr(eqs, v)),
                )
            }
        }),
    decreases news.len(),
{
    let eqs = m.state.formula.phi.eqs;
    let rest = news.drop_first();
    if representative_sets(m) {
        lemma_representative_among(eqs, m.stack_allocated, v);
        lemma_representative_among(eqs, m.heap_allocated, v);
        lemma_representative_among(eqs, m.must_be_valid, v);
    }
    if i > 0 {
        assert(rest[i - 1] == news[i]);
        assert(taken_up(eqs, rest)) by {
            assert forall|j: int| 0 <= j < rest.len() implies ((
            #[trigger] rest[j]) matches NewEq::Equal(a, b) ==> repr(eqs, a) == repr(eqs, b)) by {
                assert(rest[j] == news[j + 1]);
            }
        }
        let n = match news[0] {
            NewEq::Equal(a, b) => {
                assert(news[0] matches NewEq::Equal(c, d) && repr(eqs, c) == repr(eqs, d));
                lemma_import_step(m, a, b, v);
                if a == b {
                    m
                } else {
                    ImportV {
                        state: state_subst(m.state, a, b),
                        must_be_valid: subst_set(eqs, a, b, m.must_be_valid),
                        stack_allocated: subst_set(eqs, a, b, m.stack_allocated),
                        heap_allocated: subst_set(eqs, a, b, m.heap_allocated),
                    }
                }
            },
            NewEq::EqZero(w) => {
                lemma_held_among(eqs, m.stack_allocated, w);
                lemma_held_among(eqs, m.heap_allocated, w);
                m
            },
        };
        assert forall|j: int| 0 <= j < i - 1 implies ((
        #[trigger] rest[j]) matches NewEq::EqZero(w) ==> !caller_had(n, w)) by {
            assert(rest[j] == news[j + 1]);
            if let NewEq::EqZero(w) = rest[j] {
                assert(!caller_had(m, w));
                if let NewEq::Equal(a, b) = news[0] {
                    lemma_import_step(m, a, b, w);
                }
            }
        }
        if !representative_sets(m) {
            let j = choose|j: int|
                0 <= j < i && ((#[trigger] news[j]) matches NewEq::Equal(a, b) && a != b);
            if j > 0 {
                assert(rest[j - 1] == news[j]);
            }
        }
        law_import_of_null(n, rest, i - 1, v);
    }
}

/// An import in which no address that the caller had becomes null is possible.
pub proof fn law_import_without_null(m: ImportV, news: Seq<NewEq>)
    requires
        eqs_wf(m.state.formula.phi.eqs),
        taken_up(m.state.formula.phi.eqs, news),
        forall|j: int|
            0 <= j < news.len() ==> ((#[trigger] news[j]) matches NewEq::EqZero(w) ==> !caller_had(
                m,
                w,
            )),
    ensures
        imported(m, news).1 == SatUnsat::Sat(ImportedFormulaEffect::Sat),
    decreases news.len(),
{
    let eqs = m.state.formula.phi.eqs;
    if news.len() > 0 {
        let rest = news.drop_first();
        assert(taken_up(eqs, rest)) by {
            assert forall|j: int| 0 <= j < rest.len() implies ((
            #[trigger] rest[j]) matches NewEq::Equal(a, b) ==> repr(eqs, a) == repr(eqs, b)) by {
                assert(rest[j] == news[j + 1]);
            }
        }
        let n = match news[0] {
            NewEq::Equal(a, b) => {
                assert(news[0] matches NewEq::Equal(c, d) && repr(eqs, c) == repr(eqs, d));
                lemma_import_step(m, a, b, a);
                if a == b {
                    m
                } else {
                    ImportV {
                        state: state_subst(m.state, a, b),
                        must_be_valid: subst_set(eqs, a, b, m.must_be_valid),
                        stack_allocated: subst_set(eqs, a, b, m.stack_allocated),
                        heap_allocated: subst_set(eqs, a, b, m.heap_allocated),
                    }
                }
            },
            NewEq::EqZero(w) => {
                lemma_held_among(eqs, m.stack_allocated, w);
                lemma_held_among(eqs, m.heap_allocated, w);
                assert(!caller_had(m, w));
                m
            },
        };
        assert forall|j: int| 0 <= j < rest.len() implies ((
        #[trigger] rest[j]) matches NewEq::EqZero(w) ==> !caller_had(n, w)) by {
            assert(rest[j] == news[j + 1]);
            if let NewEq::EqZero(w) = rest[j] {
                assert(!caller_had(m, w));
                if let NewEq::Equal(a, b) = news[0] {
                    lemma_import_step(m, a, b, w);
                }
            }
        }
        law_import_without_null(n, rest);
    }
}

/// The addresses noted before a call are, on the stack, those of the program
/// variables and, on the heap, those with edges, each by its representative.
pub proof fn law_snapshot(d: AbductiveV, r: AbstractValue)
    ensures
        stack_roots(d.formula.phi.eqs, d.post.stack).contains(r) <==> stack_allocated(d, r),
        heap_roots(
            d.formula.phi.eqs,
            d.post.heap.graph,
            heap_roots(d.formula.phi.eqs, d.pre.heap.graph, seq![]),
        ).contains(r) <==> heap_allocated(d, r),
{
    let eqs = d.formula.phi.eqs;
    lemma_stack_roots(eqs, d.post.stack, r);
    let none: Seq<AbstractValue> = seq![];
    let first = heap_roots(eqs, d.pre.heap.graph, none);
    lemma_heap_roots(eqs, d.pre.heap.graph, none, r);
    lemma_heap_roots(eqs, d.post.heap.graph, first, r);
}

/// The import of facts into the state `d` with what it had allocated noted before.
pub open spec fn import_into(d: AbductiveV, f: FormulaModel, must: Seq<AbstractValue>) -> ImportV {
    let eqs = d.formula.phi.eqs;
    ImportV {
        state: AbductiveV { formula: f, ..d },
        must_be_valid: must,
        stack_allocated: stack_roots(eqs, d.post.stack),
        heap_allocated: heap_roots(
            eqs,
            d.post.heap.graph,
            heap_roots(eqs, d.pre.heap.graph, seq![]),
        ),
    }
}

/// Where imported facts make the address of a program variable of the caller null
/// before any other address that it had, the import is impossible. The same goes for
/// an address that has edges, unless the callee accesses it.
pub proof fn law_null_address_of_caller(
    d: AbductiveV,
    f: FormulaModel,
    must: Seq<AbstractValue>,
    news: Seq<NewEq>,
    i: int,
    v: AbstractValue,
    addr: AbstractValue,
)
    requires
        eqs_wf(d.formula.phi.eqs),
        eqs_wf(f.phi.eqs),
        coarser(d.formula.phi.eqs, f.phi.eqs),
        taken_up(f.phi.eqs, news),
        0 <= i < news.len(),
        settled(import_into(d, f, must), news, i),
        news[i] == NewEq::EqZero(v),
        repr(f.phi.eqs, addr) == repr(f.phi.eqs, v),
        forall|j: int|
            0 <= j < i ==> ((#[trigger] news[j]) matches NewEq::EqZero(w) ==> !caller_had(
                import_into(d, f, must),
                w,
            )),
    ensures
        (exists|k: int|
            0 <= k < d.post.stack.len() && (#[trigger] d.post.stack[k]).1.var is ProgramVar
                && d.post.stack[k].1.value.addr == addr) ==> imported(
            import_into(d, f, must),
            news,
        ).1 is Unsat,
        lookup(d.post.heap.graph, addr) matches Some(e) && e.values.len() > 0 && !among(
            f.phi.eqs,
            must,
            v,
        ) ==> imported(import_into(d, f, must), news).1 is Unsat,
{
    let m = import_into(d, f, must);
    let r = repr(d.formula.phi.eqs, addr);
    law_snapshot(d, r);
    law_representative_is_smallest(d.formula.phi.eqs, addr);
    assert(repr(f.phi.eqs, r) == repr(f.phi.eqs, addr));
    if stack_allocated(d, r) {
        let q = choose|q: int| 0 <= q < m.stack_allocated.len() && m.stack_allocated[q] == r;
        assert(repr(f.phi.eqs, m.stack_allocated[q]) == repr(f.phi.eqs, v));
        law_import_of_null(m, news, i, v);
    }
    if heap_allocated(d, r) {
        let q = choose|q: int| 0 <= q < m.heap_allocated.len() && m.heap_allocated[q] == r;
        assert(repr(f.phi.eqs, m.heap_allocated[q]) == repr(f.phi.eqs, v));
        law_import_of_null(m, news, i, v);
    }
    lemma_lookup_has_key(d.post.heap.graph, addr);
}

proof fn lemma_stack_roots(eqs: Eqs, s: StackV, r: AbstractValue)
    ensures
        stack_roots(eqs, s).contains(r) <==> exists|i: int|
            0 <= i < s.len() && (#[trigger] s[i]).1.var is ProgramVar && repr(
                eqs,
                s[i].1.value.addr,
            ) == r,
    decreases s.len(),
{
    if s.len() > 0 {
        let rest = s.drop_last();
        lemma_stack_roots(eqs, rest, r);
        lemma_set_put_contains::<AbstractValue>(
            stack_roots(eqs, rest),
            repr(eqs, s.last().1.value.addr),
            r,
        );
        if stack_roots(eqs, rest).contains(r) {
            let i = choose|i: int|
                0 <= i < rest.len() && (#[trigger] rest[i]).1.var is ProgramVar && repr(
                    eqs,
                    rest[i].1.value.addr,
                ) == r;
            assert(s[i] == rest[i]);
        }
        if exists|i: int|
            0 <= i < s.len() && (#[trigger] s[i]).1.var is ProgramVar && repr(
                eqs,
                s[i].1.value.addr,
            ) == r {
            let i = choose|i: int|
                0 <= i < s.len() && (#[trigger] s[i]).1.var is ProgramVar && repr(
                    eqs,
                    s[i].1.value.addr,
                ) == r;
            if i < rest.len() {
                assert(rest[i] == s[i]);
            }
        }
        assert(s[s.len() - 1] == s.last());
    }
}

proof fn lemma_heap_roots(
    eqs: Eqs,
    g: Seq<(AbstractValue, EdgesV)>,
    acc: Seq<AbstractValue>,
    r: AbstractValue,
)
    ensures
        heap_roots(eqs, g, acc).contains(r) <==> acc.contains(r) || has_edges(g, eqs, r),
    decreases g.len(),
{
    if g.len() > 0 {
        let rest = g.drop_last();
        lemma_heap_roots(eqs, rest, acc, r);
        lemma_set_put_contains::<AbstractValue>(
            heap_roots(eqs, rest, acc),
            repr(eqs, g.last().0),
            r,
        );
        if has_edges(rest, eqs, r) {
            let i = choose|i: int|
                0 <= i < rest.len() && (#[trigger] rest[i]).1.values.len() > 0 && repr(
                    eqs,
                    rest[i].0,
                ) == r;
            assert(g[i] == rest[i]);
        }
        if has_edges(g, eqs, r) {
            let i = choose|i: int|
                0 <= i < g.len() && (#[trigger] g[i]).1.values.len() > 0 && repr(eqs, g[i].0) == r;
            if i < rest.len() {
                assert(rest[i] == g[i]);
            }
        }
        assert(g[g.len() - 1] == g.last());
    }
}

} // verus!
