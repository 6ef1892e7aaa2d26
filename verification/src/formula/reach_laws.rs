//! What is connected to a seed is the least set that takes in whole facts.

use super::lin_arith::Lin;
use super::reachable::{
    in_call, is_chain, lemma_chain_extend, lemma_closed_contains, links, links_left, links_right,
    mentions, reaches,
};
use super::solver::PhiModel;
use super::var_uf::{eqs_wf, law_representative_is_smallest, repr};
use crate::abstract_value::AbstractValue;
use crate::ordered::{lemma_lookup_at, lemma_lookup_has_key, lookup, sorted};
use vstd::prelude::*;

verus! {

/// The class of `r` takes part in the equation, on either side.
pub open spec fn in_equation(m: PhiModel, e: (AbstractValue, Lin), r: AbstractValue) -> bool {
    repr(m.eqs, e.0) == r || mentions(m, e.1, r)
}

/// With one class of an equation or a pure call the set holds them all.
pub open spec fn takes_whole_facts(m: PhiModel, s: Set<AbstractValue>) -> bool {
    &&& forall|i: int, a: AbstractValue, b: AbstractValue|
        #![trigger in_equation(m, m.lin[i], a), in_equation(m, m.lin[i], b)]
        0 <= i < m.lin.len() && s.contains(a) && in_equation(m, m.lin[i], a) && in_equation(
            m,
            m.lin[i],
            b,
        ) ==> s.contains(b)
    &&& forall|i: int, a: AbstractValue, b: AbstractValue|
        #![trigger in_call(m, m.apps[i], a), in_call(m, m.apps[i], b)]
        0 <= i < m.apps.len() && s.contains(a) && in_call(m, m.apps[i], a) && in_call(
            m,
            m.apps[i],
            b,
        ) ==> s.contains(b)
}

/// The values connected to the seed.
pub open spec fn reached(m: PhiModel, seed: Seq<AbstractValue>) -> Set<AbstractValue> {
    Set::new(|x: AbstractValue| reaches(m, seed, x))
}

/// Every member of the seed and every variable with an equation is the representative
/// of its class, and the collections are in order.
pub open spec fn by_representatives(m: PhiModel, seed: Seq<AbstractValue>) -> bool {
    &&& eqs_wf(m.eqs)
    &&& sorted::<AbstractValue, Lin>(m.lin)
    &&& forall|x: AbstractValue| #[trigger] seed.contains(x) ==> repr(m.eqs, x) == x
    &&& forall|i: int| 0 <= i < m.lin.len() ==> repr(m.eqs, (#[trigger] m.lin[i]).0) == m.lin[i].0
}

proof fn lemma_link_is_representative(m: PhiModel, a: AbstractValue, b: AbstractValue)
    requires
        eqs_wf(m.eqs),
        links(m, a, b),
    ensures
        repr(m.eqs, b) == b,
{
    assert(exists|v: AbstractValue| b == #[trigger] repr(m.eqs, v));
    let v = choose|v: AbstractValue| b == #[trigger] repr(m.eqs, v);
    law_representative_is_smallest(m.eqs, v);
}

proof fn lemma_reached_is_representative(
    m: PhiModel,
    seed: Seq<AbstractValue>,
    p: Seq<AbstractValue>,
)
    requires
        by_representatives(m, seed),
        is_chain(m, seed, p),
    ensures
        repr(m.eqs, p.last()) == p.last(),
{
    if p.len() > 1 {
        assert(links(m, p[p.len() - 2], p[p.len() - 1]));
        lemma_link_is_representative(m, p[p.len() - 2], p[p.len() - 1]);
    } else {
        assert(seed.contains(p[0]));
    }
}

/// A fact links each of its classes to all the others.
proof fn lemma_equation_reached(
    m: PhiModel,
    seed: Seq<AbstractValue>,
    i: int,
    a: AbstractValue,
    b: AbstractValue,
)
    requires
        by_representatives(m, seed),
        0 <= i < m.lin.len(),
        reaches(m, seed, a),
        in_equation(m, m.lin[i], a),
        in_equation(m, m.lin[i], b),
    ensures
        reaches(m, seed, b),
{
    let p = choose|p: Seq<AbstractValue>| #[trigger] is_chain(m, seed, p) && p.last() == a;
    lemma_reached_is_representative(m, seed, p);
    let x = m.lin[i].0;
    lemma_lookup_at::<AbstractValue, Lin>(m.lin, i);
    assert(repr(m.eqs, m.lin[i].0) == x);
    if a != x {
        assert(links(m, a, x));
        lemma_chain_extend(m, seed, a, x);
    }
    if b != x {
        assert(links(m, x, b));
        lemma_chain_extend(m, seed, x, b);
    }
}

/// What is connected to a seed holds the seed and whole facts, and every set that does
/// holds all of it.
pub proof fn law_reached_is_least(m: PhiModel, seed: Seq<AbstractValue>, s: Set<AbstractValue>)
    requires
        by_representatives(m, seed),
    ensures
        forall|x: AbstractValue| #[trigger] seed.contains(x) ==> reached(m, seed).contains(x),
        takes_whole_facts(m, reached(m, seed)),
        takes_whole_facts(m, s) && (forall|x: AbstractValue| #[trigger]
            seed.contains(x) ==> s.contains(x)) ==> reached(m, seed).subset_of(s),
{
    let r = reached(m, seed);
    assert forall|x: AbstractValue| #[trigger] seed.contains(x) implies r.contains(x) by {
        assert(is_chain(m, seed, seq![x]));
        assert(seq![x].last() == x);
    }
    assert forall|i: int, a: AbstractValue, b: AbstractValue|
        #![trigger in_equation(m, m.lin[i], a), in_equation(m, m.lin[i], b)]
        0 <= i < m.lin.len() && r.contains(a) && in_equation(m, m.lin[i], a) && in_equation(
            m,
            m.lin[i],
            b,
        ) implies r.contains(b) by {
        lemma_equation_reached(m, seed, i, a, b);
    }
    assert forall|i: int, a: AbstractValue, b: AbstractValue|
        #![trigger in_call(m, m.apps[i], a), in_call(m, m.apps[i], b)]
        0 <= i < m.apps.len() && r.contains(a) && in_call(m, m.apps[i], a) && in_call(
            m,
            m.apps[i],
            b,
        ) implies r.contains(b) by {
        let p = choose|p: Seq<AbstractValue>| #[trigger] is_chain(m, seed, p) && p.last() == a;
        lemma_reached_is_representative(m, seed, p);
        assert(links(m, a, b));
        lemma_chain_extend(m, seed, a, b);
    }
    if takes_whole_facts(m, s) && (forall|x: AbstractValue| #[trigger]
        seed.contains(x) ==> s.contains(x)) {
        assert forall|x: AbstractValue| r.contains(x) implies s.contains(x) by {
            let p = choose|p: Seq<AbstractValue>| #[trigger] is_chain(m, seed, p) && p.last() == x;
            lemma_chain_within(m, seed, s, p);
        }
    }
}

proof fn lemma_chain_within(
    m: PhiModel,
    seed: Seq<AbstractValue>,
    s: Set<AbstractValue>,
    p: Seq<AbstractValue>,
)
    requires
        by_representatives(m, seed),
        takes_whole_facts(m, s),
        forall|x: AbstractValue| #[trigger] seed.contains(x) ==> s.contains(x),
        is_chain(m, seed, p),
    ensures
        s.contains(p.last()),
    decreases p.len(),
{
    if p.len() > 1 {
        let q = p.drop_last();
        assert(is_chain(m, seed, q)) by {
            assert forall|i: int, j: int| 0 <= i && j == i + 1 && j < q.len() implies links(
                m,
                #[trigger] q[i],
                #[trigger] q[j],
            ) by {
                assert(links(m, p[i], p[j]));
            }
        }
        lemma_chain_within(m, seed, s, q);
        lemma_reached_is_representative(m, seed, q);
        let (a, b) = (q.last(), p.last());
        assert(a == p[p.len() - 2]);
        assert(links(m, p[p.len() - 2], p[p.len() - 1]));
        if links_right(m, a, b) {
            lemma_lookup_has_key(m.lin, a);
            let l = lookup(m.lin, a)->0;
            let i = choose|i: int| 0 <= i < m.lin.len() && (#[trigger] m.lin[i]) == (a, l);
            assert(in_equation(m, m.lin[i], a) && in_equation(m, m.lin[i], b));
        } else if links_left(m, a, b) {
            let i = choose|i: int|
                0 <= i < m.lin.len() && repr(m.eqs, (#[trigger] m.lin[i]).0) == b && b != repr(
                    m.eqs,
                    a,
                ) && mentions(m, m.lin[i].1, repr(m.eqs, a));
            assert(in_equation(m, m.lin[i], a) && in_equation(m, m.lin[i], b));
        } else {
            let i = choose|i: int|
                0 <= i < m.apps.len() && in_call(m, #[trigger] m.apps[i], repr(m.eqs, a))
                    && in_call(m, m.apps[i], b);
            assert(in_call(m, m.apps[i], a) && in_call(m, m.apps[i], b));
        }
    } else {
        assert(seed.contains(p[0]));
    }
}

/// Expanding what has been expanded changes nothing.
pub proof fn law_expanding_again(m: PhiModel, seed: Seq<AbstractValue>, r: Seq<AbstractValue>)
    requires
        forall|x: AbstractValue| #[trigger] r.contains(x) <==> reaches(m, seed, x),
    ensures
        forall|x: AbstractValue| #[trigger] r.contains(x) <==> reaches(m, r, x),
{
    assert forall|a: AbstractValue, b: AbstractValue|
        r.contains(a) && #[trigger] links(m, a, b) implies r.contains(b) by {
        lemma_chain_extend(m, seed, a, b);
    }
    assert forall|x: AbstractValue| #[trigger] r.contains(x) <==> reaches(m, r, x) by {
        if r.contains(x) {
            assert(is_chain(m, r, seq![x]));
            assert(seq![x].last() == x);
        }
        if reaches(m, r, x) {
            let p = choose|p: Seq<AbstractValue>| #[trigger] is_chain(m, r, p) && p.last() == x;
            lemma_closed_contains(m, r, r, p);
        }
    }
}

} // verus!
