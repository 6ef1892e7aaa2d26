//! What the statistics of an analysis count.

use super::stats::{
    counts, crowded_nodes, kind_count, law_rank_order, most_disjuncts, most_visits, rank_order,
    ranks_before, revisited, stepped, top_of, total_counts, visits_of, FixpointTopNode,
    MAX_TOP_NODES, NodeV, ProgressV,
};
use crate::execution_domain::{ExecutionKind, ExecutionV};
use crate::ordered::lemma_lookup_put;
use vstd::prelude::*;

verus! {

/// The states of one kind.
pub open spec fn of_kind(s: Seq<ExecutionV>, k: ExecutionKind) -> Seq<ExecutionV> {
    s.filter(|e: ExecutionV| e.kind == k)
}

proof fn lemma_kind_count(s: Seq<ExecutionV>, k: ExecutionKind)
    ensures
        kind_count(s, k) == of_kind(s, k).len(),
    decreases s.len(),
{
    reveal(Seq::filter);
    if s.len() > 0 {
        lemma_kind_count(s.drop_last(), k);
    }
}

/// Each count is the number of the states of its kind.
pub proof fn law_counts(s: Seq<ExecutionV>)
    ensures
        counts(s).disjuncts == s.len(),
        counts(s).continues == of_kind(s, ExecutionKind::Continue).len(),
        counts(s).exits == of_kind(s, ExecutionKind::Exit).len(),
        counts(s).aborts == of_kind(s, ExecutionKind::Abort).len(),
        counts(s).latent_aborts == of_kind(s, ExecutionKind::LatentAbort).len(),
        counts(s).latent_invalids == of_kind(s, ExecutionKind::LatentInvalid).len(),
        counts(s).exceptions == of_kind(s, ExecutionKind::Exception).len(),
{
    lemma_kind_count(s, ExecutionKind::Continue);
    lemma_kind_count(s, ExecutionKind::Exit);
    lemma_kind_count(s, ExecutionKind::Abort);
    lemma_kind_count(s, ExecutionKind::LatentAbort);
    lemma_kind_count(s, ExecutionKind::LatentInvalid);
    lemma_kind_count(s, ExecutionKind::Exception);
}

proof fn lemma_kind_count_append(s: Seq<ExecutionV>, t: Seq<ExecutionV>, k: ExecutionKind)
    ensures
        kind_count(s + t, k) == kind_count(s, k) + kind_count(t, k),
    decreases t.len(),
{
    if t.len() == 0 {
        assert(s + t =~= s);
    } else {
        assert((s + t).drop_last() =~= s + t.drop_last());
        assert((s + t).last() == t.last());
        lemma_kind_count_append(s, t.drop_last(), k);
    }
}

/// The states of all nodes, one behind the other.
pub open spec fn all_states(s: Seq<NodeV>) -> Seq<ExecutionV>
    decreases s.len(),
{
    if s.len() == 0 {
        seq![]
    } else {
        all_states(s.drop_last()) + s.last().post
    }
}

/// The totals are the counts of the states of all nodes.
pub proof fn law_totals(s: Seq<NodeV>)
    ensures
        total_counts(s) == counts(all_states(s)),
    decreases s.len(),
{
    if s.len() > 0 {
        let (a, b) = (all_states(s.drop_last()), s.last().post);
        law_totals(s.drop_last());
        lemma_kind_count_append(a, b, ExecutionKind::Continue);
        lemma_kind_count_append(a, b, ExecutionKind::Exit);
        lemma_kind_count_append(a, b, ExecutionKind::Abort);
        lemma_kind_count_append(a, b, ExecutionKind::LatentAbort);
        lemma_kind_count_append(a, b, ExecutionKind::LatentInvalid);
        lemma_kind_count_append(a, b, ExecutionKind::Exception);
    }
}

/// The most visits and the most states are those of some node, and no node has more.
pub proof fn law_maxima(s: Seq<NodeV>, i: int)
    requires
        0 <= i < s.len(),
    ensures
        s[i].visit_count <= most_visits(s),
        s[i].post.len() <= most_disjuncts(s),
        most_visits(s) > 0 ==> exists|k: int|
            0 <= k < s.len() && (#[trigger] s[k]).visit_count == most_visits(s),
        most_disjuncts(s) > 0 ==> exists|k: int|
            0 <= k < s.len() && (#[trigger] s[k]).post.len() == most_disjuncts(s),
    decreases s.len(),
{
    let t = s.drop_last();
    let last = s.len() - 1;
    assert(s[last] == s.last());
    if t.len() > 0 {
        law_maxima(
            t,
            if i < last {
                i
            } else {
                0
            },
        );
        if i < last {
            assert(t[i] == s[i]);
        }
        if most_visits(t) > 0 {
            let k = choose|k: int| 0 <= k < t.len() && (#[trigger] t[k]).visit_count == most_visits(t);
            assert(s[k] == t[k]);
        }
        if most_disjuncts(t) > 0 {
            let k = choose|k: int|
                0 <= k < t.len() && (#[trigger] t[k]).post.len() == most_disjuncts(t);
            assert(s[k] == t[k]);
        }
    }
}

/// The nodes visited again are those visited more than once.
pub proof fn law_revisited(s: Seq<NodeV>)
    ensures
        revisited(s) == s.filter(|n: NodeV| n.visit_count > 1).len(),
    decreases s.len(),
{
    reveal(Seq::filter);
    if s.len() > 0 {
        law_revisited(s.drop_last());
    }
}

/// The node as it is listed among the crowded ones.
pub open spec fn listed_as(n: NodeV) -> FixpointTopNode {
    FixpointTopNode {
        node: n.node,
        disjuncts: n.post.len() as usize,
        visit_count: n.visit_count,
    }
}

/// The crowded nodes are those with more than one state.
pub proof fn law_crowded(s: Seq<NodeV>, x: FixpointTopNode)
    ensures
        crowded_nodes(s).contains(x) <==> exists|i: int|
            0 <= i < s.len() && (#[trigger] s[i]).post.len() > 1 && listed_as(s[i]) == x,
    decreases s.len(),
{
    if s.len() > 0 {
        let t = s.drop_last();
        let last = s.len() - 1;
        let rest = crowded_nodes(t);
        let all = crowded_nodes(s);
        law_crowded(t, x);
        assert(s[last] == s.last());
        if all.contains(x) {
            let k = choose|k: int| 0 <= k < all.len() && all[k] == x;
            if k < rest.len() {
                assert(rest[k] == x);
                let i = choose|i: int|
                    0 <= i < t.len() && (#[trigger] t[i]).post.len() > 1 && listed_as(t[i]) == x;
                assert(s[i] == t[i]);
            } else {
                assert(listed_as(s[last]) == x);
            }
        }
        if exists|i: int|
            0 <= i < s.len() && (#[trigger] s[i]).post.len() > 1 && listed_as(s[i]) == x {
            let i = choose|i: int|
                0 <= i < s.len() && (#[trigger] s[i]).post.len() > 1 && listed_as(s[i]) == x;
            if i < last {
                assert(t[i] == s[i]);
                let k = choose|k: int| 0 <= k < rest.len() && rest[k] == x;
                assert(all[k] == x);
            } else {
                assert(all[rest.len() as int] == x);
            }
        }
    }
}

/// The nodes at the top are crowded ones in their order, as many as are asked for, and
/// every crowded node that is not among them ranks behind all of them.
pub proof fn law_top(s: Seq<NodeV>, x: FixpointTopNode, i: int, j: int)
    ensures
        ({
            let top = top_of(s);
            let all = crowded_nodes(s);
            &&& top.len() == (if all.len() > MAX_TOP_NODES {
                MAX_TOP_NODES as nat
            } else {
                all.len()
            })
            &&& top.contains(x) ==> all.contains(x)
            &&& 0 <= i < j < top.len() ==> ranks_before(top[i], top[j])
            &&& all.contains(x) && !top.contains(x) && 0 <= i < top.len() ==> ranks_before(
                top[i],
                x,
            )
        }),
{
    let all = crowded_nodes(s);
    let ranked = all.sort_by(rank_order());
    let top = top_of(s);
    law_rank_order();
    all.lemma_sort_by_ensures(rank_order());
    vstd::seq_lib::to_multiset_len(ranked);
    vstd::seq_lib::to_multiset_len(all);
    assert(ranked.len() == all.len());
    if 0 <= i < j < top.len() {
        assert(rank_order()(ranked[i], ranked[j]));
    }
    if top.contains(x) {
        let k = choose|k: int| 0 <= k < top.len() && top[k] == x;
        assert(ranked[k] == x);
        assert(ranked.to_multiset().count(x) > 0) by {
            vstd::seq_lib::to_multiset_contains(ranked, x);
        }
        vstd::seq_lib::to_multiset_contains(all, x);
    }
    if all.contains(x) && !top.contains(x) && 0 <= i < top.len() {
        vstd::seq_lib::to_multiset_contains(all, x);
        vstd::seq_lib::to_multiset_contains(ranked, x);
        let k = choose|k: int| 0 <= k < ranked.len() && ranked[k] == x;
        if k < top.len() {
            assert(top[k] == x);
        }
        assert(rank_order()(ranked[i], ranked[k]));
    }
}

/// A step counts one more visit of its node and of no other, and one more step; the
/// number of states seen only grows.
pub proof fn law_step_is_counted(p: ProgressV, node: usize, disjuncts: usize, other: usize)
    requires
        p.wf(),
        p.steps < usize::MAX,
        visits_of(p, node) < usize::MAX,
    ensures
        ({
            let r = stepped(p, node, disjuncts);
            &&& visits_of(r, node) == visits_of(p, node) + 1
            &&& other != node ==> visits_of(r, other) == visits_of(p, other)
            &&& r.steps == p.steps + 1
            &&& r.max_disjuncts >= p.max_disjuncts && r.max_disjuncts >= disjuncts
            &&& r.max_disjuncts == p.max_disjuncts || r.max_disjuncts == disjuncts
        }),
{
    let visits = (visits_of(p, node) + 1) as usize;
    lemma_lookup_put::<usize, usize>(p.visits, node, visits, node);
    lemma_lookup_put::<usize, usize>(p.visits, node, visits, other);
}

} // verus!
