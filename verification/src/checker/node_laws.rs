//! What the steps of an analysis do with the paths at a node.

use super::disjuncts::{
    continue_count, dead_vars, is_dead, is_live, last_stamp, last_stamp_of, node_plan, over_heap,
    over_time, retained, seen_in, set_stamp, some_continue, spliced, unseen, Budget, DisjunctsV,
    PlanV, Usage,
};
use crate::base_stack::StackV;
use crate::execution_domain::{ExecutionKind, ExecutionV};
use crate::ordered::lemma_filter_members;
use crate::sil::{Ident, Instr, Node, Var};
use vstd::prelude::*;

verus! {

/// An instruction leaves every path that has stopped as it is, puts the results of
/// each path that goes on in its place, and keeps their order: what comes of the
/// first states comes first.
pub proof fn law_spliced(
    s: Seq<ExecutionV>,
    results: Seq<Seq<ExecutionV>>,
    i: int,
    e: ExecutionV,
)
    requires
        0 <= i < s.len(),
    ensures
        ({
            let before = spliced(s.take(i), results);
            let here = if s[i].kind == ExecutionKind::Continue {
                results[continue_count(s.take(i)) as int]
            } else {
                seq![s[i]]
            };
            (before + here).is_prefix_of(spliced(s, results))
        }),
        s[i].kind != ExecutionKind::Continue ==> spliced(s, results).contains(s[i]),
        s[i].kind == ExecutionKind::Continue && results[continue_count(
            s.take(i),
        ) as int].contains(e) ==> spliced(s, results).contains(e),
    decreases s.len(),
{
    let t = s.drop_last();
    let all = spliced(s, results);
    let before = spliced(s.take(i), results);
    let here = if s[i].kind == ExecutionKind::Continue {
        results[continue_count(s.take(i)) as int]
    } else {
        seq![s[i]]
    };
    if i < t.len() {
        law_spliced(t, results, i, e);
        assert(t.take(i) =~= s.take(i));
        assert(t[i] == s[i]);
        assert((before + here).is_prefix_of(spliced(t, results)));
        assert(spliced(t, results).is_prefix_of(all));
    } else {
        assert(t =~= s.take(i));
        assert(all == before + here);
    }
    if s[i].kind != ExecutionKind::Continue {
        assert((before + here)[before.len() as int] == s[i]);
        assert(all[before.len() as int] == s[i]);
    } else if here.contains(e) {
        let k = choose|k: int| 0 <= k < here.len() && here[k] == e;
        assert((before + here)[before.len() + k] == e);
        assert(all[before.len() + k] == e);
    }
}

/// Every path behind an instruction is one that had stopped before it or a result of
/// running it on one that goes on.
pub proof fn law_spliced_from(s: Seq<ExecutionV>, results: Seq<Seq<ExecutionV>>, e: ExecutionV)
    requires
        spliced(s, results).contains(e),
    ensures
        (e.kind != ExecutionKind::Continue && s.contains(e)) || exists|k: int|
            0 <= k < continue_count(s) && (#[trigger] results[k]).contains(e),
    decreases s.len(),
{
    if s.len() > 0 {
        let t = s.drop_last();
        let rest = spliced(t, results);
        let all = spliced(s, results);
        let i = choose|i: int| 0 <= i < all.len() && all[i] == e;
        if i < rest.len() {
            assert(rest[i] == e);
            law_spliced_from(t, results, e);
            if t.contains(e) {
                let j = choose|j: int| 0 <= j < t.len() && t[j] == e;
                assert(s[j] == e);
            }
        } else if s.last().kind == ExecutionKind::Continue {
            let r = results[continue_count(t) as int];
            assert(r[i - rest.len()] == e);
            assert(r.contains(e));
        } else {
            assert(s[s.len() - 1] == e);
        }
    }
}

/// A node stops exactly when an earlier one has or the budget is spent. Otherwise it
/// runs or joins incoming states only, none that came in before, and runs them where
/// a path goes on; it has nothing to do exactly where all came in before.
pub proof fn law_node_plan(
    stopped: bool,
    budget: Budget,
    usage: Usage,
    known: bool,
    pre: Seq<ExecutionV>,
    old_pre: Option<Seq<ExecutionV>>,
    e: ExecutionV,
)
    ensures
        ({
            let plan = node_plan(stopped, budget, usage, known, pre, old_pre);
            &&& plan is Stop <==> stopped || over_heap(budget, usage) || over_time(budget, usage)
            &&& plan is Unknown ==> !known
            &&& !(plan is Stop) && !known ==> plan is Unknown
            &&& plan matches PlanV::Run(input) ==> some_continue(input)
            &&& plan matches PlanV::Join(input) ==> !some_continue(input)
            &&& plan matches PlanV::Run(input) ==> input.contains(e) ==> pre.contains(e) && (
            old_pre matches Some(old) ==> !seen_in(e, old))
            &&& plan matches PlanV::Join(input) ==> input.contains(e) ==> pre.contains(e) && (
            old_pre matches Some(old) ==> !seen_in(e, old))
            &&& plan is Keep ==> (old_pre matches Some(old) && (pre.contains(e) ==> seen_in(
                e,
                old,
            )))
            &&& old_pre is None ==> (plan matches PlanV::Run(input) ==> input == pre)
            &&& old_pre is None ==> (plan matches PlanV::Join(input) ==> input == pre)
        }),
{
    if let Some(old) = old_pre {
        let p = |x: ExecutionV| !seen_in(x, old);
        let input = pre.filter(p);
        assert(unseen(pre, old) == input);
        if input.contains(e) {
            let i = choose|i: int| 0 <= i < input.len() && input[i] == e;
            lemma_filter_members(pre, p, i);
            let j = choose|j: int| 0 <= j < pre.len() && #[trigger] pre[j] == input[i];
            assert(pre.contains(e));
            pre.lemma_filter_pred(p, i);
        }
        if input.len() == 0 && pre.contains(e) && !seen_in(e, old) {
            assert(p(e));
            assert(pre.filter(p).contains(e));
        }
    }
}

/// That states were dropped before a node is not forgotten behind it, and a visit
/// drops nothing that the node had.
pub proof fn law_retained(pre: DisjunctsV, old_post: Option<DisjunctsV>)
    ensures
        pre.dropped ==> retained(pre, old_post).dropped,
        old_post matches Some(post) ==> retained(pre, old_post).states == post.states && (
        post.dropped ==> retained(pre, old_post).dropped),
        retained(pre, old_post).dropped ==> pre.dropped || (old_post matches Some(post)
            && post.dropped),
        old_post is None ==> retained(pre, old_post).states.len() == 0,
{
}

/// A budget once spent stays spent; without a limit, or with a limit of zero, it never
/// is; a limit may be reached, not passed.
pub proof fn law_budget(budget: Budget, usage: Usage, later: Usage)
    ensures
        over_time(budget, usage) && usage.elapsed_secs <= later.elapsed_secs ==> over_time(
            budget,
            later,
        ),
        over_heap(budget, usage) && usage.start_peak_rss_bytes == later.start_peak_rss_bytes && (
        later.peak_rss_bytes matches Some(n) && usage.peak_rss_bytes->0 <= n) ==> over_heap(
            budget,
            later,
        ),
        budget.max_wall_secs is None || budget.max_wall_secs == Some(0u64) ==> !over_time(
            budget,
            usage,
        ),
        budget.max_heap_mb is None || budget.max_heap_mb == Some(0u64) || usage.peak_rss_bytes is None
            ==> !over_heap(budget, usage),
        budget.max_wall_secs matches Some(max) ==> {
            &&& usage.elapsed_secs == max ==> !over_time(budget, usage)
            &&& max > 0 && usage.elapsed_secs == max + 1 ==> over_time(budget, usage)
        },
        budget.max_heap_mb matches Some(max) ==> (usage.peak_rss_bytes matches Some(n) ==> {
            &&& n - usage.start_peak_rss_bytes == max * 1024 * 1024 ==> !over_heap(budget, usage)
            &&& max > 0 && n - usage.start_peak_rss_bytes == max * 1024 * 1024 + 1 ==> over_heap(
                budget,
                usage,
            )
        }),
{
}

/// The variables dropped behind a node are those of the stack that are logical, not
/// live, and not the result. No program variable is.
pub proof fn law_dead_vars(s: StackV, live: Seq<Ident>, keep: Option<i32>, v: Var)
    ensures
        dead_vars(s, live, keep).contains(v) ==> exists|i: int|
            0 <= i < s.len() && (#[trigger] s[i]).1.var == v,
        dead_vars(s, live, keep).contains(v) ==> (v matches Var::LogicalVar(id) && !is_live(
            live,
            id,
        ) && keep != Some(id.stamp)),
        forall|i: int|
            0 <= i < s.len() ==> ((#[trigger] s[i]).1.var matches Var::LogicalVar(id) ==> !is_live(
                live,
                id,
            ) && keep != Some(id.stamp) ==> dead_vars(s, live, keep).contains(s[i].1.var)),
    decreases s.len(),
{
    if s.len() > 0 {
        let t = s.drop_last();
        let rest = dead_vars(t, live, keep);
        let all = dead_vars(s, live, keep);
        law_dead_vars(t, live, keep, v);
        if all.contains(v) {
            let k = choose|k: int| 0 <= k < all.len() && all[k] == v;
            if k < rest.len() {
                assert(rest[k] == v);
                let i = choose|i: int| 0 <= i < t.len() && (#[trigger] t[i]).1.var == v;
                assert(s[i] == t[i]);
            } else {
                assert(s[s.len() - 1].1.var == v);
            }
        }
        assert forall|i: int| 0 <= i < s.len() implies ((
        #[trigger] s[i]).1.var matches Var::LogicalVar(id) ==> !is_live(live, id) && keep != Some(
            id.stamp,
        ) ==> all.contains(s[i].1.var)) by {
            if is_dead(s[i].1.var, live, keep) {
                if i < t.len() {
                    assert(t[i] == s[i]);
                    let k = choose|k: int| 0 <= k < rest.len() && rest[k] == s[i].1.var;
                    assert(all[k] == s[i].1.var);
                } else {
                    assert(all[rest.len() as int] == s[i].1.var);
                }
            }
        }
    }
}

/// Some instruction of the sequence sets this stamp, and none behind it sets another.
pub open spec fn sets_last(instrs: Seq<Instr>, stamp: i32) -> bool {
    exists|i: int|
        0 <= i < instrs.len() && set_stamp(#[trigger] instrs[i]) == Some(stamp) && sets_nothing(
            instrs.skip(i + 1),
        )
}

/// No instruction of the sequence sets a stamp.
pub open spec fn sets_nothing(instrs: Seq<Instr>) -> bool {
    forall|i: int| 0 <= i < instrs.len() ==> set_stamp(#[trigger] instrs[i]) is None
}

proof fn lemma_last_stamp_of(instrs: Seq<Instr>, acc: Option<i32>)
    ensures
        sets_nothing(instrs) ==> last_stamp_of(instrs, acc) == acc,
        !sets_nothing(instrs) ==> (last_stamp_of(instrs, acc) matches Some(n) && sets_last(
            instrs,
            n,
        )),
    decreases instrs.len(),
{
    if instrs.len() > 0 {
        let t = instrs.drop_last();
        let last = instrs.len() - 1;
        lemma_last_stamp_of(t, acc);
        if set_stamp(instrs.last()) is Some {
            assert(instrs[last] == instrs.last());
            assert(!sets_nothing(instrs));
            assert(sets_nothing(instrs.skip(last + 1)));
        } else if sets_nothing(t) {
            assert forall|i: int| 0 <= i < instrs.len() implies set_stamp(
                #[trigger] instrs[i],
            ) is None by {
                if i < last {
                    assert(t[i] == instrs[i]);
                }
            }
        } else {
            let n = last_stamp_of(t, acc)->0;
            let i = choose|i: int|
                0 <= i < t.len() && set_stamp(#[trigger] t[i]) == Some(n) && sets_nothing(
                    t.skip(i + 1),
                );
            assert(instrs[i] == t[i]);
            let rest = instrs.skip(i + 1);
            assert forall|j: int| 0 <= j < rest.len() implies set_stamp(#[trigger] rest[j]) is None by {
                if i + 1 + j < last {
                    assert(t.skip(i + 1)[j] == rest[j]);
                } else {
                    assert(rest[j] == instrs.last());
                }
            }
        }
    }
}

/// The stamp of the result is that of the last instruction, in the last node with one,
/// that sets a stamp; there is none exactly where no instruction sets one.
pub proof fn law_last_stamp(nodes: Seq<Node>)
    ensures
        match last_stamp(nodes) {
            Some(n) => exists|k: int|
                0 <= k < nodes.len() && sets_last((#[trigger] nodes[k]).instrs@, n) && forall|j: int|
                    k < j < nodes.len() ==> sets_nothing((#[trigger] nodes[j]).instrs@),
            None => forall|j: int| 0 <= j < nodes.len() ==> sets_nothing((#[trigger] nodes[j]).instrs@),
        },
    decreases nodes.len(),
{
    if nodes.len() > 0 {
        let t = nodes.drop_last();
        let last = nodes.len() - 1;
        law_last_stamp(t);
        lemma_last_stamp_of(nodes.last().instrs@, last_stamp(t));
        assert(nodes[last] == nodes.last());
        if sets_nothing(nodes.last().instrs@) {
            match last_stamp(t) {
                Some(n) => {
                    let k = choose|k: int|
                        0 <= k < t.len() && sets_last((#[trigger] t[k]).instrs@, n) && forall|j: int|
                            k < j < t.len() ==> sets_nothing((#[trigger] t[j]).instrs@);
                    assert(nodes[k] == t[k]);
                    assert forall|j: int| k < j < nodes.len() implies sets_nothing(
                        (#[trigger] nodes[j]).instrs@,
                    ) by {
                        if j < last {
                            assert(t[j] == nodes[j]);
                        }
                    }
                },
                None => {
                    assert forall|j: int| 0 <= j < nodes.len() implies sets_nothing(
                        (#[trigger] nodes[j]).instrs@,
                    ) by {
                        if j < last {
                            assert(t[j] == nodes[j]);
                        }
                    }
                },
            }
        }
    }
}

} // verus!
