//! The outcome of a fixpoint: what of its node states goes into the summary of a
//! procedure.

use super::disjuncts::{exec_views, has_normal_path, some_normal};
use super::scan::{
    answer_views, exit_disjuncts, law_scan_publishes_once, no_repeats, scan_wf, scanned_all,
    with_recovered, without_exceptions, AnswerV, NonExitScan, ScanAnswer, ScanV,
};
use crate::diagnostic::Diagnostic;
use crate::execution_domain::{ExecutionDomain, ExecutionV};
use crate::sil::{Node, Procdesc};
use vstd::prelude::*;

verus! {

/// The states behind a node, with what was found out about each.
pub struct NodeStates {
    pub node: usize,
    pub states: Vec<ExecutionDomain>,
    pub answers: Vec<ScanAnswer>,
    /// States had to be dropped at the node.
    pub had_dropped_disjuncts: bool,
}

/// What [`NodeStates`] stands for.
pub struct NodeStatesV {
    pub node: usize,
    pub states: Seq<ExecutionV>,
    pub answers: Seq<AnswerV>,
    pub dropped: bool,
}

impl View for NodeStates {
    type V = NodeStatesV;

    open spec fn view(&self) -> NodeStatesV {
        NodeStatesV {
            node: self.node,
            states: exec_views(self.states@),
            answers: answer_views(self.answers@),
            dropped: self.had_dropped_disjuncts,
        }
    }
}

/// What the states of all nodes stand for.
pub open spec fn nodes_view(s: Seq<NodeStates>) -> Seq<NodeStatesV> {
    s.map_values(|n: NodeStates| n@)
}

/// What goes into the summary of a procedure.
pub struct ProcedureScan {
    /// The errors that are certain.
    pub diagnostics: Vec<Diagnostic>,
    /// The paths of the summary.
    pub disjuncts: Vec<ExecutionDomain>,
    /// The procedure is declared never to return. That no path goes on at the exit does
    /// not make it so: a summary of errors alone is still applied as usual.
    pub is_noreturn: bool,
    pub has_dropped_disjuncts: bool,
}

/// The states behind the exit; none when it was not reached.
pub open spec fn exit_states(s: Seq<NodeStatesV>, exit: usize) -> Seq<ExecutionV>
    decreases s.len(),
{
    if s.len() == 0 {
        seq![]
    } else if s.last().node == exit {
        s.last().states
    } else {
        exit_states(s.drop_last(), exit)
    }
}

/// What is kept of the nodes other than the exit.
pub open spec fn scanned_nodes(
    s: Seq<NodeStatesV>,
    exit: usize,
    nodes: Seq<Node>,
    normal: bool,
) -> ScanV
    decreases s.len(),
{
    if s.len() == 0 {
        ScanV { diagnostics: seq![], seen: seq![], recovered: seq![] }
    } else {
        let rest = scanned_nodes(s.drop_last(), exit, nodes, normal);
        if s.last().node == exit {
            rest
        } else {
            scanned_all(rest, nodes, normal, s.last().states, s.last().answers)
        }
    }
}

/// States had to be dropped at some node.
pub open spec fn some_dropped(s: Seq<NodeStatesV>) -> bool {
    exists|i: int| 0 <= i < s.len() && (#[trigger] s[i]).dropped
}

fn find_exit(nodes: &Vec<NodeStates>, exit: usize) -> (r: Option<&Vec<ExecutionDomain>>)
    ensures
        exit_states(nodes_view(nodes@), exit) == (match r {
            Some(states) => exec_views(states@),
            None => seq![],
        }),
{
    let ghost s = nodes_view(nodes@);
    let mut i: usize = nodes.len();
    assert(s.take(i as int) =~= s);
    while i > 0
        invariant
            s == nodes_view(nodes@),
            i <= s.len(),
            exit_states(s, exit) == exit_states(s.take(i as int), exit),
        decreases i,
    {
        let ghost t = s.take(i as int);
        assert(t.drop_last() =~= s.take(i - 1));
        assert(t.last() == s[i - 1]);
        if nodes[i - 1].node == exit {
            return Some(&nodes[i - 1].states);
        }
        i = i - 1;
    }
    None
}

/// What goes into the summary of a procedure: the certain errors of the nodes
/// other than the exit, the paths at the exit that raised no exception, and the
/// paths that stopped before it.
pub fn scan_procedure(pdesc: &Procdesc, nodes: &Vec<NodeStates>) -> (r: ProcedureScan)
    requires
        forall|i: int|
            0 <= i < nodes@.len() ==> (#[trigger] nodes@[i]).answers@.len()
                == nodes@[i].states@.len(),
    ensures
        ({
            let s = nodes_view(nodes@);
            let at_exit = exit_states(s, pdesc.exit_node);
            let scan = scanned_nodes(s, pdesc.exit_node, pdesc.nodes@, some_normal(at_exit));
            &&& r.diagnostics@ == scan.diagnostics
            &&& exec_views(r.disjuncts@) == with_recovered(
                without_exceptions(at_exit),
                scan.recovered,
            )
            &&& r.has_dropped_disjuncts == some_dropped(s)
        }),
        r.is_noreturn == pdesc.is_no_return,
{
    let ghost s = nodes_view(nodes@);
    let none: Vec<ExecutionDomain> = Vec::new();
    let at_exit = match find_exit(nodes, pdesc.exit_node) {
        Some(states) => states,
        None => &none,
    };
    assert(exec_views(at_exit@) =~= exit_states(s, pdesc.exit_node));
    let exit_has_normal_path = has_normal_path(at_exit);
    let mut scan = NonExitScan::new();
    let mut dropped = false;
    let mut i: usize = 0;
    assert(s.take(0) =~= seq![]);
    while i < nodes.len()
        invariant
            s == nodes_view(nodes@),
            i <= s.len(),
            forall|i: int|
                0 <= i < nodes@.len() ==> (#[trigger] nodes@[i]).answers@.len()
                    == nodes@[i].states@.len(),
            scan@ == scanned_nodes(
                s.take(i as int),
                pdesc.exit_node,
                pdesc.nodes@,
                exit_has_normal_path,
            ),
            dropped == some_dropped(s.take(i as int)),
        decreases s.len() - i,
    {
        let ghost t = s.take(i + 1);
        assert(t.drop_last() =~= s.take(i as int));
        assert(t.last() == s[i as int]);
        let node = &nodes[i];
        if node.node != pdesc.exit_node {
            scan.scan_node(pdesc, exit_has_normal_path, &node.states, &node.answers);
        }
        proof {
            if some_dropped(s.take(i as int)) {
                let k = choose|k: int| 0 <= k < i && (#[trigger] s.take(i as int)[k]).dropped;
                assert(t[k].dropped);
            }
            if node.had_dropped_disjuncts {
                assert(t[i as int].dropped);
            }
            if some_dropped(t) && !node.had_dropped_disjuncts {
                let k = choose|k: int| 0 <= k < t.len() && (#[trigger] t[k]).dropped;
                assert(s.take(i as int)[k].dropped);
            }
        }
        dropped = dropped || node.had_dropped_disjuncts;
        i = i + 1;
    }
    assert(s.take(i as int) =~= s);
    let disjuncts = exit_disjuncts(at_exit, &scan.recovered);
    ProcedureScan {
        diagnostics: scan.diagnostics,
        disjuncts,
        is_noreturn: pdesc.is_no_return,
        has_dropped_disjuncts: dropped,
    }
}

proof fn lemma_scanned_all_wf(
    m: ScanV,
    nodes: Seq<Node>,
    normal: bool,
    s: Seq<ExecutionV>,
    a: Seq<AnswerV>,
)
    requires
        scan_wf(m),
    ensures
        scan_wf(scanned_all(m, nodes, normal, s, a)),
    decreases s.len(),
{
    if s.len() > 0 {
        lemma_scanned_all_wf(m, nodes, normal, s.drop_last(), a);
        law_scan_publishes_once(
            scanned_all(m, nodes, normal, s.drop_last(), a),
            nodes,
            normal,
            s.last(),
            a[s.len() - 1],
        );
    }
}

/// No error is published twice, whatever the nodes of the procedure hold.
pub proof fn law_published_once(
    s: Seq<NodeStatesV>,
    exit: usize,
    nodes: Seq<Node>,
    normal: bool,
)
    ensures
        no_repeats(scanned_nodes(s, exit, nodes, normal).diagnostics),
        scan_wf(scanned_nodes(s, exit, nodes, normal)),
    decreases s.len(),
{
    if s.len() > 0 {
        law_published_once(s.drop_last(), exit, nodes, normal);
        let rest = scanned_nodes(s.drop_last(), exit, nodes, normal);
        lemma_scanned_all_wf(rest, nodes, normal, s.last().states, s.last().answers);
    } else {
        let m = ScanV { diagnostics: seq![], seen: seq![], recovered: seq![] };
        assert(m.seen =~= Seq::new(
            m.diagnostics.len(),
            |i: int| m.diagnostics[i].dedup_text(),
        ));
    }
}

} // verus!
