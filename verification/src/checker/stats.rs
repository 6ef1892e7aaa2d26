//! Statistics: what the progress and the fixpoint of an analysis look like.

use super::disjuncts::exec_views;
use super::scan::text_views;
use crate::execution_domain::{ExecutionDomain, ExecutionKind, ExecutionV};
use crate::ordered::{lemma_lookup_put, lemma_put_sorted, lookup, put, sorted, OrdMap};
use crate::text::{digit, nat_text, push_nat};
use vstd::prelude::*;
use vstd::relations::{sorted_by, total_ordering};

verus! {

/// How many nodes the summary of a fixpoint names at most.
pub const MAX_TOP_NODES: usize = 8;

/// How many states of each kind there are.
#[derive(Clone, Copy, Debug, PartialEq, Eq, Structural)]
pub struct DisjunctiveStateStats {
    pub disjuncts: usize,
    pub continue_count: usize,
    pub exit_count: usize,
    pub abort_count: usize,
    pub latent_abort_count: usize,
    pub latent_invalid_count: usize,
    pub exception_count: usize,
}

/// What [`DisjunctiveStateStats`] stands for.
pub struct CountsV {
    pub disjuncts: int,
    pub continues: int,
    pub exits: int,
    pub aborts: int,
    pub latent_aborts: int,
    pub latent_invalids: int,
    pub exceptions: int,
}

impl View for DisjunctiveStateStats {
    type V = CountsV;

    open spec fn view(&self) -> CountsV {
        CountsV {
            disjuncts: self.disjuncts as int,
            continues: self.continue_count as int,
            exits: self.exit_count as int,
            aborts: self.abort_count as int,
            latent_aborts: self.latent_abort_count as int,
            latent_invalids: self.latent_invalid_count as int,
            exceptions: self.exception_count as int,
        }
    }
}

/// How many of the states are of a kind.
pub open spec fn kind_count(s: Seq<ExecutionV>, k: ExecutionKind) -> nat
    decreases s.len(),
{
    if s.len() == 0 {
        0
    } else if s.last().kind == k {
        kind_count(s.drop_last(), k) + 1
    } else {
        kind_count(s.drop_last(), k)
    }
}

/// How many states of each kind there are.
pub open spec fn counts(s: Seq<ExecutionV>) -> CountsV {
    CountsV {
        disjuncts: s.len() as int,
        continues: kind_count(s, ExecutionKind::Continue) as int,
        exits: kind_count(s, ExecutionKind::Exit) as int,
        aborts: kind_count(s, ExecutionKind::Abort) as int,
        latent_aborts: kind_count(s, ExecutionKind::LatentAbort) as int,
        latent_invalids: kind_count(s, ExecutionKind::LatentInvalid) as int,
        exceptions: kind_count(s, ExecutionKind::Exception) as int,
    }
}

impl CountsV {
    /// No states.
    pub open spec fn zero() -> CountsV {
        CountsV {
            disjuncts: 0,
            continues: 0,
            exits: 0,
            aborts: 0,
            latent_aborts: 0,
            latent_invalids: 0,
            exceptions: 0,
        }
    }

    /// The states of both.
    pub open spec fn plus(self, other: CountsV) -> CountsV {
        CountsV {
            disjuncts: self.disjuncts + other.disjuncts,
            continues: self.continues + other.continues,
            exits: self.exits + other.exits,
            aborts: self.aborts + other.aborts,
            latent_aborts: self.latent_aborts + other.latent_aborts,
            latent_invalids: self.latent_invalids + other.latent_invalids,
            exceptions: self.exceptions + other.exceptions,
        }
    }

    /// Every state is of exactly one kind.
    pub open spec fn balanced(self) -> bool {
        &&& self.disjuncts == self.continues + self.exits + self.aborts + self.latent_aborts
            + self.latent_invalids + self.exceptions
        &&& self.continues >= 0
        &&& self.exits >= 0
        &&& self.aborts >= 0
        &&& self.latent_aborts >= 0
        &&& self.latent_invalids >= 0
        &&& self.exceptions >= 0
    }

    /// The counts as they are printed.
    pub open spec fn text(self) -> Seq<char> {
        "disj="@ + nat_text(self.disjuncts as nat) + " kinds[c="@ + nat_text(self.continues as nat)
            + " x="@ + nat_text(self.exits as nat) + " a="@ + nat_text(self.aborts as nat) + " la="@
            + nat_text(self.latent_aborts as nat) + " li="@ + nat_text(self.latent_invalids as nat)
            + " exn="@ + nat_text(self.exceptions as nat) + "]"@
    }
}

/// Every state is counted under exactly one kind.
pub proof fn law_counts_balanced(s: Seq<ExecutionV>)
    ensures
        counts(s).balanced(),
    decreases s.len(),
{
    if s.len() > 0 {
        law_counts_balanced(s.drop_last());
    }
}

impl DisjunctiveStateStats {
    /// No states.
    pub fn new() -> (r: DisjunctiveStateStats)
        ensures
            r@ == CountsV::zero(),
    {
        DisjunctiveStateStats {
            disjuncts: 0,
            continue_count: 0,
            exit_count: 0,
            abort_count: 0,
            latent_abort_count: 0,
            latent_invalid_count: 0,
            exception_count: 0,
        }
    }

    /// Counts the states of each kind.
    pub fn from_domain(disjuncts: &Vec<ExecutionDomain>) -> (r: DisjunctiveStateStats)
        ensures
            r@ == counts(exec_views(disjuncts@)),
    {
        let ghost s = exec_views(disjuncts@);
        let mut r = DisjunctiveStateStats::new();
        let n: usize = disjuncts.len();
        let mut i: usize = 0;
        while i < n
            invariant
                n == disjuncts@.len(),
                s == exec_views(disjuncts@),
                i <= n,
                r@ == counts(s.take(i as int)),
            decreases n - i,
        {
            let ghost t = s.take(i + 1);
            proof {
                assert(t.drop_last() =~= s.take(i as int));
                assert(t.last() == s[i as int]);
                law_counts_balanced(s.take(i as int));
            }
            r.disjuncts = r.disjuncts + 1;
            match disjuncts[i].kind() {
                ExecutionKind::Continue => {
                    r.continue_count = r.continue_count + 1;
                },
                ExecutionKind::Exit => {
                    r.exit_count = r.exit_count + 1;
                },
                ExecutionKind::Abort => {
                    r.abort_count = r.abort_count + 1;
                },
                ExecutionKind::LatentAbort => {
                    r.latent_abort_count = r.latent_abort_count + 1;
                },
                ExecutionKind::LatentInvalid => {
                    r.latent_invalid_count = r.latent_invalid_count + 1;
                },
                ExecutionKind::Exception => {
                    r.exception_count = r.exception_count + 1;
                },
            }
            i = i + 1;
        }
        assert(s.take(i as int) =~= s);
        r
    }

    /// Adds the states of `other`.
    pub fn add_assign(&mut self, other: DisjunctiveStateStats)
        requires
            old(self)@.balanced(),
            other@.balanced(),
            old(self)@.disjuncts + other@.disjuncts <= usize::MAX,
        ensures
            final(self)@ == old(self)@.plus(other@),
            final(self)@.balanced(),
    {
        self.disjuncts = self.disjuncts + other.disjuncts;
        self.continue_count = self.continue_count + other.continue_count;
        self.exit_count = self.exit_count + other.exit_count;
        self.abort_count = self.abort_count + other.abort_count;
        self.latent_abort_count = self.latent_abort_count + other.latent_abort_count;
        self.latent_invalid_count = self.latent_invalid_count + other.latent_invalid_count;
        self.exception_count = self.exception_count + other.exception_count;
    }

    /// The counts as they are printed.
    pub fn to_string(&self) -> (r: String)
        ensures
            r@ == self@.text(),
    {
        let mut out = "disj=".to_string();
        push_nat(&mut out, self.disjuncts as u64);
        out.append(" kinds[c=");
        push_nat(&mut out, self.continue_count as u64);
        out.append(" x=");
        push_nat(&mut out, self.exit_count as u64);
        out.append(" a=");
        push_nat(&mut out, self.abort_count as u64);
        out.append(" la=");
        push_nat(&mut out, self.latent_abort_count as u64);
        out.append(" li=");
        push_nat(&mut out, self.latent_invalid_count as u64);
        out.append(" exn=");
        push_nat(&mut out, self.exception_count as u64);
        out.append("]");
        out
    }
}

/// The state of a fixpoint at a node.
pub struct NodeState {
    pub node: usize,
    pub visit_count: usize,
    pub post: Vec<ExecutionDomain>,
}

/// What a [`NodeState`] stands for.
pub struct NodeV {
    pub node: usize,
    pub visit_count: usize,
    pub post: Seq<ExecutionV>,
}

impl View for NodeState {
    type V = NodeV;

    open spec fn view(&self) -> NodeV {
        NodeV { node: self.node, visit_count: self.visit_count, post: exec_views(self.post@) }
    }
}

/// What the nodes of a fixpoint stand for.
pub open spec fn node_views(s: Seq<NodeState>) -> Seq<NodeV> {
    s.map_values(|n: NodeState| n@)
}

/// A node with more than one state.
#[derive(Clone, Copy, Debug, PartialEq, Eq, Structural)]
pub struct FixpointTopNode {
    pub node: usize,
    pub disjuncts: usize,
    pub visit_count: usize,
}

/// Nodes with more states come first, then nodes visited more often, then nodes
/// with smaller numbers.
pub open spec fn ranks_before(a: FixpointTopNode, b: FixpointTopNode) -> bool {
    a.disjuncts > b.disjuncts || (a.disjuncts == b.disjuncts && (a.visit_count > b.visit_count || (
    a.visit_count == b.visit_count && a.node <= b.node)))
}

fn is_before(a: &FixpointTopNode, b: &FixpointTopNode) -> (r: bool)
    ensures
        r == ranks_before(*a, *b),
{
    a.disjuncts > b.disjuncts || (a.disjuncts == b.disjuncts && (a.visit_count > b.visit_count || (
    a.visit_count == b.visit_count && a.node <= b.node)))
}

/// The order of [`ranks_before`].
pub open spec fn rank_order() -> spec_fn(FixpointTopNode, FixpointTopNode) -> bool {
    |a: FixpointTopNode, b: FixpointTopNode| ranks_before(a, b)
}

/// Nodes are totally ordered by [`ranks_before`].
pub proof fn law_rank_order()
    ensures
        total_ordering(rank_order()),
{
}

/// The nodes with more than one state, in the order of the fixpoint.
pub open spec fn crowded_nodes(s: Seq<NodeV>) -> Seq<FixpointTopNode>
    decreases s.len(),
{
    if s.len() == 0 {
        seq![]
    } else if s.last().post.len() > 1 {
        crowded_nodes(s.drop_last()).push(
            FixpointTopNode {
                node: s.last().node,
                disjuncts: s.last().post.len() as usize,
                visit_count: s.last().visit_count,
            },
        )
    } else {
        crowded_nodes(s.drop_last())
    }
}

/// The states of all nodes.
pub open spec fn total_counts(s: Seq<NodeV>) -> CountsV
    decreases s.len(),
{
    if s.len() == 0 {
        CountsV::zero()
    } else {
        total_counts(s.drop_last()).plus(counts(s.last().post))
    }
}

/// How many nodes were visited more than once.
pub open spec fn revisited(s: Seq<NodeV>) -> nat
    decreases s.len(),
{
    if s.len() == 0 {
        0
    } else if s.last().visit_count > 1 {
        revisited(s.drop_last()) + 1
    } else {
        revisited(s.drop_last())
    }
}

/// How often the most visited node was visited.
pub open spec fn most_visits(s: Seq<NodeV>) -> usize
    decreases s.len(),
{
    if s.len() == 0 {
        0
    } else if s.last().visit_count > most_visits(s.drop_last()) {
        s.last().visit_count
    } else {
        most_visits(s.drop_last())
    }
}

/// How many states the node with the most states has.
pub open spec fn most_disjuncts(s: Seq<NodeV>) -> nat
    decreases s.len(),
{
    if s.len() == 0 {
        0
    } else if s.last().post.len() > most_disjuncts(s.drop_last()) {
        s.last().post.len()
    } else {
        most_disjuncts(s.drop_last())
    }
}

/// The first nodes of the crowded ones, in the order of [`ranks_before`].
pub open spec fn top_of(s: Seq<NodeV>) -> Seq<FixpointTopNode> {
    let ranked = crowded_nodes(s).sort_by(rank_order());
    if ranked.len() > MAX_TOP_NODES {
        ranked.take(MAX_TOP_NODES as int)
    } else {
        ranked
    }
}

proof fn lemma_total_counts(s: Seq<NodeV>, i: int)
    requires
        0 <= i <= s.len(),
    ensures
        total_counts(s).balanced(),
        total_counts(s.take(i)).disjuncts <= total_counts(s).disjuncts,
    decreases s.len(),
{
    if s.len() == 0 {
        assert(s.take(i) =~= s);
    } else {
        law_counts_balanced(s.last().post);
        if i == s.len() {
            lemma_total_counts(s.drop_last(), i - 1);
            assert(s.take(i) =~= s);
        } else {
            lemma_total_counts(s.drop_last(), i);
            assert(s.drop_last().take(i) =~= s.take(i));
        }
    }
}

proof fn lemma_revisited(s: Seq<NodeV>)
    ensures
        revisited(s) <= s.len(),
    decreases s.len(),
{
    if s.len() > 0 {
        lemma_revisited(s.drop_last());
    }
}

/// Inserts a node where it belongs.
fn insert_ranked(nodes: &mut Vec<FixpointTopNode>, node: FixpointTopNode)
    requires
        sorted_by(old(nodes)@, rank_order()),
    ensures
        sorted_by(final(nodes)@, rank_order()),
        final(nodes)@.to_multiset() == old(nodes)@.to_multiset().insert(node),
{
    let ghost order = rank_order();
    let ghost s = nodes@;
    let mut i: usize = 0;
    while i < nodes.len() && is_before(&nodes[i], &node)
        invariant
            s == nodes@,
            i <= nodes@.len(),
            forall|j: int| 0 <= j < i ==> ranks_before(#[trigger] nodes@[j], node),
        decreases nodes@.len() - i,
    {
        i = i + 1;
    }
    nodes.insert(i, node);
    proof {
        broadcast use vstd::seq_lib::group_to_multiset_ensures;

        assert(order == rank_order());
        let t = nodes@;
        assert(t =~= s.insert(i as int, node));
        assert forall|a: int, b: int| 0 <= a < b < t.len() implies #[trigger] order(t[a], t[b]) by {
            let x = if a < i {
                a
            } else {
                a - 1
            };
            let y = if b < i {
                b
            } else {
                b - 1
            };
            if a != i && b != i {
                assert(order(s[x], s[y]));
            } else if a == i {
                assert(t[b] == s[y]);
                if y > i {
                    assert(order(s[i as int], s[y]));
                }
            }
        }
        vstd::seq_lib::to_multiset_insert(s, i as int, node);
    }
}

/// The shape of a fixpoint.
#[derive(Debug)]
pub struct FixpointStats {
    pub nodes: usize,
    pub revisited_nodes: usize,
    pub max_visit_count: usize,
    pub max_node_disjuncts: usize,
    pub states: DisjunctiveStateStats,
    pub top_nodes: Vec<FixpointTopNode>,
}

impl FixpointStats {
    /// The shape of a fixpoint.
    pub fn from_inv_map(nodes: &Vec<NodeState>) -> (r: FixpointStats)
        requires
            total_counts(node_views(nodes@)).disjuncts <= usize::MAX,
        ensures
            r.nodes == nodes@.len(),
            r.revisited_nodes == revisited(node_views(nodes@)),
            r.max_visit_count == most_visits(node_views(nodes@)),
            r.max_node_disjuncts == most_disjuncts(node_views(nodes@)),
            r.states@ == total_counts(node_views(nodes@)),
            r.top_nodes@ == top_of(node_views(nodes@)),
    {
        let ghost s = node_views(nodes@);
        let n: usize = nodes.len();
        let mut revisited_nodes: usize = 0;
        let mut max_visit_count: usize = 0;
        let mut max_node_disjuncts: usize = 0;
        let mut states = DisjunctiveStateStats::new();
        let mut top_nodes: Vec<FixpointTopNode> = Vec::new();
        let mut i: usize = 0;
        proof {
            broadcast use vstd::seq_lib::group_to_multiset_ensures;

            assert(s.take(0) =~= seq![]);
            assert(top_nodes@ =~= crowded_nodes(s.take(0)));
        }
        while i < n
            invariant
                n == nodes@.len(),
                s == node_views(nodes@),
                total_counts(s).disjuncts <= usize::MAX,
                i <= n,
                revisited_nodes == revisited(s.take(i as int)),
                max_visit_count == most_visits(s.take(i as int)),
                max_node_disjuncts == most_disjuncts(s.take(i as int)),
                states@ == total_counts(s.take(i as int)),
                sorted_by(top_nodes@, rank_order()),
                top_nodes@.to_multiset() == crowded_nodes(s.take(i as int)).to_multiset(),
            decreases n - i,
        {
            let ghost t = s.take(i + 1);
            proof {
                broadcast use vstd::seq_lib::group_to_multiset_ensures;

                assert(t.drop_last() =~= s.take(i as int));
                assert(t.last() == s[i as int]);
                lemma_revisited(s.take(i as int));
                lemma_total_counts(s, i as int);
                lemma_total_counts(s, i + 1);
                lemma_total_counts(s.take(i as int), i as int);
                law_counts_balanced(s[i as int].post);
            }
            let state = &nodes[i];
            assert(state@ == s[i as int]);
            assert(exec_views(state.post@).len() == state.post@.len());
            if state.visit_count > 1 {
                revisited_nodes = revisited_nodes + 1;
            }
            if state.visit_count > max_visit_count {
                max_visit_count = state.visit_count;
            }
            let disjuncts: usize = state.post.len();
            if disjuncts > max_node_disjuncts {
                max_node_disjuncts = disjuncts;
            }
            states.add_assign(DisjunctiveStateStats::from_domain(&state.post));
            if disjuncts > 1 {
                let node = FixpointTopNode {
                    node: state.node,
                    disjuncts,
                    visit_count: state.visit_count,
                };
                proof {
                    broadcast use vstd::seq_lib::group_to_multiset_ensures;

                    assert(crowded_nodes(t) == crowded_nodes(s.take(i as int)).push(node));
                }
                insert_ranked(&mut top_nodes, node);
            }
            i = i + 1;
        }
        proof {
            assert(s.take(i as int) =~= s);
            law_rank_order();
            crowded_nodes(s).lemma_sort_by_ensures(rank_order());
            vstd::seq_lib::lemma_sorted_unique(
                top_nodes@,
                crowded_nodes(s).sort_by(rank_order()),
                rank_order(),
            );
        }
        if top_nodes.len() > MAX_TOP_NODES {
            top_nodes.truncate(MAX_TOP_NODES);
            assert(top_nodes@ =~= top_of(s));
        }
        FixpointStats {
            nodes: n,
            revisited_nodes,
            max_visit_count,
            max_node_disjuncts,
            states,
            top_nodes,
        }
    }

    /// The crowded nodes as they are printed.
    pub fn top_nodes_summary(&self) -> (r: String)
        ensures
            r@ == top_nodes_text(self.top_nodes@),
    {
        if self.top_nodes.len() == 0 {
            return "none".to_string();
        }
        let ghost s = self.top_nodes@;
        let mut out = String::new();
        let mut i: usize = 0;
        assert(s.take(0) =~= seq![]);
        assert(out@ =~= joined_nodes(s.take(0)));
        while i < self.top_nodes.len()
            invariant
                s == self.top_nodes@,
                i <= s.len(),
                out@ == joined_nodes(s.take(i as int)),
            decreases s.len() - i,
        {
            let ghost t = s.take(i + 1);
            proof {
                assert(t.drop_last() =~= s.take(i as int));
                assert(t.last() == s[i as int]);
            }
            if i > 0 {
                out.append(", ");
            }
            let ghost start = out@;
            let node = &self.top_nodes[i];
            push_nat(&mut out, node.node as u64);
            out.append(":");
            push_nat(&mut out, node.disjuncts as u64);
            out.append("d:");
            push_nat(&mut out, node.visit_count as u64);
            out.append("v");
            assert(out@ =~= start + node_text(s[i as int]));
            assert(out@ =~= joined_nodes(t));
            i = i + 1;
        }
        assert(s.take(i as int) =~= s);
        out
    }
}

/// A crowded node as it is printed: its number, states and visits.
pub open spec fn node_text(n: FixpointTopNode) -> Seq<char> {
    nat_text(n.node as nat) + ":"@ + nat_text(n.disjuncts as nat) + "d:"@ + nat_text(
        n.visit_count as nat,
    ) + "v"@
}

/// The texts of the nodes, separated by commas.
pub open spec fn joined_nodes(s: Seq<FixpointTopNode>) -> Seq<char>
    decreases s.len(),
{
    if s.len() == 0 {
        seq![]
    } else if s.len() == 1 {
        node_text(s[0])
    } else {
        joined_nodes(s.drop_last()) + ", "@ + node_text(s.last())
    }
}

/// The crowded nodes as they are printed.
pub open spec fn top_nodes_text(s: Seq<FixpointTopNode>) -> Seq<char> {
    if s.len() == 0 {
        "none"@
    } else {
        joined_nodes(s)
    }
}

/// How the kind of a state is printed.
pub open spec fn kind_text(k: ExecutionKind) -> Seq<char> {
    match k {
        ExecutionKind::Continue => "continue"@,
        ExecutionKind::Abort => "abort"@,
        ExecutionKind::LatentAbort => "latent-abort"@,
        ExecutionKind::LatentInvalid => "latent-invalid"@,
        ExecutionKind::Exit => "exit"@,
        ExecutionKind::Exception => "exception"@,
    }
}

/// How the kind of a state is printed.
pub fn exec_domain_kind(exec: &ExecutionDomain) -> (r: &'static str)
    ensures
        r@ == kind_text(exec@.kind),
{
    match exec.kind() {
        ExecutionKind::Continue => "continue",
        ExecutionKind::Abort => "abort",
        ExecutionKind::LatentAbort => "latent-abort",
        ExecutionKind::LatentInvalid => "latent-invalid",
        ExecutionKind::Exit => "exit",
        ExecutionKind::Exception => "exception",
    }
}

/// Texts joined by bars.
pub open spec fn barred(s: Seq<Seq<char>>) -> Seq<char>
    decreases s.len(),
{
    if s.len() == 0 {
        seq![]
    } else if s.len() == 1 {
        s[0]
    } else {
        barred(s.drop_last()) + " | "@ + s.last()
    }
}

/// How many instructions of a node are printed.
pub const SHOWN_INSTRS: usize = 3;

/// The instructions of a node as they are printed: the first of them, and how
/// many more there are.
pub open spec fn instrs_text(texts: Seq<Seq<char>>) -> Seq<char> {
    if texts.len() == 0 {
        "<empty>"@
    } else if texts.len() <= SHOWN_INSTRS {
        barred(texts)
    } else {
        barred(texts.take(SHOWN_INSTRS as int)) + " | "@ + "...(+"@ + nat_text(
            (texts.len() - SHOWN_INSTRS) as nat,
        ) + " more)"@
    }
}

/// The instructions of a node as they are printed, given the text of each.
pub fn node_instrs_summary(texts: &Vec<String>) -> (r: String)
    ensures
        r@ == instrs_text(text_views(texts@)),
{
    if texts.len() == 0 {
        return "<empty>".to_string();
    }
    let ghost s = text_views(texts@);
    let shown: usize = if texts.len() > SHOWN_INSTRS {
        SHOWN_INSTRS
    } else {
        texts.len()
    };
    let mut out = String::new();
    let mut i: usize = 0;
    assert(s.take(0) =~= seq![]);
    assert(out@ =~= barred(s.take(0)));
    while i < shown
        invariant
            s == text_views(texts@),
            shown <= texts@.len(),
            i <= shown,
            out@ == barred(s.take(i as int)),
        decreases shown - i,
    {
        let ghost t = s.take(i + 1);
        proof {
            assert(t.drop_last() =~= s.take(i as int));
            assert(t.last() == s[i as int]);
        }
        if i > 0 {
            out.append(" | ");
        }
        out.append(texts[i].as_str());
        assert(out@ =~= barred(t));
        i = i + 1;
    }
    if texts.len() > SHOWN_INSTRS {
        out.append(" | ");
        out.append("...(+");
        push_nat(&mut out, (texts.len() - SHOWN_INSTRS) as u64);
        out.append(" more)");
    } else {
        assert(s.take(i as int) =~= s);
    }
    out
}

/// How far the analysis of a procedure has come.
pub struct ProcProgress {
    pub exec_steps: usize,
    pub max_disjuncts: usize,
    pub node_visits: OrdMap<usize, usize>,
    pub hottest_node: Option<(usize, usize)>,
}

/// What [`ProcProgress`] stands for.
pub struct ProgressV {
    pub steps: usize,
    pub max_disjuncts: usize,
    pub visits: Seq<(usize, usize)>,
    pub hottest: Option<(usize, usize)>,
}

impl View for ProcProgress {
    type V = ProgressV;

    open spec fn view(&self) -> ProgressV {
        ProgressV {
            steps: self.exec_steps,
            max_disjuncts: self.max_disjuncts,
            visits: self.node_visits@,
            hottest: self.hottest_node,
        }
    }
}

/// How often a node was visited.
pub open spec fn visits_of(p: ProgressV, node: usize) -> usize {
    match lookup(p.visits, node) {
        Some(n) => n,
        None => 0,
    }
}

impl ProgressV {
    /// The hottest node is one that was visited most often.
    pub open spec fn wf(self) -> bool {
        &&& sorted::<usize, usize>(self.visits)
        &&& match self.hottest {
            None => forall|n: usize| #[trigger] visits_of(self, n) == 0,
            Some((hot, most)) => {
                &&& visits_of(self, hot) == most
                &&& forall|n: usize| #[trigger] visits_of(self, n) <= most
            },
        }
    }
}

/// `p` after one more step at a node with the given number of states.
pub open spec fn stepped(p: ProgressV, node: usize, disjuncts: usize) -> ProgressV {
    let visits = (visits_of(p, node) + 1) as usize;
    ProgressV {
        steps: (p.steps + 1) as usize,
        max_disjuncts: if disjuncts > p.max_disjuncts {
            disjuncts
        } else {
            p.max_disjuncts
        },
        visits: put::<usize, usize>(p.visits, node, visits),
        hottest: match p.hottest {
            Some((_, most)) if visits <= most => p.hottest,
            _ => Some((node, visits)),
        },
    }
}

impl ProcProgress {
    /// Nothing done yet.
    pub fn new() -> (r: ProcProgress)
        ensures
            r@ == (ProgressV { steps: 0, max_disjuncts: 0, visits: seq![], hottest: None }),
            r@.wf(),
    {
        let r = ProcProgress {
            exec_steps: 0,
            max_disjuncts: 0,
            node_visits: OrdMap::new(),
            hottest_node: None,
        };
        r
    }

    /// Records a step at a node, and gives how often the node was visited.
    pub fn note_step(&mut self, node: usize, disjuncts: usize) -> (r: usize)
        requires
            old(self)@.wf(),
            old(self)@.steps < usize::MAX,
            visits_of(old(self)@, node) < usize::MAX,
        ensures
            final(self)@ == stepped(old(self)@, node, disjuncts),
            final(self)@.wf(),
            r == visits_of(old(self)@, node) + 1,
    {
        let ghost p = self@;
        self.exec_steps = self.exec_steps + 1;
        if disjuncts > self.max_disjuncts {
            self.max_disjuncts = disjuncts;
        }
        let visits: usize = match self.node_visits.get(&node) {
            Some(n) => *n + 1,
            None => 1,
        };
        self.node_visits.insert(node, visits);
        let hotter = match self.hottest_node {
            Some((_, most)) => visits > most,
            None => true,
        };
        if hotter {
            self.hottest_node = Some((node, visits));
        }
        proof {
            lemma_put_sorted::<usize, usize>(p.visits, node, visits);
            assert forall|n: usize|
                #![trigger visits_of(self@, n)]
                visits_of(self@, n) == (if n == node {
                    visits
                } else {
                    visits_of(p, n)
                }) by {
                lemma_lookup_put::<usize, usize>(p.visits, node, visits, n);
            }
            if let Some((hot, most)) = p.hottest {
                assert(visits_of(p, hot) == most);
            }
            assert forall|n: usize| #[trigger] visits_of(self@, n) <= (self@.hottest->0).1 by {
                assert(visits_of(p, n) >= 0);
            }
        }
        visits
    }
}

/// A number below a hundred with two digits.
pub open spec fn two_digits(n: nat) -> Seq<char> {
    seq![digit(n / 10), digit(n % 10)]
}

/// A duration of at least a minute as it is printed.
pub open spec fn long_duration_text(secs: nat) -> Seq<char> {
    if secs < 3600 {
        nat_text(secs / 60) + "m"@ + two_digits(secs % 60) + "s"@
    } else {
        nat_text(secs / 3600) + "h"@ + two_digits((secs % 3600) / 60) + "m"@ + two_digits(secs % 60)
            + "s"@
    }
}

fn push_two_digits(out: &mut String, n: u64)
    requires
        n < 100,
    ensures
        final(out)@ == old(out)@ + two_digits(n as nat),
{
    let ghost before = out@;
    push_nat(out, n / 10);
    push_nat(out, n % 10);
    assert(out@ =~= before + two_digits(n as nat));
}

/// A duration in seconds as it is printed, unless it is below a minute: such a
/// duration is printed with a fraction.
pub fn format_long_duration(secs: u64) -> (r: Option<String>)
    ensures
        r is Some == (secs >= 60),
        r matches Some(t) ==> t@ == long_duration_text(secs as nat),
{
    if secs < 60 {
        return None;
    }
    let mut out = String::new();
    if secs < 3600 {
        push_nat(&mut out, secs / 60);
        out.append("m");
        push_two_digits(&mut out, secs % 60);
        out.append("s");
    } else {
        push_nat(&mut out, secs / 3600);
        out.append("h");
        push_two_digits(&mut out, (secs % 3600) / 60);
        out.append("m");
        push_two_digits(&mut out, secs % 60);
        out.append("s");
    }
    assert(out@ =~= long_duration_text(secs as nat));
    Some(out)
}

} // verus!
