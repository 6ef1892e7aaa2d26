//! Sets of execution states at the nodes of a control-flow graph.

use crate::base_stack::{BaseStack, StackEntry, StackV};
use crate::execution_domain::{fast_equal, ExecutionDomain, ExecutionKind, ExecutionV};
use crate::key::{same_key, KeyV, Keyed};
use crate::sil::{Ident, Instr, Node, Procdesc, Var};
use vstd::prelude::*;

verus! {

/// What execution states stand for.
pub open spec fn exec_views(s: Seq<ExecutionDomain>) -> Seq<ExecutionV> {
    s.map_values(|e: ExecutionDomain| e@)
}

/// A path goes on.
pub open spec fn some_continue(s: Seq<ExecutionV>) -> bool {
    exists|i: int| 0 <= i < s.len() && (#[trigger] s[i]).kind == ExecutionKind::Continue
}

/// A path reaches this point normally: it goes on, or leaves the procedure.
pub open spec fn some_normal(s: Seq<ExecutionV>) -> bool {
    exists|i: int|
        0 <= i < s.len() && ((#[trigger] s[i]).kind == ExecutionKind::Continue || s[i].kind
            == ExecutionKind::Exit)
}

/// `e` is equal, value for value, to an element of `s`.
pub open spec fn seen_in(e: ExecutionV, s: Seq<ExecutionV>) -> bool {
    exists|j: int| 0 <= j < s.len() && fast_equal(e, #[trigger] s[j])
}

/// The elements of `pre` that are not in `old_pre`.
pub open spec fn unseen(pre: Seq<ExecutionV>, old_pre: Seq<ExecutionV>) -> Seq<ExecutionV> {
    pre.filter(|e: ExecutionV| !seen_in(e, old_pre))
}

/// Whether a path goes on.
pub fn has_continue_program(results: &Vec<ExecutionDomain>) -> (b: bool)
    ensures
        b == some_continue(exec_views(results@)),
{
    let ghost s = exec_views(results@);
    let mut i: usize = 0;
    while i < results.len()
        invariant
            s == exec_views(results@),
            i <= results@.len(),
            forall|j: int| 0 <= j < i ==> (#[trigger] s[j]).kind != ExecutionKind::Continue,
        decreases results@.len() - i,
    {
        if results[i].is_continue() {
            assert(s[i as int].kind == ExecutionKind::Continue);
            return true;
        }
        i = i + 1;
    }
    false
}

/// Whether a path reaches this point normally.
pub fn has_normal_path(results: &Vec<ExecutionDomain>) -> (b: bool)
    ensures
        b == some_normal(exec_views(results@)),
{
    let ghost s = exec_views(results@);
    let mut i: usize = 0;
    while i < results.len()
        invariant
            s == exec_views(results@),
            i <= results@.len(),
            forall|j: int|
                0 <= j < i ==> (#[trigger] s[j]).kind != ExecutionKind::Continue && s[j].kind
                    != ExecutionKind::Exit,
        decreases results@.len() - i,
    {
        let kind = results[i].kind();
        if kind == ExecutionKind::Continue || kind == ExecutionKind::Exit {
            assert(s[i as int].kind == kind);
            return true;
        }
        i = i + 1;
    }
    false
}

fn is_seen_in(e: &ExecutionDomain, old_pre: &Vec<ExecutionDomain>) -> (b: bool)
    ensures
        b == seen_in(e@, exec_views(old_pre@)),
{
    let ghost s = exec_views(old_pre@);
    let mut j: usize = 0;
    while j < old_pre.len()
        invariant
            s == exec_views(old_pre@),
            j <= old_pre@.len(),
            forall|k: int| 0 <= k < j ==> !fast_equal(e@, #[trigger] s[k]),
        decreases old_pre@.len() - j,
    {
        if e.equal_fast(&old_pre[j]) {
            assert(fast_equal(e@, s[j as int]));
            return true;
        }
        j = j + 1;
    }
    false
}

fn keep_unseen(pre: &Vec<ExecutionDomain>, old_pre: &Vec<ExecutionDomain>) -> (r: Vec<
    ExecutionDomain,
>)
    ensures
        exec_views(r@) == unseen(exec_views(pre@), exec_views(old_pre@)),
{
    let ghost s = exec_views(pre@);
    let ghost p = |e: ExecutionV| !seen_in(e, exec_views(old_pre@));
    let mut r: Vec<ExecutionDomain> = Vec::new();
    let mut i: usize = 0;
    assert(s.take(0).filter(p) =~= Seq::<ExecutionV>::empty()) by {
        reveal(Seq::filter);
    }
    assert(exec_views(r@) =~= Seq::<ExecutionV>::empty());
    while i < pre.len()
        invariant
            s == exec_views(pre@),
            p == (|e: ExecutionV| !seen_in(e, exec_views(old_pre@))),
            i <= pre@.len(),
            exec_views(r@) == s.take(i as int).filter(p),
        decreases pre@.len() - i,
    {
        proof {
            crate::ordered::lemma_filter_step(s, p, i as int);
        }
        let ghost before = r@;
        if !is_seen_in(&pre[i], old_pre) {
            let e = pre[i].clone();
            r.push(e);
            assert(exec_views(r@) =~= exec_views(before).push(s[i as int]));
        }
        i = i + 1;
    }
    assert(s.take(i as int) =~= s);
    r
}

/// What a procedure may spend. A limit of zero is no limit.
#[derive(Clone, Copy, Debug, PartialEq, Eq, Structural)]
pub struct Budget {
    pub max_heap_mb: Option<u64>,
    pub max_wall_secs: Option<u64>,
}

/// What a procedure has spent.
#[derive(Clone, Copy, Debug, PartialEq, Eq, Structural)]
pub struct Usage {
    /// The peak size of memory when the analysis of the procedure started.
    pub start_peak_rss_bytes: u64,
    /// The peak size of memory now, if it is known.
    pub peak_rss_bytes: Option<u64>,
    pub elapsed_secs: u64,
}

/// The memory has grown by more than its limit.
pub open spec fn over_heap(b: Budget, u: Usage) -> bool {
    match (b.max_heap_mb, u.peak_rss_bytes) {
        (Some(max), Some(current)) => max > 0 && current - u.start_peak_rss_bytes > max * 1048576,
        _ => false,
    }
}

/// More time has passed than its limit.
pub open spec fn over_time(b: Budget, u: Usage) -> bool {
    b.max_wall_secs matches Some(max) && max > 0 && u.elapsed_secs > max
}

impl Budget {
    /// Whether the memory has grown by more than its limit.
    pub fn heap_exceeded(&self, usage: Usage) -> (b: bool)
        ensures
            b == over_heap(*self, usage),
    {
        match (self.max_heap_mb, usage.peak_rss_bytes) {
            (Some(max_mb), Some(current)) => {
                let max_bytes: u128 = max_mb as u128 * 1048576;
                current > usage.start_peak_rss_bytes && max_mb > 0 && (current
                    - usage.start_peak_rss_bytes) as u128 > max_bytes
            },
            _ => false,
        }
    }

    /// Whether more time has passed than its limit.
    pub fn time_exceeded(&self, usage: Usage) -> (b: bool)
        ensures
            b == over_time(*self, usage),
    {
        match self.max_wall_secs {
            Some(max_secs) => max_secs > 0 && usage.elapsed_secs > max_secs,
            None => false,
        }
    }
}

/// What to do at a node.
#[derive(Debug, PartialEq, Eq)]
pub enum NodePlan {
    /// The budget is spent: run nothing and pass on what came in, here and at every
    /// later node.
    Stop,
    /// The node is not in the graph: pass on what came in.
    Unknown,
    /// Nothing new came in: keep what is there.
    Keep,
    /// No path goes on: join these states to what is there.
    Join(Vec<ExecutionDomain>),
    /// Run the instructions of the node on these states, then join.
    Run(Vec<ExecutionDomain>),
}

/// What a plan stands for.
pub enum PlanV {
    Stop,
    Unknown,
    Keep,
    Join(Seq<ExecutionV>),
    Run(Seq<ExecutionV>),
}

impl View for NodePlan {
    type V = PlanV;

    open spec fn view(&self) -> PlanV {
        match self {
            NodePlan::Stop => PlanV::Stop,
            NodePlan::Unknown => PlanV::Unknown,
            NodePlan::Keep => PlanV::Keep,
            NodePlan::Join(s) => PlanV::Join(exec_views(s@)),
            NodePlan::Run(s) => PlanV::Run(exec_views(s@)),
        }
    }
}

/// What to do at a node, given whether an earlier node has stopped, what has been
/// spent, whether the node is in the graph, the states that come in and those
/// that came in on the last visit. Only states that are new are run.
pub open spec fn node_plan(
    stopped: bool,
    budget: Budget,
    usage: Usage,
    known: bool,
    pre: Seq<ExecutionV>,
    old_pre: Option<Seq<ExecutionV>>,
) -> PlanV {
    if stopped || over_heap(budget, usage) || over_time(budget, usage) {
        PlanV::Stop
    } else if !known {
        PlanV::Unknown
    } else {
        let input = match old_pre {
            Some(old) => unseen(pre, old),
            None => pre,
        };
        if old_pre is Some && input.len() == 0 {
            PlanV::Keep
        } else if !some_continue(input) {
            PlanV::Join(input)
        } else {
            PlanV::Run(input)
        }
    }
}

fn clone_all(s: &Vec<ExecutionDomain>) -> (r: Vec<ExecutionDomain>)
    ensures
        exec_views(r@) == exec_views(s@),
{
    let mut r: Vec<ExecutionDomain> = Vec::new();
    let mut i: usize = 0;
    assert(exec_views(r@) =~= exec_views(s@).take(0));
    while i < s.len()
        invariant
            i <= s@.len(),
            exec_views(r@) == exec_views(s@).take(i as int),
        decreases s@.len() - i,
    {
        let e = s[i].clone();
        let ghost before = r@;
        r.push(e);
        assert(exec_views(r@) =~= exec_views(before).push(e@));
        assert(exec_views(s@).take(i + 1) =~= exec_views(s@).take(i as int).push(
            exec_views(s@)[i as int],
        ));
        i = i + 1;
    }
    assert(exec_views(s@).take(i as int) =~= exec_views(s@));
    r
}

/// Decides what to do at a node.
pub fn plan_node(
    stopped: bool,
    budget: Budget,
    usage: Usage,
    known: bool,
    pre: &Vec<ExecutionDomain>,
    old_pre: Option<&Vec<ExecutionDomain>>,
) -> (r: NodePlan)
    ensures
        r@ == node_plan(
            stopped,
            budget,
            usage,
            known,
            exec_views(pre@),
            match old_pre {
                Some(old_states) => Some(exec_views(old_states@)),
                None => None,
            },
        ),
{
    if stopped || budget.heap_exceeded(usage) || budget.time_exceeded(usage) {
        return NodePlan::Stop;
    }
    if !known {
        return NodePlan::Unknown;
    }
    let input = match old_pre {
        Some(old_states) => {
            let input = keep_unseen(pre, old_states);
            if input.len() == 0 {
                return NodePlan::Keep;
            }
            input
        },
        None => clone_all(pre),
    };
    if has_continue_program(&input) {
        NodePlan::Run(input)
    } else {
        NodePlan::Join(input)
    }
}

/// The states at one side of a node.
#[derive(Debug)]
pub struct Disjuncts {
    pub disjuncts: Vec<ExecutionDomain>,
    /// States had to be dropped on the way here.
    pub had_dropped_disjuncts: bool,
}

/// What [`Disjuncts`] stand for.
#[verifier::ext_equal]
pub struct DisjunctsV {
    pub states: Seq<ExecutionV>,
    pub dropped: bool,
}

impl View for Disjuncts {
    type V = DisjunctsV;

    open spec fn view(&self) -> DisjunctsV {
        DisjunctsV { states: exec_views(self.disjuncts@), dropped: self.had_dropped_disjuncts }
    }
}

impl Clone for Disjuncts {
    fn clone(&self) -> (r: Self)
        ensures
            r@ == self@,
    {
        Disjuncts {
            disjuncts: clone_all(&self.disjuncts),
            had_dropped_disjuncts: self.had_dropped_disjuncts,
        }
    }
}

impl Default for Disjuncts {
    fn default() -> (r: Self)
        ensures
            r@ == (DisjunctsV { states: seq![], dropped: false }),
    {
        let disjuncts: Vec<ExecutionDomain> = Vec::new();
        assert(exec_views(disjuncts@) =~= seq![]);
        Disjuncts { disjuncts, had_dropped_disjuncts: false }
    }
}

/// What a node keeps of its last visit: the states behind it, none on the first visit.
/// That states were dropped before the node is remembered behind it.
pub open spec fn retained(pre: DisjunctsV, old_post: Option<DisjunctsV>) -> DisjunctsV {
    match old_post {
        Some(post) => DisjunctsV { dropped: post.dropped || pre.dropped, ..post },
        None => DisjunctsV { states: seq![], dropped: pre.dropped },
    }
}

/// What a node hands on under a plan that runs and joins nothing.
pub open spec fn handed(plan: PlanV, pre: DisjunctsV, current: DisjunctsV) -> Option<DisjunctsV> {
    match plan {
        PlanV::Stop | PlanV::Unknown => Some(pre),
        PlanV::Keep => Some(current),
        PlanV::Join(_) | PlanV::Run(_) => None,
    }
}

/// The states behind a node before anything new is joined to them.
pub fn retained_post(pre: &Disjuncts, old_post: Option<&Disjuncts>) -> (r: Disjuncts)
    ensures
        r@ == retained(
            pre@,
            match old_post {
                Some(post) => Some(post@),
                None => None,
            },
        ),
{
    let mut r = match old_post {
        Some(post) => post.clone(),
        None => Disjuncts::default(),
    };
    r.had_dropped_disjuncts = r.had_dropped_disjuncts || pre.had_dropped_disjuncts;
    r
}

/// What a node hands on once the budget is spent: what came in, unchanged, so that the
/// fixpoint ends quickly with whatever was reached.
pub fn stopped_post(pre: &Disjuncts) -> (r: Disjuncts)
    ensures
        r@ == pre@,
{
    pre.clone()
}

/// What a node hands on without running its instructions; none where states are still to
/// be joined or run.
pub fn handed_on(plan: &NodePlan, pre: &Disjuncts, current: &Disjuncts) -> (r: Option<Disjuncts>)
    ensures
        handed(plan@, pre@, current@) == (match r {
            Some(post) => Some(post@),
            None => None,
        }),
{
    match plan {
        NodePlan::Stop => Some(stopped_post(pre)),
        NodePlan::Unknown => Some(pre.clone()),
        NodePlan::Keep => Some(current.clone()),
        NodePlan::Join(_) => None,
        NodePlan::Run(_) => None,
    }
}

/// Once a node has stopped, no later node runs anything, whatever is spent and whatever
/// comes in: each hands on its input unchanged.
pub proof fn law_stopping_is_final(
    budget: Budget,
    usage: Usage,
    known: bool,
    pre: DisjunctsV,
    old_pre: Option<Seq<ExecutionV>>,
    current: DisjunctsV,
)
    ensures
        node_plan(true, budget, usage, known, pre.states, old_pre) == PlanV::Stop,
        handed(
            node_plan(true, budget, usage, known, pre.states, old_pre),
            pre,
            current,
        ) == Some(pre),
{
}

/// How many paths of `s` go on.
pub open spec fn continue_count(s: Seq<ExecutionV>) -> nat
    decreases s.len(),
{
    if s.len() == 0 {
        0
    } else {
        continue_count(s.drop_last()) + (if s.last().kind == ExecutionKind::Continue {
            1nat
        } else {
            0nat
        })
    }
}

/// The states behind an instruction: those of `s`, with each path that goes on
/// replaced by what running the instruction on it gave.
pub open spec fn spliced(s: Seq<ExecutionV>, results: Seq<Seq<ExecutionV>>) -> Seq<ExecutionV>
    decreases s.len(),
{
    if s.len() == 0 {
        seq![]
    } else {
        let rest = s.drop_last();
        spliced(rest, results) + (if s.last().kind == ExecutionKind::Continue {
            results[continue_count(rest) as int]
        } else {
            seq![s.last()]
        })
    }
}

/// What lists of execution states stand for.
pub open spec fn exec_view_lists(s: Seq<Vec<ExecutionDomain>>) -> Seq<Seq<ExecutionV>> {
    s.map_values(|v: Vec<ExecutionDomain>| exec_views(v@))
}

/// The states behind an instruction. `results` holds, for each path that goes on,
/// what running the instruction on it gave.
pub fn splice_results(states: &Vec<ExecutionDomain>, results: &Vec<Vec<ExecutionDomain>>) -> (r: Vec<
    ExecutionDomain,
>)
    requires
        results@.len() == continue_count(exec_views(states@)),
    ensures
        exec_views(r@) == spliced(exec_views(states@), exec_view_lists(results@)),
{
    let ghost s = exec_views(states@);
    let ghost rs = exec_view_lists(results@);
    let mut r: Vec<ExecutionDomain> = Vec::new();
    let mut next: usize = 0;
    let mut i: usize = 0;
    assert(s.take(0) =~= Seq::<ExecutionV>::empty());
    assert(exec_views(r@) =~= Seq::<ExecutionV>::empty());
    while i < states.len()
        invariant
            s == exec_views(states@),
            rs == exec_view_lists(results@),
            results@.len() == continue_count(s),
            i <= states@.len(),
            next == continue_count(s.take(i as int)),
            exec_views(r@) == spliced(s.take(i as int), rs),
        decreases states@.len() - i,
    {
        let ghost t = s.take(i + 1);
        let ghost before = r@;
        assert(t.drop_last() =~= s.take(i as int));
        assert(t.last() == s[i as int]);
        if states[i].is_continue() {
            proof {
                lemma_continue_count(s, i + 1);
            }
            let n: usize = results.len();
            assert(next < n);
            let mut more = clone_all(&results[next]);
            let ghost tail = more@;
            r.append(&mut more);
            assert(r@ =~= before + tail);
            assert(exec_views(r@) =~= exec_views(before) + exec_views(tail));
            assert(rs[next as int] == exec_views(tail));
            next = next + 1;
        } else {
            let e = states[i].clone();
            r.push(e);
            assert(exec_views(r@) =~= exec_views(before) + seq![e@]);
        }
        i = i + 1;
    }
    assert(s.take(i as int) =~= s);
    r
}

proof fn lemma_continue_count(s: Seq<ExecutionV>, i: int)
    requires
        0 <= i <= s.len(),
    ensures
        continue_count(s.take(i)) <= continue_count(s),
    decreases s.len() - i,
{
    if i == s.len() {
        assert(s.take(i) =~= s);
    } else {
        lemma_continue_count(s, i + 1);
        assert(s.take(i + 1).drop_last() =~= s.take(i));
    }
}

/// How many heap cells the states hold that are not snapshots of an error.
pub open spec fn live_heap_cells(s: Seq<ExecutionV>) -> nat
    decreases s.len(),
{
    if s.len() == 0 {
        0
    } else {
        live_heap_cells(s.drop_last()) + (if s.last().diagnostic is None {
            s.last().state.post.heap.graph.len()
        } else {
            0
        })
    }
}

/// From how many heap cells on the states of a node are cleaned up.
pub const MIN_POST_HEAP_CELLS_FOR_GC: usize = 10_000;

/// Whether the states of a node hold so many heap cells that the unreachable ones
/// should be dropped.
pub fn needs_shrinking(states: &Vec<ExecutionDomain>) -> (b: bool)
    ensures
        b == (live_heap_cells(exec_views(states@)) >= MIN_POST_HEAP_CELLS_FOR_GC),
{
    let ghost s = exec_views(states@);
    let mut cells: usize = 0;
    let mut i: usize = 0;
    assert(s.take(0) =~= Seq::<ExecutionV>::empty());
    while i < states.len()
        invariant
            s == exec_views(states@),
            i <= states@.len(),
            cells == live_heap_cells(s.take(i as int)),
            cells < MIN_POST_HEAP_CELLS_FOR_GC,
        decreases states@.len() - i,
    {
        let ghost t = s.take(i + 1);
        assert(t.drop_last() =~= s.take(i as int));
        assert(t.last() == s[i as int]);
        if states[i].get_diagnostic().is_none() {
            let n: usize = states[i].get_astate().post.heap.len();
            if n >= MIN_POST_HEAP_CELLS_FOR_GC - cells {
                proof {
                    lemma_live_cells(s, i + 1);
                }
                return true;
            }
            cells = cells + n;
        }
        i = i + 1;
    }
    assert(s.take(i as int) =~= s);
    false
}

proof fn lemma_live_cells(s: Seq<ExecutionV>, i: int)
    requires
        0 <= i <= s.len(),
    ensures
        live_heap_cells(s.take(i)) <= live_heap_cells(s),
    decreases s.len() - i,
{
    if i == s.len() {
        assert(s.take(i) =~= s);
    } else {
        lemma_live_cells(s, i + 1);
        assert(s.take(i + 1).drop_last() =~= s.take(i));
    }
}

/// `id` is one of `live`.
pub open spec fn is_live(live: Seq<Ident>, id: Ident) -> bool {
    exists|i: int| 0 <= i < live.len() && (#[trigger] live[i]).key() == id.key()
}

/// The variable is a logical one that is not live any more, and not the one whose
/// value stands for the result of the procedure.
pub open spec fn is_dead(var: Var, live: Seq<Ident>, keep: Option<i32>) -> bool {
    var matches Var::LogicalVar(id) && Some(id.stamp) != keep && !is_live(live, id)
}

/// The dead variables of a stack.
pub open spec fn dead_vars(s: StackV, live: Seq<Ident>, keep: Option<i32>) -> Seq<Var>
    decreases s.len(),
{
    if s.len() == 0 {
        seq![]
    } else {
        let rest = dead_vars(s.drop_last(), live, keep);
        if is_dead(s.last().1.var, live, keep) {
            rest.push(s.last().1.var)
        } else {
            rest
        }
    }
}

fn has_ident(live: &Vec<Ident>, id: &Ident) -> (b: bool)
    ensures
        b == is_live(live@, *id),
{
    let mut i: usize = 0;
    while i < live.len()
        invariant
            i <= live@.len(),
            forall|j: int| 0 <= j < i ==> (#[trigger] live@[j]).key() != id.key(),
        decreases live@.len() - i,
    {
        if same_key(&live[i], id) {
            assert(live@[i as int].key() == id.key());
            return true;
        }
        i = i + 1;
    }
    false
}

/// The logical variables bound in `stack` that are neither live nor the one to
/// keep.
pub fn dead_logical_vars(stack: &BaseStack, live: &Vec<Ident>, keep: Option<i32>) -> (r: Vec<Var>)
    ensures
        r@ == dead_vars(stack@, live@, keep),
{
    let ghost s = stack@;
    let mut r: Vec<Var> = Vec::new();
    let mut i: usize = 0;
    assert(s.take(0) =~= Seq::<(KeyV, StackEntry)>::empty());
    while i < stack.len()
        invariant
            s == stack@,
            i <= s.len(),
            r@ == dead_vars(s.take(i as int), live@, keep),
        decreases s.len() - i,
    {
        let ghost t = s.take(i + 1);
        assert(t.drop_last() =~= s.take(i as int));
        assert(t.last() == s[i as int]);
        let var = stack.var_at(i);
        let dead = match var {
            Var::LogicalVar(id) => {
                let kept = match keep {
                    Some(stamp) => id.stamp == stamp,
                    None => false,
                };
                !kept && !has_ident(live, id)
            },
            Var::ProgramVar(_) => false,
        };
        if dead {
            r.push(var.clone());
        }
        i = i + 1;
    }
    assert(s.take(i as int) =~= s);
    r
}

/// The stamp of the identifier that an instruction sets, if it loads or calls.
pub open spec fn set_stamp(i: Instr) -> Option<i32> {
    match i {
        Instr::Load { id, .. } => Some(id.stamp),
        Instr::Call { ret_id, .. } => Some(ret_id.stamp),
        _ => None,
    }
}

/// The last stamp set by the instructions, else `acc`.
pub open spec fn last_stamp_of(instrs: Seq<Instr>, acc: Option<i32>) -> Option<i32>
    decreases instrs.len(),
{
    if instrs.len() == 0 {
        acc
    } else if set_stamp(instrs.last()) is Some {
        set_stamp(instrs.last())
    } else {
        last_stamp_of(instrs.drop_last(), acc)
    }
}

/// The last stamp set by the nodes.
pub open spec fn last_stamp(nodes: Seq<Node>) -> Option<i32>
    decreases nodes.len(),
{
    if nodes.len() == 0 {
        None
    } else {
        last_stamp_of(nodes.last().instrs@, last_stamp(nodes.drop_last()))
    }
}

/// The stamp of the logical variable that stands for the result of a procedure
/// which does not store one: the last one that a load or a call sets. `None` for
/// procedures without a result.
pub fn return_candidate_logical_stamp(pdesc: &Procdesc) -> (r: Option<i32>)
    ensures
        r == (if *pdesc.ret_type.desc is Tvoid {
            None
        } else {
            last_stamp(pdesc.nodes@)
        }),
{
    if pdesc.ret_type.is_void() {
        return None;
    }
    let mut last: Option<i32> = None;
    let mut i: usize = 0;
    assert(pdesc.nodes@.take(0) =~= Seq::<Node>::empty());
    while i < pdesc.nodes.len()
        invariant
            i <= pdesc.nodes@.len(),
            last == last_stamp(pdesc.nodes@.take(i as int)),
        decreases pdesc.nodes@.len() - i,
    {
        let ghost t = pdesc.nodes@.take(i + 1);
        assert(t.drop_last() =~= pdesc.nodes@.take(i as int));
        assert(t.last() == pdesc.nodes@[i as int]);
        let instrs = &pdesc.nodes[i].instrs;
        let ghost acc = last;
        let mut j: usize = 0;
        while j < instrs.len()
            invariant
                j <= instrs@.len(),
                last == last_stamp_of(instrs@.take(j as int), acc),
            decreases instrs@.len() - j,
        {
            let ghost u = instrs@.take(j + 1);
            assert(u.drop_last() =~= instrs@.take(j as int));
            assert(u.last() == instrs@[j as int]);
            match &instrs[j] {
                Instr::Load { id, .. } => {
                    last = Some(id.stamp);
                },
                Instr::Call { ret_id, .. } => {
                    last = Some(ret_id.stamp);
                },
                _ => {},
            }
            j = j + 1;
        }
        assert(instrs@.take(j as int) =~= instrs@);
        i = i + 1;
    }
    assert(pdesc.nodes@.take(i as int) =~= pdesc.nodes@);
    last
}

/// Running only what is new loses nothing: every incoming state is run, joined,
/// or equal to one that came in before.
pub proof fn law_plan_covers(
    budget: Budget,
    usage: Usage,
    pre: Seq<ExecutionV>,
    old_pre: Seq<ExecutionV>,
    e: ExecutionV,
)
    requires
        pre.contains(e),
        !over_heap(budget, usage),
        !over_time(budget, usage),
    ensures
        seen_in(e, old_pre) || (match node_plan(false, budget, usage, true, pre, Some(old_pre)) {
            PlanV::Join(input) => input.contains(e),
            PlanV::Run(input) => input.contains(e),
            _ => false,
        }),
{
    let p = |x: ExecutionV| !seen_in(x, old_pre);
    if !seen_in(e, old_pre) {
        let i = choose|i: int| 0 <= i < pre.len() && pre[i] == e;
        assert(p(pre[i]));
        assert(pre.filter(p).contains(e)) by {
            lemma_filter_contains(pre, p, i);
        }
    }
}

proof fn lemma_filter_contains(s: Seq<ExecutionV>, p: spec_fn(ExecutionV) -> bool, i: int)
    requires
        0 <= i < s.len(),
        p(s[i]),
    ensures
        s.filter(p).contains(s[i]),
    decreases s.len(),
{
    reveal(Seq::filter);
    let t = s.drop_last();
    if i == s.len() - 1 {
        assert(s.filter(p) == t.filter(p).push(s.last()));
        assert(s.filter(p)[t.filter(p).len() as int] == s[i]);
    } else {
        lemma_filter_contains(t, p, i);
        let k = choose|k: int| 0 <= k < t.filter(p).len() && t.filter(p)[k] == s[i];
        assert(s.filter(p)[k] == s[i]);
    }
}

} // verus!
