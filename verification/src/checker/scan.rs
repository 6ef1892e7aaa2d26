//! What is kept of an analysed procedure: the states for its summary and the
//! diagnostics that are certain.

use super::disjuncts::exec_views;
use crate::diagnostic::Diagnostic;
use crate::execution_domain::{ExecutionDomain, ExecutionKind, ExecutionV};
use crate::key::{same_key, Keyed};
use crate::sil::{Location, Node, Procdesc, SourceFile};
use crate::state_same::same_state;
use vstd::prelude::*;

verus! {

/// What an error found on a path is classified as.
#[derive(Clone, Copy, Debug, PartialEq, Eq, Structural)]
pub enum PrePostKind {
    ContinueProgram,
    ExitProgram,
    AbortProgram,
    LatentAbortProgram,
    LatentInvalidAccess,
    ExceptionRaised,
}

/// What was found out about an execution state at a node other than the exit.
#[derive(Debug, PartialEq, Eq)]
pub enum ScanAnswer {
    Nothing,
    /// What an error is classified as, and whether it may be published.
    Abort { kind: PrePostKind, publish: bool },
    /// The invalid accesses found in a state that goes on.
    Recovered(Vec<ExecutionDomain>),
}

/// What an answer stands for.
pub enum AnswerV {
    Nothing,
    Abort { kind: PrePostKind, publish: bool },
    Recovered(Seq<ExecutionV>),
}

impl View for ScanAnswer {
    type V = AnswerV;

    open spec fn view(&self) -> AnswerV {
        match self {
            ScanAnswer::Nothing => AnswerV::Nothing,
            ScanAnswer::Abort { kind, publish } => AnswerV::Abort {
                kind: *kind,
                publish: *publish,
            },
            ScanAnswer::Recovered(s) => AnswerV::Recovered(exec_views(s@)),
        }
    }
}

/// What answers stand for.
pub open spec fn answer_views(s: Seq<ScanAnswer>) -> Seq<AnswerV> {
    s.map_values(|a: ScanAnswer| a@)
}

/// The file of the first node that has a location.
pub open spec fn source_file(nodes: Seq<Node>) -> Option<SourceFile>
    decreases nodes.len(),
{
    if nodes.len() == 0 {
        None
    } else if nodes[0].loc != Location::nowhere() {
        Some(nodes[0].loc.file)
    } else {
        source_file(nodes.drop_first())
    }
}

/// The node is in `file`.
pub open spec fn node_in(n: Node, file: SourceFile) -> bool {
    n.loc != Location::nowhere() && n.loc.file.key() == file.key()
}

/// Some node of `file` is at or above `line`, and some node is at or below it.
pub open spec fn spans(nodes: Seq<Node>, file: SourceFile, line: int) -> bool {
    (exists|i: int|
        0 <= i < nodes.len() && node_in(#[trigger] nodes[i], file) && nodes[i].loc.line <= line)
        && exists|i: int|
        0 <= i < nodes.len() && node_in(#[trigger] nodes[i], file) && line <= nodes[i].loc.line
}

/// The diagnostic is located in the procedure, as far as locations are known.
pub open spec fn originates(nodes: Seq<Node>, loc: Location) -> bool {
    loc == Location::nowhere() || match source_file(nodes) {
        None => true,
        Some(file) => loc.file.key() == file.key() && spans(nodes, file, loc.line as int),
    }
}

/// Whether the diagnostic is located in the procedure. Without reliable source
/// ranges it counts as located there.
pub fn diagnostic_originates_in_proc(pdesc: &Procdesc, diagnostic: &Diagnostic) -> (b: bool)
    ensures
        b == originates(pdesc.nodes@, diagnostic.location()),
{
    let loc = diagnostic.get_location();
    if loc.is_dummy() {
        return true;
    }
    let ghost nodes = pdesc.nodes@;
    let mut first: usize = 0;
    assert(nodes.skip(0) =~= nodes);
    while first < pdesc.nodes.len() && pdesc.nodes[first].loc.is_dummy()
        invariant
            nodes == pdesc.nodes@,
            first <= nodes.len(),
            source_file(nodes.skip(first as int)) == source_file(nodes),
        decreases nodes.len() - first,
    {
        let ghost s = nodes.skip(first as int);
        assert(s[0] == nodes[first as int]);
        assert(s.drop_first() =~= nodes.skip(first + 1));
        first = first + 1;
    }
    if first == pdesc.nodes.len() {
        assert(nodes.skip(first as int).len() == 0);
        return true;
    }
    assert(nodes.skip(first as int)[0] == nodes[first as int]);
    let file = &pdesc.nodes[first].loc.file;
    let mut above = false;
    let mut below = false;
    let mut i: usize = 0;
    while i < pdesc.nodes.len()
        invariant
            nodes == pdesc.nodes@,
            i <= nodes.len(),
            above == (exists|j: int|
                0 <= j < i && node_in(#[trigger] nodes[j], *file) && nodes[j].loc.line <= loc.line),
            below == (exists|j: int|
                0 <= j < i && node_in(#[trigger] nodes[j], *file) && loc.line <= nodes[j].loc.line),
        decreases nodes.len() - i,
    {
        let node = &pdesc.nodes[i];
        if !node.loc.is_dummy() && same_key(&node.loc.file, file) {
            assert(node_in(nodes[i as int], *file));
            if node.loc.line <= loc.line {
                above = true;
            }
            if loc.line <= node.loc.line {
                below = true;
            }
        } else {
            assert(!node_in(nodes[i as int], *file));
        }
        i = i + 1;
    }
    same_key(&loc.file, file) && above && below
}

/// What identifies a path that stopped in an error: how it stopped, and the error.
pub open spec fn stopped_key(e: ExecutionV) -> Option<(int, Seq<char>)> {
    match e.diagnostic {
        None => None,
        Some(d) => Some(
            (
                match e.kind {
                    ExecutionKind::Abort => 0int,
                    ExecutionKind::LatentAbort => 1,
                    _ => 2,
                },
                d.dedup_text(),
            ),
        ),
    }
}

/// What identifies a path that stopped in an error.
pub fn stopped_summary_key(exec: &ExecutionDomain) -> (r: Option<(u8, String)>)
    ensures
        stopped_key(exec@) == (match r {
            Some((n, s)) => Some((n as int, s@)),
            None => None,
        }),
{
    match exec {
        ExecutionDomain::AbortProgram { diagnostic, .. } => Some((0, diagnostic.dedup_key())),
        ExecutionDomain::LatentAbortProgram { diagnostic, .. } => Some((1, diagnostic.dedup_key())),
        ExecutionDomain::LatentInvalidAccess { diagnostic, .. } => Some(
            (2, diagnostic.dedup_key()),
        ),
        _ => None,
    }
}

fn same_stopped_key(a: &ExecutionDomain, b: &ExecutionDomain) -> (r: bool)
    ensures
        r == (stopped_key(a@) == stopped_key(b@)),
{
    match (stopped_summary_key(a), stopped_summary_key(b)) {
        (Some((n, s)), Some((m, t))) => n == m && s == t,
        (None, None) => true,
        _ => false,
    }
}

/// Two execution states hold the same, and end in the same error.
pub open spec fn same_execution(a: ExecutionV, b: ExecutionV) -> bool {
    a.kind == b.kind && same_state(a.state, b.state) && match (a.diagnostic, b.diagnostic) {
        (Some(x), Some(y)) => x.key() == y.key(),
        (None, None) => true,
        _ => false,
    }
}

fn executions_same(a: &ExecutionDomain, b: &ExecutionDomain) -> (r: bool)
    ensures
        r == same_execution(a@, b@),
{
    a.kind() == b.kind() && a.get_astate().same(b.get_astate()) && match (
        a.get_diagnostic(),
        b.get_diagnostic(),
    ) {
        (Some(x), Some(y)) => same_key(x, y),
        (None, None) => true,
        _ => false,
    }
}

/// A path of `s` stopped like `e`.
pub open spec fn stopped_like(s: Seq<ExecutionV>, e: ExecutionV) -> bool {
    exists|i: int| 0 <= i < s.len() && stopped_key(#[trigger] s[i]) == stopped_key(e)
}

/// An element of `s` holds the same as `e`.
pub open spec fn held_in(s: Seq<ExecutionV>, e: ExecutionV) -> bool {
    exists|i: int| 0 <= i < s.len() && same_execution(#[trigger] s[i], e)
}

fn is_stopped_like(s: &Vec<ExecutionDomain>, e: &ExecutionDomain) -> (b: bool)
    ensures
        b == stopped_like(exec_views(s@), e@),
{
    let ghost v = exec_views(s@);
    let mut i: usize = 0;
    while i < s.len()
        invariant
            v == exec_views(s@),
            i <= s@.len(),
            forall|j: int| 0 <= j < i ==> stopped_key(#[trigger] v[j]) != stopped_key(e@),
        decreases s@.len() - i,
    {
        if same_stopped_key(&s[i], e) {
            assert(stopped_key(v[i as int]) == stopped_key(e@));
            return true;
        }
        i = i + 1;
    }
    false
}

fn is_held_in(s: &Vec<ExecutionDomain>, e: &ExecutionDomain) -> (b: bool)
    ensures
        b == held_in(exec_views(s@), e@),
{
    let ghost v = exec_views(s@);
    let mut i: usize = 0;
    while i < s.len()
        invariant
            v == exec_views(s@),
            i <= s@.len(),
            forall|j: int| 0 <= j < i ==> !same_execution(#[trigger] v[j], e@),
        decreases s@.len() - i,
    {
        if executions_same(&s[i], e) {
            assert(same_execution(v[i as int], e@));
            return true;
        }
        i = i + 1;
    }
    false
}

/// What has been found at the nodes other than the exit.
#[verifier::ext_equal]
pub struct ScanV {
    /// The errors that are certain, in the order they were found.
    pub diagnostics: Seq<Diagnostic>,
    /// What identifies them.
    pub seen: Seq<Seq<char>>,
    /// The paths that stopped before the exit and belong to the summary.
    pub recovered: Seq<ExecutionV>,
}

/// `m` with the error `d`, unless an equal one has been found.
pub open spec fn published(m: ScanV, d: Diagnostic) -> ScanV {
    if m.seen.contains(d.dedup_text()) {
        m
    } else {
        ScanV {
            diagnostics: m.diagnostics.push(d),
            seen: m.seen.push(d.dedup_text()),
            recovered: m.recovered,
        }
    }
}

/// `m` with the stopped path `e`, unless one that stopped likewise is there.
pub open spec fn recovering(m: ScanV, e: ExecutionV) -> ScanV {
    if stopped_like(m.recovered, e) {
        m
    } else {
        ScanV { recovered: m.recovered.push(e), ..m }
    }
}

/// `m` with those of the invalid accesses that are located in the procedure and
/// not there yet.
pub open spec fn recovering_accesses(m: ScanV, nodes: Seq<Node>, s: Seq<ExecutionV>) -> ScanV
    decreases s.len(),
{
    if s.len() == 0 {
        m
    } else {
        let rest = recovering_accesses(m, nodes, s.drop_last());
        let e = s.last();
        let reportable = match e.diagnostic {
            Some(d) => (e.kind == ExecutionKind::Abort || e.kind == ExecutionKind::LatentInvalid)
                && originates(nodes, d.location()),
            None => false,
        };
        if reportable && !held_in(rest.recovered, e) {
            ScanV { recovered: rest.recovered.push(e), ..rest }
        } else {
            rest
        }
    }
}

/// The same error, as it is kept in the summary: latent, if it is classified so.
pub open spec fn as_latent(e: ExecutionV, kind: PrePostKind) -> Option<ExecutionV> {
    match kind {
        PrePostKind::LatentAbortProgram => Some(
            ExecutionV { kind: ExecutionKind::LatentAbort, ..e },
        ),
        PrePostKind::LatentInvalidAccess => Some(
            ExecutionV { kind: ExecutionKind::LatentInvalid, ..e },
        ),
        _ => None,
    }
}

/// `m` with what is kept of the execution state `e` at a node other than the
/// exit. `normal` says that some path reaches the exit normally.
pub open spec fn scanned(
    m: ScanV,
    nodes: Seq<Node>,
    normal: bool,
    e: ExecutionV,
    answer: AnswerV,
) -> ScanV {
    match e.kind {
        ExecutionKind::Abort => match (answer, e.diagnostic) {
            (AnswerV::Abort { kind, publish }, Some(d)) => {
                let m1 = if originates(nodes, d.location()) && kind == PrePostKind::AbortProgram
                    && publish {
                    published(m, d)
                } else {
                    m
                };
                match as_latent(e, kind) {
                    Some(latent) => recovering(m1, latent),
                    None => m1,
                }
            },
            _ => m,
        },
        ExecutionKind::LatentAbort | ExecutionKind::LatentInvalid => recovering(m, e),
        ExecutionKind::Continue => match answer {
            AnswerV::Recovered(s) => if normal {
                m
            } else {
                recovering_accesses(m, nodes, s)
            },
            _ => m,
        },
        _ => m,
    }
}

/// `m` with what is kept of all execution states at a node.
pub open spec fn scanned_all(
    m: ScanV,
    nodes: Seq<Node>,
    normal: bool,
    s: Seq<ExecutionV>,
    answers: Seq<AnswerV>,
) -> ScanV
    decreases s.len(),
{
    if s.len() == 0 {
        m
    } else {
        scanned(
            scanned_all(m, nodes, normal, s.drop_last(), answers),
            nodes,
            normal,
            s.last(),
            answers[s.len() - 1],
        )
    }
}

/// What has been found at the nodes other than the exit.
#[derive(Debug, PartialEq, Eq)]
pub struct NonExitScan {
    pub diagnostics: Vec<Diagnostic>,
    pub seen: Vec<String>,
    pub recovered: Vec<ExecutionDomain>,
}

/// What strings stand for.
pub open spec fn text_views(s: Seq<String>) -> Seq<Seq<char>> {
    s.map_values(|t: String| t@)
}

impl View for NonExitScan {
    type V = ScanV;

    open spec fn view(&self) -> ScanV {
        ScanV {
            diagnostics: self.diagnostics@,
            seen: text_views(self.seen@),
            recovered: exec_views(self.recovered@),
        }
    }
}

/// Whether `t` is one of `seen`.
pub fn has_text(seen: &Vec<String>, t: &String) -> (b: bool)
    ensures
        b == text_views(seen@).contains(t@),
{
    let ghost v = text_views(seen@);
    let mut i: usize = 0;
    while i < seen.len()
        invariant
            v == text_views(seen@),
            i <= seen@.len(),
            forall|j: int| 0 <= j < i ==> #[trigger] v[j] != t@,
        decreases seen@.len() - i,
    {
        if seen[i] == *t {
            assert(v[i as int] == t@);
            return true;
        }
        i = i + 1;
    }
    assert forall|x: Seq<char>| v.contains(x) implies x != t@ by {
        let j = choose|j: int| 0 <= j < v.len() && v[j] == x;
        assert(v[j] != t@);
    }
    false
}

impl NonExitScan {
    pub fn new() -> (r: Self)
        ensures
            r@ == (ScanV { diagnostics: seq![], seen: seq![], recovered: seq![] }),
    {
        let r = NonExitScan {
            diagnostics: Vec::new(),
            seen: Vec::new(),
            recovered: Vec::new(),
        };
        assert(r@ =~= (ScanV { diagnostics: seq![], seen: seq![], recovered: seq![] }));
        r
    }

    fn publish(&mut self, d: &Diagnostic)
        ensures
            final(self)@ == published(old(self)@, *d),
    {
        let key = d.dedup_key();
        if !has_text(&self.seen, &key) {
            let ghost before = *self;
            self.seen.push(key);
            self.diagnostics.push(d.clone());
            assert(text_views(self.seen@) =~= text_views(before.seen@).push(d.dedup_text()));
        }
    }

    fn push_recovered(&mut self, e: ExecutionDomain)
        ensures
            final(self)@ == (ScanV { recovered: old(self)@.recovered.push(e@), ..old(self)@ }),
    {
        let ghost before = self.recovered@;
        self.recovered.push(e);
        assert(exec_views(self.recovered@) =~= exec_views(before).push(e@));
    }

    fn recover(&mut self, e: ExecutionDomain)
        ensures
            final(self)@ == recovering(old(self)@, e@),
    {
        if !is_stopped_like(&self.recovered, &e) {
            self.push_recovered(e);
        }
    }

    fn recover_accesses(&mut self, pdesc: &Procdesc, found: &Vec<ExecutionDomain>)
        ensures
            final(self)@ == recovering_accesses(old(self)@, pdesc.nodes@, exec_views(found@)),
    {
        let ghost start = self@;
        let ghost s = exec_views(found@);
        let mut i: usize = 0;
        assert(s.take(0) =~= Seq::<ExecutionV>::empty());
        while i < found.len()
            invariant
                s == exec_views(found@),
                i <= found@.len(),
                self@ == recovering_accesses(start, pdesc.nodes@, s.take(i as int)),
            decreases found@.len() - i,
        {
            let ghost t = s.take(i + 1);
            assert(t.drop_last() =~= s.take(i as int));
            assert(t.last() == s[i as int]);
            let reportable = match &found[i] {
                ExecutionDomain::AbortProgram { diagnostic, .. } => diagnostic_originates_in_proc(
                    pdesc,
                    diagnostic,
                ),
                ExecutionDomain::LatentInvalidAccess { diagnostic, .. } => {
                    diagnostic_originates_in_proc(pdesc, diagnostic)
                },
                _ => false,
            };
            if reportable && !is_held_in(&self.recovered, &found[i]) {
                self.push_recovered(found[i].clone());
            }
            i = i + 1;
        }
        assert(s.take(i as int) =~= s);
    }

    /// Keeps what belongs to the summary of an execution state at a node other
    /// than the exit.
    pub fn scan_state(
        &mut self,
        pdesc: &Procdesc,
        exit_has_normal_path: bool,
        exec: &ExecutionDomain,
        answer: &ScanAnswer,
    )
        ensures
            final(self)@ == scanned(
                old(self)@,
                pdesc.nodes@,
                exit_has_normal_path,
                exec@,
                answer@,
            ),
    {
        match exec {
            ExecutionDomain::AbortProgram { state, diagnostic } => {
                if let ScanAnswer::Abort { kind, publish } = answer {
                    let certain = *kind == PrePostKind::AbortProgram && *publish;
                    if certain && diagnostic_originates_in_proc(pdesc, diagnostic) {
                        self.publish(diagnostic);
                    }
                    match kind {
                        PrePostKind::LatentAbortProgram => self.recover(
                            ExecutionDomain::LatentAbortProgram {
                                state: Box::new((**state).clone()),
                                diagnostic: Box::new((**diagnostic).clone()),
                            },
                        ),
                        PrePostKind::LatentInvalidAccess => self.recover(
                            ExecutionDomain::LatentInvalidAccess {
                                state: Box::new((**state).clone()),
                                diagnostic: Box::new((**diagnostic).clone()),
                            },
                        ),
                        _ => {},
                    }
                }
            },
            ExecutionDomain::LatentAbortProgram { .. } => self.recover(exec.clone()),
            ExecutionDomain::LatentInvalidAccess { .. } => self.recover(exec.clone()),
            ExecutionDomain::ContinueProgram(_) => {
                if let ScanAnswer::Recovered(found) = answer {
                    if !exit_has_normal_path {
                        self.recover_accesses(pdesc, found);
                    }
                }
            },
            _ => {},
        }
    }

    /// Keeps what belongs to the summary of the execution states at a node other
    /// than the exit, with an answer for each.
    pub fn scan_node(
        &mut self,
        pdesc: &Procdesc,
        exit_has_normal_path: bool,
        states: &Vec<ExecutionDomain>,
        answers: &Vec<ScanAnswer>,
    )
        requires
            answers@.len() == states@.len(),
        ensures
            final(self)@ == scanned_all(
                old(self)@,
                pdesc.nodes@,
                exit_has_normal_path,
                exec_views(states@),
                answer_views(answers@),
            ),
    {
        let ghost start = self@;
        let ghost s = exec_views(states@);
        let ghost a = answer_views(answers@);
        let mut i: usize = 0;
        assert(s.take(0) =~= Seq::<ExecutionV>::empty());
        while i < states.len()
            invariant
                s == exec_views(states@),
                a == answer_views(answers@),
                answers@.len() == states@.len(),
                i <= states@.len(),
                self@ == scanned_all(
                    start,
                    pdesc.nodes@,
                    exit_has_normal_path,
                    s.take(i as int),
                    a,
                ),
            decreases states@.len() - i,
        {
            let ghost t = s.take(i + 1);
            assert(t.drop_last() =~= s.take(i as int));
            assert(t.last() == s[i as int]);
            assert(a[i as int] == answers@[i as int]@);
            self.scan_state(pdesc, exit_has_normal_path, &states[i], &answers[i]);
            i = i + 1;
        }
        assert(s.take(i as int) =~= s);
    }
}

/// `s` with the stopped paths of `t` that are not there yet.
pub open spec fn with_recovered(s: Seq<ExecutionV>, t: Seq<ExecutionV>) -> Seq<ExecutionV>
    decreases t.len(),
{
    if t.len() == 0 {
        s
    } else {
        let rest = with_recovered(s, t.drop_last());
        if stopped_like(rest, t.last()) || held_in(rest, t.last()) {
            rest
        } else {
            rest.push(t.last())
        }
    }
}

/// The states at the exit without those that raised an exception.
pub open spec fn without_exceptions(s: Seq<ExecutionV>) -> Seq<ExecutionV> {
    s.filter(|e: ExecutionV| e.kind != ExecutionKind::Exception)
}

/// The states for the summary: those at the exit that raised no exception, then
/// the paths that stopped before it.
pub fn exit_disjuncts(
    exit_states: &Vec<ExecutionDomain>,
    recovered: &Vec<ExecutionDomain>,
) -> (r: Vec<ExecutionDomain>)
    ensures
        exec_views(r@) == with_recovered(
            without_exceptions(exec_views(exit_states@)),
            exec_views(recovered@),
        ),
{
    let ghost s = exec_views(exit_states@);
    let ghost p = |e: ExecutionV| e.kind != ExecutionKind::Exception;
    let mut r: Vec<ExecutionDomain> = Vec::new();
    let mut i: usize = 0;
    assert(exec_views(r@) =~= s.take(0).filter(p)) by {
        reveal(Seq::filter);
    }
    while i < exit_states.len()
        invariant
            s == exec_views(exit_states@),
            p == (|e: ExecutionV| e.kind != ExecutionKind::Exception),
            i <= exit_states@.len(),
            exec_views(r@) == s.take(i as int).filter(p),
        decreases exit_states@.len() - i,
    {
        proof {
            crate::ordered::lemma_filter_step(s, p, i as int);
        }
        let ghost before = r@;
        if exit_states[i].kind() != ExecutionKind::Exception {
            let e = exit_states[i].clone();
            r.push(e);
            assert(exec_views(r@) =~= exec_views(before).push(s[i as int]));
        }
        i = i + 1;
    }
    assert(s.take(i as int) =~= s);
    let ghost base = exec_views(r@);
    let ghost t = exec_views(recovered@);
    let mut j: usize = 0;
    assert(t.take(0) =~= Seq::<ExecutionV>::empty());
    while j < recovered.len()
        invariant
            t == exec_views(recovered@),
            j <= recovered@.len(),
            exec_views(r@) == with_recovered(base, t.take(j as int)),
        decreases recovered@.len() - j,
    {
        let ghost u = t.take(j + 1);
        assert(u.drop_last() =~= t.take(j as int));
        assert(u.last() == t[j as int]);
        if !is_stopped_like(&r, &recovered[j]) && !is_held_in(&r, &recovered[j]) {
            let ghost before = r@;
            let e = recovered[j].clone();
            r.push(e);
            assert(exec_views(r@) =~= exec_views(before).push(t[j as int]));
        }
        j = j + 1;
    }
    assert(t.take(j as int) =~= t);
    r
}

/// No error is published twice.
pub open spec fn no_repeats(s: Seq<Diagnostic>) -> bool {
    forall|i: int, j: int|
        0 <= i < j < s.len() ==> (#[trigger] s[i]).dedup_text() != (#[trigger] s[j]).dedup_text()
}

/// The record of what was published matches the published errors.
pub open spec fn scan_wf(m: ScanV) -> bool {
    &&& no_repeats(m.diagnostics)
    &&& m.seen == Seq::new(m.diagnostics.len(), |i: int| m.diagnostics[i].dedup_text())
}

/// Scanning never publishes an error twice, and never forgets one: at the start
/// nothing is published, and each execution state keeps that so.
pub proof fn law_scan_publishes_once(
    m: ScanV,
    nodes: Seq<Node>,
    normal: bool,
    e: ExecutionV,
    answer: AnswerV,
)
    requires
        scan_wf(m),
    ensures
        scan_wf(ScanV { diagnostics: seq![], seen: seq![], recovered: seq![] }),
        scan_wf(scanned(m, nodes, normal, e, answer)),
        m.diagnostics.is_prefix_of(scanned(m, nodes, normal, e, answer).diagnostics),
        m.recovered.is_prefix_of(scanned(m, nodes, normal, e, answer).recovered),
{
    let nothing = ScanV { diagnostics: seq![], seen: seq![], recovered: seq![] };
    assert(nothing.seen =~= Seq::new(
        nothing.diagnostics.len(),
        |i: int| nothing.diagnostics[i].dedup_text(),
    ));
    if let Some(d) = e.diagnostic {
        lemma_published(m, d);
    }
    if let AnswerV::Recovered(s) = answer {
        lemma_recovering_accesses(m, nodes, s);
    }
}

proof fn lemma_published(m: ScanV, d: Diagnostic)
    requires
        scan_wf(m),
    ensures
        scan_wf(published(m, d)),
        m.diagnostics.is_prefix_of(published(m, d).diagnostics),
        published(m, d).recovered == m.recovered,
{
    if !m.seen.contains(d.dedup_text()) {
        let n = published(m, d);
        assert forall|i: int, j: int| 0 <= i < j < n.diagnostics.len() implies (
        #[trigger] n.diagnostics[i]).dedup_text() != (#[trigger] n.diagnostics[j]).dedup_text() by {
            if j == m.diagnostics.len() {
                assert(m.seen[i] == m.diagnostics[i].dedup_text());
            }
        }
        assert(n.seen =~= Seq::new(
            n.diagnostics.len(),
            |i: int| n.diagnostics[i].dedup_text(),
        ));
    }
}

proof fn lemma_recovering_accesses(m: ScanV, nodes: Seq<Node>, s: Seq<ExecutionV>)
    ensures
        recovering_accesses(m, nodes, s).diagnostics == m.diagnostics,
        recovering_accesses(m, nodes, s).seen == m.seen,
        m.recovered.is_prefix_of(recovering_accesses(m, nodes, s).recovered),
    decreases s.len(),
{
    if s.len() > 0 {
        lemma_recovering_accesses(m, nodes, s.drop_last());
    }
}

/// Every state at the exit that raised no exception stays in the summary, and
/// every path that stopped before the exit is in it or is like one that is.
pub proof fn law_exit_disjuncts(s: Seq<ExecutionV>, t: Seq<ExecutionV>, e: ExecutionV)
    ensures
        s.is_prefix_of(with_recovered(s, t)),
        t.contains(e) ==> with_recovered(s, t).contains(e) || stopped_like(with_recovered(s, t), e)
            || held_in(with_recovered(s, t), e),
    decreases t.len(),
{
    if t.len() > 0 {
        law_exit_disjuncts(s, t.drop_last(), e);
        let rest = with_recovered(s, t.drop_last());
        let all = with_recovered(s, t);
        assert(rest.is_prefix_of(all));
        if t.contains(e) {
            if e == t.last() {
                if all != rest {
                    assert(all[rest.len() as int] == e);
                }
            } else {
                let i = choose|i: int| 0 <= i < t.len() && t[i] == e;
                assert(t.drop_last()[i] == e);
                if rest.contains(e) {
                    let k = choose|k: int| 0 <= k < rest.len() && rest[k] == e;
                    assert(all[k] == e);
                } else if stopped_like(rest, e) {
                    let k = choose|k: int|
                        0 <= k < rest.len() && stopped_key(#[trigger] rest[k]) == stopped_key(e);
                    assert(stopped_key(all[k]) == stopped_key(e));
                } else {
                    let k = choose|k: int| 0 <= k < rest.len() && same_execution(
                        #[trigger] rest[k],
                        e,
                    );
                    assert(same_execution(all[k], e));
                }
            }
        }
    }
}

} // verus!
