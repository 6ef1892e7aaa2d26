//! Which errors and which stopped paths the scan of a procedure keeps.

use super::procedure::{exit_states, law_published_once, scanned_nodes, NodeStatesV};
use super::scan::{
    held_in, law_scan_publishes_once, node_in, originates, published, recovering,
    recovering_accesses, same_execution, scan_wf, scanned, scanned_all, source_file, stopped_key,
    stopped_like, AnswerV, PrePostKind, ScanV,
};
use crate::diagnostic::Diagnostic;
use crate::execution_domain::{ExecutionKind, ExecutionV};
use crate::key::Keyed;
use crate::sil::{Location, Node};
use crate::state_same::law_same_state;
use vstd::prelude::*;

verus! {

/// The path stopped in an error of the procedure that is certain and may be
/// published.
pub open spec fn certain(nodes: Seq<Node>, e: ExecutionV, answer: AnswerV) -> bool {
    &&& e.kind == ExecutionKind::Abort
    &&& answer matches AnswerV::Abort { kind, publish } && kind == PrePostKind::AbortProgram
        && publish
    &&& e.diagnostic matches Some(d) && originates(nodes, d.location())
}

/// An error with this text is among the published ones.
pub open spec fn reported(s: Seq<Diagnostic>, text: Seq<char>) -> bool {
    exists|i: int| 0 <= i < s.len() && (#[trigger] s[i]).dedup_text() == text
}

/// A path that stopped in the same way, in an error with this text, is kept.
pub open spec fn keeps_error(s: Seq<ExecutionV>, kind: ExecutionKind, text: Seq<char>) -> bool {
    exists|i: int|
        0 <= i < s.len() && ((#[trigger] s[i]).diagnostic matches Some(d) && d.dedup_text() == text)
            && (s[i].kind == kind || (s[i].kind != ExecutionKind::Abort && s[i].kind
            != ExecutionKind::LatentAbort && kind != ExecutionKind::Abort && kind
            != ExecutionKind::LatentAbort))
}

proof fn lemma_stopped(s: Seq<ExecutionV>, e: ExecutionV)
    requires
        stopped_like(s, e),
        e.diagnostic is Some,
    ensures
        keeps_error(s, e.kind, (e.diagnostic->0).dedup_text()),
{
    let i = choose|i: int| 0 <= i < s.len() && stopped_key(#[trigger] s[i]) == stopped_key(e);
    assert(s[i].diagnostic is Some);
    assert((s[i].diagnostic->0).dedup_text() == (e.diagnostic->0).dedup_text());
}

proof fn lemma_recovering(m: ScanV, e: ExecutionV)
    requires
        e.diagnostic is Some,
    ensures
        keeps_error(recovering(m, e).recovered, e.kind, (e.diagnostic->0).dedup_text()),
        forall|x: ExecutionV|
            #[trigger] recovering(m, e).recovered.contains(x) ==> m.recovered.contains(x) || x == e,
{
    let r = recovering(m, e).recovered;
    if stopped_like(m.recovered, e) {
        lemma_stopped(m.recovered, e);
    } else {
        assert(r[m.recovered.len() as int] == e);
        assert forall|x: ExecutionV| #[trigger] r.contains(x) implies m.recovered.contains(x) || x
            == e by {
            let i = choose|i: int| 0 <= i < r.len() && r[i] == x;
            if i < m.recovered.len() {
                assert(m.recovered[i] == x);
            }
        }
    }
}

proof fn lemma_publishing(m: ScanV, d: Diagnostic, x: Diagnostic)
    requires
        scan_wf(m),
    ensures
        reported(published(m, d).diagnostics, d.dedup_text()),
        published(m, d).diagnostics.contains(x) ==> m.diagnostics.contains(x) || x == d,
{
    let r = published(m, d).diagnostics;
    if m.seen.contains(d.dedup_text()) {
        let i = choose|i: int| 0 <= i < m.seen.len() && m.seen[i] == d.dedup_text();
        assert(r[i].dedup_text() == d.dedup_text());
    } else {
        assert(r[m.diagnostics.len() as int] == d);
        if r.contains(x) {
            let i = choose|i: int| 0 <= i < r.len() && r[i] == x;
            if i < m.diagnostics.len() {
                assert(m.diagnostics[i] == x);
            }
        }
    }
}

/// Each certain error of a state is published, and no other error is.
pub proof fn law_certain_is_published(
    m: ScanV,
    nodes: Seq<Node>,
    normal: bool,
    e: ExecutionV,
    answer: AnswerV,
    x: Diagnostic,
)
    requires
        scan_wf(m),
    ensures
        certain(nodes, e, answer) ==> reported(
            scanned(m, nodes, normal, e, answer).diagnostics,
            (e.diagnostic->0).dedup_text(),
        ),
        scanned(m, nodes, normal, e, answer).diagnostics.contains(x) ==> m.diagnostics.contains(x)
            || (certain(nodes, e, answer) && e.diagnostic == Some(x)),
{
    if let Some(d) = e.diagnostic {
        lemma_publishing(m, d, x);
    }
    if let AnswerV::Recovered(s) = answer {
        lemma_accesses_publish_nothing(m, nodes, s);
    }
}

proof fn lemma_accesses_publish_nothing(m: ScanV, nodes: Seq<Node>, s: Seq<ExecutionV>)
    ensures
        recovering_accesses(m, nodes, s).diagnostics == m.diagnostics,
    decreases s.len(),
{
    if s.len() > 0 {
        lemma_accesses_publish_nothing(m, nodes, s.drop_last());
    }
}

/// The invalid access of a path that goes on belongs to the summary.
pub open spec fn reportable(nodes: Seq<Node>, e: ExecutionV) -> bool {
    &&& e.kind == ExecutionKind::Abort || e.kind == ExecutionKind::LatentInvalid
    &&& e.diagnostic matches Some(d) && originates(nodes, d.location())
}

/// Of the invalid accesses found, those of the procedure are kept, and no others.
pub proof fn law_accesses_kept(
    m: ScanV,
    nodes: Seq<Node>,
    s: Seq<ExecutionV>,
    e: ExecutionV,
)
    ensures
        s.contains(e) && reportable(nodes, e) ==> held_in(
            recovering_accesses(m, nodes, s).recovered,
            e,
        ),
        recovering_accesses(m, nodes, s).recovered.contains(e) ==> m.recovered.contains(e) || (
        s.contains(e) && reportable(nodes, e)),
    decreases s.len(),
{
    if s.len() > 0 {
        let t = s.drop_last();
        let rest = recovering_accesses(m, nodes, t);
        let all = recovering_accesses(m, nodes, s);
        law_accesses_kept(m, nodes, t, e);
        law_same_state(e.state, e.state, e.state);
        assert(same_execution(e, e));
        if s.contains(e) && reportable(nodes, e) {
            let i = choose|i: int| 0 <= i < s.len() && s[i] == e;
            if i < t.len() {
                assert(t[i] == e);
                let k = choose|k: int|
                    0 <= k < rest.recovered.len() && same_execution(
                        #[trigger] rest.recovered[k],
                        e,
                    );
                assert(all.recovered[k] == rest.recovered[k]);
            } else if !held_in(rest.recovered, e) {
                assert(all.recovered[rest.recovered.len() as int] == e);
            }
        }
        if t.contains(e) {
            let i = choose|i: int| 0 <= i < t.len() && t[i] == e;
            assert(s[i] == e);
        }
        if all.recovered.contains(e) {
            let i = choose|i: int| 0 <= i < all.recovered.len() && all.recovered[i] == e;
            if i < rest.recovered.len() {
                assert(rest.recovered[i] == e);
            } else {
                assert(s[s.len() - 1] == e);
            }
        }
    }
}

/// The path as it belongs to the summary before its normal exit: a latent error, or
/// an error that is classified as latent.
pub open spec fn kept_as(e: ExecutionV, answer: AnswerV) -> Option<ExecutionKind> {
    match e.kind {
        ExecutionKind::LatentAbort => Some(ExecutionKind::LatentAbort),
        ExecutionKind::LatentInvalid => Some(ExecutionKind::LatentInvalid),
        ExecutionKind::Abort => match answer {
            AnswerV::Abort { kind: PrePostKind::LatentAbortProgram, .. } => Some(
                ExecutionKind::LatentAbort,
            ),
            AnswerV::Abort { kind: PrePostKind::LatentInvalidAccess, .. } => Some(
                ExecutionKind::LatentInvalid,
            ),
            _ => None,
        },
        _ => None,
    }
}

/// Each latent error of a state is kept for the summary; where no path reaches the
/// exit normally, so is each invalid access of a path that goes on. Nothing else is.
pub proof fn law_latent_is_kept(
    m: ScanV,
    nodes: Seq<Node>,
    normal: bool,
    e: ExecutionV,
    answer: AnswerV,
    x: ExecutionV,
)
    requires
        e.kind == ExecutionKind::LatentAbort || e.kind == ExecutionKind::LatentInvalid
            ==> e.diagnostic is Some,
    ensures
        e.diagnostic matches Some(d) ==> (kept_as(e, answer) matches Some(kind) ==> keeps_error(
            scanned(m, nodes, normal, e, answer).recovered,
            kind,
            d.dedup_text(),
        )),
        e.kind == ExecutionKind::Continue && !normal ==> (answer matches AnswerV::Recovered(s)
            ==> s.contains(x) && reportable(nodes, x) ==> held_in(
            scanned(m, nodes, normal, e, answer).recovered,
            x,
        )),
        scanned(m, nodes, normal, e, answer).recovered.contains(x) ==> m.recovered.contains(x) || (
        kept_as(e, answer) matches Some(kind) && x == (ExecutionV { kind, ..e })) || (e.kind
            == ExecutionKind::Continue && !normal && (answer matches AnswerV::Recovered(s)
            && s.contains(x) && reportable(nodes, x))),
{
    if let AnswerV::Recovered(s) = answer {
        law_accesses_kept(m, nodes, s, x);
    }
    if let Some(kind) = kept_as(e, answer) {
        if let Some(d) = e.diagnostic {
            let latent = ExecutionV { kind, ..e };
            lemma_recovering(m, latent);
            lemma_recovering(published(m, d), latent);
            assert(published(m, d).recovered == m.recovered);
        }
    }
}

proof fn lemma_scanned_all(
    m: ScanV,
    nodes: Seq<Node>,
    normal: bool,
    s: Seq<ExecutionV>,
    a: Seq<AnswerV>,
    i: int,
    x: Diagnostic,
)
    requires
        scan_wf(m),
    ensures
        scan_wf(scanned_all(m, nodes, normal, s, a)),
        m.diagnostics.is_prefix_of(scanned_all(m, nodes, normal, s, a).diagnostics),
        0 <= i < s.len() && certain(nodes, s[i], a[i]) ==> reported(
            scanned_all(m, nodes, normal, s, a).diagnostics,
            (s[i].diagnostic->0).dedup_text(),
        ),
        scanned_all(m, nodes, normal, s, a).diagnostics.contains(x) ==> m.diagnostics.contains(x)
            || exists|k: int|
            0 <= k < s.len() && certain(nodes, #[trigger] s[k], a[k]) && s[k].diagnostic == Some(x),
    decreases s.len(),
{
    if s.len() > 0 {
        let t = s.drop_last();
        let rest = scanned_all(m, nodes, normal, t, a);
        let all = scanned_all(m, nodes, normal, s, a);
        let last = s.len() - 1;
        lemma_scanned_all(m, nodes, normal, t, a, i, x);
        law_scan_publishes_once(rest, nodes, normal, s.last(), a[last]);
        law_certain_is_published(rest, nodes, normal, s.last(), a[last], x);
        assert(rest.diagnostics.is_prefix_of(all.diagnostics));
        if 0 <= i < t.len() && certain(nodes, s[i], a[i]) {
            assert(t[i] == s[i]);
            let text = (s[i].diagnostic->0).dedup_text();
            let k = choose|k: int|
                0 <= k < rest.diagnostics.len() && (#[trigger] rest.diagnostics[k]).dedup_text()
                    == text;
            assert(all.diagnostics[k].dedup_text() == text);
        }
        if all.diagnostics.contains(x) && !m.diagnostics.contains(x) {
            if rest.diagnostics.contains(x) {
                let k = choose|k: int|
                    0 <= k < t.len() && certain(nodes, #[trigger] t[k], a[k]) && t[k].diagnostic
                        == Some(x);
                assert(certain(nodes, s[k], a[k]));
            } else {
                assert(certain(nodes, s[last], a[last]));
            }
        }
    }
}

/// Every certain error of the procedure at a node other than the exit is published,
/// by itself or by one with the same key.
pub proof fn law_procedure_publishes(
    s: Seq<NodeStatesV>,
    exit: usize,
    nodes: Seq<Node>,
    normal: bool,
    n: int,
    i: int,
)
    requires
        0 <= n < s.len(),
        s[n].node != exit,
        0 <= i < s[n].states.len(),
        certain(nodes, s[n].states[i], s[n].answers[i]),
    ensures
        reported(
            scanned_nodes(s, exit, nodes, normal).diagnostics,
            (s[n].states[i].diagnostic->0).dedup_text(),
        ),
    decreases s.len(),
{
    let t = s.drop_last();
    let rest = scanned_nodes(t, exit, nodes, normal);
    let all = scanned_nodes(s, exit, nodes, normal);
    let d = s[n].states[i].diagnostic->0;
    law_published_once(t, exit, nodes, normal);
    lemma_scanned_all(rest, nodes, normal, s.last().states, s.last().answers, i, d);
    if n < t.len() {
        assert(t[n] == s[n]);
        law_procedure_publishes(t, exit, nodes, normal, n, i);
        let k = choose|k: int|
            0 <= k < rest.diagnostics.len() && (#[trigger] rest.diagnostics[k]).dedup_text()
                == d.dedup_text();
        assert(rest.diagnostics.is_prefix_of(all.diagnostics));
        assert(all.diagnostics[k].dedup_text() == d.dedup_text());
    }
}

/// Every error published is a certain error of the procedure at a node other than
/// the exit.
pub proof fn law_procedure_publishes_only_certain(
    s: Seq<NodeStatesV>,
    exit: usize,
    nodes: Seq<Node>,
    normal: bool,
    x: Diagnostic,
)
    requires
        scanned_nodes(s, exit, nodes, normal).diagnostics.contains(x),
    ensures
        exists|n: int, i: int|
            0 <= n < s.len() && s[n].node != exit && 0 <= i < s[n].states.len() && certain(
                nodes,
                #[trigger] s[n].states[i],
                s[n].answers[i],
            ) && s[n].states[i].diagnostic == Some(x),
    decreases s.len(),
{
    if s.len() > 0 {
        let t = s.drop_last();
        let rest = scanned_nodes(t, exit, nodes, normal);
        law_published_once(t, exit, nodes, normal);
        lemma_scanned_all(rest, nodes, normal, s.last().states, s.last().answers, 0, x);
        if rest.diagnostics.contains(x) {
            law_procedure_publishes_only_certain(t, exit, nodes, normal, x);
            let (n, i) = choose|n: int, i: int|
                0 <= n < t.len() && t[n].node != exit && 0 <= i < t[n].states.len() && certain(
                    nodes,
                    #[trigger] t[n].states[i],
                    t[n].answers[i],
                ) && t[n].states[i].diagnostic == Some(x);
            assert(s[n] == t[n]);
            assert(certain(nodes, s[n].states[i], s[n].answers[i]));
        } else {
            let last = s.len() - 1;
            let k = choose|k: int|
                0 <= k < s.last().states.len() && certain(
                    nodes,
                    #[trigger] s.last().states[k],
                    s.last().answers[k],
                ) && s.last().states[k].diagnostic == Some(x);
            assert(certain(nodes, s[last].states[k], s[last].answers[k]));
        }
    }
}

proof fn lemma_all_keep(
    m: ScanV,
    nodes: Seq<Node>,
    normal: bool,
    s: Seq<ExecutionV>,
    a: Seq<AnswerV>,
    i: int,
)
    requires
        scan_wf(m),
        forall|k: int| 0 <= k < s.len() ==> stopped_has_error(#[trigger] s[k]),
    ensures
        m.recovered.is_prefix_of(scanned_all(m, nodes, normal, s, a).recovered),
        0 <= i < s.len() && s[i].diagnostic is Some ==> (kept_as(s[i], a[i]) matches Some(kind)
            ==> keeps_error(
            scanned_all(m, nodes, normal, s, a).recovered,
            kind,
            (s[i].diagnostic->0).dedup_text(),
        )),
    decreases s.len(),
{
    if s.len() > 0 {
        let t = s.drop_last();
        let rest = scanned_all(m, nodes, normal, t, a);
        let last = s.len() - 1;
        assert forall|k: int| 0 <= k < t.len() implies stopped_has_error(#[trigger] t[k]) by {
            assert(t[k] == s[k]);
        }
        lemma_all_keep(m, nodes, normal, t, a, i);
        lemma_scanned_all(m, nodes, normal, t, a, 0, arbitrary());
        law_scan_publishes_once(rest, nodes, normal, s.last(), a[last]);
        assert(stopped_has_error(s[last]));
        law_latent_is_kept(rest, nodes, normal, s.last(), a[last], s.last());
        let all = scanned_all(m, nodes, normal, s, a);
        if 0 <= i < t.len() && s[i].diagnostic is Some {
            if let Some(kind) = kept_as(s[i], a[i]) {
                lemma_keeps_prefix(
                    rest.recovered,
                    all.recovered,
                    kind,
                    (s[i].diagnostic->0).dedup_text(),
                );
            }
        }
    }
}

/// A path that stopped in a latent error has one.
pub open spec fn stopped_has_error(e: ExecutionV) -> bool {
    e.kind == ExecutionKind::LatentAbort || e.kind == ExecutionKind::LatentInvalid
        ==> e.diagnostic is Some
}

proof fn lemma_keeps_prefix(
    s: Seq<ExecutionV>,
    t: Seq<ExecutionV>,
    kind: ExecutionKind,
    text: Seq<char>,
)
    requires
        s.is_prefix_of(t),
        keeps_error(s, kind, text),
    ensures
        keeps_error(t, kind, text),
{
    let i = choose|i: int|
        0 <= i < s.len() && ((#[trigger] s[i]).diagnostic matches Some(d) && d.dedup_text() == text)
            && (s[i].kind == kind || (s[i].kind != ExecutionKind::Abort && s[i].kind
            != ExecutionKind::LatentAbort && kind != ExecutionKind::Abort && kind
            != ExecutionKind::LatentAbort));
    assert(t[i] == s[i]);
}

/// Every latent error at a node other than the exit is kept for the summary, by
/// itself or by one that stopped in the same way in an error with the same key.
pub proof fn law_procedure_keeps_latent(
    s: Seq<NodeStatesV>,
    exit: usize,
    nodes: Seq<Node>,
    normal: bool,
    n: int,
    i: int,
)
    requires
        0 <= n < s.len(),
        s[n].node != exit,
        0 <= i < s[n].states.len(),
        s[n].states[i].diagnostic is Some,
        kept_as(s[n].states[i], s[n].answers[i]) is Some,
        forall|j: int, k: int|
            0 <= j < s.len() && 0 <= k < s[j].states.len() ==> stopped_has_error(
                #[trigger] s[j].states[k],
            ),
    ensures
        keeps_error(
            scanned_nodes(s, exit, nodes, normal).recovered,
            kept_as(s[n].states[i], s[n].answers[i])->0,
            (s[n].states[i].diagnostic->0).dedup_text(),
        ),
    decreases s.len(),
{
    let t = s.drop_last();
    let rest = scanned_nodes(t, exit, nodes, normal);
    let last = s.len() - 1;
    law_published_once(t, exit, nodes, normal);
    assert forall|k: int| 0 <= k < s.last().states.len() implies stopped_has_error(
        #[trigger] s.last().states[k],
    ) by {
        assert(stopped_has_error(s[last].states[k]));
    }
    lemma_all_keep(rest, nodes, normal, s.last().states, s.last().answers, i);
    if n < t.len() {
        assert(t[n] == s[n]);
        assert forall|j: int, k: int|
            0 <= j < t.len() && 0 <= k < t[j].states.len() implies stopped_has_error(
            #[trigger] t[j].states[k],
        ) by {
            assert(stopped_has_error(s[j].states[k]));
        }
        law_procedure_keeps_latent(t, exit, nodes, normal, n, i);
        lemma_keeps_prefix(
            rest.recovered,
            scanned_nodes(s, exit, nodes, normal).recovered,
            kept_as(s[n].states[i], s[n].answers[i])->0,
            (s[n].states[i].diagnostic->0).dedup_text(),
        );
    }
}

/// The file of a procedure is that of a node that has a location; there is none only
/// where no node has one.
pub proof fn law_source_file(nodes: Seq<Node>, i: int)
    ensures
        source_file(nodes) matches Some(file) ==> exists|k: int|
            0 <= k < nodes.len() && (#[trigger] nodes[k]).loc != Location::nowhere()
                && nodes[k].loc.file == file,
        source_file(nodes) is None && 0 <= i < nodes.len() ==> nodes[i].loc == Location::nowhere(),
    decreases nodes.len(),
{
    if nodes.len() > 0 {
        let t = nodes.drop_first();
        law_source_file(t, i - 1);
        if nodes[0].loc == Location::nowhere() {
            if let Some(file) = source_file(t) {
                let k = choose|k: int|
                    0 <= k < t.len() && (#[trigger] t[k]).loc != Location::nowhere()
                        && t[k].loc.file == file;
                assert(nodes[k + 1] == t[k]);
            }
            if 0 < i < nodes.len() {
                assert(t[i - 1] == nodes[i]);
            }
        }
    }
}

/// A bug at a node of the file of the procedure is one of the procedure. One in another
/// file, or above or below all nodes of the file, is not.
pub proof fn law_originates(nodes: Seq<Node>, loc: Location, i: int)
    ensures
        0 <= i < nodes.len() && nodes[i].loc == loc && (source_file(nodes) matches Some(file)
            && loc.file.key() == file.key()) ==> originates(nodes, loc),
        loc != Location::nowhere() && (source_file(nodes) matches Some(file) && loc.file.key()
            != file.key()) ==> !originates(nodes, loc),
        loc != Location::nowhere() && source_file(nodes) is Some && (forall|k: int|
            0 <= k < nodes.len() && (#[trigger] nodes[k]).loc != Location::nowhere()
                ==> nodes[k].loc.line < loc.line) ==> !originates(nodes, loc),
        loc != Location::nowhere() && source_file(nodes) is Some && (forall|k: int|
            0 <= k < nodes.len() && (#[trigger] nodes[k]).loc != Location::nowhere() ==> loc.line
                < nodes[k].loc.line) ==> !originates(nodes, loc),
        originates(nodes, Location::nowhere()),
{
    if let Some(file) = source_file(nodes) {
        if 0 <= i < nodes.len() && nodes[i].loc == loc && loc.file.key() == file.key() && loc
            != Location::nowhere() {
            assert(node_in(nodes[i], file));
        }
    }
}

/// The states at the exit are those of the last node with the number of the exit, and
/// none where no node has it.
pub proof fn law_exit_states(s: Seq<NodeStatesV>, exit: usize, n: int)
    ensures
        0 <= n < s.len() && s[n].node == exit && (forall|k: int|
            n < k < s.len() ==> (#[trigger] s[k]).node != exit) ==> exit_states(s, exit)
            == s[n].states,
        (forall|k: int| 0 <= k < s.len() ==> (#[trigger] s[k]).node != exit) ==> exit_states(
            s,
            exit,
        ).len() == 0,
    decreases s.len(),
{
    if s.len() > 0 {
        let t = s.drop_last();
        let last = s.len() - 1;
        law_exit_states(t, exit, n);
        assert(s[last] == s.last());
        if forall|k: int| 0 <= k < s.len() ==> (#[trigger] s[k]).node != exit {
            assert forall|k: int| 0 <= k < t.len() implies (#[trigger] t[k]).node != exit by {
                assert(t[k] == s[k]);
            }
        }
        if 0 <= n < last && s[n].node == exit && (forall|k: int|
            n < k < s.len() ==> (#[trigger] s[k]).node != exit) {
            assert(t[n] == s[n]);
            assert forall|k: int| n < k < t.len() implies (#[trigger] t[k]).node != exit by {
                assert(t[k] == s[k]);
            }
        }
    }
}

} // verus!
