//! Which bugs of a summary become issues.

use super::issues::{
    key_of_diagnostic, latent_candidate, latent_candidates, manifest_candidates, reported,
    CandidateV, IssueReportContext, LatentEntry, ReportV,
};
use crate::diagnostic::Diagnostic;
use vstd::prelude::*;

verus! {

/// The same bug has different keys as latent and as manifest, and two bugs have the
/// same key only if they have the same text.
pub proof fn law_diagnostic_keys(a: Diagnostic, b: Diagnostic, latent: bool)
    ensures
        key_of_diagnostic(a, true) != key_of_diagnostic(b, false),
        key_of_diagnostic(a, latent) == key_of_diagnostic(b, latent) <==> a.dedup_text()
            == b.dedup_text(),
{
    reveal_strlit("true|");
    reveal_strlit("false|");
    let (x, y) = (key_of_diagnostic(a, true), key_of_diagnostic(b, false));
    assert(x[0] == 't' && y[0] == 'f');
    let n = if latent {
        5int
    } else {
        6int
    };
    let (p, q) = (key_of_diagnostic(a, latent), key_of_diagnostic(b, latent));
    assert(p.skip(n) =~= a.dedup_text());
    assert(q.skip(n) =~= b.dedup_text());
}

/// Every issue is the issue of a candidate that may be reported, in the order of the
/// candidates, and the first of its key.
pub proof fn law_reported_from(cs: Seq<CandidateV>, ctx: IssueReportContext, k: int)
    requires
        0 <= k < reported(ReportV { issues: seq![], seen: seq![] }, cs, ctx).issues.len(),
    ensures
        ({
            let r = reported(ReportV { issues: seq![], seen: seq![] }, cs, ctx);
            exists|i: int|
                0 <= i < cs.len() && r.seen[k] == (#[trigger] cs[i]).key && (
                !cs[i].diagnostic.suppressed() || ctx.report_suppressed) && r.issues[k]
                    == cs[i].diagnostic.issue(
                    ctx.proc_name@,
                    ctx.procedure_start_line,
                    cs[i].latent,
                    cs[i].diagnostic.suppressed(),
                )
        }),
    decreases cs.len(),
{
    let start = ReportV { issues: seq![], seen: seq![] };
    let t = cs.drop_last();
    let before = reported(start, t, ctx);
    let r = reported(start, cs, ctx);
    super::issues::law_reported_once(t, ctx);
    if k < before.issues.len() {
        law_reported_from(t, ctx, k);
        let i = choose|i: int|
            0 <= i < t.len() && before.seen[k] == (#[trigger] t[i]).key && (
            !t[i].diagnostic.suppressed() || ctx.report_suppressed) && before.issues[k]
                == t[i].diagnostic.issue(
                ctx.proc_name@,
                ctx.procedure_start_line,
                t[i].latent,
                t[i].diagnostic.suppressed(),
            );
        assert(cs[i] == t[i]);
        assert(r.seen[k] == before.seen[k] && r.issues[k] == before.issues[k]);
    } else {
        assert(cs[cs.len() - 1] == cs.last());
    }
}

/// A latent bug is reported as such with its own error. An invalid access is too, but
/// where the procedure is known only if it may be, and then first with the error that
/// its state gives. Nothing else of a summary is a latent bug.
pub proof fn law_latent_candidate(e: LatentEntry, known: bool)
    ensures
        e.kind is LatentAbortProgram ==> match e.diagnostic {
            Some(d) => latent_candidate(e, known) matches Some(c) && c.diagnostic == d && c.latent
                && c.key == key_of_diagnostic(d, true),
            None => latent_candidate(e, known) is None,
        },
        e.kind is LatentInvalidAccess && known ==> {
            &&& latent_candidate(e, known) is Some <==> e.reportable && (e.from_state is Some
                || e.diagnostic is Some)
            &&& latent_candidate(e, known) matches Some(c) ==> c.latent && (if e.from_state is Some {
                e.from_state == Some(c.diagnostic)
            } else {
                e.diagnostic == Some(c.diagnostic)
            })
        },
        e.kind is LatentInvalidAccess && !known ==> {
            &&& latent_candidate(e, known) is Some <==> e.diagnostic is Some || e.from_export is Some
            &&& latent_candidate(e, known) matches Some(c) ==> c.latent && (if e.diagnostic is Some {
                e.diagnostic == Some(c.diagnostic)
            } else {
                e.from_export == Some(c.diagnostic)
            })
        },
        !(e.kind is LatentAbortProgram) && !(e.kind is LatentInvalidAccess) ==> latent_candidate(
            e,
            known,
        ) is None,
{
}

/// Each latent bug of a summary is a candidate, and each candidate is one.
pub proof fn law_latent_candidates(es: Seq<LatentEntry>, known: bool, c: CandidateV)
    ensures
        latent_candidates(es, known).contains(c) <==> exists|i: int|
            0 <= i < es.len() && latent_candidate(#[trigger] es[i], known) == Some(c),
    decreases es.len(),
{
    if es.len() > 0 {
        let t = es.drop_last();
        let rest = latent_candidates(t, known);
        let all = latent_candidates(es, known);
        law_latent_candidates(t, known, c);
        if all.contains(c) {
            let k = choose|k: int| 0 <= k < all.len() && all[k] == c;
            if k < rest.len() {
                assert(rest[k] == c);
                let i = choose|i: int|
                    0 <= i < t.len() && latent_candidate(#[trigger] t[i], known) == Some(c);
                assert(es[i] == t[i]);
            } else {
                assert(latent_candidate(es[es.len() - 1], known) == Some(c));
            }
        }
        if exists|i: int|
            0 <= i < es.len() && latent_candidate(#[trigger] es[i], known) == Some(c) {
            let i = choose|i: int|
                0 <= i < es.len() && latent_candidate(#[trigger] es[i], known) == Some(c);
            if i < t.len() {
                assert(t[i] == es[i]);
                let k = choose|k: int| 0 <= k < rest.len() && rest[k] == c;
                assert(all[k] == c);
            } else {
                assert(all[rest.len() as int] == c);
            }
        }
    }
}

/// Each error of a summary is a candidate for a manifest issue under its own key.
pub proof fn law_manifest_candidates(ds: Seq<Diagnostic>, i: int)
    requires
        0 <= i < ds.len(),
    ensures
        manifest_candidates(ds).len() == ds.len(),
        manifest_candidates(ds)[i].diagnostic == ds[i],
        !manifest_candidates(ds)[i].latent,
        manifest_candidates(ds)[i].key == key_of_diagnostic(ds[i], false),
{
}

} // verus!
