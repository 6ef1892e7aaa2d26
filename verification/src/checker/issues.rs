//! Issues: which diagnostics of a procedure are reported, and how.

use super::scan::{has_text, text_views, PrePostKind};
use crate::diagnostic::{Diagnostic, Issue, IssueV};
use vstd::prelude::*;

verus! {

/// What the issues of a procedure are reported with.
pub struct IssueReportContext {
    pub proc_name: String,
    pub procedure_start_line: Option<u32>,
    pub report_suppressed: bool,
}

/// What a pre/post of a summary says about a bug that depends on the caller.
pub struct LatentEntry {
    pub kind: PrePostKind,
    /// The diagnostic that the pre/post carries.
    pub diagnostic: Option<Diagnostic>,
    /// The diagnostic that its state gives.
    pub from_state: Option<Diagnostic>,
    /// The diagnostic that its exported form gives.
    pub from_export: Option<Diagnostic>,
    /// Whether an invalid access that it exports may be reported.
    pub reportable: bool,
    /// What identifies an invalid access that it exports.
    pub report_key: Option<String>,
}

/// A diagnostic to report, with what identifies it.
pub struct Candidate {
    pub diagnostic: Diagnostic,
    pub key: String,
    pub latent: bool,
}

/// What a [`Candidate`] stands for.
pub struct CandidateV {
    pub diagnostic: Diagnostic,
    pub key: Seq<char>,
    pub latent: bool,
}

impl View for Candidate {
    type V = CandidateV;

    open spec fn view(&self) -> CandidateV {
        CandidateV { diagnostic: self.diagnostic, key: self.key@, latent: self.latent }
    }
}

/// What identifies a diagnostic: the same bug is reported once as latent and once
/// as manifest.
pub open spec fn key_of_diagnostic(diagnostic: Diagnostic, latent: bool) -> Seq<char> {
    if latent {
        "true|"@ + diagnostic.dedup_text()
    } else {
        "false|"@ + diagnostic.dedup_text()
    }
}

/// What identifies a diagnostic.
pub fn diagnostic_dedup_key(diagnostic: &Diagnostic, latent: bool) -> (r: String)
    ensures
        r@ == key_of_diagnostic(*diagnostic, latent),
{
    let mut out = if latent {
        "true|".to_string()
    } else {
        "false|".to_string()
    };
    let key = diagnostic.dedup_key();
    out.append(key.as_str());
    out
}

/// The first of two optional diagnostics.
pub open spec fn first_of(a: Option<Diagnostic>, b: Option<Diagnostic>) -> Option<Diagnostic> {
    if a is Some {
        a
    } else {
        b
    }
}

/// What a pre/post has to report. When the procedure is known, an invalid access
/// is reported only where its state shows it, with the key that the state gives.
pub open spec fn latent_candidate(e: LatentEntry, with_procedure: bool) -> Option<CandidateV> {
    let (diagnostic, key) = if e.kind is LatentAbortProgram {
        (e.diagnostic, None)
    } else if e.kind is LatentInvalidAccess && with_procedure {
        if e.reportable {
            (first_of(e.from_state, e.diagnostic), e.report_key)
        } else {
            (None, None)
        }
    } else if e.kind is LatentInvalidAccess {
        (first_of(e.diagnostic, e.from_export), None)
    } else {
        (None, None)
    };
    match diagnostic {
        None => None,
        Some(d) => Some(
            CandidateV {
                diagnostic: d,
                key: match key {
                    Some(k) => "true|"@ + k@,
                    None => key_of_diagnostic(d, true),
                },
                latent: true,
            },
        ),
    }
}

fn candidate_for(diagnostic: &Diagnostic, key: &Option<String>) -> (r: Candidate)
    ensures
        r@ == (CandidateV {
            diagnostic: *diagnostic,
            key: match key {
                Some(k) => "true|"@ + k@,
                None => key_of_diagnostic(*diagnostic, true),
            },
            latent: true,
        }),
{
    let key = match key {
        Some(k) => {
            let mut out = "true|".to_string();
            out.append(k.as_str());
            out
        },
        None => diagnostic_dedup_key(diagnostic, true),
    };
    Candidate { diagnostic: diagnostic.clone(), key, latent: true }
}

/// What a pre/post has to report.
pub fn latent_report(e: &LatentEntry, with_procedure: bool) -> (r: Option<Candidate>)
    ensures
        latent_candidate(*e, with_procedure) == (match r {
            Some(c) => Some(c@),
            None => None,
        }),
{
    let none: Option<String> = None;
    match e.kind {
        PrePostKind::LatentAbortProgram => match &e.diagnostic {
            Some(d) => Some(candidate_for(d, &none)),
            None => None,
        },
        PrePostKind::LatentInvalidAccess => if with_procedure {
            if !e.reportable {
                None
            } else {
                match (&e.from_state, &e.diagnostic) {
                    (Some(d), _) => Some(candidate_for(d, &e.report_key)),
                    (None, Some(d)) => Some(candidate_for(d, &e.report_key)),
                    (None, None) => None,
                }
            }
        } else {
            match (&e.diagnostic, &e.from_export) {
                (Some(d), _) => Some(candidate_for(d, &none)),
                (None, Some(d)) => Some(candidate_for(d, &none)),
                (None, None) => None,
            }
        },
        _ => None,
    }
}

/// The issues reported so far, and what identifies them.
#[verifier::ext_equal]
pub struct ReportV {
    pub issues: Seq<IssueV>,
    pub seen: Seq<Seq<char>>,
}

/// The issues reported so far, and what identifies them.
pub struct IssueReport {
    pub issues: Vec<Issue>,
    pub seen: Vec<String>,
}

/// What issues stand for.
pub open spec fn issue_views(s: Seq<Issue>) -> Seq<IssueV> {
    s.map_values(|i: Issue| i@)
}

impl View for IssueReport {
    type V = ReportV;

    open spec fn view(&self) -> ReportV {
        ReportV { issues: issue_views(self.issues@), seen: text_views(self.seen@) }
    }
}

/// `r` with `c` reported, unless it is suppressed or was reported before.
pub open spec fn report_step(r: ReportV, c: CandidateV, ctx: IssueReportContext) -> ReportV {
    if c.diagnostic.suppressed() && !ctx.report_suppressed {
        r
    } else if r.seen.contains(c.key) {
        r
    } else {
        ReportV {
            issues: r.issues.push(
                c.diagnostic.issue(
                    ctx.proc_name@,
                    ctx.procedure_start_line,
                    c.latent,
                    c.diagnostic.suppressed(),
                ),
            ),
            seen: r.seen.push(c.key),
        }
    }
}

/// `r` with all of `cs` reported, in their order.
pub open spec fn reported(r: ReportV, cs: Seq<CandidateV>, ctx: IssueReportContext) -> ReportV
    decreases cs.len(),
{
    if cs.len() == 0 {
        r
    } else {
        report_step(reported(r, cs.drop_last(), ctx), cs.last(), ctx)
    }
}

/// The diagnostics of a summary, each to be reported as manifest.
pub open spec fn manifest_candidates(ds: Seq<Diagnostic>) -> Seq<CandidateV> {
    ds.map_values(
        |d: Diagnostic|
            CandidateV { diagnostic: d, key: key_of_diagnostic(d, false), latent: false },
    )
}

/// What the pre/posts of a summary have to report, in their order.
pub open spec fn latent_candidates(es: Seq<LatentEntry>, with_procedure: bool) -> Seq<CandidateV>
    decreases es.len(),
{
    if es.len() == 0 {
        seq![]
    } else {
        match latent_candidate(es.last(), with_procedure) {
            Some(c) => latent_candidates(es.drop_last(), with_procedure).push(c),
            None => latent_candidates(es.drop_last(), with_procedure),
        }
    }
}

impl IssueReport {
    /// Nothing reported yet.
    pub fn new() -> (r: IssueReport)
        ensures
            r@ == (ReportV { issues: seq![], seen: seq![] }),
    {
        let r = IssueReport { issues: Vec::new(), seen: Vec::new() };
        assert(r@ =~= (ReportV { issues: seq![], seen: seq![] }));
        r
    }

    /// Reports a diagnostic, unless it is suppressed or was reported before.
    pub fn report_diagnostic_issue(&mut self, c: &Candidate, ctx: &IssueReportContext)
        requires
            c.diagnostic.countable(),
        ensures
            final(self)@ == report_step(old(self)@, c@, *ctx),
    {
        let suppressed = c.diagnostic.is_suppressed();
        if suppressed && !ctx.report_suppressed {
            return;
        }
        if has_text(&self.seen, &c.key) {
            return;
        }
        let issue = c.diagnostic.to_issue_with_context(
            ctx.proc_name.as_str(),
            ctx.procedure_start_line,
            c.latent,
            suppressed,
        );
        let ghost before = self@;
        self.seen.push(c.key.clone());
        self.issues.push(issue);
        assert(self@.seen =~= before.seen.push(c.key@));
        assert(self@.issues =~= before.issues.push(issue@));
    }
}

/// The issues of a procedure, in the order in which they were found: first the
/// diagnostics of its summary, then what its pre/posts say about callers.
/// `with_procedure` tells whether the procedure itself is at hand.
pub fn to_issue_log(
    diagnostics: &Vec<Diagnostic>,
    pre_posts: &Vec<LatentEntry>,
    ctx: &IssueReportContext,
    with_procedure: bool,
) -> (r: Vec<Issue>)
    requires
        forall|i: int|
            0 <= i < diagnostics@.len() ==> (#[trigger] diagnostics@[i]).countable(),
        forall|i: int|
            0 <= i < pre_posts@.len() ==> (latent_candidate(
                #[trigger] pre_posts@[i],
                with_procedure,
            ) matches Some(c) ==> c.diagnostic.countable()),
    ensures
        issue_views(r@) == reported(
            ReportV { issues: seq![], seen: seq![] },
            manifest_candidates(diagnostics@) + latent_candidates(pre_posts@, with_procedure),
            *ctx,
        ).issues,
{
    let ghost start = ReportV { issues: seq![], seen: seq![] };
    let ghost manifest = manifest_candidates(diagnostics@);
    let mut report = IssueReport::new();
    let mut i: usize = 0;
    while i < diagnostics.len()
        invariant
            i <= diagnostics@.len(),
            manifest == manifest_candidates(diagnostics@),
            forall|i: int|
                0 <= i < diagnostics@.len() ==> (#[trigger] diagnostics@[i]).countable(),
            report@ == reported(start, manifest.take(i as int), *ctx),
        decreases diagnostics@.len() - i,
    {
        let ghost t = manifest.take(i + 1);
        assert(t.drop_last() =~= manifest.take(i as int));
        assert(t.last() == manifest[i as int]);
        let c = Candidate {
            diagnostic: diagnostics[i].clone(),
            key: diagnostic_dedup_key(&diagnostics[i], false),
            latent: false,
        };
        assert(c@ == manifest[i as int]);
        report.report_diagnostic_issue(&c, ctx);
        i = i + 1;
    }
    assert(manifest.take(i as int) =~= manifest);
    let mut j: usize = 0;
    assert(pre_posts@.take(0) =~= Seq::<LatentEntry>::empty());
    assert(manifest + latent_candidates(pre_posts@.take(0), with_procedure) =~= manifest);
    while j < pre_posts.len()
        invariant
            j <= pre_posts@.len(),
            forall|i: int|
                0 <= i < pre_posts@.len() ==> (latent_candidate(
                    #[trigger] pre_posts@[i],
                    with_procedure,
                ) matches Some(c) ==> c.diagnostic.countable()),
            report@ == reported(
                start,
                manifest + latent_candidates(pre_posts@.take(j as int), with_procedure),
                *ctx,
            ),
        decreases pre_posts@.len() - j,
    {
        let ghost t = pre_posts@.take(j + 1);
        let ghost before = manifest + latent_candidates(
            pre_posts@.take(j as int),
            with_procedure,
        );
        assert(t.drop_last() =~= pre_posts@.take(j as int));
        assert(t.last() == pre_posts@[j as int]);
        if let Some(c) = latent_report(&pre_posts[j], with_procedure) {
            let ghost after = manifest + latent_candidates(t, with_procedure);
            assert(after =~= before.push(c@));
            assert(after.drop_last() =~= before);
            report.report_diagnostic_issue(&c, ctx);
        }
        j = j + 1;
    }
    assert(pre_posts@.take(j as int) =~= pre_posts@);
    report.issues
}

/// No two reported issues have the same key, and there are as many keys as issues.
pub proof fn law_reported_once(cs: Seq<CandidateV>, ctx: IssueReportContext)
    ensures
        ({
            let r = reported(ReportV { issues: seq![], seen: seq![] }, cs, ctx);
            &&& r.seen.no_duplicates()
            &&& r.issues.len() == r.seen.len()
        }),
    decreases cs.len(),
{
    if cs.len() > 0 {
        law_reported_once(cs.drop_last(), ctx);
    }
}

/// A diagnostic that may be reported is: afterwards its key is among the reported
/// ones. A suppressed one is left out unless the context asks for it.
pub proof fn law_reported_all(cs: Seq<CandidateV>, ctx: IssueReportContext, i: int)
    requires
        0 <= i < cs.len(),
        !cs[i].diagnostic.suppressed() || ctx.report_suppressed,
    ensures
        reported(ReportV { issues: seq![], seen: seq![] }, cs, ctx).seen.contains(cs[i].key),
    decreases cs.len(),
{
    let start = ReportV { issues: seq![], seen: seq![] };
    let before = reported(start, cs.drop_last(), ctx);
    let after = reported(start, cs, ctx);
    if i < cs.len() - 1 {
        law_reported_all(cs.drop_last(), ctx, i);
        let j = choose|j: int| 0 <= j < before.seen.len() && before.seen[j] == cs[i].key;
        assert(after.seen[j] == cs[i].key);
    } else if !before.seen.contains(cs[i].key) {
        assert(after.seen.last() == cs[i].key);
    }
}

} // verus!
