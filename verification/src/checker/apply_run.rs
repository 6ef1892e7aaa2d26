//! The course of applying the summary of a callee: first as it is, then
//! specialized to the aliases that keep its paths from applying.

use super::disjuncts::exec_views;
use super::scan::PrePostKind;
use super::specialize::{
    group_views, next_specialization_step, spec_views, specialization_step, Group, HeapPath,
    PulseSpecialization, SpecializationStep, SpecializationV, StepV,
};
use crate::execution_domain::{ExecutionDomain, ExecutionV};
use vstd::prelude::*;

verus! {

/// A summary that was looked up: how many paths it has, and whether states had to
/// be dropped for it.
#[derive(Clone, Copy, Debug, PartialEq, Eq, Structural)]
pub struct SummaryFacts {
    pub paths: usize,
    pub has_dropped_disjuncts: bool,
}

/// What to do next.
#[derive(Debug, PartialEq, Eq)]
pub enum ApplyNext {
    /// Apply every path of the summary in use.
    Apply,
    /// Find out whether there is a summary specialized to this.
    LookUp(PulseSpecialization),
    /// Take the results of the last application. `incomplete` says that the summary
    /// may lack paths.
    Keep { incomplete: bool },
    /// There are no results.
    Nothing { incomplete: bool },
    /// There are no results; ask for a summary specialized to this.
    Request { specialization: PulseSpecialization, incomplete: bool },
}

/// What the next thing to do stands for.
pub enum ApplyNextV {
    Apply,
    LookUp(SpecializationV),
    Keep { incomplete: bool },
    Nothing { incomplete: bool },
    Request { specialization: SpecializationV, incomplete: bool },
}

impl View for ApplyNext {
    type V = ApplyNextV;

    open spec fn view(&self) -> ApplyNextV {
        match self {
            ApplyNext::Apply => ApplyNextV::Apply,
            ApplyNext::LookUp(s) => ApplyNextV::LookUp(s@),
            ApplyNext::Keep { incomplete } => ApplyNextV::Keep { incomplete: *incomplete },
            ApplyNext::Nothing { incomplete } => ApplyNextV::Nothing { incomplete: *incomplete },
            ApplyNext::Request { specialization, incomplete } => ApplyNextV::Request {
                specialization: specialization@,
                incomplete: *incomplete,
            },
        }
    }
}

/// The application of a summary.
#[derive(Debug, PartialEq, Eq)]
pub struct ApplyRun {
    /// What the summary in use is specialized to.
    pub current: PulseSpecialization,
    /// States had to be dropped for the summary in use.
    pub has_dropped_disjuncts: bool,
    /// The specializations that were looked up.
    pub tried: Vec<PulseSpecialization>,
}

/// What an application stands for.
#[verifier::ext_equal]
pub struct ApplyRunV {
    pub current: SpecializationV,
    pub dropped: bool,
    pub tried: Seq<SpecializationV>,
}

impl View for ApplyRun {
    type V = ApplyRunV;

    open spec fn view(&self) -> ApplyRunV {
        ApplyRunV {
            current: self.current@,
            dropped: self.has_dropped_disjuncts,
            tried: spec_views(self.tried@),
        }
    }
}

/// What to do with a summary that has the given number of paths.
pub open spec fn with_paths(paths: usize) -> ApplyNextV {
    if paths == 0 {
        ApplyNextV::Nothing { incomplete: true }
    } else {
        ApplyNextV::Apply
    }
}

/// What to do once all paths of the summary in use have been applied.
pub open spec fn after_applying(
    r: ApplyRunV,
    latent_invalid: bool,
    results: Seq<ExecutionV>,
    groups: Seq<Group>,
) -> (ApplyRunV, ApplyNextV) {
    match specialization_step(r.current, r.dropped, latent_invalid, results, groups, r.tried) {
        StepV::Done { incomplete } => (r, ApplyNextV::Keep { incomplete }),
        StepV::GiveUp => (r, ApplyNextV::Nothing { incomplete: r.dropped }),
        StepV::Try(next) => (
            ApplyRunV { tried: r.tried.push(next), ..r },
            ApplyNextV::LookUp(next),
        ),
    }
}

/// What to do once the summary specialized to `next` was looked up: it takes the
/// place of the one in use, or is asked for.
pub open spec fn after_lookup(
    r: ApplyRunV,
    next: SpecializationV,
    found: Option<SummaryFacts>,
) -> (ApplyRunV, ApplyNextV) {
    match found {
        Some(summary) => (
            ApplyRunV { current: next, dropped: summary.has_dropped_disjuncts, ..r },
            with_paths(summary.paths),
        ),
        None => (
            r,
            ApplyNextV::Request { specialization: next, incomplete: r.dropped },
        ),
    }
}

fn next_with_paths(paths: usize) -> (r: ApplyNext)
    ensures
        r@ == with_paths(paths),
{
    if paths == 0 {
        ApplyNext::Nothing { incomplete: true }
    } else {
        ApplyNext::Apply
    }
}

impl ApplyRun {
    /// Starts with a summary specialized to `current`.
    pub fn start(current: PulseSpecialization, summary: SummaryFacts) -> (r: (Self, ApplyNext))
        ensures
            (r.0@, r.1@) == (
                ApplyRunV {
                    current: current@,
                    dropped: summary.has_dropped_disjuncts,
                    tried: Seq::empty(),
                },
                with_paths(summary.paths),
            ),
    {
        let run = ApplyRun {
            current,
            has_dropped_disjuncts: summary.has_dropped_disjuncts,
            tried: Vec::new(),
        };
        assert(run@.tried =~= Seq::empty());
        (run, next_with_paths(summary.paths))
    }

    /// Goes on once every path of the summary in use has been applied: their kinds,
    /// all results, and the alias groups that kept paths from applying.
    pub fn applied(
        &mut self,
        kinds: &Vec<PrePostKind>,
        results: &Vec<ExecutionDomain>,
        alias_groups: &Vec<Vec<HeapPath>>,
    ) -> (r: ApplyNext)
        ensures
            (final(self)@, r@) == after_applying(
                old(self)@,
                kinds@.contains(PrePostKind::LatentInvalidAccess),
                exec_views(results@),
                group_views(alias_groups@),
            ),
    {
        let step = next_specialization_step(
            &self.current,
            self.has_dropped_disjuncts,
            kinds,
            results,
            alias_groups,
            &self.tried,
        );
        match step {
            SpecializationStep::Done { incomplete } => ApplyNext::Keep { incomplete },
            SpecializationStep::GiveUp => ApplyNext::Nothing {
                incomplete: self.has_dropped_disjuncts,
            },
            SpecializationStep::Try(next) => {
                self.tried.push(next.clone());
                assert(self@.tried =~= old(self)@.tried.push(next@));
                ApplyNext::LookUp(next)
            },
        }
    }

    /// Goes on once the summary specialized to `next` was looked up.
    pub fn looked_up(
        &mut self,
        next: PulseSpecialization,
        found: Option<SummaryFacts>,
    ) -> (r: ApplyNext)
        ensures
            (final(self)@, r@) == after_lookup(old(self)@, next@, found),
    {
        match found {
            Some(summary) => {
                self.current = next;
                self.has_dropped_disjuncts = summary.has_dropped_disjuncts;
                next_with_paths(summary.paths)
            },
            None => ApplyNext::Request {
                specialization: next,
                incomplete: self.has_dropped_disjuncts,
            },
        }
    }
}

/// No specialization is looked up twice, so an application ends once every
/// specialization of the callee has been used.
pub proof fn law_looked_up_once(
    r: ApplyRunV,
    latent_invalid: bool,
    results: Seq<ExecutionV>,
    groups: Seq<Group>,
    found: Option<SummaryFacts>,
)
    requires
        r.tried.no_duplicates(),
    ensures
        ({
            let (s, next) = after_applying(r, latent_invalid, results, groups);
            &&& s.tried.no_duplicates()
            &&& next matches ApplyNextV::LookUp(spec) ==> {
                &&& !r.tried.contains(spec)
                &&& s.tried == r.tried.push(spec)
                &&& after_lookup(s, spec, found).0.tried == s.tried
                &&& !(after_lookup(s, spec, found).1 is LookUp)
            }
        }),
{
}

/// An application whose paths gave results, or met no aliases, ends with them, and
/// is incomplete where states were dropped for the summary.
pub proof fn law_results_are_kept(
    r: ApplyRunV,
    latent_invalid: bool,
    results: Seq<ExecutionV>,
    groups: Seq<Group>,
)
    ensures
        results.len() > 0 ==> after_applying(r, latent_invalid, results, groups).1 is Keep,
        groups.len() == 0 ==> after_applying(r, latent_invalid, results, groups).1 is Keep,
        after_applying(r, latent_invalid, results, groups).1 matches ApplyNextV::Keep { incomplete }
            ==> (r.dropped ==> incomplete),
{
}

} // verus!
