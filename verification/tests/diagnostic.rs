use pulse::abstract_value::{AbstractValue, FreshCounters};
use pulse::bug_trace::{history_to_bug_trace, invalidation_history_to_bug_trace};
use pulse::diagnostic::Diagnostic;
use pulse::invalidation::Invalidation;
use pulse::sil::{IntLit, Location, Mangled, Procname, Pvar};
use pulse::value_history::{HistoryEvent, ValueHistory};

fn loc(line: i32) -> Location {
    Location {
        line,
        col: 1,
        ..Location::dummy()
    }
}

#[test]
fn test_issue_trace_includes_access_and_invalidation_history() {
    let mut counters = FreshCounters::new();
    let proc = Procname::c_from_string("foo");
    let pvar = Pvar::mk(Mangled::from_string("x"), proc);
    let diag = Diagnostic::AccessToInvalidAddress {
        addr: AbstractValue::mk_fresh(&mut counters),
        invalidation: Invalidation::CFree,
        access_location: loc(20),
        trace_access_location: None,
        access_history: ValueHistory::formal_argument(pvar.clone()).append_assignment(loc(20)),
        invalidation_history: ValueHistory::formal_argument(pvar).append_event(
            HistoryEvent::Invalidated {
                invalidation: Invalidation::CFree,
                location: loc(12),
            },
        ),
    };

    let issue = diag.to_issue("foo");
    assert!(issue.trace.contains("invalidation history:"));
    assert!(issue.trace.contains("access history:"));
    assert!(issue.trace.contains("formal("));
    assert!(issue.trace.contains("assign@"));
    assert!(issue
        .bug_trace
        .as_ref()
        .is_some_and(|trace| !trace.is_empty()));
    assert_eq!(
        issue.bug_trace_length,
        issue.bug_trace.as_ref().map(|trace| trace.len() as u32)
    );
    assert!(issue.bug_trace_max_depth.is_some_and(|depth| depth > 1));
    assert!(issue.bug_trace.as_ref().is_some_and(|trace| {
        trace
            .iter()
            .any(|entry| entry.description.contains("parameter `x` of foo"))
    }));
}

#[test]
fn test_suppressed_issue_trace_keeps_prefix_and_history() {
    let mut counters = FreshCounters::new();
    let diag = Diagnostic::AccessToInvalidAddress {
        addr: AbstractValue::mk_fresh(&mut counters),
        invalidation: Invalidation::ConstantDereference(IntLit::zero()),
        access_location: loc(30),
        trace_access_location: None,
        access_history: ValueHistory::assignment(loc(30)),
        invalidation_history: ValueHistory::invalidated(
            Invalidation::ConstantDereference(IntLit::zero()),
            loc(18),
        ),
    };

    let issue = diag.to_issue_with_reporting("foo", false, true);
    assert!(issue.trace.starts_with("*** SUPPRESSED ***,"));
    assert!(issue.trace.contains("invalidation history:"));
    assert!(issue.trace.contains("access history:"));
    assert!(issue
        .bug_trace
        .as_ref()
        .is_some_and(|trace| !trace.is_empty()));
    assert!(issue.bug_trace.as_ref().is_some_and(|trace| {
        trace
            .iter()
            .any(|entry| entry.description == "access part of the trace starts here")
    }));
}

#[test]
fn test_access_bug_trace_reorders_caller_history_before_synthetic_call() {
    let mut counters = FreshCounters::new();
    let caller = Procname::c_from_string("caller");
    let callee = Procname::c_from_string("callee");
    let caller_pvar = Pvar::mk(Mangled::from_string("x"), caller.clone());
    let callee_pvar = Pvar::mk(Mangled::from_string("x"), callee.clone());
    let diag = Diagnostic::AccessToInvalidAddress {
        addr: AbstractValue::mk_fresh(&mut counters),
        invalidation: Invalidation::CFree,
        access_location: loc(40),
        trace_access_location: None,
        access_history: ValueHistory::from_event(HistoryEvent::ActualArgument(callee_pvar))
            .append_event(HistoryEvent::FormalArgument(caller_pvar)),
        invalidation_history: ValueHistory::invalidated(Invalidation::CFree, loc(12)),
    };

    let issue = diag.to_issue("caller");
    let trace = issue.bug_trace.expect("expected structured bug trace");
    let descriptions: Vec<_> = trace
        .iter()
        .map(|entry| entry.description.as_str())
        .collect();
    let caller_idx = descriptions
        .iter()
        .position(|desc| *desc == "parameter `x` of caller")
        .expect("caller parameter entry should exist");
    let call_idx = descriptions
        .iter()
        .position(|desc| *desc == "when calling `callee` here")
        .expect("synthetic call entry should exist");
    let callee_idx = descriptions
        .iter()
        .position(|desc| *desc == "parameter `x` of callee")
        .expect("callee parameter entry should exist");
    assert!(caller_idx < call_idx && call_idx < callee_idx);
}

#[test]
fn test_bug_trace_compresses_modelled_allocation_call_and_return() {
    let history =
        ValueHistory::returned(loc(12)).wrap_call(&Procname::c_from_string("malloc"), &loc(12));
    let trace = history_to_bug_trace(&history, &loc(12), 2);
    let descriptions: Vec<_> = trace
        .iter()
        .map(|entry| entry.description.as_str())
        .collect();
    assert_eq!(
        descriptions,
        vec!["allocated by call to `malloc` (modelled)"],
        "modelled allocation call/return should collapse to one trace step"
    );
}

#[test]
fn test_invalidation_bug_trace_synthesizes_outer_parameter_and_inner_call() {
    let outer = Procname::c_from_string("latent_use_after_free");
    let inner = Procname::c_from_string("conditional_free2");
    let inner_pvar = Pvar::mk(Mangled::from_string("x"), inner.clone());
    let history = ValueHistory::from_event(HistoryEvent::FormalArgument(inner_pvar))
        .append_event(HistoryEvent::Invalidated {
            invalidation: Invalidation::CFree,
            location: loc(12),
        })
        .wrap_call(&outer, &loc(25));
    let trace = invalidation_history_to_bug_trace(&history, &loc(25), 2);
    let descriptions: Vec<_> = trace
        .iter()
        .map(|entry| entry.description.as_str())
        .collect();
    assert_eq!(
        descriptions,
        vec![
            "parameter `x` of latent_use_after_free",
            "when calling `conditional_free2` here",
            "parameter `x` of conditional_free2",
            "was invalidated by call to `free()`",
        ]
    );
}
