//! What identifies a bug, when it is worth reporting, and what its trace shows.

use crate::bug_trace::{entry, max_level, trace_from, EntryV};
use crate::diagnostic::{Diagnostic, IssueTypeId};
use crate::sil::Location;
use crate::value_history::{invalidated_as, HistoryEvent};
use vstd::prelude::*;

verus! {

/// The name of an issue type has no bar in it.
proof fn lemma_no_bar(t: IssueTypeId, i: int)
    requires
        0 <= i < t.text().len(),
    ensures
        t.text()[i] != '|',
{
    reveal_strlit("NULLPTR_DEREFERENCE");
    reveal_strlit("COMPARED_TO_NULL_AND_DEREFERENCED");
    reveal_strlit("USE_AFTER_FREE");
    reveal_strlit("USE_AFTER_DELETE");
    reveal_strlit("USE_AFTER_LIFETIME");
    reveal_strlit("OPTIONAL_EMPTY_ACCESS");
    reveal_strlit("VECTOR_INVALIDATION");
    reveal_strlit("PULSE_ERROR");
    reveal_strlit("MEMORY_LEAK_C");
    reveal_strlit("RETAIN_CYCLE");
}

/// Different issue types have different names.
pub proof fn law_issue_types_differ(t: IssueTypeId, u: IssueTypeId)
    ensures
        t.text() == u.text() ==> t == u,
{
    reveal_strlit("NULLPTR_DEREFERENCE");
    reveal_strlit("COMPARED_TO_NULL_AND_DEREFERENCED");
    reveal_strlit("USE_AFTER_FREE");
    reveal_strlit("USE_AFTER_DELETE");
    reveal_strlit("USE_AFTER_LIFETIME");
    reveal_strlit("OPTIONAL_EMPTY_ACCESS");
    reveal_strlit("VECTOR_INVALIDATION");
    reveal_strlit("PULSE_ERROR");
    reveal_strlit("MEMORY_LEAK_C");
    reveal_strlit("RETAIN_CYCLE");
    if t.text() == u.text() && t != u {
        assert(t.text().len() == u.text().len());
        assert(t.text()[0] == u.text()[0]);
    }
}

/// The text of where a bug comes from.
pub open spec fn origin_text(d: Diagnostic) -> Seq<char> {
    match d.origin() {
        Some(location) => location.text(),
        None => seq![],
    }
}

/// Two bugs have the same key exactly where they are of the same type and come from
/// the same place.
pub proof fn law_key_identifies(d: Diagnostic, e: Diagnostic)
    ensures
        d.dedup_text() == e.dedup_text() <==> d.issue_type() == e.issue_type() && origin_text(d)
            == origin_text(e),
{
    reveal_strlit("|");
    let (a, b) = (d.issue_type().text(), e.issue_type().text());
    let (x, y) = (d.dedup_text(), e.dedup_text());
    assert(x[a.len() as int] == '|' && y[b.len() as int] == '|');
    if x == y {
        if a.len() < b.len() {
            assert(y[a.len() as int] == b[a.len() as int]);
            lemma_no_bar(e.issue_type(), a.len() as int);
        }
        if b.len() < a.len() {
            assert(x[b.len() as int] == a[b.len() as int]);
            lemma_no_bar(d.issue_type(), b.len() as int);
        }
        assert(a =~= x.take(a.len() as int));
        assert(b =~= y.take(b.len() as int));
        law_issue_types_differ(d.issue_type(), e.issue_type());
        assert(origin_text(d) =~= x.skip(a.len() as int + 1));
        assert(origin_text(e) =~= y.skip(b.len() as int + 1));
    }
}

/// An access to an address that is invalid for any other reason than being a constant
/// is always worth reporting. So is one where some path of the access has made the
/// address invalid for that reason, and only such a one.
pub proof fn law_suppressed(d: Diagnostic)
    ensures
        !(d is AccessToInvalidAddress) ==> !d.suppressed(),
        d matches Diagnostic::AccessToInvalidAddress { invalidation, access_history, .. } ==> {
            &&& !(invalidation is ConstantDereference)
                && !(invalidation is ComparedToNullInThisProcedure) ==> !d.suppressed()
            &&& (exists|i: int, j: int|
                0 <= i < access_history.paths@.len() && 0 <= j
                    < access_history.paths@[i].events@.len() && (
                #[trigger] access_history.paths@[i].events@[j]) is Invalidated
                    && access_history.paths@[i].events@[j]->invalidation.variant()
                    == invalidation.variant()) ==> !d.suppressed()
            &&& (invalidation is ConstantDereference
                || invalidation is ComparedToNullInThisProcedure)
                && access_history.paths@.len() == 0 ==> d.suppressed()
        },
{
    if let Diagnostic::AccessToInvalidAddress { invalidation, access_history, .. } = d {
        let s = access_history.paths@;
        if exists|i: int, j: int|
            0 <= i < s.len() && 0 <= j < s[i].events@.len() && (
            #[trigger] s[i].events@[j]) is Invalidated && s[i].events@[j]->invalidation.variant()
                == invalidation.variant() {
            let (i, j) = choose|i: int, j: int|
                0 <= i < s.len() && 0 <= j < s[i].events@.len() && (
                #[trigger] s[i].events@[j]) is Invalidated
                    && s[i].events@[j]->invalidation.variant() == invalidation.variant();
            assert(invalidated_as(s[i].events@, invalidation.variant()));
        }
    }
}

/// The deepest level of a trace is that of one of its steps, and no step is deeper.
pub proof fn law_max_level(s: Seq<EntryV>, i: int)
    requires
        0 <= i < s.len(),
    ensures
        max_level(s) matches Some(m) && s[i].level <= m && exists|k: int|
            0 <= k < s.len() && (#[trigger] s[k]).level == m,
    decreases s.len(),
{
    let t = s.drop_last();
    let last = s.len() - 1;
    assert(s[last] == s.last());
    if t.len() > 0 {
        law_max_level(
            t,
            if i < last {
                i
            } else {
                0
            },
        );
        if i < last {
            assert(t[i] == s[i]);
        }
        let m = max_level(t)->0;
        let k = choose|k: int| 0 <= k < t.len() && (#[trigger] t[k]).level == m;
        assert(s[k] == t[k]);
    }
}

/// An issue says what the bug is and where it shows: a latent one has another type
/// name, and everything else is the same whether it is latent or not.
pub proof fn law_issue(
    d: Diagnostic,
    procedure: Seq<char>,
    line: Option<u32>,
    suppressed: bool,
)
    ensures
        ({
            let (a, b) = (
                d.issue(procedure, line, false, suppressed),
                d.issue(procedure, line, true, suppressed),
            );
            &&& a.bug_type == d.issue_type().text()
            &&& a.bug_type != b.bug_type && a.bug_type.is_prefix_of(b.bug_type)
            &&& a.qualifier == b.qualifier && a.trace == b.trace && a.bug_trace == b.bug_trace
            &&& a.line == b.line && a.column == b.column && a.file == b.file
            &&& a.procedure == procedure && a.procedure_start_line == line
            &&& a.file == d.location().file.text()
            &&& a.bug_trace matches Some(t) ==> a.bug_trace_length == Some(t.len() as int)
            &&& a.bug_trace is None ==> a.bug_trace_length is None && a.bug_trace_max_depth is None
        }),
{
    reveal_strlit("_LATENT");
    let a = d.issue_type().text();
    let b = a + "_LATENT"@;
    assert(b.len() == a.len() + 7);
}

/// The trace of an invalid access that has a history starts with where the address
/// became invalid, if that is known, and ends at the access.
pub proof fn law_trace_of_access(d: Diagnostic)
    requires
        d is AccessToInvalidAddress,
        d->access_history.paths@.len() > 0,
    ensures
        d.structured_trace() matches Some(t) && t.len() > 0 && t.last() == entry(
            t.last().level,
            d.location(),
            "invalid access occurs here"@,
        ),
        d->invalidation_history.paths@.len() > 0 ==> d.structured_trace()->0[0] == entry(
            1,
            d.location(),
            "invalidation part of the trace starts here"@,
        ),
{
    let a = d.access_part();
    let t = d.invalidation_part() + a;
    assert(t.last() == a.last());
}

/// A step of the trace is at this place and says this.
pub open spec fn shows(t: Seq<EntryV>, place: Location, text: Seq<char>) -> bool {
    exists|j: int| 0 <= j < t.len() && #[trigger] t[j] == entry(t[j].level, place, text)
}

proof fn lemma_shows_behind(head: EntryV, t: Seq<EntryV>, place: Location, text: Seq<char>)
    ensures
        shows(t, place, text) ==> shows(seq![head] + t, place, text),
        head == entry(head.level, place, text) ==> shows(seq![head] + t, place, text),
{
    let r = seq![head] + t;
    assert(r[0] == head);
    if shows(t, place, text) {
        let j = choose|j: int| 0 <= j < t.len() && #[trigger] t[j] == entry(t[j].level, place, text);
        assert(r[j + 1] == t[j]);
    }
}

/// What the event at `i` adds to a trace, where it adds a step of its own.
pub open spec fn step_of(e: HistoryEvent) -> Option<(Location, Seq<char>)> {
    match e {
        HistoryEvent::Invalidated { invalidation, location } => Some((location, invalidation.text())),
        HistoryEvent::Assignment(location) => Some((location, "assigned here"@)),
        _ => None,
    }
}

/// Every invalidation and every assignment of a history is shown in its trace, at the
/// place where it happened.
pub proof fn law_trace_shows(
    s: Seq<HistoryEvent>,
    from: int,
    i: int,
    fallback: Location,
    level: int,
)
    requires
        0 <= from <= i < s.len(),
        step_of(s[i]) is Some,
    ensures
        shows(
            trace_from(s, from, fallback, level),
            (step_of(s[i])->0).0,
            (step_of(s[i])->0).1,
        ),
    decreases s.len() - from,
{
    let (place, text) = step_of(s[i])->0;
    let t = trace_from(s, from, fallback, level);
    match s[from] {
        HistoryEvent::ReturnFromCall { .. } => {
            law_trace_shows(
                s,
                from + 1,
                i,
                fallback,
                if level > 0 {
                    level - 1
                } else {
                    0
                },
            );
        },
        HistoryEvent::Call { proc, location } => {
            if from + 1 < s.len() && s[from + 1] is Returned && crate::bug_trace::is_allocation(
                proc,
            ) {
                law_trace_shows(s, from + 2, i, fallback, level);
                let rest = trace_from(s, from + 2, fallback, level);
                assert(t == seq![t[0]] + rest);
                lemma_shows_behind(t[0], rest, place, text);
            } else {
                law_trace_shows(s, from + 1, i, fallback, level + 1);
                let rest = trace_from(s, from + 1, fallback, level + 1);
                assert(t == seq![t[0]] + rest);
                lemma_shows_behind(t[0], rest, place, text);
            }
        },
        _ => {
            if from < i {
                law_trace_shows(s, from + 1, i, fallback, level);
            }
            let rest = trace_from(s, from + 1, fallback, level);
            assert(t == seq![t[0]] + rest);
            lemma_shows_behind(t[0], rest, place, text);
        },
    }
}

/// Levels are never negative, and no step is deeper than there are events.
pub proof fn law_trace_levels(s: Seq<HistoryEvent>, from: int, fallback: Location, level: int, j: int)
    requires
        0 <= from,
        0 <= level,
        0 <= j < trace_from(s, from, fallback, level).len(),
    ensures
        0 <= trace_from(s, from, fallback, level)[j].level <= level + (s.len() - from),
    decreases s.len() - from,
{
    let t = trace_from(s, from, fallback, level);
    match s[from] {
        HistoryEvent::ReturnFromCall { .. } => {
            law_trace_levels(
                s,
                from + 1,
                fallback,
                if level > 0 {
                    level - 1
                } else {
                    0
                },
                j,
            );
        },
        HistoryEvent::Call { proc, location } => {
            if from + 1 < s.len() && s[from + 1] is Returned && crate::bug_trace::is_allocation(
                proc,
            ) {
                if j > 0 {
                    law_trace_levels(s, from + 2, fallback, level, j - 1);
                    assert(t[j] == trace_from(s, from + 2, fallback, level)[j - 1]);
                }
            } else if j > 0 {
                law_trace_levels(s, from + 1, fallback, level + 1, j - 1);
                assert(t[j] == trace_from(s, from + 1, fallback, level + 1)[j - 1]);
            }
        },
        _ => {
            if j > 0 {
                law_trace_levels(s, from + 1, fallback, level, j - 1);
                assert(t[j] == trace_from(s, from + 1, fallback, level)[j - 1]);
            }
        },
    }
}

} // verus!
