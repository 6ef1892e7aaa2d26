//! Bug traces: the steps that lead to a bug, made from value histories.

use crate::key::{same_key, Keyed};
use crate::sil::{Location, Procname, Pvar};
use crate::text::{contains_text, occurs};
use crate::value_history::{HistoryEvent, ValueHistory};
use vstd::prelude::*;

verus! {

/// One step of a trace.
#[derive(Debug, PartialEq, Eq)]
pub struct BugTraceEntry {
    pub level: u32,
    pub filename: String,
    pub line_number: u32,
    pub column_number: u32,
    pub description: String,
}

/// What a step of a trace says.
#[verifier::ext_equal]
pub struct EntryV {
    pub level: int,
    pub filename: Seq<char>,
    pub line_number: u32,
    pub column_number: u32,
    pub description: Seq<char>,
}

impl View for BugTraceEntry {
    type V = EntryV;

    open spec fn view(&self) -> EntryV {
        EntryV {
            level: self.level as int,
            filename: self.filename@,
            line_number: self.line_number,
            column_number: self.column_number,
            description: self.description@,
        }
    }
}

/// What the steps of a trace say.
pub open spec fn trace_view(s: Seq<BugTraceEntry>) -> Seq<EntryV> {
    s.map_values(|e: BugTraceEntry| e@)
}

/// The step at `loc`.
pub open spec fn entry(level: int, loc: Location, description: Seq<char>) -> EntryV {
    EntryV {
        level,
        filename: loc.file.text(),
        line_number: loc.line as u32,
        column_number: loc.col as u32,
        description,
    }
}

/// The first location among the events of `s`.
pub open spec fn first_place(s: Seq<HistoryEvent>) -> Option<Location>
    decreases s.len(),
{
    if s.len() == 0 {
        None
    } else if s[0].place() is Some {
        s[0].place()
    } else {
        first_place(s.drop_first())
    }
}

/// The last location among the events of `s`.
pub open spec fn last_place(s: Seq<HistoryEvent>) -> Option<Location>
    decreases s.len(),
{
    if s.len() == 0 {
        None
    } else if s.last().place() is Some {
        s.last().place()
    } else {
        last_place(s.drop_last())
    }
}

pub open spec fn or_else(a: Option<Location>, b: Option<Location>) -> Option<Location> {
    if a is Some {
        a
    } else {
        b
    }
}

/// The location of the event at `i`: its own, else the next one behind it, else
/// the closest one before it, else `fallback`.
pub open spec fn event_place(s: Seq<HistoryEvent>, i: int, fallback: Location) -> Location {
    let found = or_else(
        s[i].place(),
        or_else(first_place(s.skip(i + 1)), last_place(s.take(i))),
    );
    match found {
        Some(loc) => loc,
        None => fallback,
    }
}

/// How a trace names a variable.
pub open spec fn pvar_description(p: Pvar) -> Seq<char> {
    match p.owner() {
        Some(proc) => parameter_of(p, proc),
        None => "global `"@ + p.name.name@ + "`"@,
    }
}

/// How a trace names a parameter.
pub open spec fn parameter_of(p: Pvar, proc: Procname) -> Seq<char> {
    "parameter `"@ + p.name.name@ + "` of "@ + proc.text()
}

/// How a trace describes a call.
pub open spec fn calling(proc: Procname) -> Seq<char> {
    "when calling `"@ + proc.text() + "` here"@
}

/// How a trace describes the call of a modelled allocation function.
pub open spec fn allocated_by(proc: Procname) -> Seq<char> {
    "allocated by call to `"@ + proc.text() + "` (modelled)"@
}

/// The procedure is modelled as an allocation function.
pub open spec fn is_allocation(proc: Procname) -> bool {
    occurs(proc.text(), "malloc"@) || occurs(proc.text(), "realloc"@)
}

/// The trace of the events from `i` on. A call goes one level down, until the
/// return from it; a modelled allocation with its result is one step.
pub open spec fn trace_from(
    s: Seq<HistoryEvent>,
    i: int,
    fallback: Location,
    level: int,
) -> Seq<EntryV>
    decreases s.len() - i,
{
    if i < 0 || i >= s.len() {
        seq![]
    } else {
        match s[i] {
            HistoryEvent::ReturnFromCall { .. } => trace_from(
                s,
                i + 1,
                fallback,
                if level > 0 {
                    level - 1
                } else {
                    0
                },
            ),
            HistoryEvent::Call { proc, location } => if i + 1 < s.len() && s[i + 1] is Returned
                && is_allocation(proc) {
                seq![entry(level, location, allocated_by(proc))] + trace_from(
                    s,
                    i + 2,
                    fallback,
                    level,
                )
            } else {
                seq![entry(level, location, calling(proc))] + trace_from(
                    s,
                    i + 1,
                    fallback,
                    level + 1,
                )
            },
            HistoryEvent::FormalArgument(p) => seq![
                entry(level, event_place(s, i, fallback), pvar_description(p)),
            ] + trace_from(s, i + 1, fallback, level),
            HistoryEvent::ActualArgument(p) => seq![
                entry(level, event_place(s, i, fallback), pvar_description(p)),
            ] + trace_from(s, i + 1, fallback, level),
            HistoryEvent::Assignment(location) => seq![
                entry(level, location, "assigned here"@),
            ] + trace_from(s, i + 1, fallback, level),
            HistoryEvent::Returned(location) => seq![
                entry(level, location, "returned here"@),
            ] + trace_from(s, i + 1, fallback, level),
            HistoryEvent::Invalidated { invalidation, location } => seq![
                entry(level, location, invalidation.text()),
            ] + trace_from(s, i + 1, fallback, level),
        }
    }
}

/// The trace of a history: that of its primary path.
pub open spec fn history_trace(h: ValueHistory, fallback: Location, level: int) -> Seq<EntryV> {
    trace_from(h.primary(), 0, fallback, level)
}

/// `s` without a final return from a call.
pub open spec fn without_last_return(s: Seq<HistoryEvent>) -> Seq<HistoryEvent> {
    if s.len() > 0 && s.last() is ReturnFromCall {
        s.drop_last()
    } else {
        s
    }
}

/// The trace of an invalidation. A call followed by a formal of another
/// procedure stands for two calls: the outer one passes its own parameter on.
pub open spec fn invalidation_trace(h: ValueHistory, fallback: Location, level: int) -> Seq<
    EntryV,
> {
    let s = h.primary();
    if s.len() >= 2 && s[0] is Call && s[1] is FormalArgument {
        let outer = s[0]->Call_proc;
        let location = s[0]->Call_location;
        let inner = s[1]->FormalArgument_0;
        match inner.owner() {
            Some(proc) if proc.key() != outer.key() => seq![
                entry(level, location, parameter_of(inner, outer)),
                entry(level, location, calling(proc)),
            ] + trace_from(without_last_return(s).skip(1), 0, fallback, level + 1),
            _ => trace_from(s, 0, fallback, level),
        }
    } else {
        trace_from(s, 0, fallback, level)
    }
}

/// The trace of an access. The history of an argument starts in the caller: its
/// steps come first, then the call and the parameter.
pub open spec fn access_trace(s: Seq<HistoryEvent>, fallback: Location, level: int) -> Seq<EntryV>
    decreases s.len(),
{
    if s.len() == 0 {
        seq![]
    } else {
        match s[0] {
            HistoryEvent::ActualArgument(p) => {
                let rest = s.drop_first();
                let place = match first_place(rest) {
                    Some(loc) => loc,
                    None => fallback,
                };
                access_trace(rest, fallback, level) + (match p.owner() {
                    Some(proc) => seq![
                        entry(level, place, calling(proc)),
                        entry(level + 1, place, pvar_description(p)),
                    ],
                    None => seq![entry(level, place, pvar_description(p))],
                })
            },
            _ => trace_from(s, 0, fallback, level),
        }
    }
}

/// The deepest level of a trace.
pub open spec fn max_level(s: Seq<EntryV>) -> Option<int>
    decreases s.len(),
{
    if s.len() == 0 {
        None
    } else {
        match max_level(s.drop_last()) {
            Some(m) if m >= s.last().level => Some(m),
            _ => Some(s.last().level),
        }
    }
}

pub fn make_bug_trace_entry(level: u32, loc: &Location, description: String) -> (r: BugTraceEntry)
    ensures
        r@ == entry(level as int, *loc, description@),
{
    let mut filename = String::new();
    loc.file.push_text(&mut filename);
    assert(Seq::<char>::empty() + loc.file.text() =~= loc.file.text());
    BugTraceEntry {
        level,
        filename,
        line_number: loc.line as u32,
        column_number: loc.col as u32,
        description,
    }
}

fn push_entry(out: &mut Vec<BugTraceEntry>, level: u32, loc: &Location, description: String)
    ensures
        trace_view(final(out)@) == trace_view(old(out)@).push(
            entry(level as int, *loc, description@),
        ),
        final(out)@.len() == old(out)@.len() + 1,
{
    let e = make_bug_trace_entry(level, loc, description);
    out.push(e);
    assert(trace_view(out@) =~= trace_view(old(out)@).push(e@));
}

fn find_first_place(events: &Vec<HistoryEvent>, from: usize) -> (r: Option<&Location>)
    requires
        from <= events@.len(),
    ensures
        first_place(events@.skip(from as int)) == (match r {
            Some(l) => Some(*l),
            None => None,
        }),
{
    let mut i: usize = from;
    while i < events.len()
        invariant
            from <= i <= events@.len(),
            first_place(events@.skip(i as int)) == first_place(events@.skip(from as int)),
        decreases events@.len() - i,
    {
        let ghost s = events@.skip(i as int);
        assert(s[0] == events@[i as int]);
        assert(s.drop_first() =~= events@.skip(i + 1));
        let place = events[i].location();
        if place.is_some() {
            return place;
        }
        i = i + 1;
    }
    None
}

fn find_last_place(events: &Vec<HistoryEvent>, end: usize) -> (r: Option<&Location>)
    requires
        end <= events@.len(),
    ensures
        last_place(events@.take(end as int)) == (match r {
            Some(l) => Some(*l),
            None => None,
        }),
{
    let mut i: usize = end;
    while i > 0
        invariant
            i <= end <= events@.len(),
            last_place(events@.take(i as int)) == last_place(events@.take(end as int)),
        decreases i,
    {
        let ghost s = events@.take(i as int);
        assert(s.last() == events@[i - 1]);
        assert(s.drop_last() =~= events@.take(i - 1));
        let place = events[i - 1].location();
        if place.is_some() {
            return place;
        }
        i = i - 1;
    }
    None
}

fn bug_trace_event_location(events: &Vec<HistoryEvent>, index: usize, fallback: &Location) -> (r:
    Location)
    requires
        index < events@.len(),
    ensures
        r == event_place(events@, index as int, *fallback),
{
    if let Some(loc) = events[index].location() {
        return loc.clone();
    }
    let n: usize = events.len();
    assert(index < n);
    if let Some(loc) = find_first_place(events, index + 1) {
        return loc.clone();
    }
    if let Some(loc) = find_last_place(events, index) {
        return loc.clone();
    }
    fallback.clone()
}

fn describe_parameter(pvar: &Pvar, proc: &Procname) -> (r: String)
    ensures
        r@ == parameter_of(*pvar, *proc),
{
    let mut out = String::new();
    out.append("parameter `");
    out.append(pvar.name.name.as_str());
    out.append("` of ");
    proc.push_text(&mut out);
    assert(out@ =~= parameter_of(*pvar, *proc));
    out
}

fn pvar_trace_description(pvar: &Pvar) -> (r: String)
    ensures
        r@ == pvar_description(*pvar),
{
    match pvar.get_owner() {
        Some(proc) => describe_parameter(pvar, proc),
        None => {
            let mut out = String::new();
            out.append("global `");
            out.append(pvar.name.name.as_str());
            out.append("`");
            assert(out@ =~= pvar_description(*pvar));
            out
        },
    }
}

fn describe_call(proc: &Procname) -> (r: String)
    ensures
        r@ == calling(*proc),
{
    let mut out = String::new();
    out.append("when calling `");
    proc.push_text(&mut out);
    out.append("` here");
    assert(out@ =~= calling(*proc));
    out
}

fn is_modeled_allocation_proc(proc: &Procname) -> (b: bool)
    ensures
        b == is_allocation(*proc),
{
    let name = proc.to_string();
    contains_text(&name, "malloc") || contains_text(&name, "realloc")
}

/// The trace of a list of events.
pub fn history_events_to_bug_trace(
    events: &Vec<HistoryEvent>,
    fallback: &Location,
    base_level: u32,
) -> (r: Vec<BugTraceEntry>)
    requires
        base_level + events@.len() <= u32::MAX,
    ensures
        trace_view(r@) == trace_from(events@, 0, *fallback, base_level as int),
        r@.len() <= events@.len(),
{
    let mut entries: Vec<BugTraceEntry> = Vec::new();
    let mut level: u32 = base_level;
    let mut index: usize = 0;
    let ghost s = events@;
    let ghost all = trace_from(s, 0, *fallback, base_level as int);
    assert(trace_view(entries@) + all =~= all);
    while index < events.len()
        invariant
            s == events@,
            base_level + s.len() <= u32::MAX,
            index <= s.len(),
            level <= base_level + index,
            entries@.len() <= index,
            all == trace_view(entries@) + trace_from(s, index as int, *fallback, level as int),
        decreases s.len() - index,
    {
        let ghost so_far = trace_view(entries@);
        let ghost here = trace_from(s, index as int, *fallback, level as int);
        match &events[index] {
            HistoryEvent::ReturnFromCall { .. } => {
                if level > 0 {
                    level = level - 1;
                }
                index = index + 1;
            },
            HistoryEvent::Call { proc, location } => {
                let comes_back = index + 1 < events.len() && matches!(
                    &events[index + 1],
                    HistoryEvent::Returned(_)
                );
                if comes_back && is_modeled_allocation_proc(proc) {
                    let mut description = String::new();
                    description.append("allocated by call to `");
                    proc.push_text(&mut description);
                    description.append("` (modelled)");
                    assert(description@ =~= allocated_by(*proc));
                    push_entry(&mut entries, level, location, description);
                    index = index + 2;
                } else {
                    push_entry(&mut entries, level, location, describe_call(proc));
                    level = level + 1;
                    index = index + 1;
                }
            },
            HistoryEvent::FormalArgument(pvar) => {
                let loc = bug_trace_event_location(events, index, fallback);
                push_entry(&mut entries, level, &loc, pvar_trace_description(pvar));
                index = index + 1;
            },
            HistoryEvent::ActualArgument(pvar) => {
                let loc = bug_trace_event_location(events, index, fallback);
                push_entry(&mut entries, level, &loc, pvar_trace_description(pvar));
                index = index + 1;
            },
            HistoryEvent::Assignment(location) => {
                push_entry(&mut entries, level, location, "assigned here".to_string());
                index = index + 1;
            },
            HistoryEvent::Returned(location) => {
                push_entry(&mut entries, level, location, "returned here".to_string());
                index = index + 1;
            },
            HistoryEvent::Invalidated { invalidation, location } => {
                let mut description = String::new();
                invalidation.push_text(&mut description);
                assert(Seq::<char>::empty() + invalidation.text() =~= invalidation.text());
                push_entry(&mut entries, level, location, description);
                index = index + 1;
            },
        }
        assert(so_far + here =~= trace_view(entries@) + trace_from(
            s,
            index as int,
            *fallback,
            level as int,
        ));
    }
    assert(trace_view(entries@) + Seq::<EntryV>::empty() =~= trace_view(entries@));
    entries
}

fn primary_events(history: &ValueHistory) -> (r: Vec<HistoryEvent>)
    ensures
        r@ == history.primary(),
{
    match history.primary_path() {
        Some(path) => path.events.to_vec(),
        None => Vec::new(),
    }
}

/// The trace of a history.
pub fn history_to_bug_trace(history: &ValueHistory, fallback: &Location, base_level: u32) -> (r: Vec<
    BugTraceEntry,
>)
    requires
        base_level + history.primary().len() <= u32::MAX,
    ensures
        trace_view(r@) == history_trace(*history, *fallback, base_level as int),
{
    let events = primary_events(history);
    history_events_to_bug_trace(&events, fallback, base_level)
}

/// The trace of an invalidation.
pub fn invalidation_history_to_bug_trace(
    history: &ValueHistory,
    fallback: &Location,
    base_level: u32,
) -> (r: Vec<BugTraceEntry>)
    requires
        base_level + history.primary().len() <= u32::MAX,
    ensures
        trace_view(r@) == invalidation_trace(*history, *fallback, base_level as int),
        r@.len() <= history.primary().len() + 1,
{
    let events = primary_events(history);
    let ghost s = events@;
    if events.len() >= 2 {
        if let (HistoryEvent::Call { proc, location }, HistoryEvent::FormalArgument(inner)) = (
            &events[0],
            &events[1],
        ) {
            if let Some(inner_proc) = inner.get_owner() {
                if !same_key(inner_proc, proc) {
                    let mut entries: Vec<BugTraceEntry> = Vec::new();
                    push_entry(
                        &mut entries,
                        base_level,
                        location,
                        describe_parameter(inner, proc),
                    );
                    push_entry(&mut entries, base_level, location, describe_call(inner_proc));
                    let ghost first = trace_view(entries@);
                    let mut rest = primary_events(history);
                    if matches!(&rest[rest.len() - 1], HistoryEvent::ReturnFromCall { .. }) {
                        rest.pop();
                    }
                    assert(rest@ =~= without_last_return(s));
                    rest.remove(0);
                    assert(rest@ =~= without_last_return(s).skip(1));
                    let mut more = history_events_to_bug_trace(&rest, fallback, base_level + 1);
                    let ghost tail = trace_view(more@);
                    let ghost before = entries@;
                    let ghost after = more@;
                    entries.append(&mut more);
                    assert(entries@ =~= before + after);
                    assert(trace_view(entries@) =~= first + tail);
                    assert(first =~= seq![
                        entry(base_level as int, *location, parameter_of(*inner, *proc)),
                        entry(base_level as int, *location, calling(*inner_proc)),
                    ]);
                    return entries;
                }
            }
        }
    }
    history_events_to_bug_trace(&events, fallback, base_level)
}

fn access_events_to_bug_trace(
    events: &Vec<HistoryEvent>,
    from: usize,
    fallback: &Location,
    level: u32,
) -> (r: Vec<BugTraceEntry>)
    requires
        from <= events@.len(),
        level + events@.len() + 1 <= u32::MAX,
    ensures
        trace_view(r@) == access_trace(events@.skip(from as int), *fallback, level as int),
        r@.len() <= 2 * (events@.len() - from),
    decreases events@.len() - from,
{
    let ghost s = events@.skip(from as int);
    if from == events.len() {
        let r: Vec<BugTraceEntry> = Vec::new();
        assert(trace_view(r@) =~= access_trace(s, *fallback, level as int));
        return r;
    }
    assert(s[0] == events@[from as int]);
    match &events[from] {
        HistoryEvent::ActualArgument(pvar) => {
            let mut entries = access_events_to_bug_trace(events, from + 1, fallback, level);
            let ghost first = trace_view(entries@);
            assert(s.drop_first() =~= events@.skip(from + 1));
            let call_loc = match find_first_place(events, from + 1) {
                Some(loc) => loc.clone(),
                None => fallback.clone(),
            };
            match pvar.get_owner() {
                Some(proc) => {
                    push_entry(&mut entries, level, &call_loc, describe_call(proc));
                    push_entry(&mut entries, level + 1, &call_loc, pvar_trace_description(pvar));
                },
                None => {
                    push_entry(&mut entries, level, &call_loc, pvar_trace_description(pvar));
                },
            }
            assert(trace_view(entries@) =~= access_trace(s, *fallback, level as int));
            entries
        },
        _ => {
            let mut rest: Vec<HistoryEvent> = Vec::new();
            let mut i: usize = from;
            while i < events.len()
                invariant
                    from <= i <= events@.len(),
                    rest@ =~= events@.subrange(from as int, i as int),
                decreases events@.len() - i,
            {
                rest.push(events[i].clone());
                i = i + 1;
            }
            assert(rest@ =~= s);
            history_events_to_bug_trace(&rest, fallback, level)
        },
    }
}

/// The trace of an access.
pub fn access_history_to_bug_trace(
    history: &ValueHistory,
    fallback: &Location,
    base_level: u32,
) -> (r: Vec<BugTraceEntry>)
    requires
        base_level + history.primary().len() + 1 <= u32::MAX,
    ensures
        trace_view(r@) == access_trace(history.primary(), *fallback, base_level as int),
        r@.len() <= 2 * history.primary().len(),
{
    let events = primary_events(history);
    let r = access_events_to_bug_trace(&events, 0, fallback, base_level);
    assert(events@.skip(0) =~= events@);
    r
}

/// The deepest level of a trace.
pub fn deepest_level(entries: &Vec<BugTraceEntry>) -> (r: Option<u32>)
    ensures
        max_level(trace_view(entries@)) == (match r {
            Some(m) => Some(m as int),
            None => None,
        }),
{
    let ghost s = trace_view(entries@);
    let mut best: Option<u32> = None;
    let mut i: usize = 0;
    assert(s.take(0) =~= Seq::<EntryV>::empty());
    while i < entries.len()
        invariant
            s == trace_view(entries@),
            i <= entries@.len(),
            max_level(s.take(i as int)) == (match best {
                Some(m) => Some(m as int),
                None => None,
            }),
        decreases entries@.len() - i,
    {
        let ghost t = s.take(i + 1);
        assert(t.drop_last() =~= s.take(i as int));
        assert(t.last() == s[i as int]);
        let level: u32 = entries[i].level;
        best = match best {
            Some(m) => if m >= level {
                Some(m)
            } else {
                Some(level)
            },
            None => Some(level),
        };
        i = i + 1;
    }
    assert(s.take(i as int) =~= s);
    best
}

} // verus!
