//! Provenance of abstract values.
//!
//! A history is a list of paths; each path lists the events that led to a
//! value, oldest first. The history without any path is the epoch: nothing is
//! known of where the value comes from.

use crate::abstract_value::AbstractValue;
use crate::invalidation::Invalidation;
use crate::key::{number_key, push_number, same_key, Key, KeyV, Keyed};
use crate::list::{elements, lemma_list_of, lemma_same_elements, list_of, List, Twin};
use crate::ordered::Dup;
use crate::sil::{Location, Procname, Pvar};
use vstd::prelude::*;

verus! {

/// Something that happened to a value.
#[derive(Debug, PartialEq, Eq)]
pub enum HistoryEvent {
    /// The value came back from a call.
    ReturnFromCall { proc: Procname, location: Location },
    /// A procedure was called.
    Call { proc: Procname, location: Location },
    /// The value is a formal of the analysed procedure.
    FormalArgument(Pvar),
    /// The value was passed for a formal of a called procedure.
    ActualArgument(Pvar),
    Assignment(Location),
    Returned(Location),
    Invalidated { invalidation: Invalidation, location: Location },
}

/// One sequence of events that leads to a value.
#[derive(Debug, PartialEq, Eq)]
pub struct HistoryPath {
    pub events: List<HistoryEvent>,
}

/// Where a value comes from.
#[derive(Debug, PartialEq, Eq)]
pub struct ValueHistory {
    pub paths: List<HistoryPath>,
}

/// An abstract value and where it comes from.
#[derive(Debug, PartialEq, Eq)]
pub struct ValueWithHistory {
    pub addr: AbstractValue,
    pub history: ValueHistory,
}

impl Clone for HistoryEvent {
    fn clone(&self) -> (r: Self)
        ensures
            r == *self,
    {
        match self {
            HistoryEvent::ReturnFromCall { proc, location } => HistoryEvent::ReturnFromCall {
                proc: proc.clone(),
                location: location.clone(),
            },
            HistoryEvent::Call { proc, location } => HistoryEvent::Call {
                proc: proc.clone(),
                location: location.clone(),
            },
            HistoryEvent::FormalArgument(p) => HistoryEvent::FormalArgument(p.clone()),
            HistoryEvent::ActualArgument(p) => HistoryEvent::ActualArgument(p.clone()),
            HistoryEvent::Assignment(l) => HistoryEvent::Assignment(l.clone()),
            HistoryEvent::Returned(l) => HistoryEvent::Returned(l.clone()),
            HistoryEvent::Invalidated { invalidation, location } => HistoryEvent::Invalidated {
                invalidation: invalidation.clone(),
                location: location.clone(),
            },
        }
    }
}

impl Twin for HistoryEvent {
    fn twin(&self) -> (r: Self) {
        self.clone()
    }
}

impl Keyed for HistoryEvent {
    open spec fn key(&self) -> KeyV {
        match self {
            HistoryEvent::ReturnFromCall { proc, location } => {
                number_key(0) + proc.key() + location.key()
            },
            HistoryEvent::Call { proc, location } => number_key(1) + proc.key() + location.key(),
            HistoryEvent::FormalArgument(p) => number_key(2) + p.key(),
            HistoryEvent::ActualArgument(p) => number_key(3) + p.key(),
            HistoryEvent::Assignment(l) => number_key(4) + l.key(),
            HistoryEvent::Returned(l) => number_key(5) + l.key(),
            HistoryEvent::Invalidated { invalidation, location } => {
                number_key(6) + invalidation.key() + location.key()
            },
        }
    }

    fn push_key(&self, out: &mut Key) {
        let ghost before = out@;
        match self {
            HistoryEvent::ReturnFromCall { proc, location } => {
                push_number(out, 0);
                proc.push_key(out);
                location.push_key(out);
                assert(
                    before + number_key(0) + proc.key() + location.key()
                        =~= before + (number_key(0) + proc.key() + location.key())
                );
            },
            HistoryEvent::Call { proc, location } => {
                push_number(out, 1);
                proc.push_key(out);
                location.push_key(out);
                assert(
                    before + number_key(1) + proc.key() + location.key()
                        =~= before + (number_key(1) + proc.key() + location.key())
                );
            },
            HistoryEvent::FormalArgument(p) => {
                push_number(out, 2);
                p.push_key(out);
                assert(before + number_key(2) + p.key() =~= before + (number_key(2) + p.key()));
            },
            HistoryEvent::ActualArgument(p) => {
                push_number(out, 3);
                p.push_key(out);
                assert(before + number_key(3) + p.key() =~= before + (number_key(3) + p.key()));
            },
            HistoryEvent::Assignment(l) => {
                push_number(out, 4);
                l.push_key(out);
                assert(before + number_key(4) + l.key() =~= before + (number_key(4) + l.key()));
            },
            HistoryEvent::Returned(l) => {
                push_number(out, 5);
                l.push_key(out);
                assert(before + number_key(5) + l.key() =~= before + (number_key(5) + l.key()));
            },
            HistoryEvent::Invalidated { invalidation, location } => {
                push_number(out, 6);
                invalidation.push_key(out);
                location.push_key(out);
                assert(
                    before + number_key(6) + invalidation.key() + location.key()
                        =~= before + (number_key(6) + invalidation.key() + location.key())
                );
            },
        }
    }
}

impl Clone for HistoryPath {
    fn clone(&self) -> (r: Self)
        ensures
            r == *self,
    {
        HistoryPath { events: self.events.clone() }
    }
}

impl Twin for HistoryPath {
    fn twin(&self) -> (r: Self) {
        self.clone()
    }
}

impl Keyed for HistoryPath {
    open spec fn key(&self) -> KeyV {
        self.events.key()
    }

    fn push_key(&self, out: &mut Key) {
        let ghost before = out@;
        self.events.push_key(out);
    }
}

impl Clone for ValueHistory {
    fn clone(&self) -> (r: Self)
        ensures
            r == *self,
    {
        ValueHistory { paths: self.paths.clone() }
    }
}

impl Twin for ValueHistory {
    fn twin(&self) -> (r: Self) {
        self.clone()
    }
}

impl Keyed for ValueHistory {
    open spec fn key(&self) -> KeyV {
        self.paths.key()
    }

    fn push_key(&self, out: &mut Key) {
        let ghost before = out@;
        self.paths.push_key(out);
    }
}

impl Clone for ValueWithHistory {
    fn clone(&self) -> (r: Self)
        ensures
            r == *self,
    {
        ValueWithHistory { addr: self.addr, history: self.history.clone() }
    }
}

impl Twin for ValueWithHistory {
    fn twin(&self) -> (r: Self) {
        self.clone()
    }
}

impl Keyed for ValueWithHistory {
    open spec fn key(&self) -> KeyV {
        self.addr.key() + self.history.key()
    }

    fn push_key(&self, out: &mut Key) {
        let ghost before = out@;
        self.addr.push_key(out);
        self.history.push_key(out);
        assert(
            before + self.addr.key() + self.history.key()
                =~= before + (self.addr.key() + self.history.key())
        );
    }
}

impl View for ValueWithHistory {
    type V = ValueWithHistory;

    open spec fn view(&self) -> ValueWithHistory {
        *self
    }
}

impl Dup for ValueWithHistory {
    fn dup(&self) -> (r: Self) {
        self.clone()
    }
}

impl HistoryEvent {
    /// Where the event took place, if it has a location.
    pub open spec fn place(self) -> Option<Location> {
        match self {
            HistoryEvent::ReturnFromCall { location, .. } => Some(location),
            HistoryEvent::Call { location, .. } => Some(location),
            HistoryEvent::FormalArgument(_) => None,
            HistoryEvent::ActualArgument(_) => None,
            HistoryEvent::Assignment(location) => Some(location),
            HistoryEvent::Returned(location) => Some(location),
            HistoryEvent::Invalidated { location, .. } => Some(location),
        }
    }

    pub fn location(&self) -> (r: Option<&Location>)
        ensures
            self.place() == (match r {
                Some(l) => Some(*l),
                None => None,
            }),
    {
        match self {
            HistoryEvent::ReturnFromCall { location, .. } => Some(location),
            HistoryEvent::Call { location, .. } => Some(location),
            HistoryEvent::FormalArgument(_) => None,
            HistoryEvent::ActualArgument(_) => None,
            HistoryEvent::Assignment(location) => Some(location),
            HistoryEvent::Returned(location) => Some(location),
            HistoryEvent::Invalidated { location, .. } => Some(location),
        }
    }

    /// A short form of the event.
    pub open spec fn text(self) -> Seq<char> {
        match self {
            HistoryEvent::ReturnFromCall { proc, location } => "return-from("@ + proc.text()
                + ")@"@ + location.text(),
            HistoryEvent::Call { proc, location } => "call("@ + proc.text() + ")@"@
                + location.text(),
            HistoryEvent::FormalArgument(p) => "formal("@ + p.name.name@ + ")"@,
            HistoryEvent::ActualArgument(p) => "actual("@ + p.name.name@ + ")"@,
            HistoryEvent::Assignment(location) => "assign@"@ + location.text(),
            HistoryEvent::Returned(location) => "returned@"@ + location.text(),
            HistoryEvent::Invalidated { invalidation, location } => "invalid("@
                + invalidation.text() + ")@"@ + location.text(),
        }
    }

    pub fn push_text(&self, out: &mut String)
        ensures
            final(out)@ == old(out)@ + self.text(),
    {
        let ghost before = out@;
        match self {
            HistoryEvent::ReturnFromCall { proc, location } => {
                out.append("return-from(");
                proc.push_text(out);
                out.append(")@");
                location.push_text(out);
            },
            HistoryEvent::Call { proc, location } => {
                out.append("call(");
                proc.push_text(out);
                out.append(")@");
                location.push_text(out);
            },
            HistoryEvent::FormalArgument(p) => {
                out.append("formal(");
                out.append(p.name.name.as_str());
                out.append(")");
            },
            HistoryEvent::ActualArgument(p) => {
                out.append("actual(");
                out.append(p.name.name.as_str());
                out.append(")");
            },
            HistoryEvent::Assignment(location) => {
                out.append("assign@");
                location.push_text(out);
            },
            HistoryEvent::Returned(location) => {
                out.append("returned@");
                location.push_text(out);
            },
            HistoryEvent::Invalidated { invalidation, location } => {
                out.append("invalid(");
                invalidation.push_text(out);
                out.append(")@");
                location.push_text(out);
            },
        }
        assert(out@ =~= before + self.text());
    }
}

/// The first invalidation in `s`, with its location.
pub open spec fn first_invalidated(s: Seq<HistoryEvent>) -> Option<(Invalidation, Location)>
    decreases s.len(),
{
    if s.len() == 0 {
        None
    } else if let HistoryEvent::Invalidated { invalidation, location } = s[0] {
        Some((invalidation, location))
    } else {
        first_invalidated(s.drop_first())
    }
}

/// The first invalidation in `s` that no call precedes.
pub open spec fn invalidated_before_call(s: Seq<HistoryEvent>) -> Option<(Invalidation, Location)>
    decreases s.len(),
{
    if s.len() == 0 {
        None
    } else {
        match s[0] {
            HistoryEvent::Invalidated { invalidation, location } => Some((invalidation, location)),
            HistoryEvent::Call { .. } => None,
            _ => invalidated_before_call(s.drop_first()),
        }
    }
}

/// The first call in `s` that an invalidation follows.
pub open spec fn call_before_invalidated(s: Seq<HistoryEvent>) -> Option<(Procname, Location)>
    decreases s.len(),
{
    if s.len() == 0 {
        None
    } else {
        match s[0] {
            HistoryEvent::Invalidated { .. } => None,
            HistoryEvent::Call { proc, location } => if first_invalidated(s.drop_first()) is Some {
                Some((proc, location))
            } else {
                None
            },
            _ => call_before_invalidated(s.drop_first()),
        }
    }
}

/// `s` invalidates the value for a reason of the given variant.
pub open spec fn invalidated_as(s: Seq<HistoryEvent>, variant: int) -> bool {
    exists|i: int|
        0 <= i < s.len() && (#[trigger] s[i]) is Invalidated
            && s[i]->invalidation.variant() == variant
}

/// The events as text, one behind the other.
pub open spec fn events_text(s: Seq<HistoryEvent>) -> Seq<char>
    decreases s.len(),
{
    if s.len() == 0 {
        seq![]
    } else if s.len() == 1 {
        s[0].text()
    } else {
        s[0].text() + " -> "@ + events_text(s.drop_first())
    }
}

/// The paths as text, one behind the other.
pub open spec fn paths_text(s: Seq<HistoryPath>) -> Seq<char>
    decreases s.len(),
{
    if s.len() == 0 {
        seq![]
    } else if s.len() == 1 {
        events_text(s[0].events@)
    } else {
        events_text(s[0].events@) + " | "@ + paths_text(s.drop_first())
    }
}

fn find_invalidated(l: &List<HistoryEvent>) -> (r: Option<(&Invalidation, &Location)>)
    ensures
        first_invalidated(l@) == (match r {
            Some((i, p)) => Some((*i, *p)),
            None => None,
        }),
    decreases l,
{
    match l {
        List::Nil => None,
        List::Cons(event, rest) => {
            assert(l@.drop_first() =~= elements(**rest));
            assert(l@[0] == *event);
            if let HistoryEvent::Invalidated { invalidation, location } = event {
                Some((invalidation, location))
            } else {
                find_invalidated(rest)
            }
        },
    }
}

fn find_invalidated_before_call(l: &List<HistoryEvent>) -> (r: Option<(&Invalidation, &Location)>)
    ensures
        invalidated_before_call(l@) == (match r {
            Some((i, p)) => Some((*i, *p)),
            None => None,
        }),
    decreases l,
{
    match l {
        List::Nil => None,
        List::Cons(event, rest) => {
            assert(l@.drop_first() =~= elements(**rest));
            assert(l@[0] == *event);
            match event {
                HistoryEvent::Invalidated { invalidation, location } => Some(
                    (invalidation, location),
                ),
                HistoryEvent::Call { .. } => None,
                _ => find_invalidated_before_call(rest),
            }
        },
    }
}

fn find_call_before_invalidated(l: &List<HistoryEvent>) -> (r: Option<(&Procname, &Location)>)
    ensures
        call_before_invalidated(l@) == (match r {
            Some((i, p)) => Some((*i, *p)),
            None => None,
        }),
    decreases l,
{
    match l {
        List::Nil => None,
        List::Cons(event, rest) => {
            assert(l@.drop_first() =~= elements(**rest));
            assert(l@[0] == *event);
            match event {
                HistoryEvent::Invalidated { .. } => None,
                HistoryEvent::Call { proc, location } => if find_invalidated(rest).is_some() {
                    Some((proc, location))
                } else {
                    None
                },
                _ => find_call_before_invalidated(rest),
            }
        },
    }
}

fn has_invalidated_as(l: &List<HistoryEvent>, inv: &Invalidation) -> (b: bool)
    ensures
        b == invalidated_as(l@, inv.variant()),
    decreases l,
{
    match l {
        List::Nil => false,
        List::Cons(event, rest) => {
            let ghost tail = elements(**rest);
            assert(l@[0] == *event);
            assert(forall|i: int| 0 <= i < tail.len() ==> l@[i + 1] == #[trigger] tail[i]);
            let here = match event {
                HistoryEvent::Invalidated { invalidation, .. } => invalidation.is_same_type(inv),
                _ => false,
            };
            if here {
                assert(l@[0] is Invalidated);
                true
            } else {
                let b = has_invalidated_as(rest, inv);
                proof {
                    if invalidated_as(l@, inv.variant()) {
                        let i = choose|i: int|
                            0 <= i < l@.len() && (#[trigger] l@[i]) is Invalidated
                                && l@[i]->invalidation.variant() == inv.variant();
                        assert(i > 0);
                        assert(tail[i - 1] is Invalidated);
                    }
                    if invalidated_as(tail, inv.variant()) {
                        let i = choose|i: int|
                            0 <= i < tail.len() && (#[trigger] tail[i]) is Invalidated
                                && tail[i]->invalidation.variant() == inv.variant();
                        assert(l@[i + 1] is Invalidated);
                    }
                }
                b
            }
        },
    }
}

fn push_events_text(l: &List<HistoryEvent>, out: &mut String)
    ensures
        final(out)@ == old(out)@ + events_text(l@),
    decreases l,
{
    let ghost before = out@;
    match l {
        List::Nil => {
            assert(before + events_text(l@) =~= before);
        },
        List::Cons(event, rest) => {
            assert(l@.drop_first() =~= elements(**rest));
            assert(l@[0] == *event);
            assert(l@.len() == 1 + elements(**rest).len());
            event.push_text(out);
            if !rest.is_empty() {
                out.append(" -> ");
                push_events_text(rest, out);
                assert(before + event.text() + " -> "@ + events_text(elements(**rest)) =~= before
                    + events_text(l@));
            }
        },
    }
}

fn push_paths_text(l: &List<HistoryPath>, out: &mut String)
    ensures
        final(out)@ == old(out)@ + paths_text(l@),
    decreases l,
{
    let ghost before = out@;
    match l {
        List::Nil => {
            assert(before + paths_text(l@) =~= before);
        },
        List::Cons(path, rest) => {
            assert(l@.drop_first() =~= elements(**rest));
            assert(l@[0] == *path);
            assert(l@.len() == 1 + elements(**rest).len());
            push_events_text(&path.events, out);
            if !rest.is_empty() {
                out.append(" | ");
                push_paths_text(rest, out);
                assert(before + events_text(path.events@) + " | "@ + paths_text(elements(**rest))
                    =~= before + paths_text(l@));
            }
        },
    }
}

/// Every path of `s` with `event` behind it.
pub open spec fn extended(s: Seq<HistoryPath>, event: HistoryEvent) -> Seq<Seq<HistoryEvent>> {
    Seq::new(s.len(), |i: int| s[i].events@.push(event))
}

/// The events of each path.
pub open spec fn path_events(s: Seq<HistoryPath>) -> Seq<Seq<HistoryEvent>> {
    Seq::new(s.len(), |i: int| s[i].events@)
}

fn extend_paths(l: List<HistoryPath>, event: &HistoryEvent) -> (r: List<HistoryPath>)
    ensures
        path_events(r@) == extended(l@, *event),
    decreases l,
{
    match l {
        List::Nil => {
            let r: List<HistoryPath> = List::Nil;
            assert(path_events(r@) =~= extended(l@, *event));
            r
        },
        List::Cons(path, rest) => {
            let ghost tail = elements(*rest);
            assert(l@[0] == path && l@.drop_first() =~= tail);
            let more = extend_paths(*rest, event);
            let ghost m = more@;
            let first = HistoryPath { events: path.events.appended(event.clone()) };
            let r = List::Cons(first, Box::new(more));
            assert(m.len() == tail.len()) by {
                assert(path_events(m).len() == extended(tail, *event).len());
            }
            assert(r@ =~= seq![first] + m);
            assert(path_events(r@) =~= extended(l@, *event)) by {
                assert forall|i: int| 0 <= i < r@.len() implies path_events(r@)[i] == extended(
                    l@,
                    *event,
                )[i] by {
                    if i > 0 {
                        assert(r@[i] == m[i - 1] && l@[i] == tail[i - 1]);
                        assert(path_events(m)[i - 1] == extended(tail, *event)[i - 1]);
                    }
                }
            }
            r
        },
    }
}

/// The events of each path between a call and the return from it.
pub open spec fn wrapped(s: Seq<HistoryPath>, proc: Procname, location: Location) -> Seq<
    Seq<HistoryEvent>,
> {
    Seq::new(
        s.len(),
        |i: int|
            (seq![(HistoryEvent::Call { proc, location })] + s[i].events@).push(
                (HistoryEvent::ReturnFromCall { proc, location }),
            ),
    )
}

fn wrap_paths(l: List<HistoryPath>, proc: &Procname, location: &Location) -> (r: List<HistoryPath>)
    ensures
        path_events(r@) == wrapped(l@, *proc, *location),
    decreases l,
{
    match l {
        List::Nil => {
            let r: List<HistoryPath> = List::Nil;
            assert(path_events(r@) =~= wrapped(l@, *proc, *location));
            r
        },
        List::Cons(path, rest) => {
            let ghost tail = elements(*rest);
            assert(l@[0] == path && l@.drop_first() =~= tail);
            let more = wrap_paths(*rest, proc, location);
            let ghost m = more@;
            let call = HistoryEvent::Call { proc: proc.clone(), location: location.clone() };
            let back = HistoryEvent::ReturnFromCall {
                proc: proc.clone(),
                location: location.clone(),
            };
            let first = HistoryPath { events: path.events.prepended(call).appended(back) };
            let r = List::Cons(first, Box::new(more));
            assert(m.len() == tail.len()) by {
                assert(path_events(m).len() == wrapped(tail, *proc, *location).len());
            }
            assert(r@ =~= seq![first] + m);
            assert(path_events(r@) =~= wrapped(l@, *proc, *location)) by {
                assert forall|i: int| 0 <= i < r@.len() implies path_events(r@)[i] == wrapped(
                    l@,
                    *proc,
                    *location,
                )[i] by {
                    if i > 0 {
                        assert(r@[i] == m[i - 1] && l@[i] == tail[i - 1]);
                        assert(path_events(m)[i - 1] == wrapped(tail, *proc, *location)[i - 1]);
                    }
                }
            }
            r
        },
    }
}

/// A path with the key of `path` is in `s`.
pub open spec fn has_path(s: Seq<HistoryPath>, path: HistoryPath) -> bool {
    exists|i: int| 0 <= i < s.len() && (#[trigger] s[i]).key() == path.key()
}

/// `a` followed by the paths of `b` that are not there yet.
pub open spec fn joined_paths(a: Seq<HistoryPath>, b: Seq<HistoryPath>) -> Seq<HistoryPath>
    decreases b.len(),
{
    if b.len() == 0 {
        a
    } else if has_path(a, b[0]) {
        joined_paths(a, b.drop_first())
    } else {
        joined_paths(a.push(b[0]), b.drop_first())
    }
}

fn contains_path(l: &List<HistoryPath>, path: &HistoryPath) -> (b: bool)
    ensures
        b == has_path(l@, *path),
    decreases l,
{
    match l {
        List::Nil => false,
        List::Cons(head, rest) => {
            let ghost tail = elements(**rest);
            assert(l@[0] == *head);
            assert(forall|i: int| 0 <= i < tail.len() ==> l@[i + 1] == #[trigger] tail[i]);
            if same_key(head, path) {
                true
            } else {
                let b = contains_path(rest, path);
                proof {
                    if has_path(l@, *path) {
                        let i = choose|i: int|
                            0 <= i < l@.len() && (#[trigger] l@[i]).key() == path.key();
                        assert(tail[i - 1].key() == path.key());
                    }
                    if has_path(tail, *path) {
                        let i = choose|i: int|
                            0 <= i < tail.len() && (#[trigger] tail[i]).key() == path.key();
                        assert(l@[i + 1].key() == path.key());
                    }
                }
                b
            }
        },
    }
}

fn join_paths(a: List<HistoryPath>, b: &List<HistoryPath>) -> (r: List<HistoryPath>)
    ensures
        r@ == joined_paths(a@, b@),
    decreases b,
{
    match b {
        List::Nil => a,
        List::Cons(path, rest) => {
            assert(b@[0] == *path && b@.drop_first() =~= elements(**rest));
            if contains_path(&a, path) {
                join_paths(a, rest)
            } else {
                join_paths(a.appended(path.clone()), rest)
            }
        },
    }
}

/// Some path of `s` invalidates the value for a reason of the given variant.
pub open spec fn some_path_invalidated_as(s: Seq<HistoryPath>, variant: int) -> bool {
    exists|i: int| 0 <= i < s.len() && invalidated_as((#[trigger] s[i]).events@, variant)
}

fn has_path_invalidated_as(l: &List<HistoryPath>, inv: &Invalidation) -> (b: bool)
    ensures
        b == some_path_invalidated_as(l@, inv.variant()),
    decreases l,
{
    match l {
        List::Nil => false,
        List::Cons(path, rest) => {
            let ghost tail = elements(**rest);
            assert(l@[0] == *path);
            assert(forall|i: int| 0 <= i < tail.len() ==> l@[i + 1] == #[trigger] tail[i]);
            if has_invalidated_as(&path.events, inv) {
                true
            } else {
                let b = has_path_invalidated_as(rest, inv);
                proof {
                    if some_path_invalidated_as(l@, inv.variant()) {
                        let i = choose|i: int|
                            0 <= i < l@.len() && invalidated_as(
                                (#[trigger] l@[i]).events@,
                                inv.variant(),
                            );
                        assert(invalidated_as(tail[i - 1].events@, inv.variant()));
                    }
                    if some_path_invalidated_as(tail, inv.variant()) {
                        let i = choose|i: int|
                            0 <= i < tail.len() && invalidated_as(
                                (#[trigger] tail[i]).events@,
                                inv.variant(),
                            );
                        assert(invalidated_as(l@[i + 1].events@, inv.variant()));
                    }
                }
                b
            }
        },
    }
}

/// A pair of references as a pair of values.
pub open spec fn deref_pair<A, B>(r: Option<(&A, &B)>) -> Option<(A, B)> {
    match r {
        Some((a, b)) => Some((*a, *b)),
        None => None,
    }
}

impl ValueHistory {
    /// The events of each path.
    pub open spec fn view_paths(self) -> Seq<Seq<HistoryEvent>> {
        path_events(self.paths@)
    }

    /// The events of the first path; none for the epoch.
    pub open spec fn primary(self) -> Seq<HistoryEvent> {
        if self.paths@.len() == 0 {
            seq![]
        } else {
            self.paths@[0].events@
        }
    }

    /// The history of a value of which nothing is known.
    pub open spec fn start() -> ValueHistory {
        ValueHistory { paths: List::Nil }
    }

    /// The history of one event.
    pub open spec fn of_event(event: HistoryEvent) -> ValueHistory {
        ValueHistory {
            paths: List::Cons(
                HistoryPath { events: List::Cons(event, Box::new(List::Nil)) },
                Box::new(List::Nil),
            ),
        }
    }

    pub fn epoch() -> (r: Self)
        ensures
            r == Self::start(),
    {
        ValueHistory { paths: List::Nil }
    }

    pub fn is_epoch(&self) -> (b: bool)
        ensures
            b == (*self == Self::start()),
            b == (self.paths@.len() == 0),
    {
        self.paths.is_empty()
    }

    pub fn from_event(event: HistoryEvent) -> (r: Self)
        ensures
            r == Self::of_event(event),
    {
        ValueHistory {
            paths: List::Cons(
                HistoryPath { events: List::Cons(event, Box::new(List::Nil)) },
                Box::new(List::Nil),
            ),
        }
    }

    pub fn formal_argument(pvar: Pvar) -> (r: Self)
        ensures
            r == Self::of_event(HistoryEvent::FormalArgument(pvar)),
    {
        Self::from_event(HistoryEvent::FormalArgument(pvar))
    }

    pub fn assignment(location: Location) -> (r: Self)
        ensures
            r == Self::of_event(HistoryEvent::Assignment(location)),
    {
        Self::from_event(HistoryEvent::Assignment(location))
    }

    pub fn returned(location: Location) -> (r: Self)
        ensures
            r == Self::of_event(HistoryEvent::Returned(location)),
    {
        Self::from_event(HistoryEvent::Returned(location))
    }

    pub fn invalidated(invalidation: Invalidation, location: Location) -> (r: Self)
        ensures
            r == Self::of_event((HistoryEvent::Invalidated { invalidation, location })),
    {
        Self::from_event(HistoryEvent::Invalidated { invalidation, location })
    }

    /// Puts `event` behind every path; the epoch becomes the history of `event`.
    pub fn append_event(self, event: HistoryEvent) -> (r: Self)
        ensures
            self.paths@.len() == 0 ==> r == Self::of_event(event),
            self.paths@.len() > 0 ==> r.view_paths() == extended(self.paths@, event),
    {
        if self.paths.is_empty() {
            Self::from_event(event)
        } else {
            ValueHistory { paths: extend_paths(self.paths, &event) }
        }
    }

    pub fn append_assignment(self, location: Location) -> (r: Self)
        ensures
            self.paths@.len() == 0 ==> r == Self::of_event(HistoryEvent::Assignment(location)),
            self.paths@.len() > 0 ==> r.view_paths() == extended(
                self.paths@,
                HistoryEvent::Assignment(location),
            ),
    {
        self.append_event(HistoryEvent::Assignment(location))
    }

    /// The history as seen by a caller: each path between the call and the
    /// return from it.
    pub fn wrap_call(self, proc: &Procname, location: &Location) -> (r: Self)
        ensures
            r.view_paths() == wrapped(self.paths@, *proc, *location),
    {
        ValueHistory { paths: wrap_paths(self.paths, proc, location) }
    }

    /// The history with the paths of both, without repetition.
    pub open spec fn merged(self, other: ValueHistory) -> ValueHistory {
        ValueHistory { paths: list_of(joined_paths(self.paths@, other.paths@)) }
    }

    pub fn merge(&self, other: &ValueHistory) -> (r: Self)
        ensures
            r == self.merged(*other),
            r.paths@ == joined_paths(self.paths@, other.paths@),
    {
        let r = ValueHistory { paths: join_paths(self.paths.clone(), &other.paths) };
        proof {
            let s = joined_paths(self.paths@, other.paths@);
            lemma_list_of(s);
            lemma_same_elements(r.paths, list_of(s));
        }
        r
    }

    /// The first path, if there is one.
    pub fn primary_path(&self) -> (r: Option<&HistoryPath>)
        ensures
            r is Some <==> self.paths@.len() > 0,
            r matches Some(p) ==> *p == self.paths@[0],
    {
        match &self.paths {
            List::Nil => None,
            List::Cons(path, rest) => {
                assert(self.paths@[0] == *path);
                assert(self.paths@.len() == 1 + elements(**rest).len());
                Some(path)
            },
        }
    }

    /// The first invalidation on the primary path.
    pub fn first_invalidation(&self) -> (r: Option<(&Invalidation, &Location)>)
        ensures
            deref_pair(r) == first_invalidated(self.primary()),
    {
        match self.primary_path() {
            Some(path) => find_invalidated(&path.events),
            None => None,
        }
    }

    /// The first invalidation on the primary path that no call precedes.
    pub fn first_invalidation_before_call(&self) -> (r: Option<(&Invalidation, &Location)>)
        ensures
            deref_pair(r) == invalidated_before_call(self.primary()),
    {
        match self.primary_path() {
            Some(path) => find_invalidated_before_call(&path.events),
            None => None,
        }
    }

    /// The first call on the primary path that an invalidation follows.
    pub fn first_call_before_invalidation(&self) -> (r: Option<(&Procname, &Location)>)
        ensures
            deref_pair(r) == call_before_invalidated(self.primary()),
    {
        match self.primary_path() {
            Some(path) => find_call_before_invalidated(&path.events),
            None => None,
        }
    }

    /// The invalidation of a value that was passed as an argument: the first one
    /// behind an initial [`HistoryEvent::ActualArgument`].
    pub open spec fn argument_invalidated(self) -> Option<(Invalidation, Location)> {
        let s = self.primary();
        if s.len() > 0 && s[0] is ActualArgument {
            first_invalidated(s.drop_first())
        } else {
            None
        }
    }

    pub fn caller_argument_invalidation(&self) -> (r: Option<(&Invalidation, &Location)>)
        ensures
            deref_pair(r) == self.argument_invalidated(),
    {
        match self.primary_path() {
            Some(path) => match &path.events {
                List::Cons(event, rest) => {
                    assert(self.primary()[0] == *event);
                    assert(self.primary().drop_first() =~= elements(**rest));
                    match event {
                        HistoryEvent::ActualArgument(_) => find_invalidated(rest),
                        _ => None,
                    }
                },
                List::Nil => None,
            },
            None => None,
        }
    }

    /// Whether some path invalidates the value for a reason of the same type.
    pub fn contains_invalidation_of_same_type(&self, invalidation: &Invalidation) -> (b: bool)
        ensures
            b == some_path_invalidated_as(self.paths@, invalidation.variant()),
    {
        has_path_invalidated_as(&self.paths, invalidation)
    }

    /// The history as text.
    pub open spec fn text(self) -> Seq<char> {
        paths_text(self.paths@)
    }

    pub fn push_text(&self, out: &mut String)
        ensures
            final(out)@ == old(out)@ + self.text(),
    {
        push_paths_text(&self.paths, out);
    }

    pub fn signature(&self) -> (r: String)
        ensures
            r@ == self.text(),
    {
        let mut out = String::new();
        self.push_text(&mut out);
        assert(Seq::<char>::empty() + self.text() =~= self.text());
        out
    }
}

impl ValueWithHistory {
    pub fn new(addr: AbstractValue, history: ValueHistory) -> (r: Self)
        ensures
            r == (ValueWithHistory { addr, history }),
    {
        ValueWithHistory { addr, history }
    }
}

} // verus!
