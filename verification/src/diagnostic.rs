//! Diagnostics: error classification and reporting.

use crate::abstract_value::AbstractValue;
use crate::attribute::Allocator;
use crate::bug_trace::{
    access_history_to_bug_trace, access_trace, deepest_level, entry,
    invalidation_history_to_bug_trace, invalidation_trace, make_bug_trace_entry, max_level,
    trace_view, BugTraceEntry, EntryV,
};
use crate::invalidation::Invalidation;
use crate::key::{number_key, option_key, push_number, push_option_key, Key, KeyV, Keyed};
use crate::list::Twin;
use crate::ordered::Dup;
use crate::sil::{clone_option, Location};
use crate::text::{int_text, push_int};
use crate::value_history::{
    call_before_invalidated, first_invalidated, invalidated_before_call, some_path_invalidated_as,
    ValueHistory,
};
use vstd::prelude::*;

verus! {

/// A bug found during analysis.
#[derive(Debug, PartialEq, Eq)]
pub enum Diagnostic {
    /// Accessing an address that has been invalidated (null deref, use-after-free, etc.).
    AccessToInvalidAddress {
        addr: AbstractValue,
        invalidation: Invalidation,
        access_location: Location,
        trace_access_location: Option<Location>,
        access_history: ValueHistory,
        invalidation_history: ValueHistory,
    },
    /// Memory leak: allocated but never freed.
    MemoryLeak { addr: AbstractValue, allocator: Allocator, allocation_location: Location },
    /// Retain cycle detected.
    RetainCycle { location: Location },
}

/// The well-known types of issues.
#[derive(Clone, Copy, Debug, PartialEq, Eq, Structural)]
pub enum IssueTypeId {
    NullptrDereference,
    ComparedToNullAndDereferenced,
    UseAfterFree,
    UseAfterDelete,
    UseAfterLifetime,
    OptionalEmptyAccess,
    VectorInvalidation,
    PulseError,
    MemoryLeakC,
    RetainCycle,
}

impl Clone for Diagnostic {
    fn clone(&self) -> (r: Self)
        ensures
            r == *self,
    {
        match self {
            Diagnostic::AccessToInvalidAddress {
                addr,
                invalidation,
                access_location,
                trace_access_location,
                access_history,
                invalidation_history,
            } => Diagnostic::AccessToInvalidAddress {
                addr: *addr,
                invalidation: invalidation.clone(),
                access_location: access_location.clone(),
                trace_access_location: clone_option(trace_access_location),
                access_history: access_history.clone(),
                invalidation_history: invalidation_history.clone(),
            },
            Diagnostic::MemoryLeak { addr, allocator, allocation_location } => {
                Diagnostic::MemoryLeak {
                    addr: *addr,
                    allocator: allocator.clone(),
                    allocation_location: allocation_location.clone(),
                }
            },
            Diagnostic::RetainCycle { location } => Diagnostic::RetainCycle {
                location: location.clone(),
            },
        }
    }
}

impl Twin for Diagnostic {
    fn twin(&self) -> (r: Self) {
        self.clone()
    }
}

impl Keyed for Diagnostic {
    open spec fn key(&self) -> KeyV {
        match self {
            Diagnostic::AccessToInvalidAddress {
                addr,
                invalidation,
                access_location,
                trace_access_location,
                access_history,
                invalidation_history,
            } => {
                number_key(0)
                    + addr.key()
                    + invalidation.key()
                    + access_location.key()
                    + option_key(*trace_access_location)
                    + access_history.key()
                    + invalidation_history.key()
            },
            Diagnostic::MemoryLeak { addr, allocator, allocation_location } => {
                number_key(1) + addr.key() + allocator.key() + allocation_location.key()
            },
            Diagnostic::RetainCycle { location } => number_key(2) + location.key(),
        }
    }

    fn push_key(&self, out: &mut Key) {
        let ghost before = out@;
        match self {
            Diagnostic::AccessToInvalidAddress {
                addr,
                invalidation,
                access_location,
                trace_access_location,
                access_history,
                invalidation_history,
            } => {
                push_number(out, 0);
                addr.push_key(out);
                invalidation.push_key(out);
                access_location.push_key(out);
                push_option_key(out, trace_access_location);
                access_history.push_key(out);
                invalidation_history.push_key(out);
                assert(
                    before
                        + number_key(0)
                        + addr.key()
                        + invalidation.key()
                        + access_location.key()
                        + option_key(*trace_access_location)
                        + access_history.key()
                        + invalidation_history.key()
                        =~= before
                            + (
                                number_key(0)
                                    + addr.key()
                                    + invalidation.key()
                                    + access_location.key()
                                    + option_key(*trace_access_location)
                                    + access_history.key()
                                    + invalidation_history.key()
                            )
                );
            },
            Diagnostic::MemoryLeak { addr, allocator, allocation_location } => {
                push_number(out, 1);
                addr.push_key(out);
                allocator.push_key(out);
                allocation_location.push_key(out);
                assert(
                    before
                        + number_key(1)
                        + addr.key()
                        + allocator.key()
                        + allocation_location.key()
                        =~= before
                            + (
                                number_key(1)
                                    + addr.key()
                                    + allocator.key()
                                    + allocation_location.key()
                            )
                );
            },
            Diagnostic::RetainCycle { location } => {
                push_number(out, 2);
                location.push_key(out);
                assert(
                    before + number_key(2) + location.key()
                        =~= before + (number_key(2) + location.key())
                );
            },
        }
    }
}

impl View for Diagnostic {
    type V = Diagnostic;

    open spec fn view(&self) -> Diagnostic {
        *self
    }
}

impl Dup for Diagnostic {
    fn dup(&self) -> (r: Self) {
        self.clone()
    }
}

impl IssueTypeId {
    pub open spec fn text(self) -> Seq<char> {
        match self {
            IssueTypeId::NullptrDereference => "NULLPTR_DEREFERENCE"@,
            IssueTypeId::ComparedToNullAndDereferenced => "COMPARED_TO_NULL_AND_DEREFERENCED"@,
            IssueTypeId::UseAfterFree => "USE_AFTER_FREE"@,
            IssueTypeId::UseAfterDelete => "USE_AFTER_DELETE"@,
            IssueTypeId::UseAfterLifetime => "USE_AFTER_LIFETIME"@,
            IssueTypeId::OptionalEmptyAccess => "OPTIONAL_EMPTY_ACCESS"@,
            IssueTypeId::VectorInvalidation => "VECTOR_INVALIDATION"@,
            IssueTypeId::PulseError => "PULSE_ERROR"@,
            IssueTypeId::MemoryLeakC => "MEMORY_LEAK_C"@,
            IssueTypeId::RetainCycle => "RETAIN_CYCLE"@,
        }
    }

    /// The name under which issues of the type are reported.
    pub fn id(self) -> (r: &'static str)
        ensures
            r@ == self.text(),
    {
        match self {
            IssueTypeId::NullptrDereference => "NULLPTR_DEREFERENCE",
            IssueTypeId::ComparedToNullAndDereferenced => "COMPARED_TO_NULL_AND_DEREFERENCED",
            IssueTypeId::UseAfterFree => "USE_AFTER_FREE",
            IssueTypeId::UseAfterDelete => "USE_AFTER_DELETE",
            IssueTypeId::UseAfterLifetime => "USE_AFTER_LIFETIME",
            IssueTypeId::OptionalEmptyAccess => "OPTIONAL_EMPTY_ACCESS",
            IssueTypeId::VectorInvalidation => "VECTOR_INVALIDATION",
            IssueTypeId::PulseError => "PULSE_ERROR",
            IssueTypeId::MemoryLeakC => "MEMORY_LEAK_C",
            IssueTypeId::RetainCycle => "RETAIN_CYCLE",
        }
    }
}

/// An issue as it is reported.
#[derive(Debug, PartialEq, Eq)]
pub struct Issue {
    pub bug_type: String,
    pub qualifier: String,
    pub procedure: String,
    pub procedure_start_line: Option<u32>,
    pub file: String,
    pub line: u32,
    pub column: u32,
    pub trace: String,
    pub bug_trace: Option<Vec<BugTraceEntry>>,
    pub bug_trace_length: Option<u32>,
    pub bug_trace_max_depth: Option<u32>,
}

/// What an issue says.
#[verifier::ext_equal]
pub struct IssueV {
    pub bug_type: Seq<char>,
    pub qualifier: Seq<char>,
    pub procedure: Seq<char>,
    pub procedure_start_line: Option<u32>,
    pub file: Seq<char>,
    pub line: u32,
    pub column: u32,
    pub trace: Seq<char>,
    pub bug_trace: Option<Seq<EntryV>>,
    pub bug_trace_length: Option<int>,
    pub bug_trace_max_depth: Option<int>,
}

/// What an optional trace says.
pub open spec fn optional_trace(t: Option<Vec<BugTraceEntry>>) -> Option<Seq<EntryV>> {
    match t {
        Some(v) => Some(trace_view(v@)),
        None => None,
    }
}

pub open spec fn optional_int(n: Option<u32>) -> Option<int> {
    match n {
        Some(m) => Some(m as int),
        None => None,
    }
}

impl View for Issue {
    type V = IssueV;

    open spec fn view(&self) -> IssueV {
        IssueV {
            bug_type: self.bug_type@,
            qualifier: self.qualifier@,
            procedure: self.procedure@,
            procedure_start_line: self.procedure_start_line,
            file: self.file@,
            line: self.line,
            column: self.column,
            trace: self.trace@,
            bug_trace: optional_trace(self.bug_trace),
            bug_trace_length: optional_int(self.bug_trace_length),
            bug_trace_max_depth: optional_int(self.bug_trace_max_depth),
        }
    }
}

/// A null value from a line.
pub open spec fn null_from_line(line: int) -> Seq<char> {
    "address could be null (null value originating from line "@ + int_text(line)
        + ") and is dereferenced"@
}

impl Diagnostic {
    /// The location where the bug manifests.
    pub open spec fn location(self) -> Location {
        match self {
            Diagnostic::AccessToInvalidAddress { access_location, .. } => access_location,
            Diagnostic::MemoryLeak { allocation_location, .. } => allocation_location,
            Diagnostic::RetainCycle { location } => location,
        }
    }

    /// The well-known issue type.
    pub open spec fn issue_type(self) -> IssueTypeId {
        match self {
            Diagnostic::AccessToInvalidAddress { invalidation, .. } => match invalidation {
                Invalidation::ConstantDereference(c) => if c.value == 0 {
                    IssueTypeId::NullptrDereference
                } else {
                    IssueTypeId::PulseError
                },
                Invalidation::ComparedToNullInThisProcedure(_) =>
                    IssueTypeId::ComparedToNullAndDereferenced,
                Invalidation::CFree | Invalidation::FClose => IssueTypeId::UseAfterFree,
                Invalidation::CppDelete | Invalidation::CppDeleteArray =>
                    IssueTypeId::UseAfterDelete,
                Invalidation::GoneOutOfScope(_, _) => IssueTypeId::UseAfterLifetime,
                Invalidation::OptionalEmpty => IssueTypeId::OptionalEmptyAccess,
                Invalidation::StdVector(_) => IssueTypeId::VectorInvalidation,
                _ => IssueTypeId::PulseError,
            },
            Diagnostic::MemoryLeak { .. } => IssueTypeId::MemoryLeakC,
            Diagnostic::RetainCycle { .. } => IssueTypeId::RetainCycle,
        }
    }

    /// Where the bug comes from: for an invalid access where the address was made
    /// invalid, otherwise where the bug manifests.
    pub open spec fn origin(self) -> Option<Location> {
        match self {
            Diagnostic::AccessToInvalidAddress { invalidation_history, .. } => {
                match first_invalidated(invalidation_history.primary()) {
                    Some((_, location)) => Some(location),
                    None => None,
                }
            },
            _ => Some(self.location()),
        }
    }

    /// What identifies the same bug across different instructions: its type and
    /// where it comes from.
    pub open spec fn dedup_text(self) -> Seq<char> {
        self.issue_type().text() + "|"@ + (match self.origin() {
            Some(location) => location.text(),
            None => seq![],
        })
    }

    /// The message of the diagnostic. A null value is described by where it comes
    /// from: an argument of the caller, a place before any call, or a call.
    pub open spec fn text(self) -> Seq<char> {
        match self {
            Diagnostic::AccessToInvalidAddress {
                invalidation,
                access_history,
                invalidation_history,
                ..
            } => {
                let argument = access_history.argument_invalidated();
                let local = invalidated_before_call(access_history.primary());
                let call = call_before_invalidated(access_history.primary());
                let origin = first_invalidated(invalidation_history.primary());
                if invalidation.null_deref() && argument is Some {
                    null_from_line((argument->0).1.line as int)
                } else if invalidation.null_deref() && local is Some {
                    null_from_line((local->0).1.line as int)
                } else if invalidation.null_deref() && call is Some {
                    "address could be null (from the call to `"@ + (call->0).0.text()
                        + "` on line "@ + int_text((call->0).1.line as int)
                        + ") and is dereferenced"@
                } else if invalidation.null_deref() && origin is Some {
                    null_from_line((origin->0).1.line as int)
                } else if origin is Some {
                    "accessing address that "@ + invalidation.text() + " from line "@ + int_text(
                        (origin->0).1.line as int,
                    )
                } else {
                    "accessing address that "@ + invalidation.text()
                }
            },
            Diagnostic::MemoryLeak { allocator, .. } => "memory allocated via "@ + allocator.text()
                + " is leaked"@,
            Diagnostic::RetainCycle { location } => "retain cycle at "@ + location.text(),
        }
    }

    /// The message followed by the histories that are known.
    pub open spec fn trace_text(self) -> Seq<char> {
        match self {
            Diagnostic::AccessToInvalidAddress { access_history, invalidation_history, .. } => {
                let a = if invalidation_history.paths@.len() == 0 {
                    self.text()
                } else {
                    self.text() + "; invalidation history: "@ + invalidation_history.text()
                };
                if access_history.paths@.len() == 0 {
                    a
                } else {
                    a + "; access history: "@ + access_history.text()
                }
            },
            _ => self.text(),
        }
    }

    /// How the access part of a trace is introduced.
    pub open spec fn access_start(self) -> Seq<char> {
        match self.issue_type() {
            IssueTypeId::UseAfterFree | IssueTypeId::UseAfterDelete
            | IssueTypeId::UseAfterLifetime =>
                "use-after-lifetime part of the trace starts here"@,
            _ => "access part of the trace starts here"@,
        }
    }

    /// The steps of the invalidation.
    pub open spec fn invalidation_part(self) -> Seq<EntryV> {
        match self {
            Diagnostic::AccessToInvalidAddress { access_location, invalidation_history, .. } =>
                if invalidation_history.paths@.len() == 0 {
                    seq![]
                } else {
                    seq![
                        entry(
                            1,
                            access_location,
                            "invalidation part of the trace starts here"@,
                        ),
                    ] + invalidation_trace(invalidation_history, access_location, 2)
                },
            _ => seq![],
        }
    }

    /// The steps of the access.
    pub open spec fn access_part(self) -> Seq<EntryV> {
        match self {
            Diagnostic::AccessToInvalidAddress { access_location, access_history, .. } =>
                if access_history.paths@.len() == 0 {
                    seq![]
                } else {
                    let steps = access_trace(access_history.primary(), access_location, 2);
                    let depth = match max_level(steps) {
                        Some(m) => m,
                        None => 2,
                    };
                    seq![entry(1, access_location, self.access_start())] + steps + seq![
                        entry(depth, access_location, "invalid access occurs here"@),
                    ]
                },
            _ => seq![],
        }
    }

    /// The trace of the bug: how the address became invalid, then how it came to
    /// be accessed.
    pub open spec fn structured_trace(self) -> Option<Seq<EntryV>> {
        match self {
            Diagnostic::AccessToInvalidAddress { .. } => {
                let steps = self.invalidation_part() + self.access_part();
                if steps.len() == 0 {
                    None
                } else {
                    Some(steps)
                }
            },
            Diagnostic::MemoryLeak { allocator, allocation_location, .. } => Some(
                seq![
                    entry(
                        0,
                        allocation_location,
                        "memory allocated via "@ + allocator.text() + " here"@,
                    ),
                ],
            ),
            Diagnostic::RetainCycle { location } => Some(
                seq![entry(0, location, "retain cycle here"@)],
            ),
        }
    }

    /// The traces are short enough for their lengths and levels to be counted.
    pub open spec fn countable(self) -> bool {
        match self {
            Diagnostic::AccessToInvalidAddress { access_history, invalidation_history, .. } =>
                2 * access_history.primary().len() + invalidation_history.primary().len() + 10
                    <= u32::MAX,
            _ => true,
        }
    }

    /// The issue that reports the diagnostic.
    pub open spec fn issue(
        self,
        procedure: Seq<char>,
        procedure_start_line: Option<u32>,
        latent: bool,
        suppressed: bool,
    ) -> IssueV {
        IssueV {
            bug_type: if latent {
                self.issue_type().text() + "_LATENT"@
            } else {
                self.issue_type().text()
            },
            qualifier: self.text(),
            procedure,
            procedure_start_line,
            file: self.location().file.text(),
            line: self.location().line as u32,
            column: self.location().col as u32,
            trace: if suppressed {
                "*** SUPPRESSED ***, "@ + self.trace_text()
            } else {
                self.trace_text()
            },
            bug_trace: self.structured_trace(),
            bug_trace_length: match self.structured_trace() {
                Some(t) => Some(t.len() as int),
                None => None,
            },
            bug_trace_max_depth: match self.structured_trace() {
                Some(t) => max_level(t),
                None => None,
            },
        }
    }

    /// The bug is not worth reporting: a constant is accessed, but nothing in the
    /// history of the access made the address that constant.
    pub open spec fn suppressed(self) -> bool {
        match self {
            Diagnostic::AccessToInvalidAddress { invalidation, access_history, .. } => (
            invalidation is ConstantDereference || invalidation is ComparedToNullInThisProcedure)
                && !some_path_invalidated_as(access_history.paths@, invalidation.variant()),
            _ => false,
        }
    }

    /// Deduplication key: identifies the same bug across different instructions.
    ///
    /// Uses the issue type and the location of the invalidation rather than that of
    /// the access, because the same null pointer can be dereferenced at several
    /// instructions that come from one place in the source.
    pub fn dedup_key(&self) -> (r: String)
        ensures
            r@ == self.dedup_text(),
    {
        let mut out = String::new();
        out.append(self.get_issue_type());
        out.append("|");
        match self {
            Diagnostic::AccessToInvalidAddress { invalidation_history, .. } => {
                if let Some((_, location)) = invalidation_history.first_invalidation() {
                    location.push_text(&mut out);
                }
            },
            _ => self.get_location().push_text(&mut out),
        }
        assert(out@ =~= self.dedup_text());
        out
    }

    /// Get the location where the bug manifests.
    pub fn get_location(&self) -> (r: &Location)
        ensures
            *r == self.location(),
    {
        match self {
            Diagnostic::AccessToInvalidAddress { access_location, .. } => access_location,
            Diagnostic::MemoryLeak { allocation_location, .. } => allocation_location,
            Diagnostic::RetainCycle { location } => location,
        }
    }

    /// Get the well-known issue type ID.
    pub fn get_issue_type_id(&self) -> (r: IssueTypeId)
        ensures
            r == self.issue_type(),
    {
        match self {
            Diagnostic::AccessToInvalidAddress { invalidation, .. } => {
                if invalidation.is_null_deref() {
                    return IssueTypeId::NullptrDereference;
                }
                match invalidation {
                    Invalidation::ComparedToNullInThisProcedure(_) => {
                        IssueTypeId::ComparedToNullAndDereferenced
                    },
                    Invalidation::CFree | Invalidation::FClose => IssueTypeId::UseAfterFree,
                    Invalidation::CppDelete | Invalidation::CppDeleteArray => {
                        IssueTypeId::UseAfterDelete
                    },
                    Invalidation::GoneOutOfScope(_, _) => IssueTypeId::UseAfterLifetime,
                    Invalidation::OptionalEmpty => IssueTypeId::OptionalEmptyAccess,
                    Invalidation::StdVector(_) => IssueTypeId::VectorInvalidation,
                    _ => IssueTypeId::PulseError,
                }
            },
            Diagnostic::MemoryLeak { .. } => IssueTypeId::MemoryLeakC,
            Diagnostic::RetainCycle { .. } => IssueTypeId::RetainCycle,
        }
    }

    /// Get the issue type string for reporting.
    pub fn get_issue_type(&self) -> (r: &'static str)
        ensures
            r@ == self.issue_type().text(),
    {
        self.get_issue_type_id().id()
    }

    fn push_null_from_line(out: &mut String, line: i32)
        ensures
            final(out)@ == old(out)@ + null_from_line(line as int),
    {
        let ghost before = out@;
        out.append("address could be null (null value originating from line ");
        push_int(out, line as i64);
        out.append(") and is dereferenced");
        assert(out@ =~= before + null_from_line(line as int));
    }

    /// Appends the message of the diagnostic.
    pub fn push_text(&self, out: &mut String)
        ensures
            final(out)@ == old(out)@ + self.text(),
    {
        let ghost before = out@;
        match self {
            Diagnostic::AccessToInvalidAddress {
                invalidation,
                access_history,
                invalidation_history,
                ..
            } => {
                if invalidation.is_null_deref() {
                    if let Some((_, loc)) = access_history.caller_argument_invalidation() {
                        Self::push_null_from_line(out, loc.line);
                        return;
                    }
                    if let Some((_, loc)) = access_history.first_invalidation_before_call() {
                        Self::push_null_from_line(out, loc.line);
                        return;
                    }
                    if let Some((proc, loc)) = access_history.first_call_before_invalidation() {
                        out.append("address could be null (from the call to `");
                        proc.push_text(out);
                        out.append("` on line ");
                        push_int(out, loc.line as i64);
                        out.append(") and is dereferenced");
                        assert(out@ =~= before + self.text());
                        return;
                    }
                    if let Some((_, loc)) = invalidation_history.first_invalidation() {
                        Self::push_null_from_line(out, loc.line);
                        return;
                    }
                }
                out.append("accessing address that ");
                invalidation.push_text(out);
                if let Some((_, loc)) = invalidation_history.first_invalidation() {
                    out.append(" from line ");
                    push_int(out, loc.line as i64);
                }
            },
            Diagnostic::MemoryLeak { allocator, .. } => {
                out.append("memory allocated via ");
                allocator.push_text(out);
                out.append(" is leaked");
            },
            Diagnostic::RetainCycle { location } => {
                out.append("retain cycle at ");
                location.push_text(out);
            },
        }
        assert(out@ =~= before + self.text());
    }

    /// The message of the diagnostic.
    pub fn to_string(&self) -> (r: String)
        ensures
            r@ == self.text(),
    {
        let mut out = String::new();
        self.push_text(&mut out);
        assert(Seq::<char>::empty() + self.text() =~= self.text());
        out
    }

    fn push_trace_message(&self, out: &mut String)
        ensures
            final(out)@ == old(out)@ + self.trace_text(),
    {
        let ghost before = out@;
        self.push_text(out);
        if let Diagnostic::AccessToInvalidAddress { access_history, invalidation_history, .. } =
            self {
            if !invalidation_history.is_epoch() {
                out.append("; invalidation history: ");
                invalidation_history.push_text(out);
            }
            if !access_history.is_epoch() {
                out.append("; access history: ");
                access_history.push_text(out);
            }
        }
        assert(out@ =~= before + self.trace_text());
    }

    fn access_trace_start_description(&self) -> (r: String)
        ensures
            r@ == self.access_start(),
    {
        match self.get_issue_type_id() {
            IssueTypeId::UseAfterFree | IssueTypeId::UseAfterDelete
            | IssueTypeId::UseAfterLifetime => {
                "use-after-lifetime part of the trace starts here".to_string()
            },
            _ => "access part of the trace starts here".to_string(),
        }
    }

    fn invalidation_entries(
        invalidation_history: &ValueHistory,
        access_location: &Location,
    ) -> (r: Vec<BugTraceEntry>)
        requires
            invalidation_history.primary().len() + 10 <= u32::MAX,
        ensures
            trace_view(r@) == (if invalidation_history.paths@.len() == 0 {
                seq![]
            } else {
                seq![
                    entry(1, *access_location, "invalidation part of the trace starts here"@),
                ] + invalidation_trace(*invalidation_history, *access_location, 2)
            }),
            r@.len() <= invalidation_history.primary().len() + 2,
    {
        let mut trace: Vec<BugTraceEntry> = Vec::new();
        if invalidation_history.is_epoch() {
            assert(trace_view(trace@) =~= seq![]);
            return trace;
        }
        trace.push(
            make_bug_trace_entry(
                1,
                access_location,
                "invalidation part of the trace starts here".to_string(),
            ),
        );
        let ghost first = trace@;
        let mut more = invalidation_history_to_bug_trace(invalidation_history, access_location, 2);
        let ghost tail = more@;
        trace.append(&mut more);
        assert(trace@ =~= first + tail);
        assert(trace_view(trace@) =~= trace_view(first) + trace_view(tail));
        assert(trace_view(first) =~= seq![
            entry(1, *access_location, "invalidation part of the trace starts here"@),
        ]);
        trace
    }

    fn access_entries(&self, access_history: &ValueHistory, access_location: &Location) -> (r: Vec<
        BugTraceEntry,
    >)
        requires
            2 * access_history.primary().len() + 10 <= u32::MAX,
        ensures
            trace_view(r@) == (if access_history.paths@.len() == 0 {
                seq![]
            } else {
                let steps = access_trace(access_history.primary(), *access_location, 2);
                let depth = match max_level(steps) {
                    Some(m) => m,
                    None => 2,
                };
                seq![entry(1, *access_location, self.access_start())] + steps + seq![
                    entry(depth, *access_location, "invalid access occurs here"@),
                ]
            }),
            r@.len() <= 2 * access_history.primary().len() + 2,
    {
        let mut trace: Vec<BugTraceEntry> = Vec::new();
        if access_history.is_epoch() {
            assert(trace_view(trace@) =~= seq![]);
            return trace;
        }
        trace.push(
            make_bug_trace_entry(1, access_location, self.access_trace_start_description()),
        );
        let ghost first = trace@;
        let mut more = access_history_to_bug_trace(access_history, access_location, 2);
        let ghost tail = more@;
        let depth: u32 = match deepest_level(&more) {
            Some(m) => m,
            None => 2,
        };
        trace.append(&mut more);
        assert(trace@ =~= first + tail);
        let last = make_bug_trace_entry(
            depth,
            access_location,
            "invalid access occurs here".to_string(),
        );
        trace.push(last);
        assert(trace_view(trace@) =~= trace_view(first) + trace_view(tail) + seq![last@]);
        assert(trace_view(first) =~= seq![entry(1, *access_location, self.access_start())]);
        trace
    }

    /// The trace of the bug.
    pub fn structured_bug_trace(&self) -> (r: Option<Vec<BugTraceEntry>>)
        requires
            self.countable(),
        ensures
            optional_trace(r) == self.structured_trace(),
            r matches Some(t) ==> t@.len() <= u32::MAX,
    {
        match self {
            Diagnostic::AccessToInvalidAddress {
                access_location,
                access_history,
                invalidation_history,
                ..
            } => {
                let mut trace = Self::invalidation_entries(invalidation_history, access_location);
                let ghost first = trace@;
                let mut more = self.access_entries(access_history, access_location);
                let ghost tail = more@;
                trace.append(&mut more);
                assert(trace@ =~= first + tail);
                assert(trace_view(trace@) =~= trace_view(first) + trace_view(tail));
                if trace.len() == 0 {
                    None
                } else {
                    Some(trace)
                }
            },
            Diagnostic::MemoryLeak { allocator, allocation_location, .. } => {
                let mut description = String::new();
                description.append("memory allocated via ");
                allocator.push_text(&mut description);
                description.append(" here");
                assert(description@ =~= "memory allocated via "@ + allocator.text() + " here"@);
                let mut trace: Vec<BugTraceEntry> = Vec::new();
                trace.push(make_bug_trace_entry(0, allocation_location, description));
                assert(trace_view(trace@) =~= seq![
                    entry(
                        0,
                        *allocation_location,
                        "memory allocated via "@ + allocator.text() + " here"@,
                    ),
                ]);
                Some(trace)
            },
            Diagnostic::RetainCycle { location } => {
                let mut trace: Vec<BugTraceEntry> = Vec::new();
                trace.push(make_bug_trace_entry(0, location, "retain cycle here".to_string()));
                assert(trace_view(trace@) =~= seq![entry(0, *location, "retain cycle here"@)]);
                Some(trace)
            },
        }
    }

    /// Convert to an issue for reporting.
    pub fn to_issue(&self, procedure: &str) -> (r: Issue)
        requires
            self.countable(),
        ensures
            r@ == self.issue(procedure@, None, false, false),
    {
        self.to_issue_with_context(procedure, None, false, false)
    }

    /// Convert to an issue for reporting, optionally as latent.
    pub fn to_issue_with_latent(&self, procedure: &str, latent: bool) -> (r: Issue)
        requires
            self.countable(),
        ensures
            r@ == self.issue(procedure@, None, latent, false),
    {
        self.to_issue_with_context(procedure, None, latent, false)
    }

    /// Convert to an issue for reporting, optionally marked as latent or
    /// suppressed.
    pub fn to_issue_with_reporting(&self, procedure: &str, latent: bool, suppressed: bool) -> (r:
        Issue)
        requires
            self.countable(),
        ensures
            r@ == self.issue(procedure@, None, latent, suppressed),
    {
        self.to_issue_with_context(procedure, None, latent, suppressed)
    }

    pub fn to_issue_with_context(
        &self,
        procedure: &str,
        procedure_start_line: Option<u32>,
        latent: bool,
        suppressed: bool,
    ) -> (r: Issue)
        requires
            self.countable(),
        ensures
            r@ == self.issue(procedure@, procedure_start_line, latent, suppressed),
    {
        let loc = self.get_location();
        let mut trace = String::new();
        if suppressed {
            trace.append("*** SUPPRESSED ***, ");
        }
        self.push_trace_message(&mut trace);
        assert(trace@ =~= (if suppressed {
            "*** SUPPRESSED ***, "@ + self.trace_text()
        } else {
            self.trace_text()
        }));
        let mut bug_type = self.get_issue_type().to_string();
        if latent {
            bug_type.append("_LATENT");
        }
        let mut file = String::new();
        loc.file.push_text(&mut file);
        assert(Seq::<char>::empty() + loc.file.text() =~= loc.file.text());
        let bug_trace = self.structured_bug_trace();
        let (bug_trace_length, bug_trace_max_depth) = match &bug_trace {
            Some(entries) => {
                let n: u32 = entries.len() as u32;
                (Some(n), deepest_level(entries))
            },
            None => (None, None),
        };
        Issue {
            bug_type,
            qualifier: self.to_string(),
            procedure: procedure.to_string(),
            procedure_start_line,
            file,
            line: loc.line as u32,
            column: loc.col as u32,
            trace,
            bug_trace,
            bug_trace_length,
            bug_trace_max_depth,
        }
    }

    /// Whether the bug is kept out of reports.
    pub fn is_suppressed(&self) -> (b: bool)
        ensures
            b == self.suppressed(),
    {
        match self {
            Diagnostic::AccessToInvalidAddress { invalidation, access_history, .. } => {
                let constant = match invalidation {
                    Invalidation::ConstantDereference(_) => true,
                    Invalidation::ComparedToNullInThisProcedure(_) => true,
                    _ => false,
                };
                constant && !access_history.contains_invalidation_of_same_type(invalidation)
            },
            Diagnostic::MemoryLeak { .. } => false,
            Diagnostic::RetainCycle { .. } => false,
        }
    }
}

/// Two reports of one invalidation that differ only in the access have the same
/// key.
pub proof fn law_key_ignores_access(
    d: Diagnostic,
    addr: AbstractValue,
    location: Location,
    trace_location: Option<Location>,
    history: ValueHistory,
)
    requires
        d is AccessToInvalidAddress,
    ensures
        (Diagnostic::AccessToInvalidAddress {
            addr,
            invalidation: d->invalidation,
            access_location: location,
            trace_access_location: trace_location,
            access_history: history,
            invalidation_history: d->invalidation_history,
        }).dedup_text() == d.dedup_text(),
{
}

} // verus!
