//! Address attributes: properties tracked per abstract value.
//!
//! Each abstract value can have a set of attributes describing its state:
//! whether it's been allocated, freed, initialized, tainted, etc. The set is
//! kept in the order of [`Keyed::key`].

use crate::abstract_value::AbstractValue;
use crate::invalidation::{Invalidation, MustBeValidReason};
use crate::key::{key_of, number_key, option_key, push_number, push_option_key, Key, KeyV, Keyed};
use crate::list::{elements, List, Twin};
use crate::ordered::{lookup, put, sorted, Dup, OrdMap, Selector};
use crate::sil::{clone_option, Location, Procname, TypeName, Var};
use crate::text::{nat_text, push_nat};
use crate::value_history::ValueHistory;
use vstd::prelude::*;

verus! {

/// Timestamp for ordering events in the analysis.
pub type Timestamp = u64;

/// Error returned when a read requires initialized memory but the address is
/// still marked `Uninitialized`.
#[derive(Clone, Copy, Debug, PartialEq, Eq, Structural)]
pub enum InitializationError {
    Uninitialized,
}

/// How an address was allocated.
#[derive(Debug, PartialEq, Eq)]
pub enum Allocator {
    CMalloc,
    CRealloc,
    CppNew,
    CppNewArray,
    JavaResource(Procname),
    CSharpResource(Procname),
    HackAsync,
    CustomMalloc(Procname),
    CustomRealloc(Procname),
    CustomFree(Procname),
}

/// An attribute on an abstract value.
#[derive(Debug, PartialEq, Eq)]
pub enum Attribute {
    /// Address of a C++ temporary variable.
    AddressOfCppTemporary(Var),
    /// Address of a stack variable (with its declaration location).
    AddressOfStackVariable(Var, Location),
    /// This address was allocated (and how).
    Allocated(Allocator, Location),
    /// Always reachable (prevents garbage collection of this address).
    AlwaysReachable,
    /// This is a closure value.
    Closure(Procname),
    /// End of a collection (past-the-end iterator target).
    EndOfCollection,
    /// In a reported retain cycle (suppresses duplicate reports).
    InReportedRetainCycle,
    /// This address has been initialized.
    Initialized,
    /// This address is invalid (freed, null, etc.).
    Invalid(Invalidation, ValueHistory),
    /// Java resource has been released.
    JavaResourceReleased,
    /// C# resource has been released.
    CSharpResourceReleased,
    /// This awaitable has been awaited.
    AwaitedAwaitable,
    /// Must be awaited before procedure returns.
    MustBeAwaited,
    /// Must be initialized before use.
    MustBeInitialized(Timestamp, Location),
    /// Must be valid (dereferenceable) when accessed.
    MustBeValid(Timestamp, Location, Option<MustBeValidReason>),
    /// Returned from an unknown function.
    ReturnedFromUnknown(List<AbstractValue>),
    /// Static type information.
    StaticType(TypeName),
    /// Has been std::move'd.
    StdMoved,
    /// std::vector::reserve was called.
    StdVectorReserve,
    /// May be modified by an unknown/external call.
    UnknownEffect,
    /// Uninitialized value.
    Uninitialized,
    /// Unreachable at this program point.
    UnreachableAt(Location),
    /// Used as a branch condition (for diagnostic traces).
    UsedAsBranchCond(Procname, Location),
    /// Written to at this timestamp.
    WrittenTo(Timestamp, Location),
}

/// An attribute without its details.
#[derive(Clone, Copy, Debug, PartialEq, Eq, Structural)]
pub enum AttributeKind {
    AddressOfCppTemporary,
    AddressOfStackVariable,
    Allocated,
    AlwaysReachable,
    Closure,
    EndOfCollection,
    InReportedRetainCycle,
    Initialized,
    Invalid,
    JavaResourceReleased,
    CSharpResourceReleased,
    AwaitedAwaitable,
    MustBeAwaited,
    MustBeInitialized,
    MustBeValid,
    ReturnedFromUnknown,
    StaticType,
    StdMoved,
    StdVectorReserve,
    UnknownEffect,
    Uninitialized,
    UnreachableAt,
    UsedAsBranchCond,
    WrittenTo,
}

impl Twin for AbstractValue {
    fn twin(&self) -> (r: Self) {
        *self
    }
}

impl Clone for Allocator {
    fn clone(&self) -> (r: Self)
        ensures
            r == *self,
    {
        match self {
            Allocator::CMalloc => Allocator::CMalloc,
            Allocator::CRealloc => Allocator::CRealloc,
            Allocator::CppNew => Allocator::CppNew,
            Allocator::CppNewArray => Allocator::CppNewArray,
            Allocator::JavaResource(p) => Allocator::JavaResource(p.clone()),
            Allocator::CSharpResource(p) => Allocator::CSharpResource(p.clone()),
            Allocator::HackAsync => Allocator::HackAsync,
            Allocator::CustomMalloc(p) => Allocator::CustomMalloc(p.clone()),
            Allocator::CustomRealloc(p) => Allocator::CustomRealloc(p.clone()),
            Allocator::CustomFree(p) => Allocator::CustomFree(p.clone()),
        }
    }
}

impl Twin for Allocator {
    fn twin(&self) -> (r: Self) {
        self.clone()
    }
}

impl Keyed for Allocator {
    open spec fn key(&self) -> KeyV {
        match self {
            Allocator::CMalloc => number_key(0),
            Allocator::CRealloc => number_key(1),
            Allocator::CppNew => number_key(2),
            Allocator::CppNewArray => number_key(3),
            Allocator::JavaResource(p) => number_key(4) + p.key(),
            Allocator::CSharpResource(p) => number_key(5) + p.key(),
            Allocator::HackAsync => number_key(6),
            Allocator::CustomMalloc(p) => number_key(7) + p.key(),
            Allocator::CustomRealloc(p) => number_key(8) + p.key(),
            Allocator::CustomFree(p) => number_key(9) + p.key(),
        }
    }

    fn push_key(&self, out: &mut Key) {
        let ghost before = out@;
        match self {
            Allocator::CMalloc => {
                push_number(out, 0);
            },
            Allocator::CRealloc => {
                push_number(out, 1);
            },
            Allocator::CppNew => {
                push_number(out, 2);
            },
            Allocator::CppNewArray => {
                push_number(out, 3);
            },
            Allocator::JavaResource(p) => {
                push_number(out, 4);
                p.push_key(out);
                assert(before + number_key(4) + p.key() =~= before + (number_key(4) + p.key()));
            },
            Allocator::CSharpResource(p) => {
                push_number(out, 5);
                p.push_key(out);
                assert(before + number_key(5) + p.key() =~= before + (number_key(5) + p.key()));
            },
            Allocator::HackAsync => {
                push_number(out, 6);
            },
            Allocator::CustomMalloc(p) => {
                push_number(out, 7);
                p.push_key(out);
                assert(before + number_key(7) + p.key() =~= before + (number_key(7) + p.key()));
            },
            Allocator::CustomRealloc(p) => {
                push_number(out, 8);
                p.push_key(out);
                assert(before + number_key(8) + p.key() =~= before + (number_key(8) + p.key()));
            },
            Allocator::CustomFree(p) => {
                push_number(out, 9);
                p.push_key(out);
                assert(before + number_key(9) + p.key() =~= before + (number_key(9) + p.key()));
            },
        }
    }
}

impl Clone for Attribute {
    fn clone(&self) -> (r: Self)
        ensures
            r == *self,
    {
        match self {
            Attribute::AddressOfCppTemporary(v) => Attribute::AddressOfCppTemporary(v.clone()),
            Attribute::AddressOfStackVariable(v, l) => Attribute::AddressOfStackVariable(
                v.clone(),
                l.clone(),
            ),
            Attribute::Allocated(a, l) => Attribute::Allocated(a.clone(), l.clone()),
            Attribute::AlwaysReachable => Attribute::AlwaysReachable,
            Attribute::Closure(p) => Attribute::Closure(p.clone()),
            Attribute::EndOfCollection => Attribute::EndOfCollection,
            Attribute::InReportedRetainCycle => Attribute::InReportedRetainCycle,
            Attribute::Initialized => Attribute::Initialized,
            Attribute::Invalid(i, h) => Attribute::Invalid(i.clone(), h.clone()),
            Attribute::JavaResourceReleased => Attribute::JavaResourceReleased,
            Attribute::CSharpResourceReleased => Attribute::CSharpResourceReleased,
            Attribute::AwaitedAwaitable => Attribute::AwaitedAwaitable,
            Attribute::MustBeAwaited => Attribute::MustBeAwaited,
            Attribute::MustBeInitialized(ts, l) => Attribute::MustBeInitialized(*ts, l.clone()),
            Attribute::MustBeValid(ts, l, reason) => Attribute::MustBeValid(
                *ts,
                l.clone(),
                clone_option(reason),
            ),
            Attribute::ReturnedFromUnknown(vs) => Attribute::ReturnedFromUnknown(vs.clone()),
            Attribute::StaticType(t) => Attribute::StaticType(t.clone()),
            Attribute::StdMoved => Attribute::StdMoved,
            Attribute::StdVectorReserve => Attribute::StdVectorReserve,
            Attribute::UnknownEffect => Attribute::UnknownEffect,
            Attribute::Uninitialized => Attribute::Uninitialized,
            Attribute::UnreachableAt(l) => Attribute::UnreachableAt(l.clone()),
            Attribute::UsedAsBranchCond(p, l) => Attribute::UsedAsBranchCond(p.clone(), l.clone()),
            Attribute::WrittenTo(ts, l) => Attribute::WrittenTo(*ts, l.clone()),
        }
    }
}

impl Twin for Attribute {
    fn twin(&self) -> (r: Self) {
        self.clone()
    }
}

impl Keyed for Attribute {
    open spec fn key(&self) -> KeyV {
        match self {
            Attribute::AddressOfCppTemporary(v) => number_key(0) + v.key(),
            Attribute::AddressOfStackVariable(v, l) => number_key(1) + v.key() + l.key(),
            Attribute::Allocated(a, l) => number_key(2) + a.key() + l.key(),
            Attribute::AlwaysReachable => number_key(3),
            Attribute::Closure(p) => number_key(4) + p.key(),
            Attribute::EndOfCollection => number_key(5),
            Attribute::InReportedRetainCycle => number_key(6),
            Attribute::Initialized => number_key(7),
            Attribute::Invalid(i, h) => number_key(8) + i.key() + h.key(),
            Attribute::JavaResourceReleased => number_key(9),
            Attribute::CSharpResourceReleased => number_key(10),
            Attribute::AwaitedAwaitable => number_key(11),
            Attribute::MustBeAwaited => number_key(12),
            Attribute::MustBeInitialized(ts, l) => {
                number_key(13) + number_key((*ts) as int) + l.key()
            },
            Attribute::MustBeValid(ts, l, reason) => {
                number_key(14) + number_key((*ts) as int) + l.key() + option_key(*reason)
            },
            Attribute::ReturnedFromUnknown(vs) => number_key(15) + vs.key(),
            Attribute::StaticType(t) => number_key(16) + t.key(),
            Attribute::StdMoved => number_key(17),
            Attribute::StdVectorReserve => number_key(18),
            Attribute::UnknownEffect => number_key(19),
            Attribute::Uninitialized => number_key(20),
            Attribute::UnreachableAt(l) => number_key(21) + l.key(),
            Attribute::UsedAsBranchCond(p, l) => number_key(22) + p.key() + l.key(),
            Attribute::WrittenTo(ts, l) => number_key(23) + number_key((*ts) as int) + l.key(),
        }
    }

    fn push_key(&self, out: &mut Key) {
        let ghost before = out@;
        match self {
            Attribute::AddressOfCppTemporary(v) => {
                push_number(out, 0);
                v.push_key(out);
                assert(before + number_key(0) + v.key() =~= before + (number_key(0) + v.key()));
            },
            Attribute::AddressOfStackVariable(v, l) => {
                push_number(out, 1);
                v.push_key(out);
                l.push_key(out);
                assert(
                    before + number_key(1) + v.key() + l.key()
                        =~= before + (number_key(1) + v.key() + l.key())
                );
            },
            Attribute::Allocated(a, l) => {
                push_number(out, 2);
                a.push_key(out);
                l.push_key(out);
                assert(
                    before + number_key(2) + a.key() + l.key()
                        =~= before + (number_key(2) + a.key() + l.key())
                );
            },
            Attribute::AlwaysReachable => {
                push_number(out, 3);
            },
            Attribute::Closure(p) => {
                push_number(out, 4);
                p.push_key(out);
                assert(before + number_key(4) + p.key() =~= before + (number_key(4) + p.key()));
            },
            Attribute::EndOfCollection => {
                push_number(out, 5);
            },
            Attribute::InReportedRetainCycle => {
                push_number(out, 6);
            },
            Attribute::Initialized => {
                push_number(out, 7);
            },
            Attribute::Invalid(i, h) => {
                push_number(out, 8);
                i.push_key(out);
                h.push_key(out);
                assert(
                    before + number_key(8) + i.key() + h.key()
                        =~= before + (number_key(8) + i.key() + h.key())
                );
            },
            Attribute::JavaResourceReleased => {
                push_number(out, 9);
            },
            Attribute::CSharpResourceReleased => {
                push_number(out, 10);
            },
            Attribute::AwaitedAwaitable => {
                push_number(out, 11);
            },
            Attribute::MustBeAwaited => {
                push_number(out, 12);
            },
            Attribute::MustBeInitialized(ts, l) => {
                push_number(out, 13);
                push_number(out, *ts as i128);
                l.push_key(out);
                assert(
                    before + number_key(13) + number_key((*ts) as int) + l.key()
                        =~= before + (number_key(13) + number_key((*ts) as int) + l.key())
                );
            },
            Attribute::MustBeValid(ts, l, reason) => {
                push_number(out, 14);
                push_number(out, *ts as i128);
                l.push_key(out);
                push_option_key(out, reason);
                assert(
                    before
                        + number_key(14)
                        + number_key((*ts) as int)
                        + l.key()
                        + option_key(*reason)
                        =~= before
                            + (
                                number_key(14)
                                    + number_key((*ts) as int)
                                    + l.key()
                                    + option_key(*reason)
                            )
                );
            },
            Attribute::ReturnedFromUnknown(vs) => {
                push_number(out, 15);
                vs.push_key(out);
                assert(before + number_key(15) + vs.key() =~= before + (number_key(15) + vs.key()));
            },
            Attribute::StaticType(t) => {
                push_number(out, 16);
                t.push_key(out);
                assert(before + number_key(16) + t.key() =~= before + (number_key(16) + t.key()));
            },
            Attribute::StdMoved => {
                push_number(out, 17);
            },
            Attribute::StdVectorReserve => {
                push_number(out, 18);
            },
            Attribute::UnknownEffect => {
                push_number(out, 19);
            },
            Attribute::Uninitialized => {
                push_number(out, 20);
            },
            Attribute::UnreachableAt(l) => {
                push_number(out, 21);
                l.push_key(out);
                assert(before + number_key(21) + l.key() =~= before + (number_key(21) + l.key()));
            },
            Attribute::UsedAsBranchCond(p, l) => {
                push_number(out, 22);
                p.push_key(out);
                l.push_key(out);
                assert(
                    before + number_key(22) + p.key() + l.key()
                        =~= before + (number_key(22) + p.key() + l.key())
                );
            },
            Attribute::WrittenTo(ts, l) => {
                push_number(out, 23);
                push_number(out, *ts as i128);
                l.push_key(out);
                assert(
                    before + number_key(23) + number_key((*ts) as int) + l.key()
                        =~= before + (number_key(23) + number_key((*ts) as int) + l.key())
                );
            },
        }
    }
}

impl View for Attribute {
    type V = Attribute;

    open spec fn view(&self) -> Attribute {
        *self
    }
}

impl Dup for Attribute {
    fn dup(&self) -> (r: Self) {
        self.clone()
    }
}

impl Attribute {
    pub open spec fn kind(self) -> AttributeKind {
        match self {
            Attribute::AddressOfCppTemporary(_) => AttributeKind::AddressOfCppTemporary,
            Attribute::AddressOfStackVariable(_, _) => AttributeKind::AddressOfStackVariable,
            Attribute::Allocated(_, _) => AttributeKind::Allocated,
            Attribute::AlwaysReachable => AttributeKind::AlwaysReachable,
            Attribute::Closure(_) => AttributeKind::Closure,
            Attribute::EndOfCollection => AttributeKind::EndOfCollection,
            Attribute::InReportedRetainCycle => AttributeKind::InReportedRetainCycle,
            Attribute::Initialized => AttributeKind::Initialized,
            Attribute::Invalid(_, _) => AttributeKind::Invalid,
            Attribute::JavaResourceReleased => AttributeKind::JavaResourceReleased,
            Attribute::CSharpResourceReleased => AttributeKind::CSharpResourceReleased,
            Attribute::AwaitedAwaitable => AttributeKind::AwaitedAwaitable,
            Attribute::MustBeAwaited => AttributeKind::MustBeAwaited,
            Attribute::MustBeInitialized(_, _) => AttributeKind::MustBeInitialized,
            Attribute::MustBeValid(_, _, _) => AttributeKind::MustBeValid,
            Attribute::ReturnedFromUnknown(_) => AttributeKind::ReturnedFromUnknown,
            Attribute::StaticType(_) => AttributeKind::StaticType,
            Attribute::StdMoved => AttributeKind::StdMoved,
            Attribute::StdVectorReserve => AttributeKind::StdVectorReserve,
            Attribute::UnknownEffect => AttributeKind::UnknownEffect,
            Attribute::Uninitialized => AttributeKind::Uninitialized,
            Attribute::UnreachableAt(_) => AttributeKind::UnreachableAt,
            Attribute::UsedAsBranchCond(_, _) => AttributeKind::UsedAsBranchCond,
            Attribute::WrittenTo(_, _) => AttributeKind::WrittenTo,
        }
    }

    pub fn get_kind(&self) -> (r: AttributeKind)
        ensures
            r == self.kind(),
    {
        match self {
            Attribute::AddressOfCppTemporary(_) => AttributeKind::AddressOfCppTemporary,
            Attribute::AddressOfStackVariable(_, _) => AttributeKind::AddressOfStackVariable,
            Attribute::Allocated(_, _) => AttributeKind::Allocated,
            Attribute::AlwaysReachable => AttributeKind::AlwaysReachable,
            Attribute::Closure(_) => AttributeKind::Closure,
            Attribute::EndOfCollection => AttributeKind::EndOfCollection,
            Attribute::InReportedRetainCycle => AttributeKind::InReportedRetainCycle,
            Attribute::Initialized => AttributeKind::Initialized,
            Attribute::Invalid(_, _) => AttributeKind::Invalid,
            Attribute::JavaResourceReleased => AttributeKind::JavaResourceReleased,
            Attribute::CSharpResourceReleased => AttributeKind::CSharpResourceReleased,
            Attribute::AwaitedAwaitable => AttributeKind::AwaitedAwaitable,
            Attribute::MustBeAwaited => AttributeKind::MustBeAwaited,
            Attribute::MustBeInitialized(_, _) => AttributeKind::MustBeInitialized,
            Attribute::MustBeValid(_, _, _) => AttributeKind::MustBeValid,
            Attribute::ReturnedFromUnknown(_) => AttributeKind::ReturnedFromUnknown,
            Attribute::StaticType(_) => AttributeKind::StaticType,
            Attribute::StdMoved => AttributeKind::StdMoved,
            Attribute::StdVectorReserve => AttributeKind::StdVectorReserve,
            Attribute::UnknownEffect => AttributeKind::UnknownEffect,
            Attribute::Uninitialized => AttributeKind::Uninitialized,
            Attribute::UnreachableAt(_) => AttributeKind::UnreachableAt,
            Attribute::UsedAsBranchCond(_, _) => AttributeKind::UsedAsBranchCond,
            Attribute::WrittenTo(_, _) => AttributeKind::WrittenTo,
        }
    }
}

impl AttributeKind {
    pub open spec fn text(self) -> Seq<char> {
        match self {
            AttributeKind::AddressOfCppTemporary => "AddressOfCppTemporary"@,
            AttributeKind::AddressOfStackVariable => "AddressOfStackVariable"@,
            AttributeKind::Allocated => "Allocated"@,
            AttributeKind::AlwaysReachable => "AlwaysReachable"@,
            AttributeKind::Closure => "Closure"@,
            AttributeKind::EndOfCollection => "EndOfCollection"@,
            AttributeKind::InReportedRetainCycle => "InReportedRetainCycle"@,
            AttributeKind::Initialized => "Initialized"@,
            AttributeKind::Invalid => "Invalid"@,
            AttributeKind::JavaResourceReleased => "JavaResourceReleased"@,
            AttributeKind::CSharpResourceReleased => "CSharpResourceReleased"@,
            AttributeKind::AwaitedAwaitable => "AwaitedAwaitable"@,
            AttributeKind::MustBeAwaited => "MustBeAwaited"@,
            AttributeKind::MustBeInitialized => "MustBeInitialized"@,
            AttributeKind::MustBeValid => "MustBeValid"@,
            AttributeKind::ReturnedFromUnknown => "ReturnedFromUnknown"@,
            AttributeKind::StaticType => "StaticType"@,
            AttributeKind::StdMoved => "StdMoved"@,
            AttributeKind::StdVectorReserve => "StdVectorReserve"@,
            AttributeKind::UnknownEffect => "UnknownEffect"@,
            AttributeKind::Uninitialized => "Uninitialized"@,
            AttributeKind::UnreachableAt => "UnreachableAt"@,
            AttributeKind::UsedAsBranchCond => "UsedAsBranchCond"@,
            AttributeKind::WrittenTo => "WrittenTo"@,
        }
    }

    pub fn push_text(self, out: &mut String)
        ensures
            final(out)@ == old(out)@ + self.text(),
    {
        match self {
            AttributeKind::AddressOfCppTemporary => out.append("AddressOfCppTemporary"),
            AttributeKind::AddressOfStackVariable => out.append("AddressOfStackVariable"),
            AttributeKind::Allocated => out.append("Allocated"),
            AttributeKind::AlwaysReachable => out.append("AlwaysReachable"),
            AttributeKind::Closure => out.append("Closure"),
            AttributeKind::EndOfCollection => out.append("EndOfCollection"),
            AttributeKind::InReportedRetainCycle => out.append("InReportedRetainCycle"),
            AttributeKind::Initialized => out.append("Initialized"),
            AttributeKind::Invalid => out.append("Invalid"),
            AttributeKind::JavaResourceReleased => out.append("JavaResourceReleased"),
            AttributeKind::CSharpResourceReleased => out.append("CSharpResourceReleased"),
            AttributeKind::AwaitedAwaitable => out.append("AwaitedAwaitable"),
            AttributeKind::MustBeAwaited => out.append("MustBeAwaited"),
            AttributeKind::MustBeInitialized => out.append("MustBeInitialized"),
            AttributeKind::MustBeValid => out.append("MustBeValid"),
            AttributeKind::ReturnedFromUnknown => out.append("ReturnedFromUnknown"),
            AttributeKind::StaticType => out.append("StaticType"),
            AttributeKind::StdMoved => out.append("StdMoved"),
            AttributeKind::StdVectorReserve => out.append("StdVectorReserve"),
            AttributeKind::UnknownEffect => out.append("UnknownEffect"),
            AttributeKind::Uninitialized => out.append("Uninitialized"),
            AttributeKind::UnreachableAt => out.append("UnreachableAt"),
            AttributeKind::UsedAsBranchCond => out.append("UsedAsBranchCond"),
            AttributeKind::WrittenTo => out.append("WrittenTo"),
        }
    }
}

impl Allocator {
    pub open spec fn text(self) -> Seq<char> {
        match self {
            Allocator::CMalloc => "CMalloc"@,
            Allocator::CRealloc => "CRealloc"@,
            Allocator::CppNew => "CppNew"@,
            Allocator::CppNewArray => "CppNewArray"@,
            Allocator::JavaResource(p) => "JavaResource("@ + p.text() + ")"@,
            Allocator::CSharpResource(p) => "CSharpResource("@ + p.text() + ")"@,
            Allocator::HackAsync => "HackAsync"@,
            Allocator::CustomMalloc(p) => "CustomMalloc("@ + p.text() + ")"@,
            Allocator::CustomRealloc(p) => "CustomRealloc("@ + p.text() + ")"@,
            Allocator::CustomFree(p) => "CustomFree("@ + p.text() + ")"@,
        }
    }

    fn push_with_proc(out: &mut String, name: &str, p: &Procname)
        ensures
            final(out)@ == old(out)@ + (name@ + p.text() + ")"@),
    {
        let ghost before = out@;
        out.append(name);
        p.push_text(out);
        out.append(")");
        assert(out@ =~= before + (name@ + p.text() + ")"@));
    }

    pub fn push_text(&self, out: &mut String)
        ensures
            final(out)@ == old(out)@ + self.text(),
    {
        match self {
            Allocator::CMalloc => out.append("CMalloc"),
            Allocator::CRealloc => out.append("CRealloc"),
            Allocator::CppNew => out.append("CppNew"),
            Allocator::CppNewArray => out.append("CppNewArray"),
            Allocator::JavaResource(p) => Self::push_with_proc(out, "JavaResource(", p),
            Allocator::CSharpResource(p) => Self::push_with_proc(out, "CSharpResource(", p),
            Allocator::HackAsync => out.append("HackAsync"),
            Allocator::CustomMalloc(p) => Self::push_with_proc(out, "CustomMalloc(", p),
            Allocator::CustomRealloc(p) => Self::push_with_proc(out, "CustomRealloc(", p),
            Allocator::CustomFree(p) => Self::push_with_proc(out, "CustomFree(", p),
        }
    }
}

/// Why an address has to be valid, as text.
pub open spec fn reason_text(reason: Option<MustBeValidReason>) -> Seq<char> {
    match reason {
        None => "None"@,
        Some(r) => "Some("@ + r.description@ + ")"@,
    }
}

impl Attribute {
    /// The kind of the attribute, with its details where a report shows them.
    pub open spec fn text(self) -> Seq<char> {
        match self {
            Attribute::Invalid(inv, history) => "Invalid("@ + inv.text() + ", "@ + history.text()
                + ")"@,
            Attribute::MustBeValid(ts, loc, reason) => "MustBeValid("@ + nat_text(ts as nat)
                + ", "@ + loc.text() + ", "@ + reason_text(reason) + ")"@,
            Attribute::Allocated(alloc, loc) => "Allocated("@ + alloc.text() + ", "@ + loc.text()
                + ")"@,
            Attribute::Closure(proc) => "Closure("@ + proc.text() + ")"@,
            Attribute::WrittenTo(ts, loc) => "WrittenTo("@ + nat_text(ts as nat) + ", "@
                + loc.text() + ")"@,
            _ => self.kind().text(),
        }
    }

    pub fn push_text(&self, out: &mut String)
        ensures
            final(out)@ == old(out)@ + self.text(),
    {
        let ghost before = out@;
        match self {
            Attribute::Invalid(inv, history) => {
                out.append("Invalid(");
                inv.push_text(out);
                out.append(", ");
                history.push_text(out);
                out.append(")");
            },
            Attribute::MustBeValid(ts, loc, reason) => {
                out.append("MustBeValid(");
                push_nat(out, *ts);
                out.append(", ");
                loc.push_text(out);
                out.append(", ");
                match reason {
                    None => out.append("None"),
                    Some(r) => {
                        out.append("Some(");
                        out.append(r.description.as_str());
                        out.append(")");
                    },
                }
                out.append(")");
            },
            Attribute::Allocated(alloc, loc) => {
                out.append("Allocated(");
                alloc.push_text(out);
                out.append(", ");
                loc.push_text(out);
                out.append(")");
            },
            Attribute::Closure(proc) => {
                out.append("Closure(");
                proc.push_text(out);
                out.append(")");
            },
            Attribute::WrittenTo(ts, loc) => {
                out.append("WrittenTo(");
                push_nat(out, *ts);
                out.append(", ");
                loc.push_text(out);
                out.append(")");
            },
            _ => self.get_kind().push_text(out),
        }
        assert(out@ =~= before + self.text());
    }
}

/// A set of attributes: each under its key, in the order of the keys.
pub type AttributesV = Seq<(KeyV, Attribute)>;

/// `s` with `a`.
pub open spec fn attributes_add(s: AttributesV, a: Attribute) -> AttributesV {
    if lookup(s, a.key()) is Some {
        s
    } else {
        put::<Key, Attribute>(s, a.key(), a)
    }
}

/// `v`, or `new` where `v` is `old`.
pub open spec fn replaced(v: AbstractValue, old: AbstractValue, new: AbstractValue) -> AbstractValue {
    if v == old {
        new
    } else {
        v
    }
}

/// `l` with `new` in place of `old`.
pub open spec fn values_renamed(
    l: List<AbstractValue>,
    old: AbstractValue,
    new: AbstractValue,
) -> List<AbstractValue>
    decreases l,
{
    match l {
        List::Nil => List::Nil,
        List::Cons(v, tail) => List::Cons(
            replaced(v, old, new),
            Box::new(values_renamed(*tail, old, new)),
        ),
    }
}

/// The attribute speaks of the value `v`.
pub open spec fn attribute_mentions(a: Attribute, v: AbstractValue) -> bool {
    a matches Attribute::ReturnedFromUnknown(vs) && vs@.contains(v)
}

/// `a` with `new` in place of `old`.
pub open spec fn attribute_renamed(a: Attribute, old: AbstractValue, new: AbstractValue) -> Attribute {
    match a {
        Attribute::ReturnedFromUnknown(vs) => Attribute::ReturnedFromUnknown(
            values_renamed(vs, old, new),
        ),
        _ => a,
    }
}

/// Some attribute of `s` speaks of `v`.
pub open spec fn attributes_mention(s: AttributesV, v: AbstractValue) -> bool {
    exists|i: int| 0 <= i < s.len() && attribute_mentions((#[trigger] s[i]).1, v)
}

/// The set of the attributes of `s`, each with `new` in place of `old`.
pub open spec fn attributes_rebuilt(
    s: AttributesV,
    old: AbstractValue,
    new: AbstractValue,
) -> AttributesV
    decreases s.len(),
{
    if s.len() == 0 {
        seq![]
    } else {
        attributes_add(
            attributes_rebuilt(s.drop_last(), old, new),
            attribute_renamed(s.last().1, old, new),
        )
    }
}

/// `s` with `new` in place of `old`; `s` itself where nothing speaks of `old`.
pub open spec fn attributes_renamed(
    s: AttributesV,
    old: AbstractValue,
    new: AbstractValue,
) -> AttributesV {
    if attributes_mention(s, old) {
        attributes_rebuilt(s, old, new)
    } else {
        s
    }
}

fn rename_values(l: &List<AbstractValue>, old_value: AbstractValue, new_value: AbstractValue) -> (r:
    List<AbstractValue>)
    ensures
        r == values_renamed(*l, old_value, new_value),
    decreases l,
{
    match l {
        List::Nil => List::Nil,
        List::Cons(v, tail) => {
            let head = if *v == old_value {
                new_value
            } else {
                *v
            };
            List::Cons(head, Box::new(rename_values(tail, old_value, new_value)))
        },
    }
}

fn list_mentions(l: &List<AbstractValue>, value: AbstractValue) -> (b: bool)
    ensures
        b == l@.contains(value),
    decreases l,
{
    match l {
        List::Nil => false,
        List::Cons(v, tail) => {
            let ghost rest = elements(**tail);
            assert(l@ == seq![*v] + rest);
            if *v == value {
                assert(l@[0] == value);
                return true;
            }
            let b = list_mentions(tail, value);
            proof {
                if b {
                    let j = choose|j: int| 0 <= j < rest.len() && rest[j] == value;
                    assert(l@[j + 1] == value);
                }
                if l@.contains(value) {
                    let j = choose|j: int| 0 <= j < l@.len() && l@[j] == value;
                    assert(rest[j - 1] == value);
                }
            }
            b
        },
    }
}

/// The first attribute of the given kind.
pub open spec fn first_of_kind(s: AttributesV, kind: AttributeKind) -> Option<Attribute>
    decreases s.len(),
{
    if s.len() == 0 {
        None
    } else if s[0].1.kind() == kind {
        Some(s[0].1)
    } else {
        first_of_kind(s.drop_first(), kind)
    }
}

/// Some attribute is of the given kind.
pub open spec fn has_kind(s: AttributesV, kind: AttributeKind) -> bool {
    first_of_kind(s, kind) is Some
}

/// The attributes of other kinds.
pub open spec fn without_kind(s: AttributesV, kind: AttributeKind) -> AttributesV {
    s.filter(|e: (KeyV, Attribute)| e.1.kind() != kind)
}

/// The attributes of the given kinds.
pub open spec fn of_kinds(s: AttributesV, kinds: Seq<AttributeKind>) -> AttributesV {
    s.filter(|e: (KeyV, Attribute)| kinds.contains(e.1.kind()))
}

/// The value is marked uninitialized and not initialized.
pub open spec fn uninitialized(s: AttributesV) -> bool {
    !has_kind(s, AttributeKind::Initialized) && has_kind(s, AttributeKind::Uninitialized)
}

/// A set of attributes on an abstract value, in a deterministic order.
#[derive(Debug, PartialEq, Eq)]
pub struct Attributes {
    map: OrdMap<Key, Attribute>,
}

impl View for Attributes {
    type V = AttributesV;

    closed spec fn view(&self) -> AttributesV {
        self.map@
    }
}

impl Dup for Attributes {
    fn dup(&self) -> (r: Self) {
        Attributes { map: self.map.dup() }
    }
}

impl Clone for Attributes {
    fn clone(&self) -> (r: Self)
        ensures
            r@ == self@,
    {
        self.dup()
    }
}

struct OtherKind {
    kind: AttributeKind,
}

impl Selector<Key, Attribute> for OtherKind {
    closed spec fn accepts(&self, k: KeyV, v: Attribute) -> bool {
        v.kind() != self.kind
    }

    fn test(&self, k: &Key, v: &Attribute) -> (b: bool) {
        v.get_kind() != self.kind
    }
}

struct OneOfKinds<'a> {
    kinds: &'a Vec<AttributeKind>,
}

fn is_one_of(kinds: &Vec<AttributeKind>, kind: AttributeKind) -> (b: bool)
    ensures
        b == kinds@.contains(kind),
{
    let mut i: usize = 0;
    while i < kinds.len()
        invariant
            i <= kinds@.len(),
            forall|j: int| 0 <= j < i ==> #[trigger] kinds@[j] != kind,
        decreases kinds@.len() - i,
    {
        if kinds[i] == kind {
            return true;
        }
        i = i + 1;
    }
    false
}

impl<'a> Selector<Key, Attribute> for OneOfKinds<'a> {
    closed spec fn accepts(&self, k: KeyV, v: Attribute) -> bool {
        self.kinds@.contains(v.kind())
    }

    fn test(&self, k: &Key, v: &Attribute) -> (b: bool) {
        is_one_of(self.kinds, v.get_kind())
    }
}

impl Attributes {
    pub fn empty() -> (r: Self)
        ensures
            r@ == Seq::<(KeyV, Attribute)>::empty(),
    {
        Attributes { map: OrdMap::new() }
    }

    pub fn add(&mut self, attr: Attribute)
        ensures
            final(self)@ == attributes_add(old(self)@, attr),
    {
        let key = key_of(&attr);
        if !self.map.contains_key(&key) {
            self.map.insert(key, attr);
        }
    }

    pub fn remove(&mut self, attr: &Attribute)
        ensures
            final(self)@ == crate::ordered::del(old(self)@, attr.key()),
    {
        self.map.remove(&key_of(attr));
    }

    pub fn contains(&self, attr: &Attribute) -> (b: bool)
        ensures
            b == (lookup(self@, attr.key()) is Some),
    {
        self.map.contains_key(&key_of(attr))
    }

    pub fn is_empty(&self) -> (b: bool)
        ensures
            b == (self@.len() == 0),
    {
        self.map.is_empty()
    }

    pub fn len(&self) -> (n: usize)
        ensures
            n == self@.len(),
            sorted::<Key, Attribute>(self@),
    {
        self.map.len()
    }

    fn mentions(&self, value: AbstractValue) -> (b: bool)
        ensures
            b == attributes_mention(self@, value),
    {
        let mut i: usize = 0;
        while i < self.map.len()
            invariant
                i <= self@.len(),
                self@ == self.map@,
                forall|j: int| 0 <= j < i ==> !attribute_mentions((#[trigger] self@[j]).1, value),
            decreases self@.len() - i,
        {
            if let Attribute::ReturnedFromUnknown(vs) = self.map.value_at(i) {
                if list_mentions(vs, value) {
                    assert(attribute_mentions(self@[i as int].1, value));
                    return true;
                }
            }
            i = i + 1;
        }
        false
    }

    /// The set with `new_value` in place of `old_value`.
    pub fn renamed(&self, old_value: AbstractValue, new_value: AbstractValue) -> (r: Self)
        ensures
            r@ == attributes_renamed(self@, old_value, new_value),
    {
        if !self.mentions(old_value) {
            return self.dup();
        }
        let mut r = Attributes::empty();
        let ghost s = self@;
        let mut i: usize = 0;
        assert(s.take(0) =~= Seq::<(KeyV, Attribute)>::empty());
        while i < self.map.len()
            invariant
                s == self@,
                s == self.map@,
                i <= s.len(),
                r@ == attributes_rebuilt(s.take(i as int), old_value, new_value),
            decreases s.len() - i,
        {
            let ghost t = s.take(i + 1);
            assert(t.drop_last() =~= s.take(i as int));
            assert(t.last() == s[i as int]);
            let attr = match self.map.value_at(i) {
                Attribute::ReturnedFromUnknown(vs) => Attribute::ReturnedFromUnknown(
                    rename_values(vs, old_value, new_value),
                ),
                other => other.clone(),
            };
            r.add(attr);
            i = i + 1;
        }
        assert(s.take(i as int) =~= s);
        r
    }

    /// The attribute at position `i`.
    pub fn at(&self, i: usize) -> (r: &Attribute)
        requires
            i < self@.len(),
        ensures
            *r == self@[i as int].1,
    {
        self.map.value_at(i)
    }

    /// The attributes, in order.
    pub fn iter(&self) -> (r: Vec<&Attribute>)
        ensures
            r@.len() == self@.len(),
            forall|i: int| 0 <= i < r@.len() ==> *(#[trigger] r@[i]) == self@[i].1,
    {
        let mut r: Vec<&Attribute> = Vec::new();
        let mut i: usize = 0;
        while i < self.map.len()
            invariant
                i <= self.map@.len(),
                r@.len() == i,
                forall|j: int| 0 <= j < i ==> *(#[trigger] r@[j]) == self.map@[j].1,
            decreases self.map@.len() - i,
        {
            r.push(self.map.value_at(i));
            i = i + 1;
        }
        r
    }

    fn find_kind(&self, kind: AttributeKind) -> (r: Option<&Attribute>)
        ensures
            first_of_kind(self@, kind) == (match r {
                Some(a) => Some(*a),
                None => None,
            }),
            r matches Some(a) ==> a.kind() == kind,
    {
        let mut i: usize = 0;
        assert(self.map@.skip(0) =~= self.map@);
        while i < self.map.len()
            invariant
                i <= self.map@.len(),
                first_of_kind(self.map@.skip(i as int), kind) == first_of_kind(self.map@, kind),
            decreases self.map@.len() - i,
        {
            let ghost s = self.map@.skip(i as int);
            assert(s[0] == self.map@[i as int]);
            assert(s.drop_first() =~= self.map@.skip(i + 1));
            let a = self.map.value_at(i);
            if a.get_kind() == kind {
                return Some(a);
            }
            i = i + 1;
        }
        None
    }

    fn is_kind(&self, kind: AttributeKind) -> (b: bool)
        ensures
            b == has_kind(self@, kind),
    {
        self.find_kind(kind).is_some()
    }

    fn drop_kind(&mut self, kind: AttributeKind)
        ensures
            final(self)@ == without_kind(old(self)@, kind),
    {
        let test = OtherKind { kind };
        self.map.retain(&test);
        proof {
            let p = |e: (KeyV, Attribute)| test.accepts(e.0, e.1);
            let q = |e: (KeyV, Attribute)| e.1.kind() != kind;
            assert(p =~= q);
        }
    }

    /// Keeps the attributes of the given kinds.
    pub fn retain_kinds(&mut self, kinds: &Vec<AttributeKind>)
        ensures
            final(self)@ == of_kinds(old(self)@, kinds@),
    {
        let test = OneOfKinds { kinds };
        self.map.retain(&test);
        proof {
            let p = |e: (KeyV, Attribute)| test.accepts(e.0, e.1);
            let q = |e: (KeyV, Attribute)| kinds@.contains(e.1.kind());
            assert(p =~= q);
        }
    }

    /// Find the `Invalid` attribute, if any.
    pub fn get_invalid(&self) -> (r: Option<(&Invalidation, &ValueHistory)>)
        ensures
            first_of_kind(self@, AttributeKind::Invalid) == (match r {
                Some((inv, history)) => Some(Attribute::Invalid(*inv, *history)),
                None => None,
            }),
    {
        match self.find_kind(AttributeKind::Invalid) {
            Some(Attribute::Invalid(inv, history)) => Some((inv, history)),
            _ => None,
        }
    }

    /// Find the `MustBeValid` attribute, if any.
    pub fn get_must_be_valid(&self) -> (r: Option<
        (Timestamp, &Location, &Option<MustBeValidReason>),
    >)
        ensures
            first_of_kind(self@, AttributeKind::MustBeValid) == (match r {
                Some((ts, loc, reason)) => Some(Attribute::MustBeValid(ts, *loc, *reason)),
                None => None,
            }),
    {
        match self.find_kind(AttributeKind::MustBeValid) {
            Some(Attribute::MustBeValid(ts, loc, reason)) => Some((*ts, loc, reason)),
            _ => None,
        }
    }

    /// Find the `MustBeInitialized` attribute, if any.
    pub fn get_must_be_initialized(&self) -> (r: Option<(Timestamp, &Location)>)
        ensures
            first_of_kind(self@, AttributeKind::MustBeInitialized) == (match r {
                Some((ts, loc)) => Some(Attribute::MustBeInitialized(ts, *loc)),
                None => None,
            }),
    {
        match self.find_kind(AttributeKind::MustBeInitialized) {
            Some(Attribute::MustBeInitialized(ts, loc)) => Some((*ts, loc)),
            _ => None,
        }
    }

    /// Find the `WrittenTo` attribute, if any.
    pub fn get_written_to(&self) -> (r: Option<(Timestamp, &Location)>)
        ensures
            first_of_kind(self@, AttributeKind::WrittenTo) == (match r {
                Some((ts, loc)) => Some(Attribute::WrittenTo(ts, *loc)),
                None => None,
            }),
    {
        match self.find_kind(AttributeKind::WrittenTo) {
            Some(Attribute::WrittenTo(ts, loc)) => Some((*ts, loc)),
            _ => None,
        }
    }

    /// Check if this address is allocated.
    pub fn is_allocated(&self) -> (b: bool)
        ensures
            b == has_kind(self@, AttributeKind::Allocated),
    {
        self.is_kind(AttributeKind::Allocated)
    }

    /// Remove the `Allocated` attribute, if any.
    pub fn remove_allocated(&mut self)
        ensures
            final(self)@ == without_kind(old(self)@, AttributeKind::Allocated),
    {
        self.drop_kind(AttributeKind::Allocated);
    }

    /// Remove the `Uninitialized` attribute, if any.
    pub fn remove_uninitialized(&mut self)
        ensures
            final(self)@ == without_kind(old(self)@, AttributeKind::Uninitialized),
    {
        self.drop_kind(AttributeKind::Uninitialized);
    }

    /// Remove the `MustBeInitialized` attributes, if any.
    pub fn remove_must_be_initialized(&mut self)
        ensures
            final(self)@ == without_kind(old(self)@, AttributeKind::MustBeInitialized),
    {
        self.drop_kind(AttributeKind::MustBeInitialized);
    }

    /// Replace the `Invalid` attributes by one.
    pub fn replace_invalid(&mut self, inv: Invalidation, history: ValueHistory)
        ensures
            final(self)@ == attributes_add(
                without_kind(old(self)@, AttributeKind::Invalid),
                Attribute::Invalid(inv, history),
            ),
    {
        self.drop_kind(AttributeKind::Invalid);
        self.add(Attribute::Invalid(inv, history));
    }

    /// Find the `Allocated` attribute, if any.
    pub fn get_allocated(&self) -> (r: Option<(&Allocator, &Location)>)
        ensures
            first_of_kind(self@, AttributeKind::Allocated) == (match r {
                Some((alloc, loc)) => Some(Attribute::Allocated(*alloc, *loc)),
                None => None,
            }),
    {
        match self.find_kind(AttributeKind::Allocated) {
            Some(Attribute::Allocated(alloc, loc)) => Some((alloc, loc)),
            _ => None,
        }
    }

    /// Check if this address is initialized.
    pub fn is_initialized(&self) -> (b: bool)
        ensures
            b == has_kind(self@, AttributeKind::Initialized),
    {
        self.is_kind(AttributeKind::Initialized)
    }

    /// Check if this address is still considered uninitialized: the marker
    /// counts only while `Initialized` is absent.
    pub fn is_uninitialized(&self) -> (b: bool)
        ensures
            b == uninitialized(self@),
    {
        !self.is_initialized() && self.is_kind(AttributeKind::Uninitialized)
    }

    /// Check if the `Uninitialized` marker is there.
    pub fn is_marked_uninitialized(&self) -> (b: bool)
        ensures
            b == has_kind(self@, AttributeKind::Uninitialized),
    {
        self.is_kind(AttributeKind::Uninitialized)
    }

    /// Check if this address should be kept reachable across summary creation.
    pub fn is_always_reachable(&self) -> (b: bool)
        ensures
            b == has_kind(self@, AttributeKind::AlwaysReachable),
    {
        self.is_kind(AttributeKind::AlwaysReachable)
    }

    /// Check if this address has been std::move'd.
    pub fn is_std_moved(&self) -> (b: bool)
        ensures
            b == has_kind(self@, AttributeKind::StdMoved),
    {
        self.is_kind(AttributeKind::StdMoved)
    }

    /// Get the closure/function-pointer procedure name, if any.
    pub fn get_closure_proc_name(&self) -> (r: Option<&Procname>)
        ensures
            first_of_kind(self@, AttributeKind::Closure) == (match r {
                Some(p) => Some(Attribute::Closure(*p)),
                None => None,
            }),
    {
        match self.find_kind(AttributeKind::Closure) {
            Some(Attribute::Closure(pname)) => Some(pname),
            _ => None,
        }
    }
}

} // verus!
