//! Why an address is not valid to access.

use crate::key::{number_key, push_number, text_key, Key, KeyV, Keyed};
use crate::list::Twin;
use crate::sil::{IntLit, Location, Procname, Pvar};
use crate::text::{int_text, push_int};
use vstd::prelude::*;

verus! {

/// The reason why an address must not be accessed any more.
#[derive(Debug, PartialEq, Eq)]
pub enum Invalidation {
    /// The address is an integer constant; zero is the null pointer.
    ConstantDereference(IntLit),
    /// The address was compared to null in the procedure, at this location.
    ComparedToNullInThisProcedure(Location),
    CFree,
    FClose,
    CppDelete,
    CppDeleteArray,
    /// A procedure configured to release memory was called.
    CustomFree(Procname),
    /// The variable's lifetime has ended.
    GoneOutOfScope(Pvar, Location),
    OptionalEmpty,
    /// A vector was changed by the named member function.
    StdVector(String),
    /// The address is past the end of a collection.
    EndIterator,
}

/// Why an address has to be valid.
#[derive(Debug, PartialEq, Eq)]
pub struct MustBeValidReason {
    pub description: String,
}

impl Clone for Invalidation {
    fn clone(&self) -> (r: Self)
        ensures
            r == *self,
    {
        match self {
            Invalidation::ConstantDereference(c) => Invalidation::ConstantDereference(*c),
            Invalidation::ComparedToNullInThisProcedure(l) => {
                Invalidation::ComparedToNullInThisProcedure(l.clone())
            },
            Invalidation::CFree => Invalidation::CFree,
            Invalidation::FClose => Invalidation::FClose,
            Invalidation::CppDelete => Invalidation::CppDelete,
            Invalidation::CppDeleteArray => Invalidation::CppDeleteArray,
            Invalidation::CustomFree(p) => Invalidation::CustomFree(p.clone()),
            Invalidation::GoneOutOfScope(p, l) => Invalidation::GoneOutOfScope(
                p.clone(),
                l.clone(),
            ),
            Invalidation::OptionalEmpty => Invalidation::OptionalEmpty,
            Invalidation::StdVector(f) => Invalidation::StdVector(f.clone()),
            Invalidation::EndIterator => Invalidation::EndIterator,
        }
    }
}

impl Twin for Invalidation {
    fn twin(&self) -> (r: Self) {
        self.clone()
    }
}

impl Keyed for Invalidation {
    open spec fn key(&self) -> KeyV {
        match self {
            Invalidation::ConstantDereference(c) => number_key(0) + c.key(),
            Invalidation::ComparedToNullInThisProcedure(l) => number_key(1) + l.key(),
            Invalidation::CFree => number_key(2),
            Invalidation::FClose => number_key(3),
            Invalidation::CppDelete => number_key(4),
            Invalidation::CppDeleteArray => number_key(5),
            Invalidation::CustomFree(p) => number_key(6) + p.key(),
            Invalidation::GoneOutOfScope(p, l) => number_key(7) + p.key() + l.key(),
            Invalidation::OptionalEmpty => number_key(8),
            Invalidation::StdVector(f) => number_key(9) + text_key(f@),
            Invalidation::EndIterator => number_key(10),
        }
    }

    fn push_key(&self, out: &mut Key) {
        let ghost before = out@;
        match self {
            Invalidation::ConstantDereference(c) => {
                push_number(out, 0);
                c.push_key(out);
                assert(before + number_key(0) + c.key() =~= before + (number_key(0) + c.key()));
            },
            Invalidation::ComparedToNullInThisProcedure(l) => {
                push_number(out, 1);
                l.push_key(out);
                assert(before + number_key(1) + l.key() =~= before + (number_key(1) + l.key()));
            },
            Invalidation::CFree => {
                push_number(out, 2);
            },
            Invalidation::FClose => {
                push_number(out, 3);
            },
            Invalidation::CppDelete => {
                push_number(out, 4);
            },
            Invalidation::CppDeleteArray => {
                push_number(out, 5);
            },
            Invalidation::CustomFree(p) => {
                push_number(out, 6);
                p.push_key(out);
                assert(before + number_key(6) + p.key() =~= before + (number_key(6) + p.key()));
            },
            Invalidation::GoneOutOfScope(p, l) => {
                push_number(out, 7);
                p.push_key(out);
                l.push_key(out);
                assert(
                    before + number_key(7) + p.key() + l.key()
                        =~= before + (number_key(7) + p.key() + l.key())
                );
            },
            Invalidation::OptionalEmpty => {
                push_number(out, 8);
            },
            Invalidation::StdVector(f) => {
                push_number(out, 9);
                f.push_key(out);
                assert(
                    before + number_key(9) + text_key(f@)
                        =~= before + (number_key(9) + text_key(f@))
                );
            },
            Invalidation::EndIterator => {
                push_number(out, 10);
            },
        }
    }
}

impl Clone for MustBeValidReason {
    fn clone(&self) -> (r: Self)
        ensures
            r == *self,
    {
        MustBeValidReason { description: self.description.clone() }
    }
}

impl Twin for MustBeValidReason {
    fn twin(&self) -> (r: Self) {
        self.clone()
    }
}

impl Keyed for MustBeValidReason {
    open spec fn key(&self) -> KeyV {
        text_key(self.description@)
    }

    fn push_key(&self, out: &mut Key) {
        let ghost before = out@;
        self.description.push_key(out);
    }
}

impl Invalidation {
    /// The address is the null pointer.
    pub open spec fn null_deref(self) -> bool {
        self matches Invalidation::ConstantDereference(c) && c.value == 0
    }

    pub fn is_null_deref(&self) -> (b: bool)
        ensures
            b == self.null_deref(),
    {
        match self {
            Invalidation::ConstantDereference(c) => c.is_zero(),
            _ => false,
        }
    }

    /// The position of the variant.
    pub open spec fn variant(self) -> int {
        match self {
            Invalidation::ConstantDereference(_) => 0,
            Invalidation::ComparedToNullInThisProcedure(_) => 1,
            Invalidation::CFree => 2,
            Invalidation::FClose => 3,
            Invalidation::CppDelete => 4,
            Invalidation::CppDeleteArray => 5,
            Invalidation::CustomFree(_) => 6,
            Invalidation::GoneOutOfScope(_, _) => 7,
            Invalidation::OptionalEmpty => 8,
            Invalidation::StdVector(_) => 9,
            Invalidation::EndIterator => 10,
        }
    }

    fn get_variant(&self) -> (n: u8)
        ensures
            n == self.variant(),
    {
        match self {
            Invalidation::ConstantDereference(_) => 0,
            Invalidation::ComparedToNullInThisProcedure(_) => 1,
            Invalidation::CFree => 2,
            Invalidation::FClose => 3,
            Invalidation::CppDelete => 4,
            Invalidation::CppDeleteArray => 5,
            Invalidation::CustomFree(_) => 6,
            Invalidation::GoneOutOfScope(_, _) => 7,
            Invalidation::OptionalEmpty => 8,
            Invalidation::StdVector(_) => 9,
            Invalidation::EndIterator => 10,
        }
    }

    /// Whether two invalidations differ at most in their details.
    pub fn is_same_type(&self, other: &Invalidation) -> (b: bool)
        ensures
            b == (self.variant() == other.variant()),
    {
        self.get_variant() == other.get_variant()
    }

    /// What happened to the address, as the predicate of a sentence.
    pub open spec fn text(self) -> Seq<char> {
        match self {
            Invalidation::ConstantDereference(c) => if c.value == 0 {
                "is assigned to the null pointer"@
            } else {
                "is assigned to the constant "@ + int_text(c.value as int)
            },
            Invalidation::ComparedToNullInThisProcedure(_) => "was compared to null"@,
            Invalidation::CFree => "was invalidated by call to `free()`"@,
            Invalidation::FClose => "was invalidated by call to `fclose()`"@,
            Invalidation::CppDelete => "was invalidated by `delete`"@,
            Invalidation::CppDeleteArray => "was invalidated by `delete[]`"@,
            Invalidation::CustomFree(p) => "was invalidated by call to `"@ + p.text() + "()`"@,
            Invalidation::GoneOutOfScope(p, _) => "is the address of `"@ + p.name.name@
                + "` whose lifetime has ended"@,
            Invalidation::OptionalEmpty => "is assigned an empty value"@,
            Invalidation::StdVector(f) => "was potentially invalidated by `"@ + f@ + "()`"@,
            Invalidation::EndIterator => "is pointed to by the `end()` iterator"@,
        }
    }

    pub fn push_text(&self, out: &mut String)
        ensures
            final(out)@ == old(out)@ + self.text(),
    {
        let ghost before = out@;
        match self {
            Invalidation::ConstantDereference(c) => if c.is_zero() {
                out.append("is assigned to the null pointer");
            } else {
                out.append("is assigned to the constant ");
                push_int(out, c.value);
            },
            Invalidation::ComparedToNullInThisProcedure(_) => out.append("was compared to null"),
            Invalidation::CFree => out.append("was invalidated by call to `free()`"),
            Invalidation::FClose => out.append("was invalidated by call to `fclose()`"),
            Invalidation::CppDelete => out.append("was invalidated by `delete`"),
            Invalidation::CppDeleteArray => out.append("was invalidated by `delete[]`"),
            Invalidation::CustomFree(p) => {
                out.append("was invalidated by call to `");
                p.push_text(out);
                out.append("()`");
            },
            Invalidation::GoneOutOfScope(p, _) => {
                out.append("is the address of `");
                out.append(p.name.name.as_str());
                out.append("` whose lifetime has ended");
            },
            Invalidation::OptionalEmpty => out.append("is assigned an empty value"),
            Invalidation::StdVector(f) => {
                out.append("was potentially invalidated by `");
                out.append(f.as_str());
                out.append("()`");
            },
            Invalidation::EndIterator => out.append("is pointed to by the `end()` iterator"),
        }
        assert(out@ =~= before + self.text());
    }
}

} // verus!
