//! Binary operators of the intermediate language.

use vstd::prelude::*;

verus! {

/// The width and signedness an arithmetic operator works at, when known.
#[derive(Clone, Copy, Debug, PartialEq, Eq, Structural, Hash, PartialOrd, Ord)]
pub enum IntKind {
    Char,
    Short,
    Int,
    Long,
    LongLong,
    UnsignedChar,
    UnsignedShort,
    UnsignedInt,
    UnsignedLong,
    UnsignedLongLong,
}

#[derive(Clone, Copy, Debug, PartialEq, Eq, Structural, Hash, PartialOrd, Ord)]
pub enum Binop {
    /// Integer addition.
    PlusA(Option<IntKind>),
    /// Pointer plus integer.
    PlusPI,
    /// Integer subtraction.
    MinusA(Option<IntKind>),
    /// Pointer minus integer.
    MinusPI,
    /// Pointer minus pointer.
    MinusPP,
    Mult(Option<IntKind>),
    DivI,
    DivF,
    Mod,
    Shiftlt,
    Shiftrt,
    Lt,
    Gt,
    Le,
    Ge,
    Eq,
    Ne,
    BAnd,
    BXor,
    BOr,
    LAnd,
    LOr,
}

impl Binop {
    /// Whether the comparison `x op y` holds; `None` for operators that do
    /// not compare.
    pub open spec fn holds(self, x: int, y: int) -> Option<bool> {
        match self {
            Binop::Lt => Some(x < y),
            Binop::Gt => Some(x > y),
            Binop::Le => Some(x <= y),
            Binop::Ge => Some(x >= y),
            Binop::Eq => Some(x == y),
            Binop::Ne => Some(x != y),
            _ => None,
        }
    }
}

} // verus!
