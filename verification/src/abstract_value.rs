//! Abstract values: symbolic addresses in the abstract heap.
//!
//! An abstract value is an integer standing for a symbolic heap address.
//! Positive values are unrestricted (they can be anything), negative values
//! are restricted (non-negative in the concrete, used for arithmetic solving).
//!
//! Fresh values come from a [`FreshCounters`]; resetting it before each
//! procedure makes the values of an analysis reproducible.

use crate::ordered::{Comparison, Dup, OrdKey};
use crate::text::push_nat;
use vstd::prelude::*;

verus! {

/// A symbolic address. Positive = unrestricted, negative = restricted.
#[derive(Clone, Copy, Debug, PartialEq, Eq, Structural, Hash, PartialOrd, Ord)]
pub struct AbstractValue(pub i64);

/// The next values to hand out.
#[derive(Clone, Copy, Debug, PartialEq, Eq, Structural)]
pub struct FreshCounters {
    /// Next fresh unrestricted value (positive, counting up).
    pub next_fresh: i64,
    /// Next fresh restricted value (negative, counting down).
    pub next_fresh_restricted: i64,
}

impl FreshCounters {
    /// The counters only ever move away from zero.
    pub open spec fn wf(self) -> bool {
        self.next_fresh >= 1 && self.next_fresh_restricted <= -1
    }

    /// `v` has been handed out since the last reset.
    pub open spec fn issued(self, v: AbstractValue) -> bool {
        1 <= v.0 < self.next_fresh || self.next_fresh_restricted < v.0 <= -1
    }

    pub fn new() -> (c: Self)
        ensures
            c.wf(),
            c.next_fresh == 1,
            c.next_fresh_restricted == -1,
            forall|v: AbstractValue| !c.issued(v),
    {
        FreshCounters { next_fresh: 1, next_fresh_restricted: -1 }
    }
}

impl AbstractValue {
    /// Create a new fresh unrestricted abstract value.
    pub fn mk_fresh(counters: &mut FreshCounters) -> (r: Self)
        requires
            old(counters).wf(),
            old(counters).next_fresh < i64::MAX,
        ensures
            final(counters).wf(),
            r.0 == old(counters).next_fresh,
            final(counters).next_fresh == old(counters).next_fresh + 1,
            final(counters).next_fresh_restricted == old(counters).next_fresh_restricted,
            !old(counters).issued(r),
            forall|v: AbstractValue|
                final(counters).issued(v) <==> old(counters).issued(v) || v == r,
    {
        let v: i64 = counters.next_fresh;
        counters.next_fresh = v + 1;
        AbstractValue(v)
    }

    /// Create a new fresh restricted abstract value (represents a non-negative
    /// concrete value).
    pub fn mk_fresh_restricted(counters: &mut FreshCounters) -> (r: Self)
        requires
            old(counters).wf(),
            old(counters).next_fresh_restricted > i64::MIN,
        ensures
            final(counters).wf(),
            r.0 == old(counters).next_fresh_restricted,
            final(counters).next_fresh_restricted == old(counters).next_fresh_restricted - 1,
            final(counters).next_fresh == old(counters).next_fresh,
            !old(counters).issued(r),
            forall|v: AbstractValue|
                final(counters).issued(v) <==> old(counters).issued(v) || v == r,
    {
        let v: i64 = counters.next_fresh_restricted;
        counters.next_fresh_restricted = v - 1;
        AbstractValue(v)
    }

    /// Create a fresh value of the same kind (restricted or unrestricted).
    pub fn mk_fresh_same_kind(&self, counters: &mut FreshCounters) -> (r: Self)
        requires
            old(counters).wf(),
            self.0 < 0 ==> old(counters).next_fresh_restricted > i64::MIN,
            self.0 >= 0 ==> old(counters).next_fresh < i64::MAX,
        ensures
            final(counters).wf(),
            self.0 < 0 ==> r.0 == old(counters).next_fresh_restricted
                && final(counters).next_fresh_restricted == r.0 - 1
                && final(counters).next_fresh == old(counters).next_fresh,
            self.0 >= 0 ==> r.0 == old(counters).next_fresh
                && final(counters).next_fresh == r.0 + 1
                && final(counters).next_fresh_restricted == old(counters).next_fresh_restricted,
            !old(counters).issued(r),
            forall|v: AbstractValue|
                final(counters).issued(v) <==> old(counters).issued(v) || v == r,
    {
        if self.is_restricted() {
            Self::mk_fresh_restricted(counters)
        } else {
            Self::mk_fresh(counters)
        }
    }

    /// Whether this is a restricted (non-negative) value.
    pub fn is_restricted(&self) -> (b: bool)
        ensures
            b == (self.0 < 0),
    {
        self.0 < 0
    }

    /// Whether this is an unrestricted value.
    pub fn is_unrestricted(&self) -> (b: bool)
        ensures
            b == (self.0 > 0),
    {
        self.0 > 0
    }

    /// Get the raw integer value.
    pub fn raw(&self) -> (r: i64)
        ensures
            r == self.0,
    {
        self.0
    }

    /// Create from a raw integer.
    pub fn of_raw(v: i64) -> (r: Self)
        ensures
            r.0 == v,
    {
        AbstractValue(v)
    }

    /// Reset the counters. Call before each procedure analysis to ensure
    /// deterministic abstract values.
    pub fn reset_counters(counters: &mut FreshCounters)
        ensures
            final(counters).wf(),
            final(counters).next_fresh == 1,
            final(counters).next_fresh_restricted == -1,
            forall|v: AbstractValue| !final(counters).issued(v),
    {
        counters.next_fresh = 1;
        counters.next_fresh_restricted = -1;
    }

    /// `a` and the magnitude for a restricted value, `v` and the number for
    /// any other.
    pub open spec fn text(self) -> Seq<char> {
        if self.0 < 0 {
            seq!['a'] + crate::text::nat_text((-self.0) as nat)
        } else {
            seq!['v'] + crate::text::nat_text(self.0 as nat)
        }
    }

    pub fn to_string(&self) -> (s: String)
        ensures
            s@ == self.text(),
    {
        let mut out = String::new();
        self.push_text(&mut out);
        assert(Seq::<char>::empty() + self.text() =~= self.text());
        out
    }

    /// Appends the text of the value.
    pub fn push_text(&self, out: &mut String)
        ensures
            final(out)@ == old(out)@ + self.text(),
    {
        proof {
            reveal_strlit("a");
            reveal_strlit("v");
        }
        let ghost before = out@;
        if self.is_restricted() {
            out.append("a");
            push_nat(out, (-(self.0 as i128)) as u64);
            assert("a"@ =~= seq!['a']);
        } else {
            out.append("v");
            push_nat(out, self.0 as u64);
            assert("v"@ =~= seq!['v']);
        }
        assert(out@ =~= before + self.text());
    }
}

impl View for AbstractValue {
    type V = AbstractValue;

    open spec fn view(&self) -> AbstractValue {
        *self
    }
}

impl Dup for AbstractValue {
    fn dup(&self) -> (r: Self) {
        *self
    }
}

impl OrdKey for AbstractValue {
    open spec fn lt(a: AbstractValue, b: AbstractValue) -> bool {
        a.0 < b.0
    }

    proof fn lt_irreflexive(a: AbstractValue) {
    }

    proof fn lt_transitive(a: AbstractValue, b: AbstractValue, c: AbstractValue) {
    }

    proof fn lt_total(a: AbstractValue, b: AbstractValue) {
    }

    fn compare(&self, other: &Self) -> (c: Comparison) {
        if self.0 < other.0 {
            Comparison::Less
        } else if self.0 == other.0 {
            Comparison::Equal
        } else {
            Comparison::Greater
        }
    }
}

} // verus!
