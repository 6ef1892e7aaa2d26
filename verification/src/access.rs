//! Heap access paths: how to reach a value from an address.

use crate::abstract_value::AbstractValue;
use crate::formula::lin_arith::{is_mapping, mapping};
use crate::key::{number_key, push_number, text_key, Key, KeyV, Keyed, PartV};
use crate::list::Twin;
use crate::ordered::{seq_lt, Comparison, Dup, OrdKey};
use crate::sil::{Fieldname, Typ};
use vstd::prelude::*;

verus! {

/// How to access a value from a heap address.
#[derive(Debug, PartialEq, Eq)]
pub enum Access {
    /// Struct field access: `addr.field`.
    FieldAccess(Fieldname),
    /// Array element access: `addr[index]` with element type.
    ArrayAccess(Typ, AbstractValue),
    /// Pointer dereference: `*addr`.
    Dereference,
}

impl Clone for Access {
    fn clone(&self) -> (r: Self)
        ensures
            r == *self,
    {
        match self {
            Access::FieldAccess(f) => Access::FieldAccess(f.clone()),
            Access::ArrayAccess(t, i) => Access::ArrayAccess(t.clone(), *i),
            Access::Dereference => Access::Dereference,
        }
    }
}

impl Twin for Access {
    fn twin(&self) -> (r: Self) {
        self.clone()
    }
}

impl Keyed for Access {
    open spec fn key(&self) -> KeyV {
        match self {
            Access::FieldAccess(f) => number_key(0) + f.key(),
            Access::ArrayAccess(t, i) => number_key(1) + t.key() + i.key(),
            Access::Dereference => number_key(2),
        }
    }

    fn push_key(&self, out: &mut Key) {
        let ghost before = out@;
        match self {
            Access::FieldAccess(f) => {
                push_number(out, 0);
                f.push_key(out);
                assert(before + number_key(0) + f.key() =~= before + (number_key(0) + f.key()));
            },
            Access::ArrayAccess(t, i) => {
                push_number(out, 1);
                t.push_key(out);
                i.push_key(out);
                assert(
                    before + number_key(1) + t.key() + i.key()
                        =~= before + (number_key(1) + t.key() + i.key())
                );
            },
            Access::Dereference => {
                push_number(out, 2);
            },
        }
    }
}

impl View for Access {
    type V = Access;

    open spec fn view(&self) -> Access {
        *self
    }
}

impl Dup for Access {
    fn dup(&self) -> (r: Self) {
        self.clone()
    }
}

/// `a` with its index, if it has one, replaced by its image.
pub open spec fn renamed_access(m: spec_fn(AbstractValue) -> AbstractValue, a: Access) -> Access {
    match a {
        Access::ArrayAccess(typ, index) => Access::ArrayAccess(typ, m(index)),
        Access::FieldAccess(_) | Access::Dereference => a,
    }
}

/// `a` comes before `b`: fields by name, then array elements by index, then
/// the dereference.
pub open spec fn access_lt(a: Access, b: Access) -> bool {
    match (a, b) {
        (Access::FieldAccess(f), Access::FieldAccess(g)) => <String as OrdKey>::lt(
            f.field_name@,
            g.field_name@,
        ),
        (Access::FieldAccess(_), _) => true,
        (_, Access::FieldAccess(_)) => false,
        (Access::ArrayAccess(_, i), Access::ArrayAccess(_, j)) => i.0 < j.0,
        (Access::ArrayAccess(_, _), _) => true,
        _ => false,
    }
}

impl Access {
    /// What edges are ordered and found by: the kind of access with the name of
    /// the field or the index. The class of the field and the type of the
    /// elements play no part.
    pub open spec fn order(self) -> KeyV {
        match self {
            Access::FieldAccess(f) => number_key(0) + text_key(f.field_name@),
            Access::ArrayAccess(_, i) => number_key(1) + number_key(i.0 as int),
            Access::Dereference => number_key(2),
        }
    }

    pub fn order_key(&self) -> (r: Key)
        ensures
            r@ == self.order(),
    {
        let mut out = Key::new();
        match self {
            Access::FieldAccess(f) => {
                push_number(&mut out, 0);
                f.field_name.push_key(&mut out);
            },
            Access::ArrayAccess(_, i) => {
                push_number(&mut out, 1);
                i.push_key(&mut out);
            },
            Access::Dereference => push_number(&mut out, 2),
        }
        assert(out@ =~= self.order());
        out
    }

    /// Compares two accesses in the order of edges.
    pub fn compare(&self, other: &Access) -> (c: Comparison)
        ensures
            match c {
                Comparison::Less => access_lt(*self, *other),
                Comparison::Equal => self.order() == other.order(),
                Comparison::Greater => access_lt(*other, *self),
            },
    {
        proof {
            law_access_order(*self, *other);
            law_access_order(*other, *self);
        }
        self.order_key().compare(&other.order_key())
    }

    /// Canonicalize by replacing abstract values with their representatives.
    pub fn canonicalize<F: Fn(AbstractValue) -> AbstractValue>(&self, get_var_repr: F) -> (r: Self)
        requires
            is_mapping(get_var_repr),
        ensures
            r == renamed_access(mapping(get_var_repr), *self),
    {
        match self {
            Access::ArrayAccess(typ, index) => {
                let new_index = get_var_repr(*index);
                Access::ArrayAccess(typ.clone(), new_index)
            },
            Access::FieldAccess(_) | Access::Dereference => self.clone(),
        }
    }

    pub open spec fn text(self) -> Seq<char> {
        match self {
            Access::FieldAccess(f) => "."@ + f.field_name@,
            Access::ArrayAccess(_, i) => "["@ + i.text() + "]"@,
            Access::Dereference => "*"@,
        }
    }

    pub fn push_text(&self, out: &mut String)
        ensures
            final(out)@ == old(out)@ + self.text(),
    {
        let ghost before = out@;
        match self {
            Access::FieldAccess(f) => {
                out.append(".");
                out.append(f.field_name.as_str());
            },
            Access::ArrayAccess(_, i) => {
                out.append("[");
                i.push_text(out);
                out.append("]");
            },
            Access::Dereference => out.append("*"),
        }
        assert(out@ =~= before + self.text());
    }

    /// The access as a string.
    pub fn to_string(&self) -> (r: String)
        ensures
            r@ == self.text(),
    {
        let mut out = String::new();
        self.push_text(&mut out);
        assert(Seq::<char>::empty() + self.text() =~= self.text());
        out
    }
}

/// Edges are kept in the order of accesses: the order of the keys is
/// [`access_lt`].
pub proof fn law_access_order(a: Access, b: Access)
    ensures
        <Key as OrdKey>::lt(a.order(), b.order()) == access_lt(a, b),
{
    let x = a.order();
    let y = b.order();
    reveal_with_fuel(seq_lt, 3);
    assert(<Key as OrdKey>::lt(x, y) == seq_lt::<crate::key::Part>(x, y));
    assert(x.drop_first() =~= x.skip(1) && y.drop_first() =~= y.skip(1));
    assert(forall|p: PartV, q: PartV|
        #[trigger] <crate::key::Part as OrdKey>::lt(p, q) == crate::key::part_lt(p, q));
}

} // verus!
