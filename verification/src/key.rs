//! Ordering keys.
//!
//! A structured value is ordered, and told apart from others, by its key: the
//! sequence of numbers and texts that its fields amount to, in declaration
//! order, with the position of the variant in front for an enumeration.
//! Comparing keys part by part orders values field by field.

use crate::abstract_value::AbstractValue;
use crate::list::List;
use crate::ordered::{
    compare_vecs, lemma_seq_lt_irreflexive, lemma_seq_lt_total, lemma_seq_lt_transitive, seq_lt,
    views, Comparison, Dup, OrdKey,
};
use vstd::prelude::*;

verus! {

/// One part of a key.
#[derive(Debug, PartialEq, Eq)]
pub enum Part {
    Number(i128),
    Text(String),
}

/// What a part of a key stands for.
pub enum PartV {
    Number(int),
    Text(Seq<char>),
}

impl View for Part {
    type V = PartV;

    open spec fn view(&self) -> PartV {
        match self {
            Part::Number(n) => PartV::Number(*n as int),
            Part::Text(s) => PartV::Text(s@),
        }
    }
}

/// Numbers come before texts; texts are ordered by their characters.
pub open spec fn part_lt(a: PartV, b: PartV) -> bool {
    match (a, b) {
        (PartV::Number(x), PartV::Number(y)) => x < y,
        (PartV::Number(_), PartV::Text(_)) => true,
        (PartV::Text(_), PartV::Number(_)) => false,
        (PartV::Text(x), PartV::Text(y)) => <String as OrdKey>::lt(x, y),
    }
}

impl OrdKey for Part {
    open spec fn lt(a: PartV, b: PartV) -> bool {
        part_lt(a, b)
    }

    proof fn lt_irreflexive(a: PartV) {
        if let PartV::Text(s) = a {
            <String as OrdKey>::lt_irreflexive(s);
        }
    }

    proof fn lt_transitive(a: PartV, b: PartV, c: PartV) {
        if let (PartV::Text(x), PartV::Text(y)) = (a, b) {
            if let PartV::Text(z) = c {
                assert(Self::lt(a, b) == part_lt(a, b));
                assert(Self::lt(b, c) == part_lt(b, c));
                <String as OrdKey>::lt_transitive(x, y, z);
            }
        }
        assert(Self::lt(a, c) == part_lt(a, c));
    }

    proof fn lt_total(a: PartV, b: PartV) {
        if let (PartV::Text(x), PartV::Text(y)) = (a, b) {
            <String as OrdKey>::lt_total(x, y);
        }
        assert(Self::lt(a, b) == part_lt(a, b));
        assert(Self::lt(b, a) == part_lt(b, a));
    }

    fn compare(&self, other: &Self) -> (c: Comparison) {
        proof {
            assert(Self::lt(self@, other@) == part_lt(self@, other@));
            assert(Self::lt(other@, self@) == part_lt(other@, self@));
        }
        match (self, other) {
            (Part::Number(x), Part::Number(y)) => {
                if *x < *y {
                    Comparison::Less
                } else if *x == *y {
                    Comparison::Equal
                } else {
                    Comparison::Greater
                }
            },
            (Part::Number(_), Part::Text(_)) => Comparison::Less,
            (Part::Text(_), Part::Number(_)) => Comparison::Greater,
            (Part::Text(x), Part::Text(y)) => x.compare(y),
        }
    }
}

/// The key of a value.
#[derive(Debug, PartialEq, Eq)]
pub struct Key {
    parts: Vec<Part>,
}

/// What a key stands for.
pub type KeyV = Seq<PartV>;

impl View for Key {
    type V = KeyV;

    closed spec fn view(&self) -> KeyV {
        views(self.parts@)
    }
}

impl OrdKey for Key {
    open spec fn lt(a: KeyV, b: KeyV) -> bool {
        seq_lt::<Part>(a, b)
    }

    proof fn lt_irreflexive(a: KeyV) {
        lemma_seq_lt_irreflexive::<Part>(a);
    }

    proof fn lt_transitive(a: KeyV, b: KeyV, c: KeyV) {
        lemma_seq_lt_transitive::<Part>(a, b, c);
    }

    proof fn lt_total(a: KeyV, b: KeyV) {
        lemma_seq_lt_total::<Part>(a, b);
    }

    fn compare(&self, other: &Self) -> (c: Comparison) {
        proof {
            assert(Self::lt(self@, other@) == seq_lt::<Part>(self@, other@));
            assert(Self::lt(other@, self@) == seq_lt::<Part>(other@, self@));
        }
        compare_vecs(&self.parts, &other.parts)
    }
}

impl Dup for Key {
    fn dup(&self) -> (r: Self) {
        let mut parts: Vec<Part> = Vec::new();
        let mut i: usize = 0;
        while i < self.parts.len()
            invariant
                i <= self.parts.len(),
                parts.len() == i,
                forall|j: int| 0 <= j < i ==> (#[trigger] parts@[j])@ == self.parts@[j]@,
            decreases self.parts.len() - i,
        {
            let part = match &self.parts[i] {
                Part::Number(n) => Part::Number(*n),
                Part::Text(s) => Part::Text(s.dup()),
            };
            parts.push(part);
            i = i + 1;
        }
        let r = Key { parts };
        assert(r@ =~= self@);
        r
    }
}

impl Key {
    pub fn new() -> (r: Self)
        ensures
            r@ == Seq::<PartV>::empty(),
    {
        let r = Key { parts: Vec::new() };
        assert(r@ =~= Seq::<PartV>::empty());
        r
    }

    /// Appends a number.
    pub fn number(&mut self, n: i128)
        ensures
            final(self)@ == old(self)@.push(PartV::Number(n as int)),
    {
        self.parts.push(Part::Number(n));
        assert(self@ =~= old(self)@.push(PartV::Number(n as int)));
    }

    /// Appends a text.
    pub fn text(&mut self, s: &String)
        ensures
            final(self)@ == old(self)@.push(PartV::Text(s@)),
    {
        self.parts.push(Part::Text(s.dup()));
        assert(self@ =~= old(self)@.push(PartV::Text(s@)));
    }
}

/// A type whose values have a key.
pub trait Keyed: Sized {
    spec fn key(&self) -> KeyV;

    /// Appends the key of the value.
    fn push_key(&self, out: &mut Key)
        ensures
            final(out)@ == old(out)@ + self.key(),
    ;
}

/// The key of `x`.
pub fn key_of<T: Keyed>(x: &T) -> (r: Key)
    ensures
        r@ == x.key(),
{
    let mut out = Key::new();
    x.push_key(&mut out);
    assert(Seq::<PartV>::empty() + x.key() =~= x.key());
    out
}

/// Whether two values have the same key.
pub fn same_key<T: Keyed>(x: &T, y: &T) -> (b: bool)
    ensures
        b == (x.key() == y.key()),
{
    let a = key_of(x);
    let b = key_of(y);
    proof {
        Key::lt_irreflexive(a@);
    }
    match a.compare(&b) {
        Comparison::Equal => true,
        _ => false,
    }
}

/// The key of a number.
pub open spec fn number_key(n: int) -> KeyV {
    seq![PartV::Number(n)]
}

/// The key of a text.
pub open spec fn text_key(s: Seq<char>) -> KeyV {
    seq![PartV::Text(s)]
}

impl Keyed for String {
    open spec fn key(&self) -> KeyV {
        text_key(self@)
    }

    fn push_key(&self, out: &mut Key) {
        let ghost before = out@;
        out.text(self);
        assert(<String as Keyed>::key(self) == text_key(self@));
        assert(before.push(PartV::Text(self@)) =~= before + text_key(self@));
    }
}

impl Keyed for AbstractValue {
    open spec fn key(&self) -> KeyV {
        number_key(self.0 as int)
    }

    fn push_key(&self, out: &mut Key) {
        let ghost before = out@;
        out.number(self.0 as i128);
        assert(before.push(PartV::Number(self.0 as int)) =~= before + number_key(self.0 as int));
    }
}

/// Appends a number.
pub fn push_number(out: &mut Key, n: i128)
    ensures
        final(out)@ == old(out)@ + number_key(n as int),
{
    let ghost before = out@;
    out.number(n);
    assert(before.push(PartV::Number(n as int)) =~= before + number_key(n as int));
}

/// The key of an optional value: whether it is there, then its own key.
pub open spec fn option_key<T: Keyed>(x: Option<T>) -> KeyV {
    match x {
        None => number_key(0),
        Some(v) => number_key(1) + v.key(),
    }
}

/// Appends the key of an optional value.
pub fn push_option_key<T: Keyed>(out: &mut Key, x: &Option<T>)
    ensures
        final(out)@ == old(out)@ + option_key(*x),
{
    let ghost before = out@;
    match x {
        None => push_number(out, 0),
        Some(v) => {
            push_number(out, 1);
            v.push_key(out);
            assert(before + number_key(1) + v.key() =~= before + (number_key(1) + v.key()));
        },
    }
}

/// The key of a list: each element behind a one, then a zero.
pub open spec fn list_key<T: Keyed>(l: List<T>) -> KeyV
    decreases l,
{
    match l {
        List::Nil => number_key(0),
        List::Cons(head, tail) => number_key(1) + head.key() + list_key(*tail),
    }
}

impl<T: Keyed> Keyed for List<T> {
    open spec fn key(&self) -> KeyV {
        list_key(*self)
    }

    fn push_key(&self, out: &mut Key)
        decreases self,
    {
        let ghost before = out@;
        match self {
            List::Nil => push_number(out, 0),
            List::Cons(head, tail) => {
                push_number(out, 1);
                head.push_key(out);
                tail.push_key(out);
                assert(before + number_key(1) + head.key() + list_key(**tail) =~= before + (
                number_key(1) + head.key() + list_key(**tail)));
            },
        }
    }
}

} // verus!
