//! Immutable lists.
//!
//! A list is a plain inductive value, so two lists with the same elements are
//! the same list. Its view is the sequence of its elements.

use vstd::prelude::*;

verus! {

/// A type whose values can be copied exactly.
pub trait Twin: Sized {
    fn twin(&self) -> (r: Self)
        ensures
            r == *self,
    ;
}

/// A list of values.
#[derive(Debug, PartialEq, Eq)]
pub enum List<T> {
    Nil,
    Cons(T, Box<List<T>>),
}

/// The elements of a list, first to last.
pub open spec fn elements<T>(l: List<T>) -> Seq<T>
    decreases l,
{
    match l {
        List::Nil => seq![],
        List::Cons(head, tail) => seq![head] + elements(*tail),
    }
}

impl<T> View for List<T> {
    type V = Seq<T>;

    open spec fn view(&self) -> Seq<T> {
        elements(*self)
    }
}

/// Two lists with the same elements are equal.
pub proof fn lemma_same_elements<T>(a: List<T>, b: List<T>)
    requires
        a@ == b@,
    ensures
        a == b,
    decreases a,
{
    match a {
        List::Nil => {
            if let List::Cons(y, q) = b {
                assert(b@.len() == 1 + elements(*q).len());
            }
        },
        List::Cons(x, p) => {
            match b {
                List::Nil => {
                    assert(a@.len() == 1 + elements(*p).len());
                },
                List::Cons(y, q) => {
                    assert(a@[0] == x && b@[0] == y);
                    assert(a@.drop_first() =~= elements(*p));
                    assert(b@.drop_first() =~= elements(*q));
                    lemma_same_elements(*p, *q);
                },
            }
        },
    }
}

/// The list of the elements of `s`.
pub open spec fn list_of<T>(s: Seq<T>) -> List<T>
    decreases s.len(),
{
    if s.len() == 0 {
        List::Nil
    } else {
        List::Cons(s[0], Box::new(list_of(s.drop_first())))
    }
}

/// The list made of `s` has the elements of `s`.
pub proof fn lemma_list_of<T>(s: Seq<T>)
    ensures
        list_of(s)@ == s,
    decreases s.len(),
{
    if s.len() > 0 {
        lemma_list_of(s.drop_first());
        assert(seq![s[0]] + s.drop_first() =~= s);
    } else {
        assert(list_of(s)@ =~= s);
    }
}

impl<T> List<T> {
    /// The empty list.
    pub fn empty() -> (r: Self)
        ensures
            r@ == Seq::<T>::empty(),
            r == List::<T>::Nil,
    {
        List::Nil
    }

    pub fn is_empty(&self) -> (b: bool)
        ensures
            b == (self@.len() == 0),
            b == (*self == List::<T>::Nil),
    {
        match self {
            List::Nil => true,
            List::Cons(_, tail) => {
                assert(self@.len() == 1 + elements(**tail).len());
                false
            },
        }
    }

    /// The list with `x` in front.
    pub fn prepended(self, x: T) -> (r: Self)
        ensures
            r@ == seq![x] + self@,
    {
        List::Cons(x, Box::new(self))
    }

    /// The list with `x` behind its last element.
    pub fn appended(self, x: T) -> (r: Self)
        ensures
            r@ == self@.push(x),
        decreases self,
    {
        match self {
            List::Nil => {
                assert(seq![x] + Seq::<T>::empty() =~= Seq::<T>::empty().push(x));
                List::Cons(x, Box::new(List::Nil))
            },
            List::Cons(head, tail) => {
                let ghost rest = elements(*tail);
                let r = List::Cons(head, Box::new((*tail).appended(x)));
                assert(seq![head] + rest.push(x) =~= (seq![head] + rest).push(x));
                r
            },
        }
    }

    /// The element at position `i`.
    pub fn at(&self, i: usize) -> (r: &T)
        requires
            i < self@.len(),
        ensures
            *r == self@[i as int],
        decreases self,
    {
        match self {
            List::Nil => {
                assert(false);
                self.at(i)
            },
            List::Cons(head, tail) => {
                if i == 0 {
                    head
                } else {
                    assert(self@[i as int] == elements(**tail)[i - 1]);
                    tail.at(i - 1)
                }
            },
        }
    }
}

impl<T: Twin> Twin for List<T> {
    fn twin(&self) -> (r: Self)
        decreases self,
    {
        match self {
            List::Nil => List::Nil,
            List::Cons(head, tail) => List::Cons(head.twin(), Box::new(tail.twin())),
        }
    }
}

impl<T: Twin> Clone for List<T> {
    fn clone(&self) -> (r: Self)
        ensures
            r == *self,
    {
        self.twin()
    }
}

impl<T: Twin> List<T> {
    /// The elements as a vector.
    pub fn to_vec(&self) -> (r: Vec<T>)
        ensures
            r@ == self@,
    {
        let mut out: Vec<T> = Vec::new();
        self.push_onto(&mut out);
        assert(Seq::<T>::empty() + self@ =~= self@);
        out
    }

    fn push_onto(&self, out: &mut Vec<T>)
        ensures
            final(out)@ == old(out)@ + self@,
        decreases self,
    {
        match self {
            List::Nil => {
                assert(old(out)@ + self@ =~= old(out)@);
            },
            List::Cons(head, tail) => {
                out.push(head.twin());
                tail.push_onto(out);
                assert(old(out)@.push(*head) + elements(**tail) =~= old(out)@ + self@);
            },
        }
    }
}

} // verus!
