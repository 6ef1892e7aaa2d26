//! Ordered maps and sets over totally ordered keys.
//!
//! An [`OrdMap`] keeps its bindings sorted by key, so iterating over it by
//! index visits the keys in increasing order. Its view is the sequence of its
//! bindings; [`lookup`], [`put`] and [`del`] say what the operations do to it.

use vstd::prelude::*;

verus! {

/// The outcome of comparing two keys.
pub enum Comparison {
    Less,
    Equal,
    Greater,
}

/// A value that can be duplicated without changing what it stands for.
pub trait Dup: View + Sized {
    fn dup(&self) -> (r: Self)
        ensures
            r@ == self@,
    ;
}

/// A key type with a strict total order on its views.
pub trait OrdKey: View + Sized {
    spec fn lt(a: Self::V, b: Self::V) -> bool;

    proof fn lt_irreflexive(a: Self::V)
        ensures
            !Self::lt(a, a),
    ;

    proof fn lt_transitive(a: Self::V, b: Self::V, c: Self::V)
        requires
            Self::lt(a, b),
            Self::lt(b, c),
        ensures
            Self::lt(a, c),
    ;

    proof fn lt_total(a: Self::V, b: Self::V)
        ensures
            Self::lt(a, b) || a == b || Self::lt(b, a),
    ;

    fn compare(&self, other: &Self) -> (c: Comparison)
        ensures
            match c {
                Comparison::Less => Self::lt(self@, other@),
                Comparison::Equal => self@ == other@,
                Comparison::Greater => Self::lt(other@, self@),
            },
    ;
}

/// The bindings of `s` are in strictly increasing key order.
pub open spec fn sorted<K: OrdKey, B>(s: Seq<(K::V, B)>) -> bool {
    forall|i: int, j: int|
        0 <= i < j < s.len() ==> K::lt((#[trigger] s[i]).0, (#[trigger] s[j]).0)
}

/// `k` is bound in `s`.
pub open spec fn has_key<A, B>(s: Seq<(A, B)>, k: A) -> bool {
    exists|i: int| 0 <= i < s.len() && (#[trigger] s[i]).0 == k
}

/// The value bound to `k` in `s`, if any.
pub open spec fn lookup<A, B>(s: Seq<(A, B)>, k: A) -> Option<B>
    decreases s.len(),
{
    if s.len() == 0 {
        None
    } else if s[0].0 == k {
        Some(s[0].1)
    } else {
        lookup(s.drop_first(), k)
    }
}

/// `s` with `k` bound to `v`, in key order.
pub open spec fn put<K: OrdKey, B>(s: Seq<(K::V, B)>, k: K::V, v: B) -> Seq<(K::V, B)>
    decreases s.len(),
{
    if s.len() == 0 {
        seq![(k, v)]
    } else if s[0].0 == k {
        seq![(k, v)] + s.drop_first()
    } else if K::lt(k, s[0].0) {
        seq![(k, v)] + s
    } else {
        seq![s[0]] + put::<K, B>(s.drop_first(), k, v)
    }
}

/// `s` without the binding of `k`.
pub open spec fn del<A, B>(s: Seq<(A, B)>, k: A) -> Seq<(A, B)>
    decreases s.len(),
{
    if s.len() == 0 {
        s
    } else if s[0].0 == k {
        s.drop_first()
    } else {
        seq![s[0]] + del(s.drop_first(), k)
    }
}

pub proof fn lemma_lookup_has_key<A, B>(s: Seq<(A, B)>, k: A)
    ensures
        lookup(s, k) is Some <==> has_key(s, k),
        lookup(s, k) is Some ==> exists|i: int|
            0 <= i < s.len() && (#[trigger] s[i]) == (k, lookup(s, k)->0),
    decreases s.len(),
{
    if s.len() > 0 {
        let r = s.drop_first();
        lemma_lookup_has_key(r, k);
        if s[0].0 == k {
            assert(s[0] == (k, lookup(s, k)->0));
        } else {
            if has_key(s, k) {
                let i = choose|i: int| 0 <= i < s.len() && (#[trigger] s[i]).0 == k;
                assert(r[i - 1].0 == k);
            }
            if lookup(r, k) is Some {
                let i = choose|i: int| 0 <= i < r.len() && (#[trigger] r[i])
                    == (k, lookup(r, k)->0);
                assert(s[i + 1] == (k, lookup(s, k)->0));
            }
        }
    }
}

/// In sorted bindings the value at an index is the value of its key.
pub proof fn lemma_lookup_at<K: OrdKey, B>(s: Seq<(K::V, B)>, i: int)
    requires
        sorted::<K, B>(s),
        0 <= i < s.len(),
    ensures
        lookup(s, s[i].0) == Some(s[i].1),
    decreases s.len(),
{
    if i > 0 {
        let r = s.drop_first();
        assert(r[i - 1] == s[i]);
        assert(K::lt(s[0].0, s[i].0));
        K::lt_irreflexive(s[i].0);
        assert forall|a: int, b: int| 0 <= a < b < r.len() implies K::lt(
            (#[trigger] r[a]).0,
            (#[trigger] r[b]).0,
        ) by {
            assert(r[a] == s[a + 1] && r[b] == s[b + 1]);
        }
        lemma_lookup_at::<K, B>(r, i - 1);
    }
}

pub proof fn lemma_sorted_drop_first<K: OrdKey, B>(s: Seq<(K::V, B)>)
    requires
        sorted::<K, B>(s),
        s.len() > 0,
    ensures
        sorted::<K, B>(s.drop_first()),
{
    let r = s.drop_first();
    assert forall|a: int, b: int| 0 <= a < b < r.len() implies K::lt(
        (#[trigger] r[a]).0,
        (#[trigger] r[b]).0,
    ) by {
        assert(r[a] == s[a + 1] && r[b] == s[b + 1]);
    }
}

/// What `put` inserts at: the first index whose key is not below `k`.
pub proof fn lemma_put_at<K: OrdKey, B>(s: Seq<(K::V, B)>, k: K::V, v: B, i: int)
    requires
        sorted::<K, B>(s),
        0 <= i <= s.len(),
        forall|j: int| 0 <= j < i ==> K::lt((#[trigger] s[j]).0, k),
        i < s.len() ==> s[i].0 == k || K::lt(k, s[i].0),
    ensures
        put::<K, B>(s, k, v) == if i < s.len() && s[i].0 == k {
            s.update(i, (k, v))
        } else {
            s.insert(i, (k, v))
        },
    decreases s.len(),
{
    if s.len() == 0 {
        assert(s.insert(i, (k, v)) =~= seq![(k, v)]);
    } else if i == 0 {
        if s[0].0 == k {
            assert(seq![(k, v)] + s.drop_first() =~= s.update(0, (k, v)));
        } else {
            assert(seq![(k, v)] + s =~= s.insert(0, (k, v)));
        }
    } else {
        let r = s.drop_first();
        lemma_sorted_drop_first::<K, B>(s);
        assert(K::lt(s[0].0, k));
        if s[0].0 == k {
            K::lt_irreflexive(k);
        }
        if K::lt(k, s[0].0) {
            K::lt_transitive(k, s[0].0, k);
            K::lt_irreflexive(k);
        }
        assert forall|j: int| 0 <= j < i - 1 implies K::lt((#[trigger] r[j]).0, k) by {
            assert(r[j] == s[j + 1]);
        }
        if i < s.len() {
            assert(r[i - 1] == s[i]);
        }
        lemma_put_at::<K, B>(r, k, v, i - 1);
        if i < s.len() && s[i].0 == k {
            assert(seq![s[0]] + r.update(i - 1, (k, v)) =~= s.update(i, (k, v)));
        } else {
            assert(seq![s[0]] + r.insert(i - 1, (k, v)) =~= s.insert(i, (k, v)));
        }
    }
}

/// The first index whose key is not below `k`.
pub proof fn lemma_position_exists<K: OrdKey, B>(s: Seq<(K::V, B)>, k: K::V) -> (i: int)
    requires
        sorted::<K, B>(s),
    ensures
        0 <= i <= s.len(),
        forall|j: int| 0 <= j < i ==> K::lt((#[trigger] s[j]).0, k),
        i < s.len() ==> s[i].0 == k || K::lt(k, s[i].0),
    decreases s.len(),
{
    if s.len() == 0 {
        0
    } else {
        K::lt_total(s[0].0, k);
        if K::lt(s[0].0, k) {
            lemma_sorted_drop_first::<K, B>(s);
            let r = s.drop_first();
            let i = lemma_position_exists::<K, B>(r, k);
            assert forall|j: int| 0 <= j < i + 1 implies K::lt((#[trigger] s[j]).0, k) by {
                if j > 0 {
                    assert(s[j] == r[j - 1]);
                }
            }
            if i < r.len() {
                assert(r[i] == s[i + 1]);
            }
            i + 1
        } else {
            0
        }
    }
}

/// Binding a key keeps the bindings sorted.
pub proof fn lemma_put_sorted<K: OrdKey, B>(s: Seq<(K::V, B)>, k: K::V, v: B)
    requires
        sorted::<K, B>(s),
    ensures
        sorted::<K, B>(put::<K, B>(s, k, v)),
{
    let i = lemma_position_exists::<K, B>(s, k);
    lemma_put_at::<K, B>(s, k, v, i);
    let p = put::<K, B>(s, k, v);
    let replaced = i < s.len() && s[i].0 == k;
    assert forall|a: int, b: int| 0 <= a < b < p.len() implies K::lt(
        (#[trigger] p[a]).0,
        (#[trigger] p[b]).0,
    ) by {
        if replaced {
            assert(p[a].0 == s[a].0 && p[b].0 == s[b].0);
        } else {
            if b < i {
                assert(p[a] == s[a] && p[b] == s[b]);
            } else if b == i {
                assert(p[a] == s[a]);
            } else if a < i {
                assert(p[a] == s[a] && p[b] == s[b - 1]);
            } else if a == i {
                assert(p[b] == s[b - 1]);
                if b - 1 > i {
                    assert(K::lt(s[i].0, s[b - 1].0));
                    K::lt_transitive(k, s[i].0, s[b - 1].0);
                }
            } else {
                assert(p[a] == s[a - 1] && p[b] == s[b - 1]);
            }
        }
    }
}

/// After binding `k` to `v`, `k` yields `v` and every other key what it did.
pub proof fn lemma_lookup_put<K: OrdKey, B>(s: Seq<(K::V, B)>, k: K::V, v: B, q: K::V)
    requires
        sorted::<K, B>(s),
    ensures
        lookup(put::<K, B>(s, k, v), q) == if q == k {
            Some(v)
        } else {
            lookup(s, q)
        },
    decreases s.len(),
{
    let p = put::<K, B>(s, k, v);
    if s.len() == 0 {
        assert(p.drop_first() =~= Seq::<(K::V, B)>::empty());
        assert(lookup(p.drop_first(), q) is None);
    } else if s[0].0 == k {
        assert(p.drop_first() =~= s.drop_first());
    } else if K::lt(k, s[0].0) {
        assert(p.drop_first() =~= s);
    } else {
        lemma_sorted_drop_first::<K, B>(s);
        lemma_lookup_put::<K, B>(s.drop_first(), k, v, q);
        assert(p.drop_first() =~= put::<K, B>(s.drop_first(), k, v));
    }
}

/// Where a key of sorted bindings stands, `del` takes it out.
proof fn lemma_del_at<K: OrdKey, B>(s: Seq<(K::V, B)>, k: K::V, i: int)
    requires
        sorted::<K, B>(s),
        0 <= i < s.len(),
        s[i].0 == k,
    ensures
        del(s, k) == s.remove(i),
    decreases s.len(),
{
    if i == 0 {
        assert(s.drop_first() =~= s.remove(0));
    } else {
        assert(K::lt(s[0].0, s[i].0));
        K::lt_irreflexive(k);
        lemma_sorted_drop_first::<K, B>(s);
        assert(s.drop_first()[i - 1] == s[i]);
        lemma_del_at::<K, B>(s.drop_first(), k, i - 1);
        assert(seq![s[0]] + s.drop_first().remove(i - 1) =~= s.remove(i));
    }
}

pub proof fn lemma_del_absent<A, B>(s: Seq<(A, B)>, k: A)
    requires
        !has_key(s, k),
    ensures
        del(s, k) == s,
    decreases s.len(),
{
    if s.len() > 0 {
        assert(s[0].0 != k);
        let r = s.drop_first();
        assert forall|i: int| 0 <= i < r.len() implies (#[trigger] r[i]).0 != k by {
            assert(r[i] == s[i + 1]);
        }
        lemma_del_absent(r, k);
        assert(seq![s[0]] + r =~= s);
    }
}

/// Removing a key keeps the bindings sorted.
pub proof fn lemma_del_sorted<K: OrdKey, B>(s: Seq<(K::V, B)>, k: K::V)
    requires
        sorted::<K, B>(s),
    ensures
        sorted::<K, B>(del(s, k)),
{
    if has_key(s, k) {
        let i = choose|i: int| 0 <= i < s.len() && (#[trigger] s[i]).0 == k;
        lemma_del_at::<K, B>(s, k, i);
        let p = del(s, k);
        assert forall|a: int, b: int| 0 <= a < b < p.len() implies K::lt(
            (#[trigger] p[a]).0,
            (#[trigger] p[b]).0,
        ) by {
            let a2 = if a < i {
                a
            } else {
                a + 1
            };
            let b2 = if b < i {
                b
            } else {
                b + 1
            };
            assert(p[a] == s[a2] && p[b] == s[b2]);
        }
    } else {
        lemma_del_absent(s, k);
    }
}

/// After removing `k`, `k` yields nothing and every other key what it did.
pub proof fn lemma_lookup_del<K: OrdKey, B>(s: Seq<(K::V, B)>, k: K::V, q: K::V)
    requires
        sorted::<K, B>(s),
    ensures
        lookup(del(s, k), q) == if q == k {
            None
        } else {
            lookup(s, q)
        },
    decreases s.len(),
{
    let p = del(s, k);
    if s.len() > 0 {
        lemma_sorted_drop_first::<K, B>(s);
        if s[0].0 == k {
            if q == k {
                if has_key(p, k) {
                    let i = choose|i: int| 0 <= i < p.len() && (#[trigger] p[i]).0 == k;
                    assert(p[i] == s[i + 1]);
                    assert(K::lt(s[0].0, s[i + 1].0));
                    K::lt_irreflexive(k);
                }
                lemma_lookup_has_key(p, k);
            }
        } else {
            lemma_lookup_del::<K, B>(s.drop_first(), k, q);
            assert(p.drop_first() =~= del(s.drop_first(), k));
        }
    }
}

/// Appending a key above all others keeps bindings sorted.
pub proof fn lemma_sorted_push<K: OrdKey, B>(s: Seq<(K::V, B)>, k: K::V, v: B)
    requires
        sorted::<K, B>(s),
        s.len() > 0 ==> K::lt(s.last().0, k),
    ensures
        sorted::<K, B>(s.push((k, v))),
{
    let p = s.push((k, v));
    assert forall|a: int, b: int| 0 <= a < b < p.len() implies K::lt(
        (#[trigger] p[a]).0,
        (#[trigger] p[b]).0,
    ) by {
        if b < s.len() {
            assert(p[a] == s[a] && p[b] == s[b]);
        } else if a < s.len() - 1 {
            assert(K::lt(s[a].0, s[s.len() - 1].0));
            K::lt_transitive(s[a].0, s.last().0, k);
        }
    }
}

/// Filtering one element further.
pub proof fn lemma_filter_step<A>(s: Seq<A>, p: spec_fn(A) -> bool, i: int)
    requires
        0 <= i < s.len(),
    ensures
        s.take(i + 1).filter(p) == if p(s[i]) {
            s.take(i).filter(p).push(s[i])
        } else {
            s.take(i).filter(p)
        },
{
    reveal(Seq::filter);
    assert(s.take(i + 1).drop_last() =~= s.take(i));
    assert(s.take(i + 1).last() == s[i]);
}

/// Every element that a filter keeps is an accepted element of the sequence.
pub proof fn lemma_filter_members<A>(s: Seq<A>, p: spec_fn(A) -> bool, i: int)
    requires
        0 <= i < s.filter(p).len(),
    ensures
        p(s.filter(p)[i]),
        exists|j: int| 0 <= j < s.len() && #[trigger] s[j] == s.filter(p)[i],
    decreases s.len(),
{
    reveal(Seq::filter);
    if s.len() > 0 {
        let r = s.drop_last();
        if i < r.filter(p).len() {
            lemma_filter_members(r, p, i);
            let j = choose|j: int| 0 <= j < r.len() && #[trigger] r[j] == r.filter(p)[i];
            assert(s[j] == s.filter(p)[i]);
        } else {
            assert(s[s.len() - 1] == s.filter(p)[i]);
        }
    }
}

/// Dropping bindings keeps the rest sorted.
pub proof fn lemma_filter_sorted<K: OrdKey, B>(s: Seq<(K::V, B)>, p: spec_fn((K::V, B)) -> bool)
    requires
        sorted::<K, B>(s),
    ensures
        sorted::<K, B>(s.filter(p)),
    decreases s.len(),
{
    reveal(Seq::filter);
    if s.len() > 0 {
        let r = s.drop_last();
        assert forall|a: int, b: int| 0 <= a < b < r.len() implies K::lt(
            (#[trigger] r[a]).0,
            (#[trigger] r[b]).0,
        ) by {
            assert(r[a] == s[a] && r[b] == s[b]);
        }
        lemma_filter_sorted::<K, B>(r, p);
        if p(s.last()) {
            let f = r.filter(p);
            if f.len() > 0 {
                lemma_filter_members(r, p, f.len() - 1);
                let j = choose|j: int| 0 <= j < r.len() && #[trigger] r[j] == f[f.len() - 1];
                assert(r[j] == s[j]);
                assert(K::lt(s[j].0, s[s.len() - 1].0));
            }
            lemma_sorted_push::<K, B>(f, s.last().0, s.last().1);
            assert(f.push((s.last().0, s.last().1)) =~= f.push(s.last()));
        }
    }
}

/// The lexicographic order on sequences.
pub open spec fn seq_lt<K: OrdKey>(a: Seq<K::V>, b: Seq<K::V>) -> bool
    decreases a.len(),
{
    if b.len() == 0 {
        false
    } else if a.len() == 0 {
        true
    } else {
        K::lt(a[0], b[0]) || (a[0] == b[0] && seq_lt::<K>(a.drop_first(), b.drop_first()))
    }
}

pub proof fn lemma_seq_lt_irreflexive<K: OrdKey>(a: Seq<K::V>)
    ensures
        !seq_lt::<K>(a, a),
    decreases a.len(),
{
    if a.len() > 0 {
        K::lt_irreflexive(a[0]);
        lemma_seq_lt_irreflexive::<K>(a.drop_first());
    }
}

pub proof fn lemma_seq_lt_transitive<K: OrdKey>(a: Seq<K::V>, b: Seq<K::V>, c: Seq<K::V>)
    requires
        seq_lt::<K>(a, b),
        seq_lt::<K>(b, c),
    ensures
        seq_lt::<K>(a, c),
    decreases a.len(),
{
    if a.len() > 0 {
        if K::lt(a[0], b[0]) && K::lt(b[0], c[0]) {
            K::lt_transitive(a[0], b[0], c[0]);
        } else if a[0] == b[0] && b[0] == c[0] {
            K::lt_irreflexive(a[0]);
            lemma_seq_lt_transitive::<K>(a.drop_first(), b.drop_first(), c.drop_first());
        }
    }
}

pub proof fn lemma_seq_lt_total<K: OrdKey>(a: Seq<K::V>, b: Seq<K::V>)
    ensures
        seq_lt::<K>(a, b) || a == b || seq_lt::<K>(b, a),
    decreases a.len(),
{
    if a.len() > 0 && b.len() > 0 {
        K::lt_total(a[0], b[0]);
        lemma_seq_lt_total::<K>(a.drop_first(), b.drop_first());
        if a[0] == b[0] && a.drop_first() == b.drop_first() {
            assert(a =~= seq![a[0]] + a.drop_first());
            assert(b =~= seq![b[0]] + b.drop_first());
        }
    } else if a.len() == 0 && b.len() == 0 {
        assert(a =~= b);
    }
}

/// The order of two sequences with a common prefix is decided behind it.
pub proof fn lemma_seq_lt_prefix<K: OrdKey>(a: Seq<K::V>, b: Seq<K::V>, i: int)
    requires
        0 <= i <= a.len(),
        i <= b.len(),
        a.take(i) == b.take(i),
    ensures
        seq_lt::<K>(a, b) == seq_lt::<K>(a.skip(i), b.skip(i)),
        a == b <==> a.skip(i) == b.skip(i),
    decreases i,
{
    if i == 0 {
        assert(a.skip(0) =~= a);
        assert(b.skip(0) =~= b);
    } else {
        assert(a.take(i)[0] == a[0]);
        assert(b.take(i)[0] == b[0]);
        K::lt_irreflexive(a[0]);
        let (x, y) = (a.drop_first(), b.drop_first());
        assert(x.take(i - 1) =~= a.take(i).drop_first());
        assert(y.take(i - 1) =~= b.take(i).drop_first());
        lemma_seq_lt_prefix::<K>(x, y, i - 1);
        assert(x.skip(i - 1) =~= a.skip(i));
        assert(y.skip(i - 1) =~= b.skip(i));
        assert(a =~= seq![a[0]] + x);
        assert(b =~= seq![b[0]] + y);
    }
}

/// The views of a vector's elements.
pub open spec fn views<T: View>(s: Seq<T>) -> Seq<T::V> {
    s.map_values(|e: T| e@)
}

/// Compares two vectors lexicographically.
pub fn compare_vecs<K: OrdKey>(a: &Vec<K>, b: &Vec<K>) -> (c: Comparison)
    ensures
        match c {
            Comparison::Less => seq_lt::<K>(views(a@), views(b@)),
            Comparison::Equal => views(a@) == views(b@),
            Comparison::Greater => seq_lt::<K>(views(b@), views(a@)),
        },
{
    let ghost x = views(a@);
    let ghost y = views(b@);
    let mut i: usize = 0;
    while i < a.len() && i < b.len()
        invariant
            i <= a@.len(),
            i <= b@.len(),
            x == views(a@),
            y == views(b@),
            x.take(i as int) =~= y.take(i as int),
        decreases a@.len() - i,
    {
        let c = a[i].compare(&b[i]);
        proof {
            lemma_seq_lt_prefix::<K>(x, y, i as int);
            lemma_seq_lt_prefix::<K>(y, x, i as int);
            assert(x.skip(i as int)[0] == a@[i as int]@);
            assert(y.skip(i as int)[0] == b@[i as int]@);
        }
        match c {
            Comparison::Equal => {
                assert(x.take(i + 1) =~= x.take(i as int).push(x[i as int]));
                assert(y.take(i + 1) =~= y.take(i as int).push(y[i as int]));
            },
            Comparison::Less => {
                return Comparison::Less;
            },
            Comparison::Greater => {
                return Comparison::Greater;
            },
        }
        i = i + 1;
    }
    proof {
        lemma_seq_lt_prefix::<K>(x, y, i as int);
        lemma_seq_lt_prefix::<K>(y, x, i as int);
    }
    if i < b.len() {
        Comparison::Less
    } else if i < a.len() {
        Comparison::Greater
    } else {
        assert(x.skip(i as int) =~= y.skip(i as int));
        Comparison::Equal
    }
}

impl OrdKey for char {
    open spec fn lt(a: char, b: char) -> bool {
        a < b
    }

    proof fn lt_irreflexive(a: char) {
    }

    proof fn lt_transitive(a: char, b: char, c: char) {
    }

    proof fn lt_total(a: char, b: char) {
    }

    fn compare(&self, other: &Self) -> (c: Comparison) {
        if *self < *other {
            Comparison::Less
        } else if *self == *other {
            Comparison::Equal
        } else {
            Comparison::Greater
        }
    }
}

/// Compares two strings character by character.
fn compare_strings(s: &String, t: &String) -> (c: Comparison)
    ensures
        match c {
            Comparison::Less => seq_lt::<char>(s@, t@),
            Comparison::Equal => s@ == t@,
            Comparison::Greater => seq_lt::<char>(t@, s@),
        },
{
    let (n, m) = (s.as_str().unicode_len(), t.as_str().unicode_len());
    let mut i: usize = 0;
    while i < n && i < m
        invariant
            i <= n == s@.len(),
            i <= m == t@.len(),
            s@.take(i as int) =~= t@.take(i as int),
        decreases n - i,
    {
        let (x, y) = (s.as_str().get_char(i), t.as_str().get_char(i));
        let c = x.compare(&y);
        proof {
            lemma_seq_lt_prefix::<char>(s@, t@, i as int);
            lemma_seq_lt_prefix::<char>(t@, s@, i as int);
            assert(s@.skip(i as int)[0] == x);
            assert(t@.skip(i as int)[0] == y);
        }
        match c {
            Comparison::Equal => {
                assert(s@.take(i + 1) =~= s@.take(i as int).push(x));
                assert(t@.take(i + 1) =~= t@.take(i as int).push(y));
            },
            Comparison::Less => {
                return Comparison::Less;
            },
            Comparison::Greater => {
                return Comparison::Greater;
            },
        }
        i = i + 1;
    }
    proof {
        lemma_seq_lt_prefix::<char>(s@, t@, i as int);
        lemma_seq_lt_prefix::<char>(t@, s@, i as int);
    }
    if i < m {
        Comparison::Less
    } else if i < n {
        Comparison::Greater
    } else {
        assert(s@.skip(i as int) =~= t@.skip(i as int));
        Comparison::Equal
    }
}

impl Dup for String {
    fn dup(&self) -> (r: Self) {
        self.clone()
    }
}

impl OrdKey for String {
    open spec fn lt(a: Seq<char>, b: Seq<char>) -> bool {
        seq_lt::<char>(a, b)
    }

    proof fn lt_irreflexive(a: Seq<char>) {
        lemma_seq_lt_irreflexive::<char>(a);
    }

    proof fn lt_transitive(a: Seq<char>, b: Seq<char>, c: Seq<char>) {
        lemma_seq_lt_transitive::<char>(a, b, c);
    }

    proof fn lt_total(a: Seq<char>, b: Seq<char>) {
        lemma_seq_lt_total::<char>(a, b);
    }

    fn compare(&self, other: &Self) -> (c: Comparison) {
        assert(<String as OrdKey>::lt(self@, other@) == seq_lt::<char>(self@, other@));
        assert(<String as OrdKey>::lt(other@, self@) == seq_lt::<char>(other@, self@));
        compare_strings(self, other)
    }
}

/// A test on bindings.
pub trait Selector<K: OrdKey, V: View> {
    spec fn accepts(&self, k: K::V, v: V::V) -> bool;

    fn test(&self, k: &K, v: &V) -> (b: bool)
        ensures
            b == self.accepts(k@, v@),
    ;
}

/// Putting back a binding that was taken out restores the bindings.
pub proof fn lemma_put_back<K: OrdKey, B>(s: Seq<(K::V, B)>, k: K::V)
    requires
        sorted::<K, B>(s),
        lookup(s, k) is Some,
    ensures
        put::<K, B>(del(s, k), k, lookup(s, k)->0) == s,
    decreases s.len(),
{
    if s.len() > 0 {
        let r = s.drop_first();
        lemma_sorted_drop_first::<K, B>(s);
        let v = lookup(s, k)->0;
        if s[0].0 == k {
            assert(s =~= seq![(k, v)] + r);
            if r.len() > 0 {
                assert(r[0] == s[1]);
                assert(K::lt(s[0].0, s[1].0));
                K::lt_irreflexive(k);
            }
        } else {
            lemma_put_back::<K, B>(r, k);
            let d = del(s, k);
            assert(d.drop_first() =~= del(r, k));
            lemma_lookup_has_key(s, k);
            let j = choose|j: int| 0 <= j < s.len() && (#[trigger] s[j]).0 == k;
            assert(K::lt(s[0].0, s[j].0));
            if K::lt(k, s[0].0) {
                K::lt_transitive(k, s[0].0, k);
                K::lt_irreflexive(k);
            }
            assert(s =~= seq![s[0]] + r);
        }
    }
}

/// The bindings after `put` are the new one and some of those before.
pub proof fn lemma_put_members<K: OrdKey, B>(s: Seq<(K::V, B)>, k: K::V, v: B, i: int)
    requires
        0 <= i < put::<K, B>(s, k, v).len(),
    ensures
        put::<K, B>(s, k, v)[i] == (k, v) || exists|j: int|
            0 <= j < s.len() && #[trigger] s[j] == put::<K, B>(s, k, v)[i],
    decreases s.len(),
{
    let p = put::<K, B>(s, k, v);
    if s.len() > 0 {
        let r = s.drop_first();
        if s[0].0 == k {
            if i > 0 {
                assert(p[i] == s[i]);
            }
        } else if K::lt(k, s[0].0) {
            if i > 0 {
                assert(p[i] == s[i - 1]);
            }
        } else if i == 0 {
            assert(p[0] == s[0]);
        } else {
            let t = put::<K, B>(r, k, v);
            assert(p[i] == t[i - 1]);
            lemma_put_members::<K, B>(r, k, v, i - 1);
            if t[i - 1] != (k, v) {
                let j = choose|j: int| 0 <= j < r.len() && #[trigger] r[j] == t[i - 1];
                assert(s[j + 1] == p[i]);
            }
        }
    }
}

/// The bindings after `del` are among those before.
pub proof fn lemma_del_members<A, B>(s: Seq<(A, B)>, k: A, i: int)
    requires
        0 <= i < del(s, k).len(),
    ensures
        exists|j: int| 0 <= j < s.len() && #[trigger] s[j] == del(s, k)[i],
    decreases s.len(),
{
    let p = del(s, k);
    if s.len() > 0 {
        let r = s.drop_first();
        if s[0].0 == k {
            assert(p[i] == s[i + 1]);
        } else if i == 0 {
            assert(p[0] == s[0]);
        } else {
            let t = del(r, k);
            assert(p[i] == t[i - 1]);
            lemma_del_members(r, k, i - 1);
            let j = choose|j: int| 0 <= j < r.len() && #[trigger] r[j] == t[i - 1];
            assert(s[j + 1] == p[i]);
        }
    }
}

/// The second part of an element.
fn second_mut<K, V>(s: &mut Vec<(K, V)>, i: usize) -> (r: &mut V)
    requires
        i < old(s)@.len(),
    ensures
        *r == old(s)@[i as int].1,
        final(s)@ == old(s)@.update(i as int, (old(s)@[i as int].0, *final(r))),
    no_unwind
{
    &mut s[i].1
}

/// A map whose bindings are kept in key order.
#[verifier::reject_recursive_types(K)]
#[verifier::reject_recursive_types(V)]
#[derive(Debug, PartialEq, Eq)]
pub struct OrdMap<K: OrdKey, V: View> {
    entries: Vec<(K, V)>,
}

impl<K: OrdKey, V: View> View for OrdMap<K, V> {
    type V = Seq<(K::V, V::V)>;

    closed spec fn view(&self) -> Seq<(K::V, V::V)> {
        self.entries@.map_values(|e: (K, V)| (e.0@, e.1@))
    }
}

impl<K: OrdKey, V: View> OrdMap<K, V> {
    #[verifier::type_invariant]
    spec fn type_inv(self) -> bool {
        sorted::<K, V::V>(self@)
    }

    pub fn new() -> (r: Self)
        ensures
            r@ == Seq::<(K::V, V::V)>::empty(),
    {
        let r = OrdMap { entries: Vec::new() };
        assert(r@ =~= Seq::<(K::V, V::V)>::empty());
        r
    }

    pub fn len(&self) -> (n: usize)
        ensures
            n == self@.len(),
            sorted::<K, V::V>(self@),
    {
        proof {
            use_type_invariant(self);
        }
        self.entries.len()
    }

    pub fn is_empty(&self) -> (b: bool)
        ensures
            b == (self@.len() == 0),
    {
        self.entries.len() == 0
    }

    /// The key at position `i`, in key order.
    pub fn key_at(&self, i: usize) -> (k: &K)
        requires
            i < self@.len(),
        ensures
            k@ == self@[i as int].0,
    {
        &self.entries[i].0
    }

    /// The value at position `i`, in key order.
    pub fn value_at(&self, i: usize) -> (v: &V)
        requires
            i < self@.len(),
        ensures
            v@ == self@[i as int].1,
    {
        &self.entries[i].1
    }

    /// The first position whose key is not below `k`, and whether it holds `k`.
    fn position(&self, k: &K) -> (r: (usize, bool))
        ensures
            r.0 <= self@.len(),
            forall|j: int| 0 <= j < r.0 ==> K::lt((#[trigger] self@[j]).0, k@),
            r.0 < self@.len() ==> self@[r.0 as int].0 == k@ || K::lt(k@, self@[r.0 as int].0),
            r.1 <==> r.0 < self@.len() && self@[r.0 as int].0 == k@,
    {
        let mut i: usize = 0;
        while i < self.entries.len()
            invariant
                i <= self.entries@.len(),
                self.entries@.len() == self@.len(),
                forall|j: int| 0 <= j < i ==> K::lt((#[trigger] self@[j]).0, k@),
            decreases self.entries@.len() - i,
        {
            match self.entries[i].0.compare(k) {
                Comparison::Less => {},
                Comparison::Equal => {
                    return (i, true);
                },
                Comparison::Greater => {
                    proof {
                        if self@[i as int].0 == k@ {
                            K::lt_irreflexive(k@);
                        }
                    }
                    return (i, false);
                },
            }
            i = i + 1;
        }
        (i, false)
    }

    pub fn get(&self, k: &K) -> (r: Option<&V>)
        ensures
            r is Some <==> lookup(self@, k@) is Some,
            r is Some ==> lookup(self@, k@) == Some(r->0@),
    {
        proof {
            use_type_invariant(self);
        }
        let (i, found) = self.position(k);
        if found {
            proof {
                lemma_lookup_at::<K, V::V>(self@, i as int);
            }
            Some(&self.entries[i].1)
        } else {
            proof {
                lemma_absent::<K, V::V>(self@, k@, i as int);
                lemma_lookup_has_key(self@, k@);
            }
            None
        }
    }

    pub fn contains_key(&self, k: &K) -> (b: bool)
        ensures
            b == (lookup(self@, k@) is Some),
    {
        self.get(k).is_some()
    }

    /// The value of a key, to be changed in place.
    pub fn get_mut(&mut self, k: &K) -> (r: Option<&mut V>)
        ensures
            match r {
                Some(v) => {
                    &&& lookup(old(self)@, k@) == Some((*v)@)
                    &&& final(self)@ == put::<K, V::V>(old(self)@, k@, (*final(v))@)
                },
                None => lookup(old(self)@, k@) is None && final(self)@ == old(self)@,
            },
    {
        proof {
            use_type_invariant(&*self);
        }
        let ghost s = self@;
        let (i, found) = self.position(k);
        if found {
            proof {
                lemma_lookup_at::<K, V::V>(s, i as int);
                let e0 = self.entries@;
                assert forall|v: V|
                    ({
                        let e1 = #[trigger] e0.update(i as int, (e0[i as int].0, v));
                        let s1 = e1.map_values(|e: (K, V)| (e.0@, e.1@));
                        put::<K, V::V>(s, k@, v@) == s1 && sorted::<K, V::V>(s1)
                    }) by {
                    lemma_put_at::<K, V::V>(s, k@, v@, i as int);
                    lemma_put_sorted::<K, V::V>(s, k@, v@);
                    assert(s.update(i as int, (k@, v@)) =~= e0.update(
                        i as int,
                        (e0[i as int].0, v),
                    ).map_values(|e: (K, V)| (e.0@, e.1@)));
                }
            }
            Some(second_mut(&mut self.entries, i))
        } else {
            proof {
                lemma_absent::<K, V::V>(s, k@, i as int);
                lemma_lookup_has_key(s, k@);
            }
            None
        }
    }

    pub fn insert(&mut self, k: K, v: V)
        ensures
            final(self)@ == put::<K, V::V>(old(self)@, k@, v@),
    {
        proof {
            use_type_invariant(&*self);
        }
        let ghost s = self@;
        let ghost kv = (k@, v@);
        let (i, found) = self.position(&k);
        proof {
            lemma_put_at::<K, V::V>(s, k@, v@, i as int);
            lemma_put_sorted::<K, V::V>(s, k@, v@);
        }
        let mut entries: Vec<(K, V)> = Vec::new();
        std::mem::swap(&mut entries, &mut self.entries);
        let ghost e0 = entries@;
        if found {
            entries.set(i, (k, v));
            assert(entries@.map_values(|e: (K, V)| (e.0@, e.1@)) =~= s.update(i as int, kv));
        } else {
            entries.insert(i, (k, v));
            assert(entries@.map_values(|e: (K, V)| (e.0@, e.1@)) =~= s.insert(i as int, kv));
        }
        self.entries = entries;
    }

    /// Appends a binding whose key is above all others.
    pub fn push_last(&mut self, k: K, v: V)
        requires
            old(self)@.len() > 0 ==> K::lt(old(self)@.last().0, k@),
        ensures
            final(self)@ == old(self)@.push((k@, v@)),
    {
        proof {
            use_type_invariant(&*self);
            lemma_sorted_push::<K, V::V>(self@, k@, v@);
        }
        let ghost s = self@;
        let ghost kv = (k@, v@);
        let mut entries: Vec<(K, V)> = Vec::new();
        std::mem::swap(&mut entries, &mut self.entries);
        entries.push((k, v));
        assert(entries@.map_values(|e: (K, V)| (e.0@, e.1@)) =~= s.push(kv));
        self.entries = entries;
    }

    /// Keeps the bindings that `test` accepts.
    pub fn retain<F: Selector<K, V>>(&mut self, test: &F)
        ensures
            final(self)@ == old(self)@.filter(|e: (K::V, V::V)| test.accepts(e.0, e.1)),
            sorted::<K, V::V>(old(self)@),
            sorted::<K, V::V>(final(self)@),
    {
        proof {
            use_type_invariant(&*self);
        }
        let ghost s = self@;
        let ghost p = |e: (K::V, V::V)| test.accepts(e.0, e.1);
        let mut entries: Vec<(K, V)> = Vec::new();
        std::mem::swap(&mut entries, &mut self.entries);
        let ghost all = entries@;
        let ghost view = |e: (K, V)| (e.0@, e.1@);
        let ghost n = all.len();
        let ghost mut seen: int = 0;
        let mut i: usize = 0;
        while i < entries.len()
            invariant
                i <= entries@.len(),
                n == all.len(),
                0 <= seen <= n,
                entries@.len() - i == n - seen,
                entries@.skip(i as int) =~= all.skip(seen),
                s =~= all.map_values(view),
                view == (|e: (K, V)| (e.0@, e.1@)),
                p == (|e: (K::V, V::V)| test.accepts(e.0, e.1)),
                entries@.take(i as int).map_values(view) =~= s.take(seen).filter(p),
            decreases n - seen,
        {
            let ghost before = entries@;
            assert(entries@.skip(i as int)[0] == all.skip(seen)[0]);
            proof {
                lemma_filter_step(s, p, seen);
            }
            if test.test(&entries[i].0, &entries[i].1) {
                assert(entries@.take(i + 1).map_values(view) =~= entries@.take(
                    i as int,
                ).map_values(view).push(view(entries@[i as int])));
                assert(entries@.skip(i + 1) =~= entries@.skip(i as int).skip(1));
                i = i + 1;
            } else {
                entries.remove(i);
                assert(entries@.take(i as int) =~= before.take(i as int));
                assert(entries@.skip(i as int) =~= before.skip(i as int).skip(1));
            }
            proof {
                assert(all.skip(seen + 1) =~= all.skip(seen).skip(1));
                seen = seen + 1;
            }
        }
        assert(entries@.take(i as int) =~= entries@);
        assert(s.take(n as int) =~= s);
        proof {
            lemma_filter_sorted::<K, V::V>(s, p);
        }
        self.entries = entries;
    }

    /// Removes the binding of `k` and returns its value.
    pub fn remove(&mut self, k: &K) -> (r: Option<V>)
        ensures
            final(self)@ == del(old(self)@, k@),
            r is Some <==> lookup(old(self)@, k@) is Some,
            r is Some ==> lookup(old(self)@, k@) == Some(r->0@),
    {
        proof {
            use_type_invariant(&*self);
        }
        let ghost s = self@;
        let (i, found) = self.position(k);
        if found {
            proof {
                lemma_del_at::<K, V::V>(s, k@, i as int);
                lemma_del_sorted::<K, V::V>(s, k@);
                lemma_lookup_at::<K, V::V>(s, i as int);
            }
            let mut entries: Vec<(K, V)> = Vec::new();
            std::mem::swap(&mut entries, &mut self.entries);
            let e = entries.remove(i);
            assert(entries@.map_values(|e: (K, V)| (e.0@, e.1@)) =~= s.remove(i as int));
            self.entries = entries;
            Some(e.1)
        } else {
            proof {
                lemma_absent::<K, V::V>(s, k@, i as int);
                lemma_lookup_has_key(s, k@);
                lemma_del_absent(s, k@);
            }
            None
        }
    }
}

proof fn lemma_absent<K: OrdKey, B>(s: Seq<(K::V, B)>, k: K::V, i: int)
    requires
        sorted::<K, B>(s),
        0 <= i <= s.len(),
        forall|j: int| 0 <= j < i ==> K::lt((#[trigger] s[j]).0, k),
        i < s.len() ==> K::lt(k, s[i].0),
    ensures
        !has_key(s, k),
{
    if has_key(s, k) {
        let j = choose|j: int| 0 <= j < s.len() && (#[trigger] s[j]).0 == k;
        if j > i {
            assert(K::lt(s[i].0, s[j].0));
            K::lt_transitive(k, s[i].0, s[j].0);
        }
        K::lt_irreflexive(k);
    }
}

impl<K: OrdKey + Dup, V: Dup> Dup for OrdMap<K, V> {
    fn dup(&self) -> (r: Self) {
        proof {
            use_type_invariant(self);
        }
        let mut entries: Vec<(K, V)> = Vec::new();
        let mut i: usize = 0;
        while i < self.entries.len()
            invariant
                i <= self.entries@.len(),
                entries@.len() == i,
                self@.len() == self.entries@.len(),
                entries@.map_values(|e: (K, V)| (e.0@, e.1@)) =~= self@.take(i as int),
            decreases self.entries@.len() - i,
        {
            entries.push((self.entries[i].0.dup(), self.entries[i].1.dup()));
            i = i + 1;
        }
        assert(entries@.map_values(|e: (K, V)| (e.0@, e.1@)) =~= self@);
        OrdMap { entries }
    }
}

impl<K: OrdKey + Dup, V: Dup> Clone for OrdMap<K, V> {
    fn clone(&self) -> (r: Self)
        ensures
            r@ == self@,
    {
        self.dup()
    }
}

/// The elements of `s` are in strictly increasing order.
pub open spec fn set_sorted<K: OrdKey>(s: Seq<K::V>) -> bool {
    forall|i: int, j: int| 0 <= i < j < s.len() ==> K::lt(#[trigger] s[i], #[trigger] s[j])
}

/// `s` with `k` added, in order.
pub open spec fn set_put<K: OrdKey>(s: Seq<K::V>, k: K::V) -> Seq<K::V>
    decreases s.len(),
{
    if s.len() == 0 {
        seq![k]
    } else if s[0] == k {
        s
    } else if K::lt(k, s[0]) {
        seq![k] + s
    } else {
        seq![s[0]] + set_put::<K>(s.drop_first(), k)
    }
}

/// `s` without `k`.
pub open spec fn set_del<A>(s: Seq<A>, k: A) -> Seq<A>
    decreases s.len(),
{
    if s.len() == 0 {
        s
    } else if s[0] == k {
        s.drop_first()
    } else {
        seq![s[0]] + set_del(s.drop_first(), k)
    }
}

spec fn members<A>(s: Seq<(A, ())>) -> Seq<A> {
    s.map_values(|e: (A, ())| e.0)
}

proof fn lemma_members_put<K: OrdKey>(s: Seq<(K::V, ())>, k: K::V)
    ensures
        members(put::<K, ()>(s, k, ())) == set_put::<K>(members(s), k),
    decreases s.len(),
{
    let m = members(s);
    if s.len() == 0 {
        assert(members(put::<K, ()>(s, k, ())) =~= seq![k]);
    } else {
        assert(m[0] == s[0].0);
        let r = s.drop_first();
        assert(m.drop_first() =~= members(r));
        if s[0].0 == k {
            assert(members(seq![(k, ())] + r) =~= m);
        } else if K::lt(k, s[0].0) {
            assert(members(seq![(k, ())] + s) =~= seq![k] + m);
        } else {
            lemma_members_put::<K>(r, k);
            assert(members(seq![s[0]] + put::<K, ()>(r, k, ())) =~= seq![m[0]] + members(
                put::<K, ()>(r, k, ()),
            ));
        }
    }
}

proof fn lemma_members_del<A>(s: Seq<(A, ())>, k: A)
    ensures
        members(del(s, k)) == set_del(members(s), k),
    decreases s.len(),
{
    let m = members(s);
    if s.len() == 0 {
        assert(members(del(s, k)) =~= set_del(m, k));
    } else {
        assert(m[0] == s[0].0);
        let r = s.drop_first();
        assert(m.drop_first() =~= members(r));
        if s[0].0 != k {
            lemma_members_del(r, k);
            assert(members(seq![s[0]] + del(r, k)) =~= seq![m[0]] + members(del(r, k)));
        }
    }
}

proof fn lemma_members_contains<A>(s: Seq<(A, ())>, k: A)
    ensures
        members(s).contains(k) <==> lookup(s, k) is Some,
{
    lemma_lookup_has_key(s, k);
    let m = members(s);
    if has_key(s, k) {
        let i = choose|i: int| 0 <= i < s.len() && (#[trigger] s[i]).0 == k;
        assert(m[i] == k);
    }
    if m.contains(k) {
        let i = choose|i: int| 0 <= i < m.len() && m[i] == k;
        assert(s[i].0 == k);
    }
}

proof fn lemma_members_sorted<K: OrdKey>(s: Seq<(K::V, ())>)
    requires
        sorted::<K, ()>(s),
    ensures
        set_sorted::<K>(members(s)),
{
    let m = members(s);
    assert forall|i: int, j: int| 0 <= i < j < m.len() implies K::lt(
        #[trigger] m[i],
        #[trigger] m[j],
    ) by {
        assert(K::lt(s[i].0, s[j].0));
    }
}

proof fn lemma_members_filter<A>(s: Seq<(A, ())>, p: spec_fn(A) -> bool)
    ensures
        members(s.filter(|e: (A, ())| p(e.0))) == members(s).filter(p),
    decreases s.len(),
{
    reveal(Seq::filter);
    let q = |e: (A, ())| p(e.0);
    let m = members(s);
    if s.len() > 0 {
        let r = s.drop_last();
        assert(m.drop_last() =~= members(r));
        lemma_members_filter(r, p);
        if p(s.last().0) {
            assert(members(r.filter(q).push(s.last())) =~= members(r.filter(q)).push(m.last()));
        }
    } else {
        assert(members(s.filter(q)) =~= m.filter(p));
    }
}

/// Adding an element keeps the order.
pub proof fn lemma_set_put_sorted<K: OrdKey>(s: Seq<K::V>, k: K::V)
    requires
        set_sorted::<K>(s),
    ensures
        set_sorted::<K>(set_put::<K>(s, k)),
{
    let m = s.map_values(|e: K::V| (e, ()));
    assert(members(m) =~= s);
    assert forall|i: int, j: int| 0 <= i < j < m.len() implies K::lt(
        (#[trigger] m[i]).0,
        (#[trigger] m[j]).0,
    ) by {
        assert(K::lt(s[i], s[j]));
    }
    lemma_put_sorted::<K, ()>(m, k, ());
    lemma_members_put::<K>(m, k);
    lemma_members_sorted::<K>(put::<K, ()>(m, k, ()));
}

/// Removing an element keeps the rest in order.
pub proof fn lemma_set_del_sorted<K: OrdKey>(s: Seq<K::V>, k: K::V)
    requires
        set_sorted::<K>(s),
    ensures
        set_sorted::<K>(set_del(s, k)),
{
    let m = s.map_values(|e: K::V| (e, ()));
    assert(members(m) =~= s);
    lemma_del_sorted::<K, ()>(m, k);
    lemma_members_del(m, k);
    lemma_members_sorted::<K>(del(m, k));
}

/// The elements that pass a test are in order.
pub proof fn lemma_set_filter_sorted<K: OrdKey>(s: Seq<K::V>, p: spec_fn(K::V) -> bool)
    requires
        set_sorted::<K>(s),
    ensures
        set_sorted::<K>(s.filter(p)),
{
    let m = s.map_values(|e: K::V| (e, ()));
    assert(members(m) =~= s);
    let q = |e: (K::V, ())| p(e.0);
    lemma_filter_sorted::<K, ()>(m, q);
    lemma_members_filter(m, p);
    lemma_members_sorted::<K>(m.filter(q));
}

/// After adding `k`, the elements are `k` and those before.
pub proof fn lemma_set_put_contains<K: OrdKey>(s: Seq<K::V>, k: K::V, q: K::V)
    ensures
        set_put::<K>(s, k).contains(q) <==> q == k || s.contains(q),
    decreases s.len(),
{
    let p = set_put::<K>(s, k);
    if s.len() == 0 {
        assert(p[0] == k);
    } else if s[0] == k {
        assert(s[0] == k);
    } else if K::lt(k, s[0]) {
        assert(p[0] == k);
        if s.contains(q) {
            let i = choose|i: int| 0 <= i < s.len() && s[i] == q;
            assert(p[i + 1] == q);
        }
    } else {
        let r = s.drop_first();
        let t = set_put::<K>(r, k);
        lemma_set_put_contains::<K>(r, k, q);
        assert(p[0] == s[0]);
        if t.contains(q) {
            let i = choose|i: int| 0 <= i < t.len() && t[i] == q;
            assert(p[i + 1] == q);
        }
        if p.contains(q) {
            let i = choose|i: int| 0 <= i < p.len() && p[i] == q;
            if i > 0 {
                assert(t[i - 1] == q);
            }
        }
        if s.contains(q) {
            let i = choose|i: int| 0 <= i < s.len() && s[i] == q;
            if i > 0 {
                assert(r[i - 1] == q);
            }
        }
        if r.contains(q) {
            let i = choose|i: int| 0 <= i < r.len() && r[i] == q;
            assert(s[i + 1] == q);
        }
    }
}

impl Dup for usize {
    fn dup(&self) -> (r: Self) {
        *self
    }
}

impl OrdKey for usize {
    open spec fn lt(a: usize, b: usize) -> bool {
        a < b
    }

    proof fn lt_irreflexive(a: usize) {
    }

    proof fn lt_transitive(a: usize, b: usize, c: usize) {
    }

    proof fn lt_total(a: usize, b: usize) {
    }

    fn compare(&self, other: &Self) -> (c: Comparison) {
        if *self < *other {
            Comparison::Less
        } else if *self == *other {
            Comparison::Equal
        } else {
            Comparison::Greater
        }
    }
}

impl OrdKey for i64 {
    open spec fn lt(a: i64, b: i64) -> bool {
        a < b
    }

    proof fn lt_irreflexive(a: i64) {
    }

    proof fn lt_transitive(a: i64, b: i64, c: i64) {
    }

    proof fn lt_total(a: i64, b: i64) {
    }

    fn compare(&self, other: &Self) -> (c: Comparison) {
        if *self < *other {
            Comparison::Less
        } else if *self == *other {
            Comparison::Equal
        } else {
            Comparison::Greater
        }
    }
}

impl Dup for i64 {
    fn dup(&self) -> (r: Self) {
        *self
    }
}

impl Dup for () {
    fn dup(&self) -> (r: Self) {
    }
}

/// A test on elements.
pub trait ElementTest<K: OrdKey> {
    spec fn accepts(&self, k: K::V) -> bool;

    fn test(&self, k: &K) -> (b: bool)
        ensures
            b == self.accepts(k@),
    ;
}

struct OnKeys<'a, F> {
    test: &'a F,
}

impl<'a, K: OrdKey, F: ElementTest<K>> Selector<K, ()> for OnKeys<'a, F> {
    closed spec fn accepts(&self, k: K::V, v: ()) -> bool {
        self.test.accepts(k)
    }

    fn test(&self, k: &K, v: &()) -> (b: bool) {
        self.test.test(k)
    }
}

/// A set whose elements are kept in order.
#[verifier::reject_recursive_types(K)]
#[derive(Debug, PartialEq, Eq)]
pub struct OrdSet<K: OrdKey> {
    map: OrdMap<K, ()>,
}

impl<K: OrdKey> View for OrdSet<K> {
    type V = Seq<K::V>;

    closed spec fn view(&self) -> Seq<K::V> {
        members(self.map@)
    }
}

impl<K: OrdKey> OrdSet<K> {
    pub fn new() -> (r: Self)
        ensures
            r@ == Seq::<K::V>::empty(),
    {
        let r = OrdSet { map: OrdMap::new() };
        assert(r@ =~= Seq::<K::V>::empty());
        r
    }

    pub fn len(&self) -> (n: usize)
        ensures
            n == self@.len(),
            set_sorted::<K>(self@),
    {
        let n: usize = self.map.len();
        proof {
            lemma_members_sorted::<K>(self.map@);
        }
        n
    }

    pub fn is_empty(&self) -> (b: bool)
        ensures
            b == (self@.len() == 0),
    {
        self.map.is_empty()
    }

    /// The element at position `i`, in order.
    pub fn at(&self, i: usize) -> (k: &K)
        requires
            i < self@.len(),
        ensures
            k@ == self@[i as int],
    {
        self.map.key_at(i)
    }

    pub fn contains(&self, k: &K) -> (b: bool)
        ensures
            b == self@.contains(k@),
    {
        proof {
            lemma_members_contains(self.map@, k@);
        }
        self.map.contains_key(k)
    }

    /// Adds `k`; `true` when it was not there.
    pub fn insert(&mut self, k: K) -> (b: bool)
        ensures
            final(self)@ == set_put::<K>(old(self)@, k@),
            b == !old(self)@.contains(k@),
    {
        proof {
            lemma_members_put::<K>(self.map@, k@);
        }
        let fresh = !self.contains(&k);
        self.map.insert(k, ());
        fresh
    }

    /// Removes `k`; `true` when it was there.
    pub fn remove(&mut self, k: &K) -> (b: bool)
        ensures
            final(self)@ == set_del(old(self)@, k@),
            b == old(self)@.contains(k@),
    {
        proof {
            lemma_members_del(self.map@, k@);
            lemma_members_contains(self.map@, k@);
        }
        self.map.remove(k).is_some()
    }

    /// Keeps the elements that `test` accepts.
    pub fn retain<F: ElementTest<K>>(&mut self, test: &F)
        ensures
            final(self)@ == old(self)@.filter(|k: K::V| test.accepts(k)),
            set_sorted::<K>(old(self)@),
            set_sorted::<K>(final(self)@),
    {
        let ghost s = self.map@;
        let ghost p = |k: K::V| test.accepts(k);
        let on_keys = OnKeys { test };
        self.map.retain(&on_keys);
        proof {
            lemma_members_filter(s, p);
            let a = |e: (K::V, ())| on_keys.accepts(e.0, e.1);
            let b = |e: (K::V, ())| p(e.0);
            assert(a =~= b);
            lemma_members_sorted::<K>(s);
            lemma_members_sorted::<K>(self.map@);
        }
    }
}

impl<K: OrdKey + Dup> Dup for OrdSet<K> {
    fn dup(&self) -> (r: Self) {
        OrdSet { map: self.map.dup() }
    }
}

impl<K: OrdKey + Dup> Clone for OrdSet<K> {
    fn clone(&self) -> (r: Self)
        ensures
            r@ == self@,
    {
        self.dup()
    }
}

/// A type whose values can be compared by what they stand for.
pub trait Alike: View + Sized {
    fn alike(&self, other: &Self) -> (b: bool)
        ensures
            b == (self@ == other@),
    ;
}

impl Alike for usize {
    fn alike(&self, other: &Self) -> (b: bool) {
        *self == *other
    }
}

impl Alike for () {
    fn alike(&self, other: &Self) -> (b: bool) {
        true
    }
}

/// Whether two keys are the same.
pub fn same_keys<K: OrdKey>(a: &K, b: &K) -> (r: bool)
    ensures
        r == (a@ == b@),
{
    proof {
        K::lt_irreflexive(a@);
    }
    match a.compare(b) {
        Comparison::Equal => true,
        _ => false,
    }
}

impl<K: OrdKey, V: Alike> Alike for OrdMap<K, V> {
    fn alike(&self, other: &Self) -> (b: bool) {
        if self.len() != other.len() {
            return false;
        }
        let n: usize = self.len();
        let mut i: usize = 0;
        while i < n
            invariant
                n == self@.len(),
                n == other@.len(),
                i <= n,
                forall|j: int| 0 <= j < i ==> #[trigger] self@[j] == other@[j],
            decreases n - i,
        {
            if !same_keys(self.key_at(i), other.key_at(i)) || !self.value_at(i).alike(
                other.value_at(i),
            ) {
                assert(self@[i as int] != other@[i as int]);
                return false;
            }
            i = i + 1;
        }
        assert(self@ =~= other@);
        true
    }
}

impl<K: OrdKey> Alike for OrdSet<K> {
    fn alike(&self, other: &Self) -> (b: bool) {
        if self.len() != other.len() {
            return false;
        }
        let n: usize = self.len();
        let mut i: usize = 0;
        while i < n
            invariant
                n == self@.len(),
                n == other@.len(),
                i <= n,
                forall|j: int| 0 <= j < i ==> #[trigger] self@[j] == other@[j],
            decreases n - i,
        {
            if !same_keys(self.at(i), other.at(i)) {
                assert(self@[i as int] != other@[i as int]);
                return false;
            }
            i = i + 1;
        }
        assert(self@ =~= other@);
        true
    }
}

} // verus!
