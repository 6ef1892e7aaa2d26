//! Union-find for variable equality classes.
//!
//! Tracks which abstract values are known to be equal. The representative of
//! a class is its smallest value.

use crate::abstract_value::AbstractValue;
use crate::ordered::{
    lemma_lookup_at, lemma_lookup_has_key, lemma_lookup_put, lemma_position_exists, lemma_put_at,
    lemma_put_sorted, lookup, put, sorted, OrdMap,
};
use vstd::prelude::*;

verus! {

pub type Eqs = Seq<(AbstractValue, AbstractValue)>;

/// Every link goes to a smaller value.
pub open spec fn links_down(p: Eqs) -> bool {
    forall|i: int| 0 <= i < p.len() ==> (#[trigger] p[i]).1.0 < p[i].0.0
}

/// The end of the chain of links that starts at `v`.
pub open spec fn root(p: Eqs, v: AbstractValue) -> AbstractValue
    decreases v.0 - i64::MIN,
{
    match lookup(p, v) {
        None => v,
        Some(q) => if q.0 < v.0 {
            root(p, q)
        } else {
            v
        },
    }
}

/// The representative of `v` when `eqs` binds every other member of a class to
/// its representative.
pub open spec fn repr(eqs: Eqs, v: AbstractValue) -> AbstractValue {
    match lookup(eqs, v) {
        None => v,
        Some(r) => r,
    }
}

/// `eqs` after the class represented by `gone` joins the class of `keep`.
pub open spec fn merged(eqs: Eqs, gone: AbstractValue, keep: AbstractValue) -> Eqs {
    put::<AbstractValue, AbstractValue>(redirected(eqs, gone, keep), gone, keep)
}

pub open spec fn redirected(eqs: Eqs, gone: AbstractValue, keep: AbstractValue) -> Eqs {
    eqs.map_values(
        |e: (AbstractValue, AbstractValue)|
            (
                e.0,
                if e.1 == gone {
                    keep
                } else {
                    e.1
                },
            ),
    )
}

/// What `union` does: nothing when both values are in one class, and otherwise
/// the larger representative gives way to the smaller.
pub open spec fn union_result(eqs: Eqs, v1: AbstractValue, v2: AbstractValue) -> (
    Eqs,
    Option<(AbstractValue, AbstractValue)>,
) {
    let r1 = repr(eqs, v1);
    let r2 = repr(eqs, v2);
    if r1 == r2 {
        (eqs, None)
    } else if r1.0 < r2.0 {
        (merged(eqs, r2, r1), Some((r2, r1)))
    } else {
        (merged(eqs, r1, r2), Some((r1, r2)))
    }
}

/// The shape of a union-find's equalities: sorted by member, and every
/// representative smaller than its members and itself not a member.
pub open spec fn eqs_wf(eqs: Eqs) -> bool {
    &&& sorted::<AbstractValue, AbstractValue>(eqs)
    &&& forall|i: int|
        0 <= i < eqs.len() ==> (#[trigger] eqs[i]).1.0 < eqs[i].0.0 && lookup(eqs, eqs[i].1) is None
}

/// Union-find with path compression.
#[derive(Debug)]
pub struct VarUF {
    parent: OrdMap<AbstractValue, AbstractValue>,
}

proof fn lemma_link(p: Eqs, v: AbstractValue)
    requires
        links_down(p),
        lookup(p, v) is Some,
    ensures
        (lookup(p, v)->0).0 < v.0,
{
    lemma_lookup_has_key(p, v);
}

proof fn lemma_root_is_root(p: Eqs, v: AbstractValue)
    requires
        links_down(p),
    ensures
        lookup(p, root(p, v)) is None,
        root(p, v).0 <= v.0,
        lookup(p, v) is Some ==> root(p, v).0 < v.0,
    decreases v.0 - i64::MIN,
{
    if lookup(p, v) is Some {
        lemma_link(p, v);
        lemma_root_is_root(p, lookup(p, v)->0);
    }
}

/// Cutting a chain short leaves every end where it was.
proof fn lemma_root_compress(p: Eqs, v: AbstractValue, w: AbstractValue)
    requires
        sorted::<AbstractValue, AbstractValue>(p),
        links_down(p),
        lookup(p, v) is Some,
    ensures
        root(put::<AbstractValue, AbstractValue>(p, v, root(p, v)), w) == root(p, w),
    decreases w.0 - i64::MIN,
{
    let q = put::<AbstractValue, AbstractValue>(p, v, root(p, v));
    lemma_root_is_root(p, v);
    lemma_lookup_put::<AbstractValue, AbstractValue>(p, v, root(p, v), w);
    if w == v {
        lemma_lookup_put::<AbstractValue, AbstractValue>(p, v, root(p, v), root(p, v));
        assert(root(q, root(p, v)) == root(p, v));
    } else if lookup(p, w) is Some {
        lemma_link(p, w);
        lemma_root_compress(p, v, lookup(p, w)->0);
    }
}

/// Linking one root to another redirects its class.
proof fn lemma_root_link(p: Eqs, gone: AbstractValue, keep: AbstractValue, w: AbstractValue)
    requires
        sorted::<AbstractValue, AbstractValue>(p),
        links_down(p),
        lookup(p, gone) is None,
        lookup(p, keep) is None,
        keep.0 < gone.0,
    ensures
        root(put::<AbstractValue, AbstractValue>(p, gone, keep), w) == if root(p, w) == gone {
            keep
        } else {
            root(p, w)
        },
    decreases w.0 - i64::MIN,
{
    let q = put::<AbstractValue, AbstractValue>(p, gone, keep);
    lemma_lookup_put::<AbstractValue, AbstractValue>(p, gone, keep, w);
    lemma_lookup_put::<AbstractValue, AbstractValue>(p, gone, keep, keep);
    if w == gone {
        assert(root(q, keep) == keep);
    } else if lookup(p, w) is Some {
        lemma_link(p, w);
        lemma_root_link(p, gone, keep, lookup(p, w)->0);
    }
}

/// The members of `p` with the ends of their chains.
spec fn canonical(p: Eqs) -> Eqs {
    p.map_values(|e: (AbstractValue, AbstractValue)| (e.0, root(p, e.0)))
}

proof fn lemma_canonical_lookup(p: Eqs, v: AbstractValue)
    requires
        sorted::<AbstractValue, AbstractValue>(p),
    ensures
        sorted::<AbstractValue, AbstractValue>(canonical(p)),
        lookup(canonical(p), v) == if lookup(p, v) is Some {
            Some(root(p, v))
        } else {
            None
        },
{
    let c = canonical(p);
    assert forall|i: int, j: int| 0 <= i < j < c.len() implies (#[trigger] c[i]).0.0 < (
    #[trigger] c[j]).0.0 by {
        assert(p[i].0.0 < p[j].0.0);
    }
    lemma_lookup_has_key(p, v);
    lemma_lookup_has_key(c, v);
    if lookup(p, v) is Some {
        let i = choose|i: int| 0 <= i < p.len() && (#[trigger] p[i]) == (v, lookup(p, v)->0);
        assert(c[i] == (v, root(p, v)));
        lemma_lookup_at::<AbstractValue, AbstractValue>(c, i);
    } else if lookup(c, v) is Some {
        let i = choose|i: int| 0 <= i < c.len() && (#[trigger] c[i]) == (v, lookup(c, v)->0);
        assert(p[i].0 == v);
    }
}

proof fn lemma_canonical_wf(p: Eqs)
    requires
        sorted::<AbstractValue, AbstractValue>(p),
        links_down(p),
    ensures
        eqs_wf(canonical(p)),
{
    let c = canonical(p);
    lemma_canonical_lookup(p, AbstractValue(0));
    assert forall|i: int| 0 <= i < c.len() implies (#[trigger] c[i]).1.0 < c[i].0.0 && lookup(
        c,
        c[i].1,
    ) is None by {
        lemma_lookup_at::<AbstractValue, AbstractValue>(p, i);
        lemma_root_is_root(p, p[i].0);
        lemma_canonical_lookup(p, c[i].1);
    }
}

proof fn lemma_put_links_down(p: Eqs, k: AbstractValue, v: AbstractValue)
    requires
        sorted::<AbstractValue, AbstractValue>(p),
        links_down(p),
        v.0 < k.0,
    ensures
        links_down(put::<AbstractValue, AbstractValue>(p, k, v)),
{
    let i = lemma_position_exists::<AbstractValue, AbstractValue>(p, k);
    lemma_put_at::<AbstractValue, AbstractValue>(p, k, v, i);
}

proof fn lemma_canonical_compress(p: Eqs, v: AbstractValue)
    requires
        sorted::<AbstractValue, AbstractValue>(p),
        links_down(p),
        lookup(p, v) is Some,
    ensures
        canonical(put::<AbstractValue, AbstractValue>(p, v, root(p, v))) == canonical(p),
{
    let q = put::<AbstractValue, AbstractValue>(p, v, root(p, v));
    let i = lemma_position_exists::<AbstractValue, AbstractValue>(p, v);
    lemma_put_at::<AbstractValue, AbstractValue>(p, v, root(p, v), i);
    lemma_lookup_has_key(p, v);
    let j = choose|j: int| 0 <= j < p.len() && (#[trigger] p[j]).0 == v;
    assert(i < p.len() && p[i].0 == v) by {
        if j < i {
            assert(p[j].0.0 < v.0);
        }
        if j > i {
            assert(p[i].0.0 < p[j].0.0);
        }
    }
    assert forall|w: AbstractValue| root(q, w) == root(p, w) by {
        lemma_root_compress(p, v, w);
    }
    assert(canonical(q) =~= canonical(p));
}

proof fn lemma_canonical_link(p: Eqs, gone: AbstractValue, keep: AbstractValue)
    requires
        sorted::<AbstractValue, AbstractValue>(p),
        links_down(p),
        lookup(p, gone) is None,
        lookup(p, keep) is None,
        keep.0 < gone.0,
    ensures
        canonical(put::<AbstractValue, AbstractValue>(p, gone, keep)) == merged(
            canonical(p),
            gone,
            keep,
        ),
{
    let q = put::<AbstractValue, AbstractValue>(p, gone, keep);
    let c = redirected(canonical(p), gone, keep);
    let i = lemma_position_exists::<AbstractValue, AbstractValue>(p, gone);
    lemma_put_at::<AbstractValue, AbstractValue>(p, gone, keep, i);
    lemma_lookup_has_key(p, gone);
    assert(c.len() == p.len());
    assert(forall|j: int| 0 <= j < p.len() ==> (#[trigger] c[j]).0 == p[j].0);
    assert forall|a: int, b: int| 0 <= a < b < c.len() implies (#[trigger] c[a]).0.0 < (
    #[trigger] c[b]).0.0 by {
        assert(p[a].0.0 < p[b].0.0);
    }
    assert forall|j: int| 0 <= j < i implies (#[trigger] c[j]).0.0 < gone.0 by {
        assert(p[j].0.0 < gone.0);
    }
    lemma_put_at::<AbstractValue, AbstractValue>(c, gone, keep, i);
    assert forall|w: AbstractValue| root(q, w) == if root(p, w) == gone {
        keep
    } else {
        root(p, w)
    } by {
        lemma_root_link(p, gone, keep, w);
    }
    assert(canonical(q) =~= c.insert(i, (gone, keep))) by {
        assert(canonical(q).len() == c.len() + 1);
        assert forall|j: int| 0 <= j < canonical(q).len() implies canonical(q)[j] == c.insert(
            i,
            (gone, keep),
        )[j] by {
            if j < i {
                assert(q[j] == p[j]);
                assert(c[j].0 == p[j].0);
            } else if j == i {
                assert(q[j] == (gone, keep));
                lemma_root_is_root(p, gone);
            } else {
                assert(q[j] == p[j - 1]);
                assert(c[j - 1].0 == p[j - 1].0);
            }
        }
    }
}

impl View for VarUF {
    type V = Eqs;

    /// Every value that is not its own representative, with its
    /// representative, in increasing order.
    closed spec fn view(&self) -> Eqs {
        canonical(self.parent@)
    }
}

impl VarUF {
    #[verifier::type_invariant]
    spec fn type_inv(self) -> bool {
        sorted::<AbstractValue, AbstractValue>(self.parent@) && links_down(self.parent@)
    }

    pub fn new() -> (r: Self)
        ensures
            r@ == Eqs::empty(),
    {
        let r = VarUF { parent: OrdMap::new() };
        assert(r@ =~= Eqs::empty());
        r
    }

    /// Find the canonical representative of a variable (with path
    /// compression).
    pub fn find(&mut self, v: AbstractValue) -> (r: AbstractValue)
        ensures
            eqs_wf(old(self)@),
            r == repr(old(self)@, v),
            final(self)@ == old(self)@,
        decreases v.0 - i64::MIN,
    {
        proof {
            use_type_invariant(&*self);
            lemma_canonical_wf(self.parent@);
        }
        let ghost p0 = self.parent@;
        let p = match self.parent.get(&v) {
            None => {
                proof {
                    lemma_canonical_lookup(p0, v);
                }
                return v;
            },
            Some(p) => *p,
        };
        proof {
            lemma_link(p0, v);
            lemma_canonical_lookup(p0, v);
            lemma_canonical_lookup(p0, p);
            lemma_root_is_root(p0, p);
        }
        let root_v = self.find(p);
        proof {
            use_type_invariant(&*self);
            lemma_canonical_lookup(self.parent@, v);
            lemma_canonical_compress(self.parent@, v);
            lemma_root_is_root(self.parent@, v);
            lemma_put_sorted::<AbstractValue, AbstractValue>(self.parent@, v, root_v);
            lemma_put_links_down(self.parent@, v, root_v);
        }
        let mut parent = OrdMap::new();
        std::mem::swap(&mut parent, &mut self.parent);
        parent.insert(v, root_v);
        self.parent = parent;
        root_v
    }

    /// Find without mutation (for read-only contexts).
    pub fn find_immut(&self, v: AbstractValue) -> (r: AbstractValue)
        ensures
            eqs_wf(self@),
            r == repr(self@, v),
    {
        proof {
            use_type_invariant(self);
            lemma_canonical_wf(self.parent@);
            lemma_canonical_lookup(self.parent@, v);
        }
        let mut current = v;
        loop
            invariant
                root(self.parent@, current) == root(self.parent@, v),
                links_down(self.parent@),
                eqs_wf(self@),
                root(self.parent@, v) == repr(self@, v),
            decreases current.0 - i64::MIN,
        {
            proof {
                lemma_root_is_root(self.parent@, current);
            }
            match self.parent.get(&current) {
                None => {
                    return current;
                },
                Some(p) => {
                    proof {
                        lemma_link(self.parent@, current);
                    }
                    current = *p;
                },
            }
        }
    }

    /// Union two variables into the same equivalence class.
    ///
    /// The simpler variable (lower raw id) becomes the representative.
    /// Returns `Some((old_repr, new_repr))` if the classes were different,
    /// or `None` if they were already in the same class.
    pub fn union(&mut self, v1: AbstractValue, v2: AbstractValue) -> (r: Option<
        (AbstractValue, AbstractValue),
    >)
        ensures
            eqs_wf(old(self)@),
            eqs_wf(final(self)@),
            final(self)@ == union_result(old(self)@, v1, v2).0,
            r == union_result(old(self)@, v1, v2).1,
    {
        let r1 = self.find(v1);
        let r2 = self.find(v2);
        if r1 == r2 {
            return None;
        }
        let (keep, merge) = if is_simpler(r1, r2) {
            (r1, r2)
        } else {
            (r2, r1)
        };
        proof {
            use_type_invariant(&*self);
            let p = self.parent@;
            lemma_canonical_lookup(p, v1);
            lemma_canonical_lookup(p, v2);
            lemma_root_is_root(p, v1);
            lemma_root_is_root(p, v2);
            lemma_canonical_link(p, merge, keep);
            lemma_put_sorted::<AbstractValue, AbstractValue>(p, merge, keep);
            lemma_put_links_down(p, merge, keep);
            lemma_canonical_wf(put::<AbstractValue, AbstractValue>(p, merge, keep));
        }
        let mut parent = OrdMap::new();
        std::mem::swap(&mut parent, &mut self.parent);
        parent.insert(merge, keep);
        self.parent = parent;
        Some((merge, keep))
    }

    /// Get the canonical representative without mutation.
    pub fn get_repr(&self, v: AbstractValue) -> (r: AbstractValue)
        ensures
            eqs_wf(self@),
            r == repr(self@, v),
    {
        self.find_immut(v)
    }

    /// Number of values that are not their own representative.
    pub fn len(&self) -> (n: usize)
        ensures
            n == self@.len(),
    {
        self.parent.len()
    }

    pub fn is_empty(&self) -> (b: bool)
        ensures
            b == (self@.len() == 0),
    {
        self.parent.is_empty()
    }

    /// All non-trivial equalities: each value that is not its own
    /// representative, with its representative.
    pub fn iter_equalities(&self) -> (r: Vec<(AbstractValue, AbstractValue)>)
        ensures
            r@ == self@,
            eqs_wf(r@),
    {
        proof {
            use_type_invariant(self);
            lemma_canonical_wf(self.parent@);
        }
        let mut out: Vec<(AbstractValue, AbstractValue)> = Vec::new();
        let mut i: usize = 0;
        while i < self.parent.len()
            invariant
                i <= self.parent@.len(),
                self@.len() == self.parent@.len(),
                sorted::<AbstractValue, AbstractValue>(self.parent@),
                self@ == canonical(self.parent@),
                out@ =~= self@.take(i as int),
            decreases self.parent@.len() - i,
        {
            let k = *self.parent.key_at(i);
            proof {
                lemma_lookup_at::<AbstractValue, AbstractValue>(self.parent@, i as int);
                lemma_canonical_lookup(self.parent@, k);
            }
            out.push((k, self.find_immut(k)));
            i = i + 1;
        }
        assert(self@.take(self@.len() as int) =~= self@);
        out
    }
}

impl Clone for VarUF {
    fn clone(&self) -> (r: Self)
        ensures
            r@ == self@,
    {
        proof {
            use_type_invariant(self);
        }
        VarUF { parent: self.parent.clone() }
    }
}

impl PartialEq for VarUF {
    /// Equality of the classes, whatever the shape of the links.
    fn eq(&self, other: &Self) -> (r: bool) {
        let a = self.iter_equalities();
        let b = other.iter_equalities();
        if a.len() != b.len() {
            return false;
        }
        let mut i: usize = 0;
        while i < a.len()
            invariant
                i <= a@.len(),
                a@.len() == b@.len(),
                a@ == self@,
                b@ == other@,
                a@.take(i as int) =~= b@.take(i as int),
            decreases a@.len() - i,
        {
            if a[i].0.0 != b[i].0.0 || a[i].1.0 != b[i].1.0 {
                return false;
            }
            assert(a@.take(i + 1) =~= a@.take(i as int).push(a@[i as int]));
            assert(b@.take(i + 1) =~= b@.take(i as int).push(b@[i as int]));
            i = i + 1;
        }
        assert(a@.take(a@.len() as int) =~= a@);
        assert(b@.take(b@.len() as int) =~= b@);
        true
    }
}

impl vstd::std_specs::cmp::PartialEqSpecImpl for VarUF {
    open spec fn obeys_eq_spec() -> bool {
        true
    }

    open spec fn eq_spec(&self, other: &Self) -> bool {
        self@ == other@
    }
}

impl Eq for VarUF {

}

/// The smaller raw id is the simpler value, so a restricted value is preferred
/// over an unrestricted one.
fn is_simpler(v1: AbstractValue, v2: AbstractValue) -> (b: bool)
    ensures
        b == (v1.0 < v2.0),
{
    v1.raw() < v2.raw()
}

pub proof fn lemma_redirected(eqs: Eqs, gone: AbstractValue, keep: AbstractValue, w: AbstractValue)
    requires
        sorted::<AbstractValue, AbstractValue>(eqs),
    ensures
        sorted::<AbstractValue, AbstractValue>(redirected(eqs, gone, keep)),
        lookup(redirected(eqs, gone, keep), w) == match lookup(eqs, w) {
            None => None,
            Some(r) => Some(
                if r == gone {
                    keep
                } else {
                    r
                },
            ),
        },
{
    let c = redirected(eqs, gone, keep);
    assert forall|i: int, j: int| 0 <= i < j < c.len() implies (#[trigger] c[i]).0.0 < (
    #[trigger] c[j]).0.0 by {
        assert(eqs[i].0.0 < eqs[j].0.0);
    }
    lemma_lookup_has_key(eqs, w);
    lemma_lookup_has_key(c, w);
    if lookup(eqs, w) is Some {
        let i = choose|i: int| 0 <= i < eqs.len() && (#[trigger] eqs[i]) == (w, lookup(eqs, w)->0);
        assert(c[i].0 == w);
        lemma_lookup_at::<AbstractValue, AbstractValue>(c, i);
    } else if lookup(c, w) is Some {
        let i = choose|i: int| 0 <= i < c.len() && (#[trigger] c[i]) == (w, lookup(c, w)->0);
        assert(eqs[i].0 == w);
    }
}

/// A representative is its own representative, and no member of its class is
/// smaller.
pub proof fn law_representative_is_smallest(eqs: Eqs, v: AbstractValue)
    requires
        eqs_wf(eqs),
    ensures
        repr(eqs, repr(eqs, v)) == repr(eqs, v),
        repr(eqs, v).0 <= v.0,
{
    lemma_lookup_has_key(eqs, v);
}

/// A union puts the classes of its two arguments together under the smaller
/// representative and leaves every other class as it was.
pub proof fn law_union_merges_two_classes(
    eqs: Eqs,
    v1: AbstractValue,
    v2: AbstractValue,
    w: AbstractValue,
)
    requires
        eqs_wf(eqs),
    ensures
        repr(union_result(eqs, v1, v2).0, w) == if repr(eqs, w) == repr(eqs, v1) || repr(eqs, w)
            == repr(eqs, v2) {
            if repr(eqs, v1).0 < repr(eqs, v2).0 {
                repr(eqs, v1)
            } else {
                repr(eqs, v2)
            }
        } else {
            repr(eqs, w)
        },
{
    let r1 = repr(eqs, v1);
    let r2 = repr(eqs, v2);
    law_representative_is_smallest(eqs, v1);
    law_representative_is_smallest(eqs, v2);
    law_representative_is_smallest(eqs, w);
    lemma_lookup_has_key(eqs, v1);
    lemma_lookup_has_key(eqs, v2);
    lemma_lookup_has_key(eqs, w);
    if r1 != r2 {
        let (gone, keep) = if r1.0 < r2.0 {
            (r2, r1)
        } else {
            (r1, r2)
        };
        lemma_redirected(eqs, gone, keep, w);
        lemma_lookup_put::<AbstractValue, AbstractValue>(
            redirected(eqs, gone, keep),
            gone,
            keep,
            w,
        );
    }
}

/// A union leaves the equalities well formed.
pub proof fn lemma_union_wf(eqs: Eqs, v1: AbstractValue, v2: AbstractValue)
    requires
        eqs_wf(eqs),
    ensures
        eqs_wf(union_result(eqs, v1, v2).0),
{
    let r1 = repr(eqs, v1);
    let r2 = repr(eqs, v2);
    law_representative_is_smallest(eqs, v1);
    law_representative_is_smallest(eqs, v2);
    lemma_lookup_has_key(eqs, v1);
    lemma_lookup_has_key(eqs, v2);
    if r1 != r2 {
        let (gone, keep) = if r1.0 < r2.0 {
            (r2, r1)
        } else {
            (r1, r2)
        };
        let c = redirected(eqs, gone, keep);
        let e = merged(eqs, gone, keep);
        lemma_redirected(eqs, gone, keep, keep);
        lemma_put_sorted::<AbstractValue, AbstractValue>(c, gone, keep);
        assert forall|i: int| 0 <= i < e.len() implies (#[trigger] e[i]).1.0 < e[i].0.0 && lookup(
            e,
            e[i].1,
        ) is None by {
            crate::ordered::lemma_put_members::<AbstractValue, AbstractValue>(c, gone, keep, i);
            lemma_lookup_put::<AbstractValue, AbstractValue>(c, gone, keep, e[i].1);
            lemma_redirected(eqs, gone, keep, e[i].1);
            if e[i] != (gone, keep) {
                let j = choose|j: int| 0 <= j < c.len() && #[trigger] c[j] == e[i];
                assert(eqs[j].0 == e[i].0);
                assert(eqs[j].1.0 < eqs[j].0.0 && lookup(eqs, eqs[j].1) is None);
            }
        }
    }
}

/// A second union of the same values changes nothing and reports nothing.
pub proof fn law_union_is_idempotent(eqs: Eqs, v1: AbstractValue, v2: AbstractValue)
    requires
        eqs_wf(eqs),
    ensures
        union_result(union_result(eqs, v1, v2).0, v1, v2) == (
            union_result(eqs, v1, v2).0,
            None::<(AbstractValue, AbstractValue)>,
        ),
{
    law_union_merges_two_classes(eqs, v1, v2, v1);
    law_union_merges_two_classes(eqs, v1, v2, v2);
}

} // verus!
