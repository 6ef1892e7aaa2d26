//! Canonical alias groups say what the groups they are made of say.

use super::specialize::{
    canonical_groups, deduped, group_texts, insert_group, insert_path, path_root, path_text,
    real_groups, sorted_group, sorted_groups, specialization_step, Group, HeapPath, SpecializationV,
    StepV,
};
use crate::execution_domain::ExecutionV;
use crate::ordered::OrdKey;
use vstd::prelude::*;

verus! {

/// A path of the group has this text.
pub open spec fn names(g: Group, t: Seq<char>) -> bool {
    exists|i: int| 0 <= i < g.len() && path_text(#[trigger] g[i]) == t
}

proof fn lemma_insert_path(g: Group, p: HeapPath, t: Seq<char>, x: HeapPath)
    ensures
        names(insert_path(g, p), t) <==> names(g, t) || t == path_text(p),
        insert_path(g, p).contains(x) ==> g.contains(x) || x == p,
    decreases g.len(),
{
    let r = insert_path(g, p);
    if g.len() == 0 {
        assert(r[0] == p);
    } else {
        let h = g.drop_last();
        let last = g.len() - 1;
        assert(g[last] == g.last());
        if path_text(g.last()) == path_text(p) {
        } else if <String as OrdKey>::lt(path_text(p), path_text(g.last())) {
            let s = insert_path(h, p);
            lemma_insert_path(h, p, t, x);
            assert(r == s.push(g.last()));
            assert(r[s.len() as int] == g.last());
            if names(r, t) {
                let i = choose|i: int| 0 <= i < r.len() && path_text(#[trigger] r[i]) == t;
                if i < s.len() {
                    assert(s[i] == r[i]);
                }
            }
            if names(s, t) {
                let i = choose|i: int| 0 <= i < s.len() && path_text(#[trigger] s[i]) == t;
                assert(r[i] == s[i]);
            }
            if names(h, t) {
                let i = choose|i: int| 0 <= i < h.len() && path_text(#[trigger] h[i]) == t;
                assert(g[i] == h[i]);
            }
            if names(g, t) {
                let i = choose|i: int| 0 <= i < g.len() && path_text(#[trigger] g[i]) == t;
                if i < last {
                    assert(h[i] == g[i]);
                }
            }
            if r.contains(x) {
                let i = choose|i: int| 0 <= i < r.len() && r[i] == x;
                if i < s.len() {
                    assert(s[i] == x);
                    if h.contains(x) {
                        let j = choose|j: int| 0 <= j < h.len() && h[j] == x;
                        assert(g[j] == x);
                    }
                }
            }
        } else {
            assert(r[g.len() as int] == p);
            if names(r, t) {
                let i = choose|i: int| 0 <= i < r.len() && path_text(#[trigger] r[i]) == t;
                if i < g.len() {
                    assert(g[i] == r[i]);
                }
            }
            if names(g, t) {
                let i = choose|i: int| 0 <= i < g.len() && path_text(#[trigger] g[i]) == t;
                assert(r[i] == g[i]);
            }
            if r.contains(x) {
                let i = choose|i: int| 0 <= i < r.len() && r[i] == x;
                if i < g.len() {
                    assert(g[i] == x);
                }
            }
        }
    }
}

/// A sorted group has a path for each text of the group, each a path of the group.
pub proof fn law_sorted_group(g: Group, t: Seq<char>, x: HeapPath)
    ensures
        names(sorted_group(g), t) <==> names(g, t),
        sorted_group(g).contains(x) ==> g.contains(x),
    decreases g.len(),
{
    if g.len() > 0 {
        let h = g.drop_last();
        let last = g.len() - 1;
        law_sorted_group(h, t, x);
        lemma_insert_path(sorted_group(h), g.last(), t, x);
        assert(g[last] == g.last());
        if names(h, t) {
            let i = choose|i: int| 0 <= i < h.len() && path_text(#[trigger] h[i]) == t;
            assert(g[i] == h[i]);
        }
        if names(g, t) {
            let i = choose|i: int| 0 <= i < g.len() && path_text(#[trigger] g[i]) == t;
            if i < last {
                assert(h[i] == g[i]);
            }
        }
        if h.contains(x) {
            let i = choose|i: int| 0 <= i < h.len() && h[i] == x;
            assert(g[i] == x);
        }
    }
}

proof fn lemma_real_groups_members(s: Seq<Group>, g: Group)
    ensures
        real_groups(s).contains(g) <==> g.len() > 1 && exists|i: int|
            0 <= i < s.len() && sorted_group(#[trigger] s[i]) == g,
    decreases s.len(),
{
    if s.len() > 0 {
        let h = s.drop_last();
        let last = s.len() - 1;
        let rest = real_groups(h);
        let all = real_groups(s);
        lemma_real_groups_members(h, g);
        assert(s[last] == s.last());
        if all.contains(g) {
            let i = choose|i: int| 0 <= i < all.len() && all[i] == g;
            if i < rest.len() {
                assert(rest[i] == g);
                let j = choose|j: int| 0 <= j < h.len() && sorted_group(#[trigger] h[j]) == g;
                assert(s[j] == h[j]);
            }
        }
        if g.len() > 1 && exists|i: int| 0 <= i < s.len() && sorted_group(#[trigger] s[i]) == g {
            let i = choose|i: int| 0 <= i < s.len() && sorted_group(#[trigger] s[i]) == g;
            if i < last {
                assert(h[i] == s[i]);
                let j = choose|j: int| 0 <= j < rest.len() && rest[j] == g;
                assert(all[j] == g);
            } else {
                assert(all[rest.len() as int] == g);
            }
        }
    }
}

proof fn lemma_insert_group_members(s: Seq<Group>, g: Group, x: Group)
    ensures
        insert_group(s, g).contains(x) <==> s.contains(x) || x == g,
    decreases s.len(),
{
    let r = insert_group(s, g);
    if s.len() == 0 {
        assert(r[0] == g);
    } else {
        let h = s.drop_last();
        let last = s.len() - 1;
        assert(s[last] == s.last());
        if r == s.push(g) {
            assert(r[s.len() as int] == g);
            if s.contains(x) {
                let i = choose|i: int| 0 <= i < s.len() && s[i] == x;
                assert(r[i] == x);
            }
            if r.contains(x) {
                let i = choose|i: int| 0 <= i < r.len() && r[i] == x;
                if i < s.len() {
                    assert(s[i] == x);
                }
            }
        } else {
            let t = insert_group(h, g);
            lemma_insert_group_members(h, g, x);
            assert(r == t.push(s.last()));
            assert(r[t.len() as int] == s.last());
            if t.contains(x) {
                let i = choose|i: int| 0 <= i < t.len() && t[i] == x;
                assert(r[i] == x);
            }
            if r.contains(x) {
                let i = choose|i: int| 0 <= i < r.len() && r[i] == x;
                if i < t.len() {
                    assert(t[i] == x);
                }
            }
            if h.contains(x) {
                let i = choose|i: int| 0 <= i < h.len() && h[i] == x;
                assert(s[i] == x);
            }
            if s.contains(x) {
                let i = choose|i: int| 0 <= i < s.len() && s[i] == x;
                if i < last {
                    assert(h[i] == x);
                }
            }
        }
    }
}

proof fn lemma_sorted_groups_members(s: Seq<Group>, x: Group)
    ensures
        sorted_groups(s).contains(x) <==> s.contains(x),
    decreases s.len(),
{
    if s.len() > 0 {
        let h = s.drop_last();
        let last = s.len() - 1;
        lemma_sorted_groups_members(h, x);
        lemma_insert_group_members(sorted_groups(h), s.last(), x);
        assert(s[last] == s.last());
        if h.contains(x) {
            let i = choose|i: int| 0 <= i < h.len() && h[i] == x;
            assert(s[i] == x);
        }
        if s.contains(x) {
            let i = choose|i: int| 0 <= i < s.len() && s[i] == x;
            if i < last {
                assert(h[i] == x);
            }
        }
    }
}

/// A group with these texts is among the groups.
pub open spec fn has_texts(s: Seq<Group>, texts: Seq<Seq<char>>) -> bool {
    exists|i: int| 0 <= i < s.len() && group_texts(#[trigger] s[i]) == texts
}

proof fn lemma_deduped_members(s: Seq<Group>, x: Group)
    ensures
        deduped(s).contains(x) ==> s.contains(x),
        s.contains(x) ==> has_texts(deduped(s), group_texts(x)),
    decreases s.len(),
{
    if s.len() > 0 {
        let h = s.drop_last();
        let last = s.len() - 1;
        let rest = deduped(h);
        let all = deduped(s);
        lemma_deduped_members(h, x);
        assert(s[last] == s.last());
        if all.contains(x) {
            let i = choose|i: int| 0 <= i < all.len() && all[i] == x;
            if i < rest.len() {
                assert(rest[i] == x);
                let j = choose|j: int| 0 <= j < h.len() && h[j] == x;
                assert(s[j] == x);
            }
        }
        if s.contains(x) {
            let i = choose|i: int| 0 <= i < s.len() && s[i] == x;
            if i < last {
                assert(h[i] == x);
                let j = choose|j: int|
                    0 <= j < rest.len() && group_texts(#[trigger] rest[j]) == group_texts(x);
                assert(all[j] == rest[j]);
            } else if all == rest {
                assert(group_texts(all[rest.len() - 1]) == group_texts(x));
            } else {
                assert(all[rest.len() as int] == x);
            }
        }
    }
}

/// Two paths with different texts that alias stay together in some canonical group.
pub proof fn law_aliases_are_kept(s: Seq<Group>, i: int, p: HeapPath, q: HeapPath)
    requires
        0 <= i < s.len(),
        s[i].contains(p),
        s[i].contains(q),
        path_text(p) != path_text(q),
    ensures
        exists|k: int|
            0 <= k < canonical_groups(s).len() && names(
                #[trigger] canonical_groups(s)[k],
                path_text(p),
            ) && names(canonical_groups(s)[k], path_text(q)),
{
    let g = sorted_group(s[i]);
    let c = canonical_groups(s);
    let a = choose|a: int| 0 <= a < s[i].len() && s[i][a] == p;
    let b = choose|b: int| 0 <= b < s[i].len() && s[i][b] == q;
    assert(names(s[i], path_text(p)) && names(s[i], path_text(q)));
    law_sorted_group(s[i], path_text(p), p);
    law_sorted_group(s[i], path_text(q), q);
    let x = choose|x: int| 0 <= x < g.len() && path_text(#[trigger] g[x]) == path_text(p);
    let y = choose|y: int| 0 <= y < g.len() && path_text(#[trigger] g[y]) == path_text(q);
    assert(x != y);
    lemma_real_groups_members(s, g);
    lemma_sorted_groups_members(real_groups(s), g);
    lemma_deduped_members(sorted_groups(real_groups(s)), g);
    let k = choose|k: int| 0 <= k < c.len() && group_texts(#[trigger] c[k]) == group_texts(g);
    assert(group_texts(c[k]).len() == c[k].len() && group_texts(g).len() == g.len());
    assert(group_texts(g)[x] == path_text(g[x]) && group_texts(g)[y] == path_text(g[y]));
    assert(group_texts(c[k])[x] == group_texts(g)[x]);
    assert(group_texts(c[k])[y] == group_texts(g)[y]);
    assert(path_text(c[k][x]) == path_text(p));
    assert(path_text(c[k][y]) == path_text(q));
}

/// All paths of a canonical group come from one group: no aliases are made up.
pub proof fn law_aliases_are_given(s: Seq<Group>, k: int)
    requires
        0 <= k < canonical_groups(s).len(),
    ensures
        exists|i: int|
            0 <= i < s.len() && forall|p: HeapPath| #[trigger]
                canonical_groups(s)[k].contains(p) ==> (#[trigger] s[i]).contains(p),
{
    let g = canonical_groups(s)[k];
    assert(canonical_groups(s).contains(g));
    lemma_deduped_members(sorted_groups(real_groups(s)), g);
    lemma_sorted_groups_members(real_groups(s), g);
    lemma_real_groups_members(s, g);
    let i = choose|i: int| 0 <= i < s.len() && sorted_group(#[trigger] s[i]) == g;
    assert forall|p: HeapPath| #[trigger] g.contains(p) implies s[i].contains(p) by {
        law_sorted_group(s[i], path_text(p), p);
    }
}

/// Applying a summary is over where it gave results or met no aliases; otherwise a
/// summary for the aliases is tried unless that was done. What is over is complete
/// only if no states were dropped.
pub proof fn law_step(
    current: SpecializationV,
    dropped: bool,
    latent_invalid: bool,
    results: Seq<ExecutionV>,
    groups: Seq<Group>,
    tried: Seq<SpecializationV>,
)
    ensures
        ({
            let r = specialization_step(current, dropped, latent_invalid, results, groups, tried);
            &&& r is Done <==> results.len() > 0 || groups.len() == 0
            &&& r matches StepV::Done { incomplete } ==> (dropped ==> incomplete)
            &&& r matches StepV::Done { incomplete } ==> (incomplete ==> dropped || latent_invalid)
        }),
{
}

/// A path starts from the variable that what it goes through starts from.
pub proof fn law_path_root(p: HeapPath)
    ensures
        p matches HeapPath::Pvar(v) ==> path_root(p) == v,
        p matches HeapPath::FieldAccess(_, inner) ==> path_root(p) == path_root(*inner),
        p matches HeapPath::Dereference(inner) ==> path_root(p) == path_root(*inner),
{
}

} // verus!
