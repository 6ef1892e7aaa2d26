//! The canonical form of alias groups is canonical: it does not change when it is
//! made again.

use super::specialize::{
    canonical_groups, deduped, group_text, group_texts, insert_group, insert_path, path_text,
    real_groups, sorted_group, sorted_groups, specialization_step, with_aliases, Group, HeapPath,
    SpecializationV, StepV,
};
use crate::execution_domain::ExecutionV;
use crate::ordered::OrdKey;
use vstd::prelude::*;

verus! {

/// `a` comes before `b`.
pub open spec fn text_lt(a: Seq<char>, b: Seq<char>) -> bool {
    <String as OrdKey>::lt(a, b)
}

proof fn lemma_text_order(a: Seq<char>, b: Seq<char>, c: Seq<char>)
    ensures
        !text_lt(a, a),
        text_lt(a, b) ==> !text_lt(b, a),
        text_lt(a, b) && text_lt(b, c) ==> text_lt(a, c),
        text_lt(a, b) || a == b || text_lt(b, a),
{
    <String as OrdKey>::lt_irreflexive(a);
    <String as OrdKey>::lt_total(a, b);
    if text_lt(a, b) && text_lt(b, c) {
        <String as OrdKey>::lt_transitive(a, b, c);
    }
    if text_lt(a, b) && text_lt(b, a) {
        <String as OrdKey>::lt_transitive(a, b, a);
    }
}

/// The paths are in the order of their texts, and no text occurs twice.
pub open spec fn group_sorted(g: Group) -> bool {
    forall|i: int, j: int|
        0 <= i < j < g.len() ==> text_lt(path_text(#[trigger] g[i]), path_text(#[trigger] g[j]))
}

proof fn lemma_inserted_path(g: Group, p: HeapPath)
    requires
        group_sorted(g),
    ensures
        group_sorted(insert_path(g, p)),
        forall|i: int|
            #![trigger insert_path(g, p)[i]]
            0 <= i < insert_path(g, p).len() ==> insert_path(g, p)[i] == p || g.contains(
                insert_path(g, p)[i],
            ),
    decreases g.len(),
{
    let r = insert_path(g, p);
    if g.len() > 0 && path_text(g.last()) != path_text(p) {
        let rest = g.drop_last();
        let last = g.last();
        assert forall|i: int, j: int| 0 <= i < j < rest.len() implies text_lt(
            path_text(#[trigger] rest[i]),
            path_text(#[trigger] rest[j]),
        ) by {
            assert(rest[i] == g[i] && rest[j] == g[j]);
        }
        if text_lt(path_text(p), path_text(last)) {
            let t = insert_path(rest, p);
            lemma_inserted_path(rest, p);
            assert(r == t.push(last));
            assert forall|i: int| 0 <= i < t.len() implies (#[trigger] t[i] == p || g.contains(
                t[i],
            )) && text_lt(path_text(t[i]), path_text(last)) by {
                assert(insert_path(rest, p)[i] == t[i]);
                if t[i] != p {
                    let k = choose|k: int| 0 <= k < rest.len() && rest[k] == t[i];
                    assert(g[k] == t[i] && g[g.len() - 1] == last);
                }
            }
            assert forall|i: int| 0 <= i < r.len() implies (#[trigger] r[i] == p || g.contains(
                r[i],
            )) by {
                if i < t.len() {
                    assert(r[i] == t[i]);
                } else {
                    assert(g[g.len() - 1] == r[i]);
                }
            }
            assert forall|i: int, j: int| 0 <= i < j < r.len() implies text_lt(
                path_text(#[trigger] r[i]),
                path_text(#[trigger] r[j]),
            ) by {
                assert(r[i] == t[i]);
                if j < t.len() {
                    assert(r[j] == t[j]);
                }
            }
        } else {
            lemma_text_order(path_text(last), path_text(p), path_text(p));
            assert(r == g.push(p));
            assert forall|i: int, j: int| 0 <= i < j < r.len() implies text_lt(
                path_text(#[trigger] r[i]),
                path_text(#[trigger] r[j]),
            ) by {
                assert(r[i] == g[i]);
                if j < g.len() {
                    assert(r[j] == g[j]);
                } else {
                    assert(g[g.len() - 1] == last);
                    lemma_text_order(path_text(g[i]), path_text(last), path_text(p));
                }
            }
            assert forall|i: int| 0 <= i < r.len() implies (#[trigger] r[i] == p || g.contains(
                r[i],
            )) by {
                if i < g.len() {
                    assert(g[i] == r[i]);
                }
            }
        }
    } else if g.len() > 0 {
        assert forall|i: int| 0 <= i < r.len() implies (#[trigger] r[i] == p || g.contains(
            r[i],
        )) by {
            assert(g[i] == r[i]);
        }
    }
}

proof fn lemma_group_sorted(g: Group)
    ensures
        group_sorted(sorted_group(g)),
    decreases g.len(),
{
    if g.len() > 0 {
        lemma_group_sorted(g.drop_last());
        lemma_inserted_path(sorted_group(g.drop_last()), g.last());
    }
}

proof fn lemma_group_again(g: Group)
    requires
        group_sorted(g),
    ensures
        sorted_group(g) == g,
    decreases g.len(),
{
    if g.len() > 0 {
        let rest = g.drop_last();
        assert forall|i: int, j: int| 0 <= i < j < rest.len() implies text_lt(
            path_text(#[trigger] rest[i]),
            path_text(#[trigger] rest[j]),
        ) by {
            assert(rest[i] == g[i] && rest[j] == g[j]);
        }
        lemma_group_again(rest);
        if rest.len() > 0 {
            assert(rest.last() == g[g.len() - 2]);
            assert(g.last() == g[g.len() - 1]);
            lemma_text_order(path_text(rest.last()), path_text(g.last()), path_text(g.last()));
        }
        assert(rest.push(g.last()) =~= g);
        assert(seq![g.last()] =~= Seq::<HeapPath>::empty().push(g.last()));
        assert(rest.len() == 0 ==> g =~= seq![g.last()]);
    }
}

/// Each group is sorted and has more than one path.
spec fn all_real(s: Seq<Group>) -> bool {
    forall|i: int| 0 <= i < s.len() ==> group_sorted(#[trigger] s[i]) && s[i].len() > 1
}

/// The groups are in the order of their texts.
spec fn groups_sorted(s: Seq<Group>) -> bool {
    forall|i: int, j: int|
        0 <= i < j < s.len() ==> !text_lt(
            group_text(#[trigger] s[j]),
            group_text(#[trigger] s[i]),
        )
}

/// No two neighbours have the same texts.
spec fn neighbours_differ(s: Seq<Group>) -> bool {
    forall|i: int|
        0 <= i < s.len() - 1 ==> group_texts(#[trigger] s[i]) != group_texts(s[i + 1])
}

proof fn lemma_real_groups(s: Seq<Group>)
    ensures
        all_real(real_groups(s)),
    decreases s.len(),
{
    if s.len() > 0 {
        lemma_real_groups(s.drop_last());
        lemma_group_sorted(s.last());
    }
}

proof fn lemma_real_again(s: Seq<Group>)
    requires
        all_real(s),
    ensures
        real_groups(s) == s,
    decreases s.len(),
{
    if s.len() > 0 {
        let rest = s.drop_last();
        assert forall|i: int| 0 <= i < rest.len() implies group_sorted(#[trigger] rest[i])
            && rest[i].len() > 1 by {
            assert(rest[i] == s[i]);
        }
        lemma_real_again(rest);
        assert(s[s.len() - 1] == s.last());
        lemma_group_again(s.last());
        assert(rest.push(s.last()) =~= s);
    } else {
        assert(s =~= seq![]);
    }
}

proof fn lemma_inserted_group(s: Seq<Group>, g: Group)
    requires
        groups_sorted(s),
    ensures
        groups_sorted(insert_group(s, g)),
        forall|i: int|
            #![trigger insert_group(s, g)[i]]
            0 <= i < insert_group(s, g).len() ==> insert_group(s, g)[i] == g || s.contains(
                insert_group(s, g)[i],
            ),
    decreases s.len(),
{
    let r = insert_group(s, g);
    if s.len() > 0 {
        let rest = s.drop_last();
        let last = s.last();
        assert(s[s.len() - 1] == last);
        assert forall|i: int, j: int| 0 <= i < j < rest.len() implies !text_lt(
            group_text(#[trigger] rest[j]),
            group_text(#[trigger] rest[i]),
        ) by {
            assert(rest[i] == s[i] && rest[j] == s[j]);
        }
        if text_lt(group_text(g), group_text(last)) {
            let t = insert_group(rest, g);
            lemma_inserted_group(rest, g);
            assert(r == t.push(last));
            assert forall|i: int| 0 <= i < t.len() implies (#[trigger] t[i] == g || s.contains(
                t[i],
            )) && !text_lt(group_text(last), group_text(t[i])) by {
                assert(insert_group(rest, g)[i] == t[i]);
                lemma_text_order(group_text(g), group_text(last), group_text(g));
                if t[i] != g {
                    let k = choose|k: int| 0 <= k < rest.len() && rest[k] == t[i];
                    assert(s[k] == t[i]);
                }
            }
            assert forall|i: int| 0 <= i < r.len() implies (#[trigger] r[i] == g || s.contains(
                r[i],
            )) by {
                if i < t.len() {
                    assert(r[i] == t[i]);
                }
            }
            assert forall|i: int, j: int| 0 <= i < j < r.len() implies !text_lt(
                group_text(#[trigger] r[j]),
                group_text(#[trigger] r[i]),
            ) by {
                assert(r[i] == t[i]);
                if j < t.len() {
                    assert(r[j] == t[j]);
                }
            }
        } else {
            assert(r == s.push(g));
            assert forall|i: int, j: int| 0 <= i < j < r.len() implies !text_lt(
                group_text(#[trigger] r[j]),
                group_text(#[trigger] r[i]),
            ) by {
                assert(r[i] == s[i]);
                if j < s.len() {
                    assert(r[j] == s[j]);
                } else if i < s.len() - 1 {
                    lemma_text_order(group_text(s[i]), group_text(last), group_text(last));
                    lemma_text_order(group_text(g), group_text(s[i]), group_text(last));
                }
            }
            assert forall|i: int| 0 <= i < r.len() implies (#[trigger] r[i] == g || s.contains(
                r[i],
            )) by {
                if i < s.len() {
                    assert(s[i] == r[i]);
                }
            }
        }
    }
}

proof fn lemma_sorted_groups(s: Seq<Group>)
    requires
        all_real(s),
    ensures
        groups_sorted(sorted_groups(s)),
        all_real(sorted_groups(s)),
    decreases s.len(),
{
    if s.len() > 0 {
        let rest = s.drop_last();
        assert forall|i: int| 0 <= i < rest.len() implies group_sorted(#[trigger] rest[i])
            && rest[i].len() > 1 by {
            assert(rest[i] == s[i]);
        }
        lemma_sorted_groups(rest);
        let t = sorted_groups(rest);
        lemma_inserted_group(t, s.last());
        let r = sorted_groups(s);
        assert(s[s.len() - 1] == s.last());
        assert forall|i: int| 0 <= i < r.len() implies group_sorted(#[trigger] r[i]) && r[i].len()
            > 1 by {
            assert(insert_group(t, s.last())[i] == r[i]);
            if r[i] != s.last() {
                let k = choose|k: int| 0 <= k < t.len() && t[k] == r[i];
                assert(group_sorted(t[k]));
            }
        }
    }
}

proof fn lemma_sorted_groups_again(s: Seq<Group>)
    requires
        groups_sorted(s),
    ensures
        sorted_groups(s) == s,
    decreases s.len(),
{
    if s.len() > 0 {
        let rest = s.drop_last();
        assert forall|i: int, j: int| 0 <= i < j < rest.len() implies !text_lt(
            group_text(#[trigger] rest[j]),
            group_text(#[trigger] rest[i]),
        ) by {
            assert(rest[i] == s[i] && rest[j] == s[j]);
        }
        lemma_sorted_groups_again(rest);
        if rest.len() > 0 {
            assert(rest.last() == s[s.len() - 2]);
            assert(s.last() == s[s.len() - 1]);
        }
        assert(rest.push(s.last()) =~= s);
        assert(rest.len() == 0 ==> s =~= seq![s.last()]);
    } else {
        assert(s =~= seq![]);
    }
}

proof fn lemma_deduped(s: Seq<Group>)
    requires
        groups_sorted(s),
        all_real(s),
    ensures
        groups_sorted(deduped(s)),
        all_real(deduped(s)),
        neighbours_differ(deduped(s)),
        forall|i: int|
            #![trigger deduped(s)[i]]
            0 <= i < deduped(s).len() ==> s.contains(deduped(s)[i]),
    decreases s.len(),
{
    if s.len() > 0 {
        let rest = s.drop_last();
        let d = deduped(rest);
        let r = deduped(s);
        assert(s[s.len() - 1] == s.last());
        assert forall|i: int, j: int| 0 <= i < j < rest.len() implies !text_lt(
            group_text(#[trigger] rest[j]),
            group_text(#[trigger] rest[i]),
        ) by {
            assert(rest[i] == s[i] && rest[j] == s[j]);
        }
        assert forall|i: int| 0 <= i < rest.len() implies group_sorted(#[trigger] rest[i])
            && rest[i].len() > 1 by {
            assert(rest[i] == s[i]);
        }
        lemma_deduped(rest);
        assert forall|i: int| 0 <= i < d.len() implies s.contains(#[trigger] d[i]) && !text_lt(
            group_text(s.last()),
            group_text(d[i]),
        ) by {
            assert(deduped(rest)[i] == d[i]);
            let k = choose|k: int| 0 <= k < rest.len() && rest[k] == d[i];
            assert(s[k] == d[i]);
        }
        if r != d {
            assert(r == d.push(s.last()));
            assert forall|i: int, j: int| 0 <= i < j < r.len() implies !text_lt(
                group_text(#[trigger] r[j]),
                group_text(#[trigger] r[i]),
            ) by {
                assert(r[i] == d[i]);
                if j < d.len() {
                    assert(r[j] == d[j]);
                }
            }
            assert forall|i: int| 0 <= i < r.len() - 1 implies group_texts(#[trigger] r[i])
                != group_texts(r[i + 1]) by {
                assert(r[i] == d[i]);
                if i + 1 < d.len() {
                    assert(r[i + 1] == d[i + 1]);
                } else {
                    assert(d.last() == d[i]);
                }
            }
            assert forall|i: int| 0 <= i < r.len() implies s.contains(#[trigger] r[i]) by {
                if i < d.len() {
                    assert(r[i] == d[i]);
                }
            }
            assert forall|i: int| 0 <= i < r.len() implies group_sorted(#[trigger] r[i])
                && r[i].len() > 1 by {
                if i < d.len() {
                    assert(r[i] == d[i]);
                }
            }
        }
    }
}

proof fn lemma_deduped_again(s: Seq<Group>)
    requires
        neighbours_differ(s),
    ensures
        deduped(s) == s,
    decreases s.len(),
{
    if s.len() > 0 {
        let rest = s.drop_last();
        assert forall|i: int| 0 <= i < rest.len() - 1 implies group_texts(#[trigger] rest[i])
            != group_texts(rest[i + 1]) by {
            assert(rest[i] == s[i] && rest[i + 1] == s[i + 1]);
        }
        lemma_deduped_again(rest);
        if rest.len() > 0 {
            let k = s.len() - 2;
            assert(group_texts(s[k]) != group_texts(s[k + 1]));
            assert(rest.last() == s[k]);
        }
        assert(rest.push(s.last()) =~= s);
    }
}

/// Alias groups in canonical form are their own canonical form.
pub proof fn law_canonical_is_stable(s: Seq<Group>)
    ensures
        canonical_groups(canonical_groups(s)) == canonical_groups(s),
{
    let c = canonical_groups(s);
    lemma_real_groups(s);
    lemma_sorted_groups(real_groups(s));
    lemma_deduped(sorted_groups(real_groups(s)));
    lemma_real_again(c);
    lemma_sorted_groups_again(c);
    lemma_deduped_again(c);
}

/// Groups in canonical form have at least two paths each, in the order of their
/// texts and without repetition.
pub proof fn law_canonical_groups(s: Seq<Group>, i: int)
    requires
        0 <= i < canonical_groups(s).len(),
    ensures
        canonical_groups(s)[i].len() > 1,
        group_sorted(canonical_groups(s)[i]),
{
    lemma_real_groups(s);
    lemma_sorted_groups(real_groups(s));
    lemma_deduped(sorted_groups(real_groups(s)));
    assert(group_sorted(canonical_groups(s)[i]));
}

/// A specialization is tried only if it is not the current one and was not tried
/// before, so the search for one that applies ends.
pub proof fn law_try_is_new(
    current: SpecializationV,
    dropped: bool,
    latent_invalid: bool,
    results: Seq<ExecutionV>,
    groups: Seq<Group>,
    tried: Seq<SpecializationV>,
)
    ensures
        specialization_step(current, dropped, latent_invalid, results, groups, tried) matches
            StepV::Try(next) ==> {
            &&& next != current
            &&& !tried.contains(next)
            &&& next.dynamic_types == current.dynamic_types
            &&& next == with_aliases(current, groups)
        },
{
}

} // verus!
