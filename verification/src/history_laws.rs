//! What histories say of how a value became invalid, and what merging them keeps.

use crate::invalidation::Invalidation;
use crate::key::Keyed;
use crate::list::lemma_list_of;
use crate::sil::Location;
use crate::value_history::{
    call_before_invalidated, first_invalidated, has_path, invalidated_before_call, joined_paths,
    HistoryEvent, HistoryPath, ValueHistory,
};
use vstd::prelude::*;

verus! {

/// The event at `i` invalidates the value for this reason at this place.
pub open spec fn invalidates_at(
    s: Seq<HistoryEvent>,
    i: int,
    invalidation: Invalidation,
    location: Location,
) -> bool {
    0 <= i < s.len() && s[i] == (HistoryEvent::Invalidated { invalidation, location })
}

/// No event before `i` is an invalidation.
pub open spec fn valid_until(s: Seq<HistoryEvent>, i: int) -> bool {
    forall|j: int| 0 <= j < i ==> !((#[trigger] s[j]) is Invalidated)
}

/// No event before `i` is a call.
pub open spec fn no_call_until(s: Seq<HistoryEvent>, i: int) -> bool {
    forall|j: int| 0 <= j < i ==> !((#[trigger] s[j]) is Call)
}

/// The first invalidation found is the first there is.
pub proof fn law_first_invalidated(s: Seq<HistoryEvent>)
    ensures
        match first_invalidated(s) {
            Some((invalidation, location)) => exists|i: int| #[trigger]
                invalidates_at(s, i, invalidation, location) && valid_until(s, i),
            None => valid_until(s, s.len() as int),
        },
    decreases s.len(),
{
    if s.len() > 0 {
        let t = s.drop_first();
        law_first_invalidated(t);
        match s[0] {
            HistoryEvent::Invalidated { invalidation, location } => {
                assert(first_invalidated(s) == Some((invalidation, location)));
                assert(invalidates_at(s, 0, invalidation, location) && valid_until(s, 0));
                assert(exists|i: int| #[trigger]
                    invalidates_at(s, i, invalidation, location) && valid_until(s, i));
            },
            _ => match first_invalidated(t) {
                Some((invalidation, location)) => {
                    let i = choose|i: int| #[trigger]
                        invalidates_at(t, i, invalidation, location) && valid_until(t, i);
                    assert(invalidates_at(s, i + 1, invalidation, location));
                    assert forall|j: int| 0 <= j < i + 1 implies !((
                    #[trigger] s[j]) is Invalidated) by {
                        if j > 0 {
                            assert(s[j] == t[j - 1]);
                        }
                    }
                    assert(valid_until(s, i + 1));
                    assert(first_invalidated(s) == Some((invalidation, location)));
                    assert(invalidates_at(s, i + 1, invalidation, location) && valid_until(s, i + 1));
                    assert(exists|i: int| #[trigger]
                        invalidates_at(s, i, invalidation, location) && valid_until(s, i));
                },
                None => {
                    assert forall|j: int| 0 <= j < s.len() implies !((
                    #[trigger] s[j]) is Invalidated) by {
                        if j > 0 {
                            assert(s[j] == t[j - 1]);
                        }
                    }
                    assert(valid_until(s, s.len() as int));
                    assert(first_invalidated(s) is None);
                },
            },
        }
    }
}

/// An invalidation outside calls is one that neither a call nor another invalidation
/// precedes; there is none only where a call precedes every invalidation.
pub proof fn law_invalidated_before_call(s: Seq<HistoryEvent>, k: int)
    ensures
        invalidated_before_call(s) matches Some((invalidation, location)) ==> exists|i: int| #[trigger]
            invalidates_at(s, i, invalidation, location) && valid_until(s, i) && no_call_until(s, i),
        invalidated_before_call(s) is None && 0 <= k < s.len() && s[k] is Invalidated
            ==> !no_call_until(s, k),
    decreases s.len(),
{
    if s.len() > 0 {
        let t = s.drop_first();
        law_invalidated_before_call(t, k - 1);
        match s[0] {
            HistoryEvent::Invalidated { invalidation, location } => {
                assert(invalidated_before_call(s) == Some((invalidation, location)));
                assert(invalidates_at(s, 0, invalidation, location));
            },
            HistoryEvent::Call { .. } => {},
            _ => {
                if let Some((invalidation, location)) = invalidated_before_call(t) {
                    let i = choose|i: int| #[trigger]
                        invalidates_at(t, i, invalidation, location) && valid_until(t, i)
                            && no_call_until(t, i);
                    assert(invalidates_at(s, i + 1, invalidation, location));
                    assert forall|j: int| 0 <= j < i + 1 implies !((
                    #[trigger] s[j]) is Invalidated) by {
                        if j > 0 {
                            assert(s[j] == t[j - 1]);
                        }
                    }
                    assert forall|j: int| 0 <= j < i + 1 implies !((#[trigger] s[j]) is Call) by {
                        if j > 0 {
                            assert(s[j] == t[j - 1]);
                        }
                    }
                    assert(valid_until(s, i + 1) && no_call_until(s, i + 1));
                    assert(invalidated_before_call(s) == Some((invalidation, location)));
                }
                if 0 < k < s.len() && s[k] is Invalidated && no_call_until(s, k) {
                    assert(t[k - 1] == s[k]);
                    assert forall|j: int| 0 <= j < k - 1 implies !((#[trigger] t[j]) is Call) by {
                        assert(t[j] == s[j + 1]);
                    }
                }
            },
        }
        if 0 < k < s.len() {
            assert(s[k] == t[k - 1]);
        }
    }
}

/// The call that a value was invalidated in is the first call, before any
/// invalidation, and one follows it. There is none only where no call has an
/// invalidation behind and none before it.
pub proof fn law_call_before_invalidated(s: Seq<HistoryEvent>, k: int, n: int)
    ensures
        call_before_invalidated(s) matches Some((proc, location)) ==> exists|i: int|
            0 <= i < s.len() && (#[trigger] s[i]) == (HistoryEvent::Call { proc, location })
                && valid_until(s, i) && no_call_until(s, i) && !valid_until(s, s.len() as int),
        call_before_invalidated(s) is None && 0 <= k < n < s.len() && s[k] is Call
            && s[n] is Invalidated ==> !valid_until(s, k),
    decreases s.len(),
{
    if s.len() > 0 {
        let t = s.drop_first();
        law_call_before_invalidated(t, k - 1, n - 1);
        law_first_invalidated(t);
        if 0 < k < s.len() {
            assert(t[k - 1] == s[k]);
        }
        if 0 < n < s.len() {
            assert(t[n - 1] == s[n]);
        }
        match s[0] {
            HistoryEvent::Invalidated { .. } => {},
            HistoryEvent::Call { proc, location } => {
                if let Some((invalidation, place)) = first_invalidated(t) {
                    let i = choose|i: int| #[trigger]
                        invalidates_at(t, i, invalidation, place) && valid_until(t, i);
                    assert(s[i + 1] == t[i]);
                    assert(!valid_until(s, s.len() as int));
                    assert(s[0] == (HistoryEvent::Call { proc, location }));
                }
            },
            _ => {
                if let Some((proc, location)) = call_before_invalidated(t) {
                    let i = choose|i: int|
                        0 <= i < t.len() && (#[trigger] t[i]) == (HistoryEvent::Call {
                            proc,
                            location,
                        }) && valid_until(t, i) && no_call_until(t, i) && !valid_until(
                            t,
                            t.len() as int,
                        );
                    assert(s[i + 1] == t[i]);
                    assert forall|j: int| 0 <= j < i + 1 implies !((
                    #[trigger] s[j]) is Invalidated) by {
                        if j > 0 {
                            assert(s[j] == t[j - 1]);
                        }
                    }
                    assert forall|j: int| 0 <= j < i + 1 implies !((#[trigger] s[j]) is Call) by {
                        if j > 0 {
                            assert(s[j] == t[j - 1]);
                        }
                    }
                    let q = choose|q: int| 0 <= q < t.len() && (#[trigger] t[q]) is Invalidated;
                    assert(s[q + 1] == t[q]);
                }
                if 0 < k < n < s.len() && s[k] is Call && s[n] is Invalidated && valid_until(s, k) {
                    assert forall|j: int| 0 <= j < k - 1 implies !((
                    #[trigger] t[j]) is Invalidated) by {
                        assert(t[j] == s[j + 1]);
                    }
                }
            },
        }
    }
}

/// Joining paths keeps those of the first in front, has every path of both, no other,
/// and repeats none.
pub proof fn law_joined_paths(a: Seq<HistoryPath>, b: Seq<HistoryPath>, p: HistoryPath)
    ensures
        a.is_prefix_of(joined_paths(a, b)),
        has_path(joined_paths(a, b), p) <==> has_path(a, p) || has_path(b, p),
        paths_distinct(a) ==> paths_distinct(joined_paths(a, b)),
    decreases b.len(),
{
    if b.len() > 0 {
        let t = b.drop_first();
        let first = b[0];
        if has_path(b, p) {
            let i = choose|i: int| 0 <= i < b.len() && (#[trigger] b[i]).key() == p.key();
            if i > 0 {
                assert(t[i - 1] == b[i]);
            }
        }
        if has_path(t, p) {
            let i = choose|i: int| 0 <= i < t.len() && (#[trigger] t[i]).key() == p.key();
            assert(b[i + 1] == t[i]);
        }
        if has_path(a, first) {
            law_joined_paths(a, t, p);
            if p.key() == first.key() {
                let i = choose|i: int| 0 <= i < a.len() && (#[trigger] a[i]).key() == first.key();
                assert(a[i].key() == p.key());
            }
        } else {
            let c = a.push(first);
            law_joined_paths(c, t, p);
            assert(a.is_prefix_of(c));
            if has_path(a, p) {
                let i = choose|i: int| 0 <= i < a.len() && (#[trigger] a[i]).key() == p.key();
                assert(c[i] == a[i]);
            }
            if has_path(c, p) {
                let i = choose|i: int| 0 <= i < c.len() && (#[trigger] c[i]).key() == p.key();
                if i < a.len() {
                    assert(a[i] == c[i]);
                } else {
                    assert(b[0].key() == p.key());
                }
            }
            if p.key() == first.key() {
                assert(c[a.len() as int].key() == p.key());
            }
            if paths_distinct(a) {
                assert forall|i: int, j: int| 0 <= i < j < c.len() implies (
                #[trigger] c[i]).key() != (#[trigger] c[j]).key() by {
                    if j == a.len() {
                        assert(a[i].key() != first.key());
                    }
                }
            }
        }
    } else {
        assert(!has_path(b, p));
    }
}

/// No two paths are the same.
pub open spec fn paths_distinct(s: Seq<HistoryPath>) -> bool {
    forall|i: int, j: int| 0 <= i < j < s.len() ==> (#[trigger] s[i]).key() != (#[trigger] s[j]).key()
}

/// A merged history has every path of both histories and no other; the first path
/// stays the first.
pub proof fn law_merged(a: ValueHistory, b: ValueHistory, p: HistoryPath)
    ensures
        has_path(a.merged(b).paths@, p) <==> has_path(a.paths@, p) || has_path(b.paths@, p),
        a.paths@.len() > 0 ==> a.merged(b).primary() == a.primary(),
        a.paths@.len() == 0 && b.paths@.len() > 0 ==> a.merged(b).primary() == b.primary(),
{
    let s = joined_paths(a.paths@, b.paths@);
    lemma_list_of(s);
    law_joined_paths(a.paths@, b.paths@, p);
    if a.paths@.len() == 0 && b.paths@.len() > 0 {
        assert(!has_path(a.paths@, b.paths@[0]));
        let c = a.paths@.push(b.paths@[0]);
        law_joined_paths(c, b.paths@.drop_first(), p);
        assert(s == joined_paths(c, b.paths@.drop_first()));
        assert(c[0] == s[0]);
    }
}

} // verus!
