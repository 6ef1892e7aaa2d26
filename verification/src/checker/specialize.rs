//! Specialization: which variant of a callee's summary to apply, and which to ask
//! for.

use super::disjuncts::{exec_views, has_continue_program, some_continue};
use super::scan::PrePostKind;
use crate::diagnostic::Diagnostic;
use crate::execution_domain::{ExecutionDomain, ExecutionV};
use crate::key::{number_key, push_number, same_key, Key, KeyV, Keyed};
use crate::list::Twin;
use crate::ordered::{Comparison, OrdKey};
use crate::sil::{Fieldname, Procname, Pvar, Typ};
use vstd::prelude::*;

verus! {

/// A place in the heap, as a path from a variable.
#[derive(Debug, PartialEq, Eq)]
pub enum HeapPath {
    Pvar(Pvar),
    FieldAccess(Fieldname, Box<HeapPath>),
    Dereference(Box<HeapPath>),
}

/// A path as text.
pub open spec fn path_text(p: HeapPath) -> Seq<char>
    decreases p,
{
    match p {
        HeapPath::Pvar(pvar) => pvar.name.name@,
        HeapPath::FieldAccess(field, inner) => path_text(*inner) + "."@ + field.field_name@,
        HeapPath::Dereference(inner) => "*("@ + path_text(*inner) + ")"@,
    }
}

/// The variable that a path starts from.
pub open spec fn path_root(p: HeapPath) -> Pvar
    decreases p,
{
    match p {
        HeapPath::Pvar(pvar) => pvar,
        HeapPath::FieldAccess(_, inner) => path_root(*inner),
        HeapPath::Dereference(inner) => path_root(*inner),
    }
}

impl Clone for HeapPath {
    fn clone(&self) -> (r: Self)
        ensures
            r == *self,
        decreases self,
    {
        match self {
            HeapPath::Pvar(pvar) => HeapPath::Pvar(pvar.clone()),
            HeapPath::FieldAccess(field, inner) => HeapPath::FieldAccess(
                field.clone(),
                Box::new((**inner).clone()),
            ),
            HeapPath::Dereference(inner) => HeapPath::Dereference(Box::new((**inner).clone())),
        }
    }
}

impl Twin for HeapPath {
    fn twin(&self) -> (r: Self) {
        self.clone()
    }
}

/// What identifies a path: its steps, with the classes of its fields, and the
/// variable that it starts from.
pub open spec fn path_key(p: HeapPath) -> KeyV
    decreases p,
{
    match p {
        HeapPath::Pvar(pvar) => number_key(0) + pvar.key(),
        HeapPath::FieldAccess(field, inner) => number_key(1) + field.key() + path_key(*inner),
        HeapPath::Dereference(inner) => number_key(2) + path_key(*inner),
    }
}

fn push_path_key(path: &HeapPath, out: &mut Key)
    ensures
        final(out)@ == old(out)@ + path_key(*path),
    decreases path,
{
    let ghost before = out@;
    match path {
        HeapPath::Pvar(pvar) => {
            push_number(out, 0);
            pvar.push_key(out);
        },
        HeapPath::FieldAccess(field, inner) => {
            push_number(out, 1);
            field.push_key(out);
            push_path_key(inner, out);
        },
        HeapPath::Dereference(inner) => {
            push_number(out, 2);
            push_path_key(inner, out);
        },
    }
    assert(out@ =~= before + path_key(*path));
}

impl Keyed for HeapPath {
    open spec fn key(&self) -> KeyV {
        path_key(*self)
    }

    fn push_key(&self, out: &mut Key) {
        push_path_key(self, out);
    }
}

impl HeapPath {
    pub fn push_text(&self, out: &mut String)
        ensures
            final(out)@ == old(out)@ + path_text(*self),
        decreases self,
    {
        let ghost before = out@;
        match self {
            HeapPath::Pvar(pvar) => out.append(pvar.name.name.as_str()),
            HeapPath::FieldAccess(field, inner) => {
                inner.push_text(out);
                out.append(".");
                out.append(field.field_name.as_str());
            },
            HeapPath::Dereference(inner) => {
                out.append("*(");
                inner.push_text(out);
                out.append(")");
            },
        }
        assert(out@ =~= before + path_text(*self));
    }

    /// The path as a string.
    pub fn to_string(&self) -> (r: String)
        ensures
            r@ == path_text(*self),
    {
        let mut out = String::new();
        self.push_text(&mut out);
        assert(Seq::<char>::empty() + path_text(*self) =~= path_text(*self));
        out
    }
}

/// The variable that a path starts from.
pub fn extract_root_pvar(path: &HeapPath) -> (r: &Pvar)
    ensures
        *r == path_root(*path),
    decreases path,
{
    match path {
        HeapPath::Pvar(pvar) => pvar,
        HeapPath::FieldAccess(_, inner) => extract_root_pvar(inner),
        HeapPath::Dereference(inner) => extract_root_pvar(inner),
    }
}

/// A group of paths that lead to the same place.
pub type Group = Seq<HeapPath>;

/// Groups of paths.
pub open spec fn group_views(s: Seq<Vec<HeapPath>>) -> Seq<Group> {
    s.map_values(|g: Vec<HeapPath>| g@)
}

/// The texts of a group.
pub open spec fn group_texts(g: Group) -> Seq<Seq<char>> {
    g.map_values(|p: HeapPath| path_text(p))
}

/// `g`, sorted by text, with `p` unless a path with its text is there.
pub open spec fn insert_path(g: Group, p: HeapPath) -> Group
    decreases g.len(),
{
    if g.len() == 0 {
        seq![p]
    } else if path_text(g.last()) == path_text(p) {
        g
    } else if <String as OrdKey>::lt(path_text(p), path_text(g.last())) {
        insert_path(g.drop_last(), p).push(g.last())
    } else {
        g.push(p)
    }
}

/// The paths of `g` sorted by text, one for each text: the first.
pub open spec fn sorted_group(g: Group) -> Group
    decreases g.len(),
{
    if g.len() == 0 {
        seq![]
    } else {
        insert_path(sorted_group(g.drop_last()), g.last())
    }
}

/// A group as text, its paths joined by equality signs.
pub open spec fn group_text(g: Group) -> Seq<char>
    decreases g.len(),
{
    if g.len() == 0 {
        seq![]
    } else if g.len() == 1 {
        path_text(g[0])
    } else {
        group_text(g.drop_last()) + " = "@ + path_text(g.last())
    }
}

/// The sorted groups with more than one path.
pub open spec fn real_groups(s: Seq<Group>) -> Seq<Group>
    decreases s.len(),
{
    if s.len() == 0 {
        seq![]
    } else {
        let rest = real_groups(s.drop_last());
        let g = sorted_group(s.last());
        if g.len() > 1 {
            rest.push(g)
        } else {
            rest
        }
    }
}

/// `s`, sorted by text, with `g` put behind the groups whose text is not larger.
pub open spec fn insert_group(s: Seq<Group>, g: Group) -> Seq<Group>
    decreases s.len(),
{
    if s.len() == 0 {
        seq![g]
    } else if <String as OrdKey>::lt(group_text(g), group_text(s.last())) {
        insert_group(s.drop_last(), g).push(s.last())
    } else {
        s.push(g)
    }
}

/// The groups sorted by text.
pub open spec fn sorted_groups(s: Seq<Group>) -> Seq<Group>
    decreases s.len(),
{
    if s.len() == 0 {
        seq![]
    } else {
        insert_group(sorted_groups(s.drop_last()), s.last())
    }
}

/// `s` without groups that have the same texts as the one before them.
pub open spec fn deduped(s: Seq<Group>) -> Seq<Group>
    decreases s.len(),
{
    if s.len() == 0 {
        s
    } else {
        let rest = deduped(s.drop_last());
        if rest.len() > 0 && group_texts(rest.last()) == group_texts(s.last()) {
            rest
        } else {
            rest.push(s.last())
        }
    }
}

/// Alias groups in canonical form: each sorted and without repetition, those of a
/// single path dropped, and the groups sorted and without repetition.
pub open spec fn canonical_groups(s: Seq<Group>) -> Seq<Group> {
    deduped(sorted_groups(real_groups(s)))
}

proof fn lemma_insert_path_at(g: Group, p: HeapPath, i: int)
    requires
        0 <= i <= g.len(),
        forall|j: int|
            i <= j < g.len() ==> <String as OrdKey>::lt(
                path_text(p),
                path_text(#[trigger] g[j]),
            ) && path_text(g[j]) != path_text(p),
    ensures
        i > 0 && path_text(g[i - 1]) == path_text(p) ==> insert_path(g, p) == g,
        (i > 0 ==> path_text(g[i - 1]) != path_text(p) && !<String as OrdKey>::lt(
            path_text(p),
            path_text(g[i - 1]),
        )) ==> insert_path(g, p) == g.insert(i, p),
    decreases g.len(),
{
    if i == g.len() {
        assert(g.insert(i, p) =~= g.push(p));
        if g.len() == 0 {
            assert(g.push(p) =~= seq![p]);
        }
    } else {
        assert(g[g.len() - 1] == g.last());
        let rest = g.drop_last();
        assert forall|j: int| i <= j < rest.len() implies <String as OrdKey>::lt(
            path_text(p),
            path_text(#[trigger] rest[j]),
        ) && path_text(rest[j]) != path_text(p) by {
            assert(rest[j] == g[j]);
        }
        lemma_insert_path_at(rest, p, i);
        if i > 0 {
            assert(rest[i - 1] == g[i - 1]);
        }
        assert(rest.push(g.last()) =~= g);
        assert(rest.insert(i, p).push(g.last()) =~= g.insert(i, p));
    }
}

fn insert_path_sorted(group: &mut Vec<HeapPath>, path: HeapPath)
    ensures
        final(group)@ == insert_path(old(group)@, path),
{
    let ghost g = group@;
    let text = path.to_string();
    let mut i: usize = group.len();
    while i > 0
        invariant
            group@ == g,
            g == old(group)@,
            text@ == path_text(path),
            i <= g.len(),
            forall|j: int|
                i <= j < g.len() ==> <String as OrdKey>::lt(
                    path_text(path),
                    path_text(#[trigger] g[j]),
                ) && path_text(g[j]) != path_text(path),
        decreases i,
    {
        let other = group[i - 1].to_string();
        match text.compare(&other) {
            Comparison::Less => {
                proof {
                    if text@ == other@ {
                        <String as OrdKey>::lt_irreflexive(text@);
                    }
                }
                i = i - 1;
            },
            Comparison::Equal => {
                proof {
                    lemma_insert_path_at(g, path, i as int);
                }
                return;
            },
            Comparison::Greater => {
                proof {
                    if <String as OrdKey>::lt(text@, other@) {
                        <String as OrdKey>::lt_transitive(text@, other@, text@);
                        <String as OrdKey>::lt_irreflexive(text@);
                    }
                    if text@ == other@ {
                        <String as OrdKey>::lt_irreflexive(text@);
                    }
                    lemma_insert_path_at(g, path, i as int);
                }
                group.insert(i, path);
                return;
            },
        }
    }
    proof {
        lemma_insert_path_at(g, path, 0);
    }
    group.insert(0, path);
}

fn sort_group(group: &Vec<HeapPath>) -> (r: Vec<HeapPath>)
    ensures
        r@ == sorted_group(group@),
{
    let mut r: Vec<HeapPath> = Vec::new();
    let mut i: usize = 0;
    assert(group@.take(0) =~= Seq::<HeapPath>::empty());
    while i < group.len()
        invariant
            i <= group@.len(),
            r@ == sorted_group(group@.take(i as int)),
        decreases group@.len() - i,
    {
        let ghost t = group@.take(i + 1);
        assert(t.drop_last() =~= group@.take(i as int));
        assert(t.last() == group@[i as int]);
        insert_path_sorted(&mut r, group[i].clone());
        i = i + 1;
    }
    assert(group@.take(i as int) =~= group@);
    r
}

fn text_of_group(group: &Vec<HeapPath>) -> (r: String)
    ensures
        r@ == group_text(group@),
{
    let mut out = String::new();
    let mut i: usize = 0;
    while i < group.len()
        invariant
            i <= group@.len(),
            out@ == group_text(group@.take(i as int)),
        decreases group@.len() - i,
    {
        let ghost t = group@.take(i + 1);
        assert(t.drop_last() =~= group@.take(i as int));
        assert(t.last() == group@[i as int]);
        if i > 0 {
            out.append(" = ");
        }
        group[i].push_text(&mut out);
        assert(out@ =~= group_text(t));
        i = i + 1;
    }
    assert(group@.take(i as int) =~= group@);
    out
}

proof fn lemma_insert_group_at(s: Seq<Group>, g: Group, i: int)
    requires
        0 <= i <= s.len(),
        forall|j: int|
            i <= j < s.len() ==> <String as OrdKey>::lt(
                group_text(g),
                group_text(#[trigger] s[j]),
            ),
        i > 0 ==> !<String as OrdKey>::lt(group_text(g), group_text(s[i - 1])),
    ensures
        insert_group(s, g) == s.insert(i, g),
    decreases s.len(),
{
    if i == s.len() {
        assert(s.insert(i, g) =~= s.push(g));
        if s.len() == 0 {
            assert(s.push(g) =~= seq![g]);
        }
    } else {
        assert(s[s.len() - 1] == s.last());
        let rest = s.drop_last();
        assert forall|j: int| i <= j < rest.len() implies <String as OrdKey>::lt(
            group_text(g),
            group_text(#[trigger] rest[j]),
        ) by {
            assert(rest[j] == s[j]);
        }
        lemma_insert_group_at(rest, g, i);
        assert(rest.insert(i, g).push(s.last()) =~= s.insert(i, g));
    }
}

fn insert_group_sorted(groups: &mut Vec<Vec<HeapPath>>, group: Vec<HeapPath>)
    ensures
        group_views(final(groups)@) == insert_group(group_views(old(groups)@), group@),
{
    let ghost s = group_views(groups@);
    let ghost before = groups@;
    let text = text_of_group(&group);
    let mut i: usize = groups.len();
    while i > 0
        invariant_except_break
            groups@ == before,
            s == group_views(before),
            text@ == group_text(group@),
            i <= s.len(),
            forall|j: int|
                i <= j < s.len() ==> <String as OrdKey>::lt(
                    group_text(group@),
                    group_text(#[trigger] s[j]),
                ),
        ensures
            groups@ == before,
            i <= s.len(),
            forall|j: int|
                i <= j < s.len() ==> <String as OrdKey>::lt(
                    group_text(group@),
                    group_text(#[trigger] s[j]),
                ),
            i > 0 ==> !<String as OrdKey>::lt(group_text(group@), group_text(s[i - 1])),
        decreases i,
    {
        let other = text_of_group(&groups[i - 1]);
        assert(s[i - 1] == before[i - 1]@);
        match text.compare(&other) {
            Comparison::Less => {
                i = i - 1;
            },
            Comparison::Equal => {
                proof {
                    <String as OrdKey>::lt_irreflexive(text@);
                }
                break;
            },
            Comparison::Greater => {
                proof {
                    if <String as OrdKey>::lt(text@, other@) {
                        <String as OrdKey>::lt_transitive(text@, other@, text@);
                        <String as OrdKey>::lt_irreflexive(text@);
                    }
                }
                break;
            },
        }
    }
    proof {
        lemma_insert_group_at(s, group@, i as int);
    }
    groups.insert(i, group);
    assert(group_views(groups@) =~= s.insert(i as int, group@));
}

fn same_group_texts(a: &Vec<HeapPath>, b: &Vec<HeapPath>) -> (r: bool)
    ensures
        r == (group_texts(a@) == group_texts(b@)),
{
    if a.len() != b.len() {
        assert(group_texts(a@).len() != group_texts(b@).len());
        return false;
    }
    let mut i: usize = 0;
    while i < a.len()
        invariant
            a@.len() == b@.len(),
            i <= a@.len(),
            forall|j: int| 0 <= j < i ==> group_texts(a@)[j] == #[trigger] group_texts(b@)[j],
        decreases a@.len() - i,
    {
        if a[i].to_string() != b[i].to_string() {
            assert(group_texts(a@)[i as int] != group_texts(b@)[i as int]);
            return false;
        }
        i = i + 1;
    }
    assert(group_texts(a@) =~= group_texts(b@));
    true
}

fn clone_group(group: &Vec<HeapPath>) -> (r: Vec<HeapPath>)
    ensures
        r@ == group@,
{
    let mut r: Vec<HeapPath> = Vec::new();
    let mut i: usize = 0;
    while i < group.len()
        invariant
            i <= group@.len(),
            r@ == group@.take(i as int),
        decreases group@.len() - i,
    {
        r.push(group[i].clone());
        assert(group@.take(i + 1) =~= group@.take(i as int).push(group@[i as int]));
        i = i + 1;
    }
    assert(group@.take(i as int) =~= group@);
    r
}

fn clone_groups(groups: &Vec<Vec<HeapPath>>) -> (r: Vec<Vec<HeapPath>>)
    ensures
        group_views(r@) == group_views(groups@),
{
    let mut r: Vec<Vec<HeapPath>> = Vec::new();
    let mut i: usize = 0;
    assert(group_views(r@) =~= group_views(groups@).take(0));
    while i < groups.len()
        invariant
            i <= groups@.len(),
            group_views(r@) == group_views(groups@).take(i as int),
        decreases groups@.len() - i,
    {
        let ghost before = r@;
        let g = clone_group(&groups[i]);
        r.push(g);
        assert(group_views(r@) =~= group_views(before).push(g@));
        assert(group_views(groups@).take(i + 1) =~= group_views(groups@).take(i as int).push(
            group_views(groups@)[i as int],
        ));
        i = i + 1;
    }
    assert(group_views(groups@).take(i as int) =~= group_views(groups@));
    r
}

/// Alias groups in canonical form.
pub fn canonicalize_alias_groups(groups: &Vec<Vec<HeapPath>>) -> (r: Vec<Vec<HeapPath>>)
    ensures
        group_views(r@) == canonical_groups(group_views(groups@)),
{
    let ghost s = group_views(groups@);
    let mut proper: Vec<Vec<HeapPath>> = Vec::new();
    let mut i: usize = 0;
    assert(s.take(0) =~= Seq::<Group>::empty());
    assert(group_views(proper@) =~= Seq::<Group>::empty());
    while i < groups.len()
        invariant
            s == group_views(groups@),
            i <= groups@.len(),
            group_views(proper@) == real_groups(s.take(i as int)),
        decreases groups@.len() - i,
    {
        let ghost t = s.take(i + 1);
        assert(t.drop_last() =~= s.take(i as int));
        assert(t.last() == groups@[i as int]@);
        let ghost before = proper@;
        let g = sort_group(&groups[i]);
        if g.len() > 1 {
            proper.push(g);
            assert(group_views(proper@) =~= group_views(before).push(g@));
        }
        i = i + 1;
    }
    assert(s.take(i as int) =~= s);
    let ghost rs = group_views(proper@);
    let mut ordered: Vec<Vec<HeapPath>> = Vec::new();
    let mut j: usize = 0;
    assert(rs.take(0) =~= Seq::<Group>::empty());
    assert(group_views(ordered@) =~= Seq::<Group>::empty());
    while j < proper.len()
        invariant
            rs == group_views(proper@),
            j <= proper@.len(),
            group_views(ordered@) == sorted_groups(rs.take(j as int)),
        decreases proper@.len() - j,
    {
        let ghost t = rs.take(j + 1);
        assert(t.drop_last() =~= rs.take(j as int));
        assert(t.last() == proper@[j as int]@);
        insert_group_sorted(&mut ordered, clone_group(&proper[j]));
        j = j + 1;
    }
    assert(rs.take(j as int) =~= rs);
    let ghost os = group_views(ordered@);
    let mut r: Vec<Vec<HeapPath>> = Vec::new();
    let mut k: usize = 0;
    assert(os.take(0) =~= Seq::<Group>::empty());
    assert(group_views(r@) =~= Seq::<Group>::empty());
    while k < ordered.len()
        invariant
            os == group_views(ordered@),
            k <= ordered@.len(),
            group_views(r@) == deduped(os.take(k as int)),
        decreases ordered@.len() - k,
    {
        let ghost t = os.take(k + 1);
        assert(t.drop_last() =~= os.take(k as int));
        assert(t.last() == ordered@[k as int]@);
        let ghost before = r@;
        let repeated = r.len() > 0 && same_group_texts(&r[r.len() - 1], &ordered[k]);
        if r.len() > 0 {
            assert(group_views(r@).last() == r@.last()@);
        }
        if !repeated {
            let g = clone_group(&ordered[k]);
            r.push(g);
            assert(group_views(r@) =~= group_views(before).push(g@));
        }
        k = k + 1;
    }
    assert(os.take(k as int) =~= os);
    r
}

/// Adds new alias groups and brings all of them into canonical form.
pub fn merge_alias_groups(merged: &mut Vec<Vec<HeapPath>>, new_groups: &Vec<Vec<HeapPath>>)
    ensures
        group_views(final(merged)@) == canonical_groups(
            group_views(old(merged)@) + group_views(new_groups@),
        ),
{
    let ghost before = merged@;
    let mut more = clone_groups(new_groups);
    let ghost tail = more@;
    merged.append(&mut more);
    assert(merged@ =~= before + tail);
    assert(group_views(merged@) =~= group_views(before) + group_views(new_groups@));
    let r = canonicalize_alias_groups(merged);
    *merged = r;
}

/// What a summary is specialized to: which places are the same, and which dynamic
/// types values have.
#[derive(Debug, PartialEq, Eq)]
pub struct PulseSpecialization {
    pub aliases: Option<Vec<Vec<HeapPath>>>,
    pub dynamic_types: Vec<(HeapPath, Typ)>,
}

/// What a specialization stands for: places and types by their keys.
#[verifier::ext_equal]
pub struct SpecializationV {
    pub aliases: Option<Seq<Seq<KeyV>>>,
    pub dynamic_types: Seq<(KeyV, KeyV)>,
}

/// The keys of a group.
pub open spec fn group_keys(g: Group) -> Seq<KeyV> {
    g.map_values(|p: HeapPath| path_key(p))
}

/// Alias groups by their keys.
pub open spec fn groups_keys(s: Seq<Group>) -> Seq<Seq<KeyV>> {
    s.map_values(|g: Group| group_keys(g))
}

/// Places and types by their keys.
pub open spec fn type_keys(s: Seq<(HeapPath, Typ)>) -> Seq<(KeyV, KeyV)> {
    s.map_values(|e: (HeapPath, Typ)| (path_key(e.0), e.1.key()))
}

impl View for PulseSpecialization {
    type V = SpecializationV;

    open spec fn view(&self) -> SpecializationV {
        SpecializationV {
            aliases: match self.aliases {
                Some(groups) => Some(groups_keys(group_views(groups@))),
                None => None,
            },
            dynamic_types: type_keys(self.dynamic_types@),
        }
    }
}

fn clone_types(types: &Vec<(HeapPath, Typ)>) -> (r: Vec<(HeapPath, Typ)>)
    ensures
        r@ == types@,
{
    let mut r: Vec<(HeapPath, Typ)> = Vec::new();
    let mut i: usize = 0;
    while i < types.len()
        invariant
            i <= types@.len(),
            r@ == types@.take(i as int),
        decreases types@.len() - i,
    {
        r.push((types[i].0.clone(), types[i].1.clone()));
        assert(types@.take(i + 1) =~= types@.take(i as int).push(types@[i as int]));
        i = i + 1;
    }
    assert(types@.take(i as int) =~= types@);
    r
}

impl Clone for PulseSpecialization {
    fn clone(&self) -> (r: Self)
        ensures
            r@ == self@,
            r.dynamic_types@ == self.dynamic_types@,
            (match self.aliases {
                Some(groups) => Some(group_views(groups@)),
                None => None,
            }) == (match r.aliases {
                Some(groups) => Some(group_views(groups@)),
                None => None,
            }),
    {
        PulseSpecialization {
            aliases: match &self.aliases {
                Some(groups) => Some(clone_groups(groups)),
                None => None,
            },
            dynamic_types: clone_types(&self.dynamic_types),
        }
    }
}

fn same_group_keys(a: &Vec<HeapPath>, b: &Vec<HeapPath>) -> (r: bool)
    ensures
        r == (group_keys(a@) == group_keys(b@)),
{
    if a.len() != b.len() {
        assert(group_keys(a@).len() != group_keys(b@).len());
        return false;
    }
    let mut i: usize = 0;
    while i < a.len()
        invariant
            a@.len() == b@.len(),
            i <= a@.len(),
            forall|j: int| 0 <= j < i ==> group_keys(a@)[j] == #[trigger] group_keys(b@)[j],
        decreases a@.len() - i,
    {
        if !same_key(&a[i], &b[i]) {
            assert(group_keys(a@)[i as int] != group_keys(b@)[i as int]);
            return false;
        }
        i = i + 1;
    }
    assert(group_keys(a@) =~= group_keys(b@));
    true
}

fn groups_same(a: &Vec<Vec<HeapPath>>, b: &Vec<Vec<HeapPath>>) -> (r: bool)
    ensures
        r == (groups_keys(group_views(a@)) == groups_keys(group_views(b@))),
{
    let ghost x = groups_keys(group_views(a@));
    let ghost y = groups_keys(group_views(b@));
    if a.len() != b.len() {
        assert(x.len() != y.len());
        return false;
    }
    let mut i: usize = 0;
    while i < a.len()
        invariant
            a@.len() == b@.len(),
            x == groups_keys(group_views(a@)),
            y == groups_keys(group_views(b@)),
            i <= a@.len(),
            forall|j: int| 0 <= j < i ==> #[trigger] x[j] == y[j],
        decreases a@.len() - i,
    {
        if !same_group_keys(&a[i], &b[i]) {
            assert(x[i as int] != y[i as int]);
            return false;
        }
        i = i + 1;
    }
    assert(x =~= y);
    true
}

fn types_same(a: &Vec<(HeapPath, Typ)>, b: &Vec<(HeapPath, Typ)>) -> (r: bool)
    ensures
        r == (type_keys(a@) == type_keys(b@)),
{
    let ghost x = type_keys(a@);
    let ghost y = type_keys(b@);
    if a.len() != b.len() {
        assert(x.len() != y.len());
        return false;
    }
    let mut i: usize = 0;
    while i < a.len()
        invariant
            a@.len() == b@.len(),
            x == type_keys(a@),
            y == type_keys(b@),
            i <= a@.len(),
            forall|j: int| 0 <= j < i ==> #[trigger] x[j] == y[j],
        decreases a@.len() - i,
    {
        if !same_key(&a[i].0, &b[i].0) || !same_key(&a[i].1, &b[i].1) {
            assert(x[i as int] != y[i as int]);
            return false;
        }
        i = i + 1;
    }
    assert(x =~= y);
    true
}

/// `s` with the canonical form of the alias groups.
pub open spec fn with_aliases(s: SpecializationV, groups: Seq<Group>) -> SpecializationV {
    SpecializationV { aliases: Some(groups_keys(canonical_groups(groups))), ..s }
}

impl PulseSpecialization {
    /// The specialization that knows nothing.
    pub fn bottom() -> (r: Self)
        ensures
            r@ == (SpecializationV { aliases: None, dynamic_types: seq![] }),
    {
        let r = PulseSpecialization { aliases: None, dynamic_types: Vec::new() };
        assert(r@.dynamic_types =~= seq![]);
        r
    }

    /// Whether two specializations are the same, place for place and type for type.
    pub fn same(&self, other: &Self) -> (b: bool)
        ensures
            b == (self@ == other@),
    {
        let aliases = match (&self.aliases, &other.aliases) {
            (Some(a), Some(b)) => groups_same(a, b),
            (None, None) => true,
            _ => false,
        };
        aliases && types_same(&self.dynamic_types, &other.dynamic_types)
    }
}

/// The specialization to the given alias groups.
pub fn specialization_with_aliases(
    base_spec: &PulseSpecialization,
    alias_groups: &Vec<Vec<HeapPath>>,
) -> (r: PulseSpecialization)
    ensures
        r@ == with_aliases(base_spec@, group_views(alias_groups@)),
        r.aliases matches Some(g) && group_views(g@) == canonical_groups(
            group_views(alias_groups@),
        ),
        r.dynamic_types@ == base_spec.dynamic_types@,
{
    PulseSpecialization {
        aliases: Some(canonicalize_alias_groups(alias_groups)),
        dynamic_types: clone_types(&base_spec.dynamic_types),
    }
}

/// What specializations stand for.
pub open spec fn spec_views(s: Seq<PulseSpecialization>) -> Seq<SpecializationV> {
    s.map_values(|x: PulseSpecialization| x@)
}

fn is_tried(tried: &Vec<PulseSpecialization>, spec: &PulseSpecialization) -> (b: bool)
    ensures
        b == spec_views(tried@).contains(spec@),
{
    let ghost v = spec_views(tried@);
    let mut i: usize = 0;
    while i < tried.len()
        invariant
            v == spec_views(tried@),
            i <= tried@.len(),
            forall|j: int| 0 <= j < i ==> #[trigger] v[j] != spec@,
        decreases tried@.len() - i,
    {
        if tried[i].same(spec) {
            assert(v[i as int] == spec@);
            return true;
        }
        i = i + 1;
    }
    assert forall|x: SpecializationV| v.contains(x) implies x != spec@ by {
        let j = choose|j: int| 0 <= j < v.len() && v[j] == x;
        assert(v[j] != spec@);
    }
    false
}

/// What to do after the pre/posts of a summary have been applied.
#[derive(Debug, PartialEq, Eq)]
pub enum SpecializationStep {
    /// Take the results. `incomplete` says that the summary may lack paths.
    Done { incomplete: bool },
    /// Nothing applies, and no other specialization helps.
    GiveUp,
    /// Try the summary specialized to this.
    Try(PulseSpecialization),
}

/// What a step stands for.
pub enum StepV {
    Done { incomplete: bool },
    GiveUp,
    Try(SpecializationV),
}

impl View for SpecializationStep {
    type V = StepV;

    open spec fn view(&self) -> StepV {
        match self {
            SpecializationStep::Done { incomplete } => StepV::Done { incomplete: *incomplete },
            SpecializationStep::GiveUp => StepV::GiveUp,
            SpecializationStep::Try(s) => StepV::Try(s@),
        }
    }
}

/// The step after applying the pre/posts of a summary specialized to `current`
/// has given `results` and found the alias groups `groups`. With results, or
/// without aliases to blame, that is all. Otherwise the summary is tried
/// specialized to the aliases, unless that was tried already. A summary
/// specialized to aliases that holds a latent invalid access and lets no path go
/// on may lack paths, as may one that had to drop states.
pub open spec fn specialization_step(
    current: SpecializationV,
    dropped: bool,
    latent_invalid: bool,
    results: Seq<ExecutionV>,
    groups: Seq<Group>,
    tried: Seq<SpecializationV>,
) -> StepV {
    if results.len() > 0 || groups.len() == 0 {
        StepV::Done {
            incomplete: dropped || (current.aliases is Some && !some_continue(results)
                && latent_invalid),
        }
    } else {
        let next = with_aliases(current, groups);
        if next == current || tried.contains(next) {
            StepV::GiveUp
        } else {
            StepV::Try(next)
        }
    }
}

fn has_latent_invalid(kinds: &Vec<PrePostKind>) -> (b: bool)
    ensures
        b == kinds@.contains(PrePostKind::LatentInvalidAccess),
{
    let mut i: usize = 0;
    while i < kinds.len()
        invariant
            i <= kinds@.len(),
            forall|j: int| 0 <= j < i ==> #[trigger] kinds@[j] != PrePostKind::LatentInvalidAccess,
        decreases kinds@.len() - i,
    {
        if kinds[i] == PrePostKind::LatentInvalidAccess {
            return true;
        }
        i = i + 1;
    }
    false
}

/// Decides what to do after the pre/posts of a summary, of the given kinds, have
/// been applied.
pub fn next_specialization_step(
    current: &PulseSpecialization,
    summary_has_dropped_disjuncts: bool,
    kinds: &Vec<PrePostKind>,
    results: &Vec<ExecutionDomain>,
    alias_groups: &Vec<Vec<HeapPath>>,
    tried: &Vec<PulseSpecialization>,
) -> (r: SpecializationStep)
    ensures
        r@ == specialization_step(
            current@,
            summary_has_dropped_disjuncts,
            kinds@.contains(PrePostKind::LatentInvalidAccess),
            exec_views(results@),
            group_views(alias_groups@),
            spec_views(tried@),
        ),
{
    if results.len() > 0 || alias_groups.len() == 0 {
        let force = current.aliases.is_some() && !has_continue_program(results)
            && has_latent_invalid(kinds);
        return SpecializationStep::Done { incomplete: summary_has_dropped_disjuncts || force };
    }
    let next = specialization_with_aliases(current, alias_groups);
    if next.same(current) || is_tried(tried, &next) {
        return SpecializationStep::GiveUp;
    }
    SpecializationStep::Try(next)
}

/// A request for a specialized summary.
#[derive(Debug, PartialEq, Eq)]
pub struct SpecializationRequest {
    pub callee: Procname,
    pub specialization: PulseSpecialization,
}

/// What a request stands for.
#[verifier::ext_equal]
pub struct RequestV {
    pub callee: KeyV,
    pub specialization: SpecializationV,
}

impl View for SpecializationRequest {
    type V = RequestV;

    open spec fn view(&self) -> RequestV {
        RequestV { callee: self.callee.key(), specialization: self.specialization@ }
    }
}

/// What requests stand for.
pub open spec fn request_views(s: Seq<SpecializationRequest>) -> Seq<RequestV> {
    s.map_values(|x: SpecializationRequest| x@)
}

/// Asks for a specialized summary, unless there is one or it has been asked for.
pub fn queue_specialization_request(
    requests: &mut Vec<SpecializationRequest>,
    callee: &Procname,
    is_available: bool,
    spec: PulseSpecialization,
)
    ensures
        ({
            let request = RequestV { callee: callee.key(), specialization: spec@ };
            request_views(final(requests)@) == (if is_available || request_views(
                old(requests)@,
            ).contains(request) {
                request_views(old(requests)@)
            } else {
                request_views(old(requests)@).push(request)
            })
        }),
{
    if is_available {
        return;
    }
    let ghost v = request_views(requests@);
    let ghost request = RequestV { callee: callee.key(), specialization: spec@ };
    let mut i: usize = 0;
    while i < requests.len()
        invariant
            v == request_views(requests@),
            v == request_views(old(requests)@),
            request == (RequestV { callee: callee.key(), specialization: spec@ }),
            i <= requests@.len(),
            forall|j: int| 0 <= j < i ==> #[trigger] v[j] != request,
        decreases requests@.len() - i,
    {
        if same_key(&requests[i].callee, callee) && requests[i].specialization.same(&spec) {
            assert(v[i as int] == request);
            return;
        }
        assert(v[i as int] != request);
        i = i + 1;
    }
    assert forall|x: RequestV| v.contains(x) implies x != request by {
        let j = choose|j: int| 0 <= j < v.len() && v[j] == x;
        assert(v[j] != request);
    }
    let ghost before = requests@;
    let item = SpecializationRequest { callee: callee.clone(), specialization: spec };
    requests.push(item);
    assert(request_views(requests@) =~= v.push(item@));
}

/// The diagnostic of a pre/post: its own, or for a latent error without one the
/// one that was kept for it.
pub fn effective_diagnostic<'a>(
    kind: PrePostKind,
    own: Option<&'a Diagnostic>,
    kept: Option<&'a Diagnostic>,
) -> (r: Option<&'a Diagnostic>)
    ensures
        r == (if kind == PrePostKind::LatentAbortProgram && own is None {
            kept
        } else {
            own
        }),
{
    if kind == PrePostKind::LatentAbortProgram && own.is_none() {
        kept
    } else {
        own
    }
}

/// The positions of the formals that the paths start from, in the order of the
/// paths; a path that starts elsewhere has none.
pub open spec fn formal_position(formals: Seq<Pvar>, root: Pvar) -> Option<int>
    decreases formals.len(),
{
    if formals.len() == 0 {
        None
    } else {
        match formal_position(formals.drop_last(), root) {
            Some(i) => Some(i),
            None => if formals.last().key() == root.key() {
                Some(formals.len() - 1)
            } else {
                None
            },
        }
    }
}

/// The position of the formal that a path starts from.
pub fn root_formal_position(formals: &Vec<Pvar>, path: &HeapPath) -> (r: Option<usize>)
    ensures
        formal_position(formals@, path_root(*path)) == (match r {
            Some(i) => Some(i as int),
            None => None,
        }),
{
    let root = extract_root_pvar(path);
    let ghost s = formals@;
    let mut i: usize = 0;
    assert(s.take(0) =~= Seq::<Pvar>::empty());
    while i < formals.len()
        invariant
            s == formals@,
            *root == path_root(*path),
            i <= s.len(),
            formal_position(s.take(i as int), *root) is None,
        decreases s.len() - i,
    {
        let ghost t = s.take(i + 1);
        assert(t.drop_last() =~= s.take(i as int));
        assert(t.last() == s[i as int]);
        if same_key(&formals[i], root) {
            proof {
                lemma_formal_position(s, *root, i + 1);
            }
            return Some(i);
        }
        i = i + 1;
    }
    assert(s.take(i as int) =~= s);
    None
}

proof fn lemma_formal_position(s: Seq<Pvar>, root: Pvar, i: int)
    requires
        0 <= i <= s.len(),
        formal_position(s.take(i), root) is Some,
    ensures
        formal_position(s, root) == formal_position(s.take(i), root),
    decreases s.len() - i,
{
    if i == s.len() {
        assert(s.take(i) =~= s);
    } else {
        assert(s.take(i + 1).drop_last() =~= s.take(i));
        lemma_formal_position(s, root, i + 1);
    }
}

} // verus!
