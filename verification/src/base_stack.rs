//! Stack domain: maps variables to their abstract addresses.

use crate::abstract_value::AbstractValue;
use crate::key::{key_of, Key, KeyV, Keyed};
use crate::ordered::{del, lookup, put, sorted, Comparison, Dup, OrdKey, OrdMap};
use crate::sil::Var;
use crate::value_history::{ValueHistory, ValueWithHistory};
use vstd::prelude::*;

verus! {

/// A variable and what it is bound to.
#[derive(Debug, PartialEq, Eq)]
pub struct StackEntry {
    pub var: Var,
    pub value: ValueWithHistory,
}

impl Clone for StackEntry {
    fn clone(&self) -> (r: Self)
        ensures
            r == *self,
    {
        StackEntry { var: self.var.clone(), value: self.value.clone() }
    }
}

impl View for StackEntry {
    type V = StackEntry;

    open spec fn view(&self) -> StackEntry {
        *self
    }
}

impl Dup for StackEntry {
    fn dup(&self) -> (r: Self) {
        self.clone()
    }
}

/// The bindings of a stack, each under the key of its variable.
pub type StackV = Seq<(KeyV, StackEntry)>;

/// The value of `var`.
pub open spec fn stack_find(s: StackV, var: Var) -> Option<ValueWithHistory> {
    match lookup(s, var.key()) {
        Some(entry) => Some(entry.value),
        None => None,
    }
}

/// `s` with `var` bound to `value`.
pub open spec fn stack_add(s: StackV, var: Var, value: ValueWithHistory) -> StackV {
    put::<Key, StackEntry>(s, var.key(), StackEntry { var, value })
}

/// `s` with `old` replaced by `new`.
pub open spec fn stack_subst(s: StackV, old: AbstractValue, new: AbstractValue) -> StackV {
    Seq::new(
        s.len(),
        |i: int|
            if s[i].1.value.addr == old {
                (
                    s[i].0,
                    StackEntry {
                        var: s[i].1.var,
                        value: ValueWithHistory { addr: new, history: s[i].1.value.history },
                    },
                )
            } else {
                s[i]
            },
    )
}

/// `s`, sorted by the text of the variables, with `entry` put behind those whose
/// text is not larger.
pub open spec fn insert_by_text(s: Seq<StackEntry>, entry: StackEntry) -> Seq<StackEntry>
    decreases s.len(),
{
    if s.len() == 0 {
        seq![entry]
    } else if <String as OrdKey>::lt(entry.var.text(), s.last().var.text()) {
        insert_by_text(s.drop_last(), entry).push(s.last())
    } else {
        s.push(entry)
    }
}

/// The entries of `s`, sorted by the text of the variables.
pub open spec fn by_text(s: StackV) -> Seq<StackEntry>
    decreases s.len(),
{
    if s.len() == 0 {
        seq![]
    } else {
        insert_by_text(by_text(s.drop_last()), s.last().1)
    }
}

/// One binding as text.
pub open spec fn entry_text(e: StackEntry) -> Seq<char> {
    "&"@ + e.var.text() + "="@ + e.value.addr.text()
}

/// Bindings as text, separated by commas.
pub open spec fn entries_text(s: Seq<StackEntry>) -> Seq<char>
    decreases s.len(),
{
    if s.len() == 0 {
        seq![]
    } else if s.len() == 1 {
        entry_text(s[0])
    } else {
        entries_text(s.drop_last()) + ", "@ + entry_text(s.last())
    }
}

/// The stack: maps program/logical variables to their abstract addresses.
#[derive(Debug, PartialEq, Eq)]
pub struct BaseStack {
    map: OrdMap<Key, StackEntry>,
}

impl View for BaseStack {
    type V = StackV;

    closed spec fn view(&self) -> StackV {
        self.map@
    }
}

impl Dup for BaseStack {
    fn dup(&self) -> (r: Self) {
        BaseStack { map: self.map.dup() }
    }
}

impl Clone for BaseStack {
    fn clone(&self) -> (r: Self)
        ensures
            r@ == self@,
    {
        self.dup()
    }
}

fn var_text(var: &Var) -> (r: String)
    ensures
        r@ == var.text(),
{
    let mut out = String::new();
    var.push_text(&mut out);
    assert(Seq::<char>::empty() + var.text() =~= var.text());
    out
}

proof fn lemma_insert_at(s: Seq<StackEntry>, entry: StackEntry, i: int)
    requires
        0 <= i <= s.len(),
        forall|j: int|
            i <= j < s.len() ==> <String as OrdKey>::lt(
                entry.var.text(),
                (#[trigger] s[j]).var.text(),
            ),
        i > 0 ==> !<String as OrdKey>::lt(entry.var.text(), s[i - 1].var.text()),
    ensures
        insert_by_text(s, entry) == s.insert(i, entry),
    decreases s.len(),
{
    if i == s.len() {
        assert(s.insert(i, entry) =~= s.push(entry));
        if s.len() == 0 {
            assert(s.push(entry) =~= seq![entry]);
        }
    } else {
        assert(s[s.len() - 1] == s.last());
        lemma_insert_at(s.drop_last(), entry, i);
        assert(s.drop_last().insert(i, entry).push(s.last()) =~= s.insert(i, entry));
    }
}

fn insert_sorted(entries: &mut Vec<StackEntry>, entry: StackEntry)
    ensures
        final(entries)@ == insert_by_text(old(entries)@, entry),
{
    let text = var_text(&entry.var);
    let ghost s = entries@;
    let mut i: usize = entries.len();
    while i > 0
        invariant_except_break
            entries@ == s,
            text@ == entry.var.text(),
            i <= s.len(),
            forall|j: int|
                i <= j < s.len() ==> <String as OrdKey>::lt(
                    entry.var.text(),
                    (#[trigger] s[j]).var.text(),
                ),
        ensures
            entries@ == s,
            i <= s.len(),
            forall|j: int|
                i <= j < s.len() ==> <String as OrdKey>::lt(
                    entry.var.text(),
                    (#[trigger] s[j]).var.text(),
                ),
            i > 0 ==> !<String as OrdKey>::lt(entry.var.text(), s[i - 1].var.text()),
        decreases i,
    {
        let other = var_text(&entries[i - 1].var);
        match text.compare(&other) {
            Comparison::Less => {
                i = i - 1;
            },
            Comparison::Equal => {
                proof {
                    <String as OrdKey>::lt_irreflexive(text@);
                }
                break;
            },
            Comparison::Greater => {
                proof {
                    if <String as OrdKey>::lt(text@, other@) {
                        <String as OrdKey>::lt_transitive(text@, other@, text@);
                        <String as OrdKey>::lt_irreflexive(text@);
                    }
                }
                break;
            },
        }
    }
    proof {
        lemma_insert_at(s, entry, i as int);
    }
    entries.insert(i, entry);
}

impl BaseStack {
    pub fn empty() -> (r: Self)
        ensures
            r@ == Seq::<(KeyV, StackEntry)>::empty(),
    {
        BaseStack { map: OrdMap::new() }
    }

    /// Look up a variable's abstract address.
    pub fn find(&self, var: &Var) -> (r: Option<AbstractValue>)
        ensures
            r == (match stack_find(self@, *var) {
                Some(v) => Some(v.addr),
                None => None,
            }),
    {
        match self.find_with_history(var) {
            Some(value) => Some(value.addr),
            None => None,
        }
    }

    /// Look up a variable together with its provenance.
    pub fn find_with_history(&self, var: &Var) -> (r: Option<&ValueWithHistory>)
        ensures
            stack_find(self@, *var) == (match r {
                Some(v) => Some(*v),
                None => None,
            }),
    {
        match self.map.get(&key_of(var)) {
            Some(entry) => Some(&entry.value),
            None => None,
        }
    }

    /// Bind a variable to an abstract address.
    pub fn add(&mut self, var: Var, addr: AbstractValue)
        ensures
            final(self)@ == stack_add(
                old(self)@,
                var,
                (ValueWithHistory { addr, history: ValueHistory::start() }),
            ),
    {
        self.add_with_history(var, ValueWithHistory::new(addr, ValueHistory::epoch()));
    }

    /// Bind a variable to an abstract value and provenance.
    pub fn add_with_history(&mut self, var: Var, value: ValueWithHistory)
        ensures
            final(self)@ == stack_add(old(self)@, var, value),
    {
        self.map.insert(key_of(&var), StackEntry { var, value });
    }

    /// Remove a variable binding.
    pub fn remove(&mut self, var: &Var)
        ensures
            final(self)@ == del(old(self)@, var.key()),
    {
        self.map.remove(&key_of(var));
    }

    /// The variable at position `i`.
    pub fn var_at(&self, i: usize) -> (r: &Var)
        requires
            i < self@.len(),
        ensures
            *r == self@[i as int].1.var,
    {
        &self.map.value_at(i).var
    }

    /// The value at position `i`.
    pub fn value_at(&self, i: usize) -> (r: &ValueWithHistory)
        requires
            i < self@.len(),
        ensures
            *r == self@[i as int].1.value,
    {
        &self.map.value_at(i).value
    }

    /// All bindings.
    pub fn iter(&self) -> (r: Vec<(&Var, &AbstractValue)>)
        ensures
            r@.len() == self@.len(),
            forall|i: int|
                0 <= i < r@.len() ==> *(#[trigger] r@[i]).0 == self@[i].1.var && *r@[i].1
                    == self@[i].1.value.addr,
    {
        let mut r: Vec<(&Var, &AbstractValue)> = Vec::new();
        let mut i: usize = 0;
        while i < self.map.len()
            invariant
                i <= self.map@.len(),
                r@.len() == i,
                forall|j: int|
                    0 <= j < i ==> *(#[trigger] r@[j]).0 == self.map@[j].1.var && *r@[j].1
                        == self.map@[j].1.value.addr,
            decreases self.map@.len() - i,
        {
            let entry = self.map.value_at(i);
            r.push((&entry.var, &entry.value.addr));
            i = i + 1;
        }
        r
    }

    /// All bindings with provenance.
    pub fn iter_with_history(&self) -> (r: Vec<(&Var, &ValueWithHistory)>)
        ensures
            r@.len() == self@.len(),
            forall|i: int|
                0 <= i < r@.len() ==> *(#[trigger] r@[i]).0 == self@[i].1.var && *r@[i].1
                    == self@[i].1.value,
    {
        let mut r: Vec<(&Var, &ValueWithHistory)> = Vec::new();
        let mut i: usize = 0;
        while i < self.map.len()
            invariant
                i <= self.map@.len(),
                r@.len() == i,
                forall|j: int|
                    0 <= j < i ==> *(#[trigger] r@[j]).0 == self.map@[j].1.var && *r@[j].1
                        == self.map@[j].1.value,
            decreases self.map@.len() - i,
        {
            let entry = self.map.value_at(i);
            r.push((&entry.var, &entry.value));
            i = i + 1;
        }
        r
    }

    /// Number of bindings.
    pub fn len(&self) -> (n: usize)
        ensures
            n == self@.len(),
            sorted::<Key, StackEntry>(self@),
    {
        self.map.len()
    }

    pub fn is_empty(&self) -> (b: bool)
        ensures
            b == (self@.len() == 0),
    {
        self.map.is_empty()
    }

    /// Substitute abstract values: replace `old_value` with `new_value` wherever
    /// it appears.
    pub fn subst_var(&mut self, old_value: AbstractValue, new_value: AbstractValue)
        ensures
            final(self)@ == stack_subst(old(self)@, old_value, new_value),
    {
        let ghost all = stack_subst(self.map@, old_value, new_value);
        let mut map: OrdMap<Key, StackEntry> = OrdMap::new();
        let n: usize = self.map.len();
        let mut i: usize = 0;
        assert(all.take(0) =~= Seq::<(KeyV, StackEntry)>::empty());
        while i < n
            invariant
                *self == *old(self),
                n == self.map@.len(),
                sorted::<Key, StackEntry>(self.map@),
                all == stack_subst(self.map@, old_value, new_value),
                i <= n,
                map@ == all.take(i as int),
            decreases n - i,
        {
            let key = self.map.key_at(i).dup();
            let mut entry = self.map.value_at(i).clone();
            if entry.value.addr == old_value {
                entry = StackEntry {
                    var: entry.var,
                    value: ValueWithHistory::new(new_value, entry.value.history),
                };
            }
            proof {
                assert(all[i as int] == (key@, entry));
                assert(all.take(i + 1) =~= all.take(i as int).push(all[i as int]));
                assert forall|j: int| 0 <= j < i implies Key::lt((#[trigger] map@[j]).0, key@) by {
                    assert(map@[j] == all[j]);
                    assert(all[j].0 == self.map@[j].0);
                    assert(Key::lt(self.map@[j].0, self.map@[i as int].0));
                }
            }
            map.push_last(key, entry);
            i = i + 1;
        }
        assert(all.take(i as int) =~= all);
        self.map = map;
    }

    /// The bindings as text, sorted by the text of the variables.
    pub open spec fn text(self) -> Seq<char> {
        entries_text(by_text(self@))
    }

    pub fn push_text(&self, out: &mut String)
        ensures
            final(out)@ == old(out)@ + self.text(),
    {
        let mut entries: Vec<StackEntry> = Vec::new();
        let mut i: usize = 0;
        assert(self.map@.take(0) =~= Seq::<(KeyV, StackEntry)>::empty());
        while i < self.map.len()
            invariant
                i <= self.map@.len(),
                entries@ == by_text(self.map@.take(i as int)),
            decreases self.map@.len() - i,
        {
            let ghost s = self.map@.take(i + 1);
            assert(s.drop_last() =~= self.map@.take(i as int));
            assert(s.last() == self.map@[i as int]);
            insert_sorted(&mut entries, self.map.value_at(i).clone());
            i = i + 1;
        }
        assert(self.map@.take(i as int) =~= self.map@);
        let ghost before = out@;
        let mut j: usize = 0;
        assert(before + entries_text(entries@.take(0)) =~= before);
        while j < entries.len()
            invariant
                j <= entries@.len(),
                out@ == before + entries_text(entries@.take(j as int)),
            decreases entries@.len() - j,
        {
            let ghost s = entries@.take(j + 1);
            assert(s.drop_last() =~= entries@.take(j as int));
            assert(s.last() == entries@[j as int]);
            if j > 0 {
                out.append(", ");
            }
            out.append("&");
            entries[j].var.push_text(out);
            out.append("=");
            entries[j].value.addr.push_text(out);
            assert(out@ =~= before + entries_text(s));
            j = j + 1;
        }
        assert(entries@.take(j as int) =~= entries@);
    }
}

} // verus!
