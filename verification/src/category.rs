//! A small map from category labels to values, kept as a list in which no
//! label occurs twice.

use crate::sets::{copy_of, same};
use crate::utils::Category;
use std::collections::HashSet;
use vstd::prelude::*;
use vstd::std_specs::cmp::PartialEqSpecImpl;

verus! {

broadcast use vstd::std_specs::hash::group_hash_axioms;

/// A map keyed by category label. The entries keep the order in which their
/// labels were first inserted; the order carries no meaning.
#[derive(Debug)]
pub struct CategoryMap<T> {
    entries: Vec<(Category, T)>,
}

/// The labels of a list of entries, in order.
spec fn labels<T>(entries: Seq<(Category, T)>) -> Seq<Seq<char>> {
    Seq::new(entries.len(), |i: int| entries[i].0@)
}

/// The values of a list of entries, in order.
spec fn contents<T>(entries: Seq<(Category, T)>) -> Seq<T> {
    Seq::new(entries.len(), |i: int| entries[i].1)
}

impl<T> View for CategoryMap<T> {
    type V = Map<Seq<char>, T>;

    /// The map from each label to the value stored under it.
    open spec fn view(&self) -> Map<Seq<char>, T> {
        Map::new(
            |c: Seq<char>| self.names().contains(c),
            |c: Seq<char>| self.values()[self.names().index_of(c)],
        )
    }
}

impl<T> CategoryMap<T> {
    /// The labels, in entry order.
    pub closed spec fn names(&self) -> Seq<Seq<char>> {
        labels(self.entries@)
    }

    /// The values, in entry order.
    pub closed spec fn values(&self) -> Seq<T> {
        contents(self.entries@)
    }

    /// No label occurs twice. Every map that executable code can hold satisfies this.
    pub open spec fn wf(&self) -> bool {
        &&& self.names().no_duplicates()
        &&& self.names().len() == self.values().len()
    }

    #[verifier::type_invariant]
    spec fn inv(&self) -> bool {
        self.wf()
    }

    /// Entry `i` of a well-formed map is what the map holds under label `i`.
    pub proof fn lemma_entry(&self, i: int)
        requires
            self.wf(),
            0 <= i < self.names().len(),
        ensures
            self@.contains_key(self.names()[i]),
            self@[self.names()[i]] == self.values()[i],
    {
        let c = self.names()[i];
        assert(self.names().contains(c));
        self.names().index_of_first_ensures(c);
        let j = self.names().index_of(c);
        assert(self.names()[j] == c);
    }

    /// The labels of a map are the keys of its view, and the view is finite.
    pub proof fn lemma_keys(&self)
        ensures
            self@.dom() == self.names().to_set(),
            self@.dom().finite(),
            forall|c: Seq<char>| self@.contains_key(c) <==> self.names().contains(c),
    {
        assert(self@.dom() =~= self.names().to_set());
        vstd::seq_lib::seq_to_set_is_finite(self.names());
    }

    /// The empty map.
    pub fn new() -> (m: Self)
        ensures
            m@ == Map::<Seq<char>, T>::empty(),
            m.names() == Seq::<Seq<char>>::empty(),
            m.values() == Seq::<T>::empty(),
            m.wf(),
    {
        let m = CategoryMap { entries: Vec::new() };
        assert(m.names() =~= Seq::<Seq<char>>::empty());
        assert(m.values() =~= Seq::<T>::empty());
        assert(m@ =~= Map::<Seq<char>, T>::empty());
        m
    }

    /// The number of entries.
    pub fn len(&self) -> (n: usize)
        ensures
            n == self.names().len(),
            n == self@.dom().len(),
            self.wf(),
    {
        proof {
            use_type_invariant(self);
            self.lemma_keys();
            self.names().unique_seq_to_set();
        }
        self.entries.len()
    }

    /// Whether the map has no entry.
    pub fn is_empty(&self) -> (e: bool)
        ensures
            e == (self.names().len() == 0),
            e == (self@ == Map::<Seq<char>, T>::empty()),
            self.wf(),
    {
        proof {
            use_type_invariant(self);
            if self.names().len() == 0 {
                assert(self@ =~= Map::<Seq<char>, T>::empty());
            } else {
                self.lemma_entry(0);
            }
        }
        self.entries.len() == 0
    }

    /// The label of entry `i`.
    pub fn name(&self, i: usize) -> (name: &Category)
        requires
            i < self.names().len(),
        ensures
            name@ == self.names()[i as int],
            self@.contains_key(name@),
            self.wf(),
    {
        proof {
            use_type_invariant(self);
            self.lemma_entry(i as int);
        }
        &self.entries[i].0
    }

    /// The value of entry `i`.
    pub fn value(&self, i: usize) -> (value: &T)
        requires
            i < self.names().len(),
        ensures
            *value == self.values()[i as int],
            *value == self@[self.names()[i as int]],
            self.wf(),
    {
        proof {
            use_type_invariant(self);
            self.lemma_entry(i as int);
        }
        &self.entries[i].1
    }

    /// The place of `name` among the entries, if the map holds it.
    pub fn position(&self, name: &Category) -> (at: Option<usize>)
        ensures
            match at {
                Some(i) => i < self.names().len() && self.names()[i as int] == name@,
                None => !self.names().contains(name@),
            },
            at is Some <==> self@.contains_key(name@),
            self.wf(),
    {
        proof {
            use_type_invariant(self);
        }
        let mut i: usize = 0;
        while i < self.entries.len()
            invariant
                self.wf(),
                i <= self.entries@.len(),
                forall|j: int| 0 <= j < i ==> self.names()[j] != name@,
            decreases self.entries@.len() - i,
        {
            if self.entries[i].0 == *name {
                assert(self.names()[i as int] == name@);
                return Some(i);
            }
            i += 1;
        }
        None
    }

    /// The value stored under `name`, if any.
    pub fn get(&self, name: &Category) -> (value: Option<&T>)
        ensures
            match value {
                Some(v) => self@.contains_key(name@) && *v == self@[name@],
                None => !self@.contains_key(name@),
            },
            self.wf(),
    {
        match self.position(name) {
            Some(i) => Some(self.value(i)),
            None => None,
        }
    }

    /// Whether the map holds `name`.
    pub fn contains_key(&self, name: &Category) -> (held: bool)
        ensures
            held == self@.contains_key(name@),
            self.wf(),
    {
        self.position(name).is_some()
    }

    /// Stores `value` under `name`, in place of what was stored there before.
    pub fn insert(&mut self, name: Category, value: T)
        ensures
            final(self)@ == old(self)@.insert(name@, value),
            final(self).wf(),
            old(self).names().contains(name@) ==> final(self).names() == old(self).names(),
            !old(self).names().contains(name@) ==> final(self).names() == old(self).names().push(
                name@,
            ) && final(self).values() == old(self).values().push(value),
    {
        proof {
            use_type_invariant(&*self);
        }
        match self.position(&name) {
            Some(i) => {
                let ghost before = *self;
                let mut entries: Vec<(Category, T)> = Vec::new();
                core::mem::swap(&mut self.entries, &mut entries);
                entries[i].1 = value;
                proof {
                    assert(labels(entries@) =~= before.names());
                }
                self.entries = entries;
                proof {
                    assert(self.names() =~= before.names());
                    assert(self.values() =~= before.values().update(i as int, value));
                    assert forall|c: Seq<char>| self@.contains_key(c) implies #[trigger] self@[c]
                        == before@.insert(name@, value)[c] by {
                        before.names().index_of_first_ensures(c);
                        let j = before.names().index_of(c);
                        if c == name@ {
                            assert(j == i);
                        } else {
                            assert(j != i);
                        }
                    }
                    assert(self@ =~= before@.insert(name@, value));
                }
            },
            None => {
                let ghost before = *self;
                let mut entries: Vec<(Category, T)> = Vec::new();
                core::mem::swap(&mut self.entries, &mut entries);
                entries.push((name, value));
                proof {
                    assert(labels(entries@) =~= before.names().push(name@));
                    assert(contents(entries@) =~= before.values().push(value));
                }
                self.entries = entries;
                proof {
                    assert(self.names() =~= before.names().push(name@));
                    assert(self.values() =~= before.values().push(value));
                    assert forall|c: Seq<char>| self@.contains_key(c) implies #[trigger] self@[c]
                        == before@.insert(name@, value)[c] by {
                        self.names().index_of_first_ensures(c);
                        let j = self.names().index_of(c);
                        if c == name@ {
                            assert(j == before.names().len());
                        } else {
                            assert(before.names()[j] == c);
                            before.names().index_of_first_ensures(c);
                            assert(before.names().index_of(c) == j);
                        }
                    }
                    assert forall|c: Seq<char>| before@.insert(name@, value).contains_key(
                        c,
                    ) implies self@.contains_key(c) by {
                        if c != name@ {
                            let j = before.names().index_of(c);
                            before.names().index_of_first_ensures(c);
                            assert(self.names()[j] == c);
                        } else {
                            assert(self.names()[before.names().len() as int] == c);
                        }
                    }
                    assert(self@ =~= before@.insert(name@, value));
                }
            },
        }
    }
}

/// The sets that a category map holds, label by label.
pub open spec fn sets_of(m: CategoryMap<HashSet<usize>>) -> Map<Seq<char>, Set<usize>> {
    m@.map_values(|s: HashSet<usize>| s@)
}

/// The first `i + 1` labels of a list are the first `i` and the one at place `i`.
pub proof fn lemma_next_label(names: Seq<Seq<char>>, i: int)
    requires
        0 <= i < names.len(),
    ensures
        names.take(i + 1) == names.take(i).push(names[i]),
        forall|c: Seq<char>|
            names.take(i + 1).contains(c) <==> names.take(i).contains(c) || c == names[i],
        names.no_duplicates() ==> !names.take(i).contains(names[i]),
{
    let head = names.take(i);
    let more = names.take(i + 1);
    assert(more =~= head.push(names[i]));
    assert forall|c: Seq<char>| more.contains(c) <==> head.contains(c) || c == names[i] by {
        if head.contains(c) {
            let j = choose|j: int| 0 <= j < head.len() && head[j] == c;
            assert(more[j] == c);
        }
        if c == names[i] {
            assert(more[i] == c);
        }
    }
    if names.no_duplicates() && head.contains(names[i]) {
        let j = choose|j: int| 0 <= j < head.len() && head[j] == names[i];
        assert(names[j] == names[i]);
    }
}

/// All the labels of a list are its first labels, as many as it has.
pub proof fn lemma_all_labels(names: Seq<Seq<char>>)
    ensures
        names.take(names.len() as int) == names,
{
    assert(names.take(names.len() as int) =~= names);
}

impl<T> Default for CategoryMap<T> {
    /// The empty map.
    fn default() -> (m: Self)
        ensures
            m@ == Map::<Seq<char>, T>::empty(),
            m.wf(),
    {
        CategoryMap::new()
    }
}

/// Storing a set under a label stores its members under that label.
pub proof fn lemma_sets_insert(
    before: CategoryMap<HashSet<usize>>,
    after: CategoryMap<HashSet<usize>>,
    name: Seq<char>,
    set: HashSet<usize>,
)
    requires
        after@ == before@.insert(name, set),
    ensures
        sets_of(after) == sets_of(before).insert(name, set@),
{
    assert(sets_of(after) =~= sets_of(before).insert(name, set@));
}

/// The members stored under `name`, none where the label is absent.
pub open spec fn members_at(found: Option<&HashSet<usize>>) -> Set<usize> {
    match found {
        Some(set) => set@,
        None => Set::empty(),
    }
}

impl CategoryMap<HashSet<usize>> {
    /// The set stored under `name`, if any, with its members as the model sees them.
    pub fn members(&self, name: &Category) -> (found: Option<&HashSet<usize>>)
        ensures
            members_at(found) == crate::model::members_of(sets_of(*self), name@),
            found is Some <==> sets_of(*self).contains_key(name@),
            self.wf(),
    {
        self.get(name)
    }
}

impl Clone for CategoryMap<HashSet<usize>> {
    /// A map with the same labels and, under each, a fresh set with the same members.
    fn clone(&self) -> (r: Self)
        ensures
            sets_of(r) == sets_of(*self),
            r.names() == self.names(),
    {
        let mut out: CategoryMap<HashSet<usize>> = CategoryMap::new();
        let n = self.len();
        let mut i: usize = 0;
        while i < n
            invariant
                self.wf(),
                n == self.names().len(),
                i <= n,
                out.names() == self.names().take(i as int),
                forall|j: int|
                    0 <= j < i ==> out@.contains_key(#[trigger] self.names()[j])
                        && out@[self.names()[j]]@ == self.values()[j]@,
            decreases self.names().len() - i,
        {
            let name = self.name(i).clone();
            let set = copy_of(self.value(i));
            proof {
                lemma_next_label(self.names(), i as int);
            }
            out.insert(name, set);
            i += 1;
        }
        proof {
            lemma_all_labels(self.names());
            self.lemma_keys();
            out.lemma_keys();
            assert forall|c: Seq<char>| self@.contains_key(c) implies out@[c]@ == self@[c]@ by {
                let j = self.names().index_of(c);
                self.names().index_of_first_ensures(c);
                self.lemma_entry(j);
            }
            assert(sets_of(out) =~= sets_of(*self));
        }
        out
    }
}

impl PartialEq for CategoryMap<HashSet<usize>> {
    /// Two maps are equal when they hold the same labels and, under each, the same members.
    fn eq(&self, other: &Self) -> (r: bool) {
        if self.len() != other.len() {
            assert(sets_of(*self).dom() =~= self@.dom());
            assert(sets_of(*other).dom() =~= other@.dom());
            return false;
        }
        let mut i: usize = 0;
        while i < self.len()
            invariant
                self.wf(),
                other.wf(),
                self@.dom().len() == other@.dom().len(),
                i <= self.names().len(),
                forall|j: int|
                    0 <= j < i ==> other@.contains_key(#[trigger] self.names()[j])
                        && other@[self.names()[j]]@ == self.values()[j]@,
            decreases self.names().len() - i,
        {
            let name = self.name(i);
            match other.get(name) {
                None => {
                    assert(sets_of(*self).contains_key(name@));
                    assert(!sets_of(*other).contains_key(name@));
                    return false;
                },
                Some(theirs) => {
                    if !same(self.value(i), theirs) {
                        assert(sets_of(*self)[name@] != sets_of(*other)[name@]);
                        return false;
                    }
                },
            }
            i += 1;
        }
        proof {
            self.lemma_keys();
            other.lemma_keys();
            assert forall|c: Seq<char>| self@.contains_key(c) implies other@.contains_key(c)
                && other@[c]@ == self@[c]@ by {
                let j = self.names().index_of(c);
                self.names().index_of_first_ensures(c);
                self.lemma_entry(j);
            }
            assert(self@.dom().subset_of(other@.dom()));
            vstd::set_lib::lemma_subset_equality(self@.dom(), other@.dom());
            assert(sets_of(*self) =~= sets_of(*other));
        }
        true
    }
}

impl PartialEqSpecImpl for CategoryMap<HashSet<usize>> {
    open spec fn obeys_eq_spec() -> bool {
        true
    }

    open spec fn eq_spec(&self, other: &Self) -> bool {
        sets_of(*self) == sets_of(*other)
    }
}

impl Eq for CategoryMap<HashSet<usize>> {

}

} // verus!
