//! A map keyed by candidate name that keeps its entries in canonical order.

use vstd::prelude::*;
use crate::election::Name;
use crate::text::{lemma_text_lt_total, lemma_text_lt_transitive, str_lt, strictly_ascending, text_lt};

verus! {

/// In a strictly ascending sequence every element is found at its own index.
pub proof fn lemma_ascending_index_of(names: Seq<Seq<char>>, i: int)
    requires
        strictly_ascending(names),
        0 <= i < names.len(),
    ensures
        names.index_of(names[i]) == i,
        names.contains(names[i]),
{
    let j = names.index_of(names[i]);
    assert(names[j] == names[i] && 0 <= j < names.len());
    lemma_text_lt_total(names[i], names[j]);
}

/// A map from names to values whose entries are held in ascending order of name.
#[derive(Debug)]
pub struct NameMap<V> {
    entries: Vec<(Name, V)>,
}

impl<V> View for NameMap<V> {
    type V = Map<Seq<char>, V>;

    /// The map as a mathematical map from the text of a name to its value.
    open spec fn view(&self) -> Map<Seq<char>, V> {
        Map::new(
            |n: Seq<char>| self.names().contains(n),
            |n: Seq<char>| self.values()[self.names().index_of(n)],
        )
    }
}

impl<V> NameMap<V> {
    /// The names of the entries, in the order in which they are held.
    pub closed spec fn names(&self) -> Seq<Seq<char>> {
        Seq::new(self.entries@.len(), |i: int| self.entries@[i].0@)
    }

    /// The values of the entries, in the order in which they are held.
    pub closed spec fn values(&self) -> Seq<V> {
        Seq::new(self.entries@.len(), |i: int| self.entries@[i].1)
    }

    /// Names and values line up, and the names are strictly ascending.
    pub open spec fn wf(&self) -> bool {
        &&& self.names().len() == self.values().len()
        &&& strictly_ascending(self.names())
    }

    /// The entry at index `i` is what the map holds for its name.
    pub proof fn lemma_entry(&self, i: int)
        requires
            self.wf(),
            0 <= i < self.names().len(),
        ensures
            self@.contains_key(self.names()[i]),
            self@[self.names()[i]] == self.values()[i],
    {
        lemma_ascending_index_of(self.names(), i);
    }

    /// Every key of the map is the name of some entry.
    pub proof fn lemma_key(&self, n: Seq<char>)
        requires
            self.wf(),
            self@.contains_key(n),
        ensures
            0 <= self.names().index_of(n) < self.names().len(),
            self.names()[self.names().index_of(n)] == n,
            self@[n] == self.values()[self.names().index_of(n)],
    {
    }

    /// An empty map.
    pub fn new() -> (m: Self)
        ensures
            m.wf(),
            m.names().len() == 0,
            m@ == Map::<Seq<char>, V>::empty(),
    {
        let m = NameMap { entries: Vec::new() };
        assert(m@ =~= Map::<Seq<char>, V>::empty());
        m
    }

    /// The number of entries.
    pub fn len(&self) -> (n: usize)
        ensures
            n == self.names().len(),
            n == self.values().len(),
    {
        self.entries.len()
    }

    /// Whether the map has no entries.
    pub fn is_empty(&self) -> (b: bool)
        ensures
            b == (self.names().len() == 0),
    {
        self.entries.len() == 0
    }

    /// The name of the entry at index `i`.
    pub fn name_at(&self, i: usize) -> (n: &Name)
        requires
            i < self.names().len(),
        ensures
            n@ == self.names()[i as int],
    {
        &self.entries[i].0
    }

    /// The value of the entry at index `i`.
    pub fn value_at(&self, i: usize) -> (v: &V)
        requires
            i < self.names().len(),
        ensures
            *v == self.values()[i as int],
    {
        &self.entries[i].1
    }

    /// The index of the entry for `name`, if there is one.
    pub fn position(&self, name: &Name) -> (r: Option<usize>)
        requires
            self.wf(),
        ensures
            match r {
                Some(i) => i < self.names().len() && self.names()[i as int] == name@
                    && self@.contains_key(name@) && self@[name@] == self.values()[i as int],
                None => !self@.contains_key(name@) && !self.names().contains(name@),
            },
    {
        let mut i: usize = 0;
        while i < self.entries.len()
            invariant
                self.wf(),
                i <= self.entries@.len(),
                forall|j: int| 0 <= j < i ==> self.names()[j] != name@,
            decreases self.entries@.len() - i,
        {
            if self.entries[i].0 == *name {
                proof {
                    self.lemma_entry(i as int);
                }
                return Some(i);
            }
            i += 1;
        }
        None
    }

    /// Whether the map has an entry for `name`.
    pub fn contains_key(&self, name: &Name) -> (b: bool)
        requires
            self.wf(),
        ensures
            b == self@.contains_key(name@),
    {
        self.position(name).is_some()
    }

    /// The value held for `name`, if there is one.
    pub fn get(&self, name: &Name) -> (r: Option<&V>)
        requires
            self.wf(),
        ensures
            match r {
                Some(v) => self@.contains_key(name@) && *v == self@[name@],
                None => !self@.contains_key(name@),
            },
    {
        match self.position(name) {
            Some(i) => Some(&self.entries[i].1),
            None => None,
        }
    }

    /// Sets the value held for `name`, and returns the value it replaces.
    pub fn insert(&mut self, name: Name, value: V) -> (replaced: Option<V>)
        requires
            old(self).wf(),
        ensures
            final(self).wf(),
            final(self)@ == old(self)@.insert(name@, value),
            match replaced {
                Some(v) => old(self)@.contains_key(name@) && v == old(self)@[name@]
                    && final(self).names() == old(self).names(),
                None => !old(self)@.contains_key(name@)
                    && final(self).names().len() == old(self).names().len() + 1,
            },
    {
        let ghost old_names = self.names();
        let ghost old_values = self.values();
        let mut p: usize = 0;
        while p < self.entries.len() && str_lt(self.entries[p].0.as_str(), name.as_str())
            invariant
                p <= self.entries@.len(),
                self.entries == old(self).entries,
                forall|j: int| 0 <= j < p ==> text_lt(self.names()[j], name@),
            decreases self.entries@.len() - p,
        {
            p += 1;
        }
        if p < self.entries.len() && self.entries[p].0 == name {
            let previous = self.entries.remove(p);
            self.entries.insert(p, (name, value));
            proof {
                assert(self.names() =~= old_names);
                assert(self.values() =~= old_values.update(p as int, value));
                old(self).lemma_entry(p as int);
                assert forall|n: Seq<char>| #[trigger]
                    self@.contains_key(n) == old(self)@.insert(name@, value).contains_key(n) by {
                    lemma_ascending_index_of(old_names, p as int);
                }
                assert forall|n: Seq<char>| self@.contains_key(n) implies #[trigger] self@[n] == old(
                    self,
                )@.insert(name@, value)[n] by {
                    lemma_ascending_index_of(old_names, p as int);
                }
                assert(self@ =~= old(self)@.insert(name@, value));
            }
            Some(previous.1)
        } else {
            proof {
                if p < old_names.len() {
                    lemma_text_lt_total(old_names[p as int], name@);
                }
                assert forall|j: int| p <= j < old_names.len() implies text_lt(
                    name@,
                    #[trigger] old_names[j],
                ) by {
                    if j > p {
                        lemma_text_lt_transitive(name@, old_names[p as int], old_names[j]);
                    }
                }
                assert forall|j: int| 0 <= j < old_names.len() implies #[trigger] old_names[j]
                    != name@ by {
                    lemma_text_lt_total(old_names[j], name@);
                }
            }
            self.entries.insert(p, (name, value));
            proof {
                assert(self.names() =~= old_names.insert(p as int, name@));
                assert(self.values() =~= old_values.insert(p as int, value));
                let new_names = self.names();
                assert forall|i: int, j: int| 0 <= i < j < new_names.len() implies text_lt(
                    #[trigger] new_names[i],
                    #[trigger] new_names[j],
                ) by {
                    if i < p && j > p {
                        assert(text_lt(old_names[i], old_names[j - 1]));
                    } else if i < p && j < p {
                        assert(text_lt(old_names[i], old_names[j]));
                    } else if i > p {
                        assert(text_lt(old_names[i - 1], old_names[j - 1]));
                    }
                }
                assert forall|n: Seq<char>| #[trigger]
                    self@.contains_key(n) == old(self)@.insert(name@, value).contains_key(n) by {
                    if old_names.contains(n) {
                        let k = old_names.index_of(n);
                        assert(new_names[if k < p { k } else { k + 1 }] == n);
                    }
                    if n == name@ {
                        assert(new_names[p as int] == n);
                    }
                    if new_names.contains(n) && n != name@ {
                        let k = new_names.index_of(n);
                        assert(old_names[if k < p { k } else { k - 1 }] == n);
                    }
                }
                assert forall|n: Seq<char>| self@.contains_key(n) implies #[trigger] self@[n] == old(
                    self,
                )@.insert(name@, value)[n] by {
                    let k = new_names.index_of(n);
                    lemma_ascending_index_of(new_names, k);
                    if n != name@ {
                        let k0 = if k < p { k } else { k - 1 };
                        assert(old_names[k0] == n);
                        lemma_ascending_index_of(old_names, k0);
                    } else {
                        lemma_ascending_index_of(new_names, p as int);
                    }
                }
                assert(self@ =~= old(self)@.insert(name@, value));
            }
            None
        }
    }
}

} // verus!
