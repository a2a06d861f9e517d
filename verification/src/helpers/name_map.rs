//! Small map from names to values that remembers the order of insertion.

use vstd::prelude::*;

verus! {

/// Map from names to values. A name occurs once; the entries stay in the
/// order in which their names were first inserted.
#[derive(Clone, Debug)]
pub struct NameMap<V> {
    entries: Vec<(String, V)>,
}

impl<V> NameMap<V> {
    /// The names in the order of insertion.
    pub closed spec fn names(&self) -> Seq<Seq<char>> {
        Seq::new(self.entries@.len(), |i: int| self.entries@[i].0@)
    }

    /// The values in the order of their names.
    pub closed spec fn values(&self) -> Seq<V> {
        Seq::new(self.entries@.len(), |i: int| self.entries@[i].1)
    }

    /// No name occurs twice.
    pub open spec fn wf(&self) -> bool {
        &&& self.names().no_duplicates()
        &&& self.names().len() == self.values().len()
    }

    /// The map as mathematics.
    pub open spec fn view(&self) -> Map<Seq<char>, V> {
        Map::new(
            |name: Seq<char>| self.names().contains(name),
            |name: Seq<char>| self.values()[self.names().index_of(name)],
        )
    }

    /// Creates an empty map.
    pub fn new() -> (map: Self)
        ensures
            map.wf(),
            map.names() == Seq::<Seq<char>>::empty(),
            map.values() == Seq::<V>::empty(),
            map@ == Map::<Seq<char>, V>::empty(),
    {
        let map = NameMap { entries: Vec::new() };
        proof {
            assert(map.names() =~= Seq::<Seq<char>>::empty());
            assert(map.values() =~= Seq::<V>::empty());
            assert(map@ =~= Map::<Seq<char>, V>::empty());
        }
        map
    }

    /// The number of entries.
    pub fn len(&self) -> (count: usize)
        ensures
            count == self.names().len(),
    {
        self.entries.len()
    }

    /// The name of entry `i`.
    pub fn name_at(&self, i: usize) -> (name: &String)
        requires
            i < self.names().len(),
        ensures
            name@ == self.names()[i as int],
    {
        &self.entries[i].0
    }

    /// The value of entry `i`.
    pub fn value_at(&self, i: usize) -> (value: &V)
        requires
            i < self.names().len(),
        ensures
            *value == self.values()[i as int],
    {
        &self.entries[i].1
    }

    /// The place of `name` among the entries.
    pub fn position(&self, name: &String) -> (place: Option<usize>)
        requires
            self.wf(),
        ensures
            match place {
                Some(i) => i < self.names().len() && self.names()[i as int] == name@
                    && self.names().index_of(name@) == i,
                None => !self.names().contains(name@),
            },
    {
        let mut i: usize = 0;
        while i < self.entries.len()
            invariant
                self.wf(),
                i <= self.entries@.len(),
                forall|j: int| 0 <= j < i ==> self.names()[j] != name@,
            decreases self.entries@.len() - i,
        {
            if self.entries[i].0 == *name {
                proof {
                    assert(self.names()[i as int] == name@);
                    assert(self.names().contains(name@));
                }
                return Some(i);
            }
            i = i + 1;
        }
        None
    }

    /// Whether the map has an entry for `name`.
    pub fn contains_key(&self, name: &String) -> (held: bool)
        requires
            self.wf(),
        ensures
            held == self@.contains_key(name@),
    {
        self.position(name).is_some()
    }

    /// The value stored for `name`.
    pub fn get(&self, name: &String) -> (found: Option<&V>)
        requires
            self.wf(),
        ensures
            match found {
                Some(value) => self@.contains_key(name@) && *value == self@[name@],
                None => !self@.contains_key(name@),
            },
    {
        match self.position(name) {
            Some(i) => Some(&self.entries[i].1),
            None => None,
        }
    }

    /// Stores `value` for `name` and returns the value that was stored for it
    /// before. A new name goes to the end of the order.
    pub fn insert(&mut self, name: String, value: V) -> (former: Option<V>)
        requires
            old(self).wf(),
        ensures
            final(self).wf(),
            final(self)@ == old(self)@.insert(name@, value),
            match former {
                Some(v) => old(self)@.contains_key(name@) && v == old(self)@[name@]
                    && final(self).names() == old(self).names(),
                None => !old(self)@.contains_key(name@) && final(self).names() == old(
                    self,
                ).names().push(name@),
            },
    {
        let ghost names = self.names();
        let ghost values = self.values();
        match self.position(&name) {
            Some(i) => {
                let mut entry = (name, value);
                core::mem::swap(&mut self.entries[i], &mut entry);
                proof {
                    assert(self.names() =~= names);
                    assert(self.values() =~= values.update(i as int, value));
                    assert forall|k: Seq<char>| names.contains(k) && k != name@ implies names.index_of(
                        k,
                    ) != i by {}
                    assert(self@ =~= old(self)@.insert(name@, value));
                }
                Some(entry.1)
            },
            None => {
                self.entries.push((name, value));
                proof {
                    assert(self.names() =~= names.push(name@));
                    assert(self.values() =~= values.push(value));
                    assert forall|k: Seq<char>| names.contains(k) implies names.push(
                        name@,
                    ).index_of(k) == names.index_of(k) by {
                        let a = names.push(name@).index_of(k);
                        let b = names.index_of(k);
                        assert(names.push(name@)[b] == k);
                        assert(names.push(name@).contains(k));
                        assert(a < names.len());
                    }
                    assert(names.push(name@).index_of(name@) == names.len()) by {
                        assert(names.push(name@)[names.len() as int] == name@);
                    }
                    assert forall|k: Seq<char>| #[trigger]
                        names.push(name@).contains(k) <==> (names.contains(k) || k == name@) by {
                        if names.contains(k) {
                            assert(names.push(name@)[names.index_of(k)] == k);
                        }
                        if k == name@ {
                            assert(names.push(name@)[names.len() as int] == k);
                        }
                    }
                    assert(self@ =~= old(self)@.insert(name@, value));
                }
                None
            },
        }
    }
}

} // verus!
