//! A small name-keyed map, used for variables, function tables, class
//! tables and object fields.
//!
//! Entries are kept in insertion order in a vector, with the invariant that
//! no two entries share a key.  The abstract view is a `Map` from character
//! sequences to values; the concrete order is still observable through the
//! indexed accessors, which the artifact codec relies on.

use vstd::prelude::*;

verus! {

/// An ordered map from string names to values of type `V`.
#[derive(Debug, Clone)]
pub struct NameMap<V> {
    entries: Vec<(String, V)>,
}

/// The abstract map denoted by an entry sequence: later entries win,
/// although a well-formed map never repeats a key.
pub open spec fn map_of<V>(entries: Seq<(String, V)>) -> Map<Seq<char>, V>
    decreases entries.len(),
{
    if entries.len() == 0 {
        Map::empty()
    } else {
        map_of(entries.drop_last()).insert(entries.last().0@, entries.last().1)
    }
}

impl<V> NameMap<V> {
    /// The abstract map held.
    pub closed spec fn view(&self) -> Map<Seq<char>, V> {
        map_of(self.entries@)
    }

    /// The underlying entry sequence, in insertion order.
    pub closed spec fn entries_seq(&self) -> Seq<(String, V)> {
        self.entries@
    }

    /// Well-formedness: no two entries share a key.
    pub closed spec fn wf(&self) -> bool {
        forall|i: int, j: int|
            0 <= i < j < self.entries@.len() ==> self.entries@[i].0@ != self.entries@[j].0@
    }

    /// An empty map.
    pub fn new() -> (r: Self)
        ensures
            r@ == Map::<Seq<char>, V>::empty(),
            r.wf(),
            r.entries_seq().len() == 0,
    {
        NameMap { entries: Vec::new() }
    }

    /// The number of entries held.
    pub fn len(&self) -> (r: usize)
        ensures
            r == self.entries_seq().len(),
    {
        self.entries.len()
    }

    /// The name of the entry at a position, in insertion order.
    pub fn key_at(&self, i: usize) -> (r: &String)
        requires
            i < self.entries_seq().len(),
        ensures
            *r == self.entries_seq()[i as int].0,
    {
        &self.entries[i].0
    }

    /// The value of the entry at a position, in insertion order.
    pub fn value_at(&self, i: usize) -> (r: &V)
        requires
            i < self.entries_seq().len(),
        ensures
            *r == self.entries_seq()[i as int].1,
    {
        &self.entries[i].1
    }

    /// Looks a name up.
    pub fn get(&self, name: &str) -> (r: Option<&V>)
        requires
            self.wf(),
        ensures
            match r {
                Some(v) => self@.contains_key(name@) && *v == self@[name@],
                None => !self@.contains_key(name@),
            },
    {
        let n = self.entries.len();
        let owned = name.to_owned();
        let mut i: usize = 0;
        while i < n
            invariant
                self.wf(),
                n == self.entries@.len(),
                i <= n,
                owned@ == name@,
                forall|j: int| 0 <= j < i ==> self.entries@[j].0@ != name@,
            decreases n - i,
        {
            if self.entries[i].0 == owned {
                proof {
                    lemma_map_of_present(self.entries@, i as int);
                }
                return Some(&self.entries[i].1);
            }
            i = i + 1;
        }
        proof {
            lemma_map_of_absent(self.entries@, name@);
        }
        None
    }

    /// Whether a name is present.
    pub fn contains_key(&self, name: &str) -> (r: bool)
        requires
            self.wf(),
        ensures
            r == self@.contains_key(name@),
    {
        match self.get(name) {
            Some(_) => true,
            None => false,
        }
    }

    /// Binds a name to a value, replacing any previous binding.
    pub fn insert(&mut self, name: String, value: V)
        requires
            old(self).wf(),
        ensures
            final(self).wf(),
            final(self)@ == old(self)@.insert(name@, value),
            final(self).entries_seq().len() <= old(self).entries_seq().len() + 1,
            !old(self)@.contains_key(name@) ==> final(self).entries_seq() == old(self).entries_seq().push((name, value)),
    {
        let n = self.entries.len();
        let mut i: usize = 0;
        while i < n
            invariant
                self == old(self),
                self.wf(),
                n == self.entries@.len(),
                i <= n,
                forall|j: int| 0 <= j < i ==> self.entries@[j].0@ != name@,
            decreases n - i,
        {
            if self.entries[i].0 == name {
                let ghost old_entries = self.entries@;
                proof {
                    lemma_map_of_present(old_entries, i as int);
                }
                self.entries.set(i, (name, value));
                proof {
                    lemma_map_of_update(old_entries, i as int, self.entries@[i as int]);
                }
                return ;
            }
            i = i + 1;
        }
        let ghost old_entries = self.entries@;
        self.entries.push((name, value));
        proof {
            assert(self.entries@.drop_last() =~= old_entries);
        }
    }
}

/// The abstract map is the one denoted by the entry sequence.
pub proof fn lemma_view_of_entries<V>(m: &NameMap<V>)
    ensures
        m@ == map_of(m.entries_seq()),
{
}

/// Well-formedness is exactly the distinctness of the entry keys.
pub proof fn lemma_wf_entries_distinct<V>(m: &NameMap<V>)
    ensures
        m.wf() <==> (forall|i: int, j: int|
            0 <= i < j < m.entries_seq().len() ==> m.entries_seq()[i].0@
                != m.entries_seq()[j].0@),
{
    if m.wf() {
        assert forall|i: int, j: int|
            0 <= i < j < m.entries_seq().len() implies m.entries_seq()[i].0@
            != m.entries_seq()[j].0@ by {
            assert(m.entries@[i].0@ != m.entries@[j].0@);
        }
    }
    if forall|i: int, j: int|
        0 <= i < j < m.entries_seq().len() ==> m.entries_seq()[i].0@ != m.entries_seq()[j].0@ {
        assert forall|i: int, j: int|
            0 <= i < j < m.entries@.len() implies m.entries@[i].0@ != m.entries@[j].0@ by {
            assert(m.entries_seq()[i].0@ != m.entries_seq()[j].0@);
        }
    }
}

/// In a well-formed entry sequence, the abstract map sends the key of entry
/// `i` to that entry's value.
pub proof fn lemma_map_of_present<V>(entries: Seq<(String, V)>, i: int)
    requires
        0 <= i < entries.len(),
        forall|p: int, q: int|
            0 <= p < q < entries.len() ==> entries[p].0@ != entries[q].0@,
    ensures
        map_of(entries).contains_key(entries[i].0@),
        map_of(entries)[entries[i].0@] == entries[i].1,
    decreases entries.len(),
{
    if i == entries.len() - 1 {
    } else {
        lemma_map_of_present(entries.drop_last(), i);
    }
}

/// A key that appears in no entry is absent from the abstract map.
pub proof fn lemma_map_of_absent<V>(entries: Seq<(String, V)>, key: Seq<char>)
    requires
        forall|j: int| 0 <= j < entries.len() ==> entries[j].0@ != key,
    ensures
        !map_of(entries).contains_key(key),
    decreases entries.len(),
{
    if entries.len() > 0 {
        lemma_map_of_absent(entries.drop_last(), key);
    }
}

/// Replacing entry `i` by a new entry with the same key updates the
/// abstract map at that key.
proof fn lemma_map_of_update<V>(entries: Seq<(String, V)>, i: int, e: (String, V))
    requires
        0 <= i < entries.len(),
        forall|p: int, q: int|
            0 <= p < q < entries.len() ==> entries[p].0@ != entries[q].0@,
        e.0@ == entries[i].0@,
    ensures
        map_of(entries.update(i, e)) == map_of(entries).insert(e.0@, e.1),
    decreases entries.len(),
{
    let updated = entries.update(i, e);
    if i == entries.len() - 1 {
        assert(updated.drop_last() =~= entries.drop_last());
        assert(map_of(updated) =~= map_of(entries).insert(e.0@, e.1));
    } else {
        lemma_map_of_update(entries.drop_last(), i, e);
        assert(updated.drop_last() =~= entries.drop_last().update(i, e));
        assert(updated.last() == entries.last());
        assert(map_of(updated) == map_of(entries.drop_last().update(i, e)).insert(
            entries.last().0@,
            entries.last().1,
        ));
        assert(map_of(entries.drop_last().update(i, e)) == map_of(entries.drop_last()).insert(
            e.0@,
            e.1,
        ));
        assert(entries.last().0@ != e.0@);
        assert(map_of(entries.drop_last()).insert(e.0@, e.1).insert(
            entries.last().0@,
            entries.last().1,
        ) =~= map_of(entries.drop_last()).insert(entries.last().0@, entries.last().1).insert(
            e.0@,
            e.1,
        ));
    }
}

} // verus!
