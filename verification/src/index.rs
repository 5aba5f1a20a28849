//! The in-memory index: the authoritative read-side view of the store.

use vstd::prelude::*;

verus! {

/// The map denoted by an association list; a later entry for a key wins.
pub open spec fn assoc_map(entries: Seq<(String, String)>) -> Map<Seq<char>, Seq<char>>
    decreases entries.len(),
{
    if entries.len() == 0 {
        Map::empty()
    } else {
        assoc_map(entries.drop_last()).insert(entries.last().0@, entries.last().1@)
    }
}

/// No key occurs twice.
pub open spec fn distinct_keys(entries: Seq<(String, String)>) -> bool {
    forall|i: int, j: int|
        0 <= i < j < entries.len() ==> entries[i].0@ != entries[j].0@
}

/// A key is in the map exactly when some entry holds it.
pub proof fn lemma_assoc_contains(entries: Seq<(String, String)>, k: Seq<char>)
    ensures
        assoc_map(entries).contains_key(k) <==> (exists|i: int|
            0 <= i < entries.len() && entries[i].0@ == k),
    decreases entries.len(),
{
    if entries.len() > 0 {
        lemma_assoc_contains(entries.drop_last(), k);
        assert(forall|i: int|
            0 <= i < entries.len() - 1 ==> entries.drop_last()[i] == entries[i]);
        if entries.last().0@ == k {
            assert(entries[entries.len() - 1].0@ == k);
        }
    }
}

/// With distinct keys, the map's value for an entry's key is that entry's value.
pub proof fn lemma_assoc_value(entries: Seq<(String, String)>, i: int)
    requires
        distinct_keys(entries),
        0 <= i < entries.len(),
    ensures
        assoc_map(entries).contains_key(entries[i].0@),
        assoc_map(entries)[entries[i].0@] == entries[i].1@,
    decreases entries.len(),
{
    lemma_assoc_contains(entries, entries[i].0@);
    if i < entries.len() - 1 {
        assert(forall|j: int|
            0 <= j < entries.len() - 1 ==> entries.drop_last()[j] == entries[j]);
        lemma_assoc_value(entries.drop_last(), i);
    }
}

/// With distinct keys, dropping entry `i` removes exactly its key.
pub proof fn lemma_assoc_remove(entries: Seq<(String, String)>, i: int)
    requires
        distinct_keys(entries),
        0 <= i < entries.len(),
    ensures
        assoc_map(entries.remove(i)) == assoc_map(entries).remove(entries[i].0@),
    decreases entries.len(),
{
    let k = entries[i].0@;
    if i == entries.len() - 1 {
        assert(entries.remove(i) =~= entries.drop_last());
        lemma_assoc_contains(entries.drop_last(), k);
        assert(forall|j: int|
            0 <= j < entries.len() - 1 ==> entries.drop_last()[j] == entries[j]);
        assert(!assoc_map(entries.drop_last()).contains_key(k));
        assert(assoc_map(entries.drop_last()).insert(k, entries.last().1@).remove(k)
            =~= assoc_map(entries.drop_last()));
        assert(assoc_map(entries.remove(i)) =~= assoc_map(entries).remove(k));
    } else {
        assert(forall|j: int|
            0 <= j < entries.len() - 1 ==> entries.drop_last()[j] == entries[j]);
        lemma_assoc_remove(entries.drop_last(), i);
        assert(entries.remove(i).drop_last() =~= entries.drop_last().remove(i));
        assert(entries.remove(i).last() == entries.last());
        let last = entries.last();
        assert(k != last.0@);
        assert(assoc_map(entries.drop_last()).remove(k).insert(last.0@, last.1@)
            =~= assoc_map(entries.drop_last()).insert(last.0@, last.1@).remove(k));
        assert(assoc_map(entries.remove(i)) =~= assoc_map(entries).remove(k));
    }
}

/// How `Index::set` rearranges the entry list: the entry holding the key is
/// replaced (dropped and the new pair appended), or the new pair is appended.
pub open spec fn set_updates_entries(
    before: Seq<(String, String)>,
    after: Seq<(String, String)>,
    key: String,
    value: String,
) -> bool {
    (exists|i: int|
        0 <= i < before.len() && (#[trigger] before[i]).0@ == key@ && after == before.remove(
            i,
        ).push((key, value))) || after == before.push((key, value))
}

/// How `Index::remove` rearranges the entry list: the entry holding the key
/// is dropped, or (when the key is absent) nothing changes.
pub open spec fn remove_updates_entries(
    before: Seq<(String, String)>,
    after: Seq<(String, String)>,
    key: String,
) -> bool {
    (exists|i: int|
        0 <= i < before.len() && (#[trigger] before[i]).0@ == key@ && after == before.remove(i))
        || after == before
}

/// The in-memory key-to-value mapping. Keys are unique; the abstract view is
/// a finite map from a key's characters to its value's characters.
pub struct Index {
    pub entries: Vec<(String, String)>,
}

impl View for Index {
    type V = Map<Seq<char>, Seq<char>>;

    open spec fn view(&self) -> Map<Seq<char>, Seq<char>> {
        assoc_map(self.entries@)
    }
}

impl Index {
    /// Well-formed: no key occurs twice.
    pub open spec fn wf(&self) -> bool {
        distinct_keys(self.entries@)
    }

    /// An empty index.
    pub fn new() -> (r: Index)
        ensures
            r.wf(),
            r@ == Map::<Seq<char>, Seq<char>>::empty(),
            r.entries@.len() == 0,
    {
        Index { entries: Vec::new() }
    }

    /// The position of the entry holding `key`, if any.
    fn find(&self, key: &String) -> (r: Option<usize>)
        ensures
            match r {
                Some(i) => i < self.entries@.len() && self.entries@[i as int].0@ == key@,
                None => forall|i: int|
                    0 <= i < self.entries@.len() ==> self.entries@[i].0@ != key@,
            },
    {
        let mut i: usize = 0;
        while i < self.entries.len()
            invariant
                i <= self.entries@.len(),
                forall|j: int| 0 <= j < i ==> self.entries@[j].0@ != key@,
            decreases self.entries@.len() - i,
        {
            if self.entries[i].0 == *key {
                return Some(i);
            }
            i += 1;
        }
        None
    }

    /// A copy of the value for `key`, or nothing when the key is absent.
    pub fn get(&self, key: &String) -> (r: Option<String>)
        requires
            self.wf(),
        ensures
            match r {
                Some(v) => self@.contains_key(key@) && v@ == self@[key@],
                None => !self@.contains_key(key@),
            },
    {
        proof {
            lemma_assoc_contains(self.entries@, key@);
        }
        match self.find(key) {
            Some(i) => {
                proof {
                    lemma_assoc_value(self.entries@, i as int);
                }
                Some(self.entries[i].1.clone())
            },
            None => None,
        }
    }

    /// Inserts or overwrites the value for `key`.
    pub fn set(&mut self, key: String, value: String)
        requires
            old(self).wf(),
        ensures
            final(self).wf(),
            final(self)@ == old(self)@.insert(key@, value@),
            set_updates_entries(old(self).entries@, final(self).entries@, key, value),
    {
        let ghost before = self.entries@;
        match self.find(&key) {
            Some(i) => {
                proof {
                    lemma_assoc_remove(before, i as int);
                }
                self.entries.remove(i);
                assert forall|a: int, b: int|
                    0 <= a < b < self.entries@.len() implies self.entries@[a].0@
                    != self.entries@[b].0@ by {
                    assert(self.entries@[a] == if a < i as int {
                        before[a]
                    } else {
                        before[a + 1]
                    });
                    assert(self.entries@[b] == if b < i as int {
                        before[b]
                    } else {
                        before[b + 1]
                    });
                }
                assert(forall|j: int|
                    0 <= j < self.entries@.len() ==> self.entries@[j].0@ != key@);
                let ghost mid = self.entries@;
                self.entries.push((key, value));
                proof {
                    assert(self.entries@.drop_last() =~= mid);
                    lemma_assoc_contains(mid, self.entries@.last().0@);
                    assert(assoc_map(self.entries@) =~= assoc_map(before).insert(
                        self.entries@.last().0@,
                        self.entries@.last().1@,
                    ));
                }
            },
            None => {
                self.entries.push((key, value));
                proof {
                    assert(self.entries@.drop_last() =~= before);
                }
            },
        }
    }

    /// Deletes the entry for `key`; reports whether the key was present.
    pub fn remove(&mut self, key: &String) -> (r: bool)
        requires
            old(self).wf(),
        ensures
            final(self).wf(),
            r == old(self)@.contains_key(key@),
            final(self)@ == old(self)@.remove(key@),
            remove_updates_entries(old(self).entries@, final(self).entries@, *key),
            r ==> final(self).entries@.len() == old(self).entries@.len() - 1,
            !r ==> *final(self) == *old(self),
    {
        let ghost before = self.entries@;
        proof {
            lemma_assoc_contains(before, key@);
        }
        match self.find(key) {
            Some(i) => {
                proof {
                    lemma_assoc_remove(before, i as int);
                }
                self.entries.remove(i);
                assert forall|a: int, b: int|
                    0 <= a < b < self.entries@.len() implies self.entries@[a].0@
                    != self.entries@[b].0@ by {
                    assert(self.entries@[a] == if a < i as int {
                        before[a]
                    } else {
                        before[a + 1]
                    });
                    assert(self.entries@[b] == if b < i as int {
                        before[b]
                    } else {
                        before[b + 1]
                    });
                }
                true
            },
            None => {
                proof {
                    assert(assoc_map(before).remove(key@) =~= assoc_map(before));
                }
                false
            },
        }
    }

    /// The number of live keys.
    pub fn len(&self) -> (r: usize)
        ensures
            r == self.entries@.len(),
    {
        self.entries.len()
    }
}

} // verus!
