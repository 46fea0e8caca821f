//! A small table from strings to values, kept as a list of pairs in which
//! no key occurs twice.

use vstd::prelude::*;

verus! {

/// The map that a list of pairs stands for: each pair binds its key, and
/// a later pair takes the place of an earlier one with the same key.
pub open spec fn pairs_map<W>(pairs: Seq<(Seq<char>, W)>) -> Map<Seq<char>, W>
    decreases pairs.len(),
{
    if pairs.len() == 0 {
        Map::empty()
    } else {
        pairs_map(pairs.drop_last()).insert(pairs.last().0, pairs.last().1)
    }
}

/// Whether no key occurs twice in `pairs`.
pub open spec fn keys_unique<W>(pairs: Seq<(Seq<char>, W)>) -> bool {
    forall|i: int, j: int|
        0 <= i < j < pairs.len() ==> (#[trigger] pairs[i]).0 != (#[trigger] pairs[j]).0
}

/// A key that no pair holds is not bound.
pub proof fn lemma_pairs_map_absent<W>(pairs: Seq<(Seq<char>, W)>, key: Seq<char>)
    requires
        forall|i: int| 0 <= i < pairs.len() ==> (#[trigger] pairs[i]).0 != key,
    ensures
        !pairs_map(pairs).contains_key(key),
    decreases pairs.len(),
{
    if pairs.len() > 0 {
        lemma_pairs_map_absent(pairs.drop_last(), key);
    }
}

/// Where the keys are unique, each pair's key is bound to its value.
pub proof fn lemma_pairs_map_present<W>(pairs: Seq<(Seq<char>, W)>, at: int)
    requires
        keys_unique(pairs),
        0 <= at < pairs.len(),
    ensures
        pairs_map(pairs).contains_key(pairs[at].0),
        pairs_map(pairs)[pairs[at].0] == pairs[at].1,
    decreases pairs.len(),
{
    if at < pairs.len() - 1 {
        let rest = pairs.drop_last();
        assert(pairs[at] == rest[at]);
        assert(pairs[pairs.len() - 1].0 != pairs[at].0);
        lemma_pairs_map_present(rest, at);
    }
}

/// Where the keys are unique, a new value in the pair at `at` rebinds that
/// pair's key and leaves the rest.
pub proof fn lemma_pairs_map_update<W>(pairs: Seq<(Seq<char>, W)>, at: int, value: W)
    requires
        keys_unique(pairs),
        0 <= at < pairs.len(),
    ensures
        pairs_map(pairs.update(at, (pairs[at].0, value))) == pairs_map(pairs).insert(
            pairs[at].0,
            value,
        ),
    decreases pairs.len(),
{
    let updated = pairs.update(at, (pairs[at].0, value));
    if at == pairs.len() - 1 {
        assert(updated.drop_last() =~= pairs.drop_last());
        assert(pairs_map(updated) =~= pairs_map(pairs).insert(pairs[at].0, value));
    } else {
        let rest = pairs.drop_last();
        assert(pairs[at] == rest[at]);
        assert(pairs[pairs.len() - 1].0 != pairs[at].0);
        assert(updated.drop_last() =~= rest.update(at, (rest[at].0, value)));
        lemma_pairs_map_update(rest, at, value);
        assert(pairs_map(updated) =~= pairs_map(pairs).insert(pairs[at].0, value));
    }
}

/// A table from strings to values.
#[derive(Debug)]
pub struct Table<V> {
    entries: Vec<(String, V)>,
}

impl<V: View> Table<V> {
    /// The pairs of the table, in the order in which their keys came.
    pub closed spec fn pairs(&self) -> Seq<(Seq<char>, V::V)> {
        self.entries@.map_values(|e: (String, V)| (e.0@, e.1@))
    }

    /// The invariant of a table: no key occurs twice.
    pub open spec fn wf(&self) -> bool {
        keys_unique(self.pairs())
    }

    /// An empty table.
    pub fn new() -> (table: Self)
        ensures
            table.wf(),
            table@ == Map::<Seq<char>, V::V>::empty(),
            table.pairs().len() == 0,
    {
        Table { entries: Vec::new() }
    }

    /// The number of keys.
    pub fn len(&self) -> (n: usize)
        ensures
            n == self.pairs().len(),
    {
        self.entries.len()
    }

    /// The key of the pair at `at`.
    pub fn key_at(&self, at: usize) -> (key: &String)
        requires
            at < self.pairs().len(),
        ensures
            key@ == self.pairs()[at as int].0,
    {
        &self.entries[at].0
    }

    /// The value of the pair at `at`.
    pub fn value_at(&self, at: usize) -> (value: &V)
        requires
            at < self.pairs().len(),
        ensures
            value@ == self.pairs()[at as int].1,
    {
        &self.entries[at].1
    }

    /// The place of the pair with key `key`, if there is one.
    fn find(&self, key: &String) -> (place: Option<usize>)
        ensures
            match place {
                Some(at) => at < self.pairs().len() && self.pairs()[at as int].0 == key@,
                None => forall|i: int|
                    0 <= i < self.pairs().len() ==> (#[trigger] self.pairs()[i]).0 != key@,
            },
    {
        let mut i: usize = 0;
        while i < self.entries.len()
            invariant
                i <= self.entries.len(),
                forall|j: int| 0 <= j < i ==> (#[trigger] self.pairs()[j]).0 != key@,
            decreases self.entries.len() - i,
        {
            if self.entries[i].0 == *key {
                return Some(i);
            }
            i += 1;
        }
        None
    }

    /// Whether `key` is bound.
    pub fn contains_key(&self, key: &String) -> (b: bool)
        requires
            self.wf(),
        ensures
            b == self@.contains_key(key@),
    {
        match self.find(key) {
            Some(at) => {
                proof {
                    lemma_pairs_map_present(self.pairs(), at as int);
                }
                true
            },
            None => {
                proof {
                    lemma_pairs_map_absent(self.pairs(), key@);
                }
                false
            },
        }
    }

    /// The value that `key` is bound to, if it is bound.
    pub fn get(&self, key: &String) -> (value: Option<&V>)
        requires
            self.wf(),
        ensures
            match value {
                Some(v) => self@.contains_key(key@) && self@[key@] == v@,
                None => !self@.contains_key(key@),
            },
    {
        match self.find(key) {
            Some(at) => {
                proof {
                    lemma_pairs_map_present(self.pairs(), at as int);
                }
                Some(&self.entries[at].1)
            },
            None => {
                proof {
                    lemma_pairs_map_absent(self.pairs(), key@);
                }
                None
            },
        }
    }

    /// Binds `key` to `value`, in place of what it was bound to.
    pub fn insert(&mut self, key: String, value: V)
        requires
            old(self).wf(),
        ensures
            final(self).wf(),
            final(self)@ == old(self)@.insert(key@, value@),
    {
        let ghost before = self.pairs();
        match self.find(&key) {
            Some(at) => {
                proof {
                    lemma_pairs_map_update(before, at as int, value@);
                }
                self.entries[at] = (key, value);
                assert(self.pairs() =~= before.update(at as int, (before[at as int].0, value@)));
            },
            None => {
                self.entries.push((key, value));
                assert(self.pairs() =~= before.push((key@, value@)));
                assert(self.pairs().drop_last() =~= before);
            },
        }
    }

    /// Unbinds every key.
    pub fn clear(&mut self)
        ensures
            final(self).wf(),
            final(self)@ == Map::<Seq<char>, V::V>::empty(),
            final(self).pairs().len() == 0,
    {
        self.entries = Vec::new();
    }
}

impl<V: View> View for Table<V> {
    type V = Map<Seq<char>, V::V>;

    open spec fn view(&self) -> Map<Seq<char>, V::V> {
        pairs_map(self.pairs())
    }
}

} // verus!
