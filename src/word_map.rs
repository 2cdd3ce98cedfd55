//! A finite map from words to words, kept as a vector of entries with distinct keys.

use crate::word::Word;
use vstd::prelude::*;

verus! {

/// The map that a list of entries describes; a later entry overrides an earlier one.
pub open spec fn pairs_map(s: Seq<(Word, Word)>) -> Map<Word, Word>
    decreases s.len(),
{
    if s.len() == 0 {
        Map::empty()
    } else {
        pairs_map(s.drop_last()).insert(s.last().0, s.last().1)
    }
}

/// No key occurs in two entries.
pub open spec fn keys_unique(s: Seq<(Word, Word)>) -> bool {
    forall|i: int, j: int| 0 <= i < j < s.len() ==> s[i].0 != s[j].0
}

/// A key that no entry holds is not in the map.
pub proof fn lemma_pairs_map_absent(s: Seq<(Word, Word)>, k: Word)
    requires
        forall|i: int| 0 <= i < s.len() ==> s[i].0 != k,
    ensures
        !pairs_map(s).contains_key(k),
    decreases s.len(),
{
    if s.len() > 0 {
        lemma_pairs_map_absent(s.drop_last(), k);
    }
}

/// With distinct keys, each entry is found in the map.
pub proof fn lemma_pairs_map_find(s: Seq<(Word, Word)>, i: int)
    requires
        keys_unique(s),
        0 <= i < s.len(),
    ensures
        pairs_map(s).contains_key(s[i].0),
        pairs_map(s)[s[i].0] == s[i].1,
    decreases s.len(),
{
    if i < s.len() - 1 {
        lemma_pairs_map_find(s.drop_last(), i);
    }
}

/// With distinct keys, changing the value of one entry changes that key alone.
pub proof fn lemma_pairs_map_update(s: Seq<(Word, Word)>, i: int, v: Word)
    requires
        keys_unique(s),
        0 <= i < s.len(),
    ensures
        pairs_map(s.update(i, (s[i].0, v))) == pairs_map(s).insert(s[i].0, v),
    decreases s.len(),
{
    let t = s.update(i, (s[i].0, v));
    if i == s.len() - 1 {
        assert(t.drop_last() =~= s.drop_last());
        assert(pairs_map(t) =~= pairs_map(s).insert(s[i].0, v));
    } else {
        let init = s.drop_last();
        lemma_pairs_map_update(init, i, v);
        assert(t.drop_last() =~= init.update(i, (s[i].0, v)));
        assert(pairs_map(t) =~= pairs_map(s).insert(s[i].0, v));
    }
}

/// With distinct keys, dropping an entry drops its key alone.
pub proof fn lemma_pairs_map_remove(s: Seq<(Word, Word)>, i: int)
    requires
        keys_unique(s),
        0 <= i < s.len(),
    ensures
        pairs_map(s.remove(i)) == pairs_map(s).remove(s[i].0),
    decreases s.len(),
{
    let init = s.drop_last();
    if i == s.len() - 1 {
        assert(s.remove(i) =~= init);
        lemma_pairs_map_absent(init, s[i].0);
        assert(pairs_map(s.remove(i)) =~= pairs_map(s).remove(s[i].0));
    } else {
        lemma_pairs_map_remove(init, i);
        assert(s.remove(i).drop_last() =~= init.remove(i));
        assert(s.remove(i).last() == s.last());
        assert(pairs_map(s.remove(i)) =~= pairs_map(s).remove(s[i].0));
    }
}

pub struct WordMap {
    entries: Vec<(Word, Word)>,
}

impl View for WordMap {
    type V = Map<Word, Word>;

    open spec fn view(&self) -> Map<Word, Word> {
        pairs_map(self.entries())
    }
}

impl WordMap {
    #[verifier::type_invariant]
    spec fn distinct_keys(self) -> bool {
        keys_unique(self.entries@)
    }

    /// The entries, in the order they are kept.
    pub closed spec fn entries(&self) -> Seq<(Word, Word)> {
        self.entries@
    }

    /// Creates an empty map.
    pub fn new() -> (m: Self)
        ensures
            m@ == Map::<Word, Word>::empty(),
            m.entries().len() == 0,
    {
        WordMap { entries: Vec::new() }
    }

    /// The number of entries.
    pub fn len(&self) -> (r: usize)
        ensures
            r == self.entries().len(),
    {
        self.entries.len()
    }

    /// The i-th entry.
    pub fn entry(&self, i: usize) -> (r: (Word, Word))
        requires
            i < self.entries().len(),
        ensures
            r == self.entries()[i as int],
    {
        self.entries[i]
    }

    /// The position of the entry with the given key.
    fn find(&self, key: Word) -> (r: Option<usize>)
        ensures
            match r {
                Some(i) => i < self.entries@.len() && self.entries@[i as int].0 == key,
                None => forall|i: int| 0 <= i < self.entries@.len() ==> self.entries@[i].0 != key,
            },
    {
        let mut i: usize = 0;
        while i < self.entries.len()
            invariant
                i <= self.entries@.len(),
                forall|j: int| 0 <= j < i ==> self.entries@[j].0 != key,
            decreases self.entries@.len() - i,
        {
            if self.entries[i].0.equals(key) {
                return Some(i);
            }
            i += 1;
        }
        None
    }

    /// The value at the given key, if any.
    pub fn get(&self, key: Word) -> (r: Option<Word>)
        ensures
            r == (if self@.contains_key(key) {
                Some(self@[key])
            } else {
                None::<Word>
            }),
    {
        proof {
            use_type_invariant(self);
        }
        match self.find(key) {
            Some(i) => {
                proof {
                    lemma_pairs_map_find(self.entries@, i as int);
                }
                Some(self.entries[i].1)
            },
            None => {
                proof {
                    lemma_pairs_map_absent(self.entries@, key);
                }
                None
            },
        }
    }

    /// Sets the value at the given key.
    pub fn insert(&mut self, key: Word, value: Word)
        ensures
            final(self)@ == old(self)@.insert(key, value),
    {
        proof {
            use_type_invariant(&*self);
        }
        let found = self.find(key);
        let mut v: Vec<(Word, Word)> = Vec::new();
        std::mem::swap(&mut v, &mut self.entries);
        match found {
            Some(i) => {
                proof {
                    lemma_pairs_map_update(v@, i as int, value);
                }
                v[i] = (key, value);
            },
            None => {
                v.push((key, value));
                assert(v@.drop_last() == old(self).entries@);
            },
        }
        self.entries = v;
    }

    /// Removes the given key, if present.
    pub fn remove(&mut self, key: Word)
        ensures
            final(self)@ == old(self)@.remove(key),
    {
        proof {
            use_type_invariant(&*self);
        }
        match self.find(key) {
            Some(i) => {
                let mut v: Vec<(Word, Word)> = Vec::new();
                std::mem::swap(&mut v, &mut self.entries);
                proof {
                    lemma_pairs_map_remove(v@, i as int);
                }
                v.remove(i);
                self.entries = v;
            },
            None => {
                proof {
                    lemma_pairs_map_absent(self.entries@, key);
                    assert(old(self)@.remove(key) =~= old(self)@);
                }
            },
        }
    }

    /// Removes every entry.
    pub fn clear(&mut self)
        ensures
            final(self)@ == Map::<Word, Word>::empty(),
            final(self).entries().len() == 0,
    {
        self.entries = Vec::new();
    }
}

} // verus!
