//! The persistent key/value store beneath the state: 256-bit keys to 256-bit values,
//! where an absent key reads as zero.

use crate::word::{zero_word, Word};
use crate::word_map::WordMap;
use vstd::prelude::*;

verus! {

/// What a store holds at `key`: zero when the key is absent.
pub open spec fn kv_get(m: Map<Word, Word>, key: Word) -> Word {
    if m.contains_key(key) {
        m[key]
    } else {
        zero_word()
    }
}

/// The store after writing `value` at `key`; writing zero erases the key.
pub open spec fn kv_set(m: Map<Word, Word>, key: Word, value: Word) -> Map<Word, Word> {
    if value == zero_word() {
        m.remove(key)
    } else {
        m.insert(key, value)
    }
}

/// After a write, the written key reads as the written value and every other key as before.
pub proof fn lemma_kv_set_get(m: Map<Word, Word>, key: Word, value: Word, other: Word)
    ensures
        kv_get(kv_set(m, key, value), other) == (if other == key {
            value
        } else {
            kv_get(m, other)
        }),
{
}

/// A key/value store.
pub trait Database {
    /// The keys that the store holds, with their values.
    spec fn kv(&self) -> Map<Word, Word>;

    /// Returns the value at the specified key slot.
    fn get(&self, key: Word) -> (r: Word)
        ensures
            r == kv_get(self.kv(), key),
    ;

    /// Sets the value at the specified key slot.
    fn set(&mut self, key: Word, value: Word)
        ensures
            final(self).kv() == kv_set(old(self).kv(), key, value),
    ;
}

/// A store held in memory.
pub struct MemoryDatabase {
    db: WordMap,
}

impl MemoryDatabase {
    /// Creates a new in-memory database.
    pub fn new() -> (r: Self)
        ensures
            r.kv() == Map::<Word, Word>::empty(),
    {
        MemoryDatabase { db: WordMap::new() }
    }
}

impl Database for MemoryDatabase {
    closed spec fn kv(&self) -> Map<Word, Word> {
        self.db@
    }

    fn get(&self, key: Word) -> (r: Word) {
        match self.db.get(key) {
            Some(v) => v,
            None => Word::zero(),
        }
    }

    fn set(&mut self, key: Word, value: Word) {
        if value.is_zero() {
            self.db.remove(key);
        } else {
            self.db.insert(key, value);
        }
    }
}

} // verus!
