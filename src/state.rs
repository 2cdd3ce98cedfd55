//! Storage as the interpreter sees it: pending writes over a backing store, with
//! commit and rollback.

use crate::db::{kv_get, Database};
use crate::word::{zero_word, Word};
use crate::word_map::{pairs_map, WordMap};
use vstd::prelude::*;

verus! {

/// What storage reads at `key`: the pending write if there is one, else the store.
pub open spec fn read_through(pending: Map<Word, Word>, kv: Map<Word, Word>, key: Word) -> Word {
    if pending.contains_key(key) {
        pending[key]
    } else {
        kv_get(kv, key)
    }
}

/// A load after a store returns the stored value.
pub proof fn lemma_store_then_load(pending: Map<Word, Word>, kv: Map<Word, Word>, key: Word, value: Word)
    ensures
        read_through(pending.insert(key, value), kv, key) == value,
{
}

/// With nothing pending, as after a rollback, a load returns what the store holds.
pub proof fn lemma_rollback_reads_store(kv: Map<Word, Word>, key: Word)
    ensures
        read_through(Map::empty(), kv, key) == kv_get(kv, key),
{
}

/// Once committed, writes stay: with nothing pending (a rollback, or a fresh state
/// over the store), a load returns what was read before the commit.
pub proof fn lemma_commit_persists(
    pending: Map<Word, Word>,
    kv: Map<Word, Word>,
    committed: Map<Word, Word>,
    key: Word,
)
    requires
        forall|k: Word| #[trigger] kv_get(committed, k) == read_through(pending, kv, k),
    ensures
        read_through(Map::empty(), committed, key) == read_through(pending, kv, key),
{
    assert(kv_get(committed, key) == read_through(pending, kv, key));
}

/// Storing zero and committing leaves the key reading as zero.
pub proof fn lemma_commit_zero(
    pending: Map<Word, Word>,
    kv: Map<Word, Word>,
    committed: Map<Word, Word>,
    key: Word,
)
    requires
        forall|k: Word|
            #[trigger] kv_get(committed, k) == read_through(pending.insert(key, zero_word()), kv, k),
    ensures
        read_through(Map::empty(), committed, key) == zero_word(),
{
    assert(kv_get(committed, key) == read_through(pending.insert(key, zero_word()), kv, key));
}

/// Committing the same writes a second time changes no read.
pub proof fn lemma_commit_idempotent(
    pending: Map<Word, Word>,
    kv: Map<Word, Word>,
    once: Map<Word, Word>,
    twice: Map<Word, Word>,
    key: Word,
)
    requires
        forall|k: Word| #[trigger] kv_get(once, k) == read_through(pending, kv, k),
        forall|k: Word| #[trigger] kv_get(twice, k) == read_through(pending, once, k),
    ensures
        kv_get(twice, key) == kv_get(once, key),
{
    assert(kv_get(twice, key) == read_through(pending, once, key));
    assert(kv_get(once, key) == read_through(pending, kv, key));
}

pub struct State<DB> {
    db: DB,
    cache: WordMap,
}

impl<DB: Database> State<DB> {
    /// The backing store.
    pub closed spec fn kv(&self) -> Map<Word, Word> {
        self.db.kv()
    }

    /// The writes not yet committed.
    pub closed spec fn pending(&self) -> Map<Word, Word> {
        self.cache@
    }

    /// What a load of `key` returns.
    pub open spec fn read(&self, key: Word) -> Word {
        read_through(self.pending(), self.kv(), key)
    }

    /// Creates a new state over the given store, with no pending writes.
    pub fn new(db: DB) -> (r: Self)
        ensures
            r.kv() == db.kv(),
            r.pending() == Map::<Word, Word>::empty(),
    {
        State { db, cache: WordMap::new() }
    }

    /// The backing store.
    pub fn db(&self) -> (r: &DB)
        ensures
            r.kv() == self.kv(),
    {
        &self.db
    }

    /// Gives back the backing store, dropping the pending writes.
    pub fn into_db(self) -> (r: DB)
        ensures
            r.kv() == self.kv(),
    {
        self.db
    }

    /// Returns the value at the specified key from this state.
    pub fn load(&self, key: Word) -> (r: Word)
        ensures
            r == self.read(key),
    {
        match self.cache.get(key) {
            Some(v) => v,
            None => self.db.get(key),
        }
    }

    /// Stores the given key-value to the pending change set.
    pub fn store(&mut self, key: Word, value: Word)
        ensures
            final(self).kv() == old(self).kv(),
            final(self).pending() == old(self).pending().insert(key, value),
    {
        self.cache.insert(key, value);
    }

    /// Reverts all the pending changes and goes back to database state.
    pub fn rollback(&mut self)
        ensures
            final(self).kv() == old(self).kv(),
            final(self).pending() == Map::<Word, Word>::empty(),
    {
        self.cache.clear();
    }

    /// Commits all the pending changes to the database.
    pub fn commit(&mut self)
        ensures
            final(self).pending() == Map::<Word, Word>::empty(),
            forall|k: Word| #[trigger] kv_get(final(self).kv(), k) == old(self).read(k),
    {
        let n = self.cache.len();
        let mut i: usize = 0;
        while i < n
            invariant
                n == self.cache.entries().len(),
                i <= n,
                self.cache == old(self).cache,
                forall|k: Word|
                    #![trigger kv_get(self.db.kv(), k)]
                    kv_get(self.db.kv(), k) == read_through(
                        pairs_map(self.cache.entries().subrange(0, i as int)),
                        old(self).db.kv(),
                        k,
                    ),
            decreases n - i,
        {
            let (k, v) = self.cache.entry(i);
            let ghost before = self.db.kv();
            self.db.set(k, v);
            proof {
                let s = self.cache.entries();
                assert(s.subrange(0, i + 1).drop_last() =~= s.subrange(0, i as int));
                assert(s.subrange(0, i + 1).last() == s[i as int]);
                assert forall|k2: Word| #[trigger]
                    kv_get(self.db.kv(), k2) == read_through(
                        pairs_map(s.subrange(0, i + 1)),
                        old(self).db.kv(),
                        k2,
                    ) by {
                    crate::db::lemma_kv_set_get(before, k, v, k2);
                }
            }
            i += 1;
        }
        proof {
            assert(self.cache.entries().subrange(0, n as int) =~= self.cache.entries());
        }
        self.cache.clear();
    }
}

} // verus!
