//! Byte-addressed memory that grows in 32-byte steps up to 65536 bytes.

use crate::types::Error;
use crate::word::{lemma_word_from_bytes, word_from_bytes, Word};
use vstd::prelude::*;

verus! {

/// The largest memory size in bytes.
pub const MAX_SIZE: usize = 65536;

/// Memory grows in steps of this many bytes.
pub const WORD_SIZE: usize = 32;

pub struct Mem {
    bytes: Vec<u8>,
}

impl View for Mem {
    type V = Seq<u8>;

    closed spec fn view(&self) -> Seq<u8> {
        self.bytes@
    }
}

/// n rounded up to a multiple of 32.
pub open spec fn ceil32(n: nat) -> nat {
    ((n + 31) / 32) * 32
}

/// The memory grown, with zero bytes, to the word-aligned size that holds `[0, end)`.
pub open spec fn grown(s: Seq<u8>, end: nat) -> Seq<u8> {
    if ceil32(end) > s.len() {
        s + Seq::new((ceil32(end) - s.len()) as nat, |i: int| 0u8)
    } else {
        s
    }
}

/// `s` with the bytes from `at` on replaced by `data`.
pub open spec fn overwrite(s: Seq<u8>, at: int, data: Seq<u8>) -> Seq<u8> {
    s.subrange(0, at) + data + s.subrange(at + data.len(), s.len() as int)
}

/// The `len` bytes from `start` on, with zero past the end of `s`.
pub open spec fn padded_window(s: Seq<u8>, start: int, len: int) -> Seq<u8> {
    Seq::new(len as nat, |i: int| if start + i < s.len() { s[start + i] } else { 0u8 })
}

/// Facts about rounding up to a multiple of 32.
pub proof fn lemma_ceil32(n: nat)
    ensures
        ceil32(n) >= n,
        ceil32(n) < n + 32,
        ceil32(n) % 32 == 0,
        n <= MAX_SIZE ==> ceil32(n) <= MAX_SIZE,
{
    let q = (n + 31) / 32;
    assert(q * 32 % 32 == 0) by (nonlinear_arith);
    assert(q * 32 >= n && q * 32 < n + 32) by (nonlinear_arith)
        requires
            q == (n + 31) / 32,
    ;
    if n <= MAX_SIZE {
        assert(q <= 2048);
    }
}

/// Growing keeps the old bytes, reaches past `end`, keeps the size word-aligned, and
/// the new bytes are zero.
pub proof fn lemma_grown(s: Seq<u8>, end: nat)
    ensures
        grown(s, end).len() >= end,
        grown(s, end).len() >= s.len(),
        grown(s, end).subrange(0, s.len() as int) == s,
        forall|j: int| s.len() <= j < grown(s, end).len() ==> grown(s, end)[j] == 0,
        s.len() % 32 == 0 ==> grown(s, end).len() % 32 == 0,
        s.len() <= MAX_SIZE && end <= MAX_SIZE ==> grown(s, end).len() <= MAX_SIZE,
{
    lemma_ceil32(end);
    assert(grown(s, end).subrange(0, s.len() as int) =~= s);
}

/// A word stored at `k` is the word loaded from `k` afterwards; the load does not
/// grow the memory again.
pub proof fn lemma_store_then_load(s: Seq<u8>, k: nat, v: Word)
    requires
        s.len() % 32 == 0,
        k <= MAX_SIZE - WORD_SIZE,
    ensures
        ({
            let after = overwrite(grown(s, k + 32), k as int, v.bytes@);
            &&& grown(after, k + 32) == after
            &&& after.subrange(k as int, k + 32int) == v.bytes@
            &&& word_from_bytes(grown(after, k + 32).subrange(k as int, k + 32int)) == v
        }),
{
    lemma_grown(s, k + 32);
    let g = grown(s, k + 32);
    let after = overwrite(g, k as int, v.bytes@);
    assert(after.len() == g.len());
    lemma_ceil32(k + 32);
    assert(after.subrange(k as int, k + 32int) =~= v.bytes@);
    lemma_word_from_bytes(v);
}

/// A store changes only its own 32 bytes: every other byte keeps its value, and a
/// byte that the store's growth added reads as zero.
pub proof fn lemma_store_elsewhere(s: Seq<u8>, k: nat, v: Word, j: int)
    requires
        k <= MAX_SIZE - WORD_SIZE,
        0 <= j < grown(s, k + 32).len(),
        !(k <= j < k + 32),
    ensures
        overwrite(grown(s, k + 32), k as int, v.bytes@)[j] == (if j < s.len() {
            s[j]
        } else {
            0u8
        }),
{
    lemma_grown(s, k + 32);
    let g = grown(s, k + 32);
    if j < s.len() {
        assert(g.subrange(0, s.len() as int)[j] == g[j]);
    }
}

impl Mem {
    /// The size is word-aligned and within the largest size.
    pub open spec fn wf(&self) -> bool {
        self@.len() <= MAX_SIZE && self@.len() % 32 == 0
    }

    /// Creates an empty memory.
    pub fn new() -> (m: Self)
        ensures
            m@ == Seq::<u8>::empty(),
            m.wf(),
    {
        Mem { bytes: Vec::new() }
    }

    /// The current size in bytes.
    pub fn size(&self) -> (r: usize)
        ensures
            r == self@.len(),
    {
        self.bytes.len()
    }

    /// Grows the memory so that the bytes `[0, end)` exist.
    pub fn resize_for(&mut self, end: usize) -> (r: Result<(), Error>)
        requires
            old(self).wf(),
        ensures
            final(self).wf(),
            end > MAX_SIZE ==> r == Err::<(), Error>(Error::MemoryOverflow) && final(self)@ == old(self)@,
            end <= MAX_SIZE ==> r == Ok::<(), Error>(()) && final(self)@ == grown(old(self)@, end as nat),
    {
        if end > MAX_SIZE {
            return Err(Error::MemoryOverflow);
        }
        proof {
            lemma_ceil32(end as nat);
            lemma_grown(self.bytes@, end as nat);
        }
        let bound = ((end + 31) / 32) * 32;
        let ghost start = self.bytes@;
        while self.bytes.len() < bound
            invariant
                bound == ceil32(end as nat),
                bound <= MAX_SIZE,
                start.len() <= self.bytes@.len() <= bound || self.bytes@.len() == start.len(),
                self.bytes@.subrange(0, start.len() as int) == start,
                forall|j: int| start.len() <= j < self.bytes@.len() ==> self.bytes@[j] == 0,
            decreases bound - self.bytes.len(),
        {
            self.bytes.push(0);
            assert(self.bytes@.subrange(0, start.len() as int) =~= start);
        }
        assert(self.bytes@ =~= grown(start, end as nat));
        Ok(())
    }

    /// Stores one byte at `key`, growing the memory as needed.
    pub fn mstores(&mut self, key: usize, value: u8) -> (r: Result<(), Error>)
        requires
            old(self).wf(),
        ensures
            final(self).wf(),
            key >= MAX_SIZE ==> r == Err::<(), Error>(Error::MemoryOverflow) && final(self)@ == old(self)@,
            key < MAX_SIZE ==> r == Ok::<(), Error>(()) && final(self)@ == grown(
                old(self)@,
                (key + 1) as nat,
            ).update(key as int, value),
    {
        if key >= MAX_SIZE {
            return Err(Error::MemoryOverflow);
        }
        let _ = self.resize_for(key + 1);
        proof {
            lemma_grown(old(self)@, (key + 1) as nat);
        }
        self.bytes[key] = value;
        Ok(())
    }

    /// Stores a word, big-endian, at `key .. key + 32`, growing the memory as needed.
    pub fn mstore(&mut self, key: usize, value: Word) -> (r: Result<(), Error>)
        requires
            old(self).wf(),
        ensures
            final(self).wf(),
            key > MAX_SIZE - WORD_SIZE ==> r == Err::<(), Error>(Error::MemoryOverflow) && final(self)@ == old(self)@,
            key <= MAX_SIZE - WORD_SIZE ==> r == Ok::<(), Error>(()) && final(self)@ == overwrite(
                grown(old(self)@, (key + 32) as nat),
                key as int,
                value.bytes@,
            ),
    {
        if key > MAX_SIZE - WORD_SIZE {
            return Err(Error::MemoryOverflow);
        }
        let _ = self.resize_for(key + WORD_SIZE);
        proof {
            lemma_grown(old(self)@, (key + 32) as nat);
        }
        let ghost g = self.bytes@;
        let mut i: usize = 0;
        while i < WORD_SIZE
            invariant
                key + 32 <= g.len(),
                g.len() <= MAX_SIZE,
                g.len() % 32 == 0,
                i <= 32,
                self.bytes@.len() == g.len(),
                forall|j: int|
                    0 <= j < g.len() ==> self.bytes@[j] == (if key <= j < key + i {
                        value.bytes[j - key]
                    } else {
                        g[j]
                    }),
            decreases 32 - i,
        {
            self.bytes[key + i] = value.bytes[i];
            i += 1;
        }
        assert(self.bytes@ =~= overwrite(g, key as int, value.bytes@));
        Ok(())
    }

    /// Loads the big-endian word at `key .. key + 32`, growing the memory as needed.
    pub fn mload(&mut self, key: usize) -> (r: Result<Word, Error>)
        requires
            old(self).wf(),
        ensures
            final(self).wf(),
            key > MAX_SIZE - WORD_SIZE ==> r == Err::<Word, Error>(Error::MemoryOverflow) && final(self)@ == old(self)@,
            key <= MAX_SIZE - WORD_SIZE ==> final(self)@ == grown(old(self)@, (key + 32) as nat) && (match r {
                Ok(w) => w.bytes@ == final(self)@.subrange(key as int, key + 32),
                Err(_) => false,
            }),
    {
        if key > MAX_SIZE - WORD_SIZE {
            return Err(Error::MemoryOverflow);
        }
        let _ = self.resize_for(key + WORD_SIZE);
        proof {
            lemma_grown(old(self)@, (key + 32) as nat);
        }
        let mut out = [0u8; 32];
        let mut i: usize = 0;
        while i < WORD_SIZE
            invariant
                key + 32 <= self.bytes@.len(),
                key <= MAX_SIZE - WORD_SIZE,
                i <= 32,
                forall|j: int| 0 <= j < i ==> out[j] == self.bytes@[key + j],
            decreases 32 - i,
        {
            out[i] = self.bytes[key + i];
            i += 1;
        }
        assert(out@ =~= self.bytes@.subrange(key as int, key + 32));
        Ok(Word { bytes: out })
    }

    /// The bytes `[start, start + len)`, with zero for those past the current size.
    /// Fails when the range reaches past the largest memory size.
    pub fn mview(&self, start: usize, len: usize) -> (r: Result<Vec<u8>, Error>)
        ensures
            start + len > MAX_SIZE ==> r == Err::<Vec<u8>, Error>(Error::MemoryOutOfBound),
            start + len <= MAX_SIZE ==> (match r {
                Ok(v) => v@ == padded_window(self@, start as int, len as int),
                Err(_) => false,
            }),
    {
        if len > MAX_SIZE || start > MAX_SIZE - len {
            return Err(Error::MemoryOutOfBound);
        }
        let mut out: Vec<u8> = Vec::with_capacity(len);
        let mut i: usize = 0;
        while i < len
            invariant
                i <= len,
                start + len <= MAX_SIZE,
                out@.len() == i,
                forall|j: int|
                    0 <= j < i ==> out@[j] == (if start + j < self@.len() {
                        self@[start + j]
                    } else {
                        0u8
                    }),
            decreases len - i,
        {
            if start + i < self.bytes.len() {
                out.push(self.bytes[start + i]);
            } else {
                out.push(0);
            }
            i += 1;
        }
        assert(out@ =~= padded_window(self@, start as int, len as int));
        Ok(out)
    }
}

} // verus!
