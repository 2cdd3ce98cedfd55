//! The operand stack: at most 1024 words, top at the end.

use crate::types::Error;
use crate::word::{u256_as_usize, u256_from_usize, u256_lt, Word};
use vstd::prelude::*;

verus! {

/// The largest number of words the stack holds.
pub const STACK_LIMIT: usize = 1024;

pub struct Stack {
    items: Vec<Word>,
}

impl View for Stack {
    type V = Seq<Word>;

    closed spec fn view(&self) -> Seq<Word> {
        self.items@
    }
}

/// The stack after duplicating the n-th word from the top.
pub open spec fn dup_spec(s: Seq<Word>, n: int) -> Seq<Word> {
    s.push(s[s.len() - n])
}

/// The stack after exchanging the top with the word n places below it.
pub open spec fn swap_spec(s: Seq<Word>, n: int) -> Seq<Word> {
    let top = s.len() - 1;
    s.update(top, s[top - n]).update(top - n, s[top])
}

/// The stack after pushing each of `vs` in order, as `push_u256` leaves it.
pub open spec fn push_all(s: Seq<Word>, vs: Seq<Word>) -> Seq<Word>
    decreases vs.len(),
{
    if vs.len() == 0 {
        s
    } else {
        push_all(s, vs.drop_last()).push(vs.last())
    }
}

/// The words that `k` successive pops return, first popped first, as `pop_u256`
/// returns them.
pub open spec fn popped(s: Seq<Word>, k: nat) -> Seq<Word>
    decreases k,
{
    if k == 0 || s.len() == 0 {
        Seq::empty()
    } else {
        seq![s.last()] + popped(s.drop_last(), (k - 1) as nat)
    }
}

/// Pushing v1..vk (k within the limit) never overflows, and k pops then return
/// vk..v1 and leave the stack as it was.
pub proof fn lemma_push_then_pop(s: Seq<Word>, vs: Seq<Word>)
    requires
        s.len() + vs.len() <= STACK_LIMIT,
    ensures
        push_all(s, vs) == s + vs,
        forall|j: int| 0 <= j < vs.len() ==> #[trigger] push_all(s, vs.subrange(0, j)).len() < STACK_LIMIT,
        popped(s + vs, vs.len()) == vs.reverse(),
        (s + vs).subrange(0, s.len() as int) == s,
    decreases vs.len(),
{
    if vs.len() > 0 {
        let init = vs.drop_last();
        lemma_push_then_pop(s, init);
        assert(s + vs =~= (s + init).push(vs.last()));
        assert forall|j: int| 0 <= j < vs.len() implies #[trigger] push_all(s, vs.subrange(0, j)).len()
            < STACK_LIMIT by {
            if j < init.len() {
                assert(vs.subrange(0, j) =~= init.subrange(0, j));
            } else {
                assert(vs.subrange(0, j) =~= init);
            }
        }
        assert((s + vs).drop_last() =~= s + init);
        assert(popped(s + vs, vs.len()) =~= seq![vs.last()] + popped(s + init, init.len()));
        assert(vs.reverse() =~= seq![vs.last()] + init.reverse());
    }
    assert((s + vs).subrange(0, s.len() as int) =~= s);
}

/// Swapping twice with the same depth gives the stack back.
pub proof fn lemma_swap_twice(s: Seq<Word>, n: int)
    requires
        0 <= n < s.len(),
    ensures
        swap_spec(swap_spec(s, n), n) == s,
        swap_spec(s, n)[s.len() - 1] == s[s.len() - 1 - n],
        swap_spec(s, n)[s.len() - 1 - n] == s[s.len() - 1],
{
    assert(swap_spec(swap_spec(s, n), n) =~= s);
}

impl Stack {
    /// The stack holds no more than its limit.
    pub open spec fn wf(&self) -> bool {
        self@.len() <= STACK_LIMIT
    }

    /// Creates an empty stack.
    pub fn new() -> (s: Self)
        ensures
            s@ == Seq::<Word>::empty(),
    {
        Stack { items: Vec::with_capacity(STACK_LIMIT) }
    }

    /// The number of words on the stack.
    pub fn len(&self) -> (r: usize)
        ensures
            r == self@.len(),
    {
        self.items.len()
    }

    /// Pushes the word with the given value.
    pub fn push_usize(&mut self, value: usize) -> (r: Result<(), Error>)
        ensures
            old(self)@.len() < STACK_LIMIT ==> r == Ok::<(), Error>(()) && final(self)@.len()
                == old(self)@.len() + 1 && final(self)@.drop_last() == old(self)@
                && final(self)@.last().value() == value,
            old(self)@.len() >= STACK_LIMIT ==> r == Err::<(), Error>(Error::StackOverflow)
                && final(self)@ == old(self)@,
    {
        self.push_u256(u256_from_usize(value))
    }

    /// Pushes the word that holds the given address in its low 20 bytes.
    pub fn push_address(&mut self, addr: [u8; 20]) -> (r: Result<(), Error>)
        ensures
            old(self)@.len() < STACK_LIMIT ==> r == Ok::<(), Error>(()) && final(self)@.len()
                == old(self)@.len() + 1 && final(self)@.drop_last() == old(self)@
                && final(self)@.last().bytes@ == Seq::new(12, |i: int| 0u8) + addr@,
            old(self)@.len() >= STACK_LIMIT ==> r == Err::<(), Error>(Error::StackOverflow)
                && final(self)@ == old(self)@,
    {
        self.push_u256(Word::from_address(addr))
    }

    /// Pushes the word whose big-endian bytes are the given hash.
    pub fn push_h256(&mut self, value: [u8; 32]) -> (r: Result<(), Error>)
        ensures
            old(self)@.len() < STACK_LIMIT ==> r == Ok::<(), Error>(()) && final(self)@
                == old(self)@.push(Word { bytes: value }),
            old(self)@.len() >= STACK_LIMIT ==> r == Err::<(), Error>(Error::StackOverflow)
                && final(self)@ == old(self)@,
    {
        self.push_u256(Word { bytes: value })
    }

    /// Pushes a word; fails when the stack is full.
    pub fn push_u256(&mut self, value: Word) -> (r: Result<(), Error>)
        ensures
            old(self)@.len() < STACK_LIMIT ==> r == Ok::<(), Error>(()) && final(self)@
                == old(self)@.push(value),
            old(self)@.len() >= STACK_LIMIT ==> r == Err::<(), Error>(Error::StackOverflow)
                && final(self)@ == old(self)@,
    {
        if self.items.len() < STACK_LIMIT {
            self.items.push(value);
            Ok(())
        } else {
            Err(Error::StackOverflow)
        }
    }

    /// Removes the top word.
    pub fn pop(&mut self) -> (r: Result<(), Error>)
        ensures
            old(self)@.len() > 0 ==> r == Ok::<(), Error>(()) && final(self)@ == old(self)@.drop_last(),
            old(self)@.len() == 0 ==> r == Err::<(), Error>(Error::StackUnderflow) && final(self)@ == old(self)@,
    {
        match self.pop_u256() {
            Ok(_) => Ok(()),
            Err(e) => Err(e),
        }
    }

    /// Removes the top word and returns its value, which must fit in a `usize`.
    /// An out-of-range word is removed all the same.
    pub fn pop_usize(&mut self) -> (r: Result<usize, Error>)
        ensures
            old(self)@.len() > 0 ==> final(self)@ == old(self)@.drop_last() && (if old(self)@.last().value() <= usize::MAX {
                r == Ok::<usize, Error>(old(self)@.last().value() as usize)
            } else {
                r == Err::<usize, Error>(Error::StackValueOutOfRange)
            }),
            old(self)@.len() == 0 ==> r == Err::<usize, Error>(Error::StackUnderflow) && final(self)@ == old(self)@,
    {
        match self.pop_u256() {
            Ok(w) => {
                if u256_lt(u256_from_usize(usize::MAX), w) {
                    Err(Error::StackValueOutOfRange)
                } else {
                    Ok(u256_as_usize(w))
                }
            },
            Err(e) => Err(e),
        }
    }

    /// Removes the top word and returns it.
    pub fn pop_u256(&mut self) -> (r: Result<Word, Error>)
        ensures
            old(self)@.len() > 0 ==> r == Ok::<Word, Error>(old(self)@.last()) && final(self)@
                == old(self)@.drop_last(),
            old(self)@.len() == 0 ==> r == Err::<Word, Error>(Error::StackUnderflow) && final(self)@ == old(self)@,
    {
        match self.items.pop() {
            Some(w) => Ok(w),
            None => Err(Error::StackUnderflow),
        }
    }

    /// Pushes a copy of the n-th word from the top (n = 1 is the top).
    pub fn dup_n(&mut self, n: usize) -> (r: Result<(), Error>)
        requires
            n >= 1,
        ensures
            old(self)@.len() < n ==> r == Err::<(), Error>(Error::StackUnderflow) && final(self)@
                == old(self)@,
            n <= old(self)@.len() < STACK_LIMIT ==> r == Ok::<(), Error>(()) && final(self)@
                == dup_spec(old(self)@, n as int),
            n <= old(self)@.len() && old(self)@.len() >= STACK_LIMIT ==> r == Err::<(), Error>(
                Error::StackOverflow,
            ) && final(self)@ == old(self)@,
    {
        let len = self.items.len();
        if len >= n {
            let w = self.items[len - n];
            self.push_u256(w)
        } else {
            Err(Error::StackUnderflow)
        }
    }

    /// Exchanges the top word with the word n places below it.
    pub fn swap_n(&mut self, n: usize) -> (r: Result<(), Error>)
        ensures
            old(self)@.len() > n ==> r == Ok::<(), Error>(()) && final(self)@ == swap_spec(
                old(self)@,
                n as int,
            ),
            old(self)@.len() <= n ==> r == Err::<(), Error>(Error::StackUnderflow) && final(self)@ == old(self)@,
    {
        let len = self.items.len();
        if len > n {
            let top = self.items[len - 1];
            let other = self.items[len - 1 - n];
            self.items[len - 1] = other;
            self.items[len - 1 - n] = top;
            Ok(())
        } else {
            Err(Error::StackUnderflow)
        }
    }

    /// Pushes a copy of the N-th word from the top (N = 1 is the top).
    pub fn dup<const N: usize>(&mut self) -> (r: Result<(), Error>)
        requires
            N >= 1,
        ensures
            old(self)@.len() < N ==> r == Err::<(), Error>(Error::StackUnderflow) && final(self)@
                == old(self)@,
            N <= old(self)@.len() < STACK_LIMIT ==> r == Ok::<(), Error>(()) && final(self)@
                == dup_spec(old(self)@, N as int),
            N <= old(self)@.len() && old(self)@.len() >= STACK_LIMIT ==> r == Err::<(), Error>(
                Error::StackOverflow,
            ) && final(self)@ == old(self)@,
    {
        self.dup_n(N)
    }

    /// Exchanges the top word with the word N places below it.
    pub fn swap<const N: usize>(&mut self) -> (r: Result<(), Error>)
        ensures
            old(self)@.len() > N ==> r == Ok::<(), Error>(()) && final(self)@ == swap_spec(
                old(self)@,
                N as int,
            ),
            old(self)@.len() <= N ==> r == Err::<(), Error>(Error::StackUnderflow) && final(self)@ == old(self)@,
    {
        self.swap_n(N)
    }
}

} // verus!
