//! The 256-bit machine word and the arithmetic on it.

use ethereum_types::{U256, U512};
use sha3::{Digest, Keccak256};
use vstd::arithmetic::power::pow;
use vstd::arithmetic::power2::pow2;
use vstd::prelude::*;

verus! {

/// An unsigned 256-bit word, held as its 32 bytes in big-endian order.
#[derive(Clone, Copy, Debug, PartialEq, Eq)]
pub struct Word {
    pub bytes: [u8; 32],
}

/// The number that a big-endian byte string denotes.
pub open spec fn be_value(s: Seq<u8>) -> nat
    decreases s.len(),
{
    if s.len() == 0 {
        0
    } else {
        be_value(s.drop_last()) * 256 + s.last() as nat
    }
}

/// The word zero.
pub open spec fn zero_word() -> Word {
    Word { bytes: vstd::array::spec_array_fill_for_copy_type::<u8, 32>(0u8) }
}

/// 2^256: every word value lies below it.
pub open spec fn word_modulus() -> nat {
    pow2(256)
}

/// The 32 zero bytes.
pub open spec fn zero_bytes() -> Seq<u8> {
    Seq::new(32, |i: int| 0u8)
}

impl Word {
    /// The number this word denotes.
    pub open spec fn value(self) -> nat {
        be_value(self.bytes@)
    }

    /// The word read as a two's complement signed number.
    pub open spec fn signed_value(self) -> int {
        if self.value() >= pow2(255) {
            self.value() - word_modulus()
        } else {
            self.value() as int
        }
    }

    /// The word zero.
    pub fn zero() -> (r: Word)
        ensures
            r == zero_word(),
            r.bytes@ == zero_bytes(),
            r.value() == 0,
    {
        let r = Word { bytes: [0u8; 32] };
        proof {
            assert(r.bytes@ =~= zero_bytes());
            lemma_be_value_zero(r.bytes@);
        }
        r
    }
}

/// A big-endian byte string of length n denotes a number below 2^(8n).
pub proof fn lemma_be_value_bound(s: Seq<u8>)
    ensures
        be_value(s) < pow2(8 * s.len()),
    decreases s.len(),
{
    if s.len() == 0 {
        vstd::arithmetic::power2::lemma2_to64();
    } else {
        let init = s.drop_last();
        lemma_be_value_bound(init);
        let p = pow2(8 * init.len());
        vstd::arithmetic::power2::lemma_pow2_adds(8 * init.len(), 8);
        vstd::arithmetic::power2::lemma2_to64();
        assert(8 * s.len() == 8 * init.len() + 8);
        let b = be_value(init);
        let l = s.last() as nat;
        assert(b * 256 + l < p * 256) by (nonlinear_arith)
            requires
                b < p,
                l < 256,
        ;
    }
}

/// A big-endian byte string denotes zero exactly when all its bytes are zero.
pub proof fn lemma_be_value_zero(s: Seq<u8>)
    ensures
        be_value(s) == 0 <==> (forall|i: int| 0 <= i < s.len() ==> s[i] == 0),
    decreases s.len(),
{
    if s.len() > 0 {
        let init = s.drop_last();
        lemma_be_value_zero(init);
        if be_value(s) == 0 {
            assert(be_value(init) == 0 && s.last() == 0) by (nonlinear_arith)
                requires
                    be_value(init) * 256 + s.last() as nat == 0,
            ;
            assert forall|i: int| 0 <= i < s.len() implies s[i] == 0 by {
                if i < s.len() - 1 {
                    assert(s[i] == init[i]);
                }
            }
        }
        if forall|i: int| 0 <= i < s.len() ==> s[i] == 0 {
            assert forall|i: int| 0 <= i < init.len() implies init[i] == 0 by {
                assert(init[i] == s[i]);
            }
            assert(s.last() == s[s.len() - 1]);
        }
    }
}

/// Equal values of equal length come from equal byte strings.
pub proof fn lemma_be_value_injective(s: Seq<u8>, t: Seq<u8>)
    requires
        s.len() == t.len(),
        be_value(s) == be_value(t),
    ensures
        s == t,
    decreases s.len(),
{
    if s.len() > 0 {
        let x = be_value(s);
        vstd::arithmetic::div_mod::lemma_fundamental_div_mod_converse(
            x as int,
            256,
            be_value(s.drop_last()) as int,
            s.last() as int,
        );
        vstd::arithmetic::div_mod::lemma_fundamental_div_mod_converse(
            x as int,
            256,
            be_value(t.drop_last()) as int,
            t.last() as int,
        );
        lemma_be_value_injective(s.drop_last(), t.drop_last());
        assert(s =~= t.drop_last().push(t.last()));
        assert(t =~= t.drop_last().push(t.last()));
    }
}

/// The word with the given value (below 2^256).
pub open spec fn word_of(n: nat) -> Word {
    choose|w: Word| w.value() == n
}

/// The word with the given 32 bytes.
pub open spec fn word_from_bytes(s: Seq<u8>) -> Word {
    choose|w: Word| w.bytes@ == s
}

/// One for true, zero for false.
pub open spec fn bool_word(b: bool) -> Word {
    word_of(if b { 1 } else { 0 })
}

/// A word is the word of its value.
pub proof fn lemma_word_of(w: Word)
    ensures
        word_of(w.value()) == w,
{
    let c = word_of(w.value());
    lemma_be_value_injective(c.bytes@, w.bytes@);
    assert(c.bytes =~= w.bytes);
}

/// A word is the word of its bytes.
pub proof fn lemma_word_from_bytes(w: Word)
    ensures
        word_from_bytes(w.bytes@) == w,
{
    let c = word_from_bytes(w.bytes@);
    assert(c.bytes =~= w.bytes);
}

impl Word {
    /// The word with the given value.
    pub fn from_usize(n: usize) -> (r: Word)
        ensures
            r.value() == n,
    {
        u256_from_usize(n)
    }

    /// Whether the word is zero.
    pub fn is_zero(self) -> (r: bool)
        ensures
            r == (self.value() == 0),
            r == (self == zero_word()),
    {
        let mut i: usize = 0;
        while i < 32
            invariant
                i <= 32,
                forall|j: int| 0 <= j < i ==> self.bytes[j] == 0,
            decreases 32 - i,
        {
            if self.bytes[i] != 0 {
                proof {
                    lemma_be_value_zero(self.bytes@);
                    assert(self.bytes@[i as int] != 0);
                    assert(zero_word().bytes@[i as int] == 0);
                }
                return false;
            }
            i += 1;
        }
        proof {
            lemma_be_value_zero(self.bytes@);
            assert(self.bytes =~= zero_word().bytes);
        }
        true
    }

    /// Whether two words are the same.
    pub fn equals(self, other: Word) -> (r: bool)
        ensures
            r == (self == other),
    {
        let mut i: usize = 0;
        while i < 32
            invariant
                i <= 32,
                forall|j: int| 0 <= j < i ==> self.bytes[j] == other.bytes[j],
            decreases 32 - i,
        {
            if self.bytes[i] != other.bytes[i] {
                return false;
            }
            i += 1;
        }
        assert(self.bytes =~= other.bytes);
        true
    }

    /// The word whose low 20 bytes are the given address and whose other bytes are zero.
    pub fn from_address(addr: [u8; 20]) -> (r: Word)
        ensures
            r.bytes@ == Seq::new(12, |i: int| 0u8) + addr@,
    {
        let mut out = [0u8; 32];
        let mut i: usize = 0;
        while i < 20
            invariant
                i <= 20,
                forall|j: int| 0 <= j < 12 ==> out[j] == 0,
                forall|j: int| 0 <= j < i ==> out[12 + j] == addr[j],
            decreases 20 - i,
        {
            out[12 + i] = addr[i];
            i += 1;
        }
        assert(out@ =~= Seq::new(12, |i: int| 0u8) + addr@);
        Word { bytes: out }
    }
}

/// Bytewise AND.
pub fn bit_and(a: Word, b: Word) -> (r: Word)
    ensures
        forall|i: int| 0 <= i < 32 ==> r.bytes[i] == a.bytes[i] & b.bytes[i],
{
    let mut out = [0u8; 32];
    let mut i: usize = 0;
    while i < 32
        invariant
            i <= 32,
            forall|j: int| 0 <= j < i ==> out[j] == a.bytes[j] & b.bytes[j],
        decreases 32 - i,
    {
        out[i] = a.bytes[i] & b.bytes[i];
        i += 1;
    }
    Word { bytes: out }
}

/// Bytewise OR.
pub fn bit_or(a: Word, b: Word) -> (r: Word)
    ensures
        forall|i: int| 0 <= i < 32 ==> r.bytes[i] == a.bytes[i] | b.bytes[i],
{
    let mut out = [0u8; 32];
    let mut i: usize = 0;
    while i < 32
        invariant
            i <= 32,
            forall|j: int| 0 <= j < i ==> out[j] == a.bytes[j] | b.bytes[j],
        decreases 32 - i,
    {
        out[i] = a.bytes[i] | b.bytes[i];
        i += 1;
    }
    Word { bytes: out }
}

/// Bytewise XOR.
pub fn bit_xor(a: Word, b: Word) -> (r: Word)
    ensures
        forall|i: int| 0 <= i < 32 ==> r.bytes[i] == a.bytes[i] ^ b.bytes[i],
{
    let mut out = [0u8; 32];
    let mut i: usize = 0;
    while i < 32
        invariant
            i <= 32,
            forall|j: int| 0 <= j < i ==> out[j] == a.bytes[j] ^ b.bytes[j],
        decreases 32 - i,
    {
        out[i] = a.bytes[i] ^ b.bytes[i];
        i += 1;
    }
    Word { bytes: out }
}

/// Bytewise complement.
pub fn bit_not(a: Word) -> (r: Word)
    ensures
        forall|i: int| 0 <= i < 32 ==> r.bytes[i] == !a.bytes[i],
{
    let mut out = [0u8; 32];
    let mut i: usize = 0;
    while i < 32
        invariant
            i <= 32,
            forall|j: int| 0 <= j < i ==> out[j] == !a.bytes[j],
        decreases 32 - i,
    {
        out[i] = !a.bytes[i];
        i += 1;
    }
    Word { bytes: out }
}

/// Sum modulo 2^256.
pub fn wrapping_add(a: Word, b: Word) -> (r: Word)
    ensures
        r.value() == (a.value() + b.value()) % word_modulus(),
{
    u256_add(a, b)
}

/// Difference modulo 2^256.
pub fn wrapping_sub(a: Word, b: Word) -> (r: Word)
    ensures
        r.value() == (a.value() - b.value()) % (word_modulus() as int),
{
    u256_sub(a, b)
}

/// Product modulo 2^256.
pub fn wrapping_mul(a: Word, b: Word) -> (r: Word)
    ensures
        r.value() == (a.value() * b.value()) % word_modulus(),
{
    u256_mul(a, b)
}

/// Power modulo 2^256.
pub fn wrapping_pow(a: Word, e: Word) -> (r: Word)
    ensures
        r.value() == pow(a.value() as int, e.value()) % (word_modulus() as int),
{
    u256_pow(a, e)
}

/// Quotient rounded down; zero for a zero divisor.
pub fn div_or_zero(a: Word, b: Word) -> (r: Word)
    ensures
        r.value() == (if b.value() == 0 { 0 } else { a.value() / b.value() }),
{
    if b.is_zero() {
        Word::zero()
    } else {
        u256_div(a, b)
    }
}

/// Remainder; zero for a zero divisor.
pub fn rem_or_zero(a: Word, b: Word) -> (r: Word)
    ensures
        r.value() == (if b.value() == 0 { 0 } else { a.value() % b.value() }),
{
    if b.is_zero() {
        Word::zero()
    } else {
        u256_rem(a, b)
    }
}

/// (a + b) mod n, computed without overflow; zero for n = 0.
pub fn add_mod(a: Word, b: Word, n: Word) -> (r: Word)
    ensures
        r.value() == (if n.value() == 0 { 0 } else { (a.value() + b.value()) % n.value() }),
{
    if n.is_zero() {
        Word::zero()
    } else {
        let s = u512_sum(a, b);
        u512_rem(&s, n)
    }
}

/// (a * b) mod n, computed without overflow; zero for n = 0.
pub fn mul_mod(a: Word, b: Word, n: Word) -> (r: Word)
    ensures
        r.value() == (if n.value() == 0 { 0 } else { (a.value() * b.value()) % n.value() }),
{
    if n.is_zero() {
        Word::zero()
    } else {
        let p = u512_product(a, b);
        u512_rem(&p, n)
    }
}

/// Unsigned a < b.
pub fn less_than(a: Word, b: Word) -> (r: bool)
    ensures
        r == (a.value() < b.value()),
{
    u256_lt(a, b)
}

/// Signed (two's complement) a < b.
pub fn signed_less_than(a: Word, b: Word) -> (r: bool)
    ensures
        r == (a.signed_value() < b.signed_value()),
{
    let half = u256_shl(u256_from_usize(1), 255);
    proof {
        vstd::arithmetic::power2::lemma_pow2_strictly_increases(255, 256);
        vstd::arithmetic::power2::lemma_pow2_pos(255);
        vstd::arithmetic::mul::lemma_mul_basics(pow2(255) as int);
        vstd::arithmetic::div_mod::lemma_small_mod(pow2(255), pow2(256));
        lemma_be_value_bound(a.bytes@);
        lemma_be_value_bound(b.bytes@);
    }
    let a_neg = !u256_lt(a, half);
    let b_neg = !u256_lt(b, half);
    if a_neg == b_neg {
        u256_lt(a, b)
    } else {
        a_neg
    }
}

/// Left shift; zero for a shift of 256 or more.
pub fn shift_left(v: Word, shift: Word) -> (r: Word)
    ensures
        r.value() == (if shift.value() >= 256 { 0 } else { (v.value() * pow2(shift.value())) % word_modulus() }),
{
    if u256_lt(shift, u256_from_usize(256)) {
        u256_shl(v, u256_as_usize(shift))
    } else {
        Word::zero()
    }
}

/// Logical right shift; zero for a shift of 256 or more.
pub fn shift_right(v: Word, shift: Word) -> (r: Word)
    ensures
        r.value() == (if shift.value() >= 256 { 0 } else { v.value() / pow2(shift.value()) }),
{
    if u256_lt(shift, u256_from_usize(256)) {
        u256_shr(v, u256_as_usize(shift))
    } else {
        Word::zero()
    }
}

/// Relies on `U256::overflowing_add`: the sum modulo 2^256.
#[verifier::external_body]
pub(crate) fn u256_add(a: Word, b: Word) -> (r: Word)
    ensures
        r.value() == (a.value() + b.value()) % word_modulus(),
{
    let (s, _) = U256::from_big_endian(&a.bytes).overflowing_add(U256::from_big_endian(&b.bytes));
    let mut out = [0u8; 32];
    s.to_big_endian(&mut out);
    Word { bytes: out }
}

/// Relies on `U256::overflowing_sub`: the difference modulo 2^256.
#[verifier::external_body]
pub(crate) fn u256_sub(a: Word, b: Word) -> (r: Word)
    ensures
        r.value() == (a.value() - b.value()) % (word_modulus() as int),
{
    let (s, _) = U256::from_big_endian(&a.bytes).overflowing_sub(U256::from_big_endian(&b.bytes));
    let mut out = [0u8; 32];
    s.to_big_endian(&mut out);
    Word { bytes: out }
}

/// Relies on `U256::overflowing_mul`: the product modulo 2^256.
#[verifier::external_body]
pub(crate) fn u256_mul(a: Word, b: Word) -> (r: Word)
    ensures
        r.value() == (a.value() * b.value()) % word_modulus(),
{
    let (s, _) = U256::from_big_endian(&a.bytes).overflowing_mul(U256::from_big_endian(&b.bytes));
    let mut out = [0u8; 32];
    s.to_big_endian(&mut out);
    Word { bytes: out }
}

/// Relies on `U256`'s `/`: the quotient, rounded down. It panics on a zero divisor.
#[verifier::external_body]
pub(crate) fn u256_div(a: Word, b: Word) -> (r: Word)
    requires
        b.value() != 0,
    ensures
        r.value() == a.value() / b.value(),
{
    let q = U256::from_big_endian(&a.bytes) / U256::from_big_endian(&b.bytes);
    let mut out = [0u8; 32];
    q.to_big_endian(&mut out);
    Word { bytes: out }
}

/// Relies on `U256`'s `%`: the remainder. It panics on a zero divisor.
#[verifier::external_body]
pub(crate) fn u256_rem(a: Word, b: Word) -> (r: Word)
    requires
        b.value() != 0,
    ensures
        r.value() == a.value() % b.value(),
{
    let q = U256::from_big_endian(&a.bytes) % U256::from_big_endian(&b.bytes);
    let mut out = [0u8; 32];
    q.to_big_endian(&mut out);
    Word { bytes: out }
}

/// Relies on `U256::overflowing_pow`: the power modulo 2^256.
#[verifier::external_body]
pub(crate) fn u256_pow(a: Word, e: Word) -> (r: Word)
    ensures
        r.value() == pow(a.value() as int, e.value()) % (word_modulus() as int),
{
    let (p, _) = U256::from_big_endian(&a.bytes).overflowing_pow(U256::from_big_endian(&e.bytes));
    let mut out = [0u8; 32];
    p.to_big_endian(&mut out);
    Word { bytes: out }
}

/// Relies on `U256`'s `<`, which orders words by their value.
#[verifier::external_body]
pub(crate) fn u256_lt(a: Word, b: Word) -> (r: bool)
    ensures
        r == (a.value() < b.value()),
{
    U256::from_big_endian(&a.bytes) < U256::from_big_endian(&b.bytes)
}

/// Relies on `U256`'s `<<` by a shift below 256: the bits shifted out at the top are lost.
#[verifier::external_body]
pub(crate) fn u256_shl(v: Word, shift: usize) -> (r: Word)
    requires
        shift < 256,
    ensures
        r.value() == (v.value() * pow2(shift as nat)) % word_modulus(),
{
    let s = U256::from_big_endian(&v.bytes) << shift;
    let mut out = [0u8; 32];
    s.to_big_endian(&mut out);
    Word { bytes: out }
}

/// Relies on `U256`'s `>>` by a shift below 256: the bits shifted out at the bottom are lost.
#[verifier::external_body]
pub(crate) fn u256_shr(v: Word, shift: usize) -> (r: Word)
    requires
        shift < 256,
    ensures
        r.value() == v.value() / pow2(shift as nat),
{
    let s = U256::from_big_endian(&v.bytes) >> shift;
    let mut out = [0u8; 32];
    s.to_big_endian(&mut out);
    Word { bytes: out }
}

/// Relies on `U256::from(usize)`: the word with the same value.
#[verifier::external_body]
pub(crate) fn u256_from_usize(n: usize) -> (r: Word)
    ensures
        r.value() == n,
{
    let mut out = [0u8; 32];
    U256::from(n).to_big_endian(&mut out);
    Word { bytes: out }
}

/// Relies on `U256::as_usize`, which panics on a value above `usize::MAX`.
#[verifier::external_body]
pub(crate) fn u256_as_usize(w: Word) -> (r: usize)
    requires
        w.value() <= usize::MAX,
    ensures
        r == w.value(),
{
    U256::from_big_endian(&w.bytes).as_usize()
}

/// Relies on `U512::from(U256)` and `U512`'s `+`: the exact sum, as 64 big-endian bytes.
#[verifier::external_body]
pub(crate) fn u512_sum(a: Word, b: Word) -> (r: [u8; 64])
    ensures
        be_value(r@) == a.value() + b.value(),
{
    let s = U512::from(U256::from_big_endian(&a.bytes)) + U512::from(U256::from_big_endian(&b.bytes));
    let mut out = [0u8; 64];
    s.to_big_endian(&mut out);
    out
}

/// Relies on `U256::full_mul`: the exact product, as 64 big-endian bytes.
#[verifier::external_body]
pub(crate) fn u512_product(a: Word, b: Word) -> (r: [u8; 64])
    ensures
        be_value(r@) == a.value() * b.value(),
{
    let p = U256::from_big_endian(&a.bytes).full_mul(U256::from_big_endian(&b.bytes));
    let mut out = [0u8; 64];
    p.to_big_endian(&mut out);
    out
}

/// Relies on `U512`'s `%`. The remainder is below the 256-bit divisor, so its low
/// 32 bytes hold all of it.
#[verifier::external_body]
pub(crate) fn u512_rem(x: &[u8; 64], n: Word) -> (r: Word)
    requires
        n.value() != 0,
    ensures
        r.value() == be_value(x@) % n.value(),
{
    let q = U512::from_big_endian(x) % U512::from(U256::from_big_endian(&n.bytes));
    let mut out = [0u8; 64];
    q.to_big_endian(&mut out);
    let mut low = [0u8; 32];
    low.copy_from_slice(&out[32..]);
    Word { bytes: low }
}

/// The Keccak-256 digest of a byte string.
pub uninterp spec fn keccak256_of(data: Seq<u8>) -> Seq<u8>;

/// Relies on `sha3::Keccak256::digest`, whose 32-byte result depends on the data alone.
#[verifier::external_body]
pub(crate) fn keccak256(data: &[u8]) -> (r: [u8; 32])
    ensures
        r@ == keccak256_of(data@),
{
    let d = Keccak256::digest(data);
    let mut out = [0u8; 32];
    out.copy_from_slice(&d);
    out
}

} // verus!
