use ethereum_types::U256;
use evm::word::{
    add_mod, bit_and, bit_not, bit_or, bit_xor, div_or_zero, less_than, mul_mod, rem_or_zero, shift_left,
    shift_right, signed_less_than, wrapping_add, wrapping_mul, wrapping_pow, wrapping_sub, Word,
};

fn word(n: usize) -> Word {
    Word::from_usize(n)
}

fn max() -> Word {
    Word { bytes: [0xff; 32] }
}

fn from_u256(v: U256) -> Word {
    let mut bytes = [0u8; 32];
    v.to_big_endian(&mut bytes);
    Word { bytes }
}

#[test]
fn from_usize_is_big_endian() {
    let w = word(0x0102);
    assert_eq!(w.bytes[30], 0x01);
    assert_eq!(w.bytes[31], 0x02);
    assert!(w.bytes[..30].iter().all(|b| *b == 0));
}

#[test]
fn add_sub_mul_wrap() {
    assert_eq!(wrapping_add(word(3), word(5)), word(8));
    assert_eq!(wrapping_add(max(), word(2)), word(1));
    assert_eq!(wrapping_sub(word(5), word(3)), word(2));
    assert_eq!(wrapping_sub(word(0), word(1)), max());
    assert_eq!(wrapping_mul(word(6), word(7)), word(42));
    assert_eq!(wrapping_mul(max(), max()), word(1));
}

#[test]
fn div_and_rem_by_zero_give_zero() {
    assert_eq!(div_or_zero(word(17), word(5)), word(3));
    assert_eq!(div_or_zero(word(17), word(0)), word(0));
    assert_eq!(rem_or_zero(word(17), word(5)), word(2));
    assert_eq!(rem_or_zero(word(17), word(0)), word(0));
}

#[test]
fn modular_ops_use_full_width() {
    assert_eq!(add_mod(max(), word(2), word(10)), from_u256((U256::MAX % 10 + 2) % 10));
    assert_eq!(add_mod(word(4), word(5), word(0)), word(0));
    assert_eq!(mul_mod(word(6), word(7), word(5)), word(2));
    // (2^256 - 1)^2 mod 7 = (2^256 - 1 mod 7)^2 mod 7
    let m = (U256::MAX % 7).as_usize();
    assert_eq!(mul_mod(max(), max(), word(7)), word((m * m) % 7));
    assert_eq!(mul_mod(word(6), word(7), word(0)), word(0));
}

#[test]
fn exp_wraps() {
    assert_eq!(wrapping_pow(word(2), word(10)), word(1024));
    assert_eq!(wrapping_pow(word(2), word(256)), word(0));
    assert_eq!(wrapping_pow(word(3), word(0)), word(1));
}

#[test]
fn comparisons() {
    assert!(less_than(word(1), word(2)));
    assert!(!less_than(word(2), word(2)));
    assert!(signed_less_than(max(), word(0)));
    assert!(!signed_less_than(word(0), max()));
    assert!(signed_less_than(word(1), word(2)));
    assert!(!less_than(max(), word(0)));
    assert!(word(9).equals(word(9)));
    assert!(!word(9).equals(word(8)));
    assert!(Word::zero().is_zero());
    assert!(!word(256).is_zero());
}

#[test]
fn bitwise_ops() {
    assert_eq!(bit_and(word(0b1100), word(0b1010)), word(0b1000));
    assert_eq!(bit_or(word(0b1100), word(0b1010)), word(0b1110));
    assert_eq!(bit_xor(word(0b1100), word(0b1010)), word(0b0110));
    assert_eq!(bit_not(Word::zero()), max());
}

#[test]
fn shifts_saturate_at_256() {
    assert_eq!(shift_left(word(1), word(4)), word(16));
    assert_eq!(shift_left(word(3), word(255)), from_u256(U256::one() << 255usize));
    assert_eq!(shift_left(word(1), word(256)), word(0));
    assert_eq!(shift_right(word(256), word(4)), word(16));
    assert_eq!(shift_right(max(), word(300)), word(0));
}

#[test]
fn address_fills_the_low_bytes() {
    let w = Word::from_address([7u8; 20]);
    assert!(w.bytes[..12].iter().all(|b| *b == 0));
    assert!(w.bytes[12..].iter().all(|b| *b == 7));
}
