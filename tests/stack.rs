use ethereum_types::U256;
use evm::stack::Stack;
use evm::types::Error;
use evm::word::Word;

fn word(n: usize) -> Word {
    Word::from_usize(n)
}

fn big(dec: &str) -> Word {
    let mut bytes = [0u8; 32];
    U256::from_dec_str(dec).unwrap().to_big_endian(&mut bytes);
    Word { bytes }
}

#[test]
fn test_push_pop() {
    let mut stk = Stack::new();
    let bv = big("9999999999999999999999");
    stk.push_u256(word(456)).unwrap();
    stk.push_usize(15).unwrap();
    stk.push_u256(bv).unwrap();
    stk.push_u256(bv).unwrap();
    assert_eq!(stk.pop_u256(), Ok(bv));
    assert_eq!(stk.pop_usize(), Err(Error::StackValueOutOfRange));
    assert_eq!(stk.pop_u256(), Ok(word(15)));
    assert_eq!(stk.pop_usize(), Ok(456));
    assert_eq!(stk.pop(), Err(Error::StackUnderflow));
    stk.push_usize(20).unwrap();
    stk.push_usize(21).unwrap();
    assert_eq!(stk.pop(), Ok(()));
    assert_eq!(stk.pop_usize(), Ok(20));
}

#[test]
fn test_dup() {
    let mut stk = Stack::new();
    stk.push_usize(1).unwrap();
    stk.push_usize(2).unwrap();
    stk.push_usize(3).unwrap();
    stk.push_usize(4).unwrap();
    stk.dup::<1>().unwrap();
    stk.dup::<4>().unwrap();
    assert_eq!(stk.dup::<20>(), Err(Error::StackUnderflow));
    assert_eq!(stk.pop_usize(), Ok(2));
    assert_eq!(stk.pop_usize(), Ok(4));
    assert_eq!(stk.pop_usize(), Ok(4));
    assert_eq!(stk.pop_usize(), Ok(3));
    assert_eq!(stk.pop(), Ok(()));
    assert_eq!(stk.pop_usize(), Ok(1));
}

#[test]
fn test_swap() {
    let mut stk = Stack::new();
    stk.push_usize(1).unwrap();
    stk.push_usize(2).unwrap();
    stk.push_usize(3).unwrap();
    stk.push_usize(4).unwrap();
    stk.swap::<1>().unwrap();
    stk.swap::<3>().unwrap();
    assert_eq!(stk.swap::<4>(), Err(Error::StackUnderflow));
    assert_eq!(stk.pop_usize(), Ok(1));
    assert_eq!(stk.pop_usize(), Ok(4));
    assert_eq!(stk.pop_usize(), Ok(2));
    assert_eq!(stk.pop_usize(), Ok(3));
}

#[test]
fn pops_come_back_in_reverse_order() {
    let mut stk = Stack::new();
    for i in 0..1024usize {
        stk.push_usize(i * 7).unwrap();
    }
    for i in (0..1024usize).rev() {
        assert_eq!(stk.pop_u256(), Ok(word(i * 7)));
    }
    assert_eq!(stk.pop_u256(), Err(Error::StackUnderflow));
}

#[test]
fn push_fails_only_on_a_full_stack() {
    let mut stk = Stack::new();
    for i in 0..1023usize {
        stk.push_usize(i).unwrap();
    }
    assert_eq!(stk.len(), 1023);
    assert_eq!(stk.push_usize(1023), Ok(()));
    assert_eq!(stk.push_usize(1024), Err(Error::StackOverflow));
    assert_eq!(stk.len(), 1024);
    assert_eq!(stk.dup::<1>(), Err(Error::StackOverflow));
    assert_eq!(stk.pop_usize(), Ok(1023));
}

#[test]
fn dup_copies_the_nth_word() {
    let mut stk = Stack::new();
    for i in 1..=16usize {
        stk.push_usize(i).unwrap();
    }
    stk.dup::<16>().unwrap();
    assert_eq!(stk.len(), 17);
    assert_eq!(stk.pop_usize(), Ok(1));
    stk.dup_n(3).unwrap();
    assert_eq!(stk.pop_usize(), Ok(14));
}

#[test]
fn swap_twice_restores_the_stack() {
    let mut stk = Stack::new();
    for i in 1..=5usize {
        stk.push_usize(i).unwrap();
    }
    stk.swap::<4>().unwrap();
    stk.swap::<4>().unwrap();
    for i in (1..=5usize).rev() {
        assert_eq!(stk.pop_usize(), Ok(i));
    }
}

#[test]
fn pop_usize_rejects_values_above_usize_max() {
    let mut stk = Stack::new();
    let mut bytes = [0u8; 32];
    bytes[23] = 1;
    stk.push_u256(Word { bytes }).unwrap();
    stk.push_usize(usize::MAX).unwrap();
    assert_eq!(stk.pop_usize(), Ok(usize::MAX));
    assert_eq!(stk.pop_usize(), Err(Error::StackValueOutOfRange));
    assert_eq!(stk.len(), 0);
}

#[test]
fn push_h256_keeps_the_bytes() {
    let mut stk = Stack::new();
    let mut bytes = [0u8; 32];
    bytes[0] = 0xab;
    bytes[31] = 0x01;
    stk.push_h256(bytes).unwrap();
    assert_eq!(stk.pop_u256(), Ok(Word { bytes }));
}

#[test]
fn push_address_zero_extends() {
    let mut stk = Stack::new();
    stk.push_address([0x22; 20]).unwrap();
    let mut bytes = [0u8; 32];
    for b in bytes[12..].iter_mut() {
        *b = 0x22;
    }
    assert_eq!(stk.pop_u256(), Ok(Word { bytes }));
}
