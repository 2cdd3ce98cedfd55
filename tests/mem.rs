use evm::mem::Mem;
use evm::types::Error;
use evm::word::Word;

fn word(n: usize) -> Word {
    Word::from_usize(n)
}

#[test]
fn test_out_of_range() {
    let mut mem = Mem::new();
    assert_eq!(mem.mload(1000000), Err(Error::MemoryOverflow));
    assert_eq!(mem.mstore(1000000, word(1)), Err(Error::MemoryOverflow));
}

#[test]
fn test_mstore_mload() {
    let mut mem = Mem::new();
    assert_eq!(mem.mload(1000), Ok(word(0)));
    mem.mstore(1000, word(10)).unwrap();
    assert_eq!(mem.mload(1000), Ok(word(10)));
    assert_eq!(mem.mload(1001), Ok(word(2560)));
    assert_eq!(mem.size(), 1056);
}

#[test]
fn overflow_boundary_is_max_size_minus_word() {
    let mut mem = Mem::new();
    assert_eq!(mem.mstore(65504, word(7)), Ok(()));
    assert_eq!(mem.mload(65504), Ok(word(7)));
    assert_eq!(mem.size(), 65536);
    assert_eq!(mem.mstore(65505, word(7)), Err(Error::MemoryOverflow));
    assert_eq!(mem.mload(65505), Err(Error::MemoryOverflow));
}

#[test]
fn growth_is_word_aligned_and_zero_filled() {
    let mut mem = Mem::new();
    assert_eq!(mem.size(), 0);
    mem.mstores(0, 0xff).unwrap();
    assert_eq!(mem.size(), 32);
    mem.mstores(32, 1).unwrap();
    assert_eq!(mem.size(), 64);
    assert_eq!(mem.mload(1), Ok(word(1)));
    assert_eq!(mem.size(), 64);
    assert_eq!(mem.mload(64), Ok(word(0)));
    assert_eq!(mem.size(), 96);
    assert_eq!(mem.mstores(65536, 1), Err(Error::MemoryOverflow));
    assert_eq!(mem.resize_for(65537), Err(Error::MemoryOverflow));
    assert_eq!(mem.resize_for(100), Ok(()));
    assert_eq!(mem.size(), 128);
}

#[test]
fn view_pads_with_zero_and_stops_at_max_size() {
    let mut mem = Mem::new();
    mem.mstores(3, 9).unwrap();
    assert_eq!(mem.mview(2, 3), Ok(vec![0, 9, 0]));
    assert_eq!(mem.mview(30, 4), Ok(vec![0, 0, 0, 0]));
    assert_eq!(mem.mview(0, 0), Ok(vec![]));
    assert_eq!(mem.size(), 32);
    assert_eq!(mem.mview(65536, 1), Err(Error::MemoryOutOfBound));
    assert_eq!(mem.mview(usize::MAX, 2), Err(Error::MemoryOutOfBound));
}
