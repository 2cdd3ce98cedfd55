use evm::db::{Database, MemoryDatabase};
use evm::runtime::{calldata_load, jump_table};
use evm::types::{Env, Error, Log};
use evm::vm::VM;
use evm::word::Word;

fn word(n: usize) -> Word {
    Word::from_usize(n)
}

fn env() -> Env {
    Env {
        caller: [0u8; 20],
        timestamp: Word::zero(),
        number: Word::zero(),
        chainid: word(1),
        calldata: vec![],
    }
}

fn be32(n: u8) -> Vec<u8> {
    let mut out = vec![0u8; 32];
    out[31] = n;
    out
}

fn run_once(code: &[u8]) -> Result<(Vec<u8>, Vec<Log>), Error> {
    let mut vm = VM::new(MemoryDatabase::new(), code);
    vm.run(&env())
}

/// Code that leaves the word on top of the stack as the 32-byte output.
fn returning(mut code: Vec<u8>) -> Vec<u8> {
    code.extend_from_slice(&[0x60, 0x00, 0x52, 0x60, 0x20, 0x60, 0x00, 0xf3]);
    code
}

fn sstore_sload_code() -> Vec<u8> {
    let mut code = vec![0x7f];
    code.extend_from_slice(&be32(0x2a));
    code.push(0x7f);
    code.extend_from_slice(&be32(0x01));
    code.push(0x55);
    code.push(0x7f);
    code.extend_from_slice(&be32(0x01));
    code.push(0x54);
    returning(code)
}

#[test]
fn add_returns_the_sum() {
    let code = [0x60, 0x03, 0x60, 0x05, 0x01, 0x60, 0x00, 0x52, 0x60, 0x20, 0x60, 0x00, 0xf3];
    assert_eq!(run_once(&code), Ok((be32(8), vec![])));
}

#[test]
fn revert_returns_its_data_and_changes_nothing() {
    let code = [0x60, 0x00, 0x60, 0x00, 0xfd];
    let mut db = MemoryDatabase::new();
    db.set(word(1), word(5));
    let mut vm = VM::new(db, &code);
    assert_eq!(vm.run(&env()), Err(Error::Revert(vec![])));
    assert_eq!(vm.db().get(word(1)), word(5));
}

#[test]
fn stop_returns_nothing() {
    assert_eq!(run_once(&[0x00]), Ok((vec![], vec![])));
}

#[test]
fn sstore_then_sload_round_trips() {
    let code = sstore_sload_code();
    let mut vm = VM::new(MemoryDatabase::new(), &code);
    assert_eq!(vm.call(&env()), Ok((be32(0x2a), vec![])));
    assert_eq!(vm.db().get(word(1)), word(0));
    assert_eq!(vm.run(&env()), Ok((be32(0x2a), vec![])));
    assert_eq!(vm.db().get(word(1)), word(42));
}

#[test]
fn invalid_opcode_is_reported() {
    assert_eq!(run_once(&[0xfe]), Err(Error::InvalidOpcode(0xfe)));
}

#[test]
fn jump_to_a_non_jumpdest_fails() {
    assert_eq!(run_once(&[0x60, 0x03, 0x56, 0x00, 0x00]), Err(Error::InvalidJump));
}

#[test]
fn jump_into_push_data_fails() {
    // PUSH1 4, JUMP, PUSH1 0x5b, STOP: byte 4 is 0x5b but is PUSH data.
    assert_eq!(run_once(&[0x60, 0x04, 0x56, 0x60, 0x5b, 0x00]), Err(Error::InvalidJump));
    let marks = jump_table(&[0x60, 0x5b, 0x5b, 0x7f]);
    assert_eq!(marks, vec![false, false, true, false]);
}

#[test]
fn jump_to_a_jumpdest_continues_there() {
    // PUSH1 4, JUMP, INVALID, JUMPDEST, STOP
    assert_eq!(run_once(&[0x60, 0x04, 0x56, 0xfe, 0x5b, 0x00]), Ok((vec![], vec![])));
    // PUSH1 0 (cond), PUSH1 7, JUMPI falls through to STOP.
    assert_eq!(run_once(&[0x60, 0x00, 0x60, 0x07, 0x57, 0x00, 0xfe, 0x5b, 0xfe]), Ok((vec![], vec![])));
    // PUSH1 1 (cond), PUSH1 7, JUMPI jumps to the JUMPDEST at 7, then hits INVALID.
    assert_eq!(
        run_once(&[0x60, 0x01, 0x60, 0x07, 0x57, 0x00, 0xfe, 0x5b, 0xfe]),
        Err(Error::InvalidOpcode(0xfe))
    );
}

#[test]
fn push_pop_stop_ends_cleanly() {
    for n in 1..=32usize {
        let mut code = vec![0x5f + n as u8];
        code.extend(std::iter::repeat(0xa5).take(n));
        code.push(0x50);
        code.push(0x00);
        let mut db = MemoryDatabase::new();
        db.set(word(9), word(9));
        let mut vm = VM::new(db, &code);
        assert_eq!(vm.run(&env()), Ok((vec![], vec![])));
        assert_eq!(vm.db().get(word(9)), word(9));
    }
}

#[test]
fn push_past_the_end_of_code_fails() {
    assert_eq!(run_once(&[0x61, 0x01]), Err(Error::CodeOutOfBound));
    assert_eq!(run_once(&[0x5b]), Err(Error::CodeOutOfBound));
}

#[test]
fn calldata_is_zero_padded() {
    let data: Vec<u8> = (1..=40).collect();
    let w = calldata_load(&data, 20);
    let mut expect = [0u8; 32];
    for i in 0..20 {
        expect[i] = 21 + i as u8;
    }
    assert_eq!(w, Word { bytes: expect });
    assert_eq!(calldata_load(&data, 1000), Word::zero());
    assert_eq!(calldata_load(&data, usize::MAX), Word::zero());
    let mut e = env();
    e.calldata = vec![0xaa, 0xbb];
    // PUSH1 1, CALLDATALOAD, return it.
    let code = returning(vec![0x60, 0x01, 0x35]);
    let mut vm = VM::new(MemoryDatabase::new(), &code);
    let mut out = vec![0u8; 32];
    out[0] = 0xbb;
    assert_eq!(vm.run(&e), Ok((out, vec![])));
}

#[test]
fn running_twice_gives_the_same_result() {
    let code = sstore_sload_code();
    let mut a = VM::new(MemoryDatabase::new(), &code);
    let mut b = VM::new(MemoryDatabase::new(), &code);
    let ra = a.run(&env());
    let rb = b.run(&env());
    assert_eq!(ra, rb);
    assert_eq!(a.db().get(word(1)), b.db().get(word(1)));
    assert_eq!(a.run(&env()), ra);
    assert_eq!(a.db().get(word(1)), word(42));
}

#[test]
fn call_leaves_the_store_alone() {
    let code = sstore_sload_code();
    let mut db = MemoryDatabase::new();
    db.set(word(1), word(3));
    let mut vm = VM::new(db, &code);
    assert_eq!(vm.call(&env()), Ok((be32(0x2a), vec![])));
    assert_eq!(vm.db().get(word(1)), word(3));
}

#[test]
fn failed_run_rolls_back() {
    // PUSH1 7, PUSH1 1, SSTORE, INVALID
    let code = [0x60, 0x07, 0x60, 0x01, 0x55, 0xfe];
    let mut vm = VM::new(MemoryDatabase::new(), &code);
    assert_eq!(vm.run(&env()), Err(Error::InvalidOpcode(0xfe)));
    assert_eq!(vm.db().get(word(1)), word(0));
}

#[test]
fn environment_words_are_pushed() {
    let mut e = env();
    e.caller = [0x11; 20];
    e.timestamp = word(1234);
    e.number = word(77);
    e.calldata = vec![1, 2, 3];
    let run = |op: u8| {
        let code = returning(vec![op]);
        let mut vm = VM::new(MemoryDatabase::new(), &code);
        vm.run(&e).unwrap().0
    };
    let mut caller = vec![0u8; 12];
    caller.extend_from_slice(&[0x11; 20]);
    assert_eq!(run(0x33), caller);
    assert_eq!(run(0x34), be32(0));
    assert_eq!(run(0x36), be32(3));
    assert_eq!(run(0x42), word(1234).bytes.to_vec());
    assert_eq!(run(0x43), be32(77));
    assert_eq!(run(0x46), be32(1));
}

#[test]
fn logs_carry_topics_and_data() {
    // MSTORE 0xee at 0, then LOG2 of the byte at 31 with topics 8 and 9, then STOP.
    let code = [
        0x60, 0xee, 0x60, 0x00, 0x52, 0x60, 0x09, 0x60, 0x08, 0x60, 0x01, 0x60, 0x1f, 0xa2, 0x00,
    ];
    let (out, logs) = run_once(&code).unwrap();
    assert_eq!(out, vec![]);
    assert_eq!(logs, vec![Log { topics: vec![word(8), word(9)], data: vec![0xee] }]);
    // LOG1 with one word missing underflows.
    assert_eq!(run_once(&[0x60, 0x00, 0x60, 0x00, 0xa1]), Err(Error::StackUnderflow));
}

#[test]
fn keccak_of_empty_memory_range() {
    let code = returning(vec![0x60, 0x00, 0x60, 0x00, 0x20]);
    let (out, _) = run_once(&code).unwrap();
    let expect = hex::decode("c5d2460186f7233c927e7db2dcc703c0e500b653ca82273b7bfad8045d85a470").unwrap();
    assert_eq!(out, expect);
}

#[test]
fn stack_errors_surface() {
    assert_eq!(run_once(&[0x01]), Err(Error::StackUnderflow));
    assert_eq!(run_once(&[0x60, 0x01, 0x90]), Err(Error::StackUnderflow));
    // MLOAD at 65505
    assert_eq!(run_once(&[0x61, 0xff, 0xe1, 0x51]), Err(Error::MemoryOverflow));
    // RETURN of a range past the largest memory size
    assert_eq!(run_once(&[0x60, 0x02, 0x62, 0x01, 0x00, 0x00, 0xf3]), Err(Error::MemoryOutOfBound));
}

#[test]
fn return_reads_zero_past_memory() {
    // RETURN 4 bytes from offset 30 of empty memory.
    assert_eq!(run_once(&[0x60, 0x04, 0x60, 0x1e, 0xf3]), Ok((vec![0, 0, 0, 0], vec![])));
}
