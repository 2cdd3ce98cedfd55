use evm::db::{Database, MemoryDatabase};
use evm::state::State;
use evm::word::Word;

fn word(n: usize) -> Word {
    Word::from_usize(n)
}

#[test]
fn memory_test_memory_database_empty() {
    let db = MemoryDatabase::new();
    assert_eq!(db.get(word(999)), word(0));
}

#[test]
fn memory_test_memory_database_get_set() {
    let mut db = MemoryDatabase::new();
    db.set(word(123), word(456));
    assert_eq!(db.get(word(123)), word(456));
    assert_eq!(db.get(word(124)), word(0));
    db.set(word(123), word(789));
    assert_eq!(db.get(word(123)), word(789));
    assert_eq!(db.get(word(124)), word(0));
    db.set(word(123), word(0));
    assert_eq!(db.get(word(123)), word(0));
}

#[test]
fn test_state_load_store() {
    let mut db = MemoryDatabase::new();
    db.set(word(123), word(456));
    let mut st = State::new(db);
    assert_eq!(st.load(word(123)), word(456));
    assert_eq!(st.load(word(124)), word(0));
    st.store(word(123), word(457));
    st.store(word(124), word(458));
    assert_eq!(st.load(word(123)), word(457));
    assert_eq!(st.load(word(124)), word(458));
    assert_eq!(st.load(word(125)), word(0));
}

#[test]
fn test_state_rollback() {
    let mut db = MemoryDatabase::new();
    db.set(word(123), word(456));
    let mut st = State::new(db);
    st.store(word(123), word(457));
    assert_eq!(st.load(word(123)), word(457));
    st.rollback();
    assert_eq!(st.load(word(123)), word(456));
}

#[test]
fn test_state_commit() {
    let mut db = MemoryDatabase::new();
    db.set(word(123), word(456));
    let mut st = State::new(db);
    st.store(word(123), word(457));
    assert_eq!(st.load(word(123)), word(457));
    st.commit();
    st.rollback();
    assert_eq!(st.load(word(123)), word(457));
}

#[test]
fn committed_values_reach_a_fresh_state() {
    let mut st = State::new(MemoryDatabase::new());
    st.store(word(1), word(10));
    st.store(word(2), word(20));
    st.store(word(1), word(11));
    st.commit();
    let fresh = State::new(st.into_db());
    assert_eq!(fresh.load(word(1)), word(11));
    assert_eq!(fresh.load(word(2)), word(20));
    assert_eq!(fresh.load(word(3)), word(0));
}

#[test]
fn storing_zero_then_committing_erases() {
    let mut db = MemoryDatabase::new();
    db.set(word(5), word(50));
    let mut st = State::new(db);
    st.store(word(5), word(0));
    st.commit();
    let fresh = State::new(st.into_db());
    assert_eq!(fresh.load(word(5)), word(0));
}
