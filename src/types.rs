//! The values that the interpreter takes in and hands back.

use crate::word::Word;
use vstd::prelude::*;

verus! {

/// An entry appended by a LOG instruction.
#[derive(Debug, PartialEq, Eq)]
pub struct Log {
    pub topics: Vec<Word>,
    pub data: Vec<u8>,
}

/// The environment of one invocation.
#[derive(Debug, PartialEq, Eq)]
pub struct Env {
    pub caller: [u8; 20],
    pub timestamp: Word,
    pub number: Word,
    pub chainid: Word,
    pub calldata: Vec<u8>,
}

/// Why an execution did not complete normally.
#[derive(Debug, PartialEq, Eq)]
pub enum Error {
    /// A REVERT instruction ran; it hands back these bytes.
    Revert(Vec<u8>),
    /// The byte at the program counter is not an instruction.
    InvalidOpcode(u8),
    /// The program counter left the code, or a PUSH reads past its end.
    CodeOutOfBound,
    /// A push onto a full stack.
    StackOverflow,
    /// A pop, dup or swap needs more elements than the stack holds.
    StackUnderflow,
    /// A stack word used as an index does not fit in a `usize`.
    StackValueOutOfRange,
    /// A memory access reaches past the largest memory size.
    MemoryOverflow,
    /// A memory view reaches past the largest memory size.
    MemoryOutOfBound,
    /// A JUMP or JUMPI whose target is not a JUMPDEST instruction.
    InvalidJump,
    /// The execution ran out of its budget of steps.
    OutOfSteps,
}

/// What one instruction asks of the dispatch loop.
#[derive(Debug, PartialEq, Eq)]
pub enum OpStep {
    Continue,
    Return(Vec<u8>),
}

pub type OpResult = Result<OpStep, Error>;

pub type RunResult = Result<(Vec<u8>, Vec<Log>), Error>;

} // verus!
