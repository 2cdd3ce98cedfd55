//! What one instruction does, and what a whole execution yields, stated over plain
//! mathematical values.

use crate::db::kv_get;
use crate::mem::{grown, overwrite, padded_window, MAX_SIZE};
use crate::stack::{dup_spec, swap_spec, STACK_LIMIT};
use crate::state::read_through;
use crate::types::{Env, Error};
use crate::word::{bool_word, keccak256_of, word_from_bytes, word_modulus, word_of, Word};
use vstd::arithmetic::power::pow;
use vstd::arithmetic::power2::pow2;
use vstd::prelude::*;

verus! {

/// A log entry as values: its topics and its data.
pub type LogValue = (Seq<Word>, Seq<u8>);

/// The machine between two instructions.
pub struct MachineState {
    pub pc: int,
    pub stack: Seq<Word>,
    pub mem: Seq<u8>,
    pub logs: Seq<LogValue>,
    pub pending: Map<Word, Word>,
}

/// What one instruction leads to.
pub enum Step {
    Continue(MachineState),
    Return(Seq<u8>, MachineState),
    Revert(Seq<u8>),
    Fail(Error),
}

/// What a whole execution leads to.
pub enum Outcome {
    /// Normal termination: the output, the logs, and the storage writes to commit.
    Done(Seq<u8>, Seq<LogValue>, Map<Word, Word>),
    Reverted(Seq<u8>),
    Failed(Error),
}

/// A position that starts an instruction, scanning from `p`: PUSH data is skipped.
pub open spec fn starts_instruction(code: Seq<u8>, p: int, i: int) -> bool
    decreases code.len() - p,
{
    if p < 0 || p >= code.len() || p > i {
        false
    } else if p == i {
        true
    } else {
        let next = p + 1 + push_size(code[p]);
        if next <= p || next > code.len() {
            false
        } else {
            starts_instruction(code, next, i)
        }
    }
}

/// The number of data bytes that follow an instruction.
pub open spec fn push_size(op: u8) -> int {
    if 0x60 <= op <= 0x7f {
        op - 0x5f
    } else {
        0
    }
}

/// A valid jump target: a JUMPDEST byte that starts an instruction.
pub open spec fn is_jumpdest(code: Seq<u8>, i: int) -> bool {
    0 <= i < code.len() && code[i] == 0x5b && starts_instruction(code, 0, i)
}

/// The instructions that pop two words and push one.
pub open spec fn is_binary(op: u8) -> bool {
    op == 0x01 || op == 0x02 || op == 0x03 || op == 0x04 || op == 0x06 || op == 0x0a || op
        == 0x10 || op == 0x11 || op == 0x12 || op == 0x14 || op == 0x16 || op == 0x17 || op
        == 0x18 || op == 0x1b || op == 0x1c
}

/// The result of a two-operand instruction; `a` was the top of the stack.
pub open spec fn binary_result(op: u8, a: Word, b: Word) -> Word {
    let x = a.value();
    let y = b.value();
    let m = word_modulus();
    if op == 0x01 {
        word_of((x + y) % m)
    } else if op == 0x02 {
        word_of((x * y) % m)
    } else if op == 0x03 {
        word_of(((x - y) % (m as int)) as nat)
    } else if op == 0x04 {
        word_of(if y == 0 { 0 } else { x / y })
    } else if op == 0x06 {
        word_of(if y == 0 { 0 } else { x % y })
    } else if op == 0x0a {
        word_of((pow(x as int, y) % (m as int)) as nat)
    } else if op == 0x10 {
        bool_word(x < y)
    } else if op == 0x11 {
        bool_word(x > y)
    } else if op == 0x12 {
        bool_word(a.signed_value() < b.signed_value())
    } else if op == 0x14 {
        bool_word(a == b)
    } else if op == 0x16 {
        word_from_bytes(Seq::new(32, |i: int| a.bytes[i] & b.bytes[i]))
    } else if op == 0x17 {
        word_from_bytes(Seq::new(32, |i: int| a.bytes[i] | b.bytes[i]))
    } else if op == 0x18 {
        word_from_bytes(Seq::new(32, |i: int| a.bytes[i] ^ b.bytes[i]))
    } else if op == 0x1b {
        word_of(if x >= 256 { 0 } else { (y * pow2(x)) % m })
    } else {
        word_of(if x >= 256 { 0 } else { y / pow2(x) })
    }
}

/// The result of ADDMOD (0x08) or MULMOD (0x09); `a` was the top of the stack.
pub open spec fn modular_result(op: u8, a: Word, b: Word, n: Word) -> Word {
    if n.value() == 0 {
        word_of(0)
    } else if op == 0x08 {
        word_of((a.value() + b.value()) % n.value())
    } else {
        word_of((a.value() * b.value()) % n.value())
    }
}

/// The word that CALLDATALOAD reads: 32 bytes from `offset`, zero past the end.
pub open spec fn calldata_word(data: Seq<u8>, offset: int) -> Word {
    word_from_bytes(padded_window(data, offset, 32))
}

/// The word that PUSHn reads: the n bytes after the opcode, big-endian.
pub open spec fn push_word(code: Seq<u8>, pc: int, n: int) -> Word {
    word_from_bytes(Seq::new((32 - n) as nat, |i: int| 0u8) + code.subrange(pc + 1, pc + 1 + n))
}

/// The value of the top word as an index, or why it cannot be one.
pub open spec fn top_index(s: Seq<Word>) -> Result<nat, Error> {
    if s.len() < 1 {
        Err(Error::StackUnderflow)
    } else if s.last().value() > usize::MAX {
        Err(Error::StackValueOutOfRange)
    } else {
        Ok(s.last().value())
    }
}

/// The two top words as indices (offset, then length), or why they cannot be.
pub open spec fn top_two_indices(s: Seq<Word>) -> Result<(nat, nat), Error> {
    match top_index(s) {
        Err(e) => Err(e),
        Ok(a) => match top_index(s.drop_last()) {
            Err(e) => Err(e),
            Ok(b) => Ok((a, b)),
        },
    }
}

/// The machine after pushing one word, or a stack overflow.
pub open spec fn push_then_next(m: MachineState, w: Word) -> Step {
    if m.stack.len() >= STACK_LIMIT {
        Step::Fail(Error::StackOverflow)
    } else {
        Step::Continue(MachineState { pc: m.pc + 1, stack: m.stack.push(w), ..m })
    }
}

/// The machine after replacing the top `k` words by `w`, at the next instruction.
pub open spec fn replace_top(m: MachineState, k: int, w: Word) -> MachineState {
    MachineState { pc: m.pc + 1, stack: m.stack.subrange(0, m.stack.len() - k).push(w), ..m }
}

/// The machine after dropping the top `k` words.
pub open spec fn drop_top(m: MachineState, k: int) -> MachineState {
    MachineState { stack: m.stack.subrange(0, m.stack.len() - k), ..m }
}

/// The effect of the instruction at `m.pc`.
pub open spec fn step(code: Seq<u8>, env: Env, kv: Map<Word, Word>, m: MachineState) -> Step {
    let op = code[m.pc];
    let s = m.stack;
    let n = s.len();
    if op == 0x00 {
        Step::Return(Seq::empty(), m)
    } else if is_binary(op) {
        if n < 2 {
            Step::Fail(Error::StackUnderflow)
        } else {
            Step::Continue(replace_top(m, 2, binary_result(op, s[n - 1], s[n - 2])))
        }
    } else if op == 0x08 || op == 0x09 {
        if n < 3 {
            Step::Fail(Error::StackUnderflow)
        } else {
            Step::Continue(replace_top(m, 3, modular_result(op, s[n - 1], s[n - 2], s[n - 3])))
        }
    } else if op == 0x15 || op == 0x19 {
        if n < 1 {
            Step::Fail(Error::StackUnderflow)
        } else if op == 0x15 {
            Step::Continue(replace_top(m, 1, bool_word(s[n - 1].value() == 0)))
        } else {
            Step::Continue(
                replace_top(m, 1, word_from_bytes(Seq::new(32, |i: int| !s[n - 1].bytes[i]))),
            )
        }
    } else if op == 0x20 {
        match top_two_indices(s) {
            Err(e) => Step::Fail(e),
            Ok((start, len)) => if start + len > MAX_SIZE {
                Step::Fail(Error::MemoryOutOfBound)
            } else {
                Step::Continue(
                    replace_top(
                        m,
                        2,
                        word_from_bytes(keccak256_of(padded_window(m.mem, start as int, len as int))),
                    ),
                )
            },
        }
    } else if op == 0x33 {
        push_then_next(m, word_from_bytes(Seq::new(12, |i: int| 0u8) + env.caller@))
    } else if op == 0x34 {
        push_then_next(m, word_of(0))
    } else if op == 0x35 {
        match top_index(s) {
            Err(e) => Step::Fail(e),
            Ok(offset) => Step::Continue(
                replace_top(m, 1, calldata_word(env.calldata@, offset as int)),
            ),
        }
    } else if op == 0x36 {
        push_then_next(m, word_of(env.calldata@.len()))
    } else if op == 0x42 {
        push_then_next(m, env.timestamp)
    } else if op == 0x43 {
        push_then_next(m, env.number)
    } else if op == 0x46 {
        push_then_next(m, env.chainid)
    } else if op == 0x50 {
        if n < 1 {
            Step::Fail(Error::StackUnderflow)
        } else {
            Step::Continue(MachineState { pc: m.pc + 1, ..drop_top(m, 1) })
        }
    } else if op == 0x51 {
        match top_index(s) {
            Err(e) => Step::Fail(e),
            Ok(key) => if key > MAX_SIZE - 32 {
                Step::Fail(Error::MemoryOverflow)
            } else {
                let g = grown(m.mem, key + 32);
                Step::Continue(
                    MachineState {
                        mem: g,
                        ..replace_top(m, 1, word_from_bytes(g.subrange(key as int, key + 32int)))
                    },
                )
            },
        }
    } else if op == 0x52 {
        match top_index(s) {
            Err(e) => Step::Fail(e),
            Ok(key) => if n < 2 {
                Step::Fail(Error::StackUnderflow)
            } else if key > MAX_SIZE - 32 {
                Step::Fail(Error::MemoryOverflow)
            } else {
                Step::Continue(
                    MachineState {
                        pc: m.pc + 1,
                        mem: overwrite(grown(m.mem, key + 32), key as int, s[n - 2].bytes@),
                        ..drop_top(m, 2)
                    },
                )
            },
        }
    } else if op == 0x54 {
        if n < 1 {
            Step::Fail(Error::StackUnderflow)
        } else {
            Step::Continue(replace_top(m, 1, read_through(m.pending, kv, s[n - 1])))
        }
    } else if op == 0x55 {
        if n < 2 {
            Step::Fail(Error::StackUnderflow)
        } else {
            Step::Continue(
                MachineState {
                    pc: m.pc + 1,
                    pending: m.pending.insert(s[n - 1], s[n - 2]),
                    ..drop_top(m, 2)
                },
            )
        }
    } else if op == 0x56 {
        match top_index(s) {
            Err(e) => Step::Fail(e),
            Ok(dest) => if !is_jumpdest(code, dest as int) {
                Step::Fail(Error::InvalidJump)
            } else {
                Step::Continue(MachineState { pc: dest as int, ..drop_top(m, 1) })
            },
        }
    } else if op == 0x57 {
        match top_index(s) {
            Err(e) => Step::Fail(e),
            Ok(dest) => if n < 2 {
                Step::Fail(Error::StackUnderflow)
            } else if s[n - 2].value() == 0 {
                Step::Continue(MachineState { pc: m.pc + 1, ..drop_top(m, 2) })
            } else if !is_jumpdest(code, dest as int) {
                Step::Fail(Error::InvalidJump)
            } else {
                Step::Continue(MachineState { pc: dest as int, ..drop_top(m, 2) })
            },
        }
    } else if op == 0x5b {
        Step::Continue(MachineState { pc: m.pc + 1, ..m })
    } else if 0x60 <= op <= 0x7f {
        let k = op - 0x5f;
        if k >= code.len() - m.pc {
            Step::Fail(Error::CodeOutOfBound)
        } else if n >= STACK_LIMIT {
            Step::Fail(Error::StackOverflow)
        } else {
            Step::Continue(
                MachineState { pc: m.pc + k + 1, stack: s.push(push_word(code, m.pc, k)), ..m },
            )
        }
    } else if 0x80 <= op <= 0x8f {
        let k = op - 0x7f;
        if n < k {
            Step::Fail(Error::StackUnderflow)
        } else if n >= STACK_LIMIT {
            Step::Fail(Error::StackOverflow)
        } else {
            Step::Continue(MachineState { pc: m.pc + 1, stack: dup_spec(s, k), ..m })
        }
    } else if 0x90 <= op <= 0x9f {
        let k = op - 0x8f;
        if n <= k {
            Step::Fail(Error::StackUnderflow)
        } else {
            Step::Continue(MachineState { pc: m.pc + 1, stack: swap_spec(s, k), ..m })
        }
    } else if 0xa0 <= op <= 0xa4 {
        let k = op - 0xa0;
        match top_two_indices(s) {
            Err(e) => Step::Fail(e),
            Ok((offset, len)) => if n < 2 + k {
                Step::Fail(Error::StackUnderflow)
            } else if offset + len > MAX_SIZE {
                Step::Fail(Error::MemoryOutOfBound)
            } else {
                Step::Continue(
                    MachineState {
                        pc: m.pc + 1,
                        logs: m.logs.push(
                            (
                                Seq::new(k as nat, |j: int| s[n - 3 - j]),
                                padded_window(m.mem, offset as int, len as int),
                            ),
                        ),
                        ..drop_top(m, 2 + k)
                    },
                )
            },
        }
    } else if op == 0xf3 || op == 0xfd {
        match top_two_indices(s) {
            Err(e) => Step::Fail(e),
            Ok((offset, len)) => if offset + len > MAX_SIZE {
                Step::Fail(Error::MemoryOutOfBound)
            } else if op == 0xf3 {
                Step::Return(padded_window(m.mem, offset as int, len as int), drop_top(m, 2))
            } else {
                Step::Revert(padded_window(m.mem, offset as int, len as int))
            },
        }
    } else {
        Step::Fail(Error::InvalidOpcode(op))
    }
}

/// The machine at the start of an execution.
pub open spec fn initial_machine(pending: Map<Word, Word>) -> MachineState {
    MachineState {
        pc: 0,
        stack: Seq::empty(),
        mem: Seq::empty(),
        logs: Seq::empty(),
        pending,
    }
}

/// PUSHn v, POP, STOP ends normally with empty output, no logs and no storage writes.
pub proof fn lemma_push_pop_stop(code: Seq<u8>, env: Env, kv: Map<Word, Word>, n: int, fuel: nat)
    requires
        1 <= n <= 32,
        code.len() == n + 3,
        code[0] == 0x5f + n,
        code[n + 1] == 0x50,
        code[n + 2] == 0x00,
        fuel >= 3,
    ensures
        execute(code, env, kv, initial_machine(Map::empty()), fuel) == Outcome::Done(
            Seq::empty(),
            Seq::empty(),
            Map::empty(),
        ),
{
    let m0 = initial_machine(Map::empty());
    let m1 = MachineState { pc: n + 1, stack: seq![push_word(code, 0, n)], ..m0 };
    let m2 = MachineState { pc: n + 2, stack: Seq::empty(), ..m0 };
    assert(step(code, env, kv, m0) == Step::Continue(m1));
    assert(m1.stack.subrange(0, 0) =~= Seq::<Word>::empty());
    assert(step(code, env, kv, m1) == Step::Continue(m2));
    assert(step(code, env, kv, m2) == Step::Return(Seq::empty(), m2));
    assert(execute(code, env, kv, m2, (fuel - 2) as nat) == Outcome::Done(
        Seq::<u8>::empty(),
        Seq::<LogValue>::empty(),
        Map::<Word, Word>::empty(),
    ));
    assert(execute(code, env, kv, m1, (fuel - 1) as nat) == execute(code, env, kv, m2, (fuel - 2) as nat));
}

/// A JUMP, or a JUMPI whose condition is not zero, to a position that is not a JUMPDEST
/// instruction (another byte, or a byte inside PUSH data) fails with `InvalidJump`.
pub proof fn lemma_jump_needs_jumpdest(code: Seq<u8>, env: Env, kv: Map<Word, Word>, m: MachineState)
    requires
        0 <= m.pc < code.len(),
        code[m.pc] == 0x56 || (code[m.pc] == 0x57 && m.stack.len() >= 2 && m.stack[m.stack.len()
            - 2].value() != 0),
        top_index(m.stack) matches Ok(dest) && !is_jumpdest(code, dest as int),
    ensures
        step(code, env, kv, m) == Step::Fail(Error::InvalidJump),
{
}

/// Runs from `m` for at most `fuel` instructions.
pub open spec fn execute(code: Seq<u8>, env: Env, kv: Map<Word, Word>, m: MachineState, fuel: nat) -> Outcome
    decreases fuel,
{
    if fuel == 0 {
        Outcome::Failed(Error::OutOfSteps)
    } else if m.pc < 0 || m.pc >= code.len() {
        Outcome::Failed(Error::CodeOutOfBound)
    } else {
        match step(code, env, kv, m) {
            Step::Continue(m2) => execute(code, env, kv, m2, (fuel - 1) as nat),
            Step::Return(out, m2) => Outcome::Done(out, m2.logs, m2.pending),
            Step::Revert(out) => Outcome::Reverted(out),
            Step::Fail(e) => Outcome::Failed(e),
        }
    }
}

} // verus!
