//! The interpreter: one handler per instruction family, the decoder, and the
//! fetch/execute loop.

use crate::db::Database;
use crate::mem::{Mem, MAX_SIZE};
use crate::semantics::{
    execute, initial_machine, is_binary, is_jumpdest, starts_instruction, step, LogValue, MachineState, Outcome, Step,
};
use crate::stack::Stack;
use crate::state::State;
use crate::types::{Env, Error, Log, OpResult, OpStep, RunResult};
use crate::word::{
    add_mod, bit_and, bit_not, bit_or, bit_xor, div_or_zero, keccak256, less_than, lemma_word_from_bytes,
    lemma_word_of, mul_mod, rem_or_zero, shift_left, shift_right, signed_less_than, wrapping_add,
    wrapping_mul, wrapping_pow, wrapping_sub, Word,
};
use vstd::prelude::*;

verus! {

/// The most instructions one execution may run.
pub const STEP_BUDGET: u64 = 0xffff_ffff_ffff_ffff;

/// The log entries as values.
pub open spec fn logs_view(s: Seq<Log>) -> Seq<LogValue> {
    s.map_values(|l: Log| (l.topics@, l.data@))
}

/// Everything one execution works on but storage.
struct Context<'a> {
    code: &'a [u8],
    env: &'a Env,
    jumpdests: Vec<bool>,
    pc: usize,
    stack: Stack,
    mem: Mem,
    logs: Vec<Log>,
}

impl<'a> Context<'a> {
    spec fn machine(&self, pending: Map<Word, Word>) -> MachineState {
        MachineState {
            pc: self.pc as int,
            stack: self.stack@,
            mem: self.mem@,
            logs: logs_view(self.logs@),
            pending,
        }
    }

    spec fn inv(&self) -> bool {
        &&& self.mem.wf()
        &&& self.stack.wf()
        &&& self.code@.len() <= usize::MAX
        &&& self.jumpdests@.len() == self.code@.len()
        &&& forall|i: int|
            0 <= i < self.code@.len() ==> #[trigger] self.jumpdests@[i] == is_jumpdest(self.code@, i)
    }

    /// Ready to run the instruction `op` at the program counter.
    spec fn at(&self, op: u8) -> bool {
        &&& self.inv()
        &&& self.pc < self.code@.len()
        &&& self.code@[self.pc as int] == op
    }
}

/// The step result `st` is what the handler returned, and `after` the machine it left.
spec fn step_done(st: Step, r: OpResult, after: MachineState) -> bool {
    match st {
        Step::Continue(m) => r == Ok::<OpStep, Error>(OpStep::Continue) && after == m,
        Step::Return(out, m) => after == m && match r {
            Ok(OpStep::Return(v)) => v@ == out,
            _ => false,
        },
        Step::Revert(out) => match r {
            Err(Error::Revert(v)) => v@ == out,
            _ => false,
        },
        Step::Fail(e) => r == Err::<OpStep, Error>(e),
    }
}

/// The handler did what the instruction at `c0.pc` does.
spec fn performs<'a, DB: Database>(
    c0: &Context<'a>,
    s0: &State<DB>,
    c1: &Context<'a>,
    s1: &State<DB>,
    r: OpResult,
) -> bool {
    &&& c1.code == c0.code
    &&& c1.env == c0.env
    &&& c1.jumpdests == c0.jumpdests
    &&& c1.inv()
    &&& s1.kv() == s0.kv()
    &&& step_done(step(c0.code@, *c0.env, s0.kv(), c0.machine(s0.pending())), r, c1.machine(s1.pending()))
}

/// The word computed by a two-operand instruction.
fn apply_binary(op: u8, a: Word, b: Word) -> (r: Word)
    requires
        is_binary(op),
    ensures
        r == crate::semantics::binary_result(op, a, b),
{
    let r = if op == 0x01 {
        wrapping_add(a, b)
    } else if op == 0x02 {
        wrapping_mul(a, b)
    } else if op == 0x03 {
        wrapping_sub(a, b)
    } else if op == 0x04 {
        div_or_zero(a, b)
    } else if op == 0x06 {
        rem_or_zero(a, b)
    } else if op == 0x0a {
        wrapping_pow(a, b)
    } else if op == 0x10 {
        Word::from_usize(if less_than(a, b) { 1 } else { 0 })
    } else if op == 0x11 {
        Word::from_usize(if less_than(b, a) { 1 } else { 0 })
    } else if op == 0x12 {
        Word::from_usize(if signed_less_than(a, b) { 1 } else { 0 })
    } else if op == 0x14 {
        Word::from_usize(if a.equals(b) { 1 } else { 0 })
    } else if op == 0x16 {
        bit_and(a, b)
    } else if op == 0x17 {
        bit_or(a, b)
    } else if op == 0x18 {
        bit_xor(a, b)
    } else if op == 0x1b {
        shift_left(b, a)
    } else {
        shift_right(b, a)
    };
    proof {
        lemma_word_of(r);
        lemma_word_from_bytes(r);
        if op == 0x16 {
            assert(r.bytes@ =~= Seq::new(32, |i: int| a.bytes[i] & b.bytes[i]));
        } else if op == 0x17 {
            assert(r.bytes@ =~= Seq::new(32, |i: int| a.bytes[i] | b.bytes[i]));
        } else if op == 0x18 {
            assert(r.bytes@ =~= Seq::new(32, |i: int| a.bytes[i] ^ b.bytes[i]));
        }
    }
    r
}

/// STOP: ends with empty output.
fn op_stop<'a, DB: Database>(ctx: &mut Context<'a>, state: &State<DB>) -> (r: OpResult)
    requires
        old(ctx).at(0x00),
    ensures
        performs(old(ctx), state, final(ctx), state, r),
{
    Ok(OpStep::Return(Vec::new()))
}

/// The two-operand instructions: arithmetic, comparison, bitwise and shift.
fn op_binary<'a, DB: Database>(ctx: &mut Context<'a>, state: &State<DB>, op: u8) -> (r: OpResult)
    requires
        old(ctx).at(op),
        is_binary(op),
    ensures
        performs(old(ctx), state, final(ctx), state, r),
{
    let a = match ctx.stack.pop_u256() {
        Ok(w) => w,
        Err(e) => return Err(e),
    };
    let b = match ctx.stack.pop_u256() {
        Ok(w) => w,
        Err(e) => return Err(e),
    };
    let c = apply_binary(op, a, b);
    let _ = ctx.stack.push_u256(c);
    ctx.pc = ctx.pc + 1;
    proof {
        let s = old(ctx).stack@;
        assert(s.drop_last().drop_last() =~= s.subrange(0, s.len() - 2));
        assert(ctx.stack@ =~= s.subrange(0, s.len() - 2).push(
            crate::semantics::binary_result(op, s[s.len() - 1], s[s.len() - 2]),
        ));
    }
    Ok(OpStep::Continue)
}

/// ADDMOD and MULMOD.
fn op_modular<'a, DB: Database>(ctx: &mut Context<'a>, state: &State<DB>, op: u8) -> (r: OpResult)
    requires
        old(ctx).at(op),
        op == 0x08 || op == 0x09,
    ensures
        performs(old(ctx), state, final(ctx), state, r),
{
    let a = match ctx.stack.pop_u256() {
        Ok(w) => w,
        Err(e) => return Err(e),
    };
    let b = match ctx.stack.pop_u256() {
        Ok(w) => w,
        Err(e) => return Err(e),
    };
    let n = match ctx.stack.pop_u256() {
        Ok(w) => w,
        Err(e) => return Err(e),
    };
    let c = if op == 0x08 {
        add_mod(a, b, n)
    } else {
        mul_mod(a, b, n)
    };
    let _ = ctx.stack.push_u256(c);
    ctx.pc = ctx.pc + 1;
    proof {
        lemma_word_of(c);
        let s = old(ctx).stack@;
        assert(s.drop_last().drop_last().drop_last() =~= s.subrange(0, s.len() - 3));
        assert(ctx.stack@ =~= s.subrange(0, s.len() - 3).push(
            crate::semantics::modular_result(op, s[s.len() - 1], s[s.len() - 2], s[s.len() - 3]),
        ));
    }
    Ok(OpStep::Continue)
}

/// ISZERO and NOT.
fn op_unary<'a, DB: Database>(ctx: &mut Context<'a>, state: &State<DB>, op: u8) -> (r: OpResult)
    requires
        old(ctx).at(op),
        op == 0x15 || op == 0x19,
    ensures
        performs(old(ctx), state, final(ctx), state, r),
{
    let a = match ctx.stack.pop_u256() {
        Ok(w) => w,
        Err(e) => return Err(e),
    };
    let c = if op == 0x15 {
        Word::from_usize(if a.is_zero() { 1 } else { 0 })
    } else {
        bit_not(a)
    };
    let _ = ctx.stack.push_u256(c);
    ctx.pc = ctx.pc + 1;
    proof {
        lemma_word_of(c);
        lemma_word_from_bytes(c);
        if op == 0x19 {
            assert(c.bytes@ =~= Seq::new(32, |i: int| !a.bytes[i]));
        }
        let s = old(ctx).stack@;
        assert(s.drop_last() =~= s.subrange(0, s.len() - 1));
    }
    Ok(OpStep::Continue)
}

/// KECCAK256 of a memory range.
fn op_keccak<'a, DB: Database>(ctx: &mut Context<'a>, state: &State<DB>) -> (r: OpResult)
    requires
        old(ctx).at(0x20),
    ensures
        performs(old(ctx), state, final(ctx), state, r),
{
    let start = match ctx.stack.pop_usize() {
        Ok(v) => v,
        Err(e) => return Err(e),
    };
    let len = match ctx.stack.pop_usize() {
        Ok(v) => v,
        Err(e) => return Err(e),
    };
    let data = match ctx.mem.mview(start, len) {
        Ok(v) => v,
        Err(e) => return Err(e),
    };
    let w = Word { bytes: keccak256(data.as_slice()) };
    let _ = ctx.stack.push_u256(w);
    ctx.pc = ctx.pc + 1;
    proof {
        lemma_word_from_bytes(w);
        let s = old(ctx).stack@;
        assert(s.drop_last().drop_last() =~= s.subrange(0, s.len() - 2));
    }
    Ok(OpStep::Continue)
}

/// CALLER, CALLVALUE, CALLDATASIZE, TIMESTAMP, NUMBER and CHAINID.
fn op_env<'a, DB: Database>(ctx: &mut Context<'a>, state: &State<DB>, op: u8) -> (r: OpResult)
    requires
        old(ctx).at(op),
        op == 0x33 || op == 0x34 || op == 0x36 || op == 0x42 || op == 0x43 || op == 0x46,
    ensures
        performs(old(ctx), state, final(ctx), state, r),
{
    let w = if op == 0x33 {
        Word::from_address(ctx.env.caller)
    } else if op == 0x34 {
        Word::zero()
    } else if op == 0x36 {
        Word::from_usize(ctx.env.calldata.len())
    } else if op == 0x42 {
        ctx.env.timestamp
    } else if op == 0x43 {
        ctx.env.number
    } else {
        ctx.env.chainid
    };
    proof {
        lemma_word_of(w);
        lemma_word_from_bytes(w);
    }
    match ctx.stack.push_u256(w) {
        Ok(()) => {},
        Err(e) => return Err(e),
    }
    ctx.pc = ctx.pc + 1;
    Ok(OpStep::Continue)
}

/// The word that CALLDATALOAD reads: the 32 bytes of `data` from `offset` on, with
/// zero past its end, big-endian. No offset is out of range.
pub fn calldata_load(data: &[u8], offset: usize) -> (r: Word)
    ensures
        r.bytes@ == crate::mem::padded_window(data@, offset as int, 32),
        r == crate::semantics::calldata_word(data@, offset as int),
{
    let mut out = [0u8; 32];
    let mut i: usize = 0;
    while i < 32
        invariant
            i <= 32,
            forall|j: int|
                0 <= j < 32 ==> out[j] == (if j < i && offset + j < data@.len() {
                    data@[offset + j]
                } else {
                    0u8
                }),
        decreases 32 - i,
    {
        if offset < data.len() && i < data.len() - offset {
            out[i] = data[offset + i];
        }
        i += 1;
    }
    let w = Word { bytes: out };
    proof {
        assert(w.bytes@ =~= crate::mem::padded_window(data@, offset as int, 32));
        lemma_word_from_bytes(w);
    }
    w
}

/// CALLDATALOAD.
fn op_calldataload<'a, DB: Database>(ctx: &mut Context<'a>, state: &State<DB>) -> (r: OpResult)
    requires
        old(ctx).at(0x35),
    ensures
        performs(old(ctx), state, final(ctx), state, r),
{
    let offset = match ctx.stack.pop_usize() {
        Ok(v) => v,
        Err(e) => return Err(e),
    };
    let w = calldata_load(ctx.env.calldata.as_slice(), offset);
    let _ = ctx.stack.push_u256(w);
    ctx.pc = ctx.pc + 1;
    proof {
        let s = old(ctx).stack@;
        assert(s.drop_last() =~= s.subrange(0, s.len() - 1));
    }
    Ok(OpStep::Continue)
}

/// POP.
fn op_pop<'a, DB: Database>(ctx: &mut Context<'a>, state: &State<DB>) -> (r: OpResult)
    requires
        old(ctx).at(0x50),
    ensures
        performs(old(ctx), state, final(ctx), state, r),
{
    match ctx.stack.pop() {
        Ok(()) => {},
        Err(e) => return Err(e),
    }
    ctx.pc = ctx.pc + 1;
    proof {
        let s = old(ctx).stack@;
        assert(s.drop_last() =~= s.subrange(0, s.len() - 1));
    }
    Ok(OpStep::Continue)
}

/// MLOAD.
fn op_mload<'a, DB: Database>(ctx: &mut Context<'a>, state: &State<DB>) -> (r: OpResult)
    requires
        old(ctx).at(0x51),
    ensures
        performs(old(ctx), state, final(ctx), state, r),
{
    let key = match ctx.stack.pop_usize() {
        Ok(v) => v,
        Err(e) => return Err(e),
    };
    let w = match ctx.mem.mload(key) {
        Ok(w) => w,
        Err(e) => return Err(e),
    };
    let _ = ctx.stack.push_u256(w);
    ctx.pc = ctx.pc + 1;
    proof {
        lemma_word_from_bytes(w);
        let s = old(ctx).stack@;
        assert(s.drop_last() =~= s.subrange(0, s.len() - 1));
    }
    Ok(OpStep::Continue)
}

/// MSTORE.
fn op_mstore<'a, DB: Database>(ctx: &mut Context<'a>, state: &State<DB>) -> (r: OpResult)
    requires
        old(ctx).at(0x52),
    ensures
        performs(old(ctx), state, final(ctx), state, r),
{
    let key = match ctx.stack.pop_usize() {
        Ok(v) => v,
        Err(e) => return Err(e),
    };
    let value = match ctx.stack.pop_u256() {
        Ok(w) => w,
        Err(e) => return Err(e),
    };
    match ctx.mem.mstore(key, value) {
        Ok(()) => {},
        Err(e) => return Err(e),
    }
    ctx.pc = ctx.pc + 1;
    proof {
        let s = old(ctx).stack@;
        assert(s.drop_last().drop_last() =~= s.subrange(0, s.len() - 2));
    }
    Ok(OpStep::Continue)
}

/// SLOAD.
fn op_sload<'a, DB: Database>(ctx: &mut Context<'a>, state: &State<DB>) -> (r: OpResult)
    requires
        old(ctx).at(0x54),
    ensures
        performs(old(ctx), state, final(ctx), state, r),
{
    let key = match ctx.stack.pop_u256() {
        Ok(w) => w,
        Err(e) => return Err(e),
    };
    let _ = ctx.stack.push_u256(state.load(key));
    ctx.pc = ctx.pc + 1;
    proof {
        let s = old(ctx).stack@;
        assert(s.drop_last() =~= s.subrange(0, s.len() - 1));
    }
    Ok(OpStep::Continue)
}

/// SSTORE: the write stays pending in the state.
fn op_sstore<'a, DB: Database>(ctx: &mut Context<'a>, state: &mut State<DB>) -> (r: OpResult)
    requires
        old(ctx).at(0x55),
    ensures
        performs(old(ctx), old(state), final(ctx), final(state), r),
{
    let key = match ctx.stack.pop_u256() {
        Ok(w) => w,
        Err(e) => return Err(e),
    };
    let value = match ctx.stack.pop_u256() {
        Ok(w) => w,
        Err(e) => return Err(e),
    };
    state.store(key, value);
    ctx.pc = ctx.pc + 1;
    proof {
        let s = old(ctx).stack@;
        assert(s.drop_last().drop_last() =~= s.subrange(0, s.len() - 2));
    }
    Ok(OpStep::Continue)
}

/// JUMP, to a valid JUMPDEST only.
fn op_jump<'a, DB: Database>(ctx: &mut Context<'a>, state: &State<DB>) -> (r: OpResult)
    requires
        old(ctx).at(0x56),
    ensures
        performs(old(ctx), state, final(ctx), state, r),
{
    let dest = match ctx.stack.pop_usize() {
        Ok(v) => v,
        Err(e) => return Err(e),
    };
    if dest < ctx.jumpdests.len() && ctx.jumpdests[dest] {
        ctx.pc = dest;
        proof {
            let s = old(ctx).stack@;
            assert(s.drop_last() =~= s.subrange(0, s.len() - 1));
        }
        Ok(OpStep::Continue)
    } else {
        Err(Error::InvalidJump)
    }
}

/// JUMPI: jumps, to a valid JUMPDEST only, when the condition is not zero.
fn op_jumpi<'a, DB: Database>(ctx: &mut Context<'a>, state: &State<DB>) -> (r: OpResult)
    requires
        old(ctx).at(0x57),
    ensures
        performs(old(ctx), state, final(ctx), state, r),
{
    let dest = match ctx.stack.pop_usize() {
        Ok(v) => v,
        Err(e) => return Err(e),
    };
    let cond = match ctx.stack.pop_u256() {
        Ok(w) => w,
        Err(e) => return Err(e),
    };
    proof {
        let s = old(ctx).stack@;
        assert(s.drop_last().drop_last() =~= s.subrange(0, s.len() - 2));
    }
    if cond.is_zero() {
        ctx.pc = ctx.pc + 1;
        Ok(OpStep::Continue)
    } else if dest < ctx.jumpdests.len() && ctx.jumpdests[dest] {
        ctx.pc = dest;
        Ok(OpStep::Continue)
    } else {
        Err(Error::InvalidJump)
    }
}

/// JUMPDEST: a marker that does nothing.
fn op_jumpdest<'a, DB: Database>(ctx: &mut Context<'a>, state: &State<DB>) -> (r: OpResult)
    requires
        old(ctx).at(0x5b),
    ensures
        performs(old(ctx), state, final(ctx), state, r),
{
    ctx.pc = ctx.pc + 1;
    Ok(OpStep::Continue)
}

/// PUSH1 to PUSH32: pushes the n bytes that follow the opcode.
fn op_push<'a, DB: Database>(ctx: &mut Context<'a>, state: &State<DB>, op: u8, n: usize) -> (r: OpResult)
    requires
        old(ctx).at(op),
        0x60 <= op <= 0x7f,
        n == op - 0x5f,
    ensures
        performs(old(ctx), state, final(ctx), state, r),
{
    let pc = ctx.pc;
    if n >= ctx.code.len() - pc {
        return Err(Error::CodeOutOfBound);
    }
    let mut out = [0u8; 32];
    let mut i: usize = 0;
    while i < n
        invariant
            1 <= n <= 32,
            pc + n < ctx.code@.len(),
            ctx.code@.len() <= usize::MAX,
            i <= n,
            forall|j: int| 0 <= j < 32 - n ==> out[j] == 0,
            forall|j: int| 32 - n <= j < 32 - n + i ==> out[j] == ctx.code@[pc + 1 + j - (32 - n)],
        decreases n - i,
    {
        out[32 - n + i] = ctx.code[pc + 1 + i];
        i += 1;
    }
    let w = Word { bytes: out };
    proof {
        assert(w.bytes@ =~= Seq::new((32 - n) as nat, |j: int| 0u8) + ctx.code@.subrange(
            pc + 1,
            pc + 1 + n,
        ));
        lemma_word_from_bytes(w);
    }
    match ctx.stack.push_u256(w) {
        Ok(()) => {},
        Err(e) => return Err(e),
    }
    ctx.pc = pc + n + 1;
    Ok(OpStep::Continue)
}

/// DUP1 to DUP16.
fn op_dup<'a, DB: Database>(ctx: &mut Context<'a>, state: &State<DB>, op: u8, n: usize) -> (r: OpResult)
    requires
        old(ctx).at(op),
        0x80 <= op <= 0x8f,
        n == op - 0x7f,
    ensures
        performs(old(ctx), state, final(ctx), state, r),
{
    match ctx.stack.dup_n(n) {
        Ok(()) => {},
        Err(e) => return Err(e),
    }
    ctx.pc = ctx.pc + 1;
    Ok(OpStep::Continue)
}

/// SWAP1 to SWAP16.
fn op_swap<'a, DB: Database>(ctx: &mut Context<'a>, state: &State<DB>, op: u8, n: usize) -> (r: OpResult)
    requires
        old(ctx).at(op),
        0x90 <= op <= 0x9f,
        n == op - 0x8f,
    ensures
        performs(old(ctx), state, final(ctx), state, r),
{
    match ctx.stack.swap_n(n) {
        Ok(()) => {},
        Err(e) => return Err(e),
    }
    ctx.pc = ctx.pc + 1;
    Ok(OpStep::Continue)
}

/// LOG0 to LOG4: appends an entry of n topics and a memory range.
fn op_log<'a, DB: Database>(ctx: &mut Context<'a>, state: &State<DB>, op: u8, n: usize) -> (r: OpResult)
    requires
        old(ctx).at(op),
        0xa0 <= op <= 0xa4,
        n == op - 0xa0,
    ensures
        performs(old(ctx), state, final(ctx), state, r),
{
    let offset = match ctx.stack.pop_usize() {
        Ok(v) => v,
        Err(e) => return Err(e),
    };
    let len = match ctx.stack.pop_usize() {
        Ok(v) => v,
        Err(e) => return Err(e),
    };
    let ghost s = old(ctx).stack@;
    assert(crate::semantics::top_two_indices(s) == Ok::<(nat, nat), Error>((offset as nat, len as nat)));
    let mut topics: Vec<Word> = Vec::new();
    let mut i: usize = 0;
    while i < n
        invariant
            old(ctx).at(op),
            s == old(ctx).stack@,
            0xa0 <= op <= 0xa4,
            n == op - 0xa0,
            i <= n,
            s.len() >= 2 + i,
            crate::semantics::top_two_indices(s) == Ok::<(nat, nat), Error>((offset as nat, len as nat)),
            ctx.stack@ == s.subrange(0, s.len() - 2 - i),
            topics@ == Seq::new(i as nat, |j: int| s[s.len() - 3 - j]),
            ctx.inv(),
            ctx.code == old(ctx).code,
            ctx.env == old(ctx).env,
            ctx.jumpdests == old(ctx).jumpdests,
            ctx.pc == old(ctx).pc,
            ctx.mem == old(ctx).mem,
            ctx.logs == old(ctx).logs,
        decreases n - i,
    {
        let t = match ctx.stack.pop_u256() {
            Ok(w) => w,
            Err(e) => return Err(e),
        };
        topics.push(t);
        i += 1;
        proof {
            assert(ctx.stack@ =~= s.subrange(0, s.len() - 2 - i));
            assert(topics@ =~= Seq::new(i as nat, |j: int| s[s.len() - 3 - j]));
        }
    }
    let data = match ctx.mem.mview(offset, len) {
        Ok(v) => v,
        Err(e) => return Err(e),
    };
    let entry = Log { topics, data };
    ctx.logs.push(entry);
    ctx.pc = ctx.pc + 1;
    proof {
        assert(logs_view(ctx.logs@) =~= logs_view(old(ctx).logs@).push((entry.topics@, entry.data@)));
    }
    Ok(OpStep::Continue)
}

/// RETURN and REVERT: end with a memory range as output or as revert data.
fn op_return<'a, DB: Database>(ctx: &mut Context<'a>, state: &State<DB>, op: u8) -> (r: OpResult)
    requires
        old(ctx).at(op),
        op == 0xf3 || op == 0xfd,
    ensures
        performs(old(ctx), state, final(ctx), state, r),
{
    let offset = match ctx.stack.pop_usize() {
        Ok(v) => v,
        Err(e) => return Err(e),
    };
    let len = match ctx.stack.pop_usize() {
        Ok(v) => v,
        Err(e) => return Err(e),
    };
    let data = match ctx.mem.mview(offset, len) {
        Ok(v) => v,
        Err(e) => return Err(e),
    };
    proof {
        let s = old(ctx).stack@;
        assert(s.drop_last().drop_last() =~= s.subrange(0, s.len() - 2));
    }
    if op == 0xf3 {
        Ok(OpStep::Return(data))
    } else {
        Err(Error::Revert(data))
    }
}

/// Decodes the instruction at the program counter and runs its handler.
fn next<'a, DB: Database>(ctx: &mut Context<'a>, state: &mut State<DB>) -> (r: OpResult)
    requires
        old(ctx).inv(),
        old(ctx).pc < old(ctx).code@.len(),
    ensures
        performs(old(ctx), old(state), final(ctx), final(state), r),
{
    let op = ctx.code[ctx.pc];
    if op == 0x00 {
        op_stop(ctx, state)
    } else if op == 0x01 || op == 0x02 || op == 0x03 || op == 0x04 || op == 0x06 || op == 0x0a
        || op == 0x10 || op == 0x11 || op == 0x12 || op == 0x14 || op == 0x16 || op == 0x17
        || op == 0x18 || op == 0x1b || op == 0x1c {
        op_binary(ctx, state, op)
    } else if op == 0x08 || op == 0x09 {
        op_modular(ctx, state, op)
    } else if op == 0x15 || op == 0x19 {
        op_unary(ctx, state, op)
    } else if op == 0x20 {
        op_keccak(ctx, state)
    } else if op == 0x33 || op == 0x34 || op == 0x36 || op == 0x42 || op == 0x43 || op == 0x46 {
        op_env(ctx, state, op)
    } else if op == 0x35 {
        op_calldataload(ctx, state)
    } else if op == 0x50 {
        op_pop(ctx, state)
    } else if op == 0x51 {
        op_mload(ctx, state)
    } else if op == 0x52 {
        op_mstore(ctx, state)
    } else if op == 0x54 {
        op_sload(ctx, state)
    } else if op == 0x55 {
        op_sstore(ctx, state)
    } else if op == 0x56 {
        op_jump(ctx, state)
    } else if op == 0x57 {
        op_jumpi(ctx, state)
    } else if op == 0x5b {
        op_jumpdest(ctx, state)
    } else if 0x60 <= op && op <= 0x7f {
        op_push(ctx, state, op, (op - 0x5f) as usize)
    } else if 0x80 <= op && op <= 0x8f {
        op_dup(ctx, state, op, (op - 0x7f) as usize)
    } else if 0x90 <= op && op <= 0x9f {
        op_swap(ctx, state, op, (op - 0x8f) as usize)
    } else if 0xa0 <= op && op <= 0xa4 {
        op_log(ctx, state, op, (op - 0xa0) as usize)
    } else if op == 0xf3 || op == 0xfd {
        op_return(ctx, state, op)
    } else {
        Err(Error::InvalidOpcode(op))
    }
}

/// Marks each position of `code` that is a valid jump target.
pub fn jump_table(code: &[u8]) -> (r: Vec<bool>)
    ensures
        r@.len() == code@.len(),
        forall|i: int| 0 <= i < code@.len() ==> #[trigger] r@[i] == is_jumpdest(code@, i),
{
    let len = code.len();
    let mut marks: Vec<bool> = Vec::new();
    while marks.len() < len
        invariant
            marks@.len() <= len,
            len == code@.len(),
            forall|i: int| 0 <= i < marks@.len() ==> marks@[i] == false,
        decreases len - marks@.len(),
    {
        marks.push(false);
    }
    let mut p: usize = 0;
    while p < len
        invariant
            len == code@.len(),
            marks@.len() == len,
            forall|i: int|
                0 <= i < len ==> #[trigger] marks@[i] == (i < p && is_jumpdest(code@, i)),
            forall|i: int|
                p <= i < len ==> #[trigger] starts_instruction(code@, 0, i) == starts_instruction(
                    code@,
                    p as int,
                    i,
                ),
        decreases len - p,
    {
        let op = code[p];
        if op == 0x5b {
            marks[p] = true;
        }
        let size: usize = if 0x60 <= op && op <= 0x7f {
            (op - 0x5f) as usize
        } else {
            0
        };
        let ghost here = p as int;
        p = if size >= len - p {
            len
        } else {
            p + 1 + size
        };
        proof {
            // Past `here`, the scan goes on from the next instruction.
            assert forall|i: int| here < i < len implies #[trigger] starts_instruction(code@, here, i)
                == starts_instruction(code@, p as int, i) by {}
        }
    }
    marks
}

/// The returned result is the outcome: the output and logs on normal termination, the
/// revert data, or the error.
pub open spec fn result_matches(r: RunResult, o: Outcome) -> bool {
    match o {
        Outcome::Done(out, logs, _) => match r {
            Ok((v, l)) => v@ == out && logs_view(l@) == logs,
            Err(_) => false,
        },
        Outcome::Reverted(out) => match r {
            Err(Error::Revert(v)) => v@ == out,
            _ => false,
        },
        Outcome::Failed(e) => r == Err::<(Vec<u8>, Vec<Log>), Error>(e),
    }
}

/// Executes `code` from its first byte over `state` and `env`, for at most
/// `STEP_BUDGET` instructions. The backing store is left as it was; the writes
/// of a normal termination are left pending in `state`.
pub fn run<DB: Database>(code: &[u8], state: &mut State<DB>, env: &Env) -> (r: RunResult)
    ensures
        final(state).kv() == old(state).kv(),
        result_matches(
            r,
            execute(code@, *env, old(state).kv(), initial_machine(old(state).pending()), STEP_BUDGET as nat),
        ),
        execute(code@, *env, old(state).kv(), initial_machine(old(state).pending()), STEP_BUDGET as nat) matches Outcome::Done(_, _, p) ==> final(state).pending() == p,
{
    let code_len = code.len();
    let jumpdests = jump_table(code);
    let mut ctx = Context {
        code,
        env,
        jumpdests,
        pc: 0,
        stack: Stack::new(),
        mem: Mem::new(),
        logs: Vec::new(),
    };
    let ghost kv0 = old(state).kv();
    let ghost start = initial_machine(old(state).pending());
    proof {
        assert(logs_view(ctx.logs@) =~= Seq::<LogValue>::empty());
        assert(ctx.machine(state.pending()) == start);
        assert(code@.len() == code_len);
    }
    let mut fuel: u64 = STEP_BUDGET;
    loop
        invariant
            ctx.inv(),
            ctx.code == code,
            ctx.env == env,
            state.kv() == kv0,
            kv0 == old(state).kv(),
            start == initial_machine(old(state).pending()),
            execute(code@, *env, kv0, ctx.machine(state.pending()), fuel as nat) == execute(
                code@,
                *env,
                kv0,
                start,
                STEP_BUDGET as nat,
            ),
        decreases fuel,
    {
        if fuel == 0 {
            return Err(Error::OutOfSteps);
        }
        if ctx.pc >= code.len() {
            return Err(Error::CodeOutOfBound);
        }
        match next(&mut ctx, state) {
            Ok(OpStep::Continue) => {},
            Ok(OpStep::Return(out)) => return Ok((out, ctx.logs)),
            Err(e) => return Err(e),
        }
        fuel = fuel - 1;
    }
}

} // verus!
