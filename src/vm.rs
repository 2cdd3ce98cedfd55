//! The virtual machine: one program over one state, run with commit or called
//! with rollback.

use crate::db::{kv_get, Database};
use crate::runtime::{self, logs_view, result_matches, STEP_BUDGET};
use crate::semantics::{execute, initial_machine, Outcome};
use crate::state::{read_through, State};
use crate::types::{Env, Error, RunResult};
use crate::word::Word;
use vstd::prelude::*;

verus! {

/// Two results that match one outcome agree: the same output and logs, the same
/// revert data, or the same error.
pub open spec fn same_result(a: RunResult, b: RunResult) -> bool {
    match (a, b) {
        (Ok((o1, l1)), Ok((o2, l2))) => o1@ == o2@ && logs_view(l1@) == logs_view(l2@),
        (Err(Error::Revert(x)), Err(Error::Revert(y))) => x@ == y@,
        (Err(e1), Err(e2)) => e1 == e2,
        _ => false,
    }
}

/// Two runs of one program with one environment over stores that read alike give the
/// same result and leave stores that read alike.
pub proof fn lemma_run_deterministic(
    code: Seq<u8>,
    env: Env,
    kv: Map<Word, Word>,
    r1: RunResult,
    r2: RunResult,
    after1: Map<Word, Word>,
    after2: Map<Word, Word>,
)
    requires
        ({
            let o = execute(code, env, kv, initial_machine(Map::empty()), STEP_BUDGET as nat);
            &&& result_matches(r1, o)
            &&& result_matches(r2, o)
            &&& o matches Outcome::Done(_, _, p) ==> forall|k: Word|
                #[trigger] kv_get(after1, k) == read_through(p, kv, k) && kv_get(after2, k)
                    == read_through(p, kv, k)
            &&& !(o is Done) ==> after1 == kv && after2 == kv
        }),
    ensures
        same_result(r1, r2),
        forall|k: Word| #[trigger] kv_get(after1, k) == kv_get(after2, k),
{
    let o = execute(code, env, kv, initial_machine(Map::empty()), STEP_BUDGET as nat);
    assert forall|k: Word| #[trigger] kv_get(after1, k) == kv_get(after2, k) by {
        if o is Done {
            assert(kv_get(after1, k) == read_through(o->Done_2, kv, k));
        }
    }
}

pub struct VM<'a, DB> {
    code: &'a [u8],
    state: State<DB>,
}

impl<'a, DB: Database> VM<'a, DB> {
    /// The program.
    pub closed spec fn code(&self) -> Seq<u8> {
        self.code@
    }

    /// The backing store.
    pub closed spec fn kv(&self) -> Map<Word, Word> {
        self.state.kv()
    }

    /// Between invocations no write is pending.
    pub closed spec fn wf(&self) -> bool {
        self.state.pending() == Map::<Word, Word>::empty()
    }

    /// What executing the program under `env` leads to, from the current store.
    pub open spec fn outcome(&self, env: Env) -> Outcome {
        execute(self.code(), env, self.kv(), initial_machine(Map::empty()), STEP_BUDGET as nat)
    }

    /// Creates a machine for `code` over the given store.
    pub fn new(db: DB, code: &'a [u8]) -> (r: Self)
        ensures
            r.wf(),
            r.kv() == db.kv(),
            r.code() == code@,
    {
        VM { code, state: State::new(db) }
    }

    /// The backing store.
    pub fn db(&self) -> (r: &DB)
        ensures
            r.kv() == self.kv(),
    {
        self.state.db()
    }

    /// Runs a transaction and returns the result + updates the state.
    /// On normal termination the writes are committed; otherwise the store is untouched.
    pub fn run(&mut self, env: &Env) -> (r: RunResult)
        requires
            old(self).wf(),
        ensures
            final(self).wf(),
            final(self).code() == old(self).code(),
            result_matches(r, old(self).outcome(*env)),
            old(self).outcome(*env) matches Outcome::Done(_, _, p) ==> forall|k: Word|
                #[trigger] kv_get(final(self).kv(), k) == read_through(p, old(self).kv(), k),
            !(old(self).outcome(*env) is Done) ==> final(self).kv() == old(self).kv(),
    {
        let res = runtime::run(self.code, &mut self.state, env);
        match res {
            Ok(_) => self.state.commit(),
            Err(_) => self.state.rollback(),
        }
        res
    }

    /// Runs a transaction and returns the result + discards state changes.
    pub fn call(&mut self, env: &Env) -> (r: RunResult)
        requires
            old(self).wf(),
        ensures
            final(self).wf(),
            final(self).code() == old(self).code(),
            result_matches(r, old(self).outcome(*env)),
            final(self).kv() == old(self).kv(),
    {
        let res = runtime::run(self.code, &mut self.state, env);
        self.state.rollback();
        res
    }
}

} // verus!
