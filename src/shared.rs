//! The one shared run, behind a lock, and the operations that callers invoke
//! on it.
//!
//! Every operation takes the write lock, moves the state from one well-formed
//! value to the next in a single step, and hands back a copy of the result, so
//! no caller ever sees a state that another caller has half written.
use crate::run_state::{
    completed_with, failed_at, empty_run, names, opt_name, run_wf, started, RunState, RunView,
};
use crate::shuffle::{is_permutation_of_range, shuffled, shuffled_indices};
use vstd::prelude::*;
use vstd::rwlock::{RwLock, RwLockPredicate, WriteHandle};

verus! {

/// The lock's invariant: the stored state is well formed.
pub struct WellFormedRun {}

impl RwLockPredicate<RunState> for WellFormedRun {
    open spec fn inv(self, v: RunState) -> bool {
        v.wf()
    }
}

/// Relies on `SystemTime::now`, measured from `UNIX_EPOCH` with
/// `Duration::as_millis`: the milliseconds since the Unix epoch, or `None`
/// when the clock reads a time before it.
#[verifier::external_body]
fn millis_since_epoch() -> (r: Option<u128>) {
    match std::time::SystemTime::now().duration_since(std::time::UNIX_EPOCH) {
        Ok(d) => Some(d.as_millis()),
        Err(_) => None,
    }
}

/// The current time in milliseconds since the Unix epoch, or zero when the
/// clock reads a time before it.
pub fn now_millis() -> (r: u128) {
    match millis_since_epoch() {
        Some(ms) => ms,
        None => 0,
    }
}

/// The low 32 bits of a time in milliseconds, used as a seed.
pub fn seed_from_millis(ms: u128) -> (r: u32)
    ensures
        r as int == ms as int % 0x1_0000_0000,
{
    (ms % 0x1_0000_0000) as u32
}

/// A seed taken from the current time.
pub fn random_seed() -> (r: u32) {
    seed_from_millis(now_millis())
}

/// The given seed, or one taken from the clock when none is given.
fn resolve_seed(seed: Option<u32>) -> (r: u32)
    ensures
        seed is Some ==> r == seed->0,
{
    match seed {
        Some(s) => s,
        None => random_seed(),
    }
}

/// The indices `0..len` shuffled with `seed`, or with a seed taken from the
/// clock when none is given.
pub fn shuffle_characters(len: u32, seed: Option<u32>) -> (r: Vec<u32>)
    ensures
        is_permutation_of_range(r@, len as nat),
        seed is Some ==> r@ == shuffled(len as nat, seed->0),
        exists|s: u32| r@ == shuffled(len as nat, s),
{
    let s: u32 = resolve_seed(seed);
    shuffled_indices(len, s)
}

/// The current run, shared between callers under a lock.
pub struct SharedRunState {
    inner: RwLock<RunState, WellFormedRun>,
}

impl SharedRunState {
    #[verifier::type_invariant]
    spec fn lock_inv(self) -> bool {
        self.inner.pred() == WellFormedRun {}
    }

    /// A shared state that holds no run yet.
    pub fn new() -> (r: SharedRunState) {
        let init: RunState = RunState::new();
        SharedRunState { inner: RwLock::new(init, Ghost(WellFormedRun {})) }
    }

    /// Takes the lock: returns the stored state and the handle that puts a
    /// well-formed state back and releases the lock.
    pub fn lock(&self) -> (ret: (RunState, WriteHandle<'_, RunState, WellFormedRun>))
        ensures
            ret.0.wf(),
            ret.1.rwlock().pred() == (WellFormedRun {}),
    {
        proof {
            use_type_invariant(self);
        }
        self.inner.acquire_write()
    }

    /// Starts a new run over `characters`, shuffled with `seed` or with a
    /// seed taken from the clock, and returns the new state. An empty list
    /// leaves the state as it is.
    pub fn start_run(&self, characters: Vec<String>, seed: Option<u32>) -> (r: RunState)
        requires
            characters.len() <= u32::MAX,
        ensures
            r.wf(),
            exists|prev: RunView, s: u32, now: u128|
                #![trigger started(prev, names(characters@), s, now)]
                run_wf(prev) && (seed is Some ==> s == seed->0) && r@ == started(
                    prev,
                    names(characters@),
                    s,
                    now,
                ),
    {
        let s: u32 = resolve_seed(seed);
        let now: u128 = now_millis();
        let (mut state, handle) = self.lock();
        let ghost prev = state@;
        let ghost chars = names(characters@);
        state.start_run(characters, s, now);
        let snap: RunState = state.snapshot();
        handle.release_write(state);
        assert(run_wf(prev) && snap@ == started(prev, chars, s, now));
        snap
    }

    /// Marks `character` as done, or the front of the queue when none is
    /// given, and returns the new state. Nothing changes when the queue is
    /// empty or the character is not in it.
    pub fn complete_character(&self, character: Option<String>) -> (r: RunState)
        ensures
            r.wf(),
            exists|prev: RunView, now: u128|
                #![trigger completed_with(prev, opt_name(character), now)]
                run_wf(prev) && r@ == completed_with(prev, opt_name(character), now),
    {
        let (mut state, handle) = self.lock();
        let ghost prev = state@;
        let ghost target = opt_name(character);
        let now: u128 = now_millis();
        state.complete_character(character, now);
        let snap: RunState = state.snapshot();
        handle.release_write(state);
        assert(run_wf(prev) && snap@ == completed_with(prev, target, now));
        snap
    }

    /// Marks the run as failed and returns the new state; without a run
    /// nothing changes.
    pub fn fail_run(&self) -> (r: RunState)
        ensures
            r.wf(),
            exists|prev: RunView, now: u128|
                #![trigger failed_at(prev, now)]
                run_wf(prev) && r@ == failed_at(prev, now),
    {
        let (mut state, handle) = self.lock();
        let ghost prev = state@;
        let now: u128 = now_millis();
        state.fail_run(now);
        let snap: RunState = state.snapshot();
        handle.release_write(state);
        assert(run_wf(prev) && snap@ == failed_at(prev, now));
        snap
    }

    /// Puts back the state before any run and returns a copy of it.
    pub fn reset_run(&self) -> (r: RunState)
        ensures
            r@ == empty_run(),
    {
        let (mut state, handle) = self.lock();
        state.reset_run();
        let snap: RunState = state.snapshot();
        handle.release_write(state);
        snap
    }

    /// A copy of the current state.
    pub fn get_run_state(&self) -> (r: RunState)
        ensures
            r.wf(),
    {
        let (state, handle) = self.lock();
        let snap: RunState = state.snapshot();
        handle.release_write(state);
        snap
    }
}

} // verus!
