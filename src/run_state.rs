//! The state of the current run and the transitions that act on it.
//!
//! Each transition is a method over `&mut RunState` whose contract is a spec
//! function from the old view to the new one. The time of the event and the
//! seed are handed in, so that every transition is a function of its inputs.
use crate::shuffle::{
    identity, is_permutation_of_range, lemma_shuffled_is_permutation, lemma_steps_permutation,
    shuffle_steps, shuffled, shuffled_indices, swap_at,
};
use vstd::multiset::group_multiset_axioms;
use vstd::seq_lib::{lemma_multiset_commutative, to_multiset_build, to_multiset_contains, to_multiset_remove, to_multiset_update};
use vstd::prelude::*;

verus! {

/// The single active run: what is left, what is done, and when it moved.
#[derive(Clone, Debug, PartialEq, Eq)]
pub struct RunState {
    pub run_id: u64,
    pub queue: Vec<String>,
    pub completed: Vec<String>,
    pub failed: bool,
    pub started_at_ms: Option<u128>,
    pub updated_at_ms: Option<u128>,
}

/// The mathematical value of a `RunState`, with each name as its characters.
pub ghost struct RunView {
    pub run_id: u64,
    pub queue: Seq<Seq<char>>,
    pub completed: Seq<Seq<char>>,
    pub failed: bool,
    pub started_at_ms: Option<u128>,
    pub updated_at_ms: Option<u128>,
}

/// The characters of each string of `v`.
pub open spec fn names(v: Seq<String>) -> Seq<Seq<char>> {
    v.map_values(|s: String| s@)
}

/// The characters of an optional string.
pub open spec fn opt_name(o: Option<String>) -> Option<Seq<char>> {
    match o {
        Some(s) => Some(s@),
        None => None,
    }
}

impl View for RunState {
    type V = RunView;

    open spec fn view(&self) -> RunView {
        RunView {
            run_id: self.run_id,
            queue: names(self.queue@),
            completed: names(self.completed@),
            failed: self.failed,
            started_at_ms: self.started_at_ms,
            updated_at_ms: self.updated_at_ms,
        }
    }
}

/// The state before any run: no id, nothing queued or done, no timestamps.
pub open spec fn empty_run() -> RunView {
    RunView {
        run_id: 0,
        queue: Seq::empty(),
        completed: Seq::empty(),
        failed: false,
        started_at_ms: None,
        updated_at_ms: None,
    }
}

/// A state is well formed when the id is zero exactly while no run has
/// started, both timestamps are set together, and a state without a run
/// holds nothing.
pub open spec fn run_wf(v: RunView) -> bool {
    &&& (v.run_id == 0) == (v.started_at_ms is None)
    &&& (v.started_at_ms is None) == (v.updated_at_ms is None)
    &&& v.started_at_ms is None ==> v.queue.len() == 0 && v.completed.len() == 0 && !v.failed
}

/// The id of the next run: one more, wrapping past the largest value, and
/// never zero.
pub open spec fn next_run_id(id: u64) -> u64 {
    if id == u64::MAX {
        1
    } else {
        (id + 1) as u64
    }
}

/// `characters` in the order that the shuffle of their positions gives.
pub open spec fn arranged(characters: Seq<Seq<char>>, seed: u32) -> Seq<Seq<char>> {
    let order = shuffled(characters.len(), seed);
    Seq::new(characters.len(), |k: int| characters[order[k] as int])
}

/// The state after starting a run on `characters`; an empty list changes
/// nothing.
pub open spec fn started(prev: RunView, characters: Seq<Seq<char>>, seed: u32, now: u128) -> RunView {
    if characters.len() == 0 {
        prev
    } else {
        RunView {
            run_id: next_run_id(prev.run_id),
            queue: arranged(characters, seed),
            completed: Seq::empty(),
            failed: false,
            started_at_ms: Some(now),
            updated_at_ms: Some(now),
        }
    }
}

/// `i` is the position of the first occurrence of `t` in `q`.
pub open spec fn is_first_index(q: Seq<Seq<char>>, t: Seq<char>, i: int) -> bool {
    &&& 0 <= i < q.len()
    &&& q[i] == t
    &&& forall|j: int| 0 <= j < i ==> q[j] != t
}

/// The position of the first occurrence of `t` in `q`, where there is one.
pub open spec fn first_index(q: Seq<Seq<char>>, t: Seq<char>) -> int {
    choose|i: int| is_first_index(q, t, i)
}

/// The queue entry at `i` moves to the end of `completed`; the failed flag
/// clears and the update time is `now`.
pub open spec fn advanced(prev: RunView, i: int, now: u128) -> RunView {
    RunView {
        queue: prev.queue.remove(i),
        completed: prev.completed.push(prev.queue[i]),
        failed: false,
        updated_at_ms: Some(now),
        ..prev
    }
}

/// The state after completing `target`, or the front of the queue when no
/// target is given. An empty queue or an absent target changes nothing.
pub open spec fn completed_with(prev: RunView, target: Option<Seq<char>>, now: u128) -> RunView {
    if prev.queue.len() == 0 {
        prev
    } else {
        match target {
            None => advanced(prev, 0, now),
            Some(t) => if prev.queue.contains(t) {
                advanced(prev, first_index(prev.queue, t), now)
            } else {
                prev
            },
        }
    }
}

/// The state after marking the run failed; without a run, nothing changes.
pub open spec fn failed_at(prev: RunView, now: u128) -> RunView {
    if prev.started_at_ms is None {
        prev
    } else {
        RunView { failed: true, updated_at_ms: Some(now), ..prev }
    }
}

proof fn lemma_first_index(q: Seq<Seq<char>>, t: Seq<char>, i: int)
    requires
        is_first_index(q, t, i),
    ensures
        first_index(q, t) == i,
{
    let k = first_index(q, t);
    assert(is_first_index(q, t, k));
    if k < i {
        assert(q[k] != t);
    } else if i < k {
        assert(q[i] != t);
    }
}

/// Returns the position of the first entry of `q` equal to `t`.
fn position(q: &Vec<String>, t: &String) -> (r: Option<usize>)
    ensures
        match r {
            Some(i) => is_first_index(names(q@), t@, i as int),
            None => !names(q@).contains(t@),
        },
{
    let mut i: usize = 0;
    while i < q.len()
        invariant
            i <= q.len(),
            forall|j: int| 0 <= j < i ==> names(q@)[j] != t@,
        decreases q.len() - i,
    {
        if q[i] == *t {
            return Some(i);
        }
        i = i + 1;
    }
    assert forall|j: int| 0 <= j < names(q@).len() implies names(q@)[j] != t@ by {}
    None
}

/// A copy of `v`, string by string.
fn copy_strings(v: &Vec<String>) -> (r: Vec<String>)
    ensures
        r@ == v@,
{
    let mut r: Vec<String> = Vec::new();
    let mut i: usize = 0;
    while i < v.len()
        invariant
            i <= v.len(),
            r@ == v@.subrange(0, i as int),
        decreases v.len() - i,
    {
        r.push(v[i].clone());
        i = i + 1;
        assert(r@ =~= v@.subrange(0, i as int));
    }
    assert(r@ =~= v@);
    r
}

impl Default for RunState {
    fn default() -> (r: RunState)
        ensures
            r@ == empty_run(),
    {
        RunState::new()
    }
}

impl RunState {
    /// The state before any run.
    pub fn new() -> (r: RunState)
        ensures
            r@ == empty_run(),
    {
        let r = RunState {
            run_id: 0,
            queue: Vec::new(),
            completed: Vec::new(),
            failed: false,
            started_at_ms: None,
            updated_at_ms: None,
        };
        assert(r@.queue =~= Seq::<Seq<char>>::empty());
        assert(r@.completed =~= Seq::<Seq<char>>::empty());
        r
    }

    /// See `run_wf`.
    pub open spec fn wf(&self) -> bool {
        run_wf(self@)
    }

    /// A copy of this state.
    pub fn snapshot(&self) -> (r: RunState)
        ensures
            r@ == self@,
    {
        RunState {
            run_id: self.run_id,
            queue: copy_strings(&self.queue),
            completed: copy_strings(&self.completed),
            failed: self.failed,
            started_at_ms: self.started_at_ms,
            updated_at_ms: self.updated_at_ms,
        }
    }

    /// Starts a new run over `characters` in the order that the shuffle with
    /// `seed` gives, at time `now`. An empty list leaves the state as it is.
    pub fn start_run(&mut self, characters: Vec<String>, seed: u32, now: u128)
        requires
            characters.len() <= u32::MAX,
        ensures
            final(self)@ == started(old(self)@, names(characters@), seed, now),
            old(self).wf() ==> final(self).wf(),
    {
        if characters.len() == 0 {
            return;
        }
        let n: u32 = characters.len() as u32;
        let order: Vec<u32> = shuffled_indices(n, seed);
        let ghost chars = names(characters@);
        let mut queue: Vec<String> = Vec::new();
        let mut k: usize = 0;
        while k < order.len()
            invariant
                k <= order.len(),
                order.len() == characters.len(),
                chars == names(characters@),
                is_permutation_of_range(order@, characters.len() as nat),
                names(queue@) == Seq::new(k as nat, |m: int| chars[order@[m] as int]),
            decreases order.len() - k,
        {
            let idx: usize = order[k] as usize;
            assert(order@[k as int] < characters.len());
            let ghost before = names(queue@);
            if idx < characters.len() {
                queue.push(characters[idx].clone());
                assert(names(queue@) =~= before.push(chars[idx as int]));
            }
            k = k + 1;
            assert(names(queue@) =~= Seq::new(k as nat, |m: int| chars[order@[m] as int]));
        }
        assert(names(queue@) =~= arranged(chars, seed));
        let next_id: u64 = if self.run_id == u64::MAX {
            1
        } else {
            self.run_id + 1
        };
        *self = RunState {
            run_id: next_id,
            queue,
            completed: Vec::new(),
            failed: false,
            started_at_ms: Some(now),
            updated_at_ms: Some(now),
        };
        assert(self@.completed =~= Seq::<Seq<char>>::empty());
    }

    /// Marks `character` as done, or the front of the queue when none is
    /// given, at time `now`. Nothing changes when the queue is empty or the
    /// character is not in it.
    pub fn complete_character(&mut self, character: Option<String>, now: u128)
        ensures
            final(self)@ == completed_with(old(self)@, opt_name(character), now),
            old(self).wf() ==> final(self).wf(),
    {
        if self.queue.len() == 0 {
            return;
        }
        let index: Option<usize> = match character {
            Some(target) => position(&self.queue, &target),
            None => Some(0),
        };
        if let Some(idx) = index {
            if idx < self.queue.len() {
                proof {
                    if character is Some {
                        lemma_first_index(self@.queue, character->0@, idx as int);
                    }
                }
                let ghost prev = self@;
                let finished: String = self.queue.remove(idx);
                self.completed.push(finished);
                self.failed = false;
                self.updated_at_ms = Some(now);
                assert(self@.queue =~= prev.queue.remove(idx as int));
                assert(self@.completed =~= prev.completed.push(prev.queue[idx as int]));
            }
        }
    }

    /// Marks the run as failed at time `now`; without a run nothing changes.
    pub fn fail_run(&mut self, now: u128)
        ensures
            final(self)@ == failed_at(old(self)@, now),
            old(self).wf() ==> final(self).wf(),
    {
        if self.started_at_ms.is_some() {
            self.failed = true;
            self.updated_at_ms = Some(now);
        }
    }

    /// Returns the state to the one before any run.
    pub fn reset_run(&mut self)
        ensures
            final(self)@ == empty_run(),
            final(self).wf(),
    {
        *self = RunState::new();
        assert(self@.queue =~= Seq::<Seq<char>>::empty());
        assert(self@.completed =~= Seq::<Seq<char>>::empty());
    }
}

/// Starting a run on an empty list leaves the state as it was.
pub proof fn lemma_start_empty_is_noop(prev: RunView, seed: u32, now: u128)
    ensures
        started(prev, Seq::empty(), seed, now) == prev,
{
}

/// Starting a run on a non-empty list gives the next nonzero id, a queue that
/// is the list rearranged by a permutation of its positions, nothing
/// completed, no failure, and both timestamps equal to the start time.
pub proof fn lemma_start_fresh_run(prev: RunView, characters: Seq<Seq<char>>, seed: u32, now: u128)
    requires
        1 <= characters.len() <= u32::MAX,
    ensures
        ({
            let s = started(prev, characters, seed, now);
            let order = shuffled(characters.len(), seed);
            &&& s.run_id == next_run_id(prev.run_id)
            &&& s.run_id != 0
            &&& prev.run_id < u64::MAX ==> s.run_id == prev.run_id + 1
            &&& is_permutation_of_range(order, characters.len())
            &&& s.queue.len() == characters.len()
            &&& forall|k: int| 0 <= k < s.queue.len() ==> #[trigger] s.queue[k] == characters[order[k] as int]
            &&& s.queue.to_multiset() == characters.to_multiset()
            &&& s.completed.len() == 0
            &&& !s.failed
            &&& s.started_at_ms == Some(now)
            &&& s.updated_at_ms == Some(now)
            &&& run_wf(s)
        }),
{
    lemma_shuffled_is_permutation(characters.len() as u32, seed);
    lemma_arranged_same_items(characters, seed);
}

proof fn lemma_exchange_same_items(r: Seq<Seq<char>>, i: int, j: int)
    requires
        0 <= i < r.len(),
        0 <= j < r.len(),
    ensures
        r.update(i, r[j]).update(j, r[i]).to_multiset() == r.to_multiset(),
{
    broadcast use group_multiset_axioms;

    if i == j {
        assert(r.update(i, r[j]).update(j, r[i]) =~= r);
    } else {
        let r1 = r.update(i, r[j]);
        to_multiset_update(r, i, r[j]);
        to_multiset_update(r1, j, r[i]);
        to_multiset_contains(r, r[i]);
        assert(r1.to_multiset().insert(r[i]).remove(r1[j]) =~= r.to_multiset());
    }
}

proof fn lemma_steps_same_items(characters: Seq<Seq<char>>, seed: u32, k: nat)
    requires
        k < characters.len() <= u32::MAX,
    ensures
        ({
            let n = characters.len();
            let s = shuffle_steps(n, seed, k).0;
            Seq::new(n, |m: int| characters[s[m] as int]).to_multiset() == characters.to_multiset()
        }),
    decreases k,
{
    let n = characters.len();
    if k == 0 {
        let s = identity(n);
        assert(Seq::new(n, |m: int| characters[s[m] as int]) =~= characters);
    } else {
        lemma_steps_same_items(characters, seed, (k - 1) as nat);
        lemma_steps_permutation(n, seed, (k - 1) as nat);
        let (s, state) = shuffle_steps(n, seed, (k - 1) as nat);
        let i = n - k;
        let j = crate::shuffle::lcg_next(state) as int % (i + 1);
        assert(0 <= j <= i) by (nonlinear_arith)
            requires
                i >= 1,
                j == crate::shuffle::lcg_next(state) as int % (i + 1),
        ;
        let r = Seq::new(n, |m: int| characters[s[m] as int]);
        let t = swap_at(s, i, j);
        assert(shuffle_steps(n, seed, k).0 == t);
        lemma_exchange_same_items(r, i, j);
        assert(Seq::new(n, |m: int| characters[t[m] as int]) =~= r.update(i, r[j]).update(j, r[i]));
    }
}

/// A started queue holds exactly the characters it was started with, each as
/// many times as in the list.
pub proof fn lemma_arranged_same_items(characters: Seq<Seq<char>>, seed: u32)
    requires
        characters.len() <= u32::MAX,
    ensures
        arranged(characters, seed).to_multiset() == characters.to_multiset(),
{
    let n = characters.len();
    if n <= 1 {
        let s = identity(n);
        assert(arranged(characters, seed) =~= characters);
    } else {
        lemma_steps_same_items(characters, seed, (n - 1) as nat);
    }
}

/// Completing a character moves it from the queue to the completed list:
/// together the two lists hold the same names as before.
pub proof fn lemma_complete_keeps_items(prev: RunView, target: Option<Seq<char>>, now: u128)
    ensures
        ({
            let next = completed_with(prev, target, now);
            (next.queue + next.completed).to_multiset() == (prev.queue + prev.completed).to_multiset()
        }),
{
    broadcast use group_multiset_axioms;

    let q = prev.queue;
    let c = prev.completed;
    if q.len() > 0 {
        let i = match target {
            None => 0,
            Some(t) => if q.contains(t) {
                let k = choose|k: int| 0 <= k < q.len() && q[k] == t;
                lemma_first_exists(q, t, k);
                first_index(q, t)
            } else {
                -1
            },
        };
        if i >= 0 {
            assert(0 <= i < q.len());
            lemma_multiset_commutative(q.remove(i), c.push(q[i]));
            lemma_multiset_commutative(q, c);
            to_multiset_remove(q, i);
            to_multiset_build(c, q[i]);
            to_multiset_contains(q, q[i]);
            assert(q.remove(i).to_multiset().add(c.push(q[i]).to_multiset()) =~= q.to_multiset().add(
                c.to_multiset(),
            ));
        }
    }
}

proof fn lemma_first_exists(q: Seq<Seq<char>>, t: Seq<char>, k: int)
    requires
        0 <= k < q.len(),
        q[k] == t,
    ensures
        is_first_index(q, t, first_index(q, t)),
    decreases k,
{
    if forall|j: int| 0 <= j < k ==> q[j] != t {
        assert(is_first_index(q, t, k));
    } else {
        let j = choose|j: int| 0 <= j < k && q[j] == t;
        lemma_first_exists(q, t, j);
    }
}

/// Completing a name that is not in the queue leaves the state as it was.
pub proof fn lemma_complete_absent_is_noop(prev: RunView, target: Seq<char>, now: u128)
    requires
        !prev.queue.contains(target),
    ensures
        completed_with(prev, Some(target), now) == prev,
{
}

/// Completing without a target moves the front of a non-empty queue to the
/// end of the completed list.
pub proof fn lemma_complete_front(prev: RunView, now: u128)
    requires
        prev.queue.len() > 0,
    ensures
        completed_with(prev, None, now).queue == prev.queue.drop_first(),
        completed_with(prev, None, now).completed == prev.completed.push(prev.queue[0]),
{
    assert(prev.queue.remove(0) =~= prev.queue.drop_first());
}

/// Marking a run failed before any run has started changes nothing.
pub proof fn lemma_fail_without_run_is_noop(prev: RunView, now: u128)
    requires
        prev.started_at_ms is None,
    ensures
        failed_at(prev, now) == prev,
{
}

/// After a run starts, marking it failed sets the flag, and completing the
/// next character clears it again.
pub proof fn lemma_fail_then_complete(
    prev: RunView,
    characters: Seq<Seq<char>>,
    seed: u32,
    start: u128,
    fail: u128,
    done: u128,
)
    requires
        1 <= characters.len() <= u32::MAX,
    ensures
        failed_at(started(prev, characters, seed, start), fail).failed,
        !completed_with(failed_at(started(prev, characters, seed, start), fail), None, done).failed,
{
}

/// Every transition keeps a well-formed state well formed.
pub proof fn lemma_transitions_keep_wf(
    prev: RunView,
    characters: Seq<Seq<char>>,
    seed: u32,
    target: Option<Seq<char>>,
    now: u128,
)
    requires
        run_wf(prev),
    ensures
        run_wf(started(prev, characters, seed, now)),
        run_wf(completed_with(prev, target, now)),
        run_wf(failed_at(prev, now)),
        run_wf(empty_run()),
{
}

} // verus!
