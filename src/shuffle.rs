//! Deterministic shuffling of the indices `0..len`.
//!
//! A 32-bit linear congruential generator drives a Fisher-Yates shuffle that
//! walks the positions from the last one down to the second. The same length
//! and seed always give the same permutation.
use vstd::arithmetic::div_mod::lemma_add_mod_noop;
use vstd::prelude::*;

verus! {

/// Multiplier of the generator.
pub const LCG_MUL: u32 = 1664525;

/// Increment of the generator.
pub const LCG_INC: u32 = 1013904223;

/// One step of the generator: `state * 1664525 + 1013904223` modulo 2^32.
#[verifier::opaque]
pub open spec fn lcg_next(state: u32) -> u32 {
    ((state as int * LCG_MUL as int + LCG_INC as int) % 0x1_0000_0000) as u32
}

/// The identity sequence `[0, 1, ..., n - 1]`.
pub open spec fn identity(n: nat) -> Seq<u32> {
    Seq::new(n, |i: int| i as u32)
}

/// `s` with the entries at positions `i` and `j` exchanged.
pub open spec fn swap_at(s: Seq<u32>, i: int, j: int) -> Seq<u32> {
    s.update(i, s[j]).update(j, s[i])
}

/// The sequence and the generator state after the first `k` steps of the
/// shuffle of `n` indices: step `k` draws a value and exchanges position
/// `n - k` with the position that value selects in `[0, n - k]`.
pub open spec fn shuffle_steps(n: nat, seed: u32, k: nat) -> (Seq<u32>, u32)
    decreases k,
{
    if k == 0 {
        (identity(n), seed)
    } else {
        let (s, state) = shuffle_steps(n, seed, (k - 1) as nat);
        let i = n - k;
        let next = lcg_next(state);
        let j = next as int % (i + 1);
        (swap_at(s, i, j), next)
    }
}

/// What `shuffled_indices(len, seed)` returns.
pub open spec fn shuffled(len: nat, seed: u32) -> Seq<u32> {
    if len <= 1 {
        identity(len)
    } else {
        shuffle_steps(len, seed, (len - 1) as nat).0
    }
}

/// `s` holds each of `0..n` exactly once.
pub open spec fn is_permutation_of_range(s: Seq<u32>, n: nat) -> bool {
    &&& s.len() == n
    &&& forall|i: int| 0 <= i < n ==> (#[trigger] s[i] as int) < n
    &&& forall|i: int, j: int| 0 <= i < n && 0 <= j < n && i != j ==> s[i] != s[j]
    &&& forall|v: u32| (v as nat) < n ==> #[trigger] s.contains(v)
}

proof fn lemma_swap_keeps_permutation(s: Seq<u32>, n: nat, i: int, j: int)
    requires
        is_permutation_of_range(s, n),
        0 <= i < n,
        0 <= j < n,
    ensures
        is_permutation_of_range(swap_at(s, i, j), n),
{
    let t = swap_at(s, i, j);
    assert forall|v: u32| (v as nat) < n implies #[trigger] t.contains(v) by {
        assert(s.contains(v));
        let k = choose|k: int| 0 <= k < s.len() && s[k] == v;
        if k == i {
            assert(t[j] == v);
        } else if k == j {
            assert(t[i] == v);
        } else {
            assert(t[k] == v);
        }
    }
}

pub(crate) proof fn lemma_steps_permutation(n: nat, seed: u32, k: nat)
    requires
        k < n,
        n <= u32::MAX,
    ensures
        is_permutation_of_range(shuffle_steps(n, seed, k).0, n),
    decreases k,
{
    if k == 0 {
        let s = identity(n);
        assert forall|v: u32| (v as nat) < n implies #[trigger] s.contains(v) by {
            assert(s[v as int] == v);
        }
    } else {
        lemma_steps_permutation(n, seed, (k - 1) as nat);
        let (s, state) = shuffle_steps(n, seed, (k - 1) as nat);
        let i = n - k;
        let j = lcg_next(state) as int % (i + 1);
        assert(0 <= j <= i) by (nonlinear_arith)
            requires
                i >= 1,
                j == lcg_next(state) as int % (i + 1),
        ;
        lemma_swap_keeps_permutation(s, n, i, j);
        assert(shuffle_steps(n, seed, k).0 == swap_at(s, i, j));
    }
}

/// For every length and seed, the shuffle holds each index of `0..len`
/// exactly once.
pub proof fn lemma_shuffled_is_permutation(len: u32, seed: u32)
    ensures
        is_permutation_of_range(shuffled(len as nat, seed), len as nat),
{
    if len <= 1 {
        let s = identity(len as nat);
        assert forall|v: u32| (v as nat) < len implies #[trigger] s.contains(v) by {
            assert(s[v as int] == v);
        }
    } else {
        lemma_steps_permutation(len as nat, seed, (len - 1) as nat);
    }
}

/// The shuffle depends on its length and seed alone: two calls with the same
/// arguments give the same sequence.
pub proof fn lemma_shuffled_deterministic(len: u32, seed: u32, first: Seq<u32>, second: Seq<u32>)
    requires
        first == shuffled(len as nat, seed),
        second == shuffled(len as nat, seed),
    ensures
        first == second,
{
}

/// An empty input gives the empty sequence and a single index stays in place,
/// whatever the seed.
pub proof fn lemma_shuffled_short(seed: u32)
    ensures
        shuffled(0, seed) == Seq::<u32>::empty(),
        shuffled(1, seed) == seq![0u32],
{
    assert(shuffled(0, seed) =~= Seq::<u32>::empty());
    assert(shuffled(1, seed) =~= seq![0u32]);
}

/// Advances the generator by one step and returns the new state.
fn next_u32(state: &mut u32) -> (r: u32)
    ensures
        *final(state) == lcg_next(*old(state)),
        r == *final(state),
{
    let s: u32 = *state;
    let m: u32 = s.wrapping_mul(LCG_MUL);
    let r: u32 = m.wrapping_add(LCG_INC);
    proof {
        reveal(lcg_next);
        let p = s as int * LCG_MUL as int;
        assert(m as int == p % 0x1_0000_0000);
        lemma_add_mod_noop(p, LCG_INC as int, 0x1_0000_0000);
        assert(r as int == (m as int + LCG_INC as int) % 0x1_0000_0000);
    }
    *state = r;
    r
}

/// Returns the indices `0..len` in the order that the seeded Fisher-Yates
/// shuffle gives them.
pub fn shuffled_indices(len: u32, seed: u32) -> (r: Vec<u32>)
    ensures
        r@ == shuffled(len as nat, seed),
        is_permutation_of_range(r@, len as nat),
{
    proof {
        lemma_shuffled_is_permutation(len, seed);
    }
    let mut indices: Vec<u32> = Vec::new();
    let mut v: u32 = 0;
    while v < len
        invariant
            v <= len,
            indices@ == identity(v as nat),
        decreases len - v,
    {
        indices.push(v);
        v = v + 1;
        assert(indices@ =~= identity(v as nat));
    }
    let mut state: u32 = seed;
    let n: usize = indices.len();
    if n <= 1 {
        return indices;
    }
    let mut i: usize = n - 1;
    while i >= 1
        invariant
            n == len,
            n >= 2,
            i < n,
            indices@ == shuffle_steps(n as nat, seed, (n - 1 - i) as nat).0,
            state == shuffle_steps(n as nat, seed, (n - 1 - i) as nat).1,
        decreases i,
    {
        proof {
            lemma_steps_permutation(n as nat, seed, (n - 1 - i) as nat);
        }
        let rand_val: u32 = next_u32(&mut state);
        let rand_index: usize = (rand_val as usize) % (i + 1);
        let a: u32 = indices[i];
        let b: u32 = indices[rand_index];
        indices.set(i, b);
        indices.set(rand_index, a);
        proof {
            let k = (n - i) as nat;
            assert(i == n - k);
            assert(indices@ =~= shuffle_steps(n as nat, seed, k).0);
        }
        i = i - 1;
    }
    indices
}

} // verus!
