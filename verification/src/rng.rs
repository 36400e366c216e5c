//! The generator that drives row subsampling.

use vstd::prelude::*;

verus! {

/// The step between successive generator states.
pub const STEP: u64 = 0x9E37_79B9_7F4A_7C15;

/// Multiplication modulo 2^64.
pub open spec fn wrapping_product(a: u64, b: u64) -> u64 {
    (a * b % 0x1_0000_0000_0000_0000) as u64
}

/// The output for a generator state.
pub open spec fn mix(z: u64) -> u64 {
    let a = wrapping_product(z ^ (z >> 30), 0xBF58_476D_1CE4_E5B9);
    let b = wrapping_product(a ^ (a >> 27), 0x94D0_49BB_1331_11EB);
    b ^ (b >> 31)
}

/// The generator state after a number of draws.
pub open spec fn state_after(seed: u64, draws: nat) -> u64 {
    ((seed + draws * STEP) % 0x1_0000_0000_0000_0000) as u64
}

/// The output of a draw, counted from one.
pub open spec fn draw(seed: u64, count: nat) -> u64 {
    mix(state_after(seed, count))
}

/// The numbers below `n` in order.
pub open spec fn identity(n: nat) -> Seq<usize> {
    Seq::new(n, |i: int| i as usize)
}

/// The numbers below `n` after the first `count` of a shuffle's exchanges: exchange `i` swaps
/// position `i` with a drawn position at or after it.
pub open spec fn shuffled(n: nat, seed: u64, count: nat) -> Seq<usize>
    decreases count,
{
    if count == 0 {
        identity(n)
    } else {
        let before = shuffled(n, seed, (count - 1) as nat);
        let i = count - 1;
        let j = i + draw(seed, count) as int % (n - i);
        before.update(i, before[j]).update(j, before[i])
    }
}

/// The sample of `k` of the numbers below `n` (all of them if `k` is larger) that a generator
/// state gives.
pub open spec fn sample(n: nat, k: nat, seed: u64) -> Seq<usize> {
    let k = if k < n { k } else { n };
    shuffled(n, seed, k).take(k as int)
}

/// The number of draws that taking a sample makes.
pub open spec fn sample_draws(n: nat, k: nat) -> nat {
    if k < n { k } else { n }
}

/// A state reached in two runs of draws is the one reached in a single run of both lengths.
pub proof fn lemma_state_after_adds(seed: u64, a: nat, b: nat)
    ensures
        state_after(state_after(seed, a), b) == state_after(seed, a + b),
        state_after(seed, 0) == seed,
{
    let m: int = 0x1_0000_0000_0000_0000;
    let x = seed + a * STEP;
    let y = (b * STEP) as int;
    vstd::arithmetic::div_mod::lemma_add_mod_noop(x, y, m);
    vstd::arithmetic::div_mod::lemma_add_mod_noop(x % m, y, m);
    vstd::arithmetic::div_mod::lemma_mod_twice(x, m);
    assert(x + y == seed + (a + b) * STEP) by (nonlinear_arith)
        requires
            x == seed + a * STEP,
            y == b * STEP,
    ;
    assert(seed + 0 * STEP == seed);
}

/// A shuffle only moves numbers about: they stay below `n`, and no two places hold the same.
pub proof fn lemma_shuffled_is_permutation(n: nat, seed: u64, count: nat)
    requires
        count <= n,
        n <= usize::MAX,
    ensures
        shuffled(n, seed, count).len() == n,
        forall|i: int| 0 <= i < n ==> #[trigger] shuffled(n, seed, count)[i] < n,
        shuffled(n, seed, count).no_duplicates(),
    decreases count,
{
    if count > 0 {
        lemma_shuffled_is_permutation(n, seed, (count - 1) as nat);
        let before = shuffled(n, seed, (count - 1) as nat);
        let i = count - 1;
        let j = i + draw(seed, count) as int % (n - i);
        assert(i <= j < n);
        let after = before.update(i, before[j]).update(j, before[i]);
        assert forall|a: int, b: int| 0 <= a < n && 0 <= b < n && a != b implies after[a]
            != after[b] by {
            let pa = if a == i { j } else if a == j { i } else { a };
            let pb = if b == i { j } else if b == j { i } else { b };
            assert(after[a] == before[pa] && after[b] == before[pb]);
            assert(pa != pb);
        }
    }
}

/// A sample holds different numbers below `n`, as many as asked for but no more than there are.
pub proof fn law_sample_is_distinct(n: nat, k: nat, seed: u64)
    requires
        n <= usize::MAX,
    ensures
        sample(n, k, seed).len() == (if k < n { k } else { n }),
        sample(n, k, seed).no_duplicates(),
        forall|i: int|
            0 <= i < sample(n, k, seed).len() ==> #[trigger] sample(n, k, seed)[i] < n,
{
    let m = if k < n { k } else { n };
    lemma_shuffled_is_permutation(n, seed, m);
    let full = shuffled(n, seed, m);
    let part = sample(n, k, seed);
    assert forall|a: int, b: int| 0 <= a < part.len() && 0 <= b < part.len() && a != b implies
        part[a] != part[b] by {
        assert(part[a] == full[a] && part[b] == full[b]);
    }
    assert forall|i: int| 0 <= i < part.len() implies #[trigger] part[i] < n by {
        assert(part[i] == full[i]);
    }
}

/// A splitmix generator: a counter whose states are scrambled into outputs.
pub struct SplitMix64 {
    s: u64,
}

impl SplitMix64 {
    /// The state from which the next draw is made.
    pub closed spec fn state(self) -> u64 {
        self.s
    }

    pub fn new(seed: u64) -> (r: Self)
        ensures
            r.state() == seed,
    {
        SplitMix64 { s: seed }
    }

    pub fn next_u64(&mut self) -> (r: u64)
        ensures
            final(self).state() == state_after(old(self).state(), 1),
            r == draw(old(self).state(), 1),
    {
        self.s = self.s.wrapping_add(STEP);
        assert(self.s == state_after(old(self).s, 1)) by {
            assert(1 * STEP == STEP);
        }
        let mut z: u64 = self.s;
        z = (z ^ (z >> 30)).wrapping_mul(0xBF58_476D_1CE4_E5B9);
        z = (z ^ (z >> 27)).wrapping_mul(0x94D0_49BB_1331_11EB);
        z ^ (z >> 31)
    }

    /// A draw below a bound.
    pub fn next_bounded(&mut self, bound: usize) -> (r: usize)
        requires
            bound > 0,
        ensures
            final(self).state() == state_after(old(self).state(), 1),
            r == draw(old(self).state(), 1) as int % bound as int,
            r < bound,
    {
        let v: u64 = self.next_u64();
        (v % (bound as u64)) as usize
    }
}

/// A sample of `k` of the numbers below `n`, without repetition.
pub fn sample_indices(n: usize, k: usize, rng: &mut SplitMix64) -> (r: Vec<usize>)
    ensures
        r@ == sample(n as nat, k as nat, old(rng).state()),
        final(rng).state() == state_after(
            old(rng).state(),
            sample_draws(n as nat, k as nat),
        ),
        r@.no_duplicates(),
        forall|i: int| 0 <= i < r.len() ==> #[trigger] r[i] < n,
{
    let ghost seed = rng.state();
    let mut a: Vec<usize> = Vec::with_capacity(n);
    let mut t: usize = 0;
    while t < n
        invariant
            t <= n,
            a@ == identity(t as nat),
        decreases n - t,
    {
        a.push(t);
        t = t + 1;
    }
    let k: usize = if k < n { k } else { n };
    let mut i: usize = 0;
    proof {
        lemma_state_after_adds(seed, 0, 0);
    }
    while i < k
        invariant
            i <= k <= n,
            a@ == shuffled(n as nat, seed, i as nat),
            a.len() == n,
            rng.state() == state_after(seed, i as nat),
        decreases k - i,
    {
        proof {
            lemma_state_after_adds(seed, i as nat, 1);
        }
        let j: usize = i + rng.next_bounded(n - i);
        let x: usize = a[i];
        let y: usize = a[j];
        a[i] = y;
        a[j] = x;
        i = i + 1;
    }
    a.truncate(k);
    proof {
        law_sample_is_distinct(n as nat, k as nat, seed);
    }
    a
}

} // verus!
