//! Which rows are drawn, and how many.

use crate::booster::Task;
use crate::float::arith::absolute;
use crate::float::convert::of_integer;
use crate::float::error::lemma_product_error_of;
use crate::float::laws::{lemma_rounded, lemma_rounded_monotone};
use crate::float::model::{lemma_magnitude_order, magnitude};
use crate::float::round::{lemma_nearest_exact, rounded};
use crate::laws::starting::lemma_small_integer;
use crate::rng::{
    draw, identity, lemma_shuffled_is_permutation, lemma_state_after_adds, mix, sample,
    shuffled, state_after, wrapping_product, STEP,
};
use vstd::arithmetic::div_mod::lemma_fundamental_div_mod;
use vstd::arithmetic::power2::{
    lemma2_to64, lemma_pow2_adds, lemma_pow2_pos, lemma_pow2_strictly_increases, pow2,
};
use vstd::prelude::*;

verus! {

/// Multiplication modulo 2^64 by a number that has an inverse can be undone.
proof fn lemma_product_undone(a: u64, c: u64, inverse: int, turns: int)
    requires
        c * inverse == 1 + turns * 0x1_0000_0000_0000_0000,
    ensures
        (wrapping_product(a, c) * inverse) % 0x1_0000_0000_0000_0000 == a,
{
    let m: int = 0x1_0000_0000_0000_0000;
    let p = a * c;
    vstd::arithmetic::div_mod::lemma_mul_mod_noop_left(p, inverse, m);
    assert(p * inverse == a + (a * turns) * m) by (nonlinear_arith)
        requires
            p == a * c,
            c * inverse == 1 + turns * m,
    {
        assert((a * c) * inverse == a * (c * inverse));
        assert(a * (1 + turns * m) == a + (a * turns) * m);
    }
    vstd::arithmetic::div_mod::lemma_mod_multiples_vanish(a * turns, a as int, m);
    vstd::arithmetic::mul::lemma_mul_is_commutative(a * turns, m);
    vstd::arithmetic::div_mod::lemma_small_mod(a as nat, m as nat);
}

/// The state from which the generator made an output.
pub open spec fn state_behind(v: u64) -> u64 {
    let b = v ^ (v >> 31) ^ (v >> 62);
    let a = wrapping_product(b, 0x3196_42b2_d24d_8ec3);
    let c = wrapping_product(a ^ (a >> 27) ^ (a >> 54), 0x96de_1b17_3f11_9089);
    c ^ (c >> 30) ^ (c >> 60)
}

/// Every output tells the state that it was made from: the shifts and the multiplications of the
/// scrambling can be undone one by one.
pub proof fn law_outputs_tell_their_states(z: u64)
    ensures
        state_behind(mix(z)) == z,
{
    let (p, q): (u64, u64) = (0xBF58_476D_1CE4_E5B9, 0x94D0_49BB_1331_11EB);
    let y = z ^ (z >> 30);
    let a = wrapping_product(y, p);
    let x = a ^ (a >> 27);
    let b = wrapping_product(x, q);
    let v = b ^ (b >> 31);
    assert(v ^ (v >> 31) ^ (v >> 62) == b) by (bit_vector)
        requires
            v == b ^ (b >> 31),
    ;
    lemma_product_undone(x, q, 0x3196_42b2_d24d_8ec3, 2077064247507883091);
    assert(x ^ (x >> 27) ^ (x >> 54) == a) by (bit_vector)
        requires
            x == a ^ (a >> 27),
    ;
    lemma_product_undone(y, p, 0x96de_1b17_3f11_9089, 8125545580553827436);
    assert(y ^ (y >> 30) ^ (y >> 60) == z) by (bit_vector)
        requires
            y == z ^ (z >> 30),
    ;
}

/// Different states of the generator give different outputs.
pub proof fn law_outputs_differ(a: u64, b: u64)
    requires
        mix(a) == mix(b),
    ensures
        a == b,
{
    law_outputs_tell_their_states(a);
    law_outputs_tell_their_states(b);
}

/// The states of the generator follow each other at a fixed distance, starting from the seed: by
/// 2^64 over the golden ratio, rounded to an odd number.
pub proof fn law_states_follow_at_a_fixed_distance(seed: u64, count: nat)
    ensures
        state_behind(draw(seed, 0)) == seed,
        state_behind(draw(seed, count + 1)) as int == (state_behind(draw(seed, count))
            + 0x9E37_79B9_7F4A_7C15) % 0x1_0000_0000_0000_0000,
{
    law_outputs_tell_their_states(state_after(seed, 0));
    law_outputs_tell_their_states(state_after(seed, count));
    law_outputs_tell_their_states(state_after(seed, count + 1));
    lemma_state_after_adds(seed, count, 1);
}

/// No output comes back before all others were given.
pub proof fn law_draws_do_not_repeat(seed: u64, a: nat, b: nat)
    requires
        a < 0x1_0000_0000_0000_0000,
        b < 0x1_0000_0000_0000_0000,
        draw(seed, a) == draw(seed, b),
    ensures
        a == b,
{
    let m: int = 0x1_0000_0000_0000_0000;
    let (inverse, turns): (int, int) = (0xf1de83e19937733d, 10771413168148108919);
    law_outputs_differ(state_after(seed, a), state_after(seed, b));
    let (x, y) = (seed + a * STEP, seed + b * STEP);
    vstd::arithmetic::div_mod::lemma_fundamental_div_mod(x, m);
    vstd::arithmetic::div_mod::lemma_fundamental_div_mod(y, m);
    let (k, q) = (a - b, x / m - y / m);
    assert(k * STEP == m * q) by (nonlinear_arith)
        requires
            k == a - b,
            q == x / m - y / m,
            x == seed + a * STEP,
            y == seed + b * STEP,
            x == m * (x / m) + x % m,
            y == m * (y / m) + y % m,
            x % m == y % m,
    ;
    let w = q * inverse - k * turns;
    assert(k == m * w) by (nonlinear_arith)
        requires
            k * STEP == m * q,
            STEP * inverse == 1 + turns * m,
            w == q * inverse - k * turns,
    {
        assert((k * STEP) * inverse == k * (STEP * inverse));
        assert(k * (1 + turns * m) == k + m * (k * turns));
        assert((m * q) * inverse == m * (q * inverse));
        assert(m * w == m * (q * inverse) - m * (k * turns));
    }
    assert(w == 0) by (nonlinear_arith)
        requires
            -m < m * w < m,
            m > 0,
    ;
}

/// Every seed gives its own draws.
pub proof fn law_seeds_give_their_own_draws(a: u64, b: u64, count: nat)
    requires
        draw(a, count) == draw(b, count),
    ensures
        a == b,
{
    let m: int = 0x1_0000_0000_0000_0000;
    law_outputs_differ(state_after(a, count), state_after(b, count));
    let s = (count * STEP) as int;
    let (x, y) = (a + s, b + s);
    vstd::arithmetic::div_mod::lemma_fundamental_div_mod(x, m);
    vstd::arithmetic::div_mod::lemma_fundamental_div_mod(y, m);
    let (p, q) = (x / m, y / m);
    assert(x - y == m * p - m * q);
    assert(p == q) by (nonlinear_arith)
        requires
            -m < m * p - m * q < m,
            m > 0,
    ;
}

/// The places before an exchange stay as they are.
proof fn lemma_exchange_keeps(n: nat, seed: u64, count: nat)
    requires
        0 < count <= n,
        n <= usize::MAX,
    ensures
        shuffled(n, seed, count).take(count - 1) == shuffled(
            n,
            seed,
            (count - 1) as nat,
        ).take(count - 1),
{
    lemma_shuffled_is_permutation(n, seed, count);
    lemma_shuffled_is_permutation(n, seed, (count - 1) as nat);
    let before = shuffled(n, seed, (count - 1) as nat);
    let i = count - 1;
    let j = i + draw(seed, count) as int % (n - i);
    assert(i <= j < n);
    assert(shuffled(n, seed, count).take(i) =~= before.take(i));
}

proof fn lemma_shuffled_prefix(n: nat, seed: u64, few: nat, many: nat)
    requires
        few <= many <= n,
        n <= usize::MAX,
    ensures
        shuffled(n, seed, many).take(few as int) == shuffled(n, seed, few).take(few as int),
    decreases many,
{
    if few < many {
        let c = (many - 1) as nat;
        lemma_shuffled_prefix(n, seed, few, c);
        lemma_exchange_keeps(n, seed, many);
        lemma_shuffled_is_permutation(n, seed, many);
        lemma_shuffled_is_permutation(n, seed, c);
        assert(shuffled(n, seed, many).take(c as int).take(few as int) =~= shuffled(
            n,
            seed,
            many,
        ).take(few as int));
        assert(shuffled(n, seed, c).take(c as int).take(few as int) =~= shuffled(
            n,
            seed,
            c,
        ).take(few as int));
    }
}

/// A smaller sample is the beginning of a larger one.
pub proof fn law_smaller_samples_begin_larger_ones(n: nat, few: nat, many: nat, seed: u64)
    requires
        n <= usize::MAX,
        few <= many,
    ensures
        sample(n, few, seed) == sample(n, many, seed).take(
            if few < n {
                few as int
            } else {
                n as int
            },
        ),
{
    let (a, b) = (if few < n { few } else { n }, if many < n { many } else { n });
    lemma_shuffled_prefix(n, seed, a, b);
    lemma_shuffled_is_permutation(n, seed, b);
    assert(sample(n, many, seed).take(a as int) =~= shuffled(n, seed, b).take(a as int));
}

proof fn lemma_draws_from_prefix(n: nat, a: u64, b: u64, count: nat)
    requires
        count <= n,
        n <= usize::MAX,
        shuffled(n, a, count).take(count as int) == shuffled(n, b, count).take(count as int),
    ensures
        shuffled(n, a, count) == shuffled(n, b, count),
        forall|i: int|
            0 <= i < count ==> #[trigger] draw(a, (i + 1) as nat) as int % (n - i) == draw(
                b,
                (i + 1) as nat,
            ) as int % (n - i),
    decreases count,
{
    if count > 0 {
        let c = (count - 1) as nat;
        let (pa, pb) = (shuffled(n, a, c), shuffled(n, b, c));
        let (qa, qb) = (shuffled(n, a, count), shuffled(n, b, count));
        lemma_shuffled_is_permutation(n, a, count);
        lemma_shuffled_is_permutation(n, b, count);
        lemma_shuffled_is_permutation(n, a, c);
        lemma_exchange_keeps(n, a, count);
        lemma_exchange_keeps(n, b, count);
        assert(qa.take(count as int).take(c as int) =~= qa.take(c as int));
        assert(qb.take(count as int).take(c as int) =~= qb.take(c as int));
        lemma_draws_from_prefix(n, a, b, c);
        let i = c as int;
        let j = i + draw(a, count) as int % (n - i);
        let k = i + draw(b, count) as int % (n - i);
        assert(i <= j < n && i <= k < n);
        assert(qa.take(count as int)[i] == qb.take(count as int)[i]);
        assert(qa[i] == pa[j]);
        assert(qb[i] == pb[k]);
        assert(pa[j] == pa[k]);
        assert(j == k);
    }
}

/// Every draw matters: two seeds give the same sample only where each of their draws gives the same
/// choice among the numbers that are left. So all samples are equally likely if the choices are.
pub proof fn law_every_draw_matters(n: nat, k: nat, a: u64, b: u64, i: int)
    requires
        n <= usize::MAX,
        sample(n, k, a) == sample(n, k, b),
        0 <= i < k,
        i < n,
    ensures
        draw(a, (i + 1) as nat) as int % (n - i) == draw(b, (i + 1) as nat) as int % (n - i),
{
    let m = if k < n { k } else { n };
    lemma_draws_from_prefix(n, a, b, m);
}

/// The first number drawn is the generator's next output, modulo how many there are.
pub proof fn law_first_draw_is_the_output(n: nat, k: nat, seed: u64)
    requires
        0 < n <= usize::MAX,
        k > 0,
    ensures
        sample(n, k, seed).len() > 0,
        sample(n, k, seed)[0] == draw(seed, 1) as int % (n as int),
{
    let m = if k < n { k } else { n };
    lemma_first_place(n, seed, m);
    lemma_shuffled_is_permutation(n, seed, m);
}

proof fn lemma_first_place(n: nat, seed: u64, count: nat)
    requires
        0 < count <= n,
        n <= usize::MAX,
    ensures
        shuffled(n, seed, count)[0] == draw(seed, 1) as int % (n as int),
    decreases count,
{
    lemma_shuffled_is_permutation(n, seed, count);
    lemma_exchange_keeps(n, seed, count);
    let before = shuffled(n, seed, (count - 1) as nat);
    if count > 1 {
        lemma_first_place(n, seed, (count - 1) as nat);
        lemma_shuffled_is_permutation(n, seed, (count - 1) as nat);
        assert(shuffled(n, seed, count).take(count - 1)[0] == before.take(count - 1)[0]);
    } else {
        let j = draw(seed, 1) as int % (n as int);
        assert(0 <= j < n);
        assert(before == identity(n));
    }
}

/// Each tree is grown on the given share of the rows, rounded up: `m` is the product of the share
/// and the number of rows, up to rounding, and the number of rows drawn is the least that is not
/// below it (one, if there is nothing to draw).
pub proof fn law_sample_size_is_the_share_rounded_up(task: Task)
    requires
        0 < task.n <= 0x100_0000,
        task.p.subsample.finite(),
        0 <= task.p.subsample.value() <= pow2(149),
    ensures
        exists|m: int| #[trigger]
            rounded_share(m, task.n as int, task.p.subsample.value()) && ((task.sample_size() == 1
                && m <= pow2(149)) || (task.sample_size() - 1) * pow2(149) < m
                <= task.sample_size() * pow2(149)),
        task.p.subsample.value() == pow2(149) ==> task.sample_size() == task.n,
{
    let u = pow2(149) as int;
    let n = task.n as int;
    let share = task.p.subsample;
    let s = share.value();
    lemma_pow2_pos(149);
    lemma_small_integer(n);
    lemma_pow2_strictly_increases(149, 252);
    lemma_pow2_strictly_increases(252, 276);
    lemma_pow2_adds(24, 149);
    lemma2_to64();
    let count = of_integer(n);
    let nu = n * u;
    assert(0 <= nu * s <= u * nu && nu <= 0x100_0000 * u) by (nonlinear_arith)
        requires
            nu == n * u,
            0 <= s <= u,
            0 < n <= 0x100_0000,
            u > 0,
    {
        assert(nu * s <= nu * u);
        assert(nu * u == u * nu);
    }
    lemma_pow2_strictly_increases(173, 276);
    assert(u * nu <= u * pow2(276)) by (nonlinear_arith)
        requires
            nu <= pow2(276),
            u > 0,
    ;
    lemma_product_error_of(count, share);
    let prod = count.times(share);
    let m = prod.value();
    let w = absolute(m - n * s);
    assert(absolute(u * m - nu * s) == u * w) by (nonlinear_arith)
        requires
            nu == n * u,
            w == m - n * s || w == n * s - m,
            w >= 0,
            u > 0,
            absolute(u * m - nu * s) >= 0,
            absolute(u * m - nu * s) == u * m - nu * s || absolute(u * m - nu * s) == nu * s - u
                * m,
    {
        assert(u * m - nu * s == u * (m - n * s));
        assert(u * (n * s - m) == nu * s - u * m);
        assert(u * w >= 0);
    }
    assert(0x100_0000 * w <= m + 0x80_0000) by (nonlinear_arith)
        requires
            0x100_0000 * (u * w) <= u * (m + 0x80_0000),
            u > 0,
    {
        assert(0x100_0000 * (u * w) == u * (0x100_0000 * w));
    }
    assert(rounded_share(m, n, s));
    // The product is at most the number of rows, and equal to it for the whole share.
    let (x, y) = (magnitude(count.code()), magnitude(share.code()));
    lemma_magnitude_order(share.code(), 0);
    lemma_magnitude_order(count.code(), 0);
    lemma_magnitude_order(prod.code(), 0);
    assert(x == nu && y == s);
    lemma_rounded(nu * s, u);
    lemma_nearest_exact(count.code(), nu, 1);
    assert(u * nu == nu * u) by (nonlinear_arith);
    assert((nu * s) * 1 <= nu * u);
    lemma_rounded_monotone(nu * s, u, nu, 1);
    lemma_magnitude_order(rounded(nu * s, u), count.code());
    lemma_magnitude_order(count.code(), rounded(nu * s, u));
    assert(prod.code() == rounded(nu * s, u));
    assert(0 <= m <= nu);
    if s == u {
        assert(nu * u <= (nu * s) * 1);
        lemma_rounded_monotone(nu, 1, nu * s, u);
        assert(m == nu);
    }
    let c = (m + u - 1) / u;
    vstd::arithmetic::div_mod::lemma_fundamental_div_mod(m + u - 1, u);
    let rest = (m + u - 1) % u;
    assert(0 <= rest < u);
    assert(u * c == c * u) by (nonlinear_arith);
    assert((c - 1) * u == c * u - u) by (nonlinear_arith);
    assert(c <= n) by (nonlinear_arith)
        requires
            c * u <= n * u + u - 1,
            u > 0,
    {
        if c >= n + 1 {
            assert(c * u >= (n + 1) * u);
            assert((n + 1) * u == n * u + u);
        }
    }
    assert(c >= 0) by (nonlinear_arith)
        requires
            c * u > -u,
            u > 0,
    ;
    if prod.negative() {
        assert(m == 0);
        assert(c == 0) by (nonlinear_arith)
            requires
                c * u <= u - 1,
                c >= 0,
                u > 0,
        ;
    }
    assert(prod.whole_up() == c);
    if s == u {
        assert(c == n) by (nonlinear_arith)
            requires
                c * u >= n * u,
                c <= n,
                u > 0,
        ;
    }
    let z = task.sample_size() as int;
    assert(z == if c < 1 { 1 } else { c });
    if c < 1 {
        assert(c * u == 0) by (nonlinear_arith)
            requires
                c == 0,
        ;
        assert(m <= u);
    } else {
        assert((z - 1) * u < m <= z * u);
    }
}

/// Whether `m` is a share of `n` rows, up to rounding.
pub open spec fn rounded_share(m: int, n: int, share: int) -> bool {
    m >= 0 && 0x100_0000 * absolute(m - n * share) <= m + 0x80_0000
}

} // verus!
