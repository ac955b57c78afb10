//! Congruences modulo an arbitrary modulus, and the order of an element
//! whose `2^(k-1)`-th power is `-1`.

use vstd::prelude::*;
use vstd::arithmetic::div_mod::*;
use vstd::arithmetic::mul::*;
use vstd::arithmetic::power::*;
use vstd::arithmetic::power2::*;
use vstd::set_lib::*;
use vstd::relations::*;

verus! {

/// Products of congruent factors are congruent.
pub proof fn lemma_cong_mul(a: int, a2: int, b: int, b2: int, m: int)
    requires
        m > 0,
        a % m == a2 % m,
        b % m == b2 % m,
    ensures
        (a * b) % m == (a2 * b2) % m,
{
    lemma_mul_mod_noop_general(a, b, m);
    lemma_mul_mod_noop_general(a2, b2, m);
}

/// Sums of congruent terms are congruent.
pub proof fn lemma_cong_add(a: int, a2: int, b: int, b2: int, m: int)
    requires
        m > 0,
        a % m == a2 % m,
        b % m == b2 % m,
    ensures
        (a + b) % m == (a2 + b2) % m,
{
    lemma_add_mod_noop(a, b, m);
    lemma_add_mod_noop(a2, b2, m);
}

/// Differences of congruent terms are congruent.
pub proof fn lemma_cong_sub(a: int, a2: int, b: int, b2: int, m: int)
    requires
        m > 0,
        a % m == a2 % m,
        b % m == b2 % m,
    ensures
        (a - b) % m == (a2 - b2) % m,
{
    lemma_sub_mod_noop(a, b, m);
    lemma_sub_mod_noop(a2, b2, m);
}

/// Powers of congruent bases are congruent.
pub proof fn lemma_cong_pow(a: int, a2: int, e: nat, m: int)
    requires
        m > 0,
        a % m == a2 % m,
    ensures
        pow(a, e) % m == pow(a2, e) % m,
{
    lemma_pow_mod_noop(a, e, m);
    lemma_pow_mod_noop(a2, e, m);
}

/// `pow(b, 2e) == pow(b * b, e)`.
pub proof fn lemma_pow_double(b: int, e: nat)
    ensures
        pow(b, 2 * e) == pow(b * b, e),
        pow(b, 2 * e) == pow(b, e) * pow(b, e),
{
    lemma_square_is_pow2(b);
    lemma_pow_multiplies(b, 2, e);
    lemma_pow_adds(b, e, e);
}

/// `pow(b, e + 1) == b * pow(b, e)`.
pub proof fn lemma_pow_succ(b: int, e: nat)
    ensures
        pow(b, e + 1) == b * pow(b, e),
        pow(b, e + 1) == pow(b, e) * b,
{
    lemma_pow_adds(b, 1, e);
    lemma_pow1(b);
    lemma_mul_is_commutative(b, pow(b, e));
}

/// The square of `-1` is `1`.
pub proof fn lemma_minus_one_squared(x: int, m: int)
    requires
        m > 1,
        x % m == m - 1,
    ensures
        (x * x) % m == 1,
{
    lemma_mul_mod_noop_general(x, x, m);
    assert((m - 1) * (m - 1) == m * (m - 2) + 1) by (nonlinear_arith);
    lemma_mod_multiples_vanish(m - 2, 1, m);
    lemma_mul_is_commutative(m, m - 2);
    lemma_small_mod(1, m as nat);
}

/// An odd power of `-1` is `-1`.
pub proof fn lemma_minus_one_odd_power(x: int, d: nat, m: int)
    requires
        m > 1,
        x % m == m - 1,
        d % 2 == 1,
    ensures
        pow(x, d) % m == m - 1,
    decreases d,
{
    if d == 1 {
        lemma_pow1(x);
    } else {
        let e: nat = (d - 2) as nat;
        lemma_minus_one_odd_power(x, e, m);
        lemma_pow_adds(x, 2, e);
        lemma_square_is_pow2(x);
        lemma_minus_one_squared(x, m);
        lemma_small_mod(1, m as nat);
        lemma_cong_mul(x * x, 1, pow(x, e), pow(x, e), m);
    }
}

/// If the `2^(k-1)`-th power of `b` is `-1`, its `2^k`-th power is `1`.
pub proof fn lemma_full_power_is_one(b: int, k: nat, m: int)
    requires
        m > 1,
        k >= 1,
        pow(b, pow2((k - 1) as nat)) % m == m - 1,
    ensures
        pow(b, pow2(k)) % m == 1,
{
    let half: nat = pow2((k - 1) as nat);
    lemma_pow2_unfold(k);
    lemma_pow_double(b, half);
    lemma_minus_one_squared(pow(b, half), m);
}

/// If the `2^(k-1)`-th power of `b` is `-1` modulo `m > 2`, no smaller
/// positive power of `b` is `1`: the order of `b` is exactly `2^k`.
pub proof fn lemma_power_not_one(b: int, k: nat, d: nat, m: int)
    requires
        m > 2,
        k >= 1,
        pow(b, pow2((k - 1) as nat)) % m == m - 1,
        0 < d < pow2(k),
    ensures
        pow(b, d) % m != 1,
    decreases k,
{
    let half: nat = pow2((k - 1) as nat);
    lemma_pow2_unfold(k);
    if d % 2 == 1 {
        if pow(b, d) % m == 1 {
            lemma_small_mod(1, m as nat);
            lemma_cong_pow(pow(b, d), 1, half, m);
            lemma1_pow(half);
            lemma_pow_multiplies(b, d, half);
            lemma_pow_multiplies(b, half, d);
            lemma_mul_is_commutative(d as int, half as int);
            lemma_minus_one_odd_power(pow(b, half), d, m);
            assert(false);
        }
    } else {
        let d2: nat = d / 2;
        if k == 1 {
            lemma2_to64();
            assert(false);
        }
        let quarter: nat = pow2((k - 2) as nat);
        lemma_pow2_unfold((k - 1) as nat);
        lemma_pow_double(b, quarter);
        assert(pow(b * b, quarter) == pow(b, half));
        lemma_power_not_one(b * b, (k - 1) as nat, d2, m);
        lemma_pow_double(b, d2);
    }
}

/// Under the hypothesis of `lemma_power_not_one`, the powers
/// `b^0, ..., b^(2^k - 1)` are pairwise incongruent.
pub proof fn lemma_powers_distinct(b: int, k: nat, i: nat, j: nat, m: int)
    requires
        m > 2,
        k >= 1,
        pow(b, pow2((k - 1) as nat)) % m == m - 1,
        i < j < pow2(k),
    ensures
        pow(b, i) % m != pow(b, j) % m,
{
    if pow(b, i) % m == pow(b, j) % m {
        let n: nat = pow2(k);
        let t: nat = (n - i) as nat;
        let d: nat = (j - i) as nat;
        lemma_full_power_is_one(b, k, m);
        lemma_pow_adds(b, t, i);
        lemma_pow_adds(b, t, j);
        lemma_pow_adds(b, n, d);
        assert(t + j == n + d);
        lemma_cong_mul(pow(b, t), pow(b, t), pow(b, i), pow(b, j), m);
        lemma_small_mod(1, m as nat);
        lemma_cong_mul(pow(b, n), 1, pow(b, d), pow(b, d), m);
        lemma_power_not_one(b, k, d, m);
        assert(false);
    }
}

/// A function that maps `0..n` into `0..m` without collision needs
/// `n <= m`.
pub proof fn lemma_injection_bound(f: spec_fn(int) -> int, n: int, m: int)
    requires
        0 <= n,
        0 <= m,
        forall|i: int| 0 <= i < n ==> 0 <= #[trigger] f(i) < m,
        forall|i: int, j: int| 0 <= i < j < n ==> #[trigger] f(i) != #[trigger] f(j),
    ensures
        n <= m,
{
    let x: Set<int> = set_int_range(0, n);
    let y: Set<int> = x.map(f);
    lemma_int_range(0, n);
    lemma_int_range(0, m);
    assert(injective_on(f, x)) by {
        assert forall|a: int, c: int| x.contains(a) && x.contains(c) && #[trigger] f(a)
            == #[trigger] f(c) implies a == c by {
            if a < c {
                assert(f(a) != f(c));
            } else if c < a {
                assert(f(c) != f(a));
            }
        }
    }
    lemma_map_size(x, y, f);
    assert(y.subset_of(set_int_range(0, m))) by {
        assert forall|v: int| y.contains(v) implies set_int_range(0, m).contains(v) by {
            let a: int = choose|a: int| x.contains(a) && f(a) == v;
            assert(0 <= f(a) < m);
        }
    }
    lemma_len_subset(y, set_int_range(0, m));
}

} // verus!
