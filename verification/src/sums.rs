//! Finite sums of integer sequences given as functions of the index.

use vstd::prelude::*;
use vstd::arithmetic::div_mod::*;
use vstd::arithmetic::mul::*;
use vstd::arithmetic::power::*;
use crate::modular::lemma_pow_succ;

verus! {

/// `f(0) + f(1) + ... + f(n - 1)`.
pub open spec fn sum(f: spec_fn(int) -> int, n: int) -> int
    decreases n,
{
    if n <= 0 {
        0
    } else {
        sum(f, n - 1) + f(n - 1)
    }
}

/// Sums of pointwise equal functions are equal.
pub proof fn lemma_sum_ext(f: spec_fn(int) -> int, g: spec_fn(int) -> int, n: int)
    requires
        forall|i: int| 0 <= i < n ==> #[trigger] f(i) == g(i),
    ensures
        sum(f, n) == sum(g, n),
    decreases n,
{
    if n > 0 {
        lemma_sum_ext(f, g, n - 1);
    }
}

/// Sums of pointwise congruent functions are congruent.
pub proof fn lemma_sum_cong(f: spec_fn(int) -> int, g: spec_fn(int) -> int, n: int, m: int)
    requires
        m > 0,
        forall|i: int| 0 <= i < n ==> #[trigger] f(i) % m == g(i) % m,
    ensures
        sum(f, n) % m == sum(g, n) % m,
    decreases n,
{
    if n > 0 {
        lemma_sum_cong(f, g, n - 1, m);
        lemma_add_mod_noop(sum(f, n - 1), f(n - 1), m);
        lemma_add_mod_noop(sum(g, n - 1), g(n - 1), m);
    }
}

/// The sum of a function that is zero on `0..n`.
pub proof fn lemma_sum_zero(f: spec_fn(int) -> int, n: int)
    requires
        forall|i: int| 0 <= i < n ==> #[trigger] f(i) == 0,
    ensures
        sum(f, n) == 0,
    decreases n,
{
    if n > 0 {
        lemma_sum_zero(f, n - 1);
    }
}

/// The sum of a constant.
pub proof fn lemma_sum_const(f: spec_fn(int) -> int, c: int, n: int)
    requires
        0 <= n,
        forall|i: int| 0 <= i < n ==> #[trigger] f(i) == c,
    ensures
        sum(f, n) == n * c,
    decreases n,
{
    if n > 0 {
        lemma_sum_const(f, c, n - 1);
        assert((n - 1) * c + c == n * c) by (nonlinear_arith);
    } else {
        assert(0 * c == 0);
    }
}

/// A sum whose terms vanish from `n` on does not grow past `n`.
pub proof fn lemma_sum_extend(f: spec_fn(int) -> int, n: int, m: int)
    requires
        0 <= n <= m,
        forall|i: int| n <= i < m ==> #[trigger] f(i) == 0,
    ensures
        sum(f, m) == sum(f, n),
    decreases m - n,
{
    if m > n {
        lemma_sum_extend(f, n, m - 1);
    }
}

/// Sum of a termwise sum.
pub proof fn lemma_sum_add(
    f: spec_fn(int) -> int,
    g: spec_fn(int) -> int,
    h: spec_fn(int) -> int,
    n: int,
)
    requires
        forall|i: int| 0 <= i < n ==> #[trigger] h(i) == f(i) + g(i),
    ensures
        sum(h, n) == sum(f, n) + sum(g, n),
    decreases n,
{
    if n > 0 {
        lemma_sum_add(f, g, h, n - 1);
    }
}

/// Sum of a termwise multiple.
pub proof fn lemma_sum_scale(f: spec_fn(int) -> int, h: spec_fn(int) -> int, c: int, n: int)
    requires
        forall|i: int| 0 <= i < n ==> #[trigger] h(i) == c * f(i),
    ensures
        sum(h, n) == c * sum(f, n),
    decreases n,
{
    if n > 0 {
        lemma_sum_scale(f, h, c, n - 1);
        lemma_mul_is_distributive_add(c, sum(f, n - 1), f(n - 1));
    } else {
        assert(c * 0 == 0);
    }
}

/// A sum with one non-zero term.
pub proof fn lemma_sum_single(f: spec_fn(int) -> int, n: int, k: int)
    requires
        0 <= k < n,
        forall|i: int| 0 <= i < n && i != k ==> #[trigger] f(i) == 0,
    ensures
        sum(f, n) == f(k),
    decreases n,
{
    if n - 1 == k {
        lemma_sum_zero(f, n - 1);
    } else {
        lemma_sum_single(f, n - 1, k);
    }
}

/// A sum split at `a`: the tail is the sum of the shifted function.
pub proof fn lemma_sum_split(f: spec_fn(int) -> int, g: spec_fn(int) -> int, a: int, b: int)
    requires
        0 <= a,
        0 <= b,
        forall|i: int| 0 <= i < b ==> #[trigger] g(i) == f(a + i),
    ensures
        sum(f, a + b) == sum(f, a) + sum(g, b),
    decreases b,
{
    if b > 0 {
        lemma_sum_split(f, g, a, b - 1);
    }
}

/// A sum split into its terms of even and of odd index.
pub proof fn lemma_sum_even_odd(
    f: spec_fn(int) -> int,
    fe: spec_fn(int) -> int,
    fo: spec_fn(int) -> int,
    h: int,
)
    requires
        0 <= h,
        forall|j: int| 0 <= j < h ==> #[trigger] fe(j) == f(2 * j),
        forall|j: int| 0 <= j < h ==> #[trigger] fo(j) == f(2 * j + 1),
    ensures
        sum(f, 2 * h) == sum(fe, h) + sum(fo, h),
    decreases h,
{
    if h > 0 {
        lemma_sum_even_odd(f, fe, fo, h - 1);
        assert(sum(f, 2 * h) == sum(f, 2 * h - 2) + f(2 * h - 2) + f(2 * h - 1)) by {
            assert(sum(f, 2 * h) == sum(f, 2 * h - 1) + f(2 * h - 1));
            assert(sum(f, 2 * h - 1) == sum(f, 2 * h - 2) + f(2 * h - 2));
        }
        assert(fe(h - 1) == f(2 * (h - 1)));
        assert(fo(h - 1) == f(2 * (h - 1) + 1));
    }
}

/// The inner sum of a double sum, as a function of the outer index.
pub open spec fn inner_sum(f: spec_fn(int, int) -> int, m: int) -> spec_fn(int) -> int {
    |i: int| sum(|j: int| f(i, j), m)
}

/// The inner sum of the transposed double sum.
pub open spec fn inner_sum_transposed(f: spec_fn(int, int) -> int, n: int) -> spec_fn(int) -> int {
    |j: int| sum(|i: int| f(i, j), n)
}

/// The order of summation of a finite double sum does not matter.
pub proof fn lemma_sum_swap(f: spec_fn(int, int) -> int, n: int, m: int)
    requires
        0 <= n,
        0 <= m,
    ensures
        sum(inner_sum(f, m), n) == sum(inner_sum_transposed(f, n), m),
    decreases n,
{
    if n == 0 {
        lemma_sum_zero(inner_sum_transposed(f, n), m);
    } else {
        lemma_sum_swap(f, n - 1, m);
        // column sums over n rows = column sums over n - 1 rows + last row
        let last = |j: int| f(n - 1, j);
        assert forall|j: int| 0 <= j < m implies #[trigger] inner_sum_transposed(f, n)(j)
            == inner_sum_transposed(f, n - 1)(j) + last(j) by {
            let col = |i: int| f(i, j);
            assert(sum(col, n) == sum(col, n - 1) + col(n - 1));
        }
        lemma_sum_add(inner_sum_transposed(f, n - 1), last, inner_sum_transposed(f, n), m);
        assert(inner_sum(f, m)(n - 1) == sum(last, m));
    }
}

/// The powers of `x`, as a function of the exponent.
pub open spec fn powers(x: int) -> spec_fn(int) -> int {
    |i: int| pow(x, i as nat)
}

/// The geometric sum: `(x - 1) * (1 + x + ... + x^(n-1)) == x^n - 1`.
pub proof fn lemma_geometric_sum(x: int, n: nat)
    ensures
        (x - 1) * sum(powers(x), n as int) == pow(x, n) - 1,
    decreases n,
{
    if n == 0 {
        lemma_pow0(x);
        assert((x - 1) * 0 == 0);
    } else {
        let m: nat = (n - 1) as nat;
        lemma_geometric_sum(x, m);
        lemma_pow_succ(x, m);
        let s: int = sum(powers(x), m as int);
        let t: int = pow(x, m);
        assert(powers(x)(m as int) == t);
        assert((x - 1) * (s + t) == (x - 1) * s + x * t - t) by (nonlinear_arith);
    }
}

} // verus!
