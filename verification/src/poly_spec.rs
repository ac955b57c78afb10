//! Polynomials as sequences of integer coefficients, lowest degree first:
//! evaluation, convolution, and the identities between them.
//!
//! Everything here is stated over the integers; the field enters only
//! through congruences modulo the field modulus.

use vstd::prelude::*;
use vstd::arithmetic::mul::*;
use vstd::arithmetic::power::*;
use crate::modular::{lemma_cong_mul, lemma_cong_pow, lemma_pow_double, lemma_pow_succ};
use crate::prime::modulus;
use crate::sums::{
    lemma_sum_add, lemma_sum_cong, lemma_sum_even_odd, lemma_sum_ext, lemma_sum_extend,
    lemma_sum_scale, lemma_sum_split, lemma_sum_zero, sum,
};

verus! {

/// The coefficient of `X^k`: zero outside the sequence.
pub open spec fn coeff(c: Seq<int>, k: int) -> int {
    if 0 <= k < c.len() {
        c[k]
    } else {
        0
    }
}

/// The coefficients of a sequence, as a function of the degree.
pub open spec fn coeffs(c: Seq<int>) -> spec_fn(int) -> int {
    |k: int| coeff(c, k)
}

/// The terms `g(k) * x^k` of a polynomial with coefficient function `g`.
pub open spec fn poly_term(g: spec_fn(int) -> int, x: int) -> spec_fn(int) -> int {
    |k: int| g(k) * pow(x, k as nat)
}

/// The value at `x` of the polynomial with coefficients `g(0), ..., g(n-1)`.
pub open spec fn eval_fn(g: spec_fn(int) -> int, x: int, n: int) -> int {
    sum(poly_term(g, x), n)
}

/// The value at `x` of the polynomial with coefficient sequence `c`, over
/// the integers.
pub open spec fn eval(c: Seq<int>, x: int) -> int {
    eval_fn(coeffs(c), x, c.len() as int)
}

/// The value at `x` of the polynomial with coefficient sequence `c`, in the
/// field.
pub open spec fn feval(c: Seq<int>, x: int) -> int {
    eval(c, x) % modulus()
}

/// The index of the last non-zero coefficient; `-1` for the zero polynomial.
pub open spec fn degree(c: Seq<int>) -> int
    decreases c.len(),
{
    if c.len() == 0 {
        -1
    } else if c.last() != 0 {
        c.len() - 1
    } else {
        degree(c.drop_last())
    }
}

/// `degree(c)` is the last index with a non-zero coefficient.
pub proof fn lemma_degree(c: Seq<int>)
    ensures
        -1 <= degree(c) < c.len(),
        degree(c) >= 0 ==> c[degree(c)] != 0,
        forall|k: int| degree(c) < k ==> coeff(c, k) == 0,
    decreases c.len(),
{
    if c.len() > 0 && c.last() == 0 {
        lemma_degree(c.drop_last());
        assert forall|k: int| degree(c) < k implies coeff(c, k) == 0 by {
            if k < c.len() - 1 {
                assert(coeff(c.drop_last(), k) == 0);
            }
        }
    }
}

/// An index with a non-zero coefficient, above which all coefficients are
/// zero, is the degree.
pub proof fn lemma_degree_unique(c: Seq<int>, d: int)
    requires
        -1 <= d < c.len(),
        d >= 0 ==> c[d] != 0,
        forall|k: int| d < k < c.len() ==> c[k] == 0,
    ensures
        degree(c) == d,
    decreases c.len(),
{
    if c.len() > 0 && c.last() == 0 {
        lemma_degree_unique(c.drop_last(), d);
    }
}

/// Coefficient functions that agree below `n` give the same value.
pub proof fn lemma_eval_fn_ext(g: spec_fn(int) -> int, h: spec_fn(int) -> int, x: int, n: int)
    requires
        forall|k: int| 0 <= k < n ==> #[trigger] g(k) == h(k),
    ensures
        eval_fn(g, x, n) == eval_fn(h, x, n),
{
    lemma_sum_ext(poly_term(g, x), poly_term(h, x), n);
}

/// Coefficient functions that are congruent below `n` give congruent
/// values at congruent points.
pub proof fn lemma_eval_fn_cong(
    g: spec_fn(int) -> int,
    h: spec_fn(int) -> int,
    x: int,
    y: int,
    n: int,
    m: int,
)
    requires
        m > 0,
        x % m == y % m,
        forall|k: int| 0 <= k < n ==> #[trigger] g(k) % m == h(k) % m,
    ensures
        eval_fn(g, x, n) % m == eval_fn(h, y, n) % m,
{
    assert forall|k: int| 0 <= k < n implies #[trigger] poly_term(g, x)(k) % m == poly_term(h, y)(
        k,
    ) % m by {
        lemma_cong_pow(x, y, k as nat, m);
        lemma_cong_mul(g(k), h(k), pow(x, k as nat), pow(y, k as nat), m);
    }
    lemma_sum_cong(poly_term(g, x), poly_term(h, y), n, m);
}

/// Coefficients that vanish from `n` on add nothing to the value.
pub proof fn lemma_eval_fn_extend(g: spec_fn(int) -> int, x: int, n: int, m: int)
    requires
        0 <= n <= m,
        forall|k: int| n <= k < m ==> #[trigger] g(k) == 0,
    ensures
        eval_fn(g, x, m) == eval_fn(g, x, n),
{
    assert forall|k: int| n <= k < m implies #[trigger] poly_term(g, x)(k) == 0 by {
        assert(g(k) == 0);
        assert(0 * pow(x, k as nat) == 0);
    }
    lemma_sum_extend(poly_term(g, x), n, m);
}

/// Sequences with the same coefficients have the same value, whatever
/// their lengths.
pub proof fn lemma_eval_same_coeffs(a: Seq<int>, b: Seq<int>, x: int)
    requires
        forall|k: int| coeff(a, k) == coeff(b, k),
    ensures
        eval(a, x) == eval(b, x),
{
    let n: int = if a.len() >= b.len() {
        a.len() as int
    } else {
        b.len() as int
    };
    assert forall|k: int| a.len() <= k < n implies #[trigger] coeffs(a)(k) == 0 by {}
    assert forall|k: int| b.len() <= k < n implies #[trigger] coeffs(b)(k) == 0 by {}
    lemma_eval_fn_extend(coeffs(a), x, a.len() as int, n);
    lemma_eval_fn_extend(coeffs(b), x, b.len() as int, n);
    assert forall|k: int| 0 <= k < n implies #[trigger] coeffs(a)(k) == coeffs(b)(k) by {
        assert(coeff(a, k) == coeff(b, k));
    }
    lemma_eval_fn_ext(coeffs(a), coeffs(b), x, n);
}

/// Sequences with congruent coefficients have congruent values at
/// congruent points.
pub proof fn lemma_eval_cong(a: Seq<int>, b: Seq<int>, x: int, y: int)
    requires
        x % modulus() == y % modulus(),
        forall|k: int| coeff(a, k) % modulus() == coeff(b, k) % modulus(),
    ensures
        feval(a, x) == feval(b, y),
{
    let n: int = if a.len() >= b.len() {
        a.len() as int
    } else {
        b.len() as int
    };
    assert forall|k: int| a.len() <= k < n implies #[trigger] coeffs(a)(k) == 0 by {}
    assert forall|k: int| b.len() <= k < n implies #[trigger] coeffs(b)(k) == 0 by {}
    lemma_eval_fn_extend(coeffs(a), x, a.len() as int, n);
    lemma_eval_fn_extend(coeffs(b), y, b.len() as int, n);
    assert forall|k: int| 0 <= k < n implies #[trigger] coeffs(a)(k) % modulus() == coeffs(b)(k)
        % modulus() by {
        assert(coeff(a, k) % modulus() == coeff(b, k) % modulus());
    }
    lemma_eval_fn_cong(coeffs(a), coeffs(b), x, y, n, modulus());
}

/// The value of the empty polynomial and of a constant.
pub proof fn lemma_eval_small(c: Seq<int>, x: int)
    ensures
        c.len() == 0 ==> eval(c, x) == 0,
        c.len() == 1 ==> eval(c, x) == c[0],
{
    if c.len() == 1 {
        lemma_pow0(x);
        assert(sum(poly_term(coeffs(c), x), 1) == sum(poly_term(coeffs(c), x), 0) + poly_term(
            coeffs(c),
            x,
        )(0));
        assert(c[0] * 1 == c[0]);
    }
}

/// Sum of polynomials: the value of the coefficientwise sum.
pub proof fn lemma_eval_fn_add(
    f: spec_fn(int) -> int,
    g: spec_fn(int) -> int,
    h: spec_fn(int) -> int,
    x: int,
    n: int,
)
    requires
        forall|k: int| 0 <= k < n ==> #[trigger] h(k) == f(k) + g(k),
    ensures
        eval_fn(h, x, n) == eval_fn(f, x, n) + eval_fn(g, x, n),
{
    assert forall|k: int| 0 <= k < n implies #[trigger] poly_term(h, x)(k) == poly_term(f, x)(k)
        + poly_term(g, x)(k) by {
        assert(h(k) == f(k) + g(k));
        lemma_mul_is_distributive_add_other_way(pow(x, k as nat), f(k), g(k));
    }
    lemma_sum_add(poly_term(f, x), poly_term(g, x), poly_term(h, x), n);
}

/// Multiple of a polynomial: the value of the coefficientwise multiple.
pub proof fn lemma_eval_fn_scale(
    f: spec_fn(int) -> int,
    h: spec_fn(int) -> int,
    c: int,
    x: int,
    n: int,
)
    requires
        forall|k: int| 0 <= k < n ==> #[trigger] h(k) == c * f(k),
    ensures
        eval_fn(h, x, n) == c * eval_fn(f, x, n),
{
    assert forall|k: int| 0 <= k < n implies #[trigger] poly_term(h, x)(k) == c * poly_term(f, x)(
        k,
    ) by {
        assert(h(k) == c * f(k));
        lemma_mul_is_associative(c, f(k), pow(x, k as nat));
    }
    lemma_sum_scale(poly_term(f, x), poly_term(h, x), c, n);
}

/// Shift of a polynomial: multiplying by `X^s` moves the coefficients up.
pub proof fn lemma_eval_fn_shift(
    f: spec_fn(int) -> int,
    h: spec_fn(int) -> int,
    s: int,
    x: int,
    n: int,
)
    requires
        0 <= s,
        0 <= n,
        forall|k: int| 0 <= k < s ==> #[trigger] h(k) == 0,
        forall|k: int| 0 <= k < n ==> #[trigger] h(s + k) == f(k),
    ensures
        eval_fn(h, x, s + n) == pow(x, s as nat) * eval_fn(f, x, n),
{
    let xs: int = pow(x, s as nat);
    let tail = |k: int| poly_term(h, x)(s + k);
    assert forall|k: int| 0 <= k < s implies #[trigger] poly_term(h, x)(k) == 0 by {
        assert(h(k) == 0);
        assert(0 * pow(x, k as nat) == 0);
    }
    lemma_sum_zero(poly_term(h, x), s);
    lemma_sum_split(poly_term(h, x), tail, s, n);
    assert forall|k: int| 0 <= k < n implies #[trigger] tail(k) == xs * poly_term(f, x)(k) by {
        assert(h(s + k) == f(k));
        lemma_pow_adds(x, s as nat, k as nat);
        assert(f(k) * (xs * pow(x, k as nat)) == xs * (f(k) * pow(x, k as nat)))
            by (nonlinear_arith);
    }
    lemma_sum_scale(poly_term(f, x), tail, xs, n);
}

/// The entries of even index.
pub open spec fn evens(v: Seq<int>) -> Seq<int> {
    Seq::new(v.len() / 2, |j: int| v[2 * j])
}

/// The entries of odd index.
pub open spec fn odds(v: Seq<int>) -> Seq<int> {
    Seq::new(v.len() / 2, |j: int| v[2 * j + 1])
}

/// A polynomial of even length splits into its even and odd parts:
/// `P(x) == E(x^2) + x * O(x^2)`.
pub proof fn lemma_eval_even_odd(v: Seq<int>, x: int)
    requires
        v.len() % 2 == 0,
    ensures
        eval(v, x) == eval(evens(v), x * x) + x * eval(odds(v), x * x),
{
    let h: int = (v.len() / 2) as int;
    let f = poly_term(coeffs(v), x);
    let fe = poly_term(coeffs(evens(v)), x * x);
    let fo = poly_term(coeffs(odds(v)), x * x);
    let fo_scaled = |j: int| f(2 * j + 1);
    assert forall|j: int| 0 <= j < h implies #[trigger] fe(j) == f(2 * j) by {
        lemma_pow_double(x, j as nat);
    }
    assert forall|j: int| 0 <= j < h implies #[trigger] fo_scaled(j) == x * fo(j) by {
        lemma_pow_double(x, j as nat);
        lemma_pow_succ(x, (2 * j) as nat);
        let c: int = v[2 * j + 1];
        let q: int = pow(x * x, j as nat);
        assert(c * (x * q) == x * (c * q)) by (nonlinear_arith);
    }
    lemma_sum_even_odd(f, fe, fo_scaled, h);
    lemma_sum_scale(fo, fo_scaled, x, h);
}

/// The terms `a_i * b_(k-i)` of the coefficient of `X^k` in a product.
pub open spec fn conv_term(a: Seq<int>, b: Seq<int>, k: int) -> spec_fn(int) -> int {
    |i: int| coeff(a, i) * coeff(b, k - i)
}

/// The coefficient of `X^k` in the product of `a` and `b`.
pub open spec fn conv(a: Seq<int>, b: Seq<int>, k: int) -> int {
    sum(conv_term(a, b, k), a.len() as int)
}

/// The coefficients of the product of `a` and `b`, as a function of the
/// degree.
pub open spec fn conv_fn(a: Seq<int>, b: Seq<int>) -> spec_fn(int) -> int {
    |k: int| conv(a, b, k)
}

/// The product has no coefficient below 0 or from `len(a) + len(b) - 1`
/// on.
pub proof fn lemma_conv_support(a: Seq<int>, b: Seq<int>, k: int)
    requires
        k < 0 || k >= a.len() + b.len() - 1,
    ensures
        conv(a, b, k) == 0,
{
    assert forall|i: int| 0 <= i < a.len() implies #[trigger] conv_term(a, b, k)(i) == 0 by {
        assert(coeff(b, k - i) == 0);
        assert(coeff(a, i) * 0 == 0);
    }
    lemma_sum_zero(conv_term(a, b, k), a.len() as int);
}

/// The value of a product is the product of the values.
pub proof fn lemma_eval_conv(a: Seq<int>, b: Seq<int>, x: int, n: int)
    requires
        n >= a.len() + b.len(),
    ensures
        eval_fn(conv_fn(a, b), x, n) == eval(a, x) * eval(b, x),
    decreases a.len(),
{
    if a.len() == 0 {
        assert forall|k: int| 0 <= k < n implies #[trigger] poly_term(conv_fn(a, b), x)(k)
            == 0 by {
            assert(conv(a, b, k) == 0);
            assert(0 * pow(x, k as nat) == 0);
        }
        lemma_sum_zero(poly_term(conv_fn(a, b), x), n);
        assert(0 * eval(b, x) == 0);
    } else {
        let a1: Seq<int> = a.drop_last();
        let s: int = a1.len() as int;
        let c: int = a.last();
        lemma_eval_conv(a1, b, x, n);
        // conv(a, b, k) == conv(a1, b, k) + c * coeff(b, k - s)
        let shifted = |k: int| coeff(b, k - s);
        let scaled = |k: int| c * shifted(k);
        assert forall|k: int| 0 <= k < n implies #[trigger] conv_fn(a, b)(k) == conv_fn(a1, b)(k)
            + scaled(k) by {
            assert forall|i: int| 0 <= i < s implies #[trigger] conv_term(a, b, k)(i)
                == conv_term(a1, b, k)(i) by {}
            lemma_sum_ext(conv_term(a, b, k), conv_term(a1, b, k), s);
            assert(conv(a, b, k) == sum(conv_term(a, b, k), s) + conv_term(a, b, k)(s));
        }
        lemma_eval_fn_add(conv_fn(a1, b), scaled, conv_fn(a, b), x, n);
        lemma_eval_fn_scale(shifted, scaled, c, x, n);
        // the shifted copy of b has value x^s * b(x)
        assert forall|k: int| 0 <= k < n - s implies #[trigger] shifted(s + k) == coeffs(b)(
            k,
        ) by {}
        lemma_eval_fn_shift(coeffs(b), shifted, s, x, n - s);
        assert forall|k: int| b.len() <= k < n - s implies #[trigger] coeffs(b)(k) == 0 by {}
        lemma_eval_fn_extend(coeffs(b), x, b.len() as int, n - s);
        // a(x) == a1(x) + c * x^s
        lemma_eval_push(a1, c, x);
        assert(a1.push(c) =~= a);
        let xs: int = pow(x, s as nat);
        let eb: int = eval(b, x);
        let ea1: int = eval(a1, x);
        assert(ea1 * eb + c * (xs * eb) == (ea1 + c * xs) * eb) by (nonlinear_arith);
    }
}

/// Appending a coefficient adds one term.
pub proof fn lemma_eval_push(c: Seq<int>, v: int, x: int)
    ensures
        eval(c.push(v), x) == eval(c, x) + v * pow(x, c.len()),
{
    let d: Seq<int> = c.push(v);
    assert forall|k: int| 0 <= k < c.len() implies #[trigger] poly_term(coeffs(d), x)(k)
        == poly_term(coeffs(c), x)(k) by {}
    lemma_sum_ext(poly_term(coeffs(d), x), poly_term(coeffs(c), x), c.len() as int);
    assert(eval(d, x) == sum(poly_term(coeffs(d), x), c.len() as int) + poly_term(coeffs(d), x)(
        c.len() as int,
    ));
}

} // verus!
