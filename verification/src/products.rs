//! The product that the transform computes: a cyclic convolution, which is
//! the product of the polynomials where the transform is long enough.

use vstd::prelude::*;
use vstd::arithmetic::div_mod::*;
use vstd::arithmetic::mul::*;
use vstd::arithmetic::power::*;
use vstd::arithmetic::power2::*;
use crate::modular::{lemma_cong_add, lemma_cong_mul, lemma_cong_pow};
use crate::poly_spec::{
    coeff, coeffs, conv, conv_fn, conv_term, degree, eval, eval_fn, feval, lemma_conv_support,
    lemma_degree, lemma_eval_conv, lemma_eval_fn_add, lemma_eval_fn_cong, lemma_eval_fn_extend,
    poly_term,
};
use crate::polynomial::poly_product;
use crate::powers_of_two::{is_pow2, lemma_next_pow2_properties, next_pow2};
use crate::prime::modulus;
use crate::sums::{
    lemma_sum_cong, lemma_sum_ext, lemma_sum_extend, lemma_sum_split, lemma_sum_zero, sum,
};
use crate::transform_spec::dft;

verus! {

/// The coefficients up to the degree: the sequence without its trailing
/// zeros.
pub open spec fn trimmed(a: Seq<int>) -> Seq<int> {
    a.take(degree(a) + 1)
}

/// The first `n` coefficients of `a`, with zeros where it has none.
pub open spec fn padded(a: Seq<int>, n: nat) -> Seq<int> {
    Seq::new(n, |k: int| coeff(a, k))
}

/// The cyclic convolution of length `n` of two polynomials whose degrees
/// add up to at most `n`: coefficient `k` of the product, plus coefficient
/// `k + n`, which wraps around.
pub open spec fn cyclic_product(a: Seq<int>, b: Seq<int>, n: nat) -> Seq<int> {
    Seq::new(n, |k: int| (conv(a, b, k) + conv(a, b, k + n)) % modulus())
}

/// What `fast_multiply` computes, or `None` where it gives up.
///
/// The product of two polynomials, one of them zero, is empty. Where the
/// degrees add up to less than 8, it is the direct product of the
/// operands without their trailing zeros. Otherwise it is the cyclic
/// convolution of length `n`, the sum of the degrees rounded up to a power
/// of two; there is none where `n` exceeds `2^32` or the machine word, or
/// an operand has more than `n` coefficients.
pub open spec fn fast_product(a: Seq<int>, b: Seq<int>) -> Option<Seq<int>> {
    if degree(a) < 0 || degree(b) < 0 {
        Some(Seq::empty())
    } else if degree(a) + degree(b) < 8 {
        Some(poly_product(trimmed(a), trimmed(b)))
    } else {
        let n: int = next_pow2(degree(a) + degree(b));
        if n > pow2(32) || n > usize::MAX || degree(a) >= n || degree(b) >= n {
            None
        } else {
            Some(cyclic_product(a, b, n as nat))
        }
    }
}

/// Whether the transform is long enough for the product of `a` and `b`:
/// it is not where the degrees add up to a power of two from 8 on.
pub open spec fn product_is_exact(a: Seq<int>, b: Seq<int>) -> bool {
    !(degree(a) >= 0 && degree(b) >= 0 && degree(a) + degree(b) >= 8 && is_pow2(
        degree(a) + degree(b),
    ))
}

/// The product has no coefficient above the sum of the degrees.
pub proof fn lemma_conv_above_degree(a: Seq<int>, b: Seq<int>, k: int)
    requires
        k > degree(a) + degree(b) || degree(a) < 0 || degree(b) < 0,
    ensures
        conv(a, b, k) == 0,
{
    lemma_degree(a);
    lemma_degree(b);
    assert forall|i: int| 0 <= i < a.len() implies #[trigger] conv_term(a, b, k)(i) == 0 by {
        if i > degree(a) {
            assert(coeff(a, i) == 0);
            assert(0 * coeff(b, k - i) == 0);
        } else {
            assert(coeff(b, k - i) == 0);
            assert(coeff(a, i) * 0 == 0);
        }
    }
    lemma_sum_zero(conv_term(a, b, k), a.len() as int);
}

/// The leading coefficient of the product is the product of the leading
/// coefficients.
pub proof fn lemma_conv_at_degree(a: Seq<int>, b: Seq<int>)
    requires
        degree(a) >= 0,
        degree(b) >= 0,
    ensures
        conv(a, b, degree(a) + degree(b)) == a[degree(a)] * b[degree(b)],
{
    lemma_degree(a);
    lemma_degree(b);
    let k: int = degree(a) + degree(b);
    assert forall|i: int| 0 <= i < a.len() && i != degree(a) implies #[trigger] conv_term(
        a,
        b,
        k,
    )(i) == 0 by {
        if i > degree(a) {
            assert(coeff(a, i) == 0);
            assert(0 * coeff(b, k - i) == 0);
        } else {
            assert(coeff(b, k - i) == 0);
            assert(coeff(a, i) * 0 == 0);
        }
    }
    crate::sums::lemma_sum_single(conv_term(a, b, k), a.len() as int, degree(a));
}

/// The product depends on the coefficients only, not on the lengths of
/// the sequences that hold them.
pub proof fn lemma_conv_same_coeffs(a: Seq<int>, a2: Seq<int>, b: Seq<int>, b2: Seq<int>, k: int)
    requires
        forall|j: int| coeff(a, j) == coeff(a2, j),
        forall|j: int| coeff(b, j) == coeff(b2, j),
    ensures
        conv(a, b, k) == conv(a2, b2, k),
{
    let n: int = if a.len() >= a2.len() {
        a.len() as int
    } else {
        a2.len() as int
    };
    assert forall|i: int| a.len() <= i < n implies #[trigger] conv_term(a, b, k)(i) == 0 by {
        assert(0 * coeff(b, k - i) == 0);
    }
    assert forall|i: int| a2.len() <= i < n implies #[trigger] conv_term(a2, b2, k)(i) == 0 by {
        assert(0 * coeff(b2, k - i) == 0);
    }
    lemma_sum_extend(conv_term(a, b, k), a.len() as int, n);
    lemma_sum_extend(conv_term(a2, b2, k), a2.len() as int, n);
    assert forall|i: int| 0 <= i < n implies #[trigger] conv_term(a, b, k)(i) == conv_term(
        a2,
        b2,
        k,
    )(i) by {
        assert(coeff(a, i) == coeff(a2, i));
        assert(coeff(b, k - i) == coeff(b2, k - i));
    }
    lemma_sum_ext(conv_term(a, b, k), conv_term(a2, b2, k), n);
}

/// Padding a polynomial of degree below `n` to length `n` keeps its
/// coefficients.
pub proof fn lemma_padded_coeffs(a: Seq<int>, n: nat)
    requires
        degree(a) < n,
    ensures
        forall|j: int| coeff(padded(a, n), j) == coeff(a, j),
{
    lemma_degree(a);
    assert forall|j: int| coeff(padded(a, n), j) == coeff(a, j) by {
        if j >= n {
            assert(coeff(a, j) == 0);
        }
    }
}

/// Trimming keeps the coefficients.
pub proof fn lemma_trimmed_coeffs(a: Seq<int>)
    ensures
        forall|j: int| coeff(trimmed(a), j) == coeff(a, j),
        degree(trimmed(a)) == degree(a),
        trimmed(a).len() == degree(a) + 1,
{
    lemma_degree(a);
    assert forall|j: int| coeff(trimmed(a), j) == coeff(a, j) by {
        if j > degree(a) {
            assert(coeff(a, j) == 0);
        }
    }
    crate::poly_spec::lemma_degree_unique(trimmed(a), degree(a));
}

/// The coefficients of a polynomial folded to length `n`: coefficient `k`
/// plus coefficient `k + n`.
pub open spec fn folded(g: spec_fn(int) -> int, n: int) -> spec_fn(int) -> int {
    |k: int| g(k) + g(k + n)
}

/// At a point whose `n`-th power is 1, a polynomial of `2n` coefficients
/// has the value of its fold to length `n`.
pub proof fn lemma_eval_fold(g: spec_fn(int) -> int, x: int, n: nat, m: int)
    requires
        m > 0,
        pow(x, n) % m == 1int % m,
    ensures
        eval_fn(g, x, 2 * n as int) % m == eval_fn(folded(g, n as int), x, n as int) % m,
{
    let upper = |k: int| g(k + n);
    let tail = |k: int| poly_term(g, x)(n + k);
    lemma_sum_split(poly_term(g, x), tail, n as int, n as int);
    // the tail is congruent to the value of the upper half
    assert forall|k: int| 0 <= k < n implies #[trigger] tail(k) % m == poly_term(upper, x)(k)
        % m by {
        lemma_pow_adds(x, n, k as nat);
        lemma_cong_mul(pow(x, n), 1, pow(x, k as nat), pow(x, k as nat), m);
        assert(1 * pow(x, k as nat) == pow(x, k as nat));
        lemma_cong_mul(g(n + k), g(n + k), pow(x, (n + k) as nat), pow(x, k as nat), m);
    }
    lemma_sum_cong(tail, poly_term(upper, x), n as int, m);
    lemma_eval_fn_add(g, upper, folded(g, n as int), x, n as int);
    lemma_cong_add(
        eval_fn(g, x, n as int),
        eval_fn(g, x, n as int),
        sum(tail, n as int),
        eval_fn(upper, x, n as int),
        m,
    );
}

/// At a point whose `n`-th power is 1, the cyclic convolution of length
/// `n` has the value of the product.
pub proof fn lemma_cyclic_product_value(a: Seq<int>, b: Seq<int>, n: nat, x: int)
    requires
        degree(a) + degree(b) < 2 * n,
        pow(x, n) % modulus() == 1,
    ensures
        feval(cyclic_product(a, b, n), x) == (feval(a, x) * feval(b, x)) % modulus(),
{
    let p: int = modulus();
    let c: Seq<int> = cyclic_product(a, b, n);
    let g = conv_fn(a, b);
    let big: int = if 2 * n >= a.len() + b.len() {
        2 * n as int
    } else {
        (a.len() + b.len()) as int
    };
    // the value of the product, from its first 2n coefficients
    lemma_eval_conv(a, b, x, big);
    assert forall|k: int| 2 * n <= k < big implies #[trigger] g(k) == 0 by {
        lemma_conv_above_degree(a, b, k);
    }
    lemma_eval_fn_extend(g, x, 2 * n as int, big);
    lemma_small_mod(1, p as nat);
    lemma_eval_fold(g, x, n, p);
    assert forall|k: int| 0 <= k < n implies #[trigger] coeffs(c)(k) % p == folded(g, n as int)(
        k,
    ) % p by {
        lemma_mod_twice(conv(a, b, k) + conv(a, b, k + n), p);
    }
    lemma_eval_fn_cong(coeffs(c), folded(g, n as int), x, x, n as int, p);
    lemma_mul_mod_noop_general(eval(a, x), eval(b, x), p);
}

/// The transform of the cyclic convolution is the entrywise product of
/// the transforms.
pub proof fn lemma_cyclic_product_transform(a: Seq<int>, b: Seq<int>, n: nat, w: int, i: int)
    requires
        degree(a) + degree(b) < 2 * n,
        pow(w, n) % modulus() == 1,
        0 <= i < n,
    ensures
        dft(cyclic_product(a, b, n), w)[i] == (feval(a, pow(w, i as nat)) * feval(
            b,
            pow(w, i as nat),
        )) % modulus(),
{
    let p: int = modulus();
    let x: int = pow(w, i as nat);
    lemma_pow_multiplies(w, i as nat, n);
    lemma_pow_multiplies(w, n, i as nat);
    lemma_mul_is_commutative(i, n as int);
    lemma_small_mod(1, p as nat);
    lemma_cong_pow(pow(w, n), 1, i as nat, p);
    lemma1_pow(i as nat);
    lemma_cyclic_product_value(a, b, n, x);
}

/// Where the transform is long enough and not too long, `fast_multiply`
/// succeeds: it does for a zero operand, for degrees that add up to less
/// than 8, and for degrees whose sum, rounded up to a power of two, is at
/// most `2^32` and fits a machine word.
pub proof fn lemma_fast_product_exists(a: Seq<int>, b: Seq<int>)
    requires
        product_is_exact(a, b),
        degree(a) >= 0 && degree(b) >= 0 && degree(a) + degree(b) >= 8 ==> next_pow2(
            degree(a) + degree(b),
        ) <= pow2(32) && next_pow2(degree(a) + degree(b)) <= usize::MAX,
    ensures
        fast_product(a, b) is Some,
{
    if degree(a) >= 0 && degree(b) >= 0 && degree(a) + degree(b) >= 8 {
        lemma_next_pow2_properties(degree(a) + degree(b));
    }
}

/// Where the transform is long enough, `fast_multiply` gives the product:
/// every coefficient of its result is that of the direct convolution.
pub proof fn lemma_fast_product_is_product(a: Seq<int>, b: Seq<int>, k: int)
    requires
        fast_product(a, b) is Some,
        product_is_exact(a, b),
    ensures
        coeff(fast_product(a, b)->0, k) == conv(a, b, k) % modulus(),
{
    let p: int = modulus();
    let c: Seq<int> = fast_product(a, b)->0;
    lemma_small_mod(0, p as nat);
    if degree(a) < 0 || degree(b) < 0 {
        lemma_conv_above_degree(a, b, k);
    } else if degree(a) + degree(b) < 8 {
        lemma_trimmed_coeffs(a);
        lemma_trimmed_coeffs(b);
        lemma_conv_same_coeffs(trimmed(a), a, trimmed(b), b, k);
        if !(0 <= k < c.len()) {
            if k >= 0 {
                lemma_conv_above_degree(a, b, k);
            } else {
                lemma_conv_support(a, b, k);
            }
        }
    } else {
        let d: int = degree(a) + degree(b);
        let n: int = next_pow2(d);
        lemma_next_pow2_properties(d);
        assert(n > d);
        if 0 <= k < n {
            lemma_conv_above_degree(a, b, k + n);
        } else if k >= n {
            lemma_conv_above_degree(a, b, k);
        } else {
            lemma_conv_support(a, b, k);
        }
    }
}

} // verus!
