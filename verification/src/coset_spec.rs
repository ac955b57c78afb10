//! Evaluation and division of polynomials over a coset of the roots of
//! unity, as mathematical functions.

use vstd::prelude::*;
use vstd::arithmetic::div_mod::*;
use vstd::arithmetic::power::*;
use vstd::arithmetic::power2::*;
use crate::division::{is_division, lemma_division_is, quotient};
use crate::field::root_of_unity;
use crate::modular::{lemma_cong_mul, lemma_cong_pow};
use crate::poly_spec::{
    coeff, coeffs, conv, conv_fn, degree, eval, feval, lemma_degree, lemma_eval_conv,
    lemma_eval_fn_cong, lemma_eval_fn_extend, lemma_eval_same_coeffs, poly_term,
};
use crate::polynomial::scaled;
use crate::powers_of_two::{is_pow2, log2, next_pow2};
use crate::prime::{finv, lemma_finv, lemma_no_zero_divisors, modulus};
use crate::products::{lemma_conv_above_degree, lemma_conv_at_degree, lemma_padded_coeffs, padded};
use crate::prover::ProvingError;
use crate::sums::lemma_sum_cong;
use crate::transform_spec::{
    all_residues, forward_transform, inverse_transform, is_primitive_root, lemma_round_trip,
};

verus! {

/// Point `i` of the coset by `offset` of the `2^log_order`-th roots of
/// unity.
pub open spec fn coset_point(offset: int, log_order: nat, i: int) -> int {
    offset * pow(root_of_unity(log_order), i as nat)
}

/// The values of the polynomial `c` on the coset by `offset` of the `n`-th
/// roots of unity.
pub open spec fn coset_values(c: Seq<int>, offset: int, n: nat) -> Seq<int> {
    Seq::new(n, |i: int| feval(c, coset_point(offset, log2(n as int), i)))
}

/// The value of `P(s * X)` at `x` is that of `P` at `s * x`.
pub proof fn lemma_scaled_value(c: Seq<int>, s: int, x: int)
    ensures
        feval(scaled(c, s), x) == feval(c, s * x),
{
    let p: int = modulus();
    let d: Seq<int> = scaled(c, s);
    assert forall|j: int| 0 <= j < c.len() implies #[trigger] poly_term(coeffs(d), x)(j) % p
        == poly_term(coeffs(c), s * x)(j) % p by {
        let sj: int = pow(s, j as nat);
        let xj: int = pow(x, j as nat);
        lemma_pow_distributes(s, x, j as nat);
        lemma_mul_mod_noop_general(c[j] * sj, xj, p);
        assert((c[j] * sj) * xj == c[j] * (sj * xj)) by (nonlinear_arith);
    }
    lemma_sum_cong(poly_term(coeffs(d), x), poly_term(coeffs(c), s * x), c.len() as int, p);
}

/// The transform of the scaled and padded coefficients gives the values
/// on the coset.
pub proof fn lemma_coset_values(c: Seq<int>, offset: int, n: nat)
    requires
        degree(c) < n,
    ensures
        forward_transform(padded(scaled(c, offset), n)) == coset_values(c, offset, n),
{
    let w: int = root_of_unity(log2(n as int));
    let sc: Seq<int> = scaled(c, offset);
    let v: Seq<int> = padded(sc, n);
    assert forall|i: int| 0 <= i < n implies forward_transform(v)[i] == coset_values(
        c,
        offset,
        n,
    )[i] by {
        let x: int = pow(w, i as nat);
        lemma_scaled_degree(c, offset, n);
        lemma_padded_coeffs(sc, n);
        lemma_eval_same_coeffs(v, sc, x);
        lemma_scaled_value(c, offset, x);
    }
    assert(forward_transform(v) =~= coset_values(c, offset, n));
}

/// Scaling does not raise the degree.
pub proof fn lemma_scaled_degree(c: Seq<int>, s: int, n: nat)
    requires
        degree(c) < n,
    ensures
        degree(scaled(c, s)) < n,
{
    lemma_degree(c);
    lemma_degree(scaled(c, s));
    let d: int = degree(scaled(c, s));
    if d >= n {
        assert(coeff(c, d) == 0);
        assert(0 * pow(s, d as nat) == 0);
        assert(scaled(c, s)[d] == 0);
    }
}

/// The ratios of the values of `a` and `b` on the coset by `offset` of the
/// `n`-th roots of unity.
pub open spec fn coset_ratios(a: Seq<int>, b: Seq<int>, offset: int, n: nat) -> Seq<int> {
    Seq::new(
        n,
        |i: int|
            (coset_values(a, offset, n)[i] * finv(coset_values(b, offset, n)[i])) % modulus(),
    )
}

/// The polynomial of fewer than `n` coefficients whose values on the
/// coset are the ratios of the values of `a` and `b`.
pub open spec fn coset_quotient(a: Seq<int>, b: Seq<int>, offset: int, n: nat) -> Seq<int> {
    scaled(inverse_transform(coset_ratios(a, b, offset, n)), finv(offset))
}

/// Whether `b` vanishes somewhere on the coset.
pub open spec fn vanishes_on_coset(b: Seq<int>, offset: int, n: nat) -> bool {
    exists|i: int| 0 <= i < n && #[trigger] coset_values(b, offset, n)[i] == 0
}

/// What `fast_coset_divide` returns.
///
/// The root must be a primitive root of unity of the given order and the
/// divisor not zero. The quotient of zero is zero. Else the divisor must
/// not have the larger degree. Below degree 8 the quotient is that of the
/// division with remainder. From degree 8 on the order must be a power of
/// two up to `2^32` and exceed the degree; the quotient then is the
/// polynomial that takes the ratios of the values of the operands on the
/// coset of the roots of unity whose order is the least power of two
/// above the degree, unless the offset is zero or the divisor vanishes on
/// that coset.
pub open spec fn coset_division(a: Seq<int>, b: Seq<int>, offset: int, root: int, order: nat)
    -> Result<Seq<int>, ProvingError> {
    if !is_primitive_root(root, order) || degree(b) < 0 {
        Err(ProvingError::InvalidInput)
    } else if degree(a) < 0 {
        Ok(Seq::empty())
    } else if degree(b) > degree(a) {
        Err(ProvingError::InvalidInput)
    } else if degree(a) < 8 {
        Ok(quotient(a, b))
    } else if !(is_pow2(order as int) && order <= pow2(32)) || order <= degree(a) {
        Err(ProvingError::InvalidInput)
    } else {
        let n: nat = next_pow2(degree(a) + 1) as nat;
        if offset % modulus() == 0 || vanishes_on_coset(b, offset, n) {
            Err(ProvingError::DivisionByZero)
        } else {
            Ok(coset_quotient(a, b, offset, n))
        }
    }
}

/// `a` is the product of `q` and `b` in the field.
pub open spec fn is_product(a: Seq<int>, q: Seq<int>, b: Seq<int>) -> bool {
    forall|k: int| coeff(a, k) % modulus() == #[trigger] conv(q, b, k) % modulus()
}

/// The value of a product is the product of the values.
pub proof fn lemma_product_value(a: Seq<int>, q: Seq<int>, b: Seq<int>, x: int)
    requires
        is_product(a, q, b),
    ensures
        feval(a, x) == (feval(q, x) * feval(b, x)) % modulus(),
{
    let p: int = modulus();
    let n: int = if a.len() >= q.len() + b.len() {
        a.len() as int
    } else {
        (q.len() + b.len()) as int
    };
    lemma_eval_conv(q, b, x, n);
    assert forall|k: int| a.len() <= k < n implies #[trigger] coeffs(a)(k) == 0 by {}
    lemma_eval_fn_extend(coeffs(a), x, a.len() as int, n);
    assert forall|k: int| 0 <= k < n implies #[trigger] coeffs(a)(k) % p == conv_fn(q, b)(k)
        % p by {
        assert(coeff(a, k) % p == conv(q, b, k) % p);
    }
    lemma_eval_fn_cong(coeffs(a), conv_fn(q, b), x, x, n, p);
    lemma_mul_mod_noop_general(eval(q, x), eval(b, x), p);
}

/// The degree of a product is the sum of the degrees.
pub proof fn lemma_product_degree(a: Seq<int>, q: Seq<int>, b: Seq<int>)
    requires
        is_product(a, q, b),
        all_residues(a),
        all_residues(q),
        all_residues(b),
        degree(q) >= 0,
        degree(b) >= 0,
    ensures
        degree(a) == degree(q) + degree(b),
{
    let p: int = modulus();
    let d: int = degree(q) + degree(b);
    lemma_degree(a);
    lemma_degree(q);
    lemma_degree(b);
    lemma_conv_at_degree(q, b);
    assert(coeff(a, d) % p == conv(q, b, d) % p);
    if (q[degree(q)] * b[degree(b)]) % p == 0 {
        lemma_no_zero_divisors(q[degree(q)], b[degree(b)]);
        assert(false);
    }
    assert(coeff(a, d) != 0);
    if degree(a) > d {
        lemma_conv_above_degree(q, b, degree(a));
        assert(coeff(a, degree(a)) % p == conv(q, b, degree(a)) % p);
        assert(false);
    }
    assert(degree(a) >= d) by {
        if degree(a) < d {
            assert(coeff(a, d) == 0);
        }
    }
}

/// Scaling by `s` and then by its inverse gives the polynomial back.
pub proof fn lemma_unscale(c: Seq<int>, s: int, k: int)
    requires
        s % modulus() != 0,
        0 <= k < c.len(),
        0 <= c[k] < modulus(),
    ensures
        scaled(scaled(c, s), finv(s))[k] == c[k],
{
    let p: int = modulus();
    let u: int = finv(s);
    let sk: int = pow(s, k as nat);
    let uk: int = pow(u, k as nat);
    lemma_finv(s);
    lemma_pow_distributes(s, u, k as nat);
    lemma_small_mod(1, p as nat);
    lemma_cong_pow(s * u, 1, k as nat, p);
    lemma1_pow(k as nat);
    lemma_mul_mod_noop_general(c[k] * sk, uk, p);
    assert((c[k] * sk) * uk == c[k] * (sk * uk)) by (nonlinear_arith);
    lemma_cong_mul(c[k], c[k], sk * uk, 1, p);
    assert(c[k] * 1 == c[k]);
    lemma_small_mod(c[k] as nat, p as nat);
}

/// Division on a coset recovers the quotient of an exact division:
/// where `a` is the product of `q` and `b`, every coefficient of what
/// `fast_coset_divide` returns is that of `q`.
pub proof fn lemma_coset_division_is_exact(
    a: Seq<int>,
    q: Seq<int>,
    b: Seq<int>,
    offset: int,
    root: int,
    order: nat,
    k: int,
)
    requires
        all_residues(a),
        all_residues(q),
        all_residues(b),
        is_product(a, q, b),
        coset_division(a, b, offset, root, order) is Ok,
    ensures
        coeff(coset_division(a, b, offset, root, order)->Ok_0, k) == coeff(q, k),
{
    let p: int = modulus();
    let result: Seq<int> = coset_division(a, b, offset, root, order)->Ok_0;
    lemma_degree(a);
    lemma_degree(q);
    lemma_degree(b);
    if degree(q) < 0 {
        // then a is zero too
        assert forall|j: int| coeff(a, j) == 0 by {
            lemma_conv_above_degree(q, b, j);
            assert(coeff(a, j) % p == conv(q, b, j) % p);
        }
        assert(degree(a) < 0) by {
            if degree(a) >= 0 {
                assert(coeff(a, degree(a)) == 0);
            }
        }
        assert(coeff(q, k) == 0);
    } else {
        lemma_product_degree(a, q, b);
        let dq: int = degree(q);
        if degree(a) < 8 {
            // the division with remainder zero
            let qt: Seq<int> = q.take(dq + 1);
            let r: Seq<int> = Seq::new(degree(b) as nat, |j: int| 0int);
            assert forall|j: int|
                (#[trigger] conv(qt, b, j) + coeff(r, j)) % p == coeff(a, j) % p by {
                crate::products::lemma_trimmed_coeffs(q);
                crate::products::lemma_conv_same_coeffs(qt, q, b, b, j);
                assert(coeff(a, j) % p == conv(q, b, j) % p);
            }
            assert(is_division(a, b, qt, r));
            lemma_division_is(a, b, qt, r);
            if k > dq {
                assert(coeff(q, k) == 0);
            }
        } else {
            let n: nat = next_pow2(degree(a) + 1) as nat;
            crate::powers_of_two::lemma_next_pow2_properties(degree(a) + 1);
            let kk: nat = choose|kk: nat| n as int == pow2(kk);
            let ratios: Seq<int> = coset_ratios(a, b, offset, n);
            let target: Seq<int> = padded(scaled(q, offset), n);
            // the ratios are the values of q on the coset
            assert forall|i: int| 0 <= i < n implies ratios[i] == coset_values(q, offset, n)[i] by {
                let x: int = coset_point(offset, log2(n as int), i);
                lemma_product_value(a, q, b, x);
                let vb: int = feval(b, x);
                let vq: int = feval(q, x);
                assert(coset_values(b, offset, n)[i] == vb);
                assert(vb != 0);
                lemma_finv(vb);
                lemma_cong_mul((vq * vb) % p, vq * vb, finv(vb), finv(vb), p);
                assert((vq * vb) * finv(vb) == vq * (vb * finv(vb))) by (nonlinear_arith);
                lemma_small_mod(1, p as nat);
                lemma_cong_mul(vq, vq, vb * finv(vb), 1, p);
                assert(vq * 1 == vq);
            }
            assert(ratios =~= coset_values(q, offset, n));
            assert(degree(q) < n);
            lemma_coset_values(q, offset, n);
            assert(all_residues(target));
            assert(n <= pow2(32)) by {
                let ko: nat = choose|ko: nat| order as int == pow2(ko);
                crate::powers_of_two::lemma_next_pow2_least(degree(a) + 1, ko);
            }
            lemma_round_trip(target);
            if 0 <= k < n {
                if k < q.len() {
                    lemma_unscale(q, offset, k);
                    assert(target[k] == scaled(q, offset)[k]);
                    lemma_scaled_twice_padded(q, offset, n, k);
                } else {
                    assert(target[k] == 0);
                    assert(0 * pow(finv(offset), k as nat) == 0);
                }
            } else if k >= n {
                assert(coeff(q, k) == 0);
            }
        }
    }
}

/// Division on a coset succeeds and recovers the quotient of an exact
/// division: where `a` is the product of `q` and `b`, the root is a
/// primitive root of unity of the given order, `b` is not zero and, from
/// degree 8 on, the order is a power of two up to `2^32` above the degree
/// of `a`, the offset is not zero and `b` does not vanish on the coset,
/// `fast_coset_divide` returns a polynomial whose every coefficient is
/// that of `q`.
pub proof fn lemma_coset_division_recovers_quotient(
    a: Seq<int>,
    q: Seq<int>,
    b: Seq<int>,
    offset: int,
    root: int,
    order: nat,
    k: int,
)
    requires
        all_residues(a),
        all_residues(q),
        all_residues(b),
        is_product(a, q, b),
        degree(b) >= 0,
        is_primitive_root(root, order),
        degree(a) >= 8 ==> {
            &&& is_pow2(order as int)
            &&& degree(a) < order <= pow2(32)
            &&& offset % modulus() != 0
            &&& !vanishes_on_coset(b, offset, next_pow2(degree(a) + 1) as nat)
        },
    ensures
        coset_division(a, b, offset, root, order) is Ok,
        coeff(coset_division(a, b, offset, root, order)->Ok_0, k) == coeff(q, k),
{
    let p: int = modulus();
    lemma_degree(a);
    lemma_degree(q);
    if degree(a) >= 0 {
        // q is not zero, and the degree of the product is the sum
        if degree(q) < 0 {
            lemma_conv_above_degree(q, b, degree(a));
            assert(coeff(a, degree(a)) % p == conv(q, b, degree(a)) % p);
            assert(false);
        }
        lemma_product_degree(a, q, b);
    }
    lemma_coset_division_is_exact(a, q, b, offset, root, order, k);
}

/// Scaling a padded polynomial scales the coefficients that it holds.
proof fn lemma_scaled_twice_padded(q: Seq<int>, s: int, n: nat, k: int)
    requires
        0 <= k < n,
        k < q.len(),
    ensures
        scaled(padded(scaled(q, s), n), finv(s))[k] == scaled(scaled(q, s), finv(s))[k],
{
}

} // verus!
