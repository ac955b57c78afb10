//! The polynomial that results when polynomials are put in the place of
//! the variables of a multivariate polynomial, as `fast_evaluate_symbolic`
//! computes it.

use vstd::prelude::*;
use vstd::arithmetic::div_mod::*;
use vstd::arithmetic::power::*;
use crate::coset_spec::{is_product, lemma_product_value};
use crate::interpolation_spec::lemma_poly_sum_value;
use crate::modular::{lemma_cong_add, lemma_cong_mul, lemma_cong_pow, lemma_pow_succ};
use crate::multivariate::{monomial_value, Terms};
use crate::poly_spec::{coeff, conv, eval, feval, lemma_eval_small};
use crate::polynomial::poly_sum;
use crate::prime::modulus;
use crate::products::{fast_product, lemma_fast_product_is_product, product_is_exact};
use crate::sums::sum;

verus! {

/// The power `c^e`, by `e` products with `c` from the constant 1 on, each
/// as `fast_multiply` computes it.
#[verifier::opaque]
pub open spec fn fast_power(c: Seq<int>, e: nat) -> Option<Seq<int>>
    decreases e,
{
    if e == 0 {
        Some(seq![1int])
    } else {
        match fast_power(c, (e - 1) as nat) {
            Some(q) => fast_product(q, c),
            None => None,
        }
    }
}

/// Term `t` of `m` with the first `n` variables replaced: the
/// coefficient, multiplied in turn by the power of each of the first `n`
/// polynomials of `point` that the term asks for.
#[verifier::opaque]
pub open spec fn symbolic_term(m: Terms, point: Seq<Seq<int>>, t: int, n: nat) -> Option<Seq<int>>
    decreases n,
{
    if n == 0 {
        Some(seq![m.coefficients[t]])
    } else {
        match symbolic_term(m, point, t, (n - 1) as nat) {
            Some(product) => match fast_power(point[n - 1], m.powers[t][n - 1] as nat) {
                Some(power) => fast_product(product, power),
                None => None,
            },
            None => None,
        }
    }
}

/// The sum of the first `count` terms of `m` with their variables
/// replaced by the polynomials of `point`.
pub open spec fn symbolic_sum(m: Terms, point: Seq<Seq<int>>, count: nat) -> Option<Seq<int>>
    decreases count,
{
    if count == 0 {
        Some(Seq::empty())
    } else {
        match symbolic_sum(m, point, (count - 1) as nat) {
            Some(accumulator) => match symbolic_term(
                m,
                point,
                count - 1,
                m.powers[count - 1].len(),
            ) {
                Some(product) => Some(poly_sum(accumulator, product)),
                None => None,
            },
            None => None,
        }
    }
}

/// What `fast_evaluate_symbolic` returns: `None` where a term mentions a
/// variable for which `point` holds no polynomial, or a product on the
/// way cannot be computed.
pub open spec fn symbolic_value(m: Terms, point: Seq<Seq<int>>) -> Option<Seq<int>> {
    if m.fits(point.len() as int) {
        symbolic_sum(m, point, m.count() as nat)
    } else {
        None
    }
}

/// Whether every product on the way to the power `c^e` is exact.
#[verifier::opaque]
pub open spec fn power_is_exact(c: Seq<int>, e: nat) -> bool
    decreases e,
{
    e == 0 || (power_is_exact(c, (e - 1) as nat) && product_is_exact(
        fast_power(c, (e - 1) as nat)->0,
        c,
    ))
}

/// Whether every product on the way to term `t` with its first `n`
/// variables replaced is exact.
#[verifier::opaque]
pub open spec fn term_is_exact(m: Terms, point: Seq<Seq<int>>, t: int, n: nat) -> bool
    decreases n,
{
    n == 0 || {
        &&& term_is_exact(m, point, t, (n - 1) as nat)
        &&& power_is_exact(point[n - 1], m.powers[t][n - 1] as nat)
        &&& product_is_exact(
            symbolic_term(m, point, t, (n - 1) as nat)->0,
            fast_power(point[n - 1], m.powers[t][n - 1] as nat)->0,
        )
    }
}

/// Whether every product that `fast_evaluate_symbolic` forms is exact.
pub open spec fn substitution_is_exact(m: Terms, point: Seq<Seq<int>>) -> bool {
    forall|t: int| 0 <= t < m.count() ==> #[trigger] term_is_exact(m, point, t, m.powers[t].len())
}

/// The values at `x` of the polynomials of `point`.
pub open spec fn values_at(point: Seq<Seq<int>>, x: int) -> Seq<int> {
    Seq::new(point.len(), |j: int| feval(point[j], x))
}

/// The value of an exact product as `fast_multiply` computes it.
pub proof fn lemma_exact_product_value(z: Seq<int>, a: Seq<int>, b: Seq<int>, x: int)
    requires
        fast_product(a, b) == Some(z),
        product_is_exact(a, b),
    ensures
        feval(z, x) == (feval(a, x) * feval(b, x)) % modulus(),
{
    let p: int = modulus();
    assert forall|k: int| coeff(z, k) % p == #[trigger] conv(a, b, k) % p by {
        lemma_fast_product_is_product(a, b, k);
        lemma_mod_twice(conv(a, b, k), p);
    }
    assert(is_product(z, a, b));
    lemma_product_value(z, a, b, x);
}

/// The value of a power whose products are exact is the power of the
/// value.
pub proof fn lemma_fast_power_value(c: Seq<int>, e: nat, x: int)
    requires
        fast_power(c, e) is Some,
        power_is_exact(c, e),
    ensures
        feval(fast_power(c, e)->0, x) == pow(feval(c, x), e) % modulus(),
    decreases e,
{
    reveal(fast_power);
    reveal(power_is_exact);
    let p: int = modulus();
    if e == 0 {
        lemma_eval_small(seq![1int], x);
        lemma_pow0(feval(c, x));
    } else {
        let q: Seq<int> = fast_power(c, (e - 1) as nat)->0;
        lemma_fast_power_value(c, (e - 1) as nat, x);
        lemma_exact_product_value(fast_power(c, e)->0, q, c, x);
        lemma_pow_succ(feval(c, x), (e - 1) as nat);
        lemma_cong_mul(feval(q, x), pow(feval(c, x), (e - 1) as nat), feval(c, x), feval(c, x), p);
    }
}

/// The value of a term whose products are exact is the coefficient times
/// the powers of the values.
pub proof fn lemma_symbolic_term_value(m: Terms, point: Seq<Seq<int>>, t: int, n: nat, x: int)
    requires
        n <= point.len(),
        symbolic_term(m, point, t, n) is Some,
        term_is_exact(m, point, t, n),
    ensures
        feval(symbolic_term(m, point, t, n)->0, x) == (m.coefficients[t] * monomial_value(
            m.powers[t],
            values_at(point, x),
            n as int,
        )) % modulus(),
    decreases n,
{
    reveal(symbolic_term);
    reveal(term_is_exact);
    let p: int = modulus();
    let c: int = m.coefficients[t];
    if n == 0 {
        lemma_eval_small(seq![c], x);
        assert(c * 1 == c);
    } else {
        let k: nat = (n - 1) as nat;
        let e: nat = m.powers[t][n - 1] as nat;
        let before: Seq<int> = symbolic_term(m, point, t, k)->0;
        let power: Seq<int> = fast_power(point[n - 1], e)->0;
        lemma_symbolic_term_value(m, point, t, k, x);
        lemma_fast_power_value(point[n - 1], e, x);
        lemma_exact_product_value(symbolic_term(m, point, t, n)->0, before, power, x);
        let mv: int = monomial_value(m.powers[t], values_at(point, x), k as int);
        let pv: int = pow(values_at(point, x)[n - 1], e);
        lemma_cong_mul(feval(before, x), c * mv, feval(power, x), pv, p);
        assert((c * mv) * pv == c * (mv * pv)) by (nonlinear_arith);
    }
}

/// The value of the sum of the first `count` terms.
pub proof fn lemma_symbolic_sum_value(m: Terms, point: Seq<Seq<int>>, count: nat, x: int)
    requires
        count <= m.count(),
        m.fits(point.len() as int),
        symbolic_sum(m, point, count) is Some,
        substitution_is_exact(m, point),
    ensures
        feval(symbolic_sum(m, point, count)->0, x) == sum(
            m.term_value(values_at(point, x)),
            count as int,
        ) % modulus(),
    decreases count,
{
    let p: int = modulus();
    if count == 0 {
        lemma_eval_small(Seq::<int>::empty(), x);
    } else {
        let t: int = count - 1;
        let accumulator: Seq<int> = symbolic_sum(m, point, t as nat)->0;
        let product: Seq<int> = symbolic_term(m, point, t, m.powers[t].len())->0;
        lemma_symbolic_sum_value(m, point, t as nat, x);
        assert(term_is_exact(m, point, t, m.powers[t].len()));
        assert(m.powers[t].len() <= point.len());
        lemma_symbolic_term_value(m, point, t, m.powers[t].len(), x);
        lemma_poly_sum_value(accumulator, product, x);
        lemma_cong_add(
            feval(accumulator, x),
            sum(m.term_value(values_at(point, x)), t),
            feval(product, x),
            m.term_value(values_at(point, x))(t),
            p,
        );
    }
}

/// Where every product on the way is exact, the polynomial that
/// `fast_evaluate_symbolic` returns has, at every `x`, the value of the
/// multivariate polynomial at the values that the polynomials of `point`
/// have at `x`.
pub proof fn lemma_symbolic_value(m: Terms, point: Seq<Seq<int>>, x: int)
    requires
        symbolic_value(m, point) is Some,
        substitution_is_exact(m, point),
    ensures
        feval(symbolic_value(m, point)->0, x) == m.feval(values_at(point, x)),
{
    lemma_symbolic_sum_value(m, point, m.count() as nat, x);
}

} // verus!
