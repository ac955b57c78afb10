//! Evaluation on a domain and interpolation, as `fast_evaluate_domain` and
//! `fast_interpolate` compute them, and the proofs that they evaluate and
//! interpolate where the products on the way are exact.

use vstd::prelude::*;
use vstd::arithmetic::div_mod::*;
use crate::coset_spec::lemma_product_value;
use crate::division::{is_division, lemma_division_exists, remainder};
use crate::modular::{lemma_cong_add, lemma_cong_mul};
use vstd::arithmetic::power2::*;
use crate::poly_spec::{
    coeff, coeffs, conv, conv_fn, degree, eval, feval, lemma_degree, lemma_eval_conv,
    lemma_eval_fn_add, lemma_eval_fn_cong, lemma_eval_fn_extend, lemma_eval_small,
};
use crate::powers_of_two::{lemma_next_pow2_least, lemma_next_pow2_properties, next_pow2};
use crate::polynomial::poly_sum;
use crate::prime::{finv, lemma_finv, modulus};
use crate::products::{
    fast_product, lemma_conv_above_degree, lemma_fast_product_exists,
    lemma_fast_product_is_product, product_is_exact,
};
use crate::prover::ProvingError;
use crate::transform_spec::all_residues;
use crate::zerofier_spec::{
    domain_size, halving_is_exact, lemma_domain_size_of_part, lemma_vanishing_at_point,
    lemma_zerofier_exists, lemma_zerofier_roots, lemma_zerofier_value, zerofier,
};

verus! {

/// What `fast_evaluate_domain` returns for the polynomial `c` and the
/// domain `d`.
///
/// For one point it is the value of `c` there. For more, the domain is
/// halved, and the result is that for the remainder of `c` by the
/// zerofier of the first half, on that half, followed by that for the
/// remainder by the zerofier of the rest, on the rest.
#[verifier::opaque]
pub open spec fn domain_values(c: Seq<int>, d: Seq<int>) -> Result<Seq<int>, ProvingError>
    decreases d.len(),
{
    if d.len() == 0 {
        Ok(Seq::empty())
    } else if d.len() == 1 {
        Ok(seq![feval(c, d[0])])
    } else {
        let half: int = d.len() as int / 2;
        let dl: Seq<int> = d.subrange(0, half);
        let dr: Seq<int> = d.subrange(half, d.len() as int);
        match (zerofier(dl), zerofier(dr)) {
            (Some(zl), Some(zr)) => {
                if degree(zl) < 0 {
                    Err(ProvingError::DivisionByZero)
                } else {
                    match domain_values(remainder(c, zl), dl) {
                        Err(e) => Err(e),
                        Ok(left) => {
                            if degree(zr) < 0 {
                                Err(ProvingError::DivisionByZero)
                            } else {
                                match domain_values(remainder(c, zr), dr) {
                                    Err(e) => Err(e),
                                    Ok(right) => Ok(left + right),
                                }
                            }
                        },
                    }
                }
            },
            _ => Err(ProvingError::InvalidInput),
        }
    }
}

/// The value of the dividend from those of the divisor, the quotient and
/// the remainder.
pub proof fn lemma_division_value(a: Seq<int>, b: Seq<int>, q: Seq<int>, r: Seq<int>, x: int)
    requires
        is_division(a, b, q, r),
    ensures
        feval(a, x) == (feval(q, x) * feval(b, x) + feval(r, x)) % modulus(),
{
    let p: int = modulus();
    let m1: int = if a.len() >= r.len() {
        a.len() as int
    } else {
        r.len() as int
    };
    let n: int = if m1 >= q.len() + b.len() {
        m1
    } else {
        (q.len() + b.len()) as int
    };
    let h = |k: int| conv(q, b, k) + coeff(r, k);
    assert forall|k: int| a.len() <= k < n implies #[trigger] coeffs(a)(k) == 0 by {}
    assert forall|k: int| r.len() <= k < n implies #[trigger] coeffs(r)(k) == 0 by {}
    lemma_eval_fn_extend(coeffs(a), x, a.len() as int, n);
    lemma_eval_fn_extend(coeffs(r), x, r.len() as int, n);
    lemma_eval_conv(q, b, x, n);
    assert forall|k: int| 0 <= k < n implies #[trigger] h(k) == conv_fn(q, b)(k) + coeffs(r)(
        k,
    ) by {}
    lemma_eval_fn_add(conv_fn(q, b), coeffs(r), h, x, n);
    assert forall|k: int| 0 <= k < n implies #[trigger] coeffs(a)(k) % p == h(k) % p by {
        assert((conv(q, b, k) + coeff(r, k)) % p == coeff(a, k) % p);
    }
    lemma_eval_fn_cong(coeffs(a), h, x, x, n, p);
    lemma_mul_mod_noop_general(eval(q, x), eval(b, x), p);
    lemma_cong_add(
        eval(q, x) * eval(b, x),
        feval(q, x) * feval(b, x),
        eval(r, x),
        feval(r, x),
        p,
    );
}

/// At a root of the divisor, the remainder has the value of the dividend.
pub proof fn lemma_remainder_value(c: Seq<int>, z: Seq<int>, x: int)
    requires
        degree(z) >= 0,
        all_residues(z),
        feval(z, x) == 0,
    ensures
        feval(remainder(c, z), x) == feval(c, x),
{
    let p: int = modulus();
    let (q, r) = lemma_division_exists(c, z);
    lemma_division_value(c, z, q, r, x);
    assert(feval(q, x) * 0 == 0);
    lemma_mod_twice(eval(r, x), p);
}

/// `fast_evaluate_domain` returns one value for each point.
pub proof fn lemma_domain_values_length(c: Seq<int>, d: Seq<int>)
    requires
        domain_values(c, d) is Ok,
    ensures
        (domain_values(c, d)->Ok_0).len() == d.len(),
    decreases d.len(),
{
    reveal(domain_values);
    if d.len() >= 2 {
        let half: int = d.len() as int / 2;
        let dl: Seq<int> = d.subrange(0, half);
        let dr: Seq<int> = d.subrange(half, d.len() as int);
        let zl: Seq<int> = zerofier(dl)->0;
        let zr: Seq<int> = zerofier(dr)->0;
        lemma_domain_values_length(remainder(c, zl), dl);
        lemma_domain_values_length(remainder(c, zr), dr);
    }
}

/// Where the halving of the domain is exact, `fast_evaluate_domain`
/// returns the values of the polynomial at the points of the domain.
pub proof fn lemma_domain_values(c: Seq<int>, d: Seq<int>, i: int)
    requires
        all_residues(d),
        halving_is_exact(d.len()),
        domain_values(c, d) is Ok,
        0 <= i < d.len(),
    ensures
        (domain_values(c, d)->Ok_0).len() == d.len(),
        (domain_values(c, d)->Ok_0)[i] == feval(c, d[i]),
    decreases d.len(),
{
    reveal(domain_values);
    lemma_domain_values_length(c, d);
    if d.len() >= 2 {
        let half: int = d.len() as int / 2;
        let dl: Seq<int> = d.subrange(0, half);
        let dr: Seq<int> = d.subrange(half, d.len() as int);
        let zl: Seq<int> = zerofier(dl)->0;
        let zr: Seq<int> = zerofier(dr)->0;
        let left: Seq<int> = domain_values(remainder(c, zl), dl)->Ok_0;
        let right: Seq<int> = domain_values(remainder(c, zr), dr)->Ok_0;
        lemma_domain_values_length(remainder(c, zl), dl);
        lemma_domain_values_length(remainder(c, zr), dr);
        if i < half {
            lemma_domain_values(remainder(c, zl), dl, i);
            lemma_zerofier_value(dl, d[i]);
            lemma_vanishing_at_point(dl, i);
            lemma_remainder_value(c, zl, d[i]);
        } else {
            lemma_domain_values(remainder(c, zr), dr, i - half);
            lemma_zerofier_value(dr, d[i]);
            lemma_vanishing_at_point(dr, i - half);
            lemma_remainder_value(c, zr, d[i]);
        }
    }
}

/// Where the halving of the domain is exact and the domain of valid size,
/// `fast_evaluate_domain` succeeds.
pub proof fn lemma_domain_values_exist(c: Seq<int>, d: Seq<int>)
    requires
        all_residues(d),
        halving_is_exact(d.len()),
        domain_size(d.len()),
    ensures
        domain_values(c, d) is Ok,
    decreases d.len(),
{
    reveal(domain_values);
    if d.len() >= 2 {
        let n: int = d.len() as int;
        let half: int = n / 2;
        let dl: Seq<int> = d.subrange(0, half);
        let dr: Seq<int> = d.subrange(half, n);
        lemma_domain_size_of_part(d.len(), dl.len());
        lemma_domain_size_of_part(d.len(), dr.len());
        lemma_zerofier_exists(dl);
        lemma_zerofier_exists(dr);
        lemma_zerofier_value(dl, 0);
        lemma_zerofier_value(dr, 0);
        let zl: Seq<int> = zerofier(dl)->0;
        let zr: Seq<int> = zerofier(dr)->0;
        lemma_domain_values_exist(remainder(c, zl), dl);
        lemma_domain_values_exist(remainder(c, zr), dr);
    }
}

/// The values `v[i] / o[i]`.
pub open spec fn ratios(v: Seq<int>, o: Seq<int>) -> Seq<int> {
    Seq::new(v.len(), |i: int| (v[i] * finv(o[i])) % modulus())
}

/// Whether a sequence holds a zero.
pub open spec fn has_zero(s: Seq<int>) -> bool {
    exists|i: int| 0 <= i < s.len() && #[trigger] s[i] == 0
}

/// What `fast_interpolate` returns for the domain `d` and the values `v`.
///
/// For one point it is the constant `v[0]`. For more, the domain is
/// halved. The values of each half are divided by the values that the
/// zerofier of the other half takes there, the results are interpolated
/// over their half, and each interpolant is multiplied by the zerofier of
/// the other half; the result is the sum of the two products.
#[verifier::opaque]
pub open spec fn interpolant(d: Seq<int>, v: Seq<int>) -> Result<Seq<int>, ProvingError>
    decreases d.len(),
{
    if d.len() != v.len() {
        Err(ProvingError::InvalidInput)
    } else if d.len() == 0 {
        Ok(Seq::empty())
    } else if d.len() == 1 {
        Ok(seq![v[0]])
    } else {
        let half: int = d.len() as int / 2;
        let dl: Seq<int> = d.subrange(0, half);
        let dr: Seq<int> = d.subrange(half, d.len() as int);
        let vl: Seq<int> = v.subrange(0, half);
        let vr: Seq<int> = v.subrange(half, d.len() as int);
        match (zerofier(dl), zerofier(dr)) {
            (Some(zl), Some(zr)) => match domain_values(zr, dl) {
                Err(e) => Err(e),
                Ok(left_offset) => match domain_values(zl, dr) {
                    Err(e) => Err(e),
                    Ok(right_offset) => {
                        if has_zero(left_offset) || has_zero(right_offset) {
                            Err(ProvingError::DivisionByZero)
                        } else {
                            match interpolant(dl, ratios(vl, left_offset)) {
                                Err(e) => Err(e),
                                Ok(li) => match interpolant(dr, ratios(vr, right_offset)) {
                                    Err(e) => Err(e),
                                    Ok(ri) => match (fast_product(li, zr), fast_product(ri, zl)) {
                                        (Some(pl), Some(pr)) => Ok(poly_sum(pl, pr)),
                                        _ => Err(ProvingError::InvalidInput),
                                    },
                                },
                            }
                        }
                    },
                },
            },
            _ => Err(ProvingError::InvalidInput),
        }
    }
}

/// Whether every product that `fast_interpolate` forms for the domain `d`
/// and the values `v` is exact: those of the zerofiers of the parts of the
/// domain, and those of the interpolants with the zerofiers.
#[verifier::opaque]
pub open spec fn interpolation_is_exact(d: Seq<int>, v: Seq<int>) -> bool
    decreases d.len(),
{
    if d.len() <= 1 {
        true
    } else {
        let half: int = d.len() as int / 2;
        let dl: Seq<int> = d.subrange(0, half);
        let dr: Seq<int> = d.subrange(half, d.len() as int);
        let vl: Seq<int> = v.subrange(0, half);
        let vr: Seq<int> = v.subrange(half, d.len() as int);
        let zl: Seq<int> = zerofier(dl)->0;
        let zr: Seq<int> = zerofier(dr)->0;
        let tl: Seq<int> = ratios(vl, domain_values(zr, dl)->Ok_0);
        let tr: Seq<int> = ratios(vr, domain_values(zl, dr)->Ok_0);
        &&& halving_is_exact(dl.len())
        &&& halving_is_exact(dr.len())
        &&& interpolation_is_exact(dl, tl)
        &&& interpolation_is_exact(dr, tr)
        &&& product_is_exact(interpolant(dl, tl)->Ok_0, zr)
        &&& product_is_exact(interpolant(dr, tr)->Ok_0, zl)
    }
}

/// The value of a sum of polynomials is the sum of the values.
pub proof fn lemma_poly_sum_value(a: Seq<int>, b: Seq<int>, x: int)
    ensures
        feval(poly_sum(a, b), x) == (feval(a, x) + feval(b, x)) % modulus(),
{
    let p: int = modulus();
    let s: Seq<int> = poly_sum(a, b);
    let n: int = s.len() as int;
    let h = |k: int| coeff(a, k) + coeff(b, k);
    assert forall|k: int| a.len() <= k < n implies #[trigger] coeffs(a)(k) == 0 by {}
    assert forall|k: int| b.len() <= k < n implies #[trigger] coeffs(b)(k) == 0 by {}
    lemma_eval_fn_extend(coeffs(a), x, a.len() as int, n);
    lemma_eval_fn_extend(coeffs(b), x, b.len() as int, n);
    assert forall|k: int| 0 <= k < n implies #[trigger] h(k) == coeffs(a)(k) + coeffs(b)(k) by {}
    lemma_eval_fn_add(coeffs(a), coeffs(b), h, x, n);
    assert forall|k: int| 0 <= k < n implies #[trigger] coeffs(s)(k) % p == h(k) % p by {
        lemma_mod_twice(coeff(a, k) + coeff(b, k), p);
    }
    lemma_eval_fn_cong(coeffs(s), h, x, x, n, p);
    lemma_cong_add(eval(a, x), feval(a, x), eval(b, x), feval(b, x), p);
}

/// One half of the interpolant: at a point of its half of the domain,
/// where the zerofier of the other half takes the value `o`, the
/// interpolant of the ratios times that zerofier has the value `v`.
proof fn lemma_interpolant_half(pl: Seq<int>, li: Seq<int>, zr: Seq<int>, x: int, v: int, o: int)
    requires
        fast_product(li, zr) == Some(pl),
        product_is_exact(li, zr),
        feval(zr, x) == o,
        o != 0,
        0 <= v < modulus(),
        feval(li, x) == (v * finv(o)) % modulus(),
    ensures
        feval(pl, x) == v,
{
    let p: int = modulus();
    assert forall|k: int| coeff(pl, k) % p == #[trigger] conv(li, zr, k) % p by {
        lemma_fast_product_is_product(li, zr, k);
        lemma_mod_twice(conv(li, zr, k), p);
    }
    lemma_product_value(pl, li, zr, x);
    lemma_finv(o);
    lemma_cong_mul((v * finv(o)) % p, v * finv(o), o, o, p);
    assert((v * finv(o)) * o == v * (o * finv(o))) by (nonlinear_arith);
    lemma_small_mod(1, p as nat);
    lemma_cong_mul(v, v, o * finv(o), 1, p);
    assert(v * 1 == v);
    lemma_small_mod(v as nat, p as nat);
}

/// The other half: at a root of the zerofier, the product of an
/// interpolant with it vanishes.
proof fn lemma_interpolant_other_half(pr: Seq<int>, ri: Seq<int>, zl: Seq<int>, x: int)
    requires
        fast_product(ri, zl) == Some(pr),
        product_is_exact(ri, zl),
        feval(zl, x) == 0,
    ensures
        feval(pr, x) == 0,
{
    let p: int = modulus();
    assert forall|k: int| coeff(pr, k) % p == #[trigger] conv(ri, zl, k) % p by {
        lemma_fast_product_is_product(ri, zl, k);
        lemma_mod_twice(conv(ri, zl, k), p);
    }
    lemma_product_value(pr, ri, zl, x);
    assert(feval(ri, x) * 0 == 0);
}

/// The parts of what `fast_interpolate` computes for a domain of two
/// points or more.
pub struct InterpolationParts {
    pub left_domain: Seq<int>,
    pub right_domain: Seq<int>,
    pub left_zerofier: Seq<int>,
    pub right_zerofier: Seq<int>,
    pub left_offset: Seq<int>,
    pub right_offset: Seq<int>,
    pub left_targets: Seq<int>,
    pub right_targets: Seq<int>,
    pub left_interpolant: Seq<int>,
    pub right_interpolant: Seq<int>,
    pub left_product: Seq<int>,
    pub right_product: Seq<int>,
}

/// The parts of a successful interpolation, and what holds of them.
pub proof fn lemma_interpolant_parts(d: Seq<int>, v: Seq<int>) -> (parts: InterpolationParts)
    requires
        d.len() >= 2,
        interpolant(d, v) is Ok,
    ensures
        d.len() == v.len(),
        parts.left_domain == d.subrange(0, d.len() as int / 2),
        parts.right_domain == d.subrange(d.len() as int / 2, d.len() as int),
        zerofier(parts.left_domain) == Some(parts.left_zerofier),
        zerofier(parts.right_domain) == Some(parts.right_zerofier),
        domain_values(parts.right_zerofier, parts.left_domain) == Ok::<Seq<int>, ProvingError>(
            parts.left_offset,
        ),
        domain_values(parts.left_zerofier, parts.right_domain) == Ok::<Seq<int>, ProvingError>(
            parts.right_offset,
        ),
        !has_zero(parts.left_offset),
        !has_zero(parts.right_offset),
        parts.left_targets == ratios(v.subrange(0, d.len() as int / 2), parts.left_offset),
        parts.right_targets == ratios(
            v.subrange(d.len() as int / 2, d.len() as int),
            parts.right_offset,
        ),
        interpolant(parts.left_domain, parts.left_targets) == Ok::<Seq<int>, ProvingError>(
            parts.left_interpolant,
        ),
        interpolant(parts.right_domain, parts.right_targets) == Ok::<Seq<int>, ProvingError>(
            parts.right_interpolant,
        ),
        fast_product(parts.left_interpolant, parts.right_zerofier) == Some(parts.left_product),
        fast_product(parts.right_interpolant, parts.left_zerofier) == Some(parts.right_product),
        interpolant(d, v) == Ok::<Seq<int>, ProvingError>(
            poly_sum(parts.left_product, parts.right_product),
        ),
        interpolation_is_exact(d, v) ==> {
            &&& halving_is_exact(parts.left_domain.len())
            &&& halving_is_exact(parts.right_domain.len())
            &&& interpolation_is_exact(parts.left_domain, parts.left_targets)
            &&& interpolation_is_exact(parts.right_domain, parts.right_targets)
            &&& product_is_exact(parts.left_interpolant, parts.right_zerofier)
            &&& product_is_exact(parts.right_interpolant, parts.left_zerofier)
        },
{
    reveal(interpolant);
    reveal(interpolation_is_exact);
    let half: int = d.len() as int / 2;
    let dl: Seq<int> = d.subrange(0, half);
    let dr: Seq<int> = d.subrange(half, d.len() as int);
    let vl: Seq<int> = v.subrange(0, half);
    let vr: Seq<int> = v.subrange(half, d.len() as int);
    let zl: Seq<int> = zerofier(dl)->0;
    let zr: Seq<int> = zerofier(dr)->0;
    let ol: Seq<int> = domain_values(zr, dl)->Ok_0;
    let or: Seq<int> = domain_values(zl, dr)->Ok_0;
    let tl: Seq<int> = ratios(vl, ol);
    let tr: Seq<int> = ratios(vr, or);
    let li: Seq<int> = interpolant(dl, tl)->Ok_0;
    let ri: Seq<int> = interpolant(dr, tr)->Ok_0;
    InterpolationParts {
        left_domain: dl,
        right_domain: dr,
        left_zerofier: zl,
        right_zerofier: zr,
        left_offset: ol,
        right_offset: or,
        left_targets: tl,
        right_targets: tr,
        left_interpolant: li,
        right_interpolant: ri,
        left_product: fast_product(li, zr)->0,
        right_product: fast_product(ri, zl)->0,
    }
}

/// Where every product on the way is exact, `fast_interpolate` returns a
/// polynomial that takes the value `v[i]` at the point `d[i]`, for every
/// `i`.
pub proof fn lemma_interpolant_values(d: Seq<int>, v: Seq<int>, i: int)
    requires
        all_residues(d),
        all_residues(v),
        interpolant(d, v) is Ok,
        interpolation_is_exact(d, v),
        0 <= i < d.len(),
    ensures
        feval(interpolant(d, v)->Ok_0, d[i]) == v[i],
    decreases d.len(),
{
    let p: int = modulus();
    if d.len() == 1 {
        assert(d.len() == v.len() && interpolant(d, v) == Ok::<Seq<int>, ProvingError>(
            seq![v[0]],
        )) by {
            reveal(interpolant);
        }
        lemma_eval_small(seq![v[0]], d[0]);
        lemma_small_mod(v[0] as nat, p as nat);
    } else {
        let parts: InterpolationParts = lemma_interpolant_parts(d, v);
        lemma_interpolant_step(d, v, i, parts);
    }
}

/// The step of `lemma_interpolant_values` for a domain of two points or
/// more.
proof fn lemma_interpolant_step(d: Seq<int>, v: Seq<int>, i: int, parts: InterpolationParts)
    requires
        all_residues(d),
        all_residues(v),
        d.len() >= 2,
        d.len() == v.len(),
        0 <= i < d.len(),
        parts.left_domain == d.subrange(0, d.len() as int / 2),
        parts.right_domain == d.subrange(d.len() as int / 2, d.len() as int),
        zerofier(parts.left_domain) == Some(parts.left_zerofier),
        zerofier(parts.right_domain) == Some(parts.right_zerofier),
        domain_values(parts.right_zerofier, parts.left_domain) == Ok::<Seq<int>, ProvingError>(
            parts.left_offset,
        ),
        domain_values(parts.left_zerofier, parts.right_domain) == Ok::<Seq<int>, ProvingError>(
            parts.right_offset,
        ),
        !has_zero(parts.left_offset),
        !has_zero(parts.right_offset),
        parts.left_targets == ratios(v.subrange(0, d.len() as int / 2), parts.left_offset),
        parts.right_targets == ratios(
            v.subrange(d.len() as int / 2, d.len() as int),
            parts.right_offset,
        ),
        interpolant(parts.left_domain, parts.left_targets) == Ok::<Seq<int>, ProvingError>(
            parts.left_interpolant,
        ),
        interpolant(parts.right_domain, parts.right_targets) == Ok::<Seq<int>, ProvingError>(
            parts.right_interpolant,
        ),
        fast_product(parts.left_interpolant, parts.right_zerofier) == Some(parts.left_product),
        fast_product(parts.right_interpolant, parts.left_zerofier) == Some(parts.right_product),
        halving_is_exact(parts.left_domain.len()),
        halving_is_exact(parts.right_domain.len()),
        interpolation_is_exact(parts.left_domain, parts.left_targets),
        interpolation_is_exact(parts.right_domain, parts.right_targets),
        product_is_exact(parts.left_interpolant, parts.right_zerofier),
        product_is_exact(parts.right_interpolant, parts.left_zerofier),
    ensures
        feval(poly_sum(parts.left_product, parts.right_product), d[i]) == v[i],
    decreases d.len(), 0int,
{
    let p: int = modulus();
    let half: int = d.len() as int / 2;
    let x: int = d[i];
    lemma_poly_sum_value(parts.left_product, parts.right_product, x);
    lemma_small_mod(v[i] as nat, p as nat);
    if i < half {
        let dl: Seq<int> = parts.left_domain;
        lemma_domain_values(parts.right_zerofier, dl, i);
        assert(parts.left_offset[i] != 0);
        assert(all_residues(parts.left_targets));
        lemma_interpolant_values(dl, parts.left_targets, i);
        lemma_interpolant_half(
            parts.left_product,
            parts.left_interpolant,
            parts.right_zerofier,
            x,
            v[i],
            parts.left_offset[i],
        );
        lemma_zerofier_value(dl, x);
        lemma_vanishing_at_point(dl, i);
        lemma_interpolant_other_half(
            parts.right_product,
            parts.right_interpolant,
            parts.left_zerofier,
            x,
        );
    } else {
        let j: int = i - half;
        let dr: Seq<int> = parts.right_domain;
        lemma_domain_values(parts.left_zerofier, dr, j);
        assert(parts.right_offset[j] != 0);
        assert(all_residues(parts.right_targets));
        lemma_interpolant_values(dr, parts.right_targets, j);
        lemma_interpolant_half(
            parts.right_product,
            parts.right_interpolant,
            parts.left_zerofier,
            x,
            v[i],
            parts.right_offset[j],
        );
        lemma_zerofier_value(dr, x);
        lemma_vanishing_at_point(dr, j);
        lemma_interpolant_other_half(
            parts.left_product,
            parts.left_interpolant,
            parts.right_zerofier,
            x,
        );
    }
}

/// No point occurs twice.
pub open spec fn distinct(d: Seq<int>) -> bool {
    forall|i: int, j: int| 0 <= i < j < d.len() ==> d[i] != d[j]
}

/// The polynomial has no coefficient from index `m` on.
pub open spec fn below_degree(c: Seq<int>, m: int) -> bool {
    forall|k: int| k >= m ==> coeff(c, k) == 0
}

/// An exact product of a polynomial without coefficients from `m` on and
/// a polynomial of degree `e` has no coefficient from `m + e` on, and can
/// be computed where `m + e`, rounded up to a power of two, is a valid
/// length.
proof fn lemma_product_below_degree(a: Seq<int>, b: Seq<int>, m: int, n: nat)
    requires
        below_degree(a, m),
        m >= 1,
        degree(b) >= 0,
        m + degree(b) <= n,
        domain_size(n),
        product_is_exact(a, b),
    ensures
        fast_product(a, b) is Some,
        below_degree(fast_product(a, b)->0, m + degree(b)),
{
    lemma_degree(a);
    assert(degree(a) < m) by {
        if degree(a) >= m {
            assert(coeff(a, degree(a)) == 0);
        }
    }
    if degree(a) >= 0 && degree(a) + degree(b) >= 8 {
        lemma_next_pow2_properties(n as int);
        let k: nat = choose|k: nat| next_pow2(n as int) == pow2(k);
        lemma_next_pow2_least(degree(a) + degree(b), k);
    }
    lemma_fast_product_exists(a, b);
    let z: Seq<int> = fast_product(a, b)->0;
    assert forall|k: int| k >= m + degree(b) implies coeff(z, k) == 0 by {
        lemma_fast_product_is_product(a, b, k);
        lemma_conv_above_degree(a, b, k);
    }
}

/// Where the points are distinct, the domain is of valid size and every
/// product on the way is exact, `fast_interpolate` succeeds, with a
/// polynomial of fewer coefficients than there are points, trailing zeros
/// aside.
pub proof fn lemma_interpolant_exists(d: Seq<int>, v: Seq<int>)
    requires
        all_residues(d),
        all_residues(v),
        d.len() == v.len(),
        distinct(d),
        domain_size(d.len()),
        interpolation_is_exact(d, v),
    ensures
        interpolant(d, v) is Ok,
        below_degree(interpolant(d, v)->Ok_0, d.len() as int),
    decreases d.len(),
{
    if d.len() <= 1 {
        reveal(interpolant);
    } else {
        let n: int = d.len() as int;
        let half: int = n / 2;
        let dl: Seq<int> = d.subrange(0, half);
        let dr: Seq<int> = d.subrange(half, n);
        let vl: Seq<int> = v.subrange(0, half);
        let vr: Seq<int> = v.subrange(half, n);
        assert(halving_is_exact(dl.len()) && halving_is_exact(dr.len())) by {
            reveal(interpolation_is_exact);
        }
        lemma_domain_size_of_part(d.len(), dl.len());
        lemma_domain_size_of_part(d.len(), dr.len());
        lemma_zerofier_exists(dl);
        lemma_zerofier_exists(dr);
        let zl: Seq<int> = zerofier(dl)->0;
        let zr: Seq<int> = zerofier(dr)->0;
        lemma_zerofier_value(dl, 0);
        lemma_zerofier_value(dr, 0);
        lemma_domain_values_exist(zr, dl);
        lemma_domain_values_exist(zl, dr);
        let ol: Seq<int> = domain_values(zr, dl)->Ok_0;
        let or: Seq<int> = domain_values(zl, dr)->Ok_0;
        lemma_domain_values_length(zr, dl);
        lemma_domain_values_length(zl, dr);
        // no offset is zero: the points of one half are no roots of the
        // zerofier of the other
        assert(!has_zero(ol)) by {
            if has_zero(ol) {
                let i: int = choose|i: int| 0 <= i < ol.len() && #[trigger] ol[i] == 0;
                lemma_domain_values(zr, dl, i);
                lemma_zerofier_roots(dr, dl[i]);
                let j: int = choose|j: int| 0 <= j < dr.len() && dr[j] == dl[i];
                assert(d[i] != d[half + j]);
            }
        }
        assert(!has_zero(or)) by {
            if has_zero(or) {
                let i: int = choose|i: int| 0 <= i < or.len() && #[trigger] or[i] == 0;
                lemma_domain_values(zl, dr, i);
                lemma_zerofier_roots(dl, dr[i]);
                let j: int = choose|j: int| 0 <= j < dl.len() && dl[j] == dr[i];
                assert(d[j] != d[half + i]);
            }
        }
        let tl: Seq<int> = ratios(vl, ol);
        let tr: Seq<int> = ratios(vr, or);
        assert(interpolation_is_exact(dl, tl) && interpolation_is_exact(dr, tr)) by {
            reveal(interpolation_is_exact);
        }
        assert(distinct(dl)) by {
            assert forall|i: int, j: int| 0 <= i < j < dl.len() implies dl[i] != dl[j] by {
                assert(d[i] != d[j]);
            }
        }
        assert(distinct(dr)) by {
            assert forall|i: int, j: int| 0 <= i < j < dr.len() implies dr[i] != dr[j] by {
                assert(d[half + i] != d[half + j]);
            }
        }
        lemma_interpolant_exists(dl, tl);
        lemma_interpolant_exists(dr, tr);
        let li: Seq<int> = interpolant(dl, tl)->Ok_0;
        let ri: Seq<int> = interpolant(dr, tr)->Ok_0;
        assert(product_is_exact(li, zr) && product_is_exact(ri, zl)) by {
            reveal(interpolation_is_exact);
        }
        lemma_product_below_degree(li, zr, dl.len() as int, d.len());
        lemma_product_below_degree(ri, zl, dr.len() as int, d.len());
        let pl: Seq<int> = fast_product(li, zr)->0;
        let pr: Seq<int> = fast_product(ri, zl)->0;
        assert(interpolant(d, v) == Ok::<Seq<int>, ProvingError>(poly_sum(pl, pr))) by {
            reveal(interpolant);
        }
        assert forall|k: int| k >= n implies coeff(poly_sum(pl, pr), k) == 0 by {
            assert(coeff(pl, k) == 0);
            assert(coeff(pr, k) == 0);
        }
    }
}

/// Interpolation round trip: where the points are distinct, the domain is
/// of valid size and every product on the way is exact, `fast_interpolate`
/// succeeds, and the polynomial that it returns takes the value `v[i]` at
/// the point `d[i]`, for every `i`.
pub proof fn lemma_interpolation_round_trip(d: Seq<int>, v: Seq<int>, i: int)
    requires
        all_residues(d),
        all_residues(v),
        d.len() == v.len(),
        distinct(d),
        domain_size(d.len()),
        interpolation_is_exact(d, v),
        0 <= i < d.len(),
    ensures
        interpolant(d, v) is Ok,
        feval(interpolant(d, v)->Ok_0, d[i]) == v[i],
{
    lemma_interpolant_exists(d, v);
    lemma_interpolant_values(d, v, i);
}

} // verus!
