//! The number-theoretic transform and the fast polynomial arithmetic built
//! on it.

use vstd::prelude::*;
use vstd::arithmetic::div_mod::*;
use vstd::arithmetic::power::*;
use vstd::arithmetic::power2::*;
use vstd::slice::slice_subrange;
use crate::coset_spec::{
    coset_division, coset_quotient, coset_ratios, coset_values, lemma_coset_values,
    vanishes_on_coset,
};
use crate::division::quotient;
use crate::field::{
    fmul, fpow, invert_all, lemma_felt_range, lemma_root_of_unity_order, residues,
    root_of_unity, Felt,
};
use crate::modular::{lemma_cong_mul, lemma_cong_pow, lemma_pow_double, lemma_pow_succ};
use crate::poly_spec::{
    coeff, degree, evens, feval, lemma_degree, lemma_eval_same_coeffs, lemma_eval_small, odds,
};
use crate::polynomial::{copy_elements, scaled, zeros, Polynomial};
use crate::products::{
    cyclic_product, fast_product, lemma_cyclic_product_transform, lemma_padded_coeffs, padded,
    trimmed,
};
use crate::powers_of_two::{
    exact_log2, is_pow2, lemma_log2_pow2, lemma_next_pow2, lemma_next_pow2_properties,
    lemma_pow2_half, log2, next_pow2, next_power_of_two,
};
use crate::prime::{finv, modulus};
use crate::prover::ProvingError;
use crate::division::remainder;
use crate::interpolation_spec::{domain_values, has_zero, interpolant, ratios};
use crate::multivariate::{MultivariatePolynomial, Terms};
use crate::symbolic_spec::{fast_power, symbolic_sum, symbolic_term, symbolic_value};
use crate::zerofier_spec::zerofier;
use crate::transform_spec::{
    dft, forward_transform, inverse_transform, is_primitive_root, lemma_butterfly,
    lemma_inverse_root, lemma_pow2_nonzero, lemma_round_trip,
};

verus! {

/// The inputs that `ntt` accepts: at most one value, or a power-of-two
/// number of values together with a primitive root of unity of that order.
pub open spec fn ntt_accepts(root: int, n: nat) -> bool {
    n <= 1 || (is_pow2(n as int) && is_primitive_root(root, n))
}

/// The recursion behind `ntt`, on inputs already known to be valid.
fn ntt_recursive(root: Felt, values: &[Felt], Ghost(k): Ghost<nat>) -> (r: Vec<Felt>)
    requires
        values.len() == pow2(k),
        fpow(root@, values.len() as nat) == 1,
    ensures
        r.len() == values.len(),
        residues(r@) == dft(residues(values@), root@),
    decreases values.len(),
{
    let ghost p: int = modulus();
    let ghost v: Seq<int> = residues(values@);
    let n: usize = values.len();
    if n <= 1 {
        let r = crate::polynomial::copy_elements(values);
        proof {
            lemma_pow2_pos(k);
            lemma_pow0(root@);
            lemma_eval_small(v, pow(root@, 0));
            lemma_felt_range(values@[0]);
            assert(residues(r@) =~= dft(v, root@));
        }
        return r;
    }
    proof {
        if k == 0 {
            lemma2_to64();
        }
        lemma_pow2_half(k);
    }
    let half: usize = n / 2;
    let mut even_values: Vec<Felt> = Vec::new();
    let mut odd_values: Vec<Felt> = Vec::new();
    let mut j: usize = 0;
    while j < half
        invariant
            n == values.len(),
            half == n / 2,
            n % 2 == 0,
            j <= half,
            even_values.len() == j,
            odd_values.len() == j,
            forall|t: int| 0 <= t < j ==> #[trigger] even_values[t] == values[2 * t],
            forall|t: int| 0 <= t < j ==> #[trigger] odd_values[t] == values[2 * t + 1],
        decreases half - j,
    {
        even_values.push(values[2 * j]);
        odd_values.push(values[2 * j + 1]);
        j = j + 1;
    }
    let root_squared: Felt = root.square();
    proof {
        lemma_pow_double(root@, half as nat);
        lemma_cong_pow(root_squared@, root@ * root@, half as nat, p);
        assert(residues(even_values@) =~= evens(v));
        assert(residues(odd_values@) =~= odds(v));
    }
    let odd_transform: Vec<Felt> = ntt_recursive(
        root_squared,
        odd_values.as_slice(),
        Ghost((k - 1) as nat),
    );
    let even_transform: Vec<Felt> = ntt_recursive(
        root_squared,
        even_values.as_slice(),
        Ghost((k - 1) as nat),
    );
    let mut out: Vec<Felt> = Vec::new();
    let mut root_power: Felt = Felt::one();
    let mut i: usize = 0;
    proof {
        lemma_pow0(root@);
    }
    while i < n
        invariant
            p == modulus(),
            v == residues(values@),
            n == values.len(),
            n >= 2,
            n % 2 == 0,
            half == n / 2,
            i <= n,
            out.len() == i,
            root_power@ == fpow(root@, i as nat),
            fpow(root@, n as nat) == 1,
            root_squared@ == fmul(root@, root@),
            even_transform.len() == half,
            odd_transform.len() == half,
            residues(even_transform@) == dft(evens(v), root_squared@),
            residues(odd_transform@) == dft(odds(v), root_squared@),
            forall|t: int| 0 <= t < i ==> (#[trigger] out[t])@ == dft(v, root@)[t],
        decreases n - i,
    {
        let m: usize = i % half;
        proof {
            lemma_mod_bound(i as int, half as int);
        }
        let even: Felt = even_transform[m];
        let odd: Felt = odd_transform[m];
        proof {
            assert(even@ == residues(even_transform@)[m as int]);
            assert(odd@ == residues(odd_transform@)[m as int]);
            lemma_felt_range(root_squared);
            lemma_butterfly(v, root@, root_squared@, i as int, even@, odd@, root_power@);
        }
        out.push(even.add(odd.mul(root_power)));
        proof {
            lemma_pow_succ(root@, i as nat);
            lemma_cong_mul(root_power@, pow(root@, i as nat), root@, root@, p);
        }
        root_power = root_power.mul(root);
        i = i + 1;
    }
    proof {
        assert(residues(out@) =~= dft(v, root@));
    }
    out
}

/// The transform of `values` with the given root of unity: the values of
/// the polynomial with coefficients `values` at the successive powers of
/// the root.
///
/// A list of at most one value is returned as it is. Otherwise the number
/// of values must be a power of two and `primitive_root` a primitive root
/// of unity of that order.
pub fn ntt(primitive_root: Felt, values: &[Felt]) -> (r: Result<Vec<Felt>, ProvingError>)
    ensures
        r is Ok <==> ntt_accepts(primitive_root@, values.len() as nat),
        r matches Ok(out) ==> residues(out@) == dft(residues(values@), primitive_root@),
        r matches Err(e) ==> e == ProvingError::InvalidInput,
{
    let n: usize = values.len();
    if n <= 1 {
        let out = crate::polynomial::copy_elements(values);
        proof {
            let v: Seq<int> = residues(values@);
            if n == 1 {
                lemma_pow0(primitive_root@);
                lemma_eval_small(v, pow(primitive_root@, 0));
                lemma_felt_range(values@[0]);
            }
            assert(residues(out@) =~= dft(v, primitive_root@));
        }
        return Ok(out);
    }
    let log_n: u32 = match exact_log2(n) {
        Some(k) => k,
        None => {
            return Err(ProvingError::InvalidInput);
        },
    };
    let full: Felt = primitive_root.pow(n as u64);
    let half: Felt = primitive_root.pow((n / 2) as u64);
    if !full.equals(&Felt::one()) || half.equals(&Felt::one()) {
        return Err(ProvingError::InvalidInput);
    }
    Ok(ntt_recursive(primitive_root, values, Ghost(log_n as nat)))
}

/// The lengths that the transforms with the field's own roots of unity
/// accept: the powers of two up to `2^32`.
pub open spec fn transform_length(n: nat) -> bool {
    is_pow2(n as int) && n <= pow2(32)
}

/// The exponent of a transform length, or `None` for another length.
pub fn transform_log(n: usize) -> (r: Option<u32>)
    ensures
        r is Some <==> transform_length(n as nat),
        r matches Some(k) ==> n == pow2(k as nat) && k == log2(n as int) && k <= 32,
{
    match exact_log2(n) {
        Some(k) => {
            if k > 32 {
                proof {
                    lemma_pow2_strictly_increases(32, k as nat);
                }
                None
            } else {
                proof {
                    if k < 32 {
                        lemma_pow2_strictly_increases(k as nat, 32);
                    }
                }
                Some(k)
            }
        },
        None => None,
    }
}

/// The transform of `values` with the root of unity that the field fixes
/// for their number, which must be a power of two up to `2^32`.
pub fn number_theory_transform(values: &[Felt]) -> (r: Result<Vec<Felt>, ProvingError>)
    ensures
        r is Ok <==> transform_length(values.len() as nat),
        r matches Ok(out) ==> residues(out@) == forward_transform(residues(values@)),
        r matches Err(e) ==> e == ProvingError::InvalidInput,
{
    let log_n: u32 = match transform_log(values.len()) {
        Some(k) => k,
        None => {
            return Err(ProvingError::InvalidInput);
        },
    };
    let primitive_root: Felt = match Felt::get_root_of_unity(log_n) {
        Some(w) => w,
        None => {
            return Err(ProvingError::InvalidInput);
        },
    };
    proof {
        lemma_root_of_unity_order(log_n as nat);
    }
    Ok(ntt_recursive(primitive_root, values, Ghost(log_n as nat)))
}

/// The inverse of `number_theory_transform`: the transform with the
/// inverse root, every output divided by the number of values.
pub fn inverse_number_theory_transform(values: &[Felt]) -> (r: Result<Vec<Felt>, ProvingError>)
    ensures
        r is Ok <==> transform_length(values.len() as nat),
        r matches Ok(out) ==> residues(out@) == inverse_transform(residues(values@)),
        r matches Err(e) ==> e == ProvingError::InvalidInput,
{
    let ghost p: int = modulus();
    let ghost v: Seq<int> = residues(values@);
    let n: usize = values.len();
    let log_n: u32 = match transform_log(n) {
        Some(k) => k,
        None => {
            return Err(ProvingError::InvalidInput);
        },
    };
    let primitive_root: Felt = match Felt::get_root_of_unity(log_n) {
        Some(w) => w,
        None => {
            return Err(ProvingError::InvalidInput);
        },
    };
    proof {
        lemma_root_of_unity_order(log_n as nat);
        lemma_pow2_nonzero(log_n as nat);
        if log_n >= 1 {
            lemma_inverse_root(primitive_root@, log_n as nat);
        } else {
            lemma2_to64();
            lemma_pow1(primitive_root@);
            assert(primitive_root@ == 1);
            crate::prime::lemma_finv(1);
            assert(1 * 1 == 1);
            assert(finv(1) == 1);
            lemma_pow1(1);
        }
    }
    let length_inverse: Felt = match Felt::new(n as u64).inverse() {
        Some(x) => x,
        None => {
            return Err(ProvingError::InvalidInput);
        },
    };
    let root_inverse: Felt = match primitive_root.inverse() {
        Some(x) => x,
        None => {
            return Err(ProvingError::InvalidInput);
        },
    };
    let transformed: Vec<Felt> = ntt_recursive(root_inverse, values, Ghost(log_n as nat));
    let mut out: Vec<Felt> = Vec::new();
    let mut i: usize = 0;
    while i < n
        invariant
            v == residues(values@),
            n == values.len(),
            transformed.len() == n,
            i <= n,
            out.len() == i,
            length_inverse@ == finv(n as int),
            root_inverse@ == finv(root_of_unity(log2(n as int))),
            residues(transformed@) == dft(v, root_inverse@),
            forall|t: int| 0 <= t < i ==> (#[trigger] out[t])@ == inverse_transform(v)[t],
        decreases n - i,
    {
        proof {
            assert(transformed[i as int]@ == residues(transformed@)[i as int]);
        }
        out.push(length_inverse.mul(transformed[i]));
        i = i + 1;
    }
    proof {
        assert(residues(out@) =~= inverse_transform(v));
    }
    Ok(out)
}

/// The first `count` coefficients of `polynomial`, followed by zeros up to
/// length `n`.
fn padded_coefficients(polynomial: &Polynomial, count: usize, n: usize) -> (r: Vec<Felt>)
    requires
        count <= polynomial.coefficients.len(),
        count <= n,
        forall|k: int| count <= k < polynomial.coefficients.len() ==> polynomial@[k] == 0,
    ensures
        r.len() == n,
        residues(r@) == padded(polynomial@, n as nat),
{
    let mut out: Vec<Felt> = zeros(n);
    let mut k: usize = 0;
    while k < count
        invariant
            count <= polynomial.coefficients.len(),
            count <= n,
            k <= count,
            out.len() == n,
            forall|j: int| 0 <= j < k ==> (#[trigger] out[j])@ == polynomial@[j],
            forall|j: int| k <= j < n ==> (#[trigger] out[j])@ == 0,
        decreases count - k,
    {
        out.set(k, polynomial.coefficients[k]);
        k = k + 1;
    }
    proof {
        assert(residues(out@) =~= padded(polynomial@, n as nat));
    }
    out
}

/// The coefficients of `polynomial` up to its degree.
fn trimmed_copy(polynomial: &Polynomial, count: usize) -> (r: Polynomial)
    requires
        count == degree(polynomial@) + 1,
    ensures
        r@ == trimmed(polynomial@),
{
    proof {
        lemma_degree(polynomial@);
    }
    let mut out: Vec<Felt> = Vec::new();
    let mut k: usize = 0;
    while k < count
        invariant
            count <= polynomial.coefficients.len(),
            k <= count,
            out.len() == k,
            forall|j: int| 0 <= j < k ==> #[trigger] out[j] == polynomial.coefficients[j],
        decreases count - k,
    {
        out.push(polynomial.coefficients[k]);
        k = k + 1;
    }
    let r = Polynomial::new(out);
    proof {
        assert(r@ =~= trimmed(polynomial@));
    }
    r
}

/// The product of two polynomials.
///
/// Where the degrees add up to less than 8 the product is computed
/// directly. Otherwise both operands are padded to the sum of the degrees
/// rounded up to a power of two, transformed, multiplied entry by entry
/// and transformed back: the result has that many coefficients, trailing
/// zeros among them, and is the product unless the sum of the degrees is
/// itself a power of two, in which case the leading coefficient wraps
/// around to the constant term.
pub fn fast_multiply(lhs: &Polynomial, rhs: &Polynomial) -> (r: Result<Polynomial, ProvingError>)
    ensures
        r is Ok <==> fast_product(lhs@, rhs@) is Some,
        r matches Ok(product) ==> Some(product@) == fast_product(lhs@, rhs@),
        r matches Err(e) ==> e == ProvingError::InvalidInput,
{
    let ghost a: Seq<int> = lhs@;
    let ghost b: Seq<int> = rhs@;
    let lhs_degree: usize = match lhs.degree() {
        Some(d) => d,
        None => {
            let product = Polynomial::new(Vec::new());
            proof {
                assert(product@ =~= Seq::<int>::empty());
            }
            return Ok(product);
        },
    };
    let rhs_degree: usize = match rhs.degree() {
        Some(d) => d,
        None => {
            let product = Polynomial::new(Vec::new());
            proof {
                assert(product@ =~= Seq::<int>::empty());
            }
            return Ok(product);
        },
    };
    proof {
        lemma_degree(a);
        lemma_degree(b);
        lemma_next_pow2_properties(degree(a) + degree(b));
    }
    let degree_sum: usize = match lhs_degree.checked_add(rhs_degree) {
        Some(d) => d,
        None => {
            return Err(ProvingError::InvalidInput);
        },
    };
    if degree_sum < 8 {
        let left: Polynomial = trimmed_copy(lhs, lhs_degree + 1);
        let right: Polynomial = trimmed_copy(rhs, rhs_degree + 1);
        return Ok(left.mul(&right));
    }
    let n: usize = match next_power_of_two(degree_sum) {
        Some(n) => n,
        None => {
            return Err(ProvingError::InvalidInput);
        },
    };
    proof {
        lemma2_to64();
    }
    if n as u64 > 0x1_0000_0000u64 || lhs_degree >= n || rhs_degree >= n {
        return Err(ProvingError::InvalidInput);
    }
    proof {
        assert forall|j: int| lhs_degree + 1 <= j < lhs.coefficients.len() implies lhs@[j]
            == 0 by {
            assert(coeff(a, j) == 0);
        }
        assert forall|j: int| rhs_degree + 1 <= j < rhs.coefficients.len() implies rhs@[j]
            == 0 by {
            assert(coeff(b, j) == 0);
        }
    }
    proof {
        assert(is_pow2(n as int));
        assert(transform_length(n as nat));
    }
    let lhs_coefficients: Vec<Felt> = padded_coefficients(lhs, lhs_degree + 1, n);
    let rhs_coefficients: Vec<Felt> = padded_coefficients(rhs, rhs_degree + 1, n);
    let lhs_codeword: Vec<Felt> = match number_theory_transform(lhs_coefficients.as_slice()) {
        Ok(v) => v,
        Err(e) => {
            return Err(e);
        },
    };
    let rhs_codeword: Vec<Felt> = match number_theory_transform(rhs_coefficients.as_slice()) {
        Ok(v) => v,
        Err(e) => {
            return Err(e);
        },
    };
    let ghost c: Seq<int> = cyclic_product(a, b, n as nat);
    let ghost k: nat = log2(n as int);
    let ghost w: int = root_of_unity(k);
    proof {
        assert(padded(a, n as nat).len() == n);
        assert(residues(lhs_codeword@).len() == n);
        assert(residues(rhs_codeword@).len() == n);
    }
    let mut hadamard_product: Vec<Felt> = Vec::new();
    let mut i: usize = 0;
    while i < n
        invariant
            a == lhs@,
            b == rhs@,
            c == cyclic_product(a, b, n as nat),
            k == log2(n as int),
            w == root_of_unity(k),
            transform_length(n as nat),
            degree(a) + degree(b) <= n,
            0 <= degree(a) < n,
            0 <= degree(b) < n,
            n >= 8,
            lhs_codeword.len() == n,
            rhs_codeword.len() == n,
            residues(lhs_codeword@) == dft(padded(a, n as nat), w),
            residues(rhs_codeword@) == dft(padded(b, n as nat), w),
            i <= n,
            hadamard_product.len() == i,
            forall|j: int| 0 <= j < i ==> (#[trigger] hadamard_product[j])@ == dft(c, w)[j],
        decreases n - i,
    {
        proof {
            let x: int = pow(w, i as nat);
            let kk: nat = choose|kk: nat| n as int == pow2(kk);
            lemma_log2_pow2(kk);
            if kk > 32 {
                lemma_pow2_strictly_increases(32, kk);
            }
            lemma_root_of_unity_order(kk);
            lemma_cyclic_product_transform(a, b, n as nat, w, i as int);
            lemma_padded_coeffs(a, n as nat);
            lemma_padded_coeffs(b, n as nat);
            lemma_eval_same_coeffs(padded(a, n as nat), a, x);
            lemma_eval_same_coeffs(padded(b, n as nat), b, x);
            assert(lhs_codeword[i as int]@ == residues(lhs_codeword@)[i as int]);
            assert(rhs_codeword[i as int]@ == residues(rhs_codeword@)[i as int]);
        }
        hadamard_product.push(lhs_codeword[i].mul(rhs_codeword[i]));
        i = i + 1;
    }
    proof {
        assert(residues(hadamard_product@) =~= forward_transform(c));
        lemma_round_trip(c);
    }
    let product_coefficients: Vec<Felt> = match inverse_number_theory_transform(
        hadamard_product.as_slice(),
    ) {
        Ok(v) => v,
        Err(e) => {
            return Err(e);
        },
    };
    Ok(Polynomial::new(product_coefficients))
}

/// The values of `polynomial` on the coset by `offset` of the roots of
/// unity of the given order: point `i` is `offset * w^i`, with `w` the
/// root of unity that the field fixes for the order.
///
/// The order must be a power of two up to `2^32`. A polynomial with more
/// coefficients than the order is evaluated over as many points as it has
/// coefficients, which must then be such a power of two.
pub fn fast_coset_evaluate(polynomial: &Polynomial, offset: Felt, order: usize) -> (r: Result<
    Vec<Felt>,
    ProvingError,
>)
    ensures
        r is Ok <==> transform_length(evaluation_length(polynomial@, order as nat)),
        r matches Ok(values) ==> residues(values@) == coset_values(
            polynomial@,
            offset@,
            evaluation_length(polynomial@, order as nat),
        ),
        r matches Err(e) ==> e == ProvingError::InvalidInput,
{
    let ghost c: Seq<int> = polynomial@;
    let ghost n: nat = evaluation_length(c, order as nat);
    let scaled_polynomial: Polynomial = polynomial.scale(offset);
    let mut scaled_coefficients: Vec<Felt> = scaled_polynomial.coefficients;
    let ghost before: Seq<Felt> = scaled_coefficients@;
    while scaled_coefficients.len() < order
        invariant
            before.len() <= scaled_coefficients.len(),
            before.len() >= order ==> scaled_coefficients@ == before,
            before.len() < order ==> scaled_coefficients.len() <= order,
            forall|k: int| 0 <= k < before.len() ==> #[trigger] scaled_coefficients[k] == before[k],
            forall|k: int|
                before.len() <= k < scaled_coefficients.len() ==> (
                #[trigger] scaled_coefficients[k])@ == 0,
        decreases order - scaled_coefficients.len(),
    {
        scaled_coefficients.push(Felt::zero());
    }
    proof {
        let sc: Seq<int> = scaled(c, offset@);
        assert(residues(before) == sc);
        assert(residues(before).len() == before.len());
        assert(sc.len() == c.len());
        assert(before.len() == c.len());
        assert(scaled_coefficients.len() == n);
        assert forall|k: int| 0 <= k < n implies residues(scaled_coefficients@)[k] == padded(
            sc,
            n,
        )[k] by {
            if k < before.len() {
                assert(residues(before)[k] == before[k]@);
            }
        }
        assert(residues(scaled_coefficients@) =~= padded(sc, n));
        lemma_degree(c);
        lemma_coset_values(c, offset@, n);
    }
    number_theory_transform(scaled_coefficients.as_slice())
}

/// The number of points over which `fast_coset_evaluate` evaluates: the
/// order, or the number of coefficients where that is larger.
pub open spec fn evaluation_length(c: Seq<int>, order: nat) -> nat {
    if c.len() >= order {
        c.len()
    } else {
        order
    }
}

/// The quotient of `lhs` by `rhs`, for a division that leaves no
/// remainder.
///
/// Below degree 8 the polynomials are divided directly. From degree 8 on
/// both are evaluated on the coset by `offset` of the roots of unity
/// whose order is the least power of two above the degree of `lhs`, the
/// values are divided one by one, and the quotient is interpolated from
/// the ratios. Where `rhs` does not divide `lhs` the result is the
/// quotient of no division: the remainder is never looked at.
///
/// `primitive_root` must be a primitive root of unity of order
/// `root_order`; from degree 8 on the order must be a power of two up to
/// `2^32` above the degree of `lhs`.
pub fn fast_coset_divide(
    lhs: &Polynomial,
    rhs: &Polynomial,
    offset: Felt,
    primitive_root: Felt,
    root_order: usize,
) -> (r: Result<Polynomial, ProvingError>)
    ensures
        match r {
            Ok(q) => coset_division(lhs@, rhs@, offset@, primitive_root@, root_order as nat)
                == Ok::<Seq<int>, ProvingError>(q@),
            Err(e) => coset_division(lhs@, rhs@, offset@, primitive_root@, root_order as nat)
                == Err::<Seq<int>, ProvingError>(e),
        },
{
    let ghost p: int = modulus();
    let ghost a: Seq<int> = lhs@;
    let ghost b: Seq<int> = rhs@;
    let full: Felt = primitive_root.pow(root_order as u64);
    let half: Felt = primitive_root.pow((root_order / 2) as u64);
    if !full.equals(&Felt::one()) || half.equals(&Felt::one()) {
        return Err(ProvingError::InvalidInput);
    }
    let rhs_degree: usize = match rhs.degree() {
        Some(d) => d,
        None => {
            return Err(ProvingError::InvalidInput);
        },
    };
    let lhs_degree: usize = match lhs.degree() {
        Some(d) => d,
        None => {
            let zero = Polynomial::new(Vec::new());
            proof {
                assert(zero@ =~= Seq::<int>::empty());
            }
            return Ok(zero);
        },
    };
    if rhs_degree > lhs_degree {
        return Err(ProvingError::InvalidInput);
    }
    let degree: usize = lhs_degree;
    if degree < 8 {
        return match lhs.divide(rhs) {
            Some((q, _)) => Ok(q),
            None => Err(ProvingError::InvalidInput),
        };
    }
    let log_order: u32 = match transform_log(root_order) {
        Some(k) => k,
        None => {
            return Err(ProvingError::InvalidInput);
        },
    };
    if root_order <= degree {
        return Err(ProvingError::InvalidInput);
    }
    let mut order: usize = root_order;
    let ghost mut k: nat = log_order as nat;
    while degree < order / 2
        invariant
            order == pow2(k),
            k <= 32,
            order > degree,
            degree >= 8,
        decreases order,
    {
        proof {
            if k == 0 {
                lemma2_to64();
            }
            lemma_pow2_half(k);
            k = (k - 1) as nat;
        }
        order = order / 2;
    }
    let n: usize = order;
    proof {
        lemma_degree(a);
        lemma_degree(b);
        if k >= 1 {
            lemma_pow2_half(k);
        }
        lemma_next_pow2(degree + 1, k);
        assert(n == next_pow2(crate::poly_spec::degree(a) + 1));
        lemma_log2_pow2(k);
        lemma2_to64();
        if k < 32 {
            lemma_pow2_strictly_increases(k, 32);
        }
        assert(transform_length(n as nat));
    }
    let offset_inverse: Felt = match offset.inverse() {
        Some(x) => x,
        None => {
            return Err(ProvingError::DivisionByZero);
        },
    };
    let scaled_lhs: Polynomial = lhs.scale(offset);
    let scaled_rhs: Polynomial = rhs.scale(offset);
    proof {
        assert(scaled_lhs@.len() == a.len());
        assert(scaled_rhs@.len() == b.len());
        assert forall|j: int|
            lhs_degree + 1 <= j < scaled_lhs.coefficients.len() implies scaled_lhs@[j] == 0 by {
            assert(coeff(a, j) == 0);
            assert(0 * pow(offset@, j as nat) == 0);
            assert(scaled(a, offset@)[j] == (a[j] * pow(offset@, j as nat)) % p);
        }
        assert forall|j: int|
            rhs_degree + 1 <= j < scaled_rhs.coefficients.len() implies scaled_rhs@[j] == 0 by {
            assert(coeff(b, j) == 0);
            assert(0 * pow(offset@, j as nat) == 0);
            assert(scaled(b, offset@)[j] == (b[j] * pow(offset@, j as nat)) % p);
        }
    }
    let lhs_coefficients: Vec<Felt> = padded_coefficients(&scaled_lhs, lhs_degree + 1, n);
    let rhs_coefficients: Vec<Felt> = padded_coefficients(&scaled_rhs, rhs_degree + 1, n);
    let lhs_codeword: Vec<Felt> = match number_theory_transform(lhs_coefficients.as_slice()) {
        Ok(v) => v,
        Err(e) => {
            return Err(e);
        },
    };
    let rhs_codeword: Vec<Felt> = match number_theory_transform(rhs_coefficients.as_slice()) {
        Ok(v) => v,
        Err(e) => {
            return Err(e);
        },
    };
    proof {
        lemma_coset_values(a, offset@, n as nat);
        lemma_coset_values(b, offset@, n as nat);
        assert(residues(lhs_codeword@).len() == n);
        assert(residues(rhs_codeword@).len() == n);
        assert forall|i: int| 0 <= i < n implies (#[trigger] rhs_codeword[i])@ == coset_values(
            b,
            offset@,
            n as nat,
        )[i] by {
            assert(rhs_codeword[i]@ == residues(rhs_codeword@)[i]);
        }
    }
    let rhs_codeword_inverse: Vec<Felt> = match invert_all(rhs_codeword.as_slice()) {
        Ok(v) => v,
        Err(e) => {
            proof {
                let i: int = choose|i: int|
                    0 <= i < rhs_codeword.len() && (#[trigger] rhs_codeword[i])@ == 0;
                assert(coset_values(b, offset@, n as nat)[i] == 0);
            }
            return Err(e);
        },
    };
    proof {
        assert(!vanishes_on_coset(b, offset@, n as nat)) by {
            if vanishes_on_coset(b, offset@, n as nat) {
                let i: int = choose|i: int|
                    0 <= i < n && #[trigger] coset_values(b, offset@, n as nat)[i] == 0;
                assert(rhs_codeword[i]@ != 0);
            }
        }
    }
    let mut quotient_codeword: Vec<Felt> = Vec::new();
    let mut i: usize = 0;
    while i < n
        invariant
            a == lhs@,
            b == rhs@,
            lhs_codeword.len() == n,
            rhs_codeword.len() == n,
            rhs_codeword_inverse.len() == n,
            residues(lhs_codeword@) == coset_values(a, offset@, n as nat),
            residues(rhs_codeword@) == coset_values(b, offset@, n as nat),
            forall|j: int|
                0 <= j < n ==> (#[trigger] rhs_codeword_inverse[j])@ == finv(rhs_codeword[j]@),
            i <= n,
            quotient_codeword.len() == i,
            forall|j: int|
                0 <= j < i ==> (#[trigger] quotient_codeword[j])@ == coset_ratios(
                    a,
                    b,
                    offset@,
                    n as nat,
                )[j],
        decreases n - i,
    {
        proof {
            assert(lhs_codeword[i as int]@ == residues(lhs_codeword@)[i as int]);
            assert(rhs_codeword[i as int]@ == residues(rhs_codeword@)[i as int]);
        }
        quotient_codeword.push(lhs_codeword[i].mul(rhs_codeword_inverse[i]));
        i = i + 1;
    }
    proof {
        assert(residues(quotient_codeword@) =~= coset_ratios(a, b, offset@, n as nat));
    }
    let scaled_quotient_coefficients: Vec<Felt> = match inverse_number_theory_transform(
        quotient_codeword.as_slice(),
    ) {
        Ok(v) => v,
        Err(e) => {
            return Err(e);
        },
    };
    let scaled_quotient: Polynomial = Polynomial::new(scaled_quotient_coefficients);
    let result: Polynomial = scaled_quotient.scale(offset_inverse);
    proof {
        let order: nat = root_order as nat;
        assert(is_primitive_root(primitive_root@, order));
        assert(crate::poly_spec::degree(b) >= 0);
        assert(crate::poly_spec::degree(a) >= 8);
        assert(crate::poly_spec::degree(b) <= crate::poly_spec::degree(a));
        assert(is_pow2(order as int) && order <= pow2(32));
        assert(order > crate::poly_spec::degree(a));
        assert(n as nat == next_pow2(crate::poly_spec::degree(a) + 1) as nat);
        assert(offset@ % p != 0);
        assert(!vanishes_on_coset(b, offset@, n as nat));
        assert(scaled_quotient@ == inverse_transform(coset_ratios(a, b, offset@, n as nat)));
        assert(result@ == coset_quotient(a, b, offset@, n as nat));
    }
    Ok(result)
}

/// The residues of a part of a list are that part of its residues.
pub proof fn lemma_residues_subrange(s: Seq<Felt>, i: int, j: int)
    requires
        0 <= i <= j <= s.len(),
    ensures
        residues(s.subrange(i, j)) == residues(s).subrange(i, j),
{
    assert(residues(s.subrange(i, j)) =~= residues(s).subrange(i, j));
}

/// The polynomial whose roots are the points of the domain: the product
/// of `X - d` over them, built by halving the domain and multiplying the
/// results for the halves with `fast_multiply`.
///
/// For the empty domain the result is the constant 0. The result is the
/// monic polynomial with exactly those roots unless, on the way, two
/// halves are multiplied whose sizes add up to a power of two from 8 on:
/// the product of those wraps around.
pub fn fast_zerofier(domain: &[Felt]) -> (r: Result<Polynomial, ProvingError>)
    ensures
        r is Ok <==> zerofier(residues(domain@)) is Some,
        r matches Ok(z) ==> Some(z@) == zerofier(residues(domain@)),
        r matches Err(e) ==> e == ProvingError::InvalidInput,
    decreases domain.len(),
{
    proof {
        reveal(zerofier);
    }
    if domain.len() == 0 {
        let z = Polynomial::new(vec![Felt::zero()]);
        proof {
            assert(z@ =~= seq![0int]);
        }
        return Ok(z);
    }
    if domain.len() == 1 {
        let z = Polynomial::new(vec![domain[0].neg(), Felt::one()]);
        proof {
            assert(z@ =~= seq![(-residues(domain@)[0]) % modulus(), 1int]);
        }
        return Ok(z);
    }
    let half: usize = domain.len() / 2;
    proof {
        lemma_residues_subrange(domain@, 0, half as int);
        lemma_residues_subrange(domain@, half as int, domain.len() as int);
    }
    let left: Polynomial = match fast_zerofier(slice_subrange(domain, 0, half)) {
        Ok(z) => z,
        Err(e) => {
            return Err(e);
        },
    };
    let right: Polynomial = match fast_zerofier(slice_subrange(domain, half, domain.len())) {
        Ok(z) => z,
        Err(e) => {
            return Err(e);
        },
    };
    fast_multiply(&left, &right)
}

/// The values of `polynomial` at the points of `domain`, in their order.
///
/// The domain is halved, the polynomial is reduced modulo the zerofier of
/// each half as `fast_zerofier` computes it, and the remainders are
/// evaluated on their halves in the same way.
pub fn fast_evaluate_domain(polynomial: &Polynomial, domain: &[Felt]) -> (r: Result<
    Vec<Felt>,
    ProvingError,
>)
    ensures
        match r {
            Ok(values) => domain_values(polynomial@, residues(domain@)) == Ok::<
                Seq<int>,
                ProvingError,
            >(residues(values@)),
            Err(e) => domain_values(polynomial@, residues(domain@)) == Err::<
                Seq<int>,
                ProvingError,
            >(e),
        },
    decreases domain.len(),
{
    proof {
        reveal(domain_values);
    }
    if domain.len() == 0 {
        let values: Vec<Felt> = Vec::new();
        proof {
            assert(residues(values@) =~= Seq::<int>::empty());
        }
        return Ok(values);
    }
    if domain.len() == 1 {
        let values: Vec<Felt> = vec![polynomial.evaluate(domain[0])];
        proof {
            assert(residues(values@) =~= seq![
                crate::poly_spec::feval(polynomial@, residues(domain@)[0]),
            ]);
        }
        return Ok(values);
    }
    let half: usize = domain.len() / 2;
    proof {
        lemma_residues_subrange(domain@, 0, half as int);
        lemma_residues_subrange(domain@, half as int, domain.len() as int);
    }
    let left_domain: &[Felt] = slice_subrange(domain, 0, half);
    let right_domain: &[Felt] = slice_subrange(domain, half, domain.len());
    let left_zerofier: Polynomial = match fast_zerofier(left_domain) {
        Ok(z) => z,
        Err(e) => {
            return Err(e);
        },
    };
    let right_zerofier: Polynomial = match fast_zerofier(right_domain) {
        Ok(z) => z,
        Err(e) => {
            return Err(e);
        },
    };
    let left_remainder: Polynomial = match polynomial.divide(&left_zerofier) {
        Some((_, remainder)) => remainder,
        None => {
            return Err(ProvingError::DivisionByZero);
        },
    };
    let mut left: Vec<Felt> = match fast_evaluate_domain(&left_remainder, left_domain) {
        Ok(v) => v,
        Err(e) => {
            return Err(e);
        },
    };
    let right_remainder: Polynomial = match polynomial.divide(&right_zerofier) {
        Some((_, remainder)) => remainder,
        None => {
            return Err(ProvingError::DivisionByZero);
        },
    };
    let mut right: Vec<Felt> = match fast_evaluate_domain(&right_remainder, right_domain) {
        Ok(v) => v,
        Err(e) => {
            return Err(e);
        },
    };
    let ghost first: Seq<Felt> = left@;
    let ghost second: Seq<Felt> = right@;
    left.append(&mut right);
    proof {
        assert(residues(left@) =~= residues(first) + residues(second));
    }
    Ok(left)
}

/// The values `values[i] / offsets[i]`.
fn divide_values(values: &[Felt], offsets: &[Felt]) -> (r: Result<Vec<Felt>, ProvingError>)
    requires
        values.len() == offsets.len(),
    ensures
        r is Ok <==> !has_zero(residues(offsets@)),
        r matches Ok(targets) ==> residues(targets@) == ratios(
            residues(values@),
            residues(offsets@),
        ),
        r matches Err(e) ==> e == ProvingError::DivisionByZero,
{
    let inverses: Vec<Felt> = match invert_all(offsets) {
        Ok(v) => v,
        Err(e) => {
            proof {
                let i: int = choose|i: int|
                    0 <= i < offsets.len() && (#[trigger] offsets[i])@ == 0;
                assert(residues(offsets@)[i] == 0);
            }
            return Err(e);
        },
    };
    proof {
        if has_zero(residues(offsets@)) {
            let i: int = choose|i: int|
                0 <= i < residues(offsets@).len() && #[trigger] residues(offsets@)[i] == 0;
            assert(offsets[i]@ != 0);
        }
    }
    let mut targets: Vec<Felt> = Vec::new();
    let mut i: usize = 0;
    while i < values.len()
        invariant
            values.len() == offsets.len(),
            inverses.len() == offsets.len(),
            forall|j: int|
                0 <= j < offsets.len() ==> (#[trigger] inverses[j])@ == finv(offsets[j]@),
            i <= values.len(),
            targets.len() == i,
            forall|j: int|
                0 <= j < i ==> (#[trigger] targets[j])@ == ratios(
                    residues(values@),
                    residues(offsets@),
                )[j],
        decreases values.len() - i,
    {
        targets.push(values[i].mul(inverses[i]));
        i = i + 1;
    }
    proof {
        assert(residues(targets@) =~= ratios(residues(values@), residues(offsets@)));
    }
    Ok(targets)
}

/// The polynomial that takes the value `values[i]` at the point
/// `domain[i]`, for domains of distinct points.
///
/// The domain is halved. The values of each half are divided by the
/// values that the zerofier of the other half takes there; the results
/// are interpolated over their half in the same way, and each interpolant
/// is multiplied by the zerofier of the other half. The sum of the two
/// products is returned: it takes the given values unless a product on
/// the way wraps around. A point that occurs in both halves makes a
/// divisor zero.
pub fn fast_interpolate(domain: &[Felt], values: &[Felt]) -> (r: Result<Polynomial, ProvingError>)
    ensures
        match r {
            Ok(polynomial) => interpolant(residues(domain@), residues(values@)) == Ok::<
                Seq<int>,
                ProvingError,
            >(polynomial@),
            Err(e) => interpolant(residues(domain@), residues(values@)) == Err::<
                Seq<int>,
                ProvingError,
            >(e),
        },
    decreases domain.len(),
{
    proof {
        reveal(interpolant);
    }
    if domain.len() != values.len() {
        return Err(ProvingError::InvalidInput);
    }
    if domain.len() == 0 {
        let polynomial = Polynomial::new(Vec::new());
        proof {
            assert(polynomial@ =~= Seq::<int>::empty());
        }
        return Ok(polynomial);
    }
    if domain.len() == 1 {
        let polynomial = Polynomial::new(vec![values[0]]);
        proof {
            assert(polynomial@ =~= seq![residues(values@)[0]]);
        }
        return Ok(polynomial);
    }
    let half: usize = domain.len() / 2;
    proof {
        lemma_residues_subrange(domain@, 0, half as int);
        lemma_residues_subrange(domain@, half as int, domain.len() as int);
        lemma_residues_subrange(values@, 0, half as int);
        lemma_residues_subrange(values@, half as int, domain.len() as int);
    }
    let left_domain: &[Felt] = slice_subrange(domain, 0, half);
    let right_domain: &[Felt] = slice_subrange(domain, half, domain.len());
    let left_values: &[Felt] = slice_subrange(values, 0, half);
    let right_values: &[Felt] = slice_subrange(values, half, domain.len());

    let left_zerofier: Polynomial = match fast_zerofier(left_domain) {
        Ok(z) => z,
        Err(e) => {
            return Err(e);
        },
    };
    let right_zerofier: Polynomial = match fast_zerofier(right_domain) {
        Ok(z) => z,
        Err(e) => {
            return Err(e);
        },
    };

    let left_offset: Vec<Felt> = match fast_evaluate_domain(&right_zerofier, left_domain) {
        Ok(v) => v,
        Err(e) => {
            return Err(e);
        },
    };
    let right_offset: Vec<Felt> = match fast_evaluate_domain(&left_zerofier, right_domain) {
        Ok(v) => v,
        Err(e) => {
            return Err(e);
        },
    };
    proof {
        crate::interpolation_spec::lemma_domain_values_length(
            right_zerofier@,
            residues(left_domain@),
        );
        crate::interpolation_spec::lemma_domain_values_length(
            left_zerofier@,
            residues(right_domain@),
        );
        assert(residues(left_offset@).len() == left_offset.len());
        assert(residues(right_offset@).len() == right_offset.len());
    }

    let left_targets: Vec<Felt> = match divide_values(left_values, left_offset.as_slice()) {
        Ok(v) => v,
        Err(e) => {
            return Err(e);
        },
    };
    let right_targets: Vec<Felt> = match divide_values(right_values, right_offset.as_slice()) {
        Ok(v) => v,
        Err(e) => {
            return Err(e);
        },
    };

    let left_interpolant: Polynomial = match fast_interpolate(
        left_domain,
        left_targets.as_slice(),
    ) {
        Ok(p) => p,
        Err(e) => {
            return Err(e);
        },
    };
    let right_interpolant: Polynomial = match fast_interpolate(
        right_domain,
        right_targets.as_slice(),
    ) {
        Ok(p) => p,
        Err(e) => {
            return Err(e);
        },
    };

    let left_product: Polynomial = match fast_multiply(&left_interpolant, &right_zerofier) {
        Ok(p) => p,
        Err(e) => {
            return Err(e);
        },
    };
    let right_product: Polynomial = match fast_multiply(&right_interpolant, &left_zerofier) {
        Ok(p) => p,
        Err(e) => {
            return Err(e);
        },
    };
    Ok(left_product.add(&right_product))
}

/// The views of a list of polynomials.
pub open spec fn polynomial_views(point: Seq<Polynomial>) -> Seq<Seq<int>> {
    Seq::new(point.len(), |i: int| point[i]@)
}

/// The power `polynomial^exponent`, by repeated `fast_multiply`.
fn fast_raise(polynomial: &Polynomial, exponent: u64) -> (r: Result<Polynomial, ProvingError>)
    ensures
        r is Ok <==> fast_power(polynomial@, exponent as nat) is Some,
        r matches Ok(power) ==> Some(power@) == fast_power(polynomial@, exponent as nat),
        r matches Err(e) ==> e == ProvingError::InvalidInput,
{
    let mut power: Polynomial = Polynomial::new(vec![Felt::one()]);
    let mut done: u64 = 0;
    proof {
        reveal(fast_power);
        assert(power@ =~= seq![1int]);
    }
    while done < exponent
        invariant
            done <= exponent,
            Some(power@) == fast_power(polynomial@, done as nat),
        decreases exponent - done,
    {
        proof {
            reveal(fast_power);
        }
        power = match fast_multiply(&power, polynomial) {
            Ok(p) => p,
            Err(e) => {
                proof {
                    lemma_fast_power_fails(polynomial@, (done + 1) as nat, exponent as nat);
                }
                return Err(e);
            },
        };
        done = done + 1;
    }
    Ok(power)
}

/// Once a power cannot be computed, no higher one can.
proof fn lemma_fast_power_fails(c: Seq<int>, e: nat, higher: nat)
    requires
        fast_power(c, e) is None,
        e <= higher,
    ensures
        fast_power(c, higher) is None,
    decreases higher - e,
{
    reveal(fast_power);
    if e < higher {
        lemma_fast_power_fails(c, e, (higher - 1) as nat);
    }
}

/// Once a product of a term cannot be computed, the term cannot.
proof fn lemma_symbolic_term_fails(m: Terms, point: Seq<Seq<int>>, t: int, n: nat, higher: nat)
    requires
        symbolic_term(m, point, t, n) is None,
        n <= higher,
    ensures
        symbolic_term(m, point, t, higher) is None,
    decreases higher - n,
{
    reveal(symbolic_term);
    if n < higher {
        lemma_symbolic_term_fails(m, point, t, n, (higher - 1) as nat);
    }
}

/// Once a term cannot be computed, the sum cannot.
proof fn lemma_symbolic_sum_fails(m: Terms, point: Seq<Seq<int>>, count: nat, higher: nat)
    requires
        symbolic_sum(m, point, count) is None,
        count <= higher,
    ensures
        symbolic_sum(m, point, higher) is None,
    decreases higher - count,
{
    if count < higher {
        lemma_symbolic_sum_fails(m, point, count, (higher - 1) as nat);
    }
}

/// The polynomial that results when the polynomials of `point` are put in
/// the place of the variables of `polynomial`: for each term, the
/// coefficient is multiplied in turn by the power of each polynomial that
/// the term asks for, and the terms are added up. Every product, those of
/// the powers too, is made with `fast_multiply`.
///
/// `point` must hold a polynomial for every variable that a term
/// mentions. The root of unity and its order are not used.
pub fn fast_evaluate_symbolic(
    polynomial: &MultivariatePolynomial,
    point: &[Polynomial],
    primitive_root: Felt,
    root_order: usize,
) -> (r: Result<Polynomial, ProvingError>)
    ensures
        r is Ok <==> symbolic_value(polynomial@, polynomial_views(point@)) is Some,
        r matches Ok(value) ==> Some(value@) == symbolic_value(
            polynomial@,
            polynomial_views(point@),
        ),
        r matches Err(e) ==> e == ProvingError::InvalidInput,
{
    let ghost m: Terms = polynomial@;
    let ghost x: Seq<Seq<int>> = polynomial_views(point@);
    let count: usize = polynomial.term_count();
    // every term must find its variables
    let mut t: usize = 0;
    while t < count
        invariant
            m == polynomial@,
            count == m.count(),
            t <= count,
            forall|s: int| 0 <= s < t ==> (#[trigger] m.powers[s]).len() <= point.len(),
        decreases count - t,
    {
        if polynomial.powers[t].len() > point.len() {
            proof {
                assert(m.powers[t as int].len() > point.len());
            }
            return Err(ProvingError::InvalidInput);
        }
        t = t + 1;
    }
    let mut accumulator: Polynomial = Polynomial::new(Vec::new());
    let mut t: usize = 0;
    proof {
        assert(accumulator@ =~= Seq::<int>::empty());
    }
    while t < count
        invariant
            m == polynomial@,
            x == polynomial_views(point@),
            count == m.count(),
            m.fits(point.len() as int),
            t <= count,
            Some(accumulator@) == symbolic_sum(m, x, t as nat),
        decreases count - t,
    {
        let pad: &Vec<u64> = &polynomial.powers[t];
        let mut product: Polynomial = Polynomial::new(vec![polynomial.coefficients[t]]);
        let mut i: usize = 0;
        proof {
            reveal(symbolic_term);
            assert(product@ =~= seq![m.coefficients[t as int]]);
            assert(m.powers[t as int].len() <= point.len());
        }
        while i < pad.len()
            invariant
                m == polynomial@,
                x == polynomial_views(point@),
                t < count,
                count == m.count(),
                pad == polynomial.powers[t as int],
                pad.len() <= point.len(),
                pad.len() == m.powers[t as int].len(),
                i <= pad.len(),
                Some(product@) == symbolic_term(m, x, t as int, i as nat),
            decreases pad.len() - i,
        {
            proof {
                reveal(symbolic_term);
                assert(x[i as int] == point[i as int]@);
                assert(m.powers[t as int][i as int] == pad[i as int] as int);
            }
            let power: Polynomial = match fast_raise(&point[i], pad[i]) {
                Ok(p) => p,
                Err(e) => {
                    proof {
                        lemma_symbolic_term_fails(m, x, t as int, (i + 1) as nat, pad.len() as nat);
                        lemma_symbolic_sum_fails(m, x, (t + 1) as nat, count as nat);
                    }
                    return Err(e);
                },
            };
            product = match fast_multiply(&product, &power) {
                Ok(p) => p,
                Err(e) => {
                    proof {
                        lemma_symbolic_term_fails(m, x, t as int, (i + 1) as nat, pad.len() as nat);
                        lemma_symbolic_sum_fails(m, x, (t + 1) as nat, count as nat);
                    }
                    return Err(e);
                },
            };
            i = i + 1;
        }
        accumulator = accumulator.add(&product);
        t = t + 1;
    }
    Ok(accumulator)
}

} // verus!
