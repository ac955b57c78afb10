//! The polynomial that vanishes on a domain, as `fast_zerofier` builds
//! it, and the proof that it does vanish there and nowhere else.

use vstd::prelude::*;
use vstd::arithmetic::div_mod::*;
use vstd::arithmetic::mul::*;
use vstd::arithmetic::power::*;
use crate::coset_spec::{is_product, lemma_product_degree, lemma_product_value};
use crate::modular::lemma_cong_mul;
use crate::poly_spec::{
    coeff, coeffs, conv, degree, eval, feval, lemma_degree, lemma_degree_unique, poly_term,
};
use vstd::arithmetic::power2::*;
use crate::powers_of_two::{is_pow2, lemma_next_pow2_least, lemma_next_pow2_properties, next_pow2};
use crate::prime::{lemma_no_zero_divisors, modulus};
use crate::products::{
    fast_product, lemma_conv_at_degree, lemma_fast_product_is_product, product_is_exact,
};
use crate::sums::sum;
use crate::transform_spec::all_residues;

verus! {

/// What `fast_zerofier` computes for a domain, or `None` where a product
/// on the way cannot be computed.
///
/// For the empty domain it is the constant 0, for one point `d` it is
/// `X - d`, and otherwise the product, as `fast_multiply` computes it, of
/// the results for the first half of the domain and for the rest.
#[verifier::opaque]
pub open spec fn zerofier(d: Seq<int>) -> Option<Seq<int>>
    decreases d.len(),
{
    if d.len() == 0 {
        Some(seq![0int])
    } else if d.len() == 1 {
        Some(seq![(-d[0]) % modulus(), 1int])
    } else {
        let half: int = d.len() as int / 2;
        match (zerofier(d.subrange(0, half)), zerofier(d.subrange(half, d.len() as int))) {
            (Some(left), Some(right)) => fast_product(left, right),
            _ => None,
        }
    }
}

/// Whether the products that `fast_zerofier` forms for a domain of `n`
/// points are all exact: none is, of two polynomials whose degrees add up
/// to a power of two from 8 on.
pub open spec fn halving_is_exact(n: nat) -> bool
    decreases n,
{
    n <= 1 || (!(n >= 8 && is_pow2(n as int)) && halving_is_exact(n / 2) && halving_is_exact(
        (n - n / 2) as nat,
    ))
}

/// The product of `x - d[i]` over the domain.
pub open spec fn vanishing(d: Seq<int>, x: int) -> int
    decreases d.len(),
{
    if d.len() == 0 {
        1
    } else {
        vanishing(d.drop_last(), x) * (x - d.last())
    }
}

/// The product over a domain is the product over its two parts.
pub proof fn lemma_vanishing_split(a: Seq<int>, b: Seq<int>, x: int)
    ensures
        vanishing(a + b, x) == vanishing(a, x) * vanishing(b, x),
    decreases b.len(),
{
    if b.len() == 0 {
        assert(a + b =~= a);
        assert(vanishing(a, x) * 1 == vanishing(a, x));
    } else {
        let b1: Seq<int> = b.drop_last();
        assert((a + b).drop_last() =~= a + b1);
        assert((a + b).last() == b.last());
        lemma_vanishing_split(a, b1, x);
        lemma_mul_is_associative(vanishing(a, x), vanishing(b1, x), x - b.last());
    }
}

/// The product vanishes at every point of the domain.
pub proof fn lemma_vanishing_at_point(d: Seq<int>, i: int)
    requires
        0 <= i < d.len(),
    ensures
        vanishing(d, d[i]) == 0,
    decreases d.len(),
{
    if i == d.len() - 1 {
        assert(vanishing(d.drop_last(), d[i]) * 0 == 0);
    } else {
        lemma_vanishing_at_point(d.drop_last(), i);
        assert(0 * (d[i] - d.last()) == 0);
    }
}

/// The product does not vanish, in the field, at a point that is none of
/// the domain.
pub proof fn lemma_vanishing_off_domain(d: Seq<int>, x: int)
    requires
        forall|i: int| 0 <= i < d.len() ==> (x - #[trigger] d[i]) % modulus() != 0,
    ensures
        vanishing(d, x) % modulus() != 0,
    decreases d.len(),
{
    if d.len() > 0 {
        lemma_vanishing_off_domain(d.drop_last(), x);
        assert((x - d[d.len() - 1]) % modulus() != 0);
        if vanishing(d, x) % modulus() == 0 {
            lemma_no_zero_divisors(vanishing(d.drop_last(), x), x - d.last());
        }
    }
}

/// The polynomial `X - d0`: its value, its degree and its coefficients.
pub proof fn lemma_linear_zerofier(d0: int, x: int)
    ensures
        all_residues(seq![(-d0) % modulus(), 1int]),
        degree(seq![(-d0) % modulus(), 1int]) == 1,
        feval(seq![(-d0) % modulus(), 1int], x) == (x - d0) % modulus(),
{
    let p: int = modulus();
    let z: Seq<int> = seq![(-d0) % p, 1int];
    lemma_degree_unique(z, 1);
    lemma_pow0(x);
    lemma_pow1(x);
    let f = poly_term(coeffs(z), x);
    assert(sum(f, 2) == sum(f, 1) + f(1));
    assert(sum(f, 1) == sum(f, 0) + f(0));
    assert(f(0) == z[0] * 1);
    assert(f(1) == 1 * x);
    assert(eval(z, x) == z[0] + x);
}

/// What `fast_zerofier` computes for a domain of two points or more is the
/// product of what it computes for the two parts of the domain.
pub proof fn lemma_zerofier_unfold(d: Seq<int>)
    requires
        d.len() >= 2,
        zerofier(d) is Some,
    ensures
        zerofier(d.subrange(0, d.len() as int / 2)) is Some,
        zerofier(d.subrange(d.len() as int / 2, d.len() as int)) is Some,
        zerofier(d) == fast_product(
            zerofier(d.subrange(0, d.len() as int / 2))->0,
            zerofier(d.subrange(d.len() as int / 2, d.len() as int))->0,
        ),
{
    reveal(zerofier);
}

/// What `fast_zerofier` computes for the empty domain and for one point.
pub proof fn lemma_zerofier_small(d: Seq<int>)
    requires
        d.len() <= 1,
    ensures
        d.len() == 0 ==> zerofier(d) == Some(seq![0int]),
        d.len() == 1 ==> zerofier(d) == Some(seq![(-d[0]) % modulus(), 1int]),
{
    reveal(zerofier);
}

/// An exact product as `fast_multiply` computes it: its coefficients are
/// residues, it is the product of its factors in the field, its degree is
/// the sum of theirs and its leading coefficient the product of theirs.
pub proof fn lemma_exact_product(z: Seq<int>, a: Seq<int>, b: Seq<int>)
    requires
        fast_product(a, b) == Some(z),
        product_is_exact(a, b),
        all_residues(a),
        all_residues(b),
        degree(a) >= 0,
        degree(b) >= 0,
    ensures
        all_residues(z),
        is_product(z, a, b),
        degree(z) == degree(a) + degree(b),
        z[degree(z)] == (a[degree(a)] * b[degree(b)]) % modulus(),
{
    let p: int = modulus();
    assert forall|k: int| coeff(z, k) % p == #[trigger] conv(a, b, k) % p by {
        lemma_fast_product_is_product(a, b, k);
        lemma_mod_twice(conv(a, b, k), p);
    }
    assert forall|k: int| 0 <= k < z.len() implies 0 <= #[trigger] z[k] < p by {
        lemma_fast_product_is_product(a, b, k);
    }
    lemma_product_degree(z, a, b);
    lemma_conv_at_degree(a, b);
    lemma_fast_product_is_product(a, b, degree(a) + degree(b));
    lemma_degree(z);
}

/// Where the halving is exact, what `fast_zerofier` computes is the monic
/// polynomial of degree `n` whose value at every `x` is the product of
/// `x - d[i]` over the domain.
pub proof fn lemma_zerofier_value(d: Seq<int>, x: int)
    requires
        all_residues(d),
        d.len() >= 1,
        halving_is_exact(d.len()),
        zerofier(d) is Some,
    ensures
        all_residues(zerofier(d)->0),
        degree(zerofier(d)->0) == d.len(),
        (zerofier(d)->0)[d.len() as int] == 1,
        feval(zerofier(d)->0, x) == vanishing(d, x) % modulus(),
    decreases d.len(),
{
    let p: int = modulus();
    let z: Seq<int> = zerofier(d)->0;
    if d.len() == 1 {
        lemma_zerofier_small(d);
        lemma_linear_zerofier(d[0], x);
        assert(d.drop_last().len() == 0);
        assert(vanishing(d.drop_last(), x) == 1);
        assert(d.last() == d[0]);
        assert(vanishing(d, x) == 1 * (x - d[0]));
    } else {
        let half: int = d.len() as int / 2;
        let dl: Seq<int> = d.subrange(0, half);
        let dr: Seq<int> = d.subrange(half, d.len() as int);
        lemma_zerofier_unfold(d);
        let zl: Seq<int> = zerofier(dl)->0;
        let zr: Seq<int> = zerofier(dr)->0;
        lemma_zerofier_value(dl, x);
        lemma_zerofier_value(dr, x);
        lemma_exact_product(z, zl, zr);
        lemma_product_value(z, zl, zr, x);
        assert(1 * 1 == 1);
        lemma_small_mod(1, p as nat);
        assert(d =~= dl + dr);
        lemma_vanishing_split(dl, dr, x);
        lemma_cong_mul(feval(zl, x), vanishing(dl, x), feval(zr, x), vanishing(dr, x), p);
    }
}

/// The sizes of domain for which the products of `fast_zerofier` can all
/// be computed: those whose size, rounded up to a power of two, is at
/// most `2^32` and fits a machine word.
pub open spec fn domain_size(n: nat) -> bool {
    next_pow2(n as int) <= pow2(32) && next_pow2(n as int) <= usize::MAX
}

/// A part of a domain of valid size has a valid size.
pub proof fn lemma_domain_size_of_part(n: nat, part: nat)
    requires
        domain_size(n),
        part <= n,
    ensures
        domain_size(part),
{
    lemma_next_pow2_properties(n as int);
    let k: nat = choose|k: nat| next_pow2(n as int) == pow2(k);
    lemma_next_pow2_least(part as int, k);
}

/// Where the halving is exact and the domain of valid size,
/// `fast_zerofier` succeeds.
pub proof fn lemma_zerofier_exists(d: Seq<int>)
    requires
        all_residues(d),
        halving_is_exact(d.len()),
        domain_size(d.len()),
    ensures
        zerofier(d) is Some,
    decreases d.len(),
{
    if d.len() <= 1 {
        lemma_zerofier_small(d);
    } else {
        let n: int = d.len() as int;
        let half: int = n / 2;
        let dl: Seq<int> = d.subrange(0, half);
        let dr: Seq<int> = d.subrange(half, n);
        lemma_domain_size_of_part(d.len(), dl.len());
        lemma_domain_size_of_part(d.len(), dr.len());
        lemma_zerofier_exists(dl);
        lemma_zerofier_exists(dr);
        lemma_zerofier_value(dl, 0);
        lemma_zerofier_value(dr, 0);
        lemma_next_pow2_properties(n);
        assert(zerofier(d) is Some) by {
            reveal(zerofier);
        }
    }
}

/// Where the halving is exact and the domain of valid size,
/// `fast_zerofier` succeeds, and what it computes vanishes at every point
/// of the domain and at no residue that is none of them.
pub proof fn lemma_zerofier_roots(d: Seq<int>, x: int)
    requires
        all_residues(d),
        d.len() >= 1,
        halving_is_exact(d.len()),
        domain_size(d.len()),
        0 <= x < modulus(),
    ensures
        zerofier(d) is Some,
        feval(zerofier(d)->0, x) == 0 <==> exists|i: int| 0 <= i < d.len() && d[i] == x,
{
    let p: int = modulus();
    lemma_zerofier_exists(d);
    lemma_zerofier_value(d, x);
    if exists|i: int| 0 <= i < d.len() && d[i] == x {
        let i: int = choose|i: int| 0 <= i < d.len() && d[i] == x;
        lemma_vanishing_at_point(d, i);
    } else {
        assert forall|i: int| 0 <= i < d.len() implies (x - #[trigger] d[i]) % p != 0 by {
            assert(d[i] != x);
        }
        lemma_vanishing_off_domain(d, x);
    }
}

} // verus!
