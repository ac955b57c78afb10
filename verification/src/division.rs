//! Division of polynomials with remainder: what a quotient and a remainder
//! are, and that there is only one of each.

use vstd::prelude::*;
use vstd::arithmetic::div_mod::*;
use vstd::arithmetic::mul::*;
use crate::modular::lemma_cong_sub;
use crate::poly_spec::{coeff, conv, conv_term, degree, lemma_degree};
use crate::prime::{lemma_no_zero_divisors, modulus};
use crate::sums::{lemma_sum_add, lemma_sum_single};
use crate::transform_spec::all_residues;

verus! {

/// The number of coefficients of the quotient of `a` by `b`.
pub open spec fn quotient_length(a: Seq<int>, b: Seq<int>) -> nat {
    if degree(a) >= degree(b) {
        (degree(a) - degree(b) + 1) as nat
    } else {
        0
    }
}

/// `q` and `r` are the quotient and the remainder of the division of `a`
/// by `b`, which is not zero: `a == q * b + r` in the field, coefficient
/// by coefficient, with `r` of as many coefficients as the degree of `b`
/// and `q` of as many as the degrees of `a` and `b` leave.
pub open spec fn is_division(a: Seq<int>, b: Seq<int>, q: Seq<int>, r: Seq<int>) -> bool {
    &&& degree(b) >= 0
    &&& all_residues(b)
    &&& all_residues(q)
    &&& all_residues(r)
    &&& q.len() == quotient_length(a, b)
    &&& r.len() == degree(b)
    &&& forall|k: int|
        (#[trigger] conv(q, b, k) + coeff(r, k)) % modulus() == coeff(a, k) % modulus()
}

/// `q` is the quotient of the division of `a` by `b`, with some
/// remainder.
pub open spec fn is_quotient(a: Seq<int>, b: Seq<int>, q: Seq<int>) -> bool {
    exists|r: Seq<int>| is_division(a, b, q, r)
}

/// The quotient of the division of `a` by `b`.
pub open spec fn quotient(a: Seq<int>, b: Seq<int>) -> Seq<int> {
    choose|q: Seq<int>| is_quotient(a, b, q)
}

/// The remainder of the division of `a` by `b`.
pub open spec fn remainder(a: Seq<int>, b: Seq<int>) -> Seq<int> {
    choose|r: Seq<int>| is_division(a, b, quotient(a, b), r)
}

/// Changing one coefficient of `q` changes the product with `b` by the
/// change times a shifted copy of `b`.
pub proof fn lemma_conv_update(q: Seq<int>, b: Seq<int>, t: int, c: int, k: int)
    requires
        0 <= t < q.len(),
    ensures
        conv(q.update(t, c), b, k) == conv(q, b, k) + (c - q[t]) * coeff(b, k - t),
{
    let q2: Seq<int> = q.update(t, c);
    let delta = |i: int|
        if i == t {
            (c - q[t]) * coeff(b, k - t)
        } else {
            0
        };
    assert forall|i: int| 0 <= i < q.len() implies #[trigger] conv_term(q2, b, k)(i)
        == conv_term(q, b, k)(i) + delta(i) by {
        if i == t {
            lemma_mul_is_distributive_sub_other_way(coeff(b, k - t), c, q[t]);
        }
    }
    lemma_sum_add(conv_term(q, b, k), delta, conv_term(q2, b, k), q.len() as int);
    lemma_sum_single(delta, q.len() as int, t);
}

/// Two quotients of the same division agree from index `j` on.
proof fn lemma_quotients_agree(
    a: Seq<int>,
    b: Seq<int>,
    q1: Seq<int>,
    r1: Seq<int>,
    q2: Seq<int>,
    r2: Seq<int>,
    j: int,
)
    requires
        is_division(a, b, q1, r1),
        is_division(a, b, q2, r2),
        0 <= j <= q1.len(),
    ensures
        forall|i: int| j <= i < q1.len() ==> q1[i] == q2[i],
    decreases q1.len() - j,
{
    if j < q1.len() {
        lemma_quotients_agree(a, b, q1, r1, q2, r2, j + 1);
        let p: int = modulus();
        let db: int = degree(b);
        let k: int = j + db;
        lemma_degree(b);
        // the coefficient of X^(j + db) in (q1 - q2) * b is (q1[j] - q2[j]) * b[db]
        let delta = |i: int|
            if i == j {
                (q1[j] - q2[j]) * b[db]
            } else {
                0
            };
        assert forall|i: int| 0 <= i < q1.len() implies #[trigger] conv_term(q1, b, k)(i)
            == conv_term(q2, b, k)(i) + delta(i) by {
            if i == j {
                lemma_mul_is_distributive_sub_other_way(b[db], q1[j], q2[j]);
            } else if i < j {
                assert(coeff(b, k - i) == 0);
                assert(q1[i] * 0 == 0);
                assert(q2[i] * 0 == 0);
            }
        }
        lemma_sum_add(conv_term(q2, b, k), delta, conv_term(q1, b, k), q1.len() as int);
        lemma_sum_single(delta, q1.len() as int, j);
        // both remainders have no coefficient at k
        assert((conv(q1, b, k) + coeff(r1, k)) % p == coeff(a, k) % p);
        assert((conv(q2, b, k) + coeff(r2, k)) % p == coeff(a, k) % p);
        assert(((q1[j] - q2[j]) * b[db]) % p == 0) by {
            lemma_cong_sub(conv(q1, b, k), conv(q2, b, k), conv(q2, b, k), conv(q2, b, k), p);
        }
        lemma_no_zero_divisors(q1[j] - q2[j], b[db]);
        assert(0 < b[db] < p);
        assert(0 <= q1[j] < p && 0 <= q2[j] < p);
    }
}

/// A division has one quotient and one remainder.
pub proof fn lemma_division_unique(
    a: Seq<int>,
    b: Seq<int>,
    q1: Seq<int>,
    r1: Seq<int>,
    q2: Seq<int>,
    r2: Seq<int>,
)
    requires
        is_division(a, b, q1, r1),
        is_division(a, b, q2, r2),
    ensures
        q1 == q2,
        r1 == r2,
{
    let p: int = modulus();
    lemma_quotients_agree(a, b, q1, r1, q2, r2, 0);
    assert(q1 =~= q2);
    assert forall|k: int| 0 <= k < r1.len() implies r1[k] == r2[k] by {
        assert((conv(q1, b, k) + coeff(r1, k)) % p == coeff(a, k) % p);
        assert((conv(q2, b, k) + coeff(r2, k)) % p == coeff(a, k) % p);
        lemma_cong_sub(
            conv(q1, b, k) + r1[k],
            conv(q1, b, k) + r2[k],
            conv(q1, b, k),
            conv(q1, b, k),
            p,
        );
        assert(0 <= r1[k] < p && 0 <= r2[k] < p);
    }
    assert(r1 =~= r2);
}

/// A quotient and a remainder that meet `is_division` are the quotient
/// and the remainder.
pub proof fn lemma_division_is(a: Seq<int>, b: Seq<int>, q: Seq<int>, r: Seq<int>)
    requires
        is_division(a, b, q, r),
    ensures
        quotient(a, b) == q,
        remainder(a, b) == r,
{
    let q0: Seq<int> = quotient(a, b);
    assert(is_quotient(a, b, q));
    let r0: Seq<int> = choose|r0: Seq<int>| is_division(a, b, q0, r0);
    lemma_division_unique(a, b, q, r, q0, r0);
}

/// The coefficients of `a` less `c * X^t * b`, in the field.
pub open spec fn reduced(a: Seq<int>, b: Seq<int>, c: int, t: int) -> Seq<int> {
    Seq::new(a.len(), |k: int| (a[k] - c * coeff(b, k - t)) % modulus())
}

/// Every polynomial can be divided by every polynomial that is not zero.
pub proof fn lemma_division_exists(a: Seq<int>, b: Seq<int>) -> (qr: (Seq<int>, Seq<int>))
    requires
        degree(b) >= 0,
        all_residues(b),
    ensures
        is_division(a, b, qr.0, qr.1),
        qr.0 == quotient(a, b),
        qr.1 == remainder(a, b),
    decreases degree(a) + 1,
{
    let p: int = modulus();
    let da: int = degree(a);
    let db: int = degree(b);
    lemma_degree(a);
    lemma_degree(b);
    if da < db {
        let q: Seq<int> = Seq::empty();
        let r: Seq<int> = Seq::new(db as nat, |k: int| coeff(a, k) % p);
        assert forall|k: int| (#[trigger] conv(q, b, k) + coeff(r, k)) % p == coeff(a, k) % p by {
            if k >= db {
                assert(coeff(a, k) == 0);
            } else if k >= 0 {
                lemma_mod_twice(coeff(a, k), p);
            }
        }
        assert(is_division(a, b, q, r));
        lemma_division_is(a, b, q, r);
        (q, r)
    } else {
        let t: int = da - db;
        let lead: int = b[db];
        crate::prime::lemma_finv(lead);
        let c: int = (a[da] * crate::prime::finv(lead)) % p;
        let a1: Seq<int> = reduced(a, b, c, t);
        // the leading coefficient is gone
        assert(a1[da] == 0) by {
            let x: int = a[da];
            let u: int = crate::prime::finv(lead);
            crate::modular::lemma_cong_mul(c, x * u, lead, lead, p);
            assert((x * u) * lead == x * (lead * u)) by (nonlinear_arith);
            lemma_small_mod(1, p as nat);
            crate::modular::lemma_cong_mul(x, x, lead * u, 1, p);
            assert(x * 1 == x);
            lemma_cong_sub(x, x, c * lead, x, p);
        }
        assert forall|k: int| da < k < a1.len() implies a1[k] == 0 by {
            assert(coeff(a, k) == 0);
            assert(coeff(b, k - t) == 0);
            assert(c * 0 == 0);
        }
        lemma_degree(a1);
        assert(degree(a1) < da) by {
            if degree(a1) >= da {
                assert(a1[degree(a1)] != 0);
            }
        }
        let (q1, r1) = lemma_division_exists(a1, b);
        let qp: Seq<int> = Seq::new((t + 1) as nat, |i: int| coeff(q1, i));
        let q: Seq<int> = qp.update(t, c);
        assert forall|k: int| (#[trigger] conv(q, b, k) + coeff(r1, k)) % p == coeff(a, k) % p by {
            lemma_conv_update(qp, b, t, c, k);
            assert forall|j: int| coeff(qp, j) == coeff(q1, j) by {}
            crate::products::lemma_conv_same_coeffs(qp, q1, b, b, k);
            assert((conv(q1, b, k) + coeff(r1, k)) % p == coeff(a1, k) % p);
            let shift: int = c * coeff(b, k - t);
            assert(qp[t] == 0);
            if 0 <= k < a.len() {
                lemma_mod_twice(a[k] - shift, p);
                crate::modular::lemma_cong_add(
                    conv(q1, b, k) + coeff(r1, k),
                    a[k] - shift,
                    shift,
                    shift,
                    p,
                );
            } else {
                assert(coeff(b, k - t) == 0) by {
                    if k >= a.len() {
                        assert(k - t > db);
                    }
                }
                assert(c * 0 == 0);
            }
        }
        assert(all_residues(q)) by {
            assert forall|i: int| 0 <= i < q.len() implies 0 <= #[trigger] q[i] < p by {
                if i != t && i < q1.len() {
                    assert(0 <= q1[i] < p);
                }
            }
        }
        assert(is_division(a, b, q, r1));
        lemma_division_is(a, b, q, r1);
        (q, r1)
    }
}

} // verus!
