//! Dense univariate polynomials over the field.

use vstd::prelude::*;
use vstd::arithmetic::div_mod::*;
use vstd::arithmetic::power::*;
use crate::division::{
    is_division, lemma_conv_update, lemma_division_is, quotient, quotient_length, remainder,
};
use crate::field::{fpow, lemma_felt_range, residues, Felt};
use crate::modular::{lemma_cong_add, lemma_cong_mul, lemma_cong_sub, lemma_pow_succ};
use crate::poly_spec::{
    coeff, coeffs, conv, conv_term, degree, eval_fn, feval, lemma_degree, lemma_degree_unique,
    poly_term,
};
use crate::prime::{finv, modulus};
use crate::sums::sum;

verus! {

/// A polynomial, as its coefficients from the constant term up. Trailing
/// zero coefficients are allowed and change nothing about its value.
#[derive(Debug)]
pub struct Polynomial {
    pub coefficients: Vec<Felt>,
}

impl View for Polynomial {
    type V = Seq<int>;

    /// The residues of the coefficients, lowest degree first.
    open spec fn view(&self) -> Seq<int> {
        residues(self.coefficients@)
    }
}

/// The coefficients of `c` with every `c[j]` multiplied by `s^j`: those of
/// the polynomial `P(s * X)`.
pub open spec fn scaled(c: Seq<int>, s: int) -> Seq<int> {
    Seq::new(c.len(), |j: int| (c[j] * pow(s, j as nat)) % modulus())
}

/// The coefficientwise sum of two polynomials.
pub open spec fn poly_sum(a: Seq<int>, b: Seq<int>) -> Seq<int> {
    Seq::new(
        if a.len() >= b.len() {
            a.len()
        } else {
            b.len()
        },
        |k: int| (coeff(a, k) + coeff(b, k)) % modulus(),
    )
}

/// The coefficientwise difference of two polynomials.
pub open spec fn poly_difference(a: Seq<int>, b: Seq<int>) -> Seq<int> {
    Seq::new(
        if a.len() >= b.len() {
            a.len()
        } else {
            b.len()
        },
        |k: int| (coeff(a, k) - coeff(b, k)) % modulus(),
    )
}

/// The product of two polynomials by direct convolution: empty when a
/// factor is zero, else of `len(a) + len(b) - 1` coefficients.
pub open spec fn poly_product(a: Seq<int>, b: Seq<int>) -> Seq<int> {
    if degree(a) < 0 || degree(b) < 0 {
        Seq::empty()
    } else {
        Seq::new((a.len() + b.len() - 1) as nat, |k: int| conv(a, b, k) % modulus())
    }
}

/// A copy of a list of field elements.
pub fn copy_elements(values: &[Felt]) -> (r: Vec<Felt>)
    ensures
        r@ == values@,
{
    let mut out: Vec<Felt> = Vec::new();
    let mut i: usize = 0;
    while i < values.len()
        invariant
            i <= values.len(),
            out@ == values@.take(i as int),
        decreases values.len() - i,
    {
        out.push(values[i]);
        proof {
            assert(values@.take(i as int).push(values@[i as int]) =~= values@.take(i + 1));
        }
        i = i + 1;
    }
    proof {
        assert(values@.take(values.len() as int) =~= values@);
    }
    out
}

/// A list of `n` zeros.
pub fn zeros(n: usize) -> (r: Vec<Felt>)
    ensures
        r.len() == n,
        forall|i: int| 0 <= i < n ==> (#[trigger] r[i])@ == 0,
{
    let mut out: Vec<Felt> = Vec::new();
    let mut i: usize = 0;
    while i < n
        invariant
            i <= n,
            out.len() == i,
            forall|j: int| 0 <= j < i ==> (#[trigger] out[j])@ == 0,
        decreases n - i,
    {
        out.push(Felt::zero());
        i = i + 1;
    }
    out
}

impl Clone for Polynomial {
    fn clone(&self) -> (r: Self)
        ensures
            r.coefficients@ == self.coefficients@,
    {
        Polynomial { coefficients: copy_elements(self.coefficients.as_slice()) }
    }
}

impl Polynomial {
    /// The polynomial with the given coefficients, lowest degree first.
    pub fn new(coefficients: Vec<Felt>) -> (r: Self)
        ensures
            r.coefficients == coefficients,
    {
        Polynomial { coefficients }
    }

    /// The degree: the index of the last non-zero coefficient, or `None`
    /// for the zero polynomial.
    pub fn degree(&self) -> (r: Option<usize>)
        ensures
            match r {
                Some(d) => d as int == degree(self@),
                None => degree(self@) == -1,
            },
    {
        let mut i: usize = self.coefficients.len();
        while i > 0
            invariant
                i <= self.coefficients.len(),
                forall|k: int| i <= k < self.coefficients.len() ==> #[trigger] self@[k] == 0,
            decreases i,
        {
            if !self.coefficients[i - 1].is_zero() {
                proof {
                    lemma_degree_unique(self@, i - 1);
                }
                return Some(i - 1);
            }
            i = i - 1;
        }
        proof {
            lemma_degree_unique(self@, -1);
        }
        None
    }

    /// Whether every coefficient is zero.
    pub fn is_zero(&self) -> (r: bool)
        ensures
            r == (degree(self@) == -1),
    {
        self.degree().is_none()
    }

    /// The value of the polynomial at `x`.
    pub fn evaluate(&self, x: Felt) -> (r: Felt)
        ensures
            r@ == feval(self@, x@),
    {
        let ghost p: int = modulus();
        let ghost c: Seq<int> = self@;
        let mut acc: Felt = Felt::zero();
        let mut xp: Felt = Felt::one();
        let mut i: usize = 0;
        proof {
            lemma_pow0(x@);
        }
        while i < self.coefficients.len()
            invariant
                p == modulus(),
                c == self@,
                i <= self.coefficients.len(),
                acc@ == eval_fn(coeffs(c), x@, i as int) % p,
                xp@ == fpow(x@, i as nat),
            decreases self.coefficients.len() - i,
        {
            let ghost old_acc: int = acc@;
            let ghost old_xp: int = xp@;
            let t: Felt = self.coefficients[i].mul(xp);
            acc = acc.add(t);
            xp = xp.mul(x);
            proof {
                let e: int = eval_fn(coeffs(c), x@, i as int);
                let term: int = poly_term(coeffs(c), x@)(i as int);
                assert(term == c[i as int] * pow(x@, i as nat));
                lemma_cong_mul(c[i as int], c[i as int], old_xp, pow(x@, i as nat), p);
                lemma_mod_twice(c[i as int] * old_xp, p);
                lemma_cong_add(old_acc, e, t@, term, p);
                lemma_pow_succ(x@, i as nat);
                lemma_cong_mul(old_xp, pow(x@, i as nat), x@, x@, p);
            }
            i = i + 1;
        }
        acc
    }

    /// The polynomial `P(factor * X)`: coefficient `j` is multiplied by
    /// `factor^j`.
    pub fn scale(&self, factor: Felt) -> (r: Polynomial)
        ensures
            r@ == scaled(self@, factor@),
    {
        let ghost p: int = modulus();
        let ghost c: Seq<int> = self@;
        let mut out: Vec<Felt> = Vec::new();
        let mut fp: Felt = Felt::one();
        let mut i: usize = 0;
        proof {
            lemma_pow0(factor@);
        }
        while i < self.coefficients.len()
            invariant
                p == modulus(),
                c == self@,
                i <= self.coefficients.len(),
                out.len() == i,
                fp@ == fpow(factor@, i as nat),
                forall|j: int| 0 <= j < i ==> (#[trigger] out[j])@ == scaled(c, factor@)[j],
            decreases self.coefficients.len() - i,
        {
            let ghost old_fp: int = fp@;
            out.push(self.coefficients[i].mul(fp));
            fp = fp.mul(factor);
            proof {
                lemma_cong_mul(c[i as int], c[i as int], old_fp, pow(factor@, i as nat), p);
                lemma_pow_succ(factor@, i as nat);
                lemma_cong_mul(old_fp, pow(factor@, i as nat), factor@, factor@, p);
            }
            i = i + 1;
        }
        let r = Polynomial { coefficients: out };
        proof {
            assert(r@ =~= scaled(self@, factor@));
        }
        r
    }

    /// The product of two polynomials, by direct convolution of their
    /// coefficient lists.
    pub fn mul(&self, rhs: &Polynomial) -> (r: Polynomial)
        requires
            self.coefficients.len() + rhs.coefficients.len() <= usize::MAX,
        ensures
            r@ == poly_product(self@, rhs@),
    {
        if self.is_zero() || rhs.is_zero() {
            let r = Polynomial { coefficients: Vec::new() };
            proof {
                assert(r@ =~= poly_product(self@, rhs@));
            }
            return r;
        }
        proof {
            lemma_degree(self@);
            lemma_degree(rhs@);
        }
        let ghost p: int = modulus();
        let ghost a: Seq<int> = self@;
        let ghost b: Seq<int> = rhs@;
        let la: usize = self.coefficients.len();
        let lb: usize = rhs.coefficients.len();
        let n: usize = la + lb - 1;
        let mut out: Vec<Felt> = zeros(n);
        let mut i: usize = 0;
        while i < la
            invariant
                p == modulus(),
                a == self@,
                b == rhs@,
                la == self.coefficients.len(),
                lb == rhs.coefficients.len(),
                lb >= 1,
                n == la + lb - 1,
                i <= la,
                out.len() == n,
                forall|k: int|
                    0 <= k < n ==> (#[trigger] out[k])@ == sum(conv_term(a, b, k), i as int) % p,
            decreases la - i,
        {
            let lhs_coefficient: Felt = self.coefficients[i];
            let mut j: usize = 0;
            while j < lb
                invariant
                    p == modulus(),
                    a == self@,
                    b == rhs@,
                    la == self.coefficients.len(),
                    lb == rhs.coefficients.len(),
                    n == la + lb - 1,
                    i < la,
                    j <= lb,
                    lhs_coefficient == self.coefficients[i as int],
                    out.len() == n,
                    forall|k: int|
                        0 <= k < n ==> (#[trigger] out[k])@ == (sum(conv_term(a, b, k), i as int)
                            + (if i <= k < i + j {
                            a[i as int] * b[k - i]
                        } else {
                            0
                        })) % p,
                decreases lb - j,
            {
                let t: Felt = lhs_coefficient.mul(rhs.coefficients[j]);
                let ghost prev: int = out[i + j]@;
                let v: Felt = out[i + j].add(t);
                out.set(i + j, v);
                proof {
                    let k: int = i + j;
                    let s: int = sum(conv_term(a, b, k), i as int);
                    lemma_cong_add(prev, s, t@, a[i as int] * b[j as int], p);
                }
                j = j + 1;
            }
            proof {
                assert forall|k: int| 0 <= k < n implies (#[trigger] out[k])@ == sum(
                    conv_term(a, b, k),
                    i + 1,
                ) % p by {
                    assert(conv_term(a, b, k)(i as int) == coeff(a, i as int) * coeff(
                        b,
                        k - i,
                    ));
                    if !(i <= k < i + lb) {
                        assert(coeff(a, i as int) * 0 == 0);
                    }
                }
            }
            i = i + 1;
        }
        let r = Polynomial { coefficients: out };
        proof {
            assert(r@ =~= poly_product(self@, rhs@));
        }
        r
    }

    /// The quotient and the remainder of the division by `rhs`; `None`
    /// where `rhs` is the zero polynomial.
    pub fn divide(&self, rhs: &Polynomial) -> (result: Option<(Polynomial, Polynomial)>)
        ensures
            result is None <==> degree(rhs@) < 0,
            result matches Some((q, r)) ==> is_division(self@, rhs@, q@, r@) && q@ == quotient(
                self@,
                rhs@,
            ) && r@ == remainder(self@, rhs@),
    {
        broadcast use lemma_felt_range;

        let ghost p: int = modulus();
        let ghost a: Seq<int> = self@;
        let ghost b: Seq<int> = rhs@;
        let db: usize = match rhs.degree() {
            Some(d) => d,
            None => {
                return None;
            },
        };
        proof {
            lemma_degree(a);
            lemma_degree(b);
        }
        let lead_inverse: Felt = match rhs.coefficients[db].inverse() {
            Some(x) => x,
            None => {
                return None;
            },
        };
        let la: usize = self.coefficients.len();
        let qlen: usize = match self.degree() {
            Some(da) => if da >= db {
                da - db + 1
            } else {
                0
            },
            None => 0,
        };
        let mut rem: Vec<Felt> = copy_elements(self.coefficients.as_slice());
        let mut quo: Vec<Felt> = zeros(qlen);
        let mut s: usize = qlen;
        proof {
            assert(residues(rem@) =~= a);
            assert forall|k: int| s + db <= k < la implies (#[trigger] rem[k])@ == 0 by {
                assert(coeff(a, k) == 0);
            }
            assert forall|k: int|
                (#[trigger] conv(residues(quo@), b, k) + coeff(residues(rem@), k)) % p == coeff(
                    a,
                    k,
                ) % p by {
                let q0: Seq<int> = residues(quo@);
                assert forall|i: int| 0 <= i < q0.len() implies #[trigger] conv_term(q0, b, k)(i)
                    == 0 by {
                    assert(q0[i] == 0);
                    assert(0 * coeff(b, k - i) == 0);
                }
                crate::sums::lemma_sum_zero(conv_term(q0, b, k), q0.len() as int);
            }
        }
        while s > 0
            invariant
                p == modulus(),
                a == self@,
                b == rhs@,
                la == self.coefficients.len(),
                rem.len() == la,
                quo.len() == qlen,
                s <= qlen,
                db == degree(b),
                db < rhs.coefficients.len(),
                qlen == quotient_length(a, b),
                qlen > 0 ==> qlen + db <= la,
                b[db as int] != 0,
                lead_inverse@ == finv(b[db as int]),
                forall|k: int| s + db <= k < la ==> (#[trigger] rem[k])@ == 0,
                forall|i: int| 0 <= i < s ==> (#[trigger] quo[i])@ == 0,
                forall|k: int|
                    (#[trigger] conv(residues(quo@), b, k) + coeff(residues(rem@), k)) % p
                        == coeff(a, k) % p,
            decreases s,
        {
            let t: usize = s - 1;
            let top: usize = t + db;
            let c: Felt = rem[top].mul(lead_inverse);
            let ghost quo_old: Seq<int> = residues(quo@);
            let ghost rem_old: Seq<int> = residues(rem@);
            quo.set(t, c);
            let mut j: usize = 0;
            while j <= db
                invariant
                    p == modulus(),
                    b == rhs@,
                    rem.len() == la,
                    rem_old.len() == la,
                    t + db < la,
                    db < rhs.coefficients.len(),
                    j <= db + 1,
                    forall|k: int|
                        0 <= k < la ==> (#[trigger] rem[k])@ == (if t <= k < t + j {
                            (rem_old[k] - c@ * b[k - t]) % p
                        } else {
                            rem_old[k]
                        }),
                decreases db + 1 - j,
            {
                let ghost before: int = rem[t + j]@;
                let v: Felt = rem[t + j].sub(c.mul(rhs.coefficients[j]));
                rem.set(t + j, v);
                proof {
                    lemma_sub_mod_noop_right(before, c@ * b[j as int], p);
                }
                j = j + 1;
            }
            proof {
                let quo_new: Seq<int> = residues(quo@);
                let rem_new: Seq<int> = residues(rem@);
                lemma_degree(b);
                lemma_felt_range(rhs.coefficients@[db as int]);
                assert(quo_new =~= quo_old.update(t as int, c@));
                assert(quo_old[t as int] == 0);
                assert forall|k: int|
                    (#[trigger] conv(quo_new, b, k) + coeff(rem_new, k)) % p == coeff(a, k)
                        % p by {
                    lemma_conv_update(quo_old, b, t as int, c@, k);
                    let shift: int = c@ * coeff(b, k - t);
                    assert((conv(quo_old, b, k) + coeff(rem_old, k)) % p == coeff(a, k) % p);
                    // the remainder lost what the quotient gained
                    assert(coeff(rem_new, k) % p == (coeff(rem_old, k) - shift) % p) by {
                        if t <= k <= t + db {
                            lemma_mod_twice(rem_old[k] - c@ * b[k - t], p);
                        } else {
                            assert(coeff(b, k - t) == 0);
                            assert(c@ * 0 == 0);
                        }
                    }
                    lemma_cong_add(
                        conv(quo_old, b, k) + shift,
                        conv(quo_old, b, k) + shift,
                        coeff(rem_new, k),
                        coeff(rem_old, k) - shift,
                        p,
                    );
                }
                // the leading coefficient of the remainder is gone
                assert(rem[top as int]@ == 0) by {
                    let lead: int = b[db as int];
                    let x: int = rem_old[top as int];
                    crate::prime::lemma_finv(lead);
                    // c * lead is congruent to x
                    lemma_cong_mul(c@, x * finv(lead), lead, lead, p);
                    assert((x * finv(lead)) * lead == x * (lead * finv(lead)))
                        by (nonlinear_arith);
                    lemma_small_mod(1, p as nat);
                    lemma_cong_mul(x, x, lead * finv(lead), 1, p);
                    assert(x * 1 == x);
                    lemma_cong_sub(x, x, c@ * lead, x, p);
                }
            }
            s = t;
        }
        let mut remainder_coefficients: Vec<Felt> = Vec::new();
        let mut k: usize = 0;
        while k < db
            invariant
                rem.len() == la,
                k <= db,
                remainder_coefficients.len() == k,
                forall|i: int|
                    0 <= i < k ==> (#[trigger] remainder_coefficients[i])@ == coeff(
                        residues(rem@),
                        i,
                    ),
            decreases db - k,
        {
            let v: Felt = if k < la {
                rem[k]
            } else {
                Felt::zero()
            };
            remainder_coefficients.push(v);
            k = k + 1;
        }
        let q = Polynomial { coefficients: quo };
        let r = Polynomial { coefficients: remainder_coefficients };
        proof {
            assert forall|k: int|
                (#[trigger] conv(q@, b, k) + coeff(r@, k)) % p == coeff(a, k) % p by {
                assert((conv(residues(quo@), b, k) + coeff(residues(rem@), k)) % p == coeff(a, k)
                    % p);
                if db <= k < la {
                    assert(rem[k]@ == 0);
                }
            }
            assert(is_division(a, b, q@, r@));
            lemma_division_is(a, b, q@, r@);
        }
        Some((q, r))
    }

    /// The sum of two polynomials.
    pub fn add(&self, rhs: &Polynomial) -> (r: Polynomial)
        ensures
            r@ == poly_sum(self@, rhs@),
    {
        let n: usize = if self.coefficients.len() >= rhs.coefficients.len() {
            self.coefficients.len()
        } else {
            rhs.coefficients.len()
        };
        let mut out: Vec<Felt> = Vec::new();
        let mut i: usize = 0;
        while i < n
            invariant
                i <= n,
                n == poly_sum(self@, rhs@).len(),
                out.len() == i,
                forall|j: int| 0 <= j < i ==> (#[trigger] out[j])@ == poly_sum(self@, rhs@)[j],
            decreases n - i,
        {
            let a: Felt = if i < self.coefficients.len() {
                self.coefficients[i]
            } else {
                Felt::zero()
            };
            let b: Felt = if i < rhs.coefficients.len() {
                rhs.coefficients[i]
            } else {
                Felt::zero()
            };
            out.push(a.add(b));
            i = i + 1;
        }
        let r = Polynomial { coefficients: out };
        proof {
            assert(r@ =~= poly_sum(self@, rhs@));
        }
        r
    }

    /// The difference of two polynomials.
    pub fn sub(&self, rhs: &Polynomial) -> (r: Polynomial)
        ensures
            r@ == poly_difference(self@, rhs@),
    {
        let n: usize = if self.coefficients.len() >= rhs.coefficients.len() {
            self.coefficients.len()
        } else {
            rhs.coefficients.len()
        };
        let mut out: Vec<Felt> = Vec::new();
        let mut i: usize = 0;
        while i < n
            invariant
                i <= n,
                n == poly_difference(self@, rhs@).len(),
                out.len() == i,
                forall|j: int|
                    0 <= j < i ==> (#[trigger] out[j])@ == poly_difference(self@, rhs@)[j],
            decreases n - i,
        {
            let a: Felt = if i < self.coefficients.len() {
                self.coefficients[i]
            } else {
                Felt::zero()
            };
            let b: Felt = if i < rhs.coefficients.len() {
                rhs.coefficients[i]
            } else {
                Felt::zero()
            };
            out.push(a.sub(b));
            i = i + 1;
        }
        let r = Polynomial { coefficients: out };
        proof {
            assert(r@ =~= poly_difference(self@, rhs@));
        }
        r
    }
}

} // verus!
