//! Multivariate polynomials over the field: the algebraic constraints that
//! a trace must meet.

use vstd::prelude::*;
use vstd::arithmetic::mul::*;
use vstd::arithmetic::power::*;
use crate::field::{lemma_felt_range, residues, Felt};
use crate::modular::{lemma_cong_add, lemma_cong_mul};
use crate::prime::modulus;
use crate::prover::ProvingError;
use crate::sums::sum;

verus! {

/// A polynomial in several variables, as a list of terms: term `t` is
/// `coefficients[t]` times the product of the variables, variable `j`
/// raised to `powers[t][j]`. Where the two lists differ in length, the
/// shorter one decides the number of terms.
#[derive(Debug)]
pub struct MultivariatePolynomial {
    pub powers: Vec<Vec<u64>>,
    pub coefficients: Vec<Felt>,
}

/// The terms of a multivariate polynomial as mathematical values.
pub struct Terms {
    pub powers: Seq<Seq<int>>,
    pub coefficients: Seq<int>,
}

/// The exponents of one term as mathematical integers.
pub open spec fn exponents(e: Seq<u64>) -> Seq<int> {
    Seq::new(e.len(), |j: int| e[j] as int)
}

impl View for MultivariatePolynomial {
    type V = Terms;

    open spec fn view(&self) -> Terms {
        Terms {
            powers: Seq::new(self.powers@.len(), |t: int| exponents(self.powers@[t]@)),
            coefficients: residues(self.coefficients@),
        }
    }
}

impl Terms {
    /// The number of terms.
    pub open spec fn count(self) -> int {
        if self.powers.len() <= self.coefficients.len() {
            self.powers.len() as int
        } else {
            self.coefficients.len() as int
        }
    }

    /// The number of variables that the first `n` terms mention: the
    /// largest number of exponents that any of them holds.
    pub open spec fn width_of_first(self, n: int) -> int
        decreases n,
    {
        if n <= 0 {
            0
        } else {
            let rest: int = self.width_of_first(n - 1);
            if self.powers[n - 1].len() > rest {
                self.powers[n - 1].len() as int
            } else {
                rest
            }
        }
    }

    /// The number of variables that the polynomial mentions.
    pub open spec fn width(self) -> int {
        self.width_of_first(self.count())
    }

    /// No term mentions a variable beyond the first `width`.
    pub open spec fn fits(self, width: int) -> bool {
        forall|t: int| 0 <= t < self.count() ==> (#[trigger] self.powers[t]).len() <= width
    }

    /// The value of term `t` at `point`, over the integers.
    pub open spec fn term_value(self, point: Seq<int>) -> spec_fn(int) -> int {
        |t: int|
            self.coefficients[t] * monomial_value(
                self.powers[t],
                point,
                self.powers[t].len() as int,
            )
    }

    /// The value of the polynomial at `point`, over the integers.
    pub open spec fn eval(self, point: Seq<int>) -> int {
        sum(self.term_value(point), self.count())
    }

    /// The value of the polynomial at `point`, in the field.
    pub open spec fn feval(self, point: Seq<int>) -> int {
        self.eval(point) % modulus()
    }

    /// The largest degree bound among the first `n` terms with a non-zero
    /// coefficient, 0 if there is none.
    pub open spec fn degree_bound_of_first(self, max_degrees: Seq<int>, n: int) -> int
        decreases n,
    {
        if n <= 0 {
            0
        } else {
            let rest: int = self.degree_bound_of_first(max_degrees, n - 1);
            let this: int = monomial_degree_bound(
                self.powers[n - 1],
                max_degrees,
                self.powers[n - 1].len() as int,
            );
            if self.coefficients[n - 1] != 0 && this > rest {
                this
            } else {
                rest
            }
        }
    }

    /// An upper bound on the degree of the polynomial that results when
    /// variable `j` is replaced by a polynomial of degree at most
    /// `max_degrees[j]`: the largest, over the terms with a non-zero
    /// coefficient, of the sum of `powers[t][j] * max_degrees[j]`.
    pub open spec fn degree_bound(self, max_degrees: Seq<int>) -> int {
        self.degree_bound_of_first(max_degrees, self.count())
    }
}

/// The product of the first `n` variables of `point`, variable `j` raised
/// to `e[j]`.
pub open spec fn monomial_value(e: Seq<int>, point: Seq<int>, n: int) -> int
    decreases n,
{
    if n <= 0 {
        1
    } else {
        monomial_value(e, point, n - 1) * pow(point[n - 1], e[n - 1] as nat)
    }
}

/// The sum over the first `n` variables of `e[j] * max_degrees[j]`.
pub open spec fn monomial_degree_bound(e: Seq<int>, max_degrees: Seq<int>, n: int) -> int
    decreases n,
{
    if n <= 0 {
        0
    } else {
        monomial_degree_bound(e, max_degrees, n - 1) + e[n - 1] * max_degrees[n - 1]
    }
}

/// The bounds of a list as mathematical integers.
pub open spec fn bounds(d: Seq<usize>) -> Seq<int> {
    Seq::new(d.len(), |j: int| d[j] as int)
}

/// `x` capped at the largest machine word.
pub open spec fn saturated(x: int) -> int {
    if x > usize::MAX {
        usize::MAX as int
    } else {
        x
    }
}

/// None of the first `n` terms mentions more variables than
/// `width_of_first(n)`.
pub proof fn lemma_width_of_first(m: Terms, n: int, t: int)
    requires
        0 <= t < n,
    ensures
        m.powers[t].len() <= m.width_of_first(n),
        m.width_of_first(n) >= 0,
    decreases n,
{
    if t < n - 1 {
        lemma_width_of_first(m, n - 1, t);
    }
}

/// A polynomial that fits a width mentions no more variables than that.
pub proof fn lemma_width_of_fitting(m: Terms, width: int, n: int)
    requires
        0 <= width,
        n <= m.count(),
        m.fits(width),
    ensures
        m.width_of_first(n) <= width,
    decreases n,
{
    if n > 0 {
        lemma_width_of_fitting(m, width, n - 1);
        assert(m.powers[n - 1].len() <= width);
    }
}

/// A polynomial fits every width from the number of its variables on.
pub proof fn lemma_fits_its_width(m: Terms, width: int)
    requires
        width >= m.width(),
    ensures
        m.fits(width),
{
    assert forall|t: int| 0 <= t < m.count() implies (#[trigger] m.powers[t]).len() <= width by {
        lemma_width_of_first(m, m.count(), t);
    }
}

impl MultivariatePolynomial {
    /// The number of variables that the polynomial mentions: the largest
    /// number of exponents that a term holds.
    pub fn variable_count(&self) -> (r: usize)
        ensures
            r == self@.width(),
    {
        let count: usize = self.term_count();
        let mut width: usize = 0;
        let mut t: usize = 0;
        while t < count
            invariant
                count == self@.count(),
                t <= count,
                width == self@.width_of_first(t as int),
            decreases count - t,
        {
            if self.powers[t].len() > width {
                width = self.powers[t].len();
            }
            t = t + 1;
        }
        width
    }

    /// The polynomial with the given terms.
    pub fn new(powers: Vec<Vec<u64>>, coefficients: Vec<Felt>) -> (r: Self)
        ensures
            r.powers == powers,
            r.coefficients == coefficients,
    {
        MultivariatePolynomial { powers, coefficients }
    }

    /// The number of terms.
    pub fn term_count(&self) -> (r: usize)
        ensures
            r == self@.count(),
    {
        if self.powers.len() <= self.coefficients.len() {
            self.powers.len()
        } else {
            self.coefficients.len()
        }
    }

    /// The value at `point`, which must hold a value for every variable
    /// that a term mentions.
    pub fn evaluate(&self, point: &[Felt]) -> (r: Result<Felt, ProvingError>)
        ensures
            r is Ok <==> self@.fits(point.len() as int),
            r matches Ok(v) ==> v@ == self@.feval(residues(point@)),
            r matches Err(e) ==> e == ProvingError::InvalidInput,
    {
        let ghost p: int = modulus();
        let ghost m: Terms = self@;
        let ghost x: Seq<int> = residues(point@);
        let count: usize = self.term_count();
        let mut acc: Felt = Felt::zero();
        let mut t: usize = 0;
        while t < count
            invariant
                p == modulus(),
                m == self@,
                x == residues(point@),
                count == m.count(),
                t <= count,
                forall|s: int| 0 <= s < t ==> (#[trigger] m.powers[s]).len() <= point.len(),
                acc@ == sum(m.term_value(x), t as int) % p,
            decreases count - t,
        {
            let exps: &Vec<u64> = &self.powers[t];
            if exps.len() > point.len() {
                proof {
                    assert(m.powers[t as int].len() > point.len());
                }
                return Err(ProvingError::InvalidInput);
            }
            let ghost e: Seq<int> = m.powers[t as int];
            let mut product: Felt = self.coefficients[t];
            let mut j: usize = 0;
            proof {
                assert(m.coefficients[t as int] * 1 == m.coefficients[t as int]);
                lemma_felt_range(product);
            }
            while j < exps.len()
                invariant
                    p == modulus(),
                    m == self@,
                    x == residues(point@),
                    t < count,
                    count == m.count(),
                    exps == self.powers[t as int],
                    e == m.powers[t as int],
                    exps.len() <= point.len(),
                    j <= exps.len(),
                    product@ == (m.coefficients[t as int] * monomial_value(e, x, j as int)) % p,
                decreases exps.len() - j,
            {
                let ghost before: int = product@;
                let factor: Felt = point[j].pow(exps[j]);
                product = product.mul(factor);
                proof {
                    let c: int = m.coefficients[t as int];
                    let mv: int = monomial_value(e, x, j as int);
                    let f: int = pow(x[j as int], e[j as int] as nat);
                    lemma_cong_mul(before, c * mv, factor@, f, p);
                    assert((c * mv) * f == c * (mv * f)) by (nonlinear_arith);
                }
                j = j + 1;
            }
            let ghost before_acc: int = acc@;
            acc = acc.add(product);
            proof {
                lemma_cong_add(
                    before_acc,
                    sum(m.term_value(x), t as int),
                    product@,
                    m.term_value(x)(t as int),
                    p,
                );
            }
            t = t + 1;
        }
        Ok(acc)
    }

    /// An upper bound on the degree of the polynomial that results when
    /// variable `j` is replaced by a polynomial of degree at most
    /// `max_degrees[j]`, capped at the largest machine word.
    pub fn symbolic_degree_bound(&self, max_degrees: &[usize]) -> (r: usize)
        requires
            self@.fits(max_degrees.len() as int),
        ensures
            r == saturated(self@.degree_bound(bounds(max_degrees@))),
    {
        let ghost m: Terms = self@;
        let ghost d: Seq<int> = bounds(max_degrees@);
        let count: usize = self.term_count();
        let mut best: usize = 0;
        let mut t: usize = 0;
        while t < count
            invariant
                m == self@,
                d == bounds(max_degrees@),
                count == m.count(),
                m.fits(max_degrees.len() as int),
                t <= count,
                best == saturated(m.degree_bound_of_first(d, t as int)),
                m.degree_bound_of_first(d, t as int) >= 0,
            decreases count - t,
        {
            let exps: &Vec<u64> = &self.powers[t];
            let ghost e: Seq<int> = m.powers[t as int];
            proof {
                assert(m.powers[t as int].len() <= max_degrees.len());
            }
            let mut total: usize = 0;
            let mut j: usize = 0;
            while j < exps.len()
                invariant
                    m == self@,
                    d == bounds(max_degrees@),
                    t < count,
                    count == m.count(),
                    exps == self.powers[t as int],
                    e == m.powers[t as int],
                    exps.len() <= max_degrees.len(),
                    j <= exps.len(),
                    total == saturated(monomial_degree_bound(e, d, j as int)),
                    monomial_degree_bound(e, d, j as int) >= 0,
                decreases exps.len() - j,
            {
                let exponent: u64 = exps[j];
                let bound: usize = max_degrees[j];
                proof {
                    lemma_mul_nonnegative(exponent as int, bound as int);
                }
                let product: usize = if exponent > usize::MAX as u64 {
                    if bound == 0 {
                        proof {
                            assert(exponent as int * 0 == 0);
                        }
                        0
                    } else {
                        proof {
                            assert(exponent as int * bound as int > usize::MAX)
                                by (nonlinear_arith)
                                requires
                                    exponent > usize::MAX,
                                    bound >= 1,
                            ;
                        }
                        usize::MAX
                    }
                } else {
                    match (exponent as usize).checked_mul(bound) {
                        Some(v) => v,
                        None => usize::MAX,
                    }
                };
                total = total.saturating_add(product);
                j = j + 1;
            }
            if !self.coefficients[t].is_zero() && total > best {
                best = total;
            }
            t = t + 1;
        }
        best
    }
}

} // verus!
