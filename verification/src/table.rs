//! Execution-trace tables, and the quotienting of their constraints over
//! an evaluation domain.
//!
//! The evaluation domain of length `L = 2^k` is the coset of the `L`-th
//! roots of unity by the field's generator: point `i` is
//! `generator * w^i`, with `w` the root of unity that the field fixes for
//! `L`. The rows of a table of height `h` sit at the `h`-th roots of unity.

use vstd::prelude::*;
use vstd::arithmetic::div_mod::*;
use vstd::arithmetic::mul::*;
use vstd::arithmetic::power::*;
use vstd::arithmetic::power2::*;
use crate::field::{invert_all, lemma_root_of_unity_order, residues, root_of_unity, Felt};
use crate::modular::{lemma_cong_mul, lemma_cong_pow, lemma_pow_succ};
use crate::multivariate::{
    bounds, lemma_fits_its_width, saturated, MultivariatePolynomial, Terms,
};
use crate::number_theory_transform::{transform_length, transform_log};
use crate::powers_of_two::log2;
use crate::prime::{
    finv, generator, generator_two_adic_power, lemma_finv, lemma_generator_two_adic_power,
    modulus,
};
use crate::prover::ProvingError;
use crate::transform_spec::lemma_inverse_root;

verus! {

/// Point `i` of the evaluation domain of length `2^log_len`.
pub open spec fn domain_point(log_len: nat, i: int) -> int {
    (generator() * pow(root_of_unity(log_len), i as nat)) % modulus()
}

/// The point of the last row of a table of height `2^log_height`: the
/// inverse of the root of unity of that order.
pub open spec fn last_row_point(log_height: nat) -> int {
    finv(root_of_unity(log_height))
}

/// The value at domain point `i` of `X - 1`, which vanishes on the first
/// row.
pub open spec fn boundary_zerofier(log_len: nat, i: int) -> int {
    (domain_point(log_len, i) - 1) % modulus()
}

/// The value at domain point `i` of `X - w_h^(-1)`, which vanishes on the
/// last row.
pub open spec fn terminal_zerofier(log_len: nat, log_height: nat, i: int) -> int {
    (domain_point(log_len, i) - last_row_point(log_height)) % modulus()
}

/// The value at domain point `i` of `X^h - 1`, which vanishes on every
/// row.
pub open spec fn subgroup_zerofier(log_len: nat, log_height: nat, i: int) -> int {
    (pow(domain_point(log_len, i), pow2(log_height)) - 1) % modulus()
}

/// The value at domain point `i` of `(X - w_h^(-1)) / (X^h - 1)`: the
/// inverse of the polynomial that vanishes on every row but the last.
pub open spec fn transition_zerofier_inverse(log_len: nat, log_height: nat, i: int) -> int {
    (finv(subgroup_zerofier(log_len, log_height, i)) * terminal_zerofier(
        log_len,
        log_height,
        i,
    )) % modulus()
}

/// The columns of a list of codewords, as residues.
pub open spec fn columns(codewords: Seq<Vec<Felt>>) -> Seq<Seq<int>> {
    Seq::new(codewords.len(), |c: int| residues(codewords[c]@))
}

/// Entry `i` of every column.
pub open spec fn row(cols: Seq<Seq<int>>, i: int) -> Seq<int> {
    Seq::new(cols.len(), |c: int| cols[c][i])
}

/// Entry `i` of every column, followed by entry `(i + step) mod len` of
/// every column: a row and the row that follows it in the trace.
pub open spec fn row_pair(cols: Seq<Seq<int>>, i: int, step: int, len: int) -> Seq<int> {
    row(cols, i) + row(cols, (i + step) % len)
}

/// Every column has `len` entries.
pub open spec fn columns_have_length(cols: Seq<Seq<int>>, len: int) -> bool {
    forall|c: int| 0 <= c < cols.len() ==> (#[trigger] cols[c]).len() == len
}

/// The views of a list of constraints.
pub open spec fn constraint_terms(constraints: Seq<MultivariatePolynomial>) -> Seq<Terms> {
    Seq::new(constraints.len(), |c: int| constraints[c]@)
}

/// Every constraint mentions at most the first `width` variables.
pub open spec fn constraints_fit(constraints: Seq<Terms>, width: int) -> bool {
    forall|c: int| 0 <= c < constraints.len() ==> (#[trigger] constraints[c]).fits(width)
}

/// The `2^32`-nd power of every domain point is that of the generator,
/// which is not 1.
pub proof fn lemma_domain_point_power(log_len: nat, i: int)
    requires
        log_len <= 32,
        0 <= i,
    ensures
        pow(domain_point(log_len, i), pow2(32)) % modulus() == generator_two_adic_power(),
        generator_two_adic_power() != 1,
{
    let p: int = modulus();
    let n: nat = pow2(32);
    let w: int = root_of_unity(log_len);
    let wi: int = pow(w, i as nat);
    let x: int = generator() * wi;
    lemma_root_of_unity_order(log_len);
    lemma_small_mod(1, p as nat);
    // w^(2^32) is congruent to 1
    assert(pow(w, n) % p == 1) by {
        lemma_pow2_adds(log_len, (32 - log_len) as nat);
        lemma_pow_multiplies(w, pow2(log_len), pow2((32 - log_len) as nat));
        lemma_cong_pow(pow(w, pow2(log_len)), 1, pow2((32 - log_len) as nat), p);
        lemma1_pow(pow2((32 - log_len) as nat));
    }
    // and so is (w^i)^(2^32)
    assert(pow(wi, n) % p == 1) by {
        lemma_pow_multiplies(w, i as nat, n);
        lemma_pow_multiplies(w, n, i as nat);
        lemma_mul_is_commutative(i, n as int);
        lemma_cong_pow(pow(w, n), 1, i as nat, p);
        lemma1_pow(i as nat);
    }
    lemma_cong_pow(domain_point(log_len, i), x, n, p);
    lemma_mod_twice(x, p);
    lemma_pow_distributes(generator(), wi, n);
    lemma_cong_mul(pow(generator(), n), pow(generator(), n), pow(wi, n), 1, p);
    assert(pow(generator(), n) * 1 == pow(generator(), n));
    lemma_generator_two_adic_power();
}

/// No domain point is a root of unity of two-power order: the domain is
/// disjoint from the rows of every table.
pub proof fn lemma_domain_point_off_rows(log_len: nat, i: int, y: int)
    requires
        log_len <= 32,
        0 <= i,
        pow(y, pow2(32)) % modulus() == 1,
    ensures
        (domain_point(log_len, i) - y) % modulus() != 0,
{
    let p: int = modulus();
    let x: int = domain_point(log_len, i);
    lemma_domain_point_power(log_len, i);
    if (x - y) % p == 0 {
        assert(x % p == y % p);
        lemma_cong_pow(x, y, pow2(32), p);
        assert(false);
    }
}

/// The point of the last row of a table is a root of unity of two-power
/// order.
pub proof fn lemma_last_row_point(log_height: nat)
    requires
        log_height <= 32,
    ensures
        pow(last_row_point(log_height), pow2(32)) % modulus() == 1,
{
    let p: int = modulus();
    let w: int = root_of_unity(log_height);
    let u: int = finv(w);
    lemma_root_of_unity_order(log_height);
    lemma_small_mod(1, p as nat);
    if log_height >= 1 {
        lemma_inverse_root(w, log_height);
    } else {
        lemma2_to64();
        lemma_pow1(w);
        lemma_finv(1);
        assert(1 * 1 == 1);
        lemma_pow1(u);
    }
    lemma_pow2_adds(log_height, (32 - log_height) as nat);
    lemma_pow_multiplies(u, pow2(log_height), pow2((32 - log_height) as nat));
    lemma_cong_pow(pow(u, pow2(log_height)), 1, pow2((32 - log_height) as nat), p);
    lemma1_pow(pow2((32 - log_height) as nat));
}

/// None of the three zerofiers vanishes on the evaluation domain.
pub proof fn lemma_zerofiers_nonzero(log_len: nat, log_height: nat, i: int)
    requires
        log_len <= 32,
        log_height <= 32,
        0 <= i,
    ensures
        boundary_zerofier(log_len, i) != 0,
        terminal_zerofier(log_len, log_height, i) != 0,
        subgroup_zerofier(log_len, log_height, i) != 0,
{
    let p: int = modulus();
    let x: int = domain_point(log_len, i);
    lemma_small_mod(1, p as nat);
    lemma1_pow(pow2(32));
    lemma_domain_point_off_rows(log_len, i, 1);
    lemma_last_row_point(log_height);
    lemma_domain_point_off_rows(log_len, i, last_row_point(log_height));
    lemma_domain_point_power(log_len, i);
    if subgroup_zerofier(log_len, log_height, i) == 0 {
        let h: nat = pow2(log_height);
        assert(pow(x, h) % p == 1);
        lemma_pow2_adds(log_height, (32 - log_height) as nat);
        lemma_pow_multiplies(x, h, pow2((32 - log_height) as nat));
        lemma_cong_pow(pow(x, h), 1, pow2((32 - log_height) as nat), p);
        lemma1_pow(pow2((32 - log_height) as nat));
        assert(false);
    }
}

/// The points of the evaluation domain of length `2^log_len`.
fn domain_points(log_len: u32, codeword_len: usize) -> (r: Vec<Felt>)
    requires
        log_len <= 32,
        codeword_len == pow2(log_len as nat),
    ensures
        r.len() == codeword_len,
        forall|i: int| 0 <= i < codeword_len ==> (#[trigger] r[i])@ == domain_point(
            log_len as nat,
            i,
        ),
{
    let ghost p: int = modulus();
    let omega: Felt = match Felt::get_root_of_unity(log_len) {
        Some(w) => w,
        None => Felt::one(),
    };
    let mut out: Vec<Felt> = Vec::new();
    let mut x: Felt = Felt::generator();
    let mut i: usize = 0;
    proof {
        lemma_pow0(omega@);
        assert(generator() * 1 == generator());
    }
    while i < codeword_len
        invariant
            p == modulus(),
            omega@ == root_of_unity(log_len as nat),
            i <= codeword_len,
            out.len() == i,
            x@ == domain_point(log_len as nat, i as int),
            forall|j: int| 0 <= j < i ==> (#[trigger] out[j])@ == domain_point(
                log_len as nat,
                j,
            ),
        decreases codeword_len - i,
    {
        out.push(x);
        proof {
            let w: int = omega@;
            let wi: int = pow(w, i as nat);
            lemma_pow_succ(w, i as nat);
            lemma_mul_mod_noop_general(generator() * wi, w, p);
            assert((generator() * wi) * w == generator() * (wi * w)) by (nonlinear_arith);
        }
        x = x.mul(omega);
        i = i + 1;
    }
    out
}

/// Whether every codeword has `codeword_len` entries.
fn check_lengths(codeword_len: usize, codewords: &[Vec<Felt>]) -> (r: bool)
    ensures
        r == columns_have_length(columns(codewords@), codeword_len as int),
{
    let mut c: usize = 0;
    while c < codewords.len()
        invariant
            c <= codewords.len(),
            forall|d: int| 0 <= d < c ==> (#[trigger] columns(codewords@)[d]).len() == codeword_len,
        decreases codewords.len() - c,
    {
        if codewords[c].len() != codeword_len {
            proof {
                assert(columns(codewords@)[c as int].len() != codeword_len);
            }
            return false;
        }
        c = c + 1;
    }
    true
}

/// Whether every constraint mentions at most the first `width` variables.
fn check_fit(constraints: &[MultivariatePolynomial], width: usize) -> (r: bool)
    ensures
        r == constraints_fit(constraint_terms(constraints@), width as int),
{
    let mut c: usize = 0;
    while c < constraints.len()
        invariant
            c <= constraints.len(),
            forall|d: int|
                0 <= d < c ==> (#[trigger] constraint_terms(constraints@)[d]).fits(width as int),
        decreases constraints.len() - c,
    {
        let constraint: &MultivariatePolynomial = &constraints[c];
        let count: usize = constraint.term_count();
        let mut t: usize = 0;
        while t < count
            invariant
                c < constraints.len(),
                constraint == constraints[c as int],
                count == constraint@.count(),
                t <= count,
                forall|s: int| 0 <= s < t ==> (#[trigger] constraint@.powers[s]).len() <= width,
            decreases count - t,
        {
            if constraint.powers[t].len() > width {
                proof {
                    assert(constraint@.powers[t as int].len() > width);
                    assert(!constraint_terms(constraints@)[c as int].fits(width as int));
                }
                return false;
            }
            t = t + 1;
        }
        proof {
            assert(constraint_terms(constraints@)[c as int].fits(width as int));
        }
        c = c + 1;
    }
    true
}

/// Entry `i` of every codeword.
fn row_at(codewords: &[Vec<Felt>], i: usize) -> (r: Vec<Felt>)
    requires
        forall|c: int| 0 <= c < codewords.len() ==> i < (#[trigger] codewords[c]).len(),
    ensures
        residues(r@) == row(columns(codewords@), i as int),
{
    let mut out: Vec<Felt> = Vec::new();
    let mut c: usize = 0;
    while c < codewords.len()
        invariant
            c <= codewords.len(),
            out.len() == c,
            forall|d: int| 0 <= d < codewords.len() ==> i < (#[trigger] codewords[d]).len(),
            forall|d: int| 0 <= d < c ==> #[trigger] out[d] == codewords[d][i as int],
        decreases codewords.len() - c,
    {
        out.push(codewords[c][i]);
        c = c + 1;
    }
    proof {
        assert(residues(out@) =~= row(columns(codewords@), i as int));
    }
    out
}

/// The point at which a constraint is evaluated for domain index `i`: the
/// row at `i`, followed, where `step` is given, by the row `step` places
/// on.
pub open spec fn evaluation_point(cols: Seq<Seq<int>>, i: int, step: Option<int>, len: int) -> Seq<
    int,
> {
    match step {
        Some(s) => row_pair(cols, i, s, len),
        None => row(cols, i),
    }
}

/// The quotient codewords of the given constraints: constraint `c` at the
/// evaluation point of index `i`, times `zerofier_inverse[i]`.
fn quotients_with(
    codeword_len: usize,
    codewords: &[Vec<Felt>],
    constraints: &[MultivariatePolynomial],
    zerofier_inverse: &Vec<Felt>,
    row_step: Option<usize>,
    width: usize,
) -> (r: Vec<Vec<Felt>>)
    requires
        columns_have_length(columns(codewords@), codeword_len as int),
        zerofier_inverse.len() == codeword_len,
        constraints_fit(constraint_terms(constraints@), width as int),
        row_step matches Some(s) ==> s < codeword_len && width == 2 * codewords.len(),
        row_step is None ==> width == codewords.len(),
    ensures
        r.len() == constraints.len(),
        forall|c: int|
            0 <= c < constraints.len() ==> (#[trigger] r[c]).len() == codeword_len,
        forall|c: int, i: int|
            0 <= c < constraints.len() && 0 <= i < codeword_len ==> (#[trigger] r[c][i])@ == (
            constraints[c]@.feval(
                evaluation_point(
                    columns(codewords@),
                    i,
                    match row_step {
                        Some(s) => Some(s as int),
                        None => None,
                    },
                    codeword_len as int,
                ),
            ) * zerofier_inverse[i]@) % modulus(),
{
    let ghost cols: Seq<Seq<int>> = columns(codewords@);
    let ghost step: Option<int> = match row_step {
        Some(s) => Some(s as int),
        None => None,
    };
    let mut quotient_codewords: Vec<Vec<Felt>> = Vec::new();
    let mut c: usize = 0;
    while c < constraints.len()
        invariant
            cols == columns(codewords@),
            step == (match row_step {
                Some(s) => Some(s as int),
                None => None,
            }),
            columns_have_length(cols, codeword_len as int),
            zerofier_inverse.len() == codeword_len,
            constraints_fit(constraint_terms(constraints@), width as int),
            row_step matches Some(s) ==> s < codeword_len && width == 2 * codewords.len(),
            row_step is None ==> width == codewords.len(),
            c <= constraints.len(),
            quotient_codewords.len() == c,
            forall|d: int| 0 <= d < c ==> (#[trigger] quotient_codewords[d]).len() == codeword_len,
            forall|d: int, i: int|
                0 <= d < c && 0 <= i < codeword_len ==> (#[trigger] quotient_codewords[d][i])@
                    == (constraints[d]@.feval(evaluation_point(cols, i, step, codeword_len as int))
                    * zerofier_inverse[i]@) % modulus(),
        decreases constraints.len() - c,
    {
        let constraint: &MultivariatePolynomial = &constraints[c];
        let mut quotient_codeword: Vec<Felt> = Vec::new();
        let mut i: usize = 0;
        proof {
            assert(constraint_terms(constraints@)[c as int].fits(width as int));
        }
        while i < codeword_len
            invariant
                cols == columns(codewords@),
                step == (match row_step {
                    Some(s) => Some(s as int),
                    None => None,
                }),
                columns_have_length(cols, codeword_len as int),
                zerofier_inverse.len() == codeword_len,
                row_step matches Some(s) ==> s < codeword_len && width == 2 * codewords.len(),
                row_step is None ==> width == codewords.len(),
                c < constraints.len(),
                constraint == constraints[c as int],
                constraint@.fits(width as int),
                i <= codeword_len,
                quotient_codeword.len() == i,
                forall|j: int|
                    0 <= j < i ==> (#[trigger] quotient_codeword[j])@ == (constraint@.feval(
                        evaluation_point(cols, j, step, codeword_len as int),
                    ) * zerofier_inverse[j]@) % modulus(),
            decreases codeword_len - i,
        {
            proof {
                assert forall|d: int| 0 <= d < codewords.len() implies i < (
                #[trigger] codewords[d]).len() by {
                    assert(cols[d].len() == codeword_len);
                }
            }
            let mut point: Vec<Felt> = row_at(codewords, i);
            match row_step {
                Some(s) => {
                    let next: usize = if i >= codeword_len - s {
                        i - (codeword_len - s)
                    } else {
                        i + s
                    };
                    proof {
                        if i >= codeword_len - s {
                            assert(i + s == 1 * codeword_len + next) by (nonlinear_arith)
                                requires
                                    next == i - (codeword_len - s),
                            ;
                            lemma_fundamental_div_mod_converse(
                                i + s,
                                codeword_len as int,
                                1,
                                next as int,
                            );
                        } else {
                            lemma_small_mod((i + s) as nat, codeword_len as nat);
                        }
                        assert forall|d: int| 0 <= d < codewords.len() implies next < (
                        #[trigger] codewords[d]).len() by {
                            assert(cols[d].len() == codeword_len);
                        }
                    }
                    let mut next_row: Vec<Felt> = row_at(codewords, next);
                    let ghost first: Seq<Felt> = point@;
                    let ghost second: Seq<Felt> = next_row@;
                    point.append(&mut next_row);
                    proof {
                        assert(residues(point@) =~= residues(first) + residues(second));
                    }
                },
                None => {},
            }
            proof {
                assert(residues(point@) == evaluation_point(
                    cols,
                    i as int,
                    step,
                    codeword_len as int,
                ));
                assert(residues(point@).len() == width);
            }
            let evaluation: Felt = match constraint.evaluate(point.as_slice()) {
                Ok(v) => v,
                Err(_) => Felt::zero(),
            };
            quotient_codeword.push(evaluation.mul(zerofier_inverse[i]));
            i = i + 1;
        }
        quotient_codewords.push(quotient_codeword);
        c = c + 1;
    }
    quotient_codewords
}

/// What the three kinds of quotient codewords have in common: the
/// codewords, one per column, all of the evaluation domain's length, a
/// power of two up to `2^32`.
pub open spec fn quotient_domain(codeword_len: nat, cols: Seq<Seq<int>>) -> bool {
    transform_length(codeword_len) && columns_have_length(cols, codeword_len as int)
}

/// Entry `i` of the boundary quotient of `constraint`.
pub open spec fn boundary_quotient(
    constraint: Terms,
    cols: Seq<Seq<int>>,
    log_len: nat,
    i: int,
) -> int {
    (constraint.feval(row(cols, i)) * finv(boundary_zerofier(log_len, i))) % modulus()
}

/// Entry `i` of the terminal quotient of `constraint`.
pub open spec fn terminal_quotient(
    constraint: Terms,
    cols: Seq<Seq<int>>,
    log_len: nat,
    log_height: nat,
    i: int,
) -> int {
    (constraint.feval(row(cols, i)) * finv(terminal_zerofier(log_len, log_height, i)))
        % modulus()
}

/// Entry `i` of the transition quotient of `constraint`: the constraint
/// at the row of index `i` and the row that follows it in the trace,
/// `2^log_len / 2^log_height` places on with wrap-around.
pub open spec fn transition_quotient(
    constraint: Terms,
    cols: Seq<Seq<int>>,
    log_len: nat,
    log_height: nat,
    i: int,
) -> int {
    (constraint.feval(
        row_pair(cols, i, pow2(log_len) as int / pow2(log_height) as int, pow2(log_len) as int),
    ) * transition_zerofier_inverse(log_len, log_height, i)) % modulus()
}

/// The row that follows: in the point at which a transition constraint is
/// evaluated for domain index `i`, the values of the next row are those
/// of the current row at index `(i + len / height) mod len`. For the last
/// `len / height` indices the next row wraps around to the first ones:
/// at `i = len - len / height` it is the row at index 0.
pub proof fn lemma_next_row_is_one_step_on(
    cols: Seq<Seq<int>>,
    log_len: nat,
    log_height: nat,
    i: int,
)
    requires
        log_height <= log_len,
        0 <= i < pow2(log_len),
    ensures
        ({
            let len: int = pow2(log_len) as int;
            let step: int = len / pow2(log_height) as int;
            let point: Seq<int> = row_pair(cols, i, step, len);
            &&& 0 < step <= len
            &&& point.len() == 2 * cols.len()
            &&& point.subrange(0, cols.len() as int) == row(cols, i)
            &&& point.subrange(cols.len() as int, 2 * cols.len() as int) == row(
                cols,
                (i + step) % len,
            )
            &&& 0 <= (i + step) % len < len
            &&& i < len - step ==> (i + step) % len == i + step
            &&& i >= len - step ==> (i + step) % len == i + step - len
        }),
{
    let len: int = pow2(log_len) as int;
    let h: int = pow2(log_height) as int;
    let step: int = len / h;
    let point: Seq<int> = row_pair(cols, i, step, len);
    lemma_pow2_pos(log_height);
    lemma_pow2_pos(log_len);
    lemma_pow2_adds(log_height, (log_len - log_height) as nat);
    lemma_pow2_pos((log_len - log_height) as nat);
    lemma_div_multiples_vanish(pow2((log_len - log_height) as nat) as int, h);
    lemma_mul_is_commutative(h, pow2((log_len - log_height) as nat) as int);
    assert(step == pow2((log_len - log_height) as nat));
    assert(step <= len) by {
        lemma_mul_increases(h, step);
    }
    assert(point.subrange(0, cols.len() as int) =~= row(cols, i));
    assert(point.subrange(cols.len() as int, 2 * cols.len() as int) =~= row(
        cols,
        (i + step) % len,
    ));
    if i < len - step {
        lemma_small_mod((i + step) as nat, len as nat);
    } else {
        lemma_fundamental_div_mod_converse(i + step, len, 1, i + step - len);
    }
}

/// The heights that a table can have under an evaluation domain of
/// `codeword_len` points: the powers of two up to `codeword_len`.
pub open spec fn table_height(height: nat, codeword_len: nat) -> bool {
    transform_length(height) && height <= codeword_len
}

/// `r` is the result of quotienting the boundary `constraints` over the
/// evaluation domain of `codeword_len` points: the constraints are
/// quotiented if and only if the domain and the codewords are valid and
/// every constraint finds its variables among the columns; codeword `c`
/// then holds the boundary quotient of constraint `c`.
pub open spec fn is_boundary_quotients(
    constraints: Seq<MultivariatePolynomial>,
    codeword_len: usize,
    codewords: Seq<Vec<Felt>>,
    r: Result<Vec<Vec<Felt>>, ProvingError>,
) -> bool {
    &&& r is Ok <==> quotient_domain(codeword_len as nat, columns(codewords)) && constraints_fit(
        constraint_terms(constraints),
        codewords.len() as int,
    )
    &&& r matches Ok(q) ==> {
        &&& q.len() == constraints.len()
        &&& forall|c: int| 0 <= c < q.len() ==> (#[trigger] q[c]).len() == codeword_len
        &&& forall|c: int, i: int|
            0 <= c < q.len() && 0 <= i < codeword_len ==> (#[trigger] q[c][i])@
                == boundary_quotient(
                constraints[c]@,
                columns(codewords),
                log2(codeword_len as int),
                i,
            )
    }
    &&& r matches Err(e) ==> e == ProvingError::InvalidInput
}

/// `r` is the result of quotienting the terminal `constraints` of a table
/// of `height` rows over the evaluation domain of `codeword_len` points:
/// the constraints are quotiented if and only if the domain, the
/// codewords and the height are valid and every constraint finds its
/// variables among the columns; codeword `c` then holds the terminal
/// quotient of constraint `c`.
pub open spec fn is_terminal_quotients(
    constraints: Seq<MultivariatePolynomial>,
    height: usize,
    codeword_len: usize,
    codewords: Seq<Vec<Felt>>,
    r: Result<Vec<Vec<Felt>>, ProvingError>,
) -> bool {
    &&& r is Ok <==> quotient_domain(codeword_len as nat, columns(codewords))
        && transform_length(height as nat) && constraints_fit(
        constraint_terms(constraints),
        codewords.len() as int,
    )
    &&& r matches Ok(q) ==> {
        &&& q.len() == constraints.len()
        &&& forall|c: int| 0 <= c < q.len() ==> (#[trigger] q[c]).len() == codeword_len
        &&& forall|c: int, i: int|
            0 <= c < q.len() && 0 <= i < codeword_len ==> (#[trigger] q[c][i])@
                == terminal_quotient(
                constraints[c]@,
                columns(codewords),
                log2(codeword_len as int),
                log2(height as int),
                i,
            )
    }
    &&& r matches Err(e) ==> e == ProvingError::InvalidInput
}

/// `r` is the result of quotienting the transition `constraints` of a
/// table of `height` rows over the evaluation domain of `codeword_len`
/// points: the constraints are quotiented if and only if the domain and
/// the codewords are valid, the height is a power of two that does not
/// exceed the domain, and every constraint finds its variables among the
/// columns taken twice; codeword `c` then holds the transition quotient
/// of constraint `c`.
pub open spec fn is_transition_quotients(
    constraints: Seq<MultivariatePolynomial>,
    height: usize,
    codeword_len: usize,
    codewords: Seq<Vec<Felt>>,
    r: Result<Vec<Vec<Felt>>, ProvingError>,
) -> bool {
    &&& r is Ok <==> quotient_domain(codeword_len as nat, columns(codewords)) && table_height(
        height as nat,
        codeword_len as nat,
    ) && codewords.len() * 2 <= usize::MAX && constraints_fit(
        constraint_terms(constraints),
        2 * codewords.len() as int,
    )
    &&& r matches Ok(q) ==> {
        &&& q.len() == constraints.len()
        &&& forall|c: int| 0 <= c < q.len() ==> (#[trigger] q[c]).len() == codeword_len
        &&& forall|c: int, i: int|
            0 <= c < q.len() && 0 <= i < codeword_len ==> (#[trigger] q[c][i])@
                == transition_quotient(
                constraints[c]@,
                columns(codewords),
                log2(codeword_len as int),
                log2(height as int),
                i,
            )
    }
    &&& r matches Err(e) ==> e == ProvingError::InvalidInput
}

/// The quotients of the boundary constraints: each constraint, evaluated
/// on every row of the codewords, divided by the polynomial `X - 1` that
/// vanishes on the first row of the trace.
pub fn boundary_quotient_codewords(
    codeword_len: usize,
    codewords: &[Vec<Felt>],
    constraints: &[MultivariatePolynomial],
) -> (r: Result<Vec<Vec<Felt>>, ProvingError>)
    ensures
        is_boundary_quotients(constraints@, codeword_len, codewords@, r),
{
    let log_len: u32 = match transform_log(codeword_len) {
        Some(k) => k,
        None => {
            return Err(ProvingError::InvalidInput);
        },
    };
    if !check_lengths(codeword_len, codewords) || !check_fit(constraints, codewords.len()) {
        return Err(ProvingError::InvalidInput);
    }
    let points: Vec<Felt> = domain_points(log_len, codeword_len);
    // Evaluations of the polynomial (x - o^0) over the domain
    let mut zerofier: Vec<Felt> = Vec::new();
    let mut i: usize = 0;
    while i < codeword_len
        invariant
            log_len <= 32,
            points.len() == codeword_len,
            forall|j: int|
                0 <= j < codeword_len ==> (#[trigger] points[j])@ == domain_point(
                    log_len as nat,
                    j,
                ),
            i <= codeword_len,
            zerofier.len() == i,
            forall|j: int|
                0 <= j < i ==> (#[trigger] zerofier[j])@ == boundary_zerofier(log_len as nat, j),
        decreases codeword_len - i,
    {
        zerofier.push(points[i].sub(Felt::one()));
        i = i + 1;
    }
    proof {
        assert forall|j: int| 0 <= j < zerofier.len() implies (#[trigger] zerofier[j])@ != 0 by {
            lemma_zerofiers_nonzero(log_len as nat, 0, j);
        }
    }
    let zerofier_inverse: Vec<Felt> = match invert_all(zerofier.as_slice()) {
        Ok(v) => v,
        Err(e) => {
            return Err(e);
        },
    };
    Ok(
        quotients_with(
            codeword_len,
            codewords,
            constraints,
            &zerofier_inverse,
            None,
            codewords.len(),
        ),
    )
}

/// The quotients of the terminal constraints: each constraint, evaluated
/// on every row of the codewords, divided by the polynomial
/// `X - w_h^(-1)` that vanishes on the last row of a trace of `height`
/// rows.
pub fn terminal_quotient_codewords(
    height: usize,
    codeword_len: usize,
    codewords: &[Vec<Felt>],
    constraints: &[MultivariatePolynomial],
) -> (r: Result<Vec<Vec<Felt>>, ProvingError>)
    ensures
        is_terminal_quotients(constraints@, height, codeword_len, codewords@, r),
{
    let log_len: u32 = match transform_log(codeword_len) {
        Some(k) => k,
        None => {
            return Err(ProvingError::InvalidInput);
        },
    };
    let log_height: u32 = match transform_log(height) {
        Some(k) => k,
        None => {
            return Err(ProvingError::InvalidInput);
        },
    };
    if !check_lengths(codeword_len, codewords) || !check_fit(constraints, codewords.len()) {
        return Err(ProvingError::InvalidInput);
    }
    let last_omicron: Felt = match last_row(log_height) {
        Ok(v) => v,
        Err(e) => {
            return Err(e);
        },
    };
    let points: Vec<Felt> = domain_points(log_len, codeword_len);
    // evaluations of the polynomial (x - o^(n-1)). Note that o^(n-1) is the
    // inverse of `o`.
    let mut zerofier: Vec<Felt> = Vec::new();
    let mut i: usize = 0;
    while i < codeword_len
        invariant
            log_len <= 32,
            points.len() == codeword_len,
            last_omicron@ == last_row_point(log_height as nat),
            forall|j: int|
                0 <= j < codeword_len ==> (#[trigger] points[j])@ == domain_point(
                    log_len as nat,
                    j,
                ),
            i <= codeword_len,
            zerofier.len() == i,
            forall|j: int|
                0 <= j < i ==> (#[trigger] zerofier[j])@ == terminal_zerofier(
                    log_len as nat,
                    log_height as nat,
                    j,
                ),
        decreases codeword_len - i,
    {
        zerofier.push(points[i].sub(last_omicron));
        i = i + 1;
    }
    proof {
        assert forall|j: int| 0 <= j < zerofier.len() implies (#[trigger] zerofier[j])@ != 0 by {
            lemma_zerofiers_nonzero(log_len as nat, log_height as nat, j);
        }
    }
    let zerofier_inverse: Vec<Felt> = match invert_all(zerofier.as_slice()) {
        Ok(v) => v,
        Err(e) => {
            return Err(e);
        },
    };
    Ok(
        quotients_with(
            codeword_len,
            codewords,
            constraints,
            &zerofier_inverse,
            None,
            codewords.len(),
        ),
    )
}

/// The point of the last row of a table of height `2^log_height`.
fn last_row(log_height: u32) -> (r: Result<Felt, ProvingError>)
    requires
        log_height <= 32,
    ensures
        r matches Ok(v) && v@ == last_row_point(log_height as nat),
{
    let omicron: Felt = match Felt::get_root_of_unity(log_height) {
        Some(w) => w,
        None => Felt::one(),
    };
    proof {
        lemma_root_of_unity_order(log_height as nat);
        if log_height >= 1 {
            lemma_inverse_root(omicron@, log_height as nat);
        } else {
            lemma2_to64();
            lemma_pow1(omicron@);
        }
    }
    match omicron.inverse() {
        Some(v) => Ok(v),
        None => Err(ProvingError::DivisionByZero),
    }
}

/// The quotients of the transition constraints: each constraint,
/// evaluated on every row of the codewords together with the row that
/// follows it in the trace, divided by the polynomial
/// `(X^h - 1) / (X - w_h^(-1))` that vanishes on every row of a trace of
/// `height` rows but the last.
pub fn transition_quotient_codewords(
    height: usize,
    codeword_len: usize,
    codewords: &[Vec<Felt>],
    constraints: &[MultivariatePolynomial],
) -> (r: Result<Vec<Vec<Felt>>, ProvingError>)
    ensures
        is_transition_quotients(constraints@, height, codeword_len, codewords@, r),
{
    let ghost p: int = modulus();
    let log_len: u32 = match transform_log(codeword_len) {
        Some(k) => k,
        None => {
            return Err(ProvingError::InvalidInput);
        },
    };
    let log_height: u32 = match transform_log(height) {
        Some(k) => k,
        None => {
            return Err(ProvingError::InvalidInput);
        },
    };
    if height > codeword_len || codewords.len() > usize::MAX / 2 {
        return Err(ProvingError::InvalidInput);
    }
    let width: usize = codewords.len() * 2;
    if !check_lengths(codeword_len, codewords) || !check_fit(constraints, width) {
        return Err(ProvingError::InvalidInput);
    }
    // Transition constraints apply to all rows of execution trace except the
    // last row: the inverse of the zerofier of all rows is multiplied by the
    // zerofier of the last row.
    let last_omicron: Felt = match last_row(log_height) {
        Ok(v) => v,
        Err(e) => {
            return Err(e);
        },
    };
    let points: Vec<Felt> = domain_points(log_len, codeword_len);
    // Evaluations of the polynomial (x - o^0)...(x - o^(n-1)) = x^n - 1
    let mut subgroup_values: Vec<Felt> = Vec::new();
    let mut i: usize = 0;
    while i < codeword_len
        invariant
            log_len <= 32,
            height == pow2(log_height as nat),
            points.len() == codeword_len,
            forall|j: int|
                0 <= j < codeword_len ==> (#[trigger] points[j])@ == domain_point(
                    log_len as nat,
                    j,
                ),
            i <= codeword_len,
            subgroup_values.len() == i,
            forall|j: int|
                0 <= j < i ==> (#[trigger] subgroup_values[j])@ == subgroup_zerofier(
                    log_len as nat,
                    log_height as nat,
                    j,
                ),
        decreases codeword_len - i,
    {
        subgroup_values.push(points[i].pow(height as u64).sub(Felt::one()));
        i = i + 1;
    }
    proof {
        assert forall|j: int| 0 <= j < subgroup_values.len() implies (
        #[trigger] subgroup_values[j])@ != 0 by {
            lemma_zerofiers_nonzero(log_len as nat, log_height as nat, j);
        }
    }
    let subgroup_inverse: Vec<Felt> = match invert_all(subgroup_values.as_slice()) {
        Ok(v) => v,
        Err(e) => {
            return Err(e);
        },
    };
    let mut zerofier_inverse: Vec<Felt> = Vec::new();
    let mut i: usize = 0;
    while i < codeword_len
        invariant
            points.len() == codeword_len,
            subgroup_inverse.len() == codeword_len,
            subgroup_values.len() == codeword_len,
            last_omicron@ == last_row_point(log_height as nat),
            forall|j: int|
                0 <= j < codeword_len ==> (#[trigger] points[j])@ == domain_point(
                    log_len as nat,
                    j,
                ),
            forall|j: int|
                0 <= j < codeword_len ==> (#[trigger] subgroup_values[j])@
                    == subgroup_zerofier(log_len as nat, log_height as nat, j),
            forall|j: int|
                0 <= j < codeword_len ==> (#[trigger] subgroup_inverse[j])@ == finv(
                    subgroup_values[j]@,
                ),
            i <= codeword_len,
            zerofier_inverse.len() == i,
            forall|j: int|
                0 <= j < i ==> (#[trigger] zerofier_inverse[j])@ == transition_zerofier_inverse(
                    log_len as nat,
                    log_height as nat,
                    j,
                ),
        decreases codeword_len - i,
    {
        proof {
            assert(subgroup_inverse[i as int]@ == finv(subgroup_values[i as int]@));
        }
        zerofier_inverse.push(subgroup_inverse[i].mul(points[i].sub(last_omicron)));
        proof {
            let a: int = finv(subgroup_zerofier(log_len as nat, log_height as nat, i as int));
            let b: int = domain_point(log_len as nat, i as int) - last_row_point(log_height as nat);
            lemma_mul_mod_noop_general(a, b, modulus());
        }
        i = i + 1;
    }
    proof {
        lemma_pow2_pos(log_height as nat);
        lemma_pow2_pos(log_len as nat);
    }
    let row_step: usize = codeword_len / height;
    proof {
        if height >= 2 {
            lemma_div_is_strictly_smaller(codeword_len as int, height as int);
        }
    }
    if row_step >= codeword_len {
        // a table of one row: the row that follows a row is the row itself
        proof {
            assert(height == 1);
            assert forall|i: int| 0 <= i < codeword_len implies row_pair(
                columns(codewords@),
                i,
                0,
                codeword_len as int,
            ) == #[trigger] row_pair(
                columns(codewords@),
                i,
                codeword_len as int,
                codeword_len as int,
            ) by {
                lemma_mod_add_multiples_vanish(i, codeword_len as int);
            }
        }
        return Ok(
            quotients_with(
                codeword_len,
                codewords,
                constraints,
                &zerofier_inverse,
                Some(0),
                width,
            ),
        );
    }
    Ok(
        quotients_with(
            codeword_len,
            codewords,
            constraints,
            &zerofier_inverse,
            Some(row_step),
            width,
        ),
    )
}

/// `a - b`, or 0 where `b` exceeds `a`.
pub open spec fn saturating_difference(a: int, b: int) -> int {
    if a >= b {
        a - b
    } else {
        0
    }
}

/// The bound `degree` for each of `width` variables.
pub open spec fn uniform_bounds(degree: int, width: nat) -> Seq<int> {
    Seq::new(width, |j: int| degree)
}

/// The degree bound of the quotient of `constraint`, when every one of
/// `width` variables, and every further one that the constraint mentions,
/// is a polynomial of degree at most `degree` and a zerofier of degree
/// `zerofier_degree` is divided out.
pub open spec fn quotient_degree_bound(
    constraint: Terms,
    degree: int,
    width: nat,
    zerofier_degree: int,
) -> int {
    saturating_difference(
        saturated(constraint.degree_bound(uniform_bounds(degree, bound_count(constraint, width)))),
        zerofier_degree,
    )
}

/// The number of variables that get a bound: `width`, or the number of
/// variables that the constraint mentions where that is larger.
pub open spec fn bound_count(constraint: Terms, width: nat) -> nat {
    if constraint.width() > width {
        constraint.width() as nat
    } else {
        width
    }
}

/// The largest of 1 and the quotient degree bounds of the first `n`
/// constraints.
pub open spec fn max_quotient_degree_bound(
    constraints: Seq<Terms>,
    degree: int,
    width: nat,
    zerofier_degree: int,
    n: int,
) -> int
    decreases n,
{
    if n <= 0 {
        1
    } else {
        let rest: int = max_quotient_degree_bound(
            constraints,
            degree,
            width,
            zerofier_degree,
            n - 1,
        );
        let this: int = quotient_degree_bound(constraints[n - 1], degree, width, zerofier_degree);
        if this > rest {
            this
        } else {
            rest
        }
    }
}

/// `r` holds the degree bounds of the quotients of `constraints`: for
/// each, its symbolic degree bound when every one of `width` variables,
/// and every further one that it mentions, has degree at most `degree`,
/// less `zerofier_degree`, and not below 0.
pub open spec fn is_degree_bounds(
    constraints: Seq<MultivariatePolynomial>,
    degree: usize,
    width: usize,
    zerofier_degree: usize,
    r: Seq<usize>,
) -> bool {
    &&& r.len() == constraints.len()
    &&& forall|c: int|
        0 <= c < constraints.len() ==> #[trigger] r[c] == quotient_degree_bound(
            constraints[c]@,
            degree as int,
            width as nat,
            zerofier_degree as int,
        )
}

/// A list of `width` copies of `degree`.
fn repeat_bound(degree: usize, width: usize) -> (r: Vec<usize>)
    ensures
        bounds(r@) == uniform_bounds(degree as int, width as nat),
{
    let mut out: Vec<usize> = Vec::new();
    let mut j: usize = 0;
    while j < width
        invariant
            j <= width,
            out.len() == j,
            forall|t: int| 0 <= t < j ==> #[trigger] out[t] == degree,
        decreases width - j,
    {
        out.push(degree);
        j = j + 1;
    }
    proof {
        assert(bounds(out@) =~= uniform_bounds(degree as int, width as nat));
    }
    out
}

/// The degree bounds of the quotients of `constraints`: for each, its
/// symbolic degree bound when every one of `width` variables, and every
/// further one that it mentions, has degree at most `interpolant_degree`,
/// less the degree of the zerofier that is divided out, and not below 0.
pub fn quotient_degree_bounds(
    constraints: &[MultivariatePolynomial],
    interpolant_degree: usize,
    width: usize,
    zerofier_degree: usize,
) -> (r: Vec<usize>)
    ensures
        is_degree_bounds(constraints@, interpolant_degree, width, zerofier_degree, r@),
{
    let mut out: Vec<usize> = Vec::new();
    let mut c: usize = 0;
    while c < constraints.len()
        invariant
            c <= constraints.len(),
            out.len() == c,
            forall|d: int|
                0 <= d < c ==> #[trigger] out[d] == quotient_degree_bound(
                    constraints[d]@,
                    interpolant_degree as int,
                    width as nat,
                    zerofier_degree as int,
                ),
        decreases constraints.len() - c,
    {
        let constraint: &MultivariatePolynomial = &constraints[c];
        let mentioned: usize = constraint.variable_count();
        let count: usize = if mentioned > width {
            mentioned
        } else {
            width
        };
        let max_degrees: Vec<usize> = repeat_bound(interpolant_degree, count);
        proof {
            lemma_fits_its_width(constraint@, count as int);
            assert(max_degrees.len() == bounds(max_degrees@).len());
        }
        let bound: usize = constraint.symbolic_degree_bound(max_degrees.as_slice());
        out.push(bound.saturating_sub(zerofier_degree));
        c = c + 1;
    }
    out
}

/// The largest of 1 and the degree bounds of the quotients of
/// `constraints`, as `quotient_degree_bounds` gives them.
pub fn max_quotient_degree(
    constraints: &[MultivariatePolynomial],
    interpolant_degree: usize,
    width: usize,
    zerofier_degree: usize,
) -> (r: usize)
    ensures
        r == max_quotient_degree_bound(
            constraint_terms(constraints@),
            interpolant_degree as int,
            width as nat,
            zerofier_degree as int,
            constraints.len() as int,
        ),
        r >= 1,
{
    let degree_bounds: Vec<usize> = quotient_degree_bounds(
        constraints,
        interpolant_degree,
        width,
        zerofier_degree,
    );
    let mut max_degree: usize = 1;
    let mut c: usize = 0;
    while c < degree_bounds.len()
        invariant
            degree_bounds.len() == constraints.len(),
            forall|d: int|
                0 <= d < constraints.len() ==> #[trigger] degree_bounds[d]
                    == quotient_degree_bound(
                    constraints[d]@,
                    interpolant_degree as int,
                    width as nat,
                    zerofier_degree as int,
                ),
            c <= degree_bounds.len(),
            max_degree >= 1,
            max_degree == max_quotient_degree_bound(
                constraint_terms(constraints@),
                interpolant_degree as int,
                width as nat,
                zerofier_degree as int,
                c as int,
            ),
        decreases degree_bounds.len() - c,
    {
        if degree_bounds[c] > max_degree {
            max_degree = degree_bounds[c];
        }
        c = c + 1;
    }
    max_degree
}

/// The lists `first`, `second` and `third` one after the other.
pub fn concatenate<T>(first: Vec<T>, second: Vec<T>, third: Vec<T>) -> (r: Vec<T>)
    ensures
        r@ == first@ + second@ + third@,
{
    let mut out: Vec<T> = first;
    let mut second: Vec<T> = second;
    let mut third: Vec<T> = third;
    out.append(&mut second);
    out.append(&mut third);
    out
}

/// A list of `n` copies of the field's one.
fn unit_challenges(n: usize) -> (r: Vec<Felt>)
    ensures
        r.len() == n,
        forall|i: int| 0 <= i < n ==> (#[trigger] r[i])@ == 1,
{
    let mut out: Vec<Felt> = Vec::new();
    let mut i: usize = 0;
    while i < n
        invariant
            i <= n,
            out.len() == i,
            forall|j: int| 0 <= j < i ==> (#[trigger] out[j])@ == 1,
        decreases n - i,
    {
        out.push(Felt::one());
        i = i + 1;
    }
    out
}

/// Twice a width, capped at the largest machine word.
pub open spec fn doubled(width: usize) -> usize {
    if 2 * width <= usize::MAX {
        (2 * width) as usize
    } else {
        usize::MAX
    }
}

/// `a - 1`, or 0 for 0.
pub open spec fn less_one(a: usize) -> usize {
    if a >= 1 {
        (a - 1) as usize
    } else {
        0
    }
}

/// `r` is the three lists of quotient codewords one after the other, or
/// the error of the first list that is none.
pub open spec fn is_all_quotients(
    boundary: Result<Vec<Vec<Felt>>, ProvingError>,
    transition: Result<Vec<Vec<Felt>>, ProvingError>,
    terminal: Result<Vec<Vec<Felt>>, ProvingError>,
    r: Result<Vec<Vec<Felt>>, ProvingError>,
) -> bool {
    match boundary {
        Err(e) => r == Err::<Vec<Vec<Felt>>, ProvingError>(e),
        Ok(b) => match transition {
            Err(e) => r == Err::<Vec<Vec<Felt>>, ProvingError>(e),
            Ok(t) => match terminal {
                Err(e) => r == Err::<Vec<Vec<Felt>>, ProvingError>(e),
                Ok(l) => r matches Ok(q) && q@ == b@ + t@ + l@,
            },
        },
    }
}

/// One table of the execution trace: its rows before and after extension
/// with the verifier's challenges, and the constraints that they must
/// meet. The quotienting of the constraints is the same for every table
/// and is given here once.
///
/// What the given methods promise is stated of whatever the methods that
/// a table supplies return.
pub trait Table {
    /// The width of the table before extension
    const BASE_WIDTH: usize;

    /// The width of the table after extension
    const EXTENSION_WIDTH: usize;

    /// Returns the (non power of two) length of the execution trace
    fn len(&self) -> usize;

    /// Returns the power of two height of the execution trace
    fn height(&self) -> usize;

    /// Returns true if the table has no rows in it, otherwise false
    fn is_empty(&self) -> (r: bool)
        ensures
            exists|length: usize| #[trigger]
                call_ensures(Self::len, (self,), length) && r == (length == 0),
    {
        self.len() == 0
    }

    /// Pads the execution trace to n rows in length
    fn pad(&mut self, n: usize);

    /// The constraints on the first row before extension, over
    /// `BASE_WIDTH` variables.
    fn base_boundary_constraints() -> Vec<MultivariatePolynomial>;

    /// The constraints on each row and the next before extension, over
    /// `2 * BASE_WIDTH` variables.
    fn base_transition_constraints() -> Vec<MultivariatePolynomial>;

    /// The constraints on the first row, over `EXTENSION_WIDTH` variables.
    fn extension_boundary_constraints(challenges: &[Felt]) -> Vec<MultivariatePolynomial>;

    /// The constraints on each row and the next, over
    /// `2 * EXTENSION_WIDTH` variables: those of the row, then those of
    /// the next.
    fn extension_transition_constraints(challenges: &[Felt]) -> Vec<MultivariatePolynomial>;

    /// The constraints on the last row, over `EXTENSION_WIDTH` variables.
    fn extension_terminal_constraints(
        &self,
        challenges: &[Felt],
        terminals: &[Felt],
    ) -> Vec<MultivariatePolynomial>;

    /// A bound on the degree of the low-degree extension of any column.
    fn interpolant_degree(&self) -> usize;

    /// The largest degree bound of a transition quotient, and at least 1:
    /// of the transition constraints for 30 challenges that are all one,
    /// with every variable bounded by the interpolant degree, less the
    /// length of the table less one.
    fn max_degree(&self) -> (r: usize)
        ensures
            r >= 1,
            exists|
                challenges: &[Felt],
                constraints: Vec<MultivariatePolynomial>,
                degree: usize,
                length: usize,
            |
                {
                    &&& challenges.len() == 30
                    &&& forall|i: int| 0 <= i < 30 ==> (#[trigger] challenges[i])@ == 1
                    &&& #[trigger] call_ensures(
                        Self::extension_transition_constraints,
                        (challenges,),
                        constraints,
                    )
                    &&& #[trigger] call_ensures(Self::interpolant_degree, (self,), degree)
                    &&& #[trigger] call_ensures(Self::len, (self,), length)
                    &&& r == max_quotient_degree_bound(
                        constraint_terms(constraints@),
                        degree as int,
                        doubled(Self::EXTENSION_WIDTH) as nat,
                        less_one(length) as int,
                        constraints.len() as int,
                    )
                },
    {
        let challenges: Vec<Felt> = unit_challenges(30);
        let transition_constraints: Vec<MultivariatePolynomial> =
            Self::extension_transition_constraints(challenges.as_slice());
        let width: usize = Self::EXTENSION_WIDTH.saturating_add(Self::EXTENSION_WIDTH);
        let degree: usize = self.interpolant_degree();
        let length: usize = self.len();
        max_quotient_degree(
            transition_constraints.as_slice(),
            degree,
            width,
            length.saturating_sub(1),
        )
    }

    /// The quotients of the boundary constraints over the evaluation
    /// domain of `codeword_len` points, one codeword for each constraint.
    fn boundary_quotients(
        &self,
        codeword_len: usize,
        codewords: &[Vec<Felt>],
        challenges: &[Felt],
    ) -> (r: Result<Vec<Vec<Felt>>, ProvingError>)
        ensures
            exists|constraints: Vec<MultivariatePolynomial>| #[trigger]
                call_ensures(Self::extension_boundary_constraints, (challenges,), constraints)
                    && is_boundary_quotients(constraints@, codeword_len, codewords@, r),
    {
        let boundary_constraints: Vec<MultivariatePolynomial> =
            Self::extension_boundary_constraints(challenges);
        boundary_quotient_codewords(codeword_len, codewords, boundary_constraints.as_slice())
    }

    /// The quotients of the transition constraints over the evaluation
    /// domain of `codeword_len` points, one codeword for each constraint.
    fn transition_quotients(
        &self,
        codeword_len: usize,
        codewords: &[Vec<Felt>],
        challenges: &[Felt],
    ) -> (r: Result<Vec<Vec<Felt>>, ProvingError>)
        ensures
            exists|constraints: Vec<MultivariatePolynomial>, height: usize|
                {
                    &&& #[trigger] call_ensures(
                        Self::extension_transition_constraints,
                        (challenges,),
                        constraints,
                    )
                    &&& #[trigger] call_ensures(Self::height, (self,), height)
                    &&& is_transition_quotients(
                        constraints@,
                        height,
                        codeword_len,
                        codewords@,
                        r,
                    )
                },
    {
        let transition_constraints: Vec<MultivariatePolynomial> =
            Self::extension_transition_constraints(challenges);
        let height: usize = self.height();
        transition_quotient_codewords(
            height,
            codeword_len,
            codewords,
            transition_constraints.as_slice(),
        )
    }

    /// The quotients of the terminal constraints over the evaluation
    /// domain of `codeword_len` points, one codeword for each constraint.
    fn terminal_quotients(
        &self,
        codeword_len: usize,
        codewords: &[Vec<Felt>],
        challenges: &[Felt],
        terminals: &[Felt],
    ) -> (r: Result<Vec<Vec<Felt>>, ProvingError>)
        ensures
            exists|constraints: Vec<MultivariatePolynomial>, height: usize|
                {
                    &&& #[trigger] call_ensures(
                        Self::extension_terminal_constraints,
                        (self, challenges, terminals),
                        constraints,
                    )
                    &&& #[trigger] call_ensures(Self::height, (self,), height)
                    &&& is_terminal_quotients(constraints@, height, codeword_len, codewords@, r)
                },
    {
        let terminal_constraints: Vec<MultivariatePolynomial> =
            self.extension_terminal_constraints(challenges, terminals);
        let height: usize = self.height();
        terminal_quotient_codewords(
            height,
            codeword_len,
            codewords,
            terminal_constraints.as_slice(),
        )
    }

    /// The boundary, transition and terminal quotients, in that order.
    fn all_quotients(
        &self,
        codeword_len: usize,
        codewords: &[Vec<Felt>],
        challenges: &[Felt],
        terminals: &[Felt],
    ) -> (r: Result<Vec<Vec<Felt>>, ProvingError>)
        ensures
            exists|
                boundary: Result<Vec<Vec<Felt>>, ProvingError>,
                transition: Result<Vec<Vec<Felt>>, ProvingError>,
                terminal: Result<Vec<Vec<Felt>>, ProvingError>,
            |
                {
                    &&& #[trigger] call_ensures(
                        Self::boundary_quotients,
                        (self, codeword_len, codewords, challenges),
                        boundary,
                    )
                    &&& #[trigger] call_ensures(
                        Self::transition_quotients,
                        (self, codeword_len, codewords, challenges),
                        transition,
                    )
                    &&& #[trigger] call_ensures(
                        Self::terminal_quotients,
                        (self, codeword_len, codewords, challenges, terminals),
                        terminal,
                    )
                    &&& is_all_quotients(boundary, transition, terminal, r)
                },
    {
        let boundary: Result<Vec<Vec<Felt>>, ProvingError> = self.boundary_quotients(
            codeword_len,
            codewords,
            challenges,
        );
        let transition: Result<Vec<Vec<Felt>>, ProvingError> = self.transition_quotients(
            codeword_len,
            codewords,
            challenges,
        );
        let terminal: Result<Vec<Vec<Felt>>, ProvingError> = self.terminal_quotients(
            codeword_len,
            codewords,
            challenges,
            terminals,
        );
        join_quotients(boundary, transition, terminal)
    }

    /// The degree bounds of the boundary quotients: 1 is subtracted, the
    /// degree of the zerofier of the first row.
    fn boundary_quotient_degree_bounds(&self, challenges: &[Felt]) -> (r: Vec<usize>)
        ensures
            exists|constraints: Vec<MultivariatePolynomial>, degree: usize|
                {
                    &&& #[trigger] call_ensures(
                        Self::extension_boundary_constraints,
                        (challenges,),
                        constraints,
                    )
                    &&& #[trigger] call_ensures(Self::interpolant_degree, (self,), degree)
                    &&& is_degree_bounds(constraints@, degree, Self::EXTENSION_WIDTH, 1, r@)
                },
    {
        let boundary_constraints: Vec<MultivariatePolynomial> =
            Self::extension_boundary_constraints(challenges);
        let degree: usize = self.interpolant_degree();
        quotient_degree_bounds(boundary_constraints.as_slice(), degree, Self::EXTENSION_WIDTH, 1)
    }

    /// The degree bounds of the transition quotients: the height less 1
    /// is subtracted, the degree of the zerofier of all rows but the last.
    fn transition_quotient_degree_bounds(&self, challenges: &[Felt]) -> (r: Vec<usize>)
        ensures
            exists|constraints: Vec<MultivariatePolynomial>, degree: usize, height: usize|
                {
                    &&& #[trigger] call_ensures(
                        Self::extension_transition_constraints,
                        (challenges,),
                        constraints,
                    )
                    &&& #[trigger] call_ensures(Self::interpolant_degree, (self,), degree)
                    &&& #[trigger] call_ensures(Self::height, (self,), height)
                    &&& is_degree_bounds(
                        constraints@,
                        degree,
                        doubled(Self::EXTENSION_WIDTH),
                        less_one(height),
                        r@,
                    )
                },
    {
        let transition_constraints: Vec<MultivariatePolynomial> =
            Self::extension_transition_constraints(challenges);
        let width: usize = Self::EXTENSION_WIDTH.saturating_add(Self::EXTENSION_WIDTH);
        let degree: usize = self.interpolant_degree();
        let height: usize = self.height();
        quotient_degree_bounds(
            transition_constraints.as_slice(),
            degree,
            width,
            height.saturating_sub(1),
        )
    }

    /// The degree bounds of the terminal quotients: 1 is subtracted, the
    /// degree of the zerofier of the last row.
    fn terminal_quotient_degree_bounds(&self, challenges: &[Felt], terminals: &[Felt]) -> (r: Vec<
        usize,
    >)
        ensures
            exists|constraints: Vec<MultivariatePolynomial>, degree: usize|
                {
                    &&& #[trigger] call_ensures(
                        Self::extension_terminal_constraints,
                        (self, challenges, terminals),
                        constraints,
                    )
                    &&& #[trigger] call_ensures(Self::interpolant_degree, (self,), degree)
                    &&& is_degree_bounds(constraints@, degree, Self::EXTENSION_WIDTH, 1, r@)
                },
    {
        let terminal_constraints: Vec<MultivariatePolynomial> =
            self.extension_terminal_constraints(challenges, terminals);
        let degree: usize = self.interpolant_degree();
        quotient_degree_bounds(terminal_constraints.as_slice(), degree, Self::EXTENSION_WIDTH, 1)
    }

    /// The degree bounds of the boundary, transition and terminal
    /// quotients, in that order.
    fn all_quotient_degree_bounds(&self, challenges: &[Felt], terminals: &[Felt]) -> (r: Vec<
        usize,
    >)
        ensures
            exists|boundary: Vec<usize>, transition: Vec<usize>, terminal: Vec<usize>|
                {
                    &&& #[trigger] call_ensures(
                        Self::boundary_quotient_degree_bounds,
                        (self, challenges),
                        boundary,
                    )
                    &&& #[trigger] call_ensures(
                        Self::transition_quotient_degree_bounds,
                        (self, challenges),
                        transition,
                    )
                    &&& #[trigger] call_ensures(
                        Self::terminal_quotient_degree_bounds,
                        (self, challenges, terminals),
                        terminal,
                    )
                    &&& r@ == boundary@ + transition@ + terminal@
                },
    {
        let boundary_degree_bounds: Vec<usize> = self.boundary_quotient_degree_bounds(challenges);
        let transition_degree_bounds: Vec<usize> = self.transition_quotient_degree_bounds(
            challenges,
        );
        let terminal_degree_bounds: Vec<usize> = self.terminal_quotient_degree_bounds(
            challenges,
            terminals,
        );
        concatenate(boundary_degree_bounds, transition_degree_bounds, terminal_degree_bounds)
    }

    /// Fills the table with the rows of the trace.
    fn set_matrix(&mut self, matrix: Vec<Vec<Felt>>);

    /// Extends every row with the columns that fold in the challenges.
    fn extend(&mut self, challenges: &[Felt], initials: &[Felt]);

    /// Computes the low degree extension of the base columns
    fn base_lde(&mut self, offset: Felt, codeword_len: usize) -> Vec<Vec<Felt>>;

    /// Computes the low degree extension of all columns
    fn extension_lde(&mut self, offset: Felt, codeword_len: usize) -> Vec<Vec<Felt>>;
}

/// The three lists of quotient codewords one after the other, or the
/// error of the first list that is none.
pub fn join_quotients(
    boundary: Result<Vec<Vec<Felt>>, ProvingError>,
    transition: Result<Vec<Vec<Felt>>, ProvingError>,
    terminal: Result<Vec<Vec<Felt>>, ProvingError>,
) -> (r: Result<Vec<Vec<Felt>>, ProvingError>)
    ensures
        is_all_quotients(boundary, transition, terminal, r),
{
    let boundary_quotients: Vec<Vec<Felt>> = match boundary {
        Ok(q) => q,
        Err(e) => {
            return Err(e);
        },
    };
    let transition_quotients: Vec<Vec<Felt>> = match transition {
        Ok(q) => q,
        Err(e) => {
            return Err(e);
        },
    };
    let terminal_quotients: Vec<Vec<Felt>> = match terminal {
        Ok(q) => q,
        Err(e) => {
            return Err(e);
        },
    };
    Ok(concatenate(boundary_quotients, transition_quotients, terminal_quotients))
}

} // verus!
