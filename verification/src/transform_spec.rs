//! The discrete Fourier transform over the field and its inverse, as
//! mathematical functions, and the proof that one undoes the other.

use vstd::prelude::*;
use vstd::arithmetic::div_mod::*;
use vstd::arithmetic::mul::*;
use vstd::arithmetic::power::*;
use vstd::arithmetic::power2::*;
use crate::field::{fpow, lemma_root_of_unity_order, root_of_unity};
use crate::modular::{
    lemma_cong_add, lemma_cong_mul, lemma_cong_pow, lemma_full_power_is_one, lemma_pow_double,
    lemma_powers_distinct,
};
use crate::poly_spec::{
    coeffs, eval, evens, feval, lemma_eval_cong, lemma_eval_even_odd, odds, poly_term,
};
use crate::powers_of_two::{is_pow2, lemma_log2_pow2, lemma_pow2_half, log2};
use crate::prime::{finv, lemma_finv, lemma_no_zero_divisors, modulus};
use crate::sums::{
    inner_sum, inner_sum_transposed, lemma_geometric_sum, lemma_sum_cong, lemma_sum_const,
    lemma_sum_scale, lemma_sum_single, lemma_sum_swap, powers, sum,
};

verus! {

/// Every entry is a residue of the field.
pub open spec fn all_residues(v: Seq<int>) -> bool {
    forall|i: int| 0 <= i < v.len() ==> 0 <= #[trigger] v[i] < modulus()
}

/// `w` is a primitive `n`-th root of unity, for `n >= 2`: its `n`-th power
/// is 1 and its `n/2`-th power is not.
pub open spec fn is_primitive_root(w: int, n: nat) -> bool {
    fpow(w, n) == 1 && fpow(w, n / 2) != 1
}

/// The transform of `v` with root `w`: the values of the polynomial with
/// coefficients `v` at `w^0, w^1, ..., w^(n-1)`.
pub open spec fn dft(v: Seq<int>, w: int) -> Seq<int> {
    Seq::new(v.len(), |i: int| feval(v, pow(w, i as nat)))
}

/// The inverse transform with root `w`: the transform with the inverse
/// of `w`, every entry divided by the length.
pub open spec fn idft_with(v: Seq<int>, w: int) -> Seq<int> {
    Seq::new(
        v.len(),
        |k: int| (finv(v.len() as int) * feval(v, pow(finv(w), k as nat))) % modulus(),
    )
}

/// The transform with the root of unity that the field fixes for the
/// length of `v`, a power of two.
pub open spec fn forward_transform(v: Seq<int>) -> Seq<int> {
    dft(v, root_of_unity(log2(v.len() as int)))
}

/// The inverse transform with the root of unity that the field fixes for
/// the length of `v`, a power of two.
pub open spec fn inverse_transform(v: Seq<int>) -> Seq<int> {
    idft_with(v, root_of_unity(log2(v.len() as int)))
}

/// One output of the recursive transform: from the transforms of the even
/// and odd entries with the squared root.
pub proof fn lemma_butterfly(v: Seq<int>, w: int, w2: int, i: int, e: int, o: int, wi: int)
    requires
        v.len() >= 2,
        v.len() % 2 == 0,
        pow(w, v.len()) % modulus() == 1,
        0 <= i < v.len(),
        w2 % modulus() == (w * w) % modulus(),
        e == feval(evens(v), pow(w2, (i % (v.len() as int / 2)) as nat)),
        o == feval(odds(v), pow(w2, (i % (v.len() as int / 2)) as nat)),
        wi % modulus() == pow(w, i as nat) % modulus(),
    ensures
        (e + (o * wi) % modulus()) % modulus() == feval(v, pow(w, i as nat)),
{
    let p: int = modulus();
    let n: int = v.len() as int;
    let h: int = n / 2;
    let r: int = i % h;
    let x: int = pow(w, i as nat);
    let y: int = pow(w2, r as nat);
    // y is congruent to x * x
    assert(y % p == (x * x) % p) by {
        lemma_cong_pow(w2, w * w, r as nat, p);
        lemma_pow_double(w, r as nat);
        lemma_pow_double(w, i as nat);
        if i >= h {
            assert(i == 1 * h + (i - h)) by (nonlinear_arith);
            lemma_fundamental_div_mod_converse(i, h, 1, i - h);
            assert(r == i - h);
            lemma_pow_adds(w, (2 * r) as nat, n as nat);
            lemma_small_mod(1, p as nat);
            lemma_cong_mul(pow(w, (2 * r) as nat), pow(w, (2 * r) as nat), pow(w, n as nat), 1, p);
            assert(pow(w, (2 * r) as nat) * 1 == pow(w, (2 * r) as nat));
            assert(2 * r + n == 2 * i);
        } else {
            lemma_small_mod(i as nat, h as nat);
            assert(r == i);
        }
    }
    lemma_eval_cong(evens(v), evens(v), y, x * x);
    lemma_eval_cong(odds(v), odds(v), y, x * x);
    lemma_eval_even_odd(v, x);
    let ee: int = eval(evens(v), x * x);
    let eo: int = eval(odds(v), x * x);
    lemma_cong_mul(o, eo, wi, x, p);
    lemma_mul_is_commutative(eo, x);
    lemma_mod_twice(o * wi, p);
    lemma_cong_add(e, ee, (o * wi) % p, x * eo, p);
}

/// A root of unity whose `n/2`-th power is not 1 has `n/2`-th power `-1`.
pub proof fn lemma_primitive_root_half(w: int, k: nat)
    requires
        k >= 1,
        is_primitive_root(w, pow2(k)),
    ensures
        pow(w, pow2((k - 1) as nat)) % modulus() == modulus() - 1,
{
    let p: int = modulus();
    let half: nat = pow2((k - 1) as nat);
    let x: int = pow(w, half);
    lemma_pow2_half(k);
    lemma_pow_double(w, half);
    lemma_pow2_unfold(k);
    // (x - 1) * (x + 1) == x * x - 1, which is 0 modulo p
    assert((x - 1) * (x + 1) == x * x - 1) by (nonlinear_arith);
    assert((x * x - 1) % p == 0);
    lemma_no_zero_divisors(x - 1, x + 1);
}

/// The inverse of a primitive root of unity is one too.
pub proof fn lemma_inverse_root(w: int, k: nat)
    requires
        k >= 1,
        pow(w, pow2((k - 1) as nat)) % modulus() == modulus() - 1,
    ensures
        w % modulus() != 0,
        pow(finv(w), pow2((k - 1) as nat)) % modulus() == modulus() - 1,
        pow(finv(w), pow2(k)) % modulus() == 1,
{
    let p: int = modulus();
    let half: nat = pow2((k - 1) as nat);
    lemma_pow2_pos((k - 1) as nat);
    if w % p == 0 {
        lemma_cong_pow(w, 0, half, p);
        lemma0_pow(half);
        assert(false);
    }
    lemma_finv(w);
    let u: int = finv(w);
    // (w^half) * (u^half) == (w * u)^half, congruent to 1
    lemma_pow_distributes(w, u, half);
    lemma_small_mod(1, p as nat);
    lemma_cong_pow(w * u, 1, half, p);
    lemma1_pow(half);
    // so -1 * u^half is congruent to 1, and u^half to -1
    let a: int = pow(w, half);
    let b: int = pow(u, half);
    lemma_cong_mul(a, p - 1, b, b, p);
    assert((p - 1) * b == p * b - b) by (nonlinear_arith);
    lemma_mod_multiples_basic(b, p);
    lemma_mul_is_commutative(p, b);
    crate::modular::lemma_cong_sub(p * b, 0, b, b, p);
    assert((0 - b) % p == 1);
    assert(b % p == p - 1);
    lemma_full_power_is_one(u, k, p);
}

/// The ratio behind the orthogonality of the powers of a root of unity.
pub open spec fn ratio(w: int, u: int, j: int, k: int) -> int {
    pow(w, j as nat) * pow(u, k as nat)
}

/// The powers of a primitive `2^kk`-th root of unity are orthogonal: the
/// sum over `i` of `w^(i*j) * w^(-i*k)` is `n` when `j == k` and 0
/// otherwise.
pub proof fn lemma_orthogonality(w: int, kk: nat, j: int, k: int)
    requires
        kk >= 1 ==> pow(w, pow2((kk - 1) as nat)) % modulus() == modulus() - 1,
        kk == 0 ==> w % modulus() != 0,
        0 <= j < pow2(kk),
        0 <= k < pow2(kk),
    ensures
        sum(powers(ratio(w, finv(w), j, k)), pow2(kk) as int) % modulus() == (if j == k {
            pow2(kk) as int % modulus()
        } else {
            0
        }),
{
    let p: int = modulus();
    let n: nat = pow2(kk);
    let u: int = finv(w);
    let rho: int = ratio(w, u, j, k);
    lemma_small_mod(1, p as nat);
    if kk >= 1 {
        lemma_inverse_root(w, kk);
    }
    lemma_finv(w);
    if j == k {
        lemma_pow_distributes(w, u, j as nat);
        lemma_cong_pow(w * u, 1, j as nat, p);
        lemma1_pow(j as nat);
        assert(rho % p == 1);
        let ones = |i: int| 1int;
        assert forall|i: int| 0 <= i < n implies #[trigger] powers(rho)(i) % p == ones(i)
            % p by {
            lemma_cong_pow(rho, 1, i as nat, p);
            lemma1_pow(i as nat);
        }
        lemma_sum_cong(powers(rho), ones, n as int, p);
        lemma_sum_const(ones, 1, n as int);
    } else {
        assert(kk >= 1) by {
            if kk == 0 {
                lemma2_to64();
            }
        }
        let g: int = sum(powers(rho), n as int);
        lemma_geometric_sum(rho, n);
        // rho^n is congruent to 1
        assert(pow(rho, n) % p == 1) by {
            lemma_pow_distributes(pow(w, j as nat), pow(u, k as nat), n);
            lemma_pow_multiplies(w, j as nat, n);
            lemma_pow_multiplies(w, n, j as nat);
            lemma_mul_is_commutative(j, n as int);
            lemma_pow_multiplies(u, k as nat, n);
            lemma_pow_multiplies(u, n, k as nat);
            lemma_mul_is_commutative(k, n as int);
            lemma_full_power_is_one(w, kk, p);
            lemma_cong_pow(pow(w, n), 1, j as nat, p);
            lemma_cong_pow(pow(u, n), 1, k as nat, p);
            lemma1_pow(j as nat);
            lemma1_pow(k as nat);
            lemma_cong_mul(pow(pow(w, n), j as nat), 1, pow(pow(u, n), k as nat), 1, p);
        }
        assert(((rho - 1) * g) % p == 0);
        lemma_no_zero_divisors(rho - 1, g);
        if (rho - 1) % p == 0 {
            // then w^j is congruent to w^k
            assert(rho % p == 1);
            let wk: int = pow(w, k as nat);
            let wj: int = pow(w, j as nat);
            let uk: int = pow(u, k as nat);
            lemma_cong_mul(rho, 1, wk, wk, p);
            assert(rho * wk == wj * (wk * uk)) by (nonlinear_arith)
                requires
                    rho == wj * uk,
            ;
            lemma_pow_distributes(w, u, k as nat);
            lemma_cong_pow(w * u, 1, k as nat, p);
            lemma1_pow(k as nat);
            lemma_cong_mul(wj, wj, wk * uk, 1, p);
            assert(wj * 1 == wj);
            assert(1 * wk == wk);
            assert(wj % p == wk % p);
            if j < k {
                lemma_powers_distinct(w, kk, j as nat, k as nat, p);
            } else {
                lemma_powers_distinct(w, kk, k as nat, j as nat, p);
            }
            assert(false);
        }
    }
}

/// The terms of the double sum behind the inverse transform.
pub open spec fn round_trip_term(v: Seq<int>, w: int, u: int, k: int) -> spec_fn(int, int) -> int {
    |i: int, j: int| (v[j] * pow(pow(w, i as nat), j as nat)) * pow(pow(u, k as nat), i as nat)
}

/// Transforming with a primitive root and then with its inverse
/// multiplies every entry by the length.
pub proof fn lemma_double_transform(v: Seq<int>, w: int, kk: nat, k: int)
    requires
        v.len() == pow2(kk),
        kk >= 1 ==> pow(w, pow2((kk - 1) as nat)) % modulus() == modulus() - 1,
        kk == 0 ==> w % modulus() != 0,
        0 <= k < v.len(),
    ensures
        feval(dft(v, w), pow(finv(w), k as nat)) == (v.len() * v[k]) % modulus(),
{
    let p: int = modulus();
    let n: int = v.len() as int;
    let u: int = finv(w);
    let y: Seq<int> = dft(v, w);
    let xk: int = pow(u, k as nat);
    let f = round_trip_term(v, w, u, k);
    // eval(y, xk) is congruent to the double sum of f
    assert forall|i: int| 0 <= i < n implies #[trigger] poly_term(coeffs(y), xk)(i) % p
        == inner_sum(f, n)(i) % p by {
        let xi: int = pow(w, i as nat);
        let row = |j: int| f(i, j);
        let q: int = pow(xk, i as nat);
        assert forall|j: int| 0 <= j < n implies #[trigger] row(j) == q * poly_term(
            coeffs(v),
            xi,
        )(j) by {
            let a: int = v[j];
            let b: int = pow(xi, j as nat);
            assert((a * b) * q == q * (a * b)) by (nonlinear_arith);
        }
        lemma_sum_scale(poly_term(coeffs(v), xi), row, q, n);
        assert(inner_sum(f, n)(i) == q * eval(v, xi));
        lemma_cong_mul(y[i], eval(v, xi), q, q, p);
        lemma_mul_is_commutative(eval(v, xi), q);
    }
    lemma_sum_cong(poly_term(coeffs(y), xk), inner_sum(f, n), n, p);
    lemma_sum_swap(f, n, n);
    // each column sums to v[j] times a geometric sum
    let target = |j: int|
        if j == k {
            n * v[k]
        } else {
            0
        };
    assert forall|j: int| 0 <= j < n implies #[trigger] inner_sum_transposed(f, n)(j) % p
        == target(j) % p by {
        let rho: int = ratio(w, u, j, k);
        let col = |i: int| f(i, j);
        assert forall|i: int| 0 <= i < n implies #[trigger] col(i) == v[j] * powers(rho)(i) by {
            lemma_pow_multiplies(w, i as nat, j as nat);
            lemma_pow_multiplies(w, j as nat, i as nat);
            lemma_mul_is_commutative(i, j);
            lemma_pow_distributes(pow(w, j as nat), pow(u, k as nat), i as nat);
            let a: int = v[j];
            let b: int = pow(pow(w, j as nat), i as nat);
            let c: int = pow(pow(u, k as nat), i as nat);
            assert((a * b) * c == a * (b * c)) by (nonlinear_arith);
        }
        lemma_sum_scale(powers(rho), col, v[j], n);
        lemma_orthogonality(w, kk, j, k);
        let g: int = sum(powers(rho), n);
        if j == k {
            lemma_cong_mul(v[j], v[j], g, n, p);
            lemma_mul_is_commutative(v[j], n);
        } else {
            lemma_cong_mul(v[j], v[j], g, 0, p);
            assert(v[j] * 0 == 0);
        }
    }
    lemma_sum_cong(inner_sum_transposed(f, n), target, n, p);
    lemma_sum_single(target, n, k);
}

/// The inverse transform undoes the transform with the same primitive
/// root.
pub proof fn lemma_round_trip_with(v: Seq<int>, w: int, kk: nat)
    requires
        v.len() == pow2(kk),
        all_residues(v),
        pow2(kk) % modulus() as nat != 0,
        kk >= 1 ==> is_primitive_root(w, pow2(kk)),
        kk == 0 ==> w % modulus() != 0,
    ensures
        idft_with(dft(v, w), w) == v,
{
    let p: int = modulus();
    let n: int = v.len() as int;
    let z: Seq<int> = idft_with(dft(v, w), w);
    if kk >= 1 {
        lemma_primitive_root_half(w, kk);
    }
    lemma_finv(n);
    assert forall|k: int| 0 <= k < n implies z[k] == v[k] by {
        lemma_double_transform(v, w, kk, k);
        let t: int = feval(dft(v, w), pow(finv(w), k as nat));
        lemma_cong_mul(finv(n), finv(n), t, n * v[k], p);
        assert(finv(n) * (n * v[k]) == (n * finv(n)) * v[k]) by (nonlinear_arith);
        lemma_small_mod(1, p as nat);
        lemma_cong_mul(n * finv(n), 1, v[k], v[k], p);
        assert(1 * v[k] == v[k]);
        lemma_small_mod(v[k] as nat, p as nat);
    }
    assert(z =~= v);
}

/// A power of two up to `2^32` is not divisible by the modulus.
pub proof fn lemma_pow2_nonzero(kk: nat)
    requires
        kk <= 32,
    ensures
        0 < pow2(kk) < modulus(),
        pow2(kk) as int % modulus() != 0,
{
    lemma2_to64();
    lemma_pow2_pos(kk);
    if kk < 32 {
        lemma_pow2_strictly_increases(kk, 32);
    }
    lemma_small_mod(pow2(kk), modulus() as nat);
}

/// The inverse transform undoes the transform: for every sequence of
/// residues whose length is a power of two up to `2^32`.
pub proof fn lemma_round_trip(v: Seq<int>)
    requires
        is_pow2(v.len() as int),
        v.len() <= pow2(32),
        all_residues(v),
    ensures
        inverse_transform(forward_transform(v)) == v,
{
    let kk: nat = choose|kk: nat| v.len() as int == pow2(kk);
    lemma_log2_pow2(kk);
    if kk > 32 {
        lemma_pow2_strictly_increases(32, kk);
    }
    lemma_root_of_unity_order(kk);
    lemma_pow2_nonzero(kk);
    let w: int = root_of_unity(kk);
    if kk >= 1 {
        lemma_pow2_half(kk);
    } else {
        lemma2_to64();
        lemma_pow1(w);
    }
    lemma_round_trip_with(v, w, kk);
}

} // verus!
