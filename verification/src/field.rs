//! Elements of the prime field with `p = 2^64 - 2^32 + 1` elements, and
//! their arithmetic.

use vstd::prelude::*;
use vstd::arithmetic::div_mod::*;
use vstd::arithmetic::power::*;
use vstd::arithmetic::power2::*;
use crate::modular::{
    lemma_cong_mul, lemma_cong_pow, lemma_cong_sub, lemma_pow_double, lemma_pow_succ,
};
use crate::prover::ProvingError;
use crate::prime::{
    finv, lemma_finv, lemma_modulus_is_prime, lemma_two_adic_root_half_order, modulus,
    two_adic_root,
};

verus! {

/// The field modulus `2^64 - 2^32 + 1`.
pub const MODULUS: u64 = 0xFFFF_FFFF_0000_0001;

/// A generator of the multiplicative group of the field.
pub const GENERATOR: u64 = 7;

/// The largest `k` for which the field holds a root of unity of order `2^k`.
pub const TWO_ADICITY: u32 = 32;

/// `GENERATOR^(2^32 - 1)`, a root of unity of order `2^32`.
pub const TWO_ADIC_ROOT: u64 = 1753635133440165772;

/// Sum of two residues.
pub open spec fn fadd(a: int, b: int) -> int {
    (a + b) % modulus()
}

/// Difference of two residues.
pub open spec fn fsub(a: int, b: int) -> int {
    (a - b) % modulus()
}

/// Product of two residues.
pub open spec fn fmul(a: int, b: int) -> int {
    (a * b) % modulus()
}

/// Additive inverse of a residue.
pub open spec fn fneg(a: int) -> int {
    (-a) % modulus()
}

/// `b` raised to the power `e`, as a residue.
pub open spec fn fpow(b: int, e: nat) -> int {
    pow(b, e) % modulus()
}

/// The root of unity of order `2^log_order` that the field fixes, for
/// `log_order <= 32`.
pub open spec fn root_of_unity(log_order: nat) -> int {
    fpow(two_adic_root(), pow2((32 - log_order) as nat))
}

/// `root_of_unity(k)` has order exactly `2^k`.
pub proof fn lemma_root_of_unity_order(k: nat)
    requires
        k <= 32,
    ensures
        0 <= root_of_unity(k) < modulus(),
        fpow(root_of_unity(k), pow2(k)) == 1,
        k >= 1 ==> fpow(root_of_unity(k), pow2((k - 1) as nat)) == modulus() - 1,
{
    let p: int = modulus();
    let w: int = two_adic_root();
    let up: nat = pow2((32 - k) as nat);
    lemma_mod_bound(pow(w, up), p);
    lemma_two_adic_root_half_order();
    if k >= 1 {
        let half: nat = pow2((k - 1) as nat);
        lemma_cong_pow(root_of_unity(k), pow(w, up), half, p);
        lemma_pow_multiplies(w, up, half);
        lemma_pow2_adds((32 - k) as nat, (k - 1) as nat);
        crate::modular::lemma_full_power_is_one(root_of_unity(k), k, p);
    } else {
        lemma2_to64();
        lemma_pow1(root_of_unity(0));
        crate::modular::lemma_full_power_is_one(w, 32, p);
        lemma_mod_twice(pow(w, up), p);
    }
}

/// An element of the field, held as its least non-negative residue.
#[derive(Clone, Copy, Debug, PartialEq, Eq, Structural)]
pub struct Felt {
    value: u64,
}

impl View for Felt {
    type V = int;

    /// The least non-negative residue of the element.
    closed spec fn view(&self) -> int {
        (self.value as int) % modulus()
    }
}

/// The view of an element is a residue.
pub broadcast proof fn lemma_felt_range(f: Felt)
    ensures
        0 <= #[trigger] f@ < modulus(),
{
}

/// The residues of a sequence of elements.
pub open spec fn residues(s: Seq<Felt>) -> Seq<int> {
    Seq::new(s.len(), |i: int| s[i]@)
}

impl Felt {
    #[verifier::type_invariant]
    spec fn canonical(self) -> bool {
        self.value < MODULUS
    }

    /// The element congruent to `value`.
    pub fn new(value: u64) -> (r: Felt)
        ensures
            r@ == value as int % modulus(),
    {
        Felt { value: value % MODULUS }
    }

    /// The additive identity.
    pub fn zero() -> (r: Felt)
        ensures
            r@ == 0,
    {
        Felt { value: 0 }
    }

    /// The multiplicative identity.
    pub fn one() -> (r: Felt)
        ensures
            r@ == 1,
    {
        Felt { value: 1 }
    }

    /// The fixed generator of the multiplicative group.
    pub fn generator() -> (r: Felt)
        ensures
            r@ == crate::prime::generator(),
    {
        Felt { value: GENERATOR }
    }

    /// The least non-negative residue.
    pub fn value(&self) -> (r: u64)
        ensures
            r as int == self@,
    {
        proof {
            use_type_invariant(self);
        }
        self.value
    }

    /// Whether the element is zero.
    pub fn is_zero(&self) -> (r: bool)
        ensures
            r == (self@ == 0),
    {
        proof {
            use_type_invariant(self);
        }
        self.value == 0
    }

    /// Whether two elements are the same residue.
    pub fn equals(&self, other: &Felt) -> (r: bool)
        ensures
            r == (self@ == other@),
    {
        proof {
            use_type_invariant(self);
            use_type_invariant(other);
        }
        self.value == other.value
    }

    /// Field addition.
    pub fn add(self, rhs: Felt) -> (r: Felt)
        ensures
            r@ == fadd(self@, rhs@),
    {
        proof {
            use_type_invariant(self);
            use_type_invariant(rhs);
        }
        let s: u128 = self.value as u128 + rhs.value as u128;
        let m: u128 = MODULUS as u128;
        let v: u128 = if s >= m {
            s - m
        } else {
            s
        };
        Felt { value: v as u64 }
    }

    /// Field subtraction.
    pub fn sub(self, rhs: Felt) -> (r: Felt)
        ensures
            r@ == fsub(self@, rhs@),
    {
        proof {
            use_type_invariant(self);
            use_type_invariant(rhs);
        }
        let v: u64 = if self.value >= rhs.value {
            self.value - rhs.value
        } else {
            MODULUS - (rhs.value - self.value)
        };
        Felt { value: v }
    }

    /// Additive inverse.
    pub fn neg(self) -> (r: Felt)
        ensures
            r@ == fneg(self@),
    {
        proof {
            use_type_invariant(self);
        }
        let v: u64 = if self.value == 0 {
            0
        } else {
            MODULUS - self.value
        };
        Felt { value: v }
    }

    /// Field multiplication.
    pub fn mul(self, rhs: Felt) -> (r: Felt)
        ensures
            r@ == fmul(self@, rhs@),
    {
        proof {
            use_type_invariant(self);
            use_type_invariant(rhs);
            assert(self.value * rhs.value <= u128::MAX) by (nonlinear_arith)
                requires
                    self.value < 0x1_0000_0000_0000_0000,
                    rhs.value < 0x1_0000_0000_0000_0000,
            ;
        }
        let prod: u128 = self.value as u128 * rhs.value as u128;
        let v: u128 = prod % (MODULUS as u128);
        Felt { value: v as u64 }
    }

    /// The square of the element.
    pub fn square(self) -> (r: Felt)
        ensures
            r@ == fmul(self@, self@),
    {
        self.mul(self)
    }

    /// The element raised to the power `exp`.
    pub fn pow(self, exp: u64) -> (r: Felt)
        ensures
            r@ == fpow(self@, exp as nat),
    {
        let ghost p: int = modulus();
        let mut base: Felt = self;
        let mut e: u64 = exp;
        let mut acc: Felt = Felt::one();
        proof {
            assert(1 * pow(self@, exp as nat) == pow(self@, exp as nat));
        }
        while e > 0
            invariant
                p == modulus(),
                (acc@ * pow(base@, e as nat)) % p == pow(self@, exp as nat) % p,
            decreases e,
        {
            let ghost h: nat = (e / 2) as nat;
            let ghost old_acc: int = acc@;
            let ghost old_base: int = base@;
            if e % 2 == 1 {
                acc = acc.mul(base);
            }
            base = base.mul(base);
            proof {
                // pow(old_base, e) == pow(old_base * old_base, h) * old_base^(e % 2)
                lemma_pow_double(old_base, h);
                lemma_cong_pow(base@, old_base * old_base, h, p);
                if e % 2 == 1 {
                    lemma_pow_succ(old_base, 2 * h);
                    assert(old_acc * pow(old_base, e as nat) == (old_acc * old_base) * pow(
                        old_base * old_base,
                        h,
                    )) by (nonlinear_arith)
                        requires
                            pow(old_base, e as nat) == old_base * pow(old_base * old_base, h),
                    ;
                    lemma_cong_mul(
                        acc@,
                        old_acc * old_base,
                        pow(base@, h),
                        pow(old_base * old_base, h),
                        p,
                    );
                } else {
                    lemma_cong_mul(
                        acc@,
                        old_acc,
                        pow(base@, h),
                        pow(old_base * old_base, h),
                        p,
                    );
                }
            }
            e = e / 2;
        }
        proof {
            lemma_pow0(base@);
            assert(acc@ * 1 == acc@);
            lemma_felt_range(acc);
        }
        acc
    }

    /// The multiplicative inverse, or `None` for zero.
    pub fn inverse(self) -> (r: Option<Felt>)
        ensures
            r is None <==> self@ == 0,
            r matches Some(x) ==> x@ == finv(self@) && fmul(self@, x@) == 1,
    {
        proof {
            use_type_invariant(self);
        }
        if self.value == 0 {
            return None;
        }
        let ghost p: int = modulus();
        let mut a: u64 = self.value;
        let mut acc: Felt = Felt::one();
        proof {
            assert(self.value as int * 1 == self.value as int);
        }
        while a > 1
            invariant
                p == modulus(),
                0 < a < MODULUS,
                (self.value as int * acc@) % p == a as int,
            decreases a,
        {
            let q: u64 = MODULUS / a;
            let r: u64 = MODULUS % a;
            let ghost old_acc: int = acc@;
            proof {
                lemma_modulus_is_prime();
                assert(p % (a as int) != 0);
                lemma_fundamental_div_mod(p, a as int);
                assert(q >= 1) by {
                    if q == 0 {
                        assert((a as int) * 0 == 0);
                    }
                }
                assert(q < MODULUS) by (nonlinear_arith)
                    requires
                        p == a * q + r,
                        a > 1,
                        r >= 0,
                        q >= 1,
                        p == MODULUS,
                ;
            }
            acc = acc.mul(Felt { value: MODULUS - q });
            proof {
                let s: int = self.value as int;
                let nq: int = p - q;
                // s * (old_acc * nq) == (s * old_acc) * nq, congruent to a * nq == a * p - a * q
                assert(s * (old_acc * nq) == (s * old_acc) * nq) by (nonlinear_arith);
                lemma_mul_mod_noop_general(s, old_acc * nq, p);
                lemma_cong_mul(s * old_acc, a as int, nq, nq, p);
                assert((a as int) * nq == (a as int) * p - (a as int) * (q as int))
                    by (nonlinear_arith)
                    requires
                        nq == p - q,
                ;
                lemma_mod_multiples_basic(a as int, p);
                lemma_cong_sub(
                    (a as int) * p,
                    0,
                    (a as int) * (q as int),
                    (a as int) * (q as int),
                    p,
                );
                assert(0 - (a as int) * (q as int) == r as int - p);
            }
            a = r;
        }
        proof {
            lemma_finv(self@);
            lemma_felt_range(acc);
        }
        Some(acc)
    }

    /// The fixed root of unity of order `2^log_order`, or `None` when the
    /// field has none of that order (`log_order > 32`).
    pub fn get_root_of_unity(log_order: u32) -> (r: Option<Felt>)
        ensures
            r is None <==> log_order > TWO_ADICITY,
            r matches Some(w) ==> w@ == root_of_unity(log_order as nat),
    {
        if log_order > TWO_ADICITY {
            return None;
        }
        let ghost p: int = modulus();
        let mut w: Felt = Felt { value: TWO_ADIC_ROOT };
        let mut i: u32 = 0;
        proof {
            lemma2_to64();
            lemma_pow1(two_adic_root());
        }
        while i < TWO_ADICITY - log_order
            invariant
                p == modulus(),
                log_order <= TWO_ADICITY,
                i <= TWO_ADICITY - log_order,
                w@ == fpow(two_adic_root(), pow2(i as nat)),
            decreases TWO_ADICITY - log_order - i,
        {
            let ghost prev: int = pow(two_adic_root(), pow2(i as nat));
            w = w.square();
            proof {
                lemma_pow2_unfold((i + 1) as nat);
                lemma_pow_double(two_adic_root(), pow2(i as nat));
                lemma_mul_mod_noop_general(prev, prev, p);
            }
            i = i + 1;
        }
        Some(w)
    }
}

/// The product of the first `n` entries of `v` that are not zero.
pub open spec fn nonzero_product(v: Seq<int>, n: int) -> int
    decreases n,
{
    if n <= 0 {
        1
    } else if v[n - 1] == 0 {
        nonzero_product(v, n - 1)
    } else {
        nonzero_product(v, n - 1) * v[n - 1]
    }
}

/// The product of residues that are not zero is not zero in the field.
pub proof fn lemma_nonzero_product(v: Seq<int>, n: int)
    requires
        n <= v.len(),
        forall|i: int| 0 <= i < v.len() ==> 0 <= #[trigger] v[i] < modulus(),
    ensures
        nonzero_product(v, n) % modulus() != 0,
    decreases n,
{
    if n > 0 {
        lemma_nonzero_product(v, n - 1);
        if v[n - 1] != 0 && nonzero_product(v, n) % modulus() == 0 {
            crate::prime::lemma_no_zero_divisors(nonzero_product(v, n - 1), v[n - 1]);
        }
    }
}

/// Inverts every element of `values`; a zero element gives `None` in its
/// slot. One inversion is made, of the product of the elements that are
/// not zero; the inverse of each element is had from it by
/// multiplications.
pub fn batch_inverse(values: &[Felt]) -> (r: Vec<Option<Felt>>)
    ensures
        r.len() == values.len(),
        forall|i: int|
            0 <= i < values.len() ==> (#[trigger] r[i] is None <==> values[i]@ == 0),
        forall|i: int|
            0 <= i < values.len() ==> (#[trigger] r[i] matches Some(x) ==> x@ == finv(
                values[i]@,
            )),
{
    let ghost p: int = modulus();
    let ghost v: Seq<int> = residues(values@);
    let n: usize = values.len();
    // first pass: the products of the elements so far that are not zero
    let mut products: Vec<Felt> = Vec::new();
    let mut running: Felt = Felt::one();
    let mut i: usize = 0;
    while i < n
        invariant
            p == modulus(),
            v == residues(values@),
            n == values.len(),
            i <= n,
            products.len() == i,
            running@ == nonzero_product(v, i as int) % p,
            forall|j: int|
                0 <= j < i ==> (#[trigger] products[j])@ == nonzero_product(v, j + 1) % p,
        decreases n - i,
    {
        let ghost before: int = running@;
        if !values[i].is_zero() {
            running = running.mul(values[i]);
            proof {
                lemma_mul_mod_noop_general(nonzero_product(v, i as int), v[i as int], p);
            }
        }
        products.push(running);
        i = i + 1;
    }
    proof {
        assert forall|j: int| 0 <= j < v.len() implies 0 <= #[trigger] v[j] < p by {
            lemma_felt_range(values@[j]);
        }
        lemma_nonzero_product(v, n as int);
    }
    let mut inverse: Felt = match running.inverse() {
        Some(x) => x,
        None => Felt::one(),
    };
    proof {
        lemma_mul_mod_noop_general(nonzero_product(v, n as int), inverse@, p);
    }
    // second pass: backwards, peeling one element off the inverse at a time
    let mut out: Vec<Option<Felt>> = Vec::new();
    let mut k: usize = 0;
    while k < n
        invariant
            k <= n,
            out.len() == k,
            forall|j: int| 0 <= j < k ==> #[trigger] out[j] is None,
        decreases n - k,
    {
        out.push(None);
        k = k + 1;
    }
    let mut i: usize = n;
    while i > 0
        invariant
            p == modulus(),
            v == residues(values@),
            n == values.len(),
            i <= n,
            products.len() == n,
            out.len() == n,
            forall|j: int|
                0 <= j < n ==> (#[trigger] products[j])@ == nonzero_product(v, j + 1) % p,
            (nonzero_product(v, i as int) * inverse@) % p == 1,
            forall|j: int| i <= j < n ==> (#[trigger] out[j] is None <==> values[j]@ == 0),
            forall|j: int|
                i <= j < n ==> (#[trigger] out[j] matches Some(x) ==> x@ == finv(values[j]@)),
            forall|j: int| 0 <= j < i ==> #[trigger] out[j] is None,
        decreases i,
    {
        let t: usize = i - 1;
        let value: Felt = values[t];
        if !value.is_zero() {
            let previous: Felt = if t == 0 {
                Felt::one()
            } else {
                products[t - 1]
            };
            let ghost before: int = inverse@;
            let element_inverse: Felt = inverse.mul(previous);
            inverse = inverse.mul(value);
            proof {
                let below: int = nonzero_product(v, t as int);
                let x: int = v[t as int];
                lemma_small_mod(1, p as nat);
                assert(previous@ == below % p);
                // value * element_inverse is congruent to (below * x) * before
                lemma_mul_mod_noop_general(before, below, p);
                lemma_cong_mul(x, x, element_inverse@, before * below, p);
                assert(x * (before * below) == (below * x) * before) by (nonlinear_arith);
                lemma_finv(x);
                lemma_felt_range(element_inverse);
                // the inverse of the product below
                lemma_cong_mul(below, below, inverse@, before * x, p);
                assert(below * (before * x) == (below * x) * before) by (nonlinear_arith);
            }
            out.set(t, Some(element_inverse));
        }
        i = t;
    }
    out
}

/// Inverts every element of `values`, none of which may be zero.
pub fn invert_all(values: &[Felt]) -> (r: Result<Vec<Felt>, ProvingError>)
    ensures
        r is Ok <==> forall|i: int| 0 <= i < values.len() ==> (#[trigger] values[i])@ != 0,
        r matches Ok(out) ==> out.len() == values.len() && forall|i: int|
            0 <= i < values.len() ==> (#[trigger] out[i])@ == finv(values[i]@),
        r matches Err(e) ==> e == ProvingError::DivisionByZero,
{
    let inverses: Vec<Option<Felt>> = batch_inverse(values);
    let mut out: Vec<Felt> = Vec::new();
    let mut i: usize = 0;
    while i < values.len()
        invariant
            i <= values.len(),
            inverses.len() == values.len(),
            out.len() == i,
            forall|j: int|
                0 <= j < values.len() ==> (#[trigger] inverses[j] is None <==> values[j]@ == 0),
            forall|j: int|
                0 <= j < values.len() ==> (#[trigger] inverses[j] matches Some(x) ==> x@
                    == finv(values[j]@)),
            forall|j: int| 0 <= j < i ==> (#[trigger] values[j])@ != 0,
            forall|j: int| 0 <= j < i ==> (#[trigger] out[j])@ == finv(values[j]@),
        decreases values.len() - i,
    {
        match inverses[i] {
            Some(x) => {
                out.push(x);
            },
            None => {
                return Err(ProvingError::DivisionByZero);
            },
        }
        i = i + 1;
    }
    Ok(out)
}

} // verus!
