//! Primality of the field modulus, and what follows from it: the field has
//! no zero divisors and every non-zero residue has an inverse.

use vstd::prelude::*;
use vstd::arithmetic::div_mod::*;
use vstd::arithmetic::mul::*;
use vstd::arithmetic::power::*;
use vstd::arithmetic::power2::*;
use crate::modular::{
    lemma_cong_mul, lemma_cong_sub, lemma_injection_bound, lemma_pow_double, lemma_powers_distinct,
};

verus! {

/// The field modulus `2^64 - 2^32 + 1` as a mathematical integer.
pub open spec fn modulus() -> int {
    0xFFFF_FFFF_0000_0001
}

/// A generator of the multiplicative group of the field.
pub open spec fn generator() -> int {
    7
}

/// `generator()^(2^32 - 1)`, a root of unity of order exactly `2^32`.
pub open spec fn two_adic_root() -> int {
    1753635133440165772
}

/// `p` has no divisor strictly between 1 and itself.
pub open spec fn is_prime(p: int) -> bool {
    p > 1 && forall|d: int| 1 < d < p ==> #[trigger] (p % d) != 0
}

/// One squaring in a chain of repeated squarings modulo the field modulus.
proof fn lemma_square_step(b: int, t: nat, x: int, y: int)
    requires
        pow(b, pow2(t)) % modulus() == x,
        (x * x) % modulus() == y,
    ensures
        pow(b, pow2(t + 1)) % modulus() == y,
{
    let e: nat = pow2(t);
    lemma_pow2_unfold(t + 1);
    lemma_pow_double(b, e);
    lemma_mul_mod_noop_general(pow(b, e), pow(b, e), modulus());
}

/// The `2^31`-st power of the two-adic root is `-1`.
pub proof fn lemma_two_adic_root_half_order()
    ensures
        pow(two_adic_root(), pow2(31)) % modulus() == modulus() - 1,
{
    lemma2_to64();
    lemma_pow1(1753635133440165772);
    lemma_square_step(1753635133440165772, 0, 1753635133440165772, 4614640910117430873);
    lemma_square_step(1753635133440165772, 1, 4614640910117430873, 9123114210336311365);
    lemma_square_step(1753635133440165772, 2, 9123114210336311365, 16116352524544190054);
    lemma_square_step(1753635133440165772, 3, 16116352524544190054, 6414415596519834757);
    lemma_square_step(1753635133440165772, 4, 6414415596519834757, 1213594585890690845);
    lemma_square_step(1753635133440165772, 5, 1213594585890690845, 17096174751763063430);
    lemma_square_step(1753635133440165772, 6, 17096174751763063430, 5456943929260765144);
    lemma_square_step(1753635133440165772, 7, 5456943929260765144, 9713644485405565297);
    lemma_square_step(1753635133440165772, 8, 9713644485405565297, 16905767614792059275);
    lemma_square_step(1753635133440165772, 9, 16905767614792059275, 5416168637041100469);
    lemma_square_step(1753635133440165772, 10, 5416168637041100469, 17654865857378133588);
    lemma_square_step(1753635133440165772, 11, 17654865857378133588, 3511170319078647661);
    lemma_square_step(1753635133440165772, 12, 3511170319078647661, 18146160046829613826);
    lemma_square_step(1753635133440165772, 13, 18146160046829613826, 9306717745644682924);
    lemma_square_step(1753635133440165772, 14, 9306717745644682924, 12380578893860276750);
    lemma_square_step(1753635133440165772, 15, 12380578893860276750, 6115771955107415310);
    lemma_square_step(1753635133440165772, 16, 6115771955107415310, 17776499369601055404);
    lemma_square_step(1753635133440165772, 17, 17776499369601055404, 16207902636198568418);
    lemma_square_step(1753635133440165772, 18, 16207902636198568418, 1532612707718625687);
    lemma_square_step(1753635133440165772, 19, 1532612707718625687, 17492915097719143606);
    lemma_square_step(1753635133440165772, 20, 17492915097719143606, 455906449640507599);
    lemma_square_step(1753635133440165772, 21, 455906449640507599, 11353340290879379826);
    lemma_square_step(1753635133440165772, 22, 11353340290879379826, 1803076106186727246);
    lemma_square_step(1753635133440165772, 23, 1803076106186727246, 13797081185216407910);
    lemma_square_step(1753635133440165772, 24, 13797081185216407910, 17870292113338400769);
    lemma_square_step(1753635133440165772, 25, 17870292113338400769, 549755813888);
    lemma_square_step(1753635133440165772, 26, 549755813888, 70368744161280);
    lemma_square_step(1753635133440165772, 27, 70368744161280, 17293822564807737345);
    lemma_square_step(1753635133440165772, 28, 17293822564807737345, 18446744069397807105);
    lemma_square_step(1753635133440165772, 29, 18446744069397807105, 281474976710656);
    lemma_square_step(1753635133440165772, 30, 281474976710656, 18446744069414584320);
}

/// The `2^32`-nd power of the generator.
pub open spec fn generator_two_adic_power() -> int {
    12275445934081160404
}

/// The generator lies in no subgroup of two-power order: its `2^32`-nd
/// power is not 1.
pub proof fn lemma_generator_two_adic_power()
    ensures
        pow(generator(), pow2(32)) % modulus() == generator_two_adic_power(),
{
    lemma2_to64();
    lemma_pow1(7);
    lemma_square_step(7, 0, 7, 49);
    lemma_square_step(7, 1, 49, 2401);
    lemma_square_step(7, 2, 2401, 5764801);
    lemma_square_step(7, 3, 5764801, 33232930569601);
    lemma_square_step(7, 4, 33232930569601, 3732854072722565977);
    lemma_square_step(7, 5, 3732854072722565977, 11250886851934520606);
    lemma_square_step(7, 6, 11250886851934520606, 12159723539389677939);
    lemma_square_step(7, 7, 12159723539389677939, 1536671775522476176);
    lemma_square_step(7, 8, 1536671775522476176, 18371408314118145657);
    lemma_square_step(7, 9, 18371408314118145657, 2431605942540367610);
    lemma_square_step(7, 10, 2431605942540367610, 6358221588783459004);
    lemma_square_step(7, 11, 6358221588783459004, 10083885515493449909);
    lemma_square_step(7, 12, 10083885515493449909, 15094611910849701842);
    lemma_square_step(7, 13, 15094611910849701842, 18060412910171584788);
    lemma_square_step(7, 14, 18060412910171584788, 10529651373896570371);
    lemma_square_step(7, 15, 10529651373896570371, 11156834669773791359);
    lemma_square_step(7, 16, 11156834669773791359, 11840798296997857860);
    lemma_square_step(7, 17, 11840798296997857860, 1447330804268045396);
    lemma_square_step(7, 18, 1447330804268045396, 15265864706138236984);
    lemma_square_step(7, 19, 15265864706138236984, 12990112920302977158);
    lemma_square_step(7, 20, 12990112920302977158, 16491641580159807679);
    lemma_square_step(7, 21, 16491641580159807679, 17642952523097762870);
    lemma_square_step(7, 22, 17642952523097762870, 4419967652436713981);
    lemma_square_step(7, 23, 4419967652436713981, 7206579306846404579);
    lemma_square_step(7, 24, 7206579306846404579, 17869454728573311546);
    lemma_square_step(7, 25, 17869454728573311546, 4919185416341570378);
    lemma_square_step(7, 26, 4919185416341570378, 14445320067108370181);
    lemma_square_step(7, 27, 14445320067108370181, 17666966662873528270);
    lemma_square_step(7, 28, 17666966662873528270, 5473358340599679662);
    lemma_square_step(7, 29, 5473358340599679662, 4120449531758749877);
    lemma_square_step(7, 30, 4120449531758749877, 17380019310548783236);
    lemma_square_step(7, 31, 17380019310548783236, 12275445934081160404);
}

/// Every divisor of the modulus other than 1 is at least `2^32`.
proof fn lemma_divisor_is_large(r: int)
    requires
        1 < r,
        modulus() % r == 0,
    ensures
        r >= pow2(32),
{
    let p: int = modulus();
    let q: int = p / r;
    let w: int = two_adic_root();
    lemma_fundamental_div_mod(p, r);
    assert(p == r * q);
    assert(q > 0) by {
        if q <= 0 {
            lemma_mul_inequality(q, 0, r);
            lemma_mul_is_commutative(q, r);
        }
    }
    assert(r != 2);
    let x: int = pow(w, pow2(31));
    lemma_two_adic_root_half_order();
    lemma_mod_mod(x, r, q);
    assert(x % r == (p - 1) % r);
    assert((p - 1) % r == r - 1) by {
        assert(p - 1 == r * (q - 1) + (r - 1)) by (nonlinear_arith)
            requires
                p == r * q,
        ;
        lemma_mod_multiples_vanish(q - 1, r - 1, r);
        lemma_mul_is_commutative(r, q - 1);
        lemma_small_mod((r - 1) as nat, r as nat);
    }
    let f = |i: int| pow(w, i as nat) % r;
    assert forall|i: int| 0 <= i < pow2(32) implies 0 <= #[trigger] f(i) < r by {
        lemma_mod_bound(pow(w, i as nat), r);
    }
    assert forall|i: int, j: int| 0 <= i < j < pow2(32) implies #[trigger] f(i) != #[trigger] f(
        j,
    ) by {
        lemma_powers_distinct(w, 32, i as nat, j as nat, r);
    }
    lemma_injection_bound(f, pow2(32) as int, r);
}

/// The field modulus is prime.
pub proof fn lemma_modulus_is_prime()
    ensures
        is_prime(modulus()),
{
    let p: int = modulus();
    assert forall|d: int| 1 < d < p implies #[trigger] (p % d) != 0 by {
        if p % d == 0 {
            let e: int = p / d;
            lemma_fundamental_div_mod(p, d);
            assert(p == d * e);
            assert(e > 1) by {
                if e <= 1 {
                    lemma_mul_inequality(e, 1, d);
                    lemma_mul_is_commutative(e, d);
                }
            }
            assert(p % e == 0) by {
                lemma_mul_is_commutative(d, e);
                lemma_mod_multiples_basic(d, e);
            }
            lemma_divisor_is_large(d);
            lemma_divisor_is_large(e);
            lemma2_to64();
            assert(d * e >= 0x1_0000_0000 * 0x1_0000_0000) by (nonlinear_arith)
                requires
                    d >= 0x1_0000_0000,
                    e >= 0x1_0000_0000,
            ;
            assert(false);
        }
    }
}

/// A product is divisible by the modulus only if a factor is.
pub proof fn lemma_no_zero_divisors(a: int, b: int)
    requires
        (a * b) % modulus() == 0,
    ensures
        a % modulus() == 0 || b % modulus() == 0,
{
    let p: int = modulus();
    let a1: int = a % p;
    if a1 != 0 {
        lemma_mul_mod_noop_general(a, b, p);
        lemma_descent(a1, b);
    }
}

/// Descent behind `lemma_no_zero_divisors`: replace `a` by `p mod a`.
proof fn lemma_descent(a: int, b: int)
    requires
        0 < a < modulus(),
        (a * b) % modulus() == 0,
    ensures
        b % modulus() == 0,
    decreases a,
{
    let p: int = modulus();
    if a == 1 {
        assert(a * b == b) by (nonlinear_arith)
            requires
                a == 1,
        ;
    } else {
        let q: int = p / a;
        let r: int = p % a;
        lemma_modulus_is_prime();
        assert(p % a != 0);
        lemma_fundamental_div_mod(p, a);
        lemma_mod_bound(p, a);
        // r * b == p * b - q * (a * b), and both terms are multiples of p
        assert(r * b == p * b - q * (a * b)) by (nonlinear_arith)
            requires
                p == a * q + r,
        ;
        lemma_mul_mod_noop_general(q, a * b, p);
        assert((q * (a * b)) % p == 0) by {
            assert(q * 0 == 0);
        }
        lemma_mod_multiples_basic(b, p);
        lemma_mul_is_commutative(p, b);
        lemma_cong_sub(p * b, 0, q * (a * b), 0, p);
        lemma_descent(r, b);
    }
}

/// Every residue that is not zero has a multiplicative inverse.
pub proof fn lemma_inverse_exists(a: int)
    requires
        a % modulus() != 0,
    ensures
        exists|x: int| 0 <= x < modulus() && #[trigger] ((a * x) % modulus()) == 1,
{
    let p: int = modulus();
    let a1: int = a % p;
    lemma_mod_bound(a, p);
    let x: int = lemma_inverse_descent(a1);
    lemma_mul_mod_noop_general(a, x, p);
    assert((a * x) % p == 1);
}

/// Builds the inverse of `a` from the inverse of `p mod a`.
proof fn lemma_inverse_descent(a: int) -> (x: int)
    requires
        0 < a < modulus(),
    ensures
        0 <= x < modulus(),
        (a * x) % modulus() == 1,
    decreases a,
{
    let p: int = modulus();
    if a == 1 {
        assert(a * 1 == 1);
        1
    } else {
        let q: int = p / a;
        let r: int = p % a;
        lemma_modulus_is_prime();
        assert(p % a != 0);
        lemma_fundamental_div_mod(p, a);
        lemma_mod_bound(p, a);
        let y: int = lemma_inverse_descent(r);
        let x: int = (-(q * y)) % p;
        lemma_mod_bound(-(q * y), p);
        // a * (-(q * y)) == r * y - p * y
        assert(a * (-(q * y)) == r * y - p * y) by (nonlinear_arith)
            requires
                p == a * q + r,
        ;
        lemma_mul_mod_noop_general(a, -(q * y), p);
        lemma_mod_multiples_basic(y, p);
        lemma_mul_is_commutative(p, y);
        lemma_cong_sub(r * y, r * y, p * y, 0, p);
        x
    }
}

/// The multiplicative inverse of a non-zero residue; 0 for the zero residue.
pub open spec fn finv(a: int) -> int {
    if a % modulus() == 0 {
        0
    } else {
        choose|x: int| 0 <= x < modulus() && #[trigger] ((a * x) % modulus()) == 1
    }
}

/// `finv(a)` is the one residue whose product with `a` is 1.
pub proof fn lemma_finv(a: int)
    requires
        a % modulus() != 0,
    ensures
        0 < finv(a) < modulus(),
        (a * finv(a)) % modulus() == 1,
        forall|x: int|
            0 <= x < modulus() && #[trigger] ((a * x) % modulus()) == 1 ==> x == finv(a),
{
    let p: int = modulus();
    lemma_inverse_exists(a);
    let y: int = finv(a);
    assert(y != 0) by {
        if y == 0 {
            assert(a * 0 == 0);
        }
    }
    assert forall|x: int| 0 <= x < p && #[trigger] ((a * x) % p) == 1 implies x == y by {
        // x == x * (a * y) == (x * a) * y == y  (mod p)
        lemma_small_mod(1, p as nat);
        lemma_cong_mul(x, x, a * y, 1, p);
        lemma_cong_mul(a * x, 1, y, y, p);
        assert(x * (a * y) == (a * x) * y) by (nonlinear_arith);
        assert(x * 1 == x);
        assert(1 * y == y);
        lemma_small_mod(x as nat, p as nat);
        lemma_small_mod(y as nat, p as nat);
    }
}

} // verus!
