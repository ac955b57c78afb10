//! Powers of two among machine integers: exact logarithms and rounding up.

use vstd::prelude::*;
use vstd::arithmetic::power2::*;

verus! {

/// `n` is `2^k` for some `k`.
pub open spec fn is_pow2(n: int) -> bool {
    exists|k: nat| n == pow2(k)
}

/// The number of times `n` can be halved before it reaches 1; for a power
/// of two, its exponent.
pub open spec fn log2(n: int) -> nat
    decreases n,
{
    if n <= 1 {
        0
    } else {
        1 + log2(n / 2)
    }
}

/// The smallest power of two that is at least `n`.
pub open spec fn next_pow2(n: int) -> int
    decreases n,
{
    if n <= 1 {
        1
    } else {
        2 * next_pow2((n + 1) / 2)
    }
}

/// The logarithm of `2^k` is `k`.
pub proof fn lemma_log2_pow2(k: nat)
    ensures
        log2(pow2(k) as int) == k,
    decreases k,
{
    lemma_pow2_pos(k);
    if k > 0 {
        lemma_pow2_unfold(k);
        lemma_log2_pow2((k - 1) as nat);
    } else {
        lemma2_to64();
    }
}

/// A positive power of two is even, and half of it is the previous one.
pub proof fn lemma_pow2_half(k: nat)
    requires
        k >= 1,
    ensures
        pow2(k) % 2 == 0,
        pow2(k) / 2 == pow2((k - 1) as nat),
        pow2(k) >= 2,
{
    lemma_pow2_unfold(k);
    lemma_pow2_pos((k - 1) as nat);
}

/// An odd number greater than 1, times a power of two, is no power of two.
proof fn lemma_odd_multiple_not_pow2(m: int, k: nat, j: nat)
    requires
        m > 1,
        m % 2 == 1,
    ensures
        m * pow2(k) != pow2(j),
    decreases k,
{
    lemma_pow2_pos(k);
    lemma_pow2_pos(j);
    if k == 0 {
        lemma2_to64();
        assert(m * 1 == m);
        if j >= 1 {
            lemma_pow2_half(j);
        }
    } else {
        lemma_pow2_unfold(k);
        let h: int = pow2((k - 1) as nat) as int;
        assert(m * (2 * h) == 2 * (m * h)) by (nonlinear_arith);
        if j == 0 {
            lemma2_to64();
            lemma_pow2_pos((k - 1) as nat);
            assert(m * h >= 1) by (nonlinear_arith)
                requires
                    m > 1,
                    h >= 1,
            ;
        } else {
            lemma_pow2_unfold(j);
            lemma_odd_multiple_not_pow2(m, (k - 1) as nat, (j - 1) as nat);
        }
    }
}

/// The power of two found by doubling from 1 until `n` is reached is the
/// smallest one that is at least `n`.
pub proof fn lemma_next_pow2(n: int, k: nat)
    requires
        n <= pow2(k),
        k == 0 || pow2((k - 1) as nat) < n,
    ensures
        next_pow2(n) == pow2(k),
    decreases k,
{
    lemma2_to64();
    if n <= 1 {
        if k > 0 {
            lemma_pow2_pos((k - 1) as nat);
        }
    } else {
        lemma_pow2_half(k);
        if k >= 2 {
            lemma_pow2_half((k - 1) as nat);
        }
        lemma_next_pow2((n + 1) / 2, (k - 1) as nat);
    }
}

/// No power of two that is at least `n` is below `next_pow2(n)`.
pub proof fn lemma_next_pow2_least(n: int, k: nat)
    requires
        n <= pow2(k),
    ensures
        next_pow2(n) <= pow2(k),
    decreases k,
{
    lemma2_to64();
    lemma_pow2_pos(k);
    if n > 1 {
        lemma_pow2_half(k);
        lemma_next_pow2_least((n + 1) / 2, (k - 1) as nat);
    }
}

/// `next_pow2(n)` is a power of two, at least `n`, and less than `2n` for
/// `n >= 1`.
pub proof fn lemma_next_pow2_properties(n: int)
    ensures
        is_pow2(next_pow2(n)),
        next_pow2(n) >= n,
        next_pow2(n) >= 1,
        n >= 1 ==> next_pow2(n) < 2 * n,
    decreases n,
{
    if n <= 1 {
        lemma2_to64();
        assert(1 == pow2(0));
    } else {
        lemma_next_pow2_properties((n + 1) / 2);
        let k: nat = choose|k: nat| next_pow2((n + 1) / 2) == pow2(k);
        lemma_pow2_unfold(k + 1);
        assert(next_pow2(n) == pow2(k + 1));
    }
}

/// The exponent `k` with `n == 2^k`, or `None` when `n` is no power of two.
pub fn exact_log2(n: usize) -> (r: Option<u32>)
    ensures
        r is Some <==> is_pow2(n as int),
        r matches Some(k) ==> n == pow2(k as nat) && k == log2(n as int) && k < 64,
{
    if n == 0 {
        proof {
            assert forall|k: nat| 0 != pow2(k) by {
                lemma_pow2_pos(k);
            }
        }
        return None;
    }
    let mut m: usize = n;
    let mut k: u32 = 0;
    proof {
        lemma2_to64();
        assert(m * 1 == m);
    }
    while m % 2 == 0
        invariant
            m >= 1,
            n == m * pow2(k as nat),
            k < 64,
        decreases m,
    {
        proof {
            lemma_pow2_unfold((k + 1) as nat);
            let h: int = (m / 2) as int;
            let q: int = pow2(k as nat) as int;
            assert((2 * h) * q == h * (2 * q)) by (nonlinear_arith);
            lemma_pow2_pos((k + 1) as nat);
            if k + 1 >= 64 {
                lemma2_to64_rest();
                if k + 1 > 64 {
                    lemma_pow2_strictly_increases(64, (k + 1) as nat);
                }
                assert(h * pow2((k + 1) as nat) >= pow2((k + 1) as nat)) by (nonlinear_arith)
                    requires
                        h >= 1,
                ;
            }
        }
        m = m / 2;
        k = k + 1;
    }
    if m == 1 {
        proof {
            assert(1 * pow2(k as nat) == pow2(k as nat)) by (nonlinear_arith);
            lemma_log2_pow2(k as nat);
        }
        Some(k)
    } else {
        proof {
            assert forall|j: nat| n != pow2(j) by {
                lemma_odd_multiple_not_pow2(m as int, k as nat, j);
            }
        }
        None
    }
}

/// The smallest power of two that is at least `n`, or `None` when it does
/// not fit the machine word.
pub fn next_power_of_two(n: usize) -> (r: Option<usize>)
    ensures
        r is Some <==> next_pow2(n as int) <= usize::MAX,
        r matches Some(v) ==> v == next_pow2(n as int),
{
    let mut v: usize = 1;
    let ghost mut k: nat = 0;
    proof {
        lemma2_to64();
    }
    while v < n
        invariant
            v >= 1,
            v == pow2(k),
            k == 0 || pow2((k - 1) as nat) < n,
        decreases usize::MAX - v,
    {
        proof {
            lemma_pow2_unfold(k + 1);
        }
        if v > usize::MAX / 2 {
            proof {
                // the next power of two is 2 * v, which does not fit
                lemma_next_pow2_after(n as int, k);
            }
            return None;
        }
        v = v * 2;
        proof {
            k = k + 1;
        }
    }
    proof {
        lemma_next_pow2(n as int, k);
    }
    Some(v)
}

/// When `2^k < n`, the next power of two from `n` is at least `2^(k+1)`.
proof fn lemma_next_pow2_after(n: int, k: nat)
    requires
        pow2(k) < n,
    ensures
        next_pow2(n) >= 2 * pow2(k),
{
    lemma_next_pow2_properties(n);
    let j: nat = choose|j: nat| next_pow2(n) == pow2(j);
    if j <= k {
        if j < k {
            lemma_pow2_strictly_increases(j, k);
        }
    } else {
        lemma_pow2_unfold(k + 1);
        if j > k + 1 {
            lemma_pow2_strictly_increases(k + 1, j);
        }
    }
}

} // verus!
