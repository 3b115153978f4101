//! Number-theoretic utilities: primality, integer square roots, prime-power
//! factorization and modular exponentiation on `u32`.

use vstd::prelude::*;
use vstd::arithmetic::power::pow;
use crate::QrError;

verus! {

/// `n` is prime: at least 2 and without a divisor strictly between 1 and `n`.
pub open spec fn is_prime_spec(n: int) -> bool {
    n >= 2 && forall|d: int| 2 <= d < n ==> #[trigger] (n % d) != 0
}

/// `n` is a perfect square of some non-negative integer.
pub open spec fn is_square_spec(n: int) -> bool {
    exists|k: int| 0 <= k && #[trigger] (k * k) == n
}

/// Every composite has a divisor no larger than its square root: from a
/// divisor `d` of `n`, either `d` or `n / d` is such a small divisor.
proof fn lemma_small_divisor(n: int, d: int) -> (d2: int)
    requires
        2 <= d < n,
        n % d == 0,
    ensures
        2 <= d2,
        d2 * d2 <= n,
        n % d2 == 0,
{
    let q = n / d;
    vstd::arithmetic::div_mod::lemma_fundamental_div_mod(n, d);
    assert(n == d * q);
    assert(q >= 2) by (nonlinear_arith)
        requires
            n == d * q,
            2 <= d < n,
    ;
    assert(n % q == 0) by {
        assert(n == q * d);
        vstd::arithmetic::div_mod::lemma_mod_multiples_basic(d, q);
    }
    if d * d <= n {
        d
    } else {
        assert(q * q <= n) by (nonlinear_arith)
            requires
                n == d * q,
                d * d > n,
                d >= 2,
                q >= 2,
        ;
        q
    }
}

/// Tells whether `n` is prime, by trial division over 2 and the odd numbers
/// up to the square root of `n`.
pub fn is_prime(n: u32) -> (r: bool)
    ensures
        r == is_prime_spec(n as int),
{
    if n < 3 {
        return n == 2;
    }
    if n % 2 == 0 {
        assert(!is_prime_spec(n as int)) by {
            assert(n as int % 2 == 0);
        }
        return false;
    }
    let mut odd: u32 = 3;
    proof {
        assert((3 as u64) * (3 as u64) < 0x2_0000_0000) by (nonlinear_arith);
    }
    while (odd as u64) * (odd as u64) <= n as u64
        invariant
            3 <= odd <= 65537,
            (odd as u64) * (odd as u64) < 0x2_0000_0000,
            odd % 2 == 1,
            n >= 3,
            n % 2 == 1,
            forall|d: int| 3 <= d < odd && d % 2 == 1 ==> #[trigger] (n as int % d) != 0,
        decreases n as int + 2 - odd as int,
    {
        if n % odd == 0 {
            assert(odd < n) by (nonlinear_arith)
                requires
                    odd as int * odd as int <= n as int,
                    odd >= 3,
            ;
            assert(!is_prime_spec(n as int)) by {
                assert(n as int % (odd as int) == 0);
            }
            return false;
        }
        proof {
            assert(odd <= 65535 && odd as int <= n as int) by (nonlinear_arith)
                requires
                    odd as int * odd as int <= n as int,
                    (n as int) < 0x1_0000_0000,
                    3 <= odd,
                    odd <= 65537,
            ;
            assert((odd as int + 2) * (odd as int + 2) < 0x2_0000_0000) by (nonlinear_arith)
                requires
                    odd <= 65535,
            ;
        }
        odd += 2;
    }
    assert(is_prime_spec(n as int)) by {
        assert((odd as int) * (odd as int) > n as int);
        assert forall|d: int| 2 <= d < n implies #[trigger] (n as int % d) != 0 by {
            if n as int % d == 0 {
                let d2 = lemma_small_divisor(n as int, d);
                assert(d2 < odd) by (nonlinear_arith)
                    requires
                        d2 * d2 <= n as int,
                        odd as int * odd as int > n as int,
                        d2 >= 2,
                        odd >= 3,
                ;
                if d2 % 2 == 0 {
                    // an even divisor would make n even
                    let k = d2 / 2;
                    vstd::arithmetic::div_mod::lemma_fundamental_div_mod(d2, 2);
                    let q = n as int / d2;
                    vstd::arithmetic::div_mod::lemma_fundamental_div_mod(n as int, d2);
                    assert(n as int == (k * q) * 2) by (nonlinear_arith)
                        requires
                            d2 == 2 * k,
                            n as int == d2 * q,
                    ;
                    vstd::arithmetic::div_mod::lemma_mod_multiples_basic(k * q, 2);
                } else {
                    assert(3 <= d2 < odd && d2 % 2 == 1);
                }
            }
        }
    }
    true
}

/// The integer square root: the unique `r` with `r * r <= n < (r+1) * (r+1)`.
pub fn floor_sqrt(n: u32) -> (r: u32)
    ensures
        r as int * r as int <= n as int,
        (n as int) < ((r as int + 1) * (r as int + 1)),
{
    let mut i: u32 = 0;
    proof {
        assert((0 as u64) * (0 as u64) < 0x2_0000_0000) by (nonlinear_arith);
    }
    while (i as u64) * (i as u64) <= n as u64
        invariant
            i <= 65536,
            (i as u64) * (i as u64) < 0x2_0000_0000,
            i == 0 || ((i as int - 1) * (i as int - 1) <= n as int),
        decreases n as int + 1 - i as int,
    {
        if (i as u64) * (i as u64) == n as u64 {
            proof {
                assert((n as int) < ((i as int + 1) * (i as int + 1))) by (nonlinear_arith)
                    requires
                        i as int * i as int == n as int,
                        i >= 0,
                ;
            }
            return i;
        }
        proof {
            assert(i <= 65535 && i as int <= n as int) by (nonlinear_arith)
                requires
                    i as int * i as int <= n as int,
                    (n as int) < 0x1_0000_0000,
                    i <= 65536,
            ;
            assert((i as int + 1) * (i as int + 1) < 0x2_0000_0000) by (nonlinear_arith)
                requires
                    i <= 65535,
            ;
        }
        i += 1;
    }
    proof {
        assert(i >= 1) by (nonlinear_arith)
            requires
                (i as int) * (i as int) > n as int,
                n >= 0,
        ;
    }
    i - 1
}

/// Tells whether `n` is a perfect square, by squaring its integer square root.
pub fn is_square(n: u32) -> (r: bool)
    ensures
        r == is_square_spec(n as int),
{
    let s = floor_sqrt(n);
    let hit = (s as u64) * (s as u64) == n as u64;
    proof {
        if hit {
            assert(is_square_spec(n as int)) by {
                assert(s as int * s as int == n as int);
            }
        } else if is_square_spec(n as int) {
            let k = choose|k: int| 0 <= k && #[trigger] (k * k) == n as int;
            assert(k == s) by (nonlinear_arith)
                requires
                    0 <= k,
                    k * k == n as int,
                    s as int * s as int <= n as int,
                    (n as int) < ((s as int + 1) * (s as int + 1)),
            ;
        }
    }
    hit
}

/// How many times `p` divides `n`: the largest `e` with `p^e` dividing `n`.
pub open spec fn mult_of(n: int, p: int) -> nat
    decreases n
        when n >= 0
        via mult_of_decreases
{
    if p < 2 || n < 1 || n % p != 0 {
        0
    } else {
        (1 + mult_of(n / p, p)) as nat
    }
}

/// The prime-power factorization of `n` found by trial division starting at
/// candidate divisor `p`: pairs of (prime, exponent) with strictly ascending
/// primes, ending with the leftover cofactor if it exceeds 1.
pub open spec fn pf_from(n: int, p: int) -> Seq<(u32, u32)>
    decreases n, (if 2 <= p && p <= 65538 { 65538 - p } else { 0 })
        when n >= 0
        via pf_from_decreases
{
    if n <= 1 || p < 2 || p > 65537 {
        Seq::empty()
    } else if p * p > n {
        seq![(n as u32, 1u32)]
    } else if n % p == 0 {
        seq![(p as u32, mult_of(n, p) as u32)] + pf_from(n / pow(p, mult_of(n, p)), p + 1)
    } else {
        pf_from(n, p + 1)
    }
}


#[via_fn]
proof fn mult_of_decreases(n: int, p: int) {
    if !(p < 2 || n < 1 || n % p != 0) {
        vstd::arithmetic::div_mod::lemma_div_is_strictly_smaller(n, p);
        vstd::arithmetic::div_mod::lemma_div_pos_is_pos(n, p);
    }
}

#[via_fn]
proof fn pf_from_decreases(n: int, p: int) {
    if !(n <= 1 || p < 2 || p > 65537) && !(p * p > n) && n % p == 0 {
        let e = mult_of(n, p);
        assert(e >= 1);
        vstd::arithmetic::power::lemma_pow_positive(p, (e - 1) as nat);
        assert(pow(p, e) == p * pow(p, (e - 1) as nat)) by {
            vstd::arithmetic::power::lemma_pow_adds(p, 1, (e - 1) as nat);
            vstd::arithmetic::power::lemma_pow1(p);
        }
        assert(pow(p, e) >= 2) by (nonlinear_arith)
            requires
                pow(p, e) == p * pow(p, (e - 1) as nat),
                pow(p, (e - 1) as nat) >= 1,
                p >= 2,
        ;
        vstd::arithmetic::div_mod::lemma_div_is_strictly_smaller(n, pow(p, e));
        vstd::arithmetic::div_mod::lemma_div_pos_is_pos(n, pow(p, e));
    }
}
/// The prime-power factorization of `n`, ascending in the prime.
pub open spec fn pf_seq(n: int) -> Seq<(u32, u32)> {
    pf_from(n, 2)
}

/// The product of `prime^exponent` over a factorization.
pub open spec fn pf_prod(s: Seq<(u32, u32)>) -> int
    decreases s.len(),
{
    if s.len() == 0 {
        1
    } else {
        pow(s[0].0 as int, s[0].1 as nat) * pf_prod(s.subrange(1, s.len() as int))
    }
}

/// Raising a larger base to the same exponent gives a larger power.
proof fn lemma_pow_base_mono(a: int, b: int, e: nat)
    requires
        1 <= a <= b,
    ensures
        1 <= pow(a, e),
        pow(a, e) <= pow(b, e),
    decreases e,
{
    reveal(pow);
    if e > 0 {
        lemma_pow_base_mono(a, b, (e - 1) as nat);
        assert(pow(a, e) == a * pow(a, (e - 1) as nat));
        assert(pow(b, e) == b * pow(b, (e - 1) as nat));
        assert(1 <= a * pow(a, (e - 1) as nat) && a * pow(a, (e - 1) as nat) <= b * pow(b, (e - 1) as nat))
            by (nonlinear_arith)
            requires
                1 <= a <= b,
                1 <= pow(a, (e - 1) as nat),
                pow(a, (e - 1) as nat) <= pow(b, (e - 1) as nat),
        ;
    }
}

/// A power of a base of at least 2 that fits under 2^32 has exponent at most 31.
pub proof fn lemma_exp_bound(p: int, e: nat, n: int)
    requires
        2 <= p,
        pow(p, e) <= n,
        n < 0x1_0000_0000,
    ensures
        e <= 31,
{
    if e > 31 {
        lemma_pow_base_mono(2, p, e);
        vstd::arithmetic::power::lemma_pow_increases(2, 32, e);
        vstd::arithmetic::power2::lemma_pow2(32);
        vstd::arithmetic::power2::lemma2_to64();
        assert(pow(2, 32) == 0x1_0000_0000);
    }
}

/// From `m` not divisible by `p`, the multiplicity of `p` in `m * p^e` is
/// exactly `e`, and dividing back out recovers `m`.
proof fn lemma_mult_of_unique(m: int, p: int, e: nat)
    requires
        1 <= m,
        2 <= p,
        m % p != 0,
    ensures
        mult_of(m * pow(p, e), p) == e,
        (m * pow(p, e)) / pow(p, e) == m,
        m * pow(p, e) >= m,
    decreases e,
{
    reveal(pow);
    vstd::arithmetic::power::lemma_pow_positive(p, e);
    let n = m * pow(p, e);
    assert(n >= m) by (nonlinear_arith)
        requires
            m >= 1,
            pow(p, e) >= 1,
            n == m * pow(p, e),
    ;
    if e == 0 {
        assert(pow(p, 0) == 1);
        assert(n == m);
        vstd::arithmetic::div_mod::lemma_div_basics(m);
    } else {
        assert(pow(p, e) == p * pow(p, (e - 1) as nat)) by {
            vstd::arithmetic::power::lemma_pow_adds(p, 1, (e - 1) as nat);
            vstd::arithmetic::power::lemma_pow1(p);
        }
        let t = m * pow(p, (e - 1) as nat);
        assert(n == t * p) by (nonlinear_arith)
            requires
                n == m * pow(p, e),
                pow(p, e) == p * pow(p, (e - 1) as nat),
                t == m * pow(p, (e - 1) as nat),
        ;
        vstd::arithmetic::div_mod::lemma_mod_multiples_basic(t, p);
        assert(n % p == 0);
        vstd::arithmetic::power::lemma_pow_positive(p, (e - 1) as nat);
        assert(n >= 1) by (nonlinear_arith)
            requires
                m >= 1,
                pow(p, e) >= 1,
                n == m * pow(p, e),
        ;
        assert(n / p == t) by {
            vstd::arithmetic::div_mod::lemma_div_multiples_vanish(t, p);
            assert(n == p * t) by (nonlinear_arith)
                requires
                    n == t * p,
            ;
        }
        lemma_mult_of_unique(m, p, (e - 1) as nat);
        assert(mult_of(n, p) == 1 + mult_of(t, p));
        assert(n / pow(p, e) == m) by {
            vstd::arithmetic::div_mod::lemma_div_multiples_vanish(m, pow(p, e));
            assert(n == pow(p, e) * m) by (nonlinear_arith)
                requires
                    n == m * pow(p, e),
            ;
        }
    }
}

/// Trial division past the square root of a prime finds only the prime itself.
proof fn lemma_pf_from_of_prime(n: int, p: int)
    requires
        is_prime_spec(n),
        n < 0x1_0000_0000,
        2 <= p <= 65537,
    ensures
        pf_from(n, p) == seq![(n as u32, 1u32)],
    decreases 65538 - p,
{
    if p * p > n {
        assert(pf_from(n, p) == seq![(n as u32, 1u32)]);
    } else {
        assert(p < n && p <= 65535) by (nonlinear_arith)
            requires
                p * p <= n,
                2 <= p,
                n < 0x1_0000_0000,
        ;
        assert(n % p != 0);
        lemma_pf_from_of_prime(n, p + 1);
    }
}

/// Properties of the trial-division factorization: the product of the
/// prime powers recovers the input, every base is prime, every exponent is
/// at least 1, and the bases strictly ascend.
pub proof fn lemma_pf_from_props(n: int, p: int)
    requires
        1 <= n < 0x1_0000_0000,
        2 <= p <= 65536,
        forall|d: int| 2 <= d < p ==> #[trigger] (n % d) != 0,
    ensures
        pf_prod(pf_from(n, p)) == n,
        forall|j: int| 0 <= j < pf_from(n, p).len() ==> is_prime_spec((#[trigger] pf_from(n, p)[j]).0 as int),
        forall|j: int| 0 <= j < pf_from(n, p).len() ==> 1 <= (#[trigger] pf_from(n, p)[j]).1 <= 31,
        forall|j: int| 0 <= j < pf_from(n, p).len() ==> p <= (#[trigger] pf_from(n, p)[j]).0 as int <= n,
        forall|j1: int, j2: int| 0 <= j1 < j2 < pf_from(n, p).len()
            ==> (#[trigger] pf_from(n, p)[j1]).0 < (#[trigger] pf_from(n, p)[j2]).0,
        n == 1 <==> pf_from(n, p).len() == 0,
    decreases n, 65538 - p,
{
    let s = pf_from(n, p);
    if n == 1 {
        assert(s == Seq::<(u32, u32)>::empty());
        assert(pf_prod(s) == 1);
    } else if p * p > n {
        assert(s == seq![(n as u32, 1u32)]);
        assert(is_prime_spec(n)) by {
            assert forall|d: int| 2 <= d < n implies #[trigger] (n % d) != 0 by {
                if n % d == 0 {
                    let d2 = lemma_small_divisor(n, d);
                    assert(d2 < p) by (nonlinear_arith)
                        requires
                            d2 * d2 <= n,
                            p * p > n,
                            d2 >= 2,
                            p >= 2,
                    ;
                }
            }
        }
        assert(p <= n) by {
            if p > n {
                vstd::arithmetic::div_mod::lemma_mod_self_0(n);
                assert(2 <= n < p && n % n == 0);
            }
        }
        assert(pf_prod(s) == pow(n, 1) * pf_prod(s.subrange(1, 1)));
        assert(s.subrange(1, 1) =~= Seq::<(u32, u32)>::empty());
        vstd::arithmetic::power::lemma_pow1(n);
        assert(pf_prod(Seq::<(u32, u32)>::empty()) == 1);
        assert(pf_prod(s.subrange(1, 1)) == 1);
        assert(pow(n, 1) == n);
        assert(pf_prod(s) == pow(n, 1) * 1);
        assert(pf_prod(s) == n);
    } else if n % p == 0 {
        // peel off the full power of p, then recurse on the cofactor
        lemma_mult_of_facts(n, p);
        let e = mult_of(n, p);
        let q = n / pow(p, e);
        assert(e >= 1);
        lemma_exp_bound(p, e, n);
        assert(is_prime_spec(p)) by {
            assert forall|d: int| 2 <= d < p implies #[trigger] (p % d) != 0 by {
                if p % d == 0 {
                    let k = p / d;
                    vstd::arithmetic::div_mod::lemma_fundamental_div_mod(p, d);
                    let w = n / p;
                    vstd::arithmetic::div_mod::lemma_fundamental_div_mod(n, p);
                    assert(n == ((d * k) * w)) by (nonlinear_arith)
                        requires
                            n == p * w + (n % p),
                            n % p == 0,
                            p == d * k + (p % d),
                            p % d == 0,
                    ;
                    assert(n % d == 0) by {
                        assert(n == (k * w) * d) by (nonlinear_arith)
                            requires
                                n == ((d * k) * w),
                        ;
                        vstd::arithmetic::div_mod::lemma_mod_multiples_basic(k * w, d);
                    }
                }
            }
        }
        assert(q >= 1 && q <= n) by (nonlinear_arith)
            requires
                n == pow(p, e) * q,
                pow(p, e) >= 2,
                n >= 1,
                q >= 1,
        ;
        assert forall|d: int| 2 <= d < p + 1 implies #[trigger] (q % d) != 0 by {
            if q % d == 0 {
                if d == p {
                    assert(q % p != 0);
                } else {
                    let k = q / d;
                    vstd::arithmetic::div_mod::lemma_fundamental_div_mod(q, d);
                    assert(n % d == 0) by {
                        assert(n == (pow(p, e) * k) * d) by (nonlinear_arith)
                            requires
                                n == pow(p, e) * q,
                                q == d * k,
                        ;
                        vstd::arithmetic::div_mod::lemma_mod_multiples_basic(pow(p, e) * k, d);
                    }
                }
            }
        }
        assert(p <= 65535) by (nonlinear_arith)
            requires
                p * p <= n,
                2 <= p,
                n < 0x1_0000_0000,
        ;
        assert(q < n) by (nonlinear_arith)
            requires
                n == pow(p, e) * q,
                pow(p, e) >= 2,
                q >= 1,
        ;
        assert(p <= n) by (nonlinear_arith)
            requires
                p * p <= n,
                2 <= p,
        ;
        lemma_pf_from_props(q, p + 1);
        let tail = pf_from(q, p + 1);
        assert(s == seq![(p as u32, e as u32)] + tail);
        assert(s.subrange(1, s.len() as int) =~= tail);
        assert(s[0] == (p as u32, e as u32));
        assert(pf_prod(s) == pow(p, e) * pf_prod(tail));
        assert(pf_prod(s) == n) by (nonlinear_arith)
            requires
                pf_prod(s) == pow(p, e) * pf_prod(tail),
                pf_prod(tail) == q,
                n == pow(p, e) * q,
        ;
        assert forall|j: int| 0 <= j < s.len() implies is_prime_spec((#[trigger] s[j]).0 as int) by {
            if j >= 1 {
                assert(s[j] == tail[j - 1]);
            }
        }
        assert forall|j: int| 0 <= j < s.len() implies 1 <= (#[trigger] s[j]).1 <= 31 by {
            if j >= 1 {
                assert(s[j] == tail[j - 1]);
            }
        }
        assert forall|j: int| 0 <= j < s.len() implies p <= (#[trigger] s[j]).0 as int <= n by {
            if j >= 1 {
                assert(s[j] == tail[j - 1]);
            }
        }
        assert forall|j1: int, j2: int| 0 <= j1 < j2 < s.len()
            implies (#[trigger] s[j1]).0 < (#[trigger] s[j2]).0 by {
            assert(s[j2] == tail[j2 - 1]);
            if j1 >= 1 {
                assert(s[j1] == tail[j1 - 1]);
            }
        }
    } else {
        assert(p <= 65535) by (nonlinear_arith)
            requires
                p * p <= n,
                2 <= p,
                n < 0x1_0000_0000,
        ;
        lemma_pf_from_props(n, p + 1);
        assert(s == pf_from(n, p + 1));
    }
}

/// The multiplicity of `p` in `n` exactly divides out: `n` is `p^e` times a
/// cofactor that `p` does not divide.
proof fn lemma_mult_of_facts(n: int, p: int)
    requires
        1 <= n,
        2 <= p,
    ensures
        n % p == 0 ==> mult_of(n, p) >= 1,
        pow(p, mult_of(n, p)) >= 2 || mult_of(n, p) == 0,
        n == pow(p, mult_of(n, p)) * (n / pow(p, mult_of(n, p))),
        (n / pow(p, mult_of(n, p))) % p != 0,
        n / pow(p, mult_of(n, p)) >= 1,
        pow(p, mult_of(n, p)) <= n,
    decreases n,
{
    reveal(pow);
    let e = mult_of(n, p);
    if n % p != 0 {
        assert(e == 0);
        assert(pow(p, 0) == 1);
        vstd::arithmetic::div_mod::lemma_div_basics(n);
    } else {
        assert(n >= p) by {
            if n < p {
                vstd::arithmetic::div_mod::lemma_small_mod(n as nat, p as nat);
            }
        }
        let m = n / p;
        vstd::arithmetic::div_mod::lemma_fundamental_div_mod(n, p);
        assert(n == p * m);
        assert(m >= 1 && m < n) by (nonlinear_arith)
            requires
                n == p * m,
                n >= p >= 2,
        ;
        lemma_mult_of_facts(m, p);
        let e1 = mult_of(m, p);
        assert(e == 1 + e1);
        assert(pow(p, e) == p * pow(p, e1)) by {
            vstd::arithmetic::power::lemma_pow_adds(p, 1, e1);
            vstd::arithmetic::power::lemma_pow1(p);
        }
        vstd::arithmetic::power::lemma_pow_positive(p, e1);
        let q = m / pow(p, e1);
        assert(n == pow(p, e) * q) by (nonlinear_arith)
            requires
                n == p * m,
                m == pow(p, e1) * q,
                pow(p, e) == p * pow(p, e1),
        ;
        assert(pow(p, e) >= 2) by (nonlinear_arith)
            requires
                pow(p, e) == p * pow(p, e1),
                pow(p, e1) >= 1,
                p >= 2,
        ;
        assert(n / pow(p, e) == q) by {
            vstd::arithmetic::div_mod::lemma_div_multiples_vanish(q, pow(p, e));
            assert(n == pow(p, e) * q);
        }
        assert(pow(p, e) <= n) by (nonlinear_arith)
            requires
                n == pow(p, e) * q,
                q >= 1,
                pow(p, e) >= 2,
        ;
    }
}

/// The factorization returned for any positive `n` multiplies back to `n`,
/// has prime bases in strictly ascending order, and exponents of at least 1.
pub proof fn lemma_pf_seq_props(n: int)
    requires
        1 <= n < 0x1_0000_0000,
    ensures
        pf_prod(pf_seq(n)) == n,
        forall|j: int| 0 <= j < pf_seq(n).len() ==> is_prime_spec((#[trigger] pf_seq(n)[j]).0 as int),
        forall|j: int| 0 <= j < pf_seq(n).len() ==> 1 <= (#[trigger] pf_seq(n)[j]).1 <= 31,
        forall|j: int| 0 <= j < pf_seq(n).len() ==> 2 <= (#[trigger] pf_seq(n)[j]).0 as int <= n,
        forall|j1: int, j2: int| 0 <= j1 < j2 < pf_seq(n).len()
            ==> (#[trigger] pf_seq(n)[j1]).0 < (#[trigger] pf_seq(n)[j2]).0,
        n == 1 <==> pf_seq(n).len() == 0,
    {
    lemma_pf_from_props(n, 2);
}

/// Computes `b` to the power `e` when the result fits in `u32`.
pub fn num_pow(b: u32, e: u32) -> (r: u32)
    requires
        pow(b as int, e as nat) <= u32::MAX,
    ensures
        r as int == pow(b as int, e as nat),
{
    proof {
        reveal(pow);
    }
    let mut r: u32 = 1;
    let mut k: u32 = 0;
    while k < e
        invariant
            k <= e,
            r as int == pow(b as int, k as nat),
            pow(b as int, e as nat) <= u32::MAX,
        decreases e as int - k as int,
    {
        proof {
            reveal(pow);
            assert(pow(b as int, (k + 1) as nat) == b * pow(b as int, k as nat));
            if b >= 1 {
                vstd::arithmetic::power::lemma_pow_increases(b as nat, (k + 1) as nat, e as nat);
                assert((r as u64) * (b as u64) == pow(b as int, (k + 1) as nat)) by (nonlinear_arith)
                    requires
                        r as int == pow(b as int, k as nat),
                        pow(b as int, (k + 1) as nat) == b * pow(b as int, k as nat),
                ;
            } else {
                assert((r as u64) * (b as u64) == 0) by (nonlinear_arith)
                    requires
                        b == 0,
                ;
                assert(pow(b as int, (k + 1) as nat) == 0) by (nonlinear_arith)
                    requires
                        pow(b as int, (k + 1) as nat) == b * pow(b as int, k as nat),
                        b == 0,
                ;
            }
        }
        let wide = (r as u64) * (b as u64);
        r = wide as u32;
        k += 1;
    }
    r
}

/// Computes `base^exp mod modulo` by repeated multiply-and-reduce.
/// Fails with `InvalidModulus` when the modulus is less than 1; a modulus of
/// 1 gives 0, an exponent of 0 gives 1, and a base of 0 gives 0.
pub fn mod_pow(base: u32, exp: u32, modulo: u32) -> (r: Result<u32, QrError>)
    ensures
        modulo == 0 ==> (r matches Err(e) && e == QrError::InvalidModulus),
        modulo >= 1 ==> (r matches Ok(v) && v as int == pow(base as int, exp as nat) % (modulo as int)),
{
    if modulo < 1 {
        return Err(QrError::InvalidModulus);
    }
    if modulo == 1 {
        proof {
            vstd::arithmetic::div_mod::lemma_mod_division_less_than_divisor(
                pow(base as int, exp as nat), 1);
        }
        return Ok(0);
    }
    if exp == 0 {
        proof {
            reveal(pow);
            vstd::arithmetic::div_mod::lemma_small_mod(1, modulo as nat);
        }
        return Ok(1);
    }
    if base == 0 {
        proof {
            vstd::arithmetic::power::lemma0_pow(exp as nat);
            vstd::arithmetic::div_mod::lemma_small_mod(0, modulo as nat);
        }
        return Ok(0);
    }
    let m64 = modulo as u64;
    let b = (base % modulo) as u64;
    let mut res: u64 = b;
    let mut k: u32 = 1;
    proof {
        reveal(pow);
        vstd::arithmetic::power::lemma_pow1(base as int);
        vstd::arithmetic::div_mod::lemma_mod_division_less_than_divisor(base as int, modulo as int);
    }
    while k < exp
        invariant
            1 <= k <= exp,
            modulo >= 2,
            m64 == modulo as u64,
            b == (base as int) % (modulo as int),
            res as int == pow(base as int, k as nat) % (modulo as int),
            res < m64,
        decreases exp as int - k as int,
    {
        proof {
            reveal(pow);
            assert(pow(base as int, (k + 1) as nat) == base * pow(base as int, k as nat));
            vstd::arithmetic::div_mod::lemma_mul_mod_noop_general(
                pow(base as int, k as nat), base as int, modulo as int);
            assert((res as u64) * b < 0x1_0000_0000_0000_0000) by (nonlinear_arith)
                requires
                    res < 0x1_0000_0000u64,
                    b < 0x1_0000_0000u64,
            ;
            assert((res * b) as int % (m64 as int)
                == (pow(base as int, k as nat) * (base as int)) % (modulo as int)) by {
                assert(res as int == pow(base as int, k as nat) % (modulo as int));
                assert(b == (base as int) % (modulo as int));
            }
            assert(pow(base as int, k as nat) * (base as int)
                == (base as int) * pow(base as int, k as nat)) by (nonlinear_arith);
            vstd::arithmetic::div_mod::lemma_mod_division_less_than_divisor(
                (res * b) as int, modulo as int);
        }
        res = (res * b) % m64;
        k += 1;
    }
    Ok(res as u32)
}

/// The prime factorization of `n`, as ascending (prime, exponent) pairs.
/// Fails with `InvalidInput` when `n` is 0; `n == 1` yields the empty
/// factorization.
pub fn prime_factorize(n: u32) -> (r: Result<Vec<(u32, u32)>, QrError>)
    ensures
        n == 0 ==> (r matches Err(e) && e == QrError::InvalidInput),
        n >= 1 ==> (r matches Ok(v) && v@ == pf_seq(n as int)),
{
    if is_prime(n) {
        let mut v: Vec<(u32, u32)> = Vec::new();
        v.push((n, 1));
        proof {
            lemma_pf_from_of_prime(n as int, 2);
            assert(v@ =~= pf_seq(n as int));
        }
        return Ok(v);
    }
    if n == 0 {
        return Err(QrError::InvalidInput);
    }
    if n == 1 {
        let v: Vec<(u32, u32)> = Vec::new();
        proof {
            assert(v@ =~= pf_seq(1));
        }
        return Ok(v);
    }
    let mut res: Vec<(u32, u32)> = Vec::new();
    let mut m: u32 = n;
    let mut p: u32 = 2;
    proof {
        assert((2 as u64) * (2 as u64) < 0x2_0000_0000) by (nonlinear_arith);
        assert(res@ + pf_from(n as int, 2) =~= pf_seq(n as int));
    }
    while (p as u64) * (p as u64) <= m as u64
        invariant
            2 <= p <= 65537,
            (p as u64) * (p as u64) < 0x2_0000_0000,
            1 <= m <= n,
            n >= 2,
            pf_seq(n as int) == res@ + pf_from(m as int, p as int),
        decreases m as int, 65538 - p as int,
    {
        proof {
            assert(p <= 65535 && p as int <= m as int) by (nonlinear_arith)
                requires
                    p as int * p as int <= m as int,
                    (m as int) < 0x1_0000_0000,
                    2 <= p,
                    p <= 65537,
            ;
        }
        if m % p == 0 {
            let ghost m0: int = m as int;
            let mut e: u32 = 0;
            proof {
                reveal(pow);
            }
            while m % p == 0
                invariant
                    2 <= p,
                    1 <= m,
                    m0 == m as int * pow(p as int, e as nat),
                    pow(p as int, e as nat) <= m0,
                    1 <= m0 < 0x1_0000_0000,
                    e <= 31,
                decreases m,
            {
                proof {
                    reveal(pow);
                    vstd::arithmetic::div_mod::lemma_fundamental_div_mod(m as int, p as int);
                    assert(m as int == (p as int) * (m as int / (p as int)));
                    assert(m as int / (p as int) >= 1 && m as int / (p as int) < m as int) by (nonlinear_arith)
                        requires
                            m as int == (p as int) * (m as int / (p as int)),
                            m >= 1,
                            p >= 2,
                    ;
                    vstd::arithmetic::power::lemma_pow_positive(p as int, e as nat);
                    assert(pow(p as int, (e + 1) as nat) == (p as int) * pow(p as int, e as nat));
                    assert(m0 == (m as int / (p as int)) * pow(p as int, (e + 1) as nat)
                        && pow(p as int, (e + 1) as nat) <= m0) by (nonlinear_arith)
                        requires
                            m0 == m as int * pow(p as int, e as nat),
                            m as int == (p as int) * (m as int / (p as int)),
                            pow(p as int, (e + 1) as nat) == (p as int) * pow(p as int, e as nat),
                            m as int / (p as int) >= 1,
                            pow(p as int, e as nat) >= 0,
                            m0 >= 1,
                    ;
                    lemma_exp_bound(p as int, (e + 1) as nat, m0);
                }
                m = m / p;
                e = e + 1;
            }
            proof {
                lemma_mult_of_unique(m as int, p as int, e as nat);
                assert(mult_of(m0, p as int) == e);
                assert(m0 / pow(p as int, e as nat) == m as int);
                assert(m0 > 1 && p as int * p as int <= m0 && m0 % (p as int) == 0);
                assert(pf_from(m0, p as int)
                    == seq![(p, e)] + pf_from(m as int, p as int + 1));
            }
            res.push((p, e));
            proof {
                assert(pf_seq(n as int) =~= res@ + pf_from(m as int, p as int + 1));
            }
        } else {
            proof {
                assert(pf_from(m as int, p as int) == pf_from(m as int, p as int + 1));
            }
        }
        proof {
            assert((p as int + 1) * (p as int + 1) < 0x2_0000_0000) by (nonlinear_arith)
                requires
                    p <= 65535,
            ;
        }
        p += 1;
    }
    if m != 1 {
        proof {
            assert(pf_from(m as int, p as int) == seq![(m, 1u32)]);
        }
        res.push((m, 1));
        proof {
            assert(res@ =~= pf_seq(n as int));
        }
    } else {
        proof {
            assert(res@ =~= pf_seq(n as int));
        }
    }
    Ok(res)
}

} // verus!
