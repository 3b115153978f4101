//! Closed-form computation of the size of the quadratic-residue set modulo
//! a prime power: an iterative derivation and a geometric-series variant
//! that must agree with it.

use vstd::prelude::*;
use vstd::arithmetic::power::pow;
use crate::QrError;
use crate::nt::is_prime_spec;
use crate::nt::is_square_spec;
use crate::nt::pf_seq;
use crate::nt::num_pow;
use crate::nt::floor_sqrt;
use crate::nt::is_square;
use crate::nt::prime_factorize;
use crate::qr::qr_p_seq;
use crate::qr::qr_p;
use crate::qr::qr2_seq;
use crate::qr::nonsquares;
use crate::qr::lemma_single_factor;
use crate::qr::lemma_qr_p_upto_shape;
use crate::qr::lemma_qr2_shape;
use crate::qr::lemma_lift_except_len_present;

verus! {

/// The integer square root as a mathematical function.
pub open spec fn isqrt(n: int) -> int
    decreases n,
{
    if n < 1 {
        0
    } else {
        let r = isqrt(n - 1);
        if (r + 1) * (r + 1) <= n {
            r + 1
        } else {
            r
        }
    }
}

/// The integer square root is the unique value whose square brackets `n`.
pub proof fn lemma_isqrt_bounds(n: int)
    requires
        n >= 0,
    ensures
        0 <= isqrt(n) <= n,
        isqrt(n) * isqrt(n) <= n,
        n < ((isqrt(n) + 1) * (isqrt(n) + 1)),
    decreases n,
{
    if n >= 1 {
        lemma_isqrt_bounds(n - 1);
        let r = isqrt(n - 1);
        if (r + 1) * (r + 1) <= n {
            assert((n as int) < ((r + 2) * (r + 2))) by (nonlinear_arith)
                requires
                    n - 1 < ((r + 1) * (r + 1)),
                    (r + 1) * (r + 1) <= n,
                    r >= 0,
            ;
            assert(r + 1 <= n) by (nonlinear_arith)
                requires
                    (r + 1) * (r + 1) <= n,
                    r >= 0,
            ;
        }
    }
}

/// The coefficient added at each odd exponent step: the count of residues
/// modulo `p` that are not perfect squares, plus the integer square root of
/// `p - 1`.
pub open spec fn ord_coef(p: int) -> int {
    nonsquares(qr_p_seq(p)).len() + isqrt(p - 1)
}

/// The iterative order recurrence: start at `(p-1)/2`, then for each further
/// exponent multiply by `p` and add the coefficient at odd exponents.
pub open spec fn ord_v1(p: int, exp: nat, coef: int) -> int
    decreases exp,
{
    if exp <= 1 {
        (p - 1) / 2
    } else {
        ord_v1(p, (exp - 1) as nat, coef) * p + (if exp % 2 == 1 {
            coef
        } else {
            0int
        })
    }
}

/// The filtered list is never longer than the original.
pub proof fn lemma_nonsquares_len(s: Seq<u32>)
    ensures
        nonsquares(s).len() <= s.len(),
    decreases s.len(),
{
    if s.len() > 0 {
        lemma_nonsquares_len(s.drop_last());
    }
}

/// The geometric sum of `p^2`: `1 + p^2 + p^4 + ... + p^(2(m-1))`.
pub open spec fn geo(p: int, m: nat) -> int
    decreases m,
{
    if m == 0 {
        0
    } else {
        geo(p, (m - 1) as nat) + pow(p, (2 * (m - 1)) as nat)
    }
}

/// The geometric sum can also be peeled from the front.
proof fn lemma_geo_front(p: int, m: nat)
    requires
        m >= 1,
    ensures
        geo(p, m) == 1 + p * p * geo(p, (m - 1) as nat),
    decreases m,
{
    reveal(pow);
    if m == 1 {
        assert(geo(p, 1) == geo(p, 0) + pow(p, 0));
    } else {
        lemma_geo_front(p, (m - 1) as nat);
        let m2 = (m - 2) as nat;
        assert(geo(p, (m - 1) as nat) == 1 + p * p * geo(p, m2));
        assert(pow(p, (2 * (m - 1)) as nat) == p * p * pow(p, (2 * (m - 2)) as nat)) by {
            vstd::arithmetic::power::lemma_pow_adds(p, 2, (2 * (m - 2)) as nat);
            vstd::arithmetic::power::lemma_pow1(p);
            assert(pow(p, 2) == p * pow(p, 1));
        }
        assert(geo(p, m) == geo(p, (m - 1) as nat) + pow(p, (2 * (m - 1)) as nat));
        assert(1 + p * p * geo(p, (m - 1) as nat)
            == 1 + p * p * (geo(p, m2) + pow(p, (2 * (m - 2)) as nat)));
        assert(p * p * (geo(p, m2) + pow(p, (2 * (m - 2)) as nat))
            == p * p * geo(p, m2) + p * p * pow(p, (2 * (m - 2)) as nat)) by (nonlinear_arith);
    }
}

/// The defining identity of the geometric sum: multiplying by `p^2 - 1`
/// telescopes it to `p^(2m) - 1`.
proof fn lemma_geo_mul(p: int, m: nat)
    requires
        p >= 2,
    ensures
        (p * p - 1) * geo(p, m) == pow(p, (2 * m) as nat) - 1,
        geo(p, m) >= 0,
    decreases m,
{
    reveal(pow);
    if m == 0 {
        assert(pow(p, 0) == 1);
    } else {
        lemma_geo_mul(p, (m - 1) as nat);
        let g1 = geo(p, (m - 1) as nat);
        let w = pow(p, (2 * (m - 1)) as nat);
        assert(pow(p, (2 * m) as nat) == p * p * w) by {
            vstd::arithmetic::power::lemma_pow_adds(p, 2, (2 * (m - 1)) as nat);
            vstd::arithmetic::power::lemma_pow1(p);
            assert(pow(p, 2) == p * pow(p, 1));
        }
        vstd::arithmetic::power::lemma_pow_positive(p, (2 * (m - 1)) as nat);
        assert((p * p - 1) * (g1 + w) == pow(p, (2 * m) as nat) - 1) by (nonlinear_arith)
            requires
                (p * p - 1) * g1 == w - 1,
                pow(p, (2 * m) as nat) == p * p * w,
        ;
        assert(geo(p, m) == g1 + w);
    }
}

/// The closed form of the iterative recurrence: a leading term of
/// `(p-1)/2 * p^(exp-1)` plus the coefficient times a geometric sum whose
/// shape depends on the parity of the exponent.
#[verifier::rlimit(50)]
proof fn lemma_ord_closed(p: int, exp: nat, coef: int)
    requires
        p >= 2,
        exp >= 1,
    ensures
        exp % 2 == 1 ==> ord_v1(p, exp, coef)
            == ((p - 1) / 2) * pow(p, (exp - 1) as nat) + coef * geo(p, ((exp - 1) / 2) as nat),
        exp % 2 == 0 ==> ord_v1(p, exp, coef)
            == ((p - 1) / 2) * pow(p, (exp - 1) as nat)
                + coef * (p * geo(p, ((exp - 2) / 2) as nat)),
    decreases exp,
{
    reveal(pow);
    let h = (p - 1) / 2;
    if exp == 1 {
        assert(pow(p, 0) == 1);
        assert(geo(p, 0) == 0);
    } else if exp == 2 {
        assert(ord_v1(p, 2, coef) == ord_v1(p, 1, coef) * p);
        assert(pow(p, 1) == p * pow(p, 0) && pow(p, 0) == 1);
        assert(geo(p, 0) == 0);
    } else {
        lemma_ord_closed(p, (exp - 1) as nat, coef);
        let prev = ord_v1(p, (exp - 1) as nat, coef);
        assert(pow(p, (exp - 1) as nat) == p * pow(p, (exp - 2) as nat));
        if exp % 2 == 1 {
            // previous exponent is even
            let m = ((exp - 3) / 2) as nat;
            assert(((exp - 1 - 2) / 2) as nat == m);
            assert(prev == h * pow(p, (exp - 2) as nat) + coef * (p * geo(p, m)));
            assert(ord_v1(p, exp, coef) == prev * p + coef);
            let mm = ((exp - 1) / 2) as nat;
            assert(mm == m + 1);
            lemma_geo_front(p, mm);
            assert(geo(p, mm) == 1 + p * p * geo(p, m));
            assert(prev * p + coef == h * pow(p, (exp - 1) as nat) + coef * geo(p, mm))
                by (nonlinear_arith)
                requires
                    prev == h * pow(p, (exp - 2) as nat) + coef * (p * geo(p, m)),
                    pow(p, (exp - 1) as nat) == p * pow(p, (exp - 2) as nat),
                    geo(p, mm) == 1 + p * p * geo(p, m),
            ;
        } else {
            // previous exponent is odd
            let m = ((exp - 2) / 2) as nat;
            assert(((exp - 1 - 1) / 2) as nat == m);
            assert(prev == h * pow(p, (exp - 2) as nat) + coef * geo(p, m));
            assert(ord_v1(p, exp, coef) == prev * p);
            assert(prev * p == h * pow(p, (exp - 1) as nat) + coef * (p * geo(p, m)))
                by (nonlinear_arith)
                requires
                    prev == h * pow(p, (exp - 2) as nat) + coef * geo(p, m),
                    pow(p, (exp - 1) as nat) == p * pow(p, (exp - 2) as nat),
            ;
        }
    }
}

/// The order value stays between 0 and `p^exp - 2` whenever the coefficient
/// is at most `2 * (p - 1)`.
proof fn lemma_ord_bound(p: int, exp: nat, coef: int)
    requires
        p >= 2,
        exp >= 1,
        0 <= coef <= 2 * (p - 1),
    ensures
        0 <= ord_v1(p, exp, coef),
        ord_v1(p, exp, coef) <= pow(p, exp) - 2,
    decreases exp,
{
    reveal(pow);
    if exp == 1 {
        assert(pow(p, 1) == p * pow(p, 0) && pow(p, 0) == 1);
    } else {
        lemma_ord_bound(p, (exp - 1) as nat, coef);
        let prev = ord_v1(p, (exp - 1) as nat, coef);
        assert(pow(p, exp) == p * pow(p, (exp - 1) as nat));
        assert(0 <= prev * p + (if exp % 2 == 1 { coef } else { 0int })
            && prev * p + (if exp % 2 == 1 { coef } else { 0int }) <= pow(p, exp) - 2)
            by (nonlinear_arith)
            requires
                0 <= prev <= pow(p, (exp - 1) as nat) - 2,
                pow(p, exp) == p * pow(p, (exp - 1) as nat),
                p >= 2,
                0 <= coef <= 2 * (p - 1),
        ;
    }
}

/// The value both order computations return for the single factor pair
/// `(p, exp)`: the recurrence value, except that for the prime 2 the order
/// is the size of the power-of-two residue list itself, which exceeds the
/// recurrence by one because the recurrence seeds with `(2-1)/2 == 0`
/// where the residue list modulo 2 already holds the single entry 1.
pub open spec fn fast_ord_value(p: u32, exp: u32) -> int {
    if p == 2 {
        qr2_seq(exp as nat).len() as int
    } else {
        ord_v1(p as int, exp as nat, ord_coef(p as int))
    }
}

/// The odd-step coefficient at the prime 2 is exactly 1: the residue list
/// modulo 2 is `[1]`, whose sole entry is a square, and `isqrt(1) == 1`.
pub proof fn lemma_ord_coef_two()
    ensures
        ord_coef(2) == 1,
{
    assert(qr_p_seq(2) == seq![1u32]);
    assert(is_square_spec(1)) by {
        let k: int = 1;
        assert(k * k == 1);
    }
    assert(seq![1u32].drop_last() =~= Seq::<u32>::empty());
    assert(nonsquares(Seq::<u32>::empty()) == Seq::<u32>::empty());
    assert(seq![1u32].last() == 1u32);
    assert(nonsquares(seq![1u32])
        == nonsquares(seq![1u32].drop_last()) + Seq::<u32>::empty());
    assert(nonsquares(seq![1u32]) =~= Seq::<u32>::empty());
    lemma_isqrt_bounds(1);
    assert(isqrt(1) == 1) by (nonlinear_arith)
        requires
            0 <= isqrt(1) <= 1,
            isqrt(1) * isqrt(1) <= 1,
            1 < ((isqrt(1) + 1) * (isqrt(1) + 1)),
    ;
}

/// The power-of-two residue list is exactly one entry longer than the
/// order recurrence at every exponent: each lifting step doubles the list
/// except for the one excluded entry, which the shape lemma shows is
/// present exactly once, and the recurrence does the same arithmetic from
/// a seed one smaller.
pub proof fn lemma_qr2_len(exp: nat)
    requires
        1 <= exp <= 31,
    ensures
        qr2_seq(exp).len() == ord_v1(2, exp, 1) + 1,
    decreases exp,
{
    if exp == 1 {
        assert(qr2_seq(1) == seq![1u32]);
    } else {
        let e = (exp - 1) as nat;
        lemma_qr2_len(e);
        lemma_qr2_shape(e);
        let prev = qr2_seq(e);
        let texcl = (2 * (((e + 1) / 2) - 1)) as nat;
        let excl = pow(2, texcl) as u32;
        let p2e = pow(2, e) as u32;
        assert(texcl % 2 == 0 && texcl + 1 <= e);
        assert(prev.contains(excl));
        lemma_lift_except_len_present(prev, excl, p2e);
        let newones: Seq<u32> = (if e % 2 == 0 {
            seq![pow(2, e) as u32]
        } else {
            Seq::<u32>::empty()
        });
        assert(qr2_seq(exp) == prev + newones + crate::qr::lift_except(prev, excl, p2e));
        assert(qr2_seq(exp).len()
            == prev.len() + newones.len() + (prev.len() - 1));
        assert(ord_v1(2, exp, 1)
            == ord_v1(2, e, 1) * 2 + (if exp % 2 == 1 { 1int } else { 0int }));
    }
}

/// The size of the residue set modulo `p^exp`, by the iterative recurrence:
/// `(p-1)/2`, then for each exponent from 2 up, multiply by `p` and add the
/// coefficient at odd exponents.
pub fn fast_ord_qr_pp(n: u32) -> (r: Result<u32, QrError>)
    ensures
        n == 0 ==> (r matches Err(e) && e == QrError::InvalidInput),
        (n >= 1 && pf_seq(n as int).len() != 1)
            ==> (r matches Err(e) && e == QrError::NotPrimePower),
        (n >= 1 && pf_seq(n as int).len() == 1)
            ==> (r matches Ok(v) && v as int == fast_ord_value(
                pf_seq(n as int)[0].0,
                pf_seq(n as int)[0].1)),
{
    let pf = prime_factorize(n)?;
    if pf.len() != 1 {
        return Err(QrError::NotPrimePower);
    }
    let prime = pf[0].0;
    let exp = pf[0].1;
    proof {
        lemma_single_factor(n as int);
    }
    let coef64 = ord_coef_exec(prime);
    let ghost coef: int = ord_coef(prime as int);
    let mut res64: u64 = ((prime - 1) / 2) as u64;
    let mut e: u32 = 1;
    proof {
        vstd::arithmetic::power::lemma_pow1(prime as int);
        vstd::arithmetic::power::lemma_pow_increases(prime as nat, 1, exp as nat);
    }
    while e < exp
        invariant
            1 <= e <= exp <= 31,
            2 <= prime,
            pow(prime as int, exp as nat) == n as int,
            coef64 as int == coef,
            coef == ord_coef(prime as int),
            0 <= coef <= 2 * (prime as int - 1),
            res64 as int == ord_v1(prime as int, e as nat, coef),
            pow(prime as int, e as nat) <= n as int,
        decreases exp as int - e as int,
    {
        proof {
            lemma_ord_bound(prime as int, e as nat, coef);
            lemma_ord_bound(prime as int, (e + 1) as nat, coef);
            vstd::arithmetic::power::lemma_pow_increases(
                prime as nat, (e + 1) as nat, exp as nat);
            assert(pow(prime as int, (e + 1) as nat)
                == (prime as int) * pow(prime as int, e as nat)) by {
                vstd::arithmetic::power::lemma_pow_adds(prime as int, 1, e as nat);
                vstd::arithmetic::power::lemma_pow1(prime as int);
            }
            assert((res64 as int) * (prime as int) < 0x1_0000_0000_0000_0000
                && ord_v1(prime as int, (e + 1) as nat, coef)
                    == (res64 as int) * (prime as int)
                        + (if ((e + 1) as nat) % 2 == 1 { coef } else { 0int }))
                by (nonlinear_arith)
                requires
                    res64 as int == ord_v1(prime as int, e as nat, coef),
                    0 <= res64 as int,
                    (res64 as int) < 0x1_0000_0000,
                    prime < 0x1_0000_0000,
                    ord_v1(prime as int, (e + 1) as nat, coef)
                        == ord_v1(prime as int, e as nat, coef) * (prime as int)
                            + (if ((e + 1) as nat) % 2 == 1 { coef } else { 0int }),
            ;
        }
        let next = res64 * (prime as u64);
        if (e + 1) % 2 == 1 {
            res64 = next + coef64;
        } else {
            res64 = next;
        }
        e += 1;
    }
    proof {
        lemma_ord_bound(prime as int, exp as nat, coef);
    }
    if prime == 2 {
        proof {
            lemma_ord_coef_two();
            lemma_qr2_len(exp as nat);
        }
        Ok((res64 + 1) as u32)
    } else {
        Ok(res64 as u32)
    }
}

/// Computes the odd-step coefficient for the prime `p`: the count of
/// non-square residues modulo `p` plus the integer square root of `p - 1`.
/// The result is at most `2 * (p - 1)`.
fn ord_coef_exec(p: u32) -> (r: u64)
    requires
        is_prime_spec(p as int),
    ensures
        r as int == ord_coef(p as int),
        0 <= r as int <= 2 * (p as int - 1),
{
    let base = match qr_p(p) {
        Ok(v) => v,
        Err(_) => {
            proof {
                assert(false);
            }
            Vec::new()
        },
    };
    proof {
        lemma_qr_p_upto_shape(p as int, p as int);
        assert(base@.len() <= p as int - 1) by {
            if base@.len() > p as int - 1 {
                assert(base@[base@.len() - 1] >= base@.len());
            }
        }
        assert(base@.take(0) =~= Seq::<u32>::empty());
    }
    let mut count: u32 = 0;
    let mut d: usize = 0;
    while d < base.len()
        invariant
            d <= base@.len(),
            base@.len() <= p as int - 1,
            p <= u32::MAX,
            count as int == nonsquares(base@.take(d as int)).len(),
            count as int <= d as int,
        decreases base@.len() - d as int,
    {
        let v = base[d];
        let sq = is_square(v);
        proof {
            let t = base@.take(d as int + 1);
            assert(t.drop_last() =~= base@.take(d as int));
            assert(t.last() == v);
            crate::ord::lemma_nonsquares_len(t);
        }
        if !sq {
            count += 1;
        }
        d += 1;
    }
    proof {
        assert(base@.take(base@.len() as int) =~= base@);
        lemma_isqrt_bounds(p as int - 1);
    }
    let fs = floor_sqrt(p - 1);
    proof {
        assert(fs as int == isqrt(p as int - 1)) by (nonlinear_arith)
            requires
                fs as int * fs as int <= p as int - 1,
                (p as int - 1) < ((fs as int + 1) * (fs as int + 1)),
                isqrt(p as int - 1) * isqrt(p as int - 1) <= p as int - 1,
                (p as int - 1) < ((isqrt(p as int - 1) + 1) * (isqrt(p as int - 1) + 1)),
                fs >= 0,
                isqrt(p as int - 1) >= 0,
        ;
    }
    (count as u64) + (fs as u64)
}

/// The size of the residue set modulo `p^exp`, by closed-form arithmetic:
/// a leading term plus an exactly dividing geometric-series term, equal to
/// the iterative recurrence on every valid prime power.
pub fn fast_ord_qr_pp_v2(n: u32) -> (r: Result<u32, QrError>)
    ensures
        n == 0 ==> (r matches Err(e) && e == QrError::InvalidInput),
        (n >= 1 && pf_seq(n as int).len() != 1)
            ==> (r matches Err(e) && e == QrError::NotPrimePower),
        (n >= 1 && pf_seq(n as int).len() == 1)
            ==> (r matches Ok(v) && v as int == fast_ord_value(
                pf_seq(n as int)[0].0,
                pf_seq(n as int)[0].1)),
{
    let pf = prime_factorize(n)?;
    if pf.len() != 1 {
        return Err(QrError::NotPrimePower);
    }
    let prime = pf[0].0;
    let exp = pf[0].1;
    proof {
        lemma_single_factor(n as int);
        vstd::arithmetic::power::lemma_pow_increases(
            prime as nat, (exp - 1) as nat, exp as nat);
        vstd::arithmetic::power::lemma_pow_positive(prime as int, (exp - 1) as nat);
    }
    let coef64 = ord_coef_exec(prime);
    let ghost coef: int = ord_coef(prime as int);
    let ghost pw: int = pow(prime as int, (exp - 1) as nat);
    let pem1 = num_pow(prime, exp - 1);
    let half = ((prime - 1) / 2) as u64;
    proof {
        assert((pem1 as u64) * half < 0x1_0000_0000_0000_0000) by (nonlinear_arith)
            requires
                (pem1 as int) < 0x1_0000_0000,
                (half as int) < 0x1_0000_0000,
        ;
        assert((prime as int) * pw == n as int) by {
            vstd::arithmetic::power::lemma_pow_adds(prime as int, 1, (exp - 1) as nat);
            vstd::arithmetic::power::lemma_pow1(prime as int);
        }
        assert((prime as u64) * (prime as u64) < 0x1_0000_0000_0000_0000
            && (prime as u64) * (prime as u64) >= 4) by (nonlinear_arith)
            requires
                2 <= prime,
                prime < 0x1_0000_0000,
        ;
    }
    let lead = (pem1 as u64) * half;
    let denom = (prime as u64) * (prime as u64) - 1;
    let ghost gpart: int = (if (exp as nat) % 2 == 1 {
        geo(prime as int, (((exp as int) - 1) / 2) as nat)
    } else {
        (prime as int) * geo(prime as int, (((exp as int) - 2) / 2) as nat)
    });
    let t: u64;
    if exp % 2 == 1 {
        t = (pem1 as u64) / denom;
        proof {
            let m = (((exp as int) - 1) / 2) as nat;
            lemma_geo_mul(prime as int, m);
            assert(2 * m == (exp - 1) as nat);
            assert(pem1 as int == geo(prime as int, m) * (denom as int) + 1)
                by (nonlinear_arith)
                requires
                    ((prime as int) * (prime as int) - 1) * geo(prime as int, m)
                        == pow(prime as int, (2 * m) as nat) - 1,
                    denom as int == (prime as int) * (prime as int) - 1,
                    pem1 as int == pow(prime as int, (2 * m) as nat),
            ;
            vstd::arithmetic::div_mod::lemma_fundamental_div_mod_converse(
                pem1 as int, denom as int, geo(prime as int, m), 1);
            assert(t as int == gpart);
            assert(gpart >= 0);
        }
    } else {
        proof {
            vstd::arithmetic::power::lemma_pow_increases(prime as nat, exp as nat, exp as nat);
        }
        let pe = num_pow(prime, exp);
        let t1 = (pe as u64 - 1) / denom;
        proof {
            let m = ((exp as int) / 2) as nat;
            lemma_geo_mul(prime as int, m);
            assert(2 * m == exp as nat);
            assert(pe as int - 1 == geo(prime as int, m) * (denom as int) + 0)
                by (nonlinear_arith)
                requires
                    ((prime as int) * (prime as int) - 1) * geo(prime as int, m)
                        == pow(prime as int, (2 * m) as nat) - 1,
                    denom as int == (prime as int) * (prime as int) - 1,
                    pe as int == pow(prime as int, (2 * m) as nat),
            ;
            vstd::arithmetic::div_mod::lemma_fundamental_div_mod_converse(
                pe as int - 1, denom as int, geo(prime as int, m), 0);
            assert(t1 as int == geo(prime as int, m));
            lemma_geo_front(prime as int, m);
            lemma_geo_mul(prime as int, (m - 1) as nat);
            let g1 = geo(prime as int, (m - 1) as nat);
            assert(t1 as int == ((prime as int) * g1) * (prime as int) + 1)
                by (nonlinear_arith)
                requires
                    t1 as int == 1 + (prime as int) * (prime as int) * g1,
            ;
            vstd::arithmetic::div_mod::lemma_fundamental_div_mod_converse(
                t1 as int, prime as int, (prime as int) * g1, 1);
            assert((((exp as int) - 2) / 2) as nat == (m - 1) as nat);
            assert((prime as int) * g1 >= 0) by (nonlinear_arith)
                requires
                    g1 >= 0,
                    prime >= 2,
            ;
        }
        t = t1 / (prime as u64);
        proof {
            assert(t as int == gpart);
            assert(gpart >= 0);
        }
    }
    proof {
        lemma_ord_closed(prime as int, exp as nat, coef);
        lemma_ord_bound(prime as int, exp as nat, coef);
        let ordv = ord_v1(prime as int, exp as nat, coef);
        assert(ordv == (half as int) * pw + coef * gpart);
        assert(lead as int == (half as int) * pw) by (nonlinear_arith)
            requires
                lead as int == (pem1 as int) * (half as int),
                pem1 as int == pw,
        ;
        assert(coef * gpart >= 0) by (nonlinear_arith)
            requires
                coef >= 0,
                gpart >= 0,
        ;
        assert((coef64 as int) * (t as int) == coef * gpart) by (nonlinear_arith)
            requires
                coef64 as int == coef,
                t as int == gpart,
        ;
        assert(coef * gpart <= n as int - 2);
    }
    let add = coef64 * t;
    let res64 = lead + add;
    if prime == 2 {
        proof {
            lemma_ord_coef_two();
            lemma_qr2_len(exp as nat);
        }
        Ok((res64 + 1) as u32)
    } else {
        Ok(res64 as u32)
    }
}

} // verus!
