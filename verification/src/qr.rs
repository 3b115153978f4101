//! Quadratic-residue set builders: brute force modulo a prime, and
//! structural lifting recurrences modulo prime powers.

use vstd::prelude::*;
use vstd::arithmetic::power::pow;
use crate::QrError;
use crate::nt::is_prime_spec;
use crate::nt::is_square_spec;
use crate::nt::is_prime;
use crate::nt::is_square;
use crate::nt::mod_pow;
use crate::nt::num_pow;
use crate::nt::pf_seq;
use crate::nt::pf_prod;
use crate::nt::lemma_pf_seq_props;
use crate::nt::prime_factorize;

verus! {

/// Euler's criterion at `p`: `i^((p-1)/2) mod p == 1`.
pub open spec fn euler_qr(p: int, i: int) -> bool {
    pow(i, (((p - 1) / 2) as nat)) % p == 1
}

/// The residues modulo the prime `p` found among 1 and the candidates
/// `2 .. m`, in ascending order.
pub open spec fn qr_p_upto(p: int, m: int) -> Seq<u32>
    decreases m,
{
    if m <= 2 {
        seq![1u32]
    } else {
        qr_p_upto(p, m - 1)
            + (if euler_qr(p, m - 1) {
                seq![(m - 1) as u32]
            } else {
                Seq::<u32>::empty()
            })
    }
}

/// The quadratic residues modulo the prime `p`: 1 followed by every
/// `i` in `[2, p)` that meets Euler's criterion, ascending.
pub open spec fn qr_p_seq(p: int) -> Seq<u32> {
    qr_p_upto(p, p)
}

/// The partial residue list always starts with 1, stays inside `[1, m)`,
/// and is strictly ascending.
pub proof fn lemma_qr_p_upto_shape(p: int, m: int)
    requires
        m <= 0x1_0000_0000,
    ensures
        qr_p_upto(p, m).len() >= 1,
        qr_p_upto(p, m)[0] == 1,
        forall|j: int| 0 <= j < qr_p_upto(p, m).len()
            ==> 1 <= #[trigger] qr_p_upto(p, m)[j] < (if m <= 2 { 2 } else { m }),
        forall|j1: int, j2: int| 0 <= j1 < j2 < qr_p_upto(p, m).len()
            ==> #[trigger] qr_p_upto(p, m)[j1] < #[trigger] qr_p_upto(p, m)[j2],
        forall|j: int| 0 <= j < qr_p_upto(p, m).len() ==> j + 1 <= #[trigger] qr_p_upto(p, m)[j],
    decreases m,
{
    if m > 2 {
        lemma_qr_p_upto_shape(p, m - 1);
        let prev = qr_p_upto(p, m - 1);
        let s = qr_p_upto(p, m);
        assert forall|j: int| 0 <= j < s.len() implies 1 <= #[trigger] s[j] < m by {
            if j < prev.len() {
                assert(s[j] == prev[j]);
            } else {
                assert(s[j] == (m - 1) as u32);
            }
        }
        assert forall|j: int| 0 <= j < s.len() implies j + 1 <= #[trigger] s[j] by {
            if j < prev.len() {
                assert(s[j] == prev[j]);
            } else {
                assert(s[j] == (m - 1) as u32);
                assert(prev[prev.len() - 1] >= prev.len());
                assert(prev[prev.len() - 1] < (if m - 1 <= 2 { 2 } else { m - 1 }));
            }
        }
        assert forall|j1: int, j2: int| 0 <= j1 < j2 < s.len()
            implies #[trigger] s[j1] < #[trigger] s[j2] by {
            if j2 < prev.len() {
                assert(s[j1] == prev[j1] && s[j2] == prev[j2]);
            } else {
                assert(s[j2] == (m - 1) as u32);
                assert(s[j1] == prev[j1]);
                assert(prev[j1] < (if m - 1 <= 2 { 2 } else { m - 1 }));
            }
        }
    }
}

/// The partial residue list holds exactly 1 and the candidates in `[2, m)`
/// that meet Euler's criterion.
pub proof fn lemma_qr_p_upto_membership(p: int, m: int)
    requires
        2 <= m <= 0x1_0000_0000,
    ensures
        qr_p_upto(p, m).contains(1u32),
        forall|i: int| 2 <= i < m
            ==> (qr_p_upto(p, m).contains(i as u32) <==> euler_qr(p, i)),
    decreases m,
{
    lemma_qr_p_upto_shape(p, m);
    let s = qr_p_upto(p, m);
    if m == 2 {
        assert(s == seq![1u32]);
        assert(s[0] == 1u32);
    } else {
        lemma_qr_p_upto_membership(p, m - 1);
        lemma_qr_p_upto_shape(p, m - 1);
        let prev = qr_p_upto(p, m - 1);
        assert(prev[0] == 1u32 && prev.contains(1u32));
        assert(s[0] == 1u32 && s.contains(1u32));
        assert forall|i: int| 2 <= i < m
            implies (s.contains(i as u32) <==> euler_qr(p, i)) by {
            if i < m - 1 {
                if prev.contains(i as u32) {
                    let j = choose|j: int| 0 <= j < prev.len() && prev[j] == i as u32;
                    assert(s[j] == i as u32);
                    assert(s.contains(i as u32));
                }
                if s.contains(i as u32) {
                    let j = choose|j: int| 0 <= j < s.len() && s[j] == i as u32;
                    if j < prev.len() {
                        assert(prev.contains(i as u32));
                    } else {
                        assert(s[j] == (m - 1) as u32);
                    }
                }
            } else {
                if euler_qr(p, i) {
                    assert(s[s.len() - 1] == (m - 1) as u32);
                    assert(s.contains(i as u32));
                } else {
                    if s.contains(i as u32) {
                        let j = choose|j: int| 0 <= j < s.len() && s[j] == i as u32;
                        assert(j < prev.len() && prev[j] < m - 1);
                    }
                }
            }
        }
    }
}

/// The residues modulo a prime: 1, then each candidate in `[2, p)` that
/// meets Euler's criterion.  Fails with `NotPrime` when `p` is not prime.
pub fn qr_p(p: u32) -> (r: Result<Vec<u32>, QrError>)
    ensures
        !is_prime_spec(p as int) ==> (r matches Err(e) && e == QrError::NotPrime),
        is_prime_spec(p as int) ==> (r matches Ok(v) && v@ == qr_p_seq(p as int)),
{
    if !is_prime(p) {
        return Err(QrError::NotPrime);
    }
    let mut qr: Vec<u32> = Vec::new();
    qr.push(1);
    proof {
        assert(qr@ =~= qr_p_upto(p as int, 2));
    }
    let mut i: u32 = 2;
    while i < p
        invariant
            2 <= i <= p,
            is_prime_spec(p as int),
            qr@ == qr_p_upto(p as int, i as int),
        decreases p as int - i as int,
    {
        let crit = mod_pow(i, (p - 1) / 2, p)?;
        if crit == 1 {
            qr.push(i);
            proof {
                assert(qr@ =~= qr_p_upto(p as int, i as int + 1));
            }
        } else {
            proof {
                assert(qr@ =~= qr_p_upto(p as int, i as int + 1));
            }
        }
        i += 1;
    }
    Ok(qr)
}

/// Each value of `s` other than `excl`, raised by `add`, keeping the order.
pub open spec fn lift_except(s: Seq<u32>, excl: u32, add: u32) -> Seq<u32>
    decreases s.len(),
{
    if s.len() == 0 {
        Seq::<u32>::empty()
    } else {
        lift_except(s.drop_last(), excl, add)
            + (if s.last() == excl {
                Seq::<u32>::empty()
            } else {
                seq![(s.last() + add) as u32]
            })
    }
}

/// The quadratic residues modulo `2^exp`, by the lifting recurrence: the
/// set for `2^(e+1)` extends the set for `2^e` with the fresh value `2^e`
/// at even `e`, then with every current value raised by `2^e` except one
/// earlier power of two whose lift would duplicate an existing entry.
pub open spec fn qr2_seq(exp: nat) -> Seq<u32>
    decreases exp,
{
    if exp <= 1 {
        seq![1u32]
    } else {
        let e = (exp - 1) as nat;
        let prev = qr2_seq(e);
        let excl = pow(2, (2 * (((e + 1) / 2) - 1)) as nat) as u32;
        prev + (if e % 2 == 0 {
            seq![pow(2, e) as u32]
        } else {
            Seq::<u32>::empty()
        }) + lift_except(prev, excl, pow(2, e) as u32)
    }
}

/// Lifting a list that does not hold the excluded value keeps its length.
pub proof fn lemma_lift_except_len_absent(s: Seq<u32>, excl: u32, add: u32)
    requires
        !s.contains(excl),
    ensures
        lift_except(s, excl, add).len() == s.len(),
    decreases s.len(),
{
    if s.len() > 0 {
        let d1 = s.drop_last();
        assert(!d1.contains(excl)) by {
            if d1.contains(excl) {
                let j = choose|j: int| 0 <= j < d1.len() && d1[j] == excl;
                assert(s[j] == excl);
            }
        }
        assert(s.last() != excl) by {
            assert(s[s.len() - 1] == s.last());
        }
        lemma_lift_except_len_absent(d1, excl, add);
    }
}

/// Lifting a strictly ascending list that holds the excluded value once
/// drops exactly that one entry.
pub proof fn lemma_lift_except_len_present(s: Seq<u32>, excl: u32, add: u32)
    requires
        s.contains(excl),
        forall|j1: int, j2: int| 0 <= j1 < j2 < s.len() ==> #[trigger] s[j1] < #[trigger] s[j2],
    ensures
        lift_except(s, excl, add).len() == s.len() - 1,
    decreases s.len(),
{
    let d1 = s.drop_last();
    if s.last() == excl {
        assert(!d1.contains(excl)) by {
            if d1.contains(excl) {
                let j = choose|j: int| 0 <= j < d1.len() && d1[j] == excl;
                assert(s[j] == d1[j] && s[j] < s[s.len() - 1]);
            }
        }
        lemma_lift_except_len_absent(d1, excl, add);
    } else {
        assert(d1.contains(excl)) by {
            let j = choose|j: int| 0 <= j < s.len() && s[j] == excl;
            assert(s[s.len() - 1] == s.last());
            assert(j < s.len() - 1);
            assert(d1[j] == s[j]);
        }
        lemma_lift_except_len_present(d1, excl, add);
    }
}

/// The lift of an ascending list bounded by `add` is ascending, stays
/// strictly between `add` and `2 * add`, and never exceeds the lift of the
/// last original entry.
proof fn lemma_lift_except_shape(s: Seq<u32>, excl: u32, add: u32)
    requires
        1 <= add <= 0x4000_0000,
        forall|j: int| 0 <= j < s.len()
            ==> 1 <= #[trigger] s[j] && ((s[j]) as int) < add as int,
        forall|j1: int, j2: int| 0 <= j1 < j2 < s.len() ==> #[trigger] s[j1] < #[trigger] s[j2],
    ensures
        forall|j: int| 0 <= j < lift_except(s, excl, add).len()
            ==> (add as int) < ((#[trigger] lift_except(s, excl, add)[j]) as int)
                && ((lift_except(s, excl, add)[j]) as int) < 2 * (add as int),
        forall|j: int| 0 <= j < lift_except(s, excl, add).len()
            ==> s.len() > 0 && ((#[trigger] lift_except(s, excl, add)[j]) as int)
                <= s.last() as int + add as int,
        forall|j1: int, j2: int| 0 <= j1 < j2 < lift_except(s, excl, add).len()
            ==> #[trigger] lift_except(s, excl, add)[j1]
                < #[trigger] lift_except(s, excl, add)[j2],
    decreases s.len(),
{
    if s.len() > 0 {
        let d1 = s.drop_last();
        lemma_lift_except_shape(d1, excl, add);
        let lf = lift_except(s, excl, add);
        let lf1 = lift_except(d1, excl, add);
        assert(s[s.len() - 1] == s.last());
        assert forall|j: int| 0 <= j < lf.len()
            implies (add as int) < ((#[trigger] lf[j]) as int)
                && ((lf[j]) as int) < 2 * (add as int)
                && ((lf[j]) as int) <= s.last() as int + add as int by {
            if j < lf1.len() {
                assert(lf[j] == lf1[j]);
                assert(d1.len() > 0 && d1[d1.len() - 1] == d1.last());
                assert(d1.last() < s.last());
            } else {
                assert(lf[j] == ((s.last() + add) as u32));
            }
        }
        assert forall|j1: int, j2: int| 0 <= j1 < j2 < lf.len()
            implies #[trigger] lf[j1] < #[trigger] lf[j2] by {
            if j2 < lf1.len() {
                assert(lf[j1] == lf1[j1] && lf[j2] == lf1[j2]);
            } else {
                assert(lf[j2] == ((s.last() + add) as u32));
                assert(lf[j1] == lf1[j1]);
                assert(d1.len() > 0 && d1[d1.len() - 1] == d1.last());
                assert(d1.last() < s.last());
                assert((lf1[j1] as int) <= d1.last() as int + add as int);
            }
        }
    }
}

/// The power-of-two residue list stays inside `[1, 2^exp)`, is strictly
/// ascending, and holds every power of two with an even exponent that fits:
/// those are the squares whose lifts the recurrence must later exclude.
pub proof fn lemma_qr2_shape(exp: nat)
    requires
        1 <= exp <= 31,
    ensures
        forall|j: int| 0 <= j < qr2_seq(exp).len()
            ==> 1 <= #[trigger] qr2_seq(exp)[j]
                && ((qr2_seq(exp)[j]) as int) < pow(2, exp),
        forall|j1: int, j2: int| 0 <= j1 < j2 < qr2_seq(exp).len()
            ==> #[trigger] qr2_seq(exp)[j1] < #[trigger] qr2_seq(exp)[j2],
        forall|t: nat| t % 2 == 0 && t + 1 <= exp
            ==> qr2_seq(exp).contains((#[trigger] pow(2, t)) as u32),
    decreases exp,
{
    reveal(pow);
    vstd::arithmetic::power2::lemma2_to64();
    if exp == 1 {
        assert(qr2_seq(1) == seq![1u32]);
        assert(pow(2, 1) == 2 * pow(2, 0) && pow(2, 0) == 1);
        assert forall|t: nat| t % 2 == 0 && t + 1 <= 1
            implies qr2_seq(1).contains((#[trigger] pow(2, t)) as u32) by {
            assert(t == 0);
            assert(qr2_seq(1)[0] == 1u32);
        }
    } else {
        let e = (exp - 1) as nat;
        lemma_qr2_shape(e);
        let prev = qr2_seq(e);
        let texcl = (2 * (((e + 1) / 2) - 1)) as nat;
        let excl = pow(2, texcl) as u32;
        let p2e = pow(2, e) as u32;
        assert(pow(2, e) < pow(2, exp) && pow(2, exp) <= pow(2, 31)) by {
            vstd::arithmetic::power::lemma_pow_strictly_increases(2, e, exp);
            if exp < 31 {
                vstd::arithmetic::power::lemma_pow_strictly_increases(2, exp, 31);
            }
        }
        assert(pow(2, 31) == vstd::arithmetic::power2::pow2(31) && vstd::arithmetic::power2::pow2(31) == 0x8000_0000) by {
            vstd::arithmetic::power2::lemma_pow2(31);
        }
        vstd::arithmetic::power::lemma_pow_positive(2, e);
        assert(pow(2, exp) == 2 * pow(2, e));
        assert(p2e as int == pow(2, e));
        let lf = lift_except(prev, excl, p2e);
        lemma_lift_except_shape(prev, excl, p2e);
        let s = qr2_seq(exp);
        let newones: Seq<u32> = (if e % 2 == 0 {
            seq![pow(2, e) as u32]
        } else {
            Seq::<u32>::empty()
        });
        assert(s == prev + newones + lf);
        assert forall|j: int| 0 <= j < s.len()
            implies 1 <= #[trigger] s[j] && ((s[j]) as int) < pow(2, exp) by {
            if j < prev.len() {
                assert(s[j] == prev[j]);
            } else if j < prev.len() + newones.len() {
                assert(s[j] == p2e);
            } else {
                assert(s[j] == lf[j - prev.len() - newones.len()]);
            }
        }
        assert forall|j1: int, j2: int| 0 <= j1 < j2 < s.len()
            implies #[trigger] s[j1] < #[trigger] s[j2] by {
            let b1: int = prev.len() as int;
            let b2: int = b1 + newones.len() as int;
            if j1 < b1 {
                assert(s[j1] == prev[j1]);
            } else if j1 < b2 {
                assert(s[j1] == p2e);
            } else {
                assert(s[j1] == lf[j1 - b2]);
            }
            if j2 < b1 {
                assert(s[j2] == prev[j2]);
            } else if j2 < b2 {
                assert(s[j2] == p2e);
            } else {
                assert(s[j2] == lf[j2 - b2]);
            }
        }
        assert forall|t: nat| t % 2 == 0 && t + 1 <= exp
            implies s.contains((#[trigger] pow(2, t)) as u32) by {
            if t + 1 <= e {
                assert(prev.contains(pow(2, t) as u32));
                let j = choose|j: int| 0 <= j < prev.len() && prev[j] == pow(2, t) as u32;
                assert(s[j] == prev[j]);
            } else {
                assert(t == e && e % 2 == 0);
                assert(s[prev.len() as int] == p2e);
            }
        }
    }
}

/// The residues modulo `2^exp`, for an input that must be a power of two.
/// Builds the set incrementally for each exponent from 1 up to `exp`.
pub fn qr_2pow(n: u32) -> (r: Result<Vec<u32>, QrError>)
    ensures
        n == 0 ==> (r matches Err(e) && e == QrError::InvalidInput),
        (n >= 1 && pf_seq(n as int).len() != 1)
            ==> (r matches Err(e) && e == QrError::NotPrimePower),
        (n >= 1 && pf_seq(n as int).len() == 1 && pf_seq(n as int)[0].0 != 2)
            ==> (r matches Err(e) && e == QrError::NotPowerOfTwo),
        (n >= 1 && pf_seq(n as int).len() == 1 && pf_seq(n as int)[0].0 == 2)
            ==> (r matches Ok(v) && v@ == qr2_seq(pf_seq(n as int)[0].1 as nat)),
{
    let pf = prime_factorize(n)?;
    if pf.len() != 1 {
        return Err(QrError::NotPrimePower);
    }
    let prime = pf[0].0;
    let exp = pf[0].1;
    if prime != 2 {
        return Err(QrError::NotPowerOfTwo);
    }
    proof {
        lemma_pf_seq_props(n as int);
        let s = pf_seq(n as int);
        assert(pf_prod(s) == pow(2, exp as nat) * pf_prod(s.subrange(1, 1)));
        assert(s.subrange(1, 1) =~= Seq::<(u32, u32)>::empty());
        assert(pf_prod(Seq::<(u32, u32)>::empty()) == 1);
        assert(pf_prod(s.subrange(1, 1)) == 1);
        assert(pf_prod(s) == n as int);
        assert(pow(2, exp as nat) == n as int) by (nonlinear_arith)
            requires
                pf_prod(s) == n as int,
                pf_prod(s) == pow(2, exp as nat) * pf_prod(s.subrange(1, 1)),
                pf_prod(s.subrange(1, 1)) == 1,
        ;
        crate::nt::lemma_exp_bound(2, exp as nat, n as int);
        assert(1 <= exp <= 31);
    }
    let mut qr2: Vec<u32> = Vec::new();
    qr2.push(1);
    proof {
        assert(qr2@ =~= qr2_seq(1));
        vstd::arithmetic::power::lemma_pow1(2);
    }
    let mut e: u32 = 1;
    while e < exp
        invariant
            1 <= e <= exp <= 31,
            pow(2, exp as nat) == n as int,
            qr2@ == qr2_seq(e as nat),
            forall|j: int| 0 <= j < qr2@.len() ==> ((#[trigger] qr2@[j]) as int) < pow(2, e as nat),
        decreases exp as int - e as int,
    {
        proof {
            vstd::arithmetic::power::lemma_pow_strictly_increases(2, e as nat, exp as nat);
            vstd::arithmetic::power::lemma_pow_positive(2, e as nat);
        }
        let p2e = num_pow(2, e);
        let exq = 2 * ((e + 1) / 2) - 2;
        proof {
            assert(exq < e);
            vstd::arithmetic::power::lemma_pow_strictly_increases(2, exq as nat, exp as nat);
        }
        let excl = num_pow(2, exq);
        proof {
            if (e + 1) as nat <= exp as nat {
                vstd::arithmetic::power::lemma_pow_increases(2, (e + 1) as nat, exp as nat);
            }
            assert(pow(2, (e + 1) as nat) <= n as int);
            assert(pow(2, (e + 1) as nat) == 2 * pow(2, e as nat)) by {
                vstd::arithmetic::power::lemma_pow_adds(2, 1, e as nat);
                vstd::arithmetic::power::lemma_pow1(2);
            }
        }
        let mut newv: Vec<u32> = Vec::new();
        if e % 2 == 0 {
            newv.push(p2e);
        }
        let ghost base: Seq<u32> = newv@;
        proof {
            assert(qr2@.take(0) =~= Seq::<u32>::empty());
            assert(newv@ =~= base + lift_except(qr2@.take(0), excl, p2e));
        }
        let mut j: usize = 0;
        while j < qr2.len()
            invariant
                j <= qr2.len(),
                1 <= e <= 31,
                p2e as int == pow(2, e as nat),
                pow(2, (e + 1) as nat) == 2 * pow(2, e as nat),
                pow(2, (e + 1) as nat) <= n as int,
                n <= u32::MAX,
                base == (if e % 2 == 0 { seq![p2e] } else { Seq::<u32>::empty() }),
                newv@ == base + lift_except(qr2@.take(j as int), excl, p2e),
                forall|jj: int| 0 <= jj < qr2@.len()
                    ==> ((#[trigger] qr2@[jj]) as int) < pow(2, e as nat),
                forall|jj: int| 0 <= jj < newv@.len()
                    ==> ((#[trigger] newv@[jj]) as int) < pow(2, (e + 1) as nat),
            decreases qr2@.len() - j as int,
        {
            let v = qr2[j];
            proof {
                assert((v as int + p2e as int) < pow(2, (e + 1) as nat));
            }
            if v != excl {
                newv.push(v + p2e);
            }
            proof {
                let t = qr2@.take(j as int + 1);
                assert(t.drop_last() =~= qr2@.take(j as int));
                assert(t.last() == v);
                assert(newv@ =~= base + lift_except(t, excl, p2e));
            }
            j += 1;
        }
        proof {
            assert(qr2@.take(qr2@.len() as int) =~= qr2@);
        }
        let ghost prev: Seq<u32> = qr2@;
        let mut k: usize = 0;
        while k < newv.len()
            invariant
                k <= newv.len(),
                qr2@ == prev + newv@.take(k as int),
            decreases newv@.len() - k as int,
        {
            let w = newv[k];
            qr2.push(w);
            proof {
                assert(prev + newv@.take(k as int + 1) =~= qr2@);
            }
            k += 1;
        }
        proof {
            assert(newv@.take(newv@.len() as int) =~= newv@);
            assert(qr2@ == prev + newv@);
            assert(qr2@ =~= qr2_seq((e + 1) as nat));
            assert forall|jj: int| 0 <= jj < qr2@.len()
                implies ((#[trigger] qr2@[jj]) as int) < pow(2, (e + 1) as nat) by {
                if jj < prev.len() {
                    assert(qr2@[jj] == prev[jj]);
                } else {
                    assert(qr2@[jj] == newv@[jj - prev.len()]);
                }
            }
        }
        e += 1;
    }
    Ok(qr2)
}

/// A factorization with exactly one pair gives a prime base whose power
/// recovers the input.
pub proof fn lemma_single_factor(n: int)
    requires
        1 <= n < 0x1_0000_0000,
        pf_seq(n).len() == 1,
    ensures
        is_prime_spec(pf_seq(n)[0].0 as int),
        1 <= pf_seq(n)[0].1 <= 31,
        2 <= pf_seq(n)[0].0,
        pow(pf_seq(n)[0].0 as int, pf_seq(n)[0].1 as nat) == n,
{
    lemma_pf_seq_props(n);
    let s = pf_seq(n);
    assert(pf_prod(s) == pow(s[0].0 as int, s[0].1 as nat) * pf_prod(s.subrange(1, 1)));
    assert(s.subrange(1, 1) =~= Seq::<(u32, u32)>::empty());
    assert(pf_prod(Seq::<(u32, u32)>::empty()) == 1);
    assert(pf_prod(s.subrange(1, 1)) == 1);
    assert(pf_prod(s) == n);
    assert(pow(s[0].0 as int, s[0].1 as nat) == n) by (nonlinear_arith)
        requires
            pf_prod(s) == n,
            pf_prod(s) == pow(s[0].0 as int, s[0].1 as nat) * pf_prod(s.subrange(1, 1)),
            pf_prod(s.subrange(1, 1)) == 1,
    ;
}

/// Tells whether `x` occurs in `v`.
pub fn contains_u32(v: &Vec<u32>, x: u32) -> (r: bool)
    ensures
        r == v@.contains(x),
{
    let mut k: usize = 0;
    while k < v.len()
        invariant
            k <= v@.len(),
            forall|t: int| 0 <= t < k ==> v@[t] != x,
        decreases v@.len() - k as int,
    {
        if v[k] == x {
            return true;
        }
        k += 1;
    }
    false
}

/// Every value of `s` raised by `add`, keeping the order.
pub open spec fn lift_all(s: Seq<u32>, add: u32) -> Seq<u32>
    decreases s.len(),
{
    if s.len() == 0 {
        Seq::<u32>::empty()
    } else {
        lift_all(s.drop_last(), add) + seq![(s.last() + add) as u32]
    }
}

/// The residues among `s` that are not perfect squares as plain integers;
/// their lifts must be excluded with care when raising the exponent.
pub open spec fn nonsquares(s: Seq<u32>) -> Seq<u32>
    decreases s.len(),
{
    if s.len() == 0 {
        Seq::<u32>::empty()
    } else {
        nonsquares(s.drop_last())
            + (if is_square_spec(s.last() as int) {
                Seq::<u32>::empty()
            } else {
                seq![s.last()]
            })
    }
}

/// What one lifting step at exponent `e` appends for the multipliers
/// `1 .. iend`: for each multiplier `i`, at even `e` the base-level lift
/// `i * pe` when `i` is a square or a dangerous residue, then every current
/// value raised by `i * pe`.
pub open spec fn odd_block(cur: Seq<u32>, dang: Seq<u32>, e: nat, pe: u32, iend: int) -> Seq<u32>
    decreases iend,
{
    if iend <= 1 {
        Seq::<u32>::empty()
    } else {
        let i = iend - 1;
        odd_block(cur, dang, e, pe, i)
            + (if e % 2 == 0 && (is_square_spec(i) || dang.contains(i as u32)) {
                seq![((i * (pe as int)) as u32)]
            } else {
                Seq::<u32>::empty()
            }) + lift_all(cur, ((i * (pe as int)) as u32))
    }
}

/// The accumulated residue list after the lifting steps `1 ..= e` at prime
/// `p`, starting from the residues modulo `p`; the accumulator is never
/// reset, so it carries every earlier step and also serves as the current
/// set that the next step lifts.
pub open spec fn odd_acc(base: Seq<u32>, dang: Seq<u32>, p: u32, e: nat) -> Seq<u32>
    decreases e,
{
    if e == 0 {
        base
    } else {
        let prev = odd_acc(base, dang, p, (e - 1) as nat);
        prev + odd_block(prev, dang, e, pow(p as int, e) as u32, p as int)
    }
}

/// The quadratic residues modulo `p^exp` for an odd prime `p`, built by
/// lifting the residues modulo `p` across each exponent step.
pub open spec fn odd_pp_seq(p: u32, exp: u32) -> Seq<u32> {
    odd_acc(qr_p_seq(p as int), nonsquares(qr_p_seq(p as int)), p, (exp - 1) as nat)
}

/// The residues modulo `p^exp` for the single prime-power factor of `n`,
/// by the accumulating lifting recurrence over the exponent.
pub fn qr_odd_pp(n: u32) -> (r: Result<Vec<u32>, QrError>)
    ensures
        n == 0 ==> (r matches Err(e) && e == QrError::InvalidInput),
        (n >= 1 && pf_seq(n as int).len() != 1)
            ==> (r matches Err(e) && e == QrError::NotPrimePower),
        (n >= 1 && pf_seq(n as int).len() == 1)
            ==> (r matches Ok(v)
                && v@ == odd_pp_seq(pf_seq(n as int)[0].0, pf_seq(n as int)[0].1)),
{
    let pf = prime_factorize(n)?;
    if pf.len() != 1 {
        return Err(QrError::NotPrimePower);
    }
    let prime = pf[0].0;
    let exp = pf[0].1;
    proof {
        lemma_single_factor(n as int);
    }
    let base = qr_p(prime)?;
    proof {
        lemma_qr_p_upto_shape(prime as int, prime as int);
        vstd::arithmetic::power::lemma_pow1(prime as int);
    }
    let ghost baseseq: Seq<u32> = base@;
    let mut dangerous: Vec<u32> = Vec::new();
    let mut d: usize = 0;
    proof {
        assert(base@.take(0) =~= Seq::<u32>::empty());
        assert(dangerous@ =~= nonsquares(base@.take(0)));
    }
    while d < base.len()
        invariant
            d <= base@.len(),
            dangerous@ == nonsquares(base@.take(d as int)),
        decreases base@.len() - d as int,
    {
        let v = base[d];
        if !is_square(v) {
            dangerous.push(v);
        }
        proof {
            let t = base@.take(d as int + 1);
            assert(t.drop_last() =~= base@.take(d as int));
            assert(t.last() == v);
            assert(dangerous@ =~= nonsquares(t));
        }
        d += 1;
    }
    proof {
        assert(base@.take(base@.len() as int) =~= base@);
    }
    let ghost dang: Seq<u32> = dangerous@;
    let mut cur: Vec<u32> = Vec::new();
    let mut res: Vec<u32> = Vec::new();
    let mut c: usize = 0;
    while c < base.len()
        invariant
            c <= base@.len(),
            cur@ == base@.take(c as int),
            res@ == base@.take(c as int),
        decreases base@.len() - c as int,
    {
        let v = base[c];
        cur.push(v);
        res.push(v);
        proof {
            assert(cur@ =~= base@.take(c as int + 1));
            assert(res@ =~= base@.take(c as int + 1));
        }
        c += 1;
    }
    proof {
        assert(base@.take(base@.len() as int) =~= base@);
        assert(cur@ == baseseq && res@ == baseseq);
        assert(odd_acc(baseseq, dang, prime, 0) == baseseq);
    }
    let mut e: u32 = 1;
    while e < exp
        invariant
            1 <= e <= exp <= 31,
            2 <= prime,
            pow(prime as int, exp as nat) == n as int,
            cur@ == odd_acc(baseseq, dang, prime, (e - 1) as nat),
            res@ == cur@,
            dang == dangerous@,
            forall|j: int| 0 <= j < cur@.len()
                ==> ((#[trigger] cur@[j]) as int) < pow(prime as int, e as nat),
        decreases exp as int - e as int,
    {
        proof {
            vstd::arithmetic::power::lemma_pow_strictly_increases(
                prime as nat, e as nat, exp as nat);
            vstd::arithmetic::power::lemma_pow_positive(prime as int, e as nat);
            if (e + 1) as nat <= exp as nat {
                vstd::arithmetic::power::lemma_pow_increases(
                    prime as nat, (e + 1) as nat, exp as nat);
            }
            assert(pow(prime as int, (e + 1) as nat)
                == (prime as int) * pow(prime as int, e as nat)) by {
                vstd::arithmetic::power::lemma_pow_adds(prime as int, 1, e as nat);
                vstd::arithmetic::power::lemma_pow1(prime as int);
            }
        }
        let pe = num_pow(prime, e);
        let ghost stepcur: Seq<u32> = cur@;
        proof {
            assert(odd_block(stepcur, dang, e as nat, pe, 1) == Seq::<u32>::empty());
            assert(res@ =~= cur@ + odd_block(stepcur, dang, e as nat, pe, 1));
            assert(pow(prime as int, e as nat) < pow(prime as int, (e + 1) as nat))
                by (nonlinear_arith)
                requires
                    pow(prime as int, (e + 1) as nat)
                        == (prime as int) * pow(prime as int, e as nat),
                    pow(prime as int, e as nat) >= 1,
                    prime >= 2,
            ;
        }
        let mut i: u32 = 1;
        while i < prime
            invariant
                1 <= i <= prime,
                2 <= prime,
                1 <= e <= 31,
                pe as int == pow(prime as int, e as nat),
                pow(prime as int, (e + 1) as nat) == (prime as int) * pow(prime as int, e as nat),
                pow(prime as int, (e + 1) as nat) <= n as int,
                n <= u32::MAX,
                dang == dangerous@,
                cur@ == stepcur,
                res@ == stepcur + odd_block(stepcur, dang, e as nat, pe, i as int),
                forall|j: int| 0 <= j < cur@.len()
                    ==> ((#[trigger] cur@[j]) as int) < pow(prime as int, e as nat),
                forall|j: int| 0 <= j < res@.len()
                    ==> ((#[trigger] res@[j]) as int) < pow(prime as int, (e + 1) as nat),
            decreases prime as int - i as int,
        {
            proof {
                vstd::arithmetic::power::lemma_pow_positive(prime as int, e as nat);
                assert((i as int) * (pe as int) < pow(prime as int, (e + 1) as nat))
                    by (nonlinear_arith)
                    requires
                        i < prime,
                        pe as int == pow(prime as int, e as nat),
                        pow(prime as int, (e + 1) as nat)
                            == (prime as int) * pow(prime as int, e as nat),
                        pe >= 1,
                ;
            }
            let ipe = i * pe;
            proof {
                assert((ipe as int) + pow(prime as int, e as nat)
                    <= pow(prime as int, (e + 1) as nat)) by (nonlinear_arith)
                    requires
                        ipe as int == (i as int) * (pe as int),
                        i < prime,
                        pe as int == pow(prime as int, e as nat),
                        pow(prime as int, (e + 1) as nat)
                            == (prime as int) * pow(prime as int, e as nat),
                        pe >= 1,
                ;
            }
            let ghost before_i: Seq<u32> = res@;
            if e % 2 == 0 {
                let sq = is_square(i);
                let hit = contains_u32(&dangerous, i);
                if sq || hit {
                    res.push(ipe);
                }
            }
            let ghost withbase: Seq<u32> = res@;
            proof {
                assert(withbase == before_i
                    + (if (e as nat) % 2 == 0
                        && (is_square_spec(i as int) || dang.contains(i))
                    {
                        seq![(((i as int) * (pe as int)) as u32)]
                    } else {
                        Seq::<u32>::empty()
                    })) by {
                    if (e as nat) % 2 == 0
                        && (is_square_spec(i as int) || dang.contains(i)) {
                        assert(withbase =~= before_i + seq![ipe]);
                    } else {
                        assert(withbase =~= before_i + Seq::<u32>::empty());
                    }
                }
                assert(cur@.take(0) =~= Seq::<u32>::empty());
                assert(res@ =~= withbase + lift_all(cur@.take(0), ipe));
            }
            let mut j: usize = 0;
            while j < cur.len()
                invariant
                    j <= cur@.len(),
                    res@ == withbase + lift_all(cur@.take(j as int), ipe),
                    ipe as int == (i as int) * (pe as int),
                    (ipe as int) + pow(prime as int, e as nat)
                        <= pow(prime as int, (e + 1) as nat),
                    pow(prime as int, (e + 1) as nat) <= n as int,
                    n <= u32::MAX,
                    forall|jj: int| 0 <= jj < cur@.len()
                        ==> ((#[trigger] cur@[jj]) as int) < pow(prime as int, e as nat),
                    forall|jj: int| 0 <= jj < res@.len()
                        ==> ((#[trigger] res@[jj]) as int) < pow(prime as int, (e + 1) as nat),
                decreases cur@.len() - j as int,
            {
                let v = cur[j];
                proof {
                    assert((v as int + ipe as int) < pow(prime as int, (e + 1) as nat));
                }
                res.push(v + ipe);
                proof {
                    let t = cur@.take(j as int + 1);
                    assert(t.drop_last() =~= cur@.take(j as int));
                    assert(t.last() == v);
                    assert(res@ =~= withbase + lift_all(t, ipe));
                }
                j += 1;
            }
            proof {
                assert(cur@.take(cur@.len() as int) =~= cur@);
                assert(res@ =~= stepcur + odd_block(stepcur, dang, e as nat, pe, i as int + 1));
            }
            i += 1;
        }
        proof {
            assert(res@ == stepcur + odd_block(stepcur, dang, e as nat, pe, prime as int));
            assert(pow(prime as int, e as nat) as u32 == pe);
            assert(res@ =~= odd_acc(baseseq, dang, prime, e as nat));
        }
        let mut newcur: Vec<u32> = Vec::new();
        let mut k: usize = 0;
        while k < res.len()
            invariant
                k <= res@.len(),
                newcur@ == res@.take(k as int),
            decreases res@.len() - k as int,
        {
            let w = res[k];
            newcur.push(w);
            proof {
                assert(newcur@ =~= res@.take(k as int + 1));
            }
            k += 1;
        }
        proof {
            assert(res@.take(res@.len() as int) =~= res@);
        }
        cur = newcur;
        e += 1;
    }
    Ok(res)
}

/// The quadratic residues modulo a prime power `n`: factors `n`, rejects
/// anything that is not a prime power, and routes powers of two to the
/// power-of-two builder and everything else to the odd builder.
pub fn qr_pp(n: u32) -> (r: Result<Vec<u32>, QrError>)
    ensures
        n == 0 ==> (r matches Err(e) && e == QrError::InvalidInput),
        (n >= 1 && pf_seq(n as int).len() != 1)
            ==> (r matches Err(e) && e == QrError::NotPrimePower),
        (n >= 1 && pf_seq(n as int).len() == 1 && pf_seq(n as int)[0].0 == 2)
            ==> (r matches Ok(v) && v@ == qr2_seq(pf_seq(n as int)[0].1 as nat)),
        (n >= 1 && pf_seq(n as int).len() == 1 && pf_seq(n as int)[0].0 != 2)
            ==> (r matches Ok(v)
                && v@ == odd_pp_seq(pf_seq(n as int)[0].0, pf_seq(n as int)[0].1)),
{
    let pf = prime_factorize(n)?;
    if pf.len() != 1 {
        return Err(QrError::NotPrimePower);
    }
    if pf[0].0 == 2 {
        return qr_2pow(n);
    }
    qr_odd_pp(n)
}

} // verus!
