//! Laws that relate the library's functions to one another, stated over the
//! same spec functions that the functions' own contracts use.

use vstd::prelude::*;
use vstd::arithmetic::power::pow;
use crate::QrError;
use crate::nt::pf_seq;
use crate::qr::euler_qr;
use crate::qr::qr_p_seq;
use crate::qr::lemma_qr_p_upto_shape;
use crate::qr::lemma_qr_p_upto_membership;
use crate::nt::is_square_spec;
use crate::qr::lift_all;
use crate::qr::nonsquares;
use crate::qr::odd_block;
use crate::qr::odd_acc;
use crate::qr::odd_pp_seq;
use crate::qr::qr2_seq;
use crate::ord::ord_v1;
use crate::ord::ord_coef;
use crate::ord::fast_ord_value;
use crate::ord::isqrt;
use crate::ord::lemma_isqrt_bounds;
use crate::prime::Num;
use crate::prime::QR;

verus! {

/// The residue list modulo a prime is never empty, starts with 1, and is
/// strictly ascending; for the prime 2 it is exactly the list holding 1.
pub proof fn lemma_qr_p_shape(p: u32)
    ensures
        qr_p_seq(p as int).len() >= 1,
        qr_p_seq(p as int)[0] == 1,
        forall|j1: int, j2: int| 0 <= j1 < j2 < qr_p_seq(p as int).len()
            ==> #[trigger] qr_p_seq(p as int)[j1] < #[trigger] qr_p_seq(p as int)[j2],
        forall|j: int| 0 <= j < qr_p_seq(p as int).len()
            ==> 1 <= #[trigger] qr_p_seq(p as int)[j],
        p == 2 ==> qr_p_seq(p as int) == seq![1u32],
{
    lemma_qr_p_upto_shape(p as int, p as int);
}

/// The residue list modulo a prime holds exactly 1 and the candidates in
/// `[2, p)` that meet Euler's criterion: membership is decided by the
/// criterion alone.
pub proof fn lemma_qr_p_characterization(p: u32)
    requires
        2 <= p,
    ensures
        qr_p_seq(p as int).contains(1u32),
        forall|i: int| 2 <= i < p as int
            ==> (qr_p_seq(p as int).contains(i as u32) <==> euler_qr(p as int, i)),
{
    lemma_qr_p_upto_membership(p as int, p as int);
}

/// Edge laws of modular exponentiation, which pin the returned values of
/// `mod_pow` through its contract: an exponent of 0 gives 1 for every base
/// when the modulus exceeds 1, a base of 0 gives 0 for positive exponents,
/// and a modulus of 1 sends everything to 0.
pub proof fn lemma_mod_pow_edges(b: int, e: nat, m: int)
    requires
        m >= 1,
        b >= 0,
    ensures
        m > 1 ==> pow(b, 0) % m == 1,
        (m > 1 && e > 0 && b == 0) ==> pow(b, e) % m == 0,
        pow(b, e) % 1 == 0,
{
    reveal(pow);
    if m > 1 {
        vstd::arithmetic::div_mod::lemma_small_mod(1, m as nat);
        if e > 0 && b == 0 {
            vstd::arithmetic::power::lemma0_pow(e);
            vstd::arithmetic::div_mod::lemma_small_mod(0, m as nat);
        }
    }
    vstd::arithmetic::div_mod::lemma_mod_division_less_than_divisor(pow(b, e), 1);
}

/// The two order computations agree: any values meeting the contracts of
/// `fast_ord_qr_pp` and `fast_ord_qr_pp_v2` on the same prime power are
/// equal, since both contracts name the same order value.
pub proof fn lemma_fast_ord_agree(n: u32, a: u32, b: u32)
    requires
        1 <= n,
        pf_seq(n as int).len() == 1,
        a as int == fast_ord_value(pf_seq(n as int)[0].0, pf_seq(n as int)[0].1),
        b as int == fast_ord_value(pf_seq(n as int)[0].0, pf_seq(n as int)[0].1),
    ensures
        a == b,
{
}

/// The order cross-check on powers of two: the fast order of `2^exp` is by
/// definition the size of the enumerated power-of-two residue list, which
/// the length lemma ties to the seeded recurrence.
pub proof fn lemma_enumerated_order_two(exp: u32)
    ensures
        fast_ord_value(2, exp) == qr2_seq(exp as nat).len(),
{
}

/// Calling the residue builder twice with the same input yields identical
/// output: the contract fixes the result, success or failure, as a function
/// of the input alone, so there is no hidden state.  The same spec functions
/// pin `qr_p`, `qr_2pow` and `qr_odd_pp` in the same way.
pub proof fn lemma_qr_pp_deterministic(
    n: Num,
    r1: Result<Vec<Num>, QrError>,
    r2: Result<Vec<Num>, QrError>,
)
    requires
        n.qr_pp_ens(r1),
        n.qr_pp_ens(r2),
    ensures
        r1 matches Ok(v1) ==> (r2 matches Ok(v2) && v1@ == v2@),
        r1 matches Err(e1) ==> (r2 matches Err(e2) && e1 == e2),
{
}

/// Calling either order computation twice with the same input yields the
/// same outcome, for the same reason.
pub proof fn lemma_fast_ord_deterministic(
    n: Num,
    r1: Result<Num, QrError>,
    r2: Result<Num, QrError>,
)
    requires
        n.fast_ord_qr_pp_ens(r1),
        n.fast_ord_qr_pp_ens(r2),
    ensures
        r1 == r2,
{
}

/// How many integers in `[1, iend)` satisfy `f`.
pub open spec fn count_pred(f: spec_fn(int) -> bool, iend: int) -> int
    decreases iend,
{
    if iend <= 1 {
        0
    } else {
        count_pred(f, iend - 1) + (if f(iend - 1) { 1int } else { 0int })
    }
}

/// Counting respects pointwise equivalence on the range.
proof fn lemma_count_equiv(f: spec_fn(int) -> bool, g: spec_fn(int) -> bool, iend: int)
    requires
        forall|i: int| 1 <= i < iend ==> (#[trigger] f(i) == g(i)),
    ensures
        count_pred(f, iend) == count_pred(g, iend),
    decreases iend,
{
    if iend > 1 {
        lemma_count_equiv(f, g, iend - 1);
    }
}

/// Counting a disjunction of predicates that never hold together adds the
/// separate counts.
proof fn lemma_count_disjoint(f: spec_fn(int) -> bool, g: spec_fn(int) -> bool, h: spec_fn(int) -> bool, iend: int)
    requires
        forall|i: int| 1 <= i < iend ==> !(#[trigger] f(i) && g(i)),
        forall|i: int| 1 <= i < iend ==> (#[trigger] h(i) == (f(i) || g(i))),
    ensures
        count_pred(h, iend) == count_pred(f, iend) + count_pred(g, iend),
    decreases iend,
{
    if iend > 1 {
        lemma_count_disjoint(f, g, h, iend - 1);
    }
}

/// There are exactly `isqrt(iend - 1)` perfect squares in `[1, iend)`.
proof fn lemma_count_squares(iend: int)
    requires
        1 <= iend,
    ensures
        count_pred(|i: int| is_square_spec(i), iend) == isqrt(iend - 1),
    decreases iend,
{
    let f = |i: int| is_square_spec(i);
    if iend == 1 {
        assert(isqrt(0) == 0);
    } else {
        lemma_count_squares(iend - 1);
        lemma_isqrt_bounds(iend - 1);
        lemma_isqrt_bounds(iend - 2);
        let r = isqrt(iend - 2);
        assert(isqrt(iend - 1) == (if (r + 1) * (r + 1) <= iend - 1 { r + 1 } else { r }));
        if f(iend - 1) {
            let k = choose|k: int| 0 <= k && #[trigger] (k * k) == iend - 1;
            assert(k == r + 1) by (nonlinear_arith)
                requires
                    0 <= k,
                    k * k == iend - 1,
                    r * r <= iend - 2,
                    iend - 2 < ((r + 1) * (r + 1)),
                    r >= 0,
            ;
            assert((r + 1) * (r + 1) <= iend - 1);
            assert(isqrt(iend - 1) == r + 1);
        } else {
            if (r + 1) * (r + 1) <= iend - 1 {
                assert((r + 1) * (r + 1) > iend - 2);
                assert((r + 1) * (r + 1) == iend - 1);
                assert(is_square_spec(iend - 1));
            }
            assert(isqrt(iend - 1) == r);
        }
    }
}

/// A single value in `[1, iend)` is counted exactly once.
proof fn lemma_count_single(v: int, iend: int)
    requires
        1 <= v < iend,
    ensures
        count_pred(|i: int| i == v, iend) == 1,
    decreases iend,
{
    if iend - 1 > v {
        lemma_count_single(v, iend - 1);
    } else {
        let f = |i: int| i == v;
        assert(count_pred(f, v) == 0) by {
            lemma_count_zero_below(v);
        }
    }
}

/// Nothing below `v` equals `v`.
proof fn lemma_count_zero_below(v: int)
    ensures
        count_pred(|i: int| i == v, v) == 0,
    decreases v,
{
    if v > 1 {
        let f = |i: int| i == v;
        assert(count_pred(f, v) == count_pred(f, v - 1) + (if f(v - 1) { 1int } else { 0int }));
        lemma_count_partial_zero(v, v - 1);
    }
}

/// Nothing in `[1, m)` equals `v` when `m <= v`.
proof fn lemma_count_partial_zero(v: int, m: int)
    requires
        m <= v,
    ensures
        count_pred(|i: int| i == v, m) == 0,
    decreases m,
{
    if m > 1 {
        lemma_count_partial_zero(v, m - 1);
    }
}

/// A strictly ascending list with values in `[1, iend)` has as many members
/// counted over that range as it has entries.
proof fn lemma_count_members(d: Seq<u32>, iend: int)
    requires
        iend <= 0x1_0000_0000,
        forall|j: int| 0 <= j < d.len() ==> 1 <= (#[trigger] d[j]) as int && ((d[j]) as int) < iend,
        forall|j1: int, j2: int| 0 <= j1 < j2 < d.len()
            ==> #[trigger] d[j1] < #[trigger] d[j2],
    ensures
        count_pred(|i: int| d.contains(i as u32), iend) == d.len(),
    decreases d.len(),
{
    let f = |i: int| d.contains(i as u32);
    if d.len() == 0 {
        assert forall|i: int| 1 <= i < iend implies !(#[trigger] f(i)) by {
            if f(i) {
                let j = choose|j: int| 0 <= j < d.len() && d[j] == i as u32;
            }
        }
        lemma_count_none(f, iend);
    } else {
        let d1 = d.drop_last();
        let v = d.last();
        lemma_count_members(d1, iend);
        let g = |i: int| d1.contains(i as u32);
        let h = |i: int| i == v as int;
        assert forall|i: int| 1 <= i < iend implies !(#[trigger] g(i) && h(i)) by {
            if g(i) && h(i) {
                let j = choose|j: int| 0 <= j < d1.len() && d1[j] == i as u32;
                assert(d[j] == d1[j] && d[d.len() - 1] == v);
            }
        }
        assert forall|i: int| 1 <= i < iend implies (#[trigger] f(i) == (g(i) || h(i))) by {
            if f(i) {
                let j = choose|j: int| 0 <= j < d.len() && d[j] == i as u32;
                if j < d.len() - 1 {
                    assert(d1[j] == d[j]);
                    assert(g(i));
                } else {
                    assert(h(i));
                }
            }
            if g(i) {
                let j = choose|j: int| 0 <= j < d1.len() && d1[j] == i as u32;
                assert(d[j] == d1[j]);
                assert(f(i));
            }
            if h(i) {
                assert(d[d.len() - 1] == v);
                assert(f(i));
            }
        }
        lemma_count_disjoint(g, h, f, iend);
        lemma_count_single(v as int, iend);
    }
}

/// No member means a count of zero.
proof fn lemma_count_none(f: spec_fn(int) -> bool, iend: int)
    requires
        forall|i: int| 1 <= i < iend ==> !(#[trigger] f(i)),
    ensures
        count_pred(f, iend) == 0,
    decreases iend,
{
    if iend > 1 {
        lemma_count_none(f, iend - 1);
    }
}

/// Lifting keeps the length.
proof fn lemma_lift_all_len(s: Seq<u32>, add: u32)
    ensures
        lift_all(s, add).len() == s.len(),
    decreases s.len(),
{
    if s.len() > 0 {
        lemma_lift_all_len(s.drop_last(), add);
    }
}

/// Filtering to the non-squares keeps the ascending order, keeps every value
/// a member of the original list, and keeps only non-squares.
proof fn lemma_nonsquares_shape(s: Seq<u32>)
    requires
        forall|j1: int, j2: int| 0 <= j1 < j2 < s.len() ==> #[trigger] s[j1] < #[trigger] s[j2],
    ensures
        forall|j: int| 0 <= j < nonsquares(s).len()
            ==> s.contains(#[trigger] nonsquares(s)[j]),
        forall|j: int| 0 <= j < nonsquares(s).len()
            ==> !is_square_spec((#[trigger] nonsquares(s)[j]) as int),
        forall|j1: int, j2: int| 0 <= j1 < j2 < nonsquares(s).len()
            ==> #[trigger] nonsquares(s)[j1] < #[trigger] nonsquares(s)[j2],
    decreases s.len(),
{
    if s.len() > 0 {
        let d1 = s.drop_last();
        lemma_nonsquares_shape(d1);
        let ns = nonsquares(s);
        let ns1 = nonsquares(d1);
        assert forall|j: int| 0 <= j < ns.len() implies s.contains(#[trigger] ns[j]) by {
            if j < ns1.len() {
                assert(ns[j] == ns1[j]);
                assert(d1.contains(ns1[j]));
                let t = choose|t: int| 0 <= t < d1.len() && d1[t] == ns1[j];
                assert(s[t] == d1[t]);
            } else {
                assert(ns[j] == s.last());
                assert(s[s.len() - 1] == s.last());
            }
        }
        assert forall|j: int| 0 <= j < ns.len()
            implies !is_square_spec((#[trigger] ns[j]) as int) by {
            if j < ns1.len() {
                assert(ns[j] == ns1[j]);
            } else {
                assert(ns[j] == s.last());
            }
        }
        assert forall|j1: int, j2: int| 0 <= j1 < j2 < ns.len()
            implies #[trigger] ns[j1] < #[trigger] ns[j2] by {
            if j2 < ns1.len() {
                assert(ns[j1] == ns1[j1] && ns[j2] == ns1[j2]);
            } else {
                assert(ns[j2] == s.last());
                assert(ns[j1] == ns1[j1]);
                assert(d1.contains(ns1[j1]));
                let t = choose|t: int| 0 <= t < d1.len() && d1[t] == ns1[j1];
                assert(s[t] == d1[t]);
                assert(s[t] < s[s.len() - 1]);
            }
        }
    }
}

/// The length of one lifting step: each of the `iend - 1` multipliers lifts
/// the whole current list, and at even exponents additionally contributes
/// one base-level lift for each counted multiplier.
proof fn lemma_odd_block_len(cur: Seq<u32>, dang: Seq<u32>, e: nat, pe: u32, iend: int)
    requires
        iend >= 1,
    ensures
        odd_block(cur, dang, e, pe, iend).len()
            == (iend - 1) * cur.len() + (if e % 2 == 0 {
                count_pred(|i: int| is_square_spec(i) || dang.contains(i as u32), iend)
            } else {
                0int
            }),
    decreases iend,
{
    let f = |i: int| is_square_spec(i) || dang.contains(i as u32);
    if iend == 1 {
        assert(odd_block(cur, dang, e, pe, 1).len() == 0);
        assert((iend - 1) * cur.len() == 0) by (nonlinear_arith)
            requires
                iend == 1,
        ;
        assert(count_pred(f, 1) == 0);
    } else {
        lemma_odd_block_len(cur, dang, e, pe, iend - 1);
        lemma_lift_all_len(cur, (((iend - 1) * (pe as int)) as u32));
        assert((iend - 2) * cur.len() + cur.len() == (iend - 1) * cur.len())
            by (nonlinear_arith);
        assert(count_pred(f, iend)
            == count_pred(f, iend - 1) + (if f(iend - 1) { 1int } else { 0int }));
        let bp: int = (if e % 2 == 0 && (is_square_spec(iend - 1) || dang.contains((iend - 1) as u32)) { 1int } else { 0int });
        assert(odd_block(cur, dang, e, pe, iend).len()
            == odd_block(cur, dang, e, pe, iend - 1).len() + bp + cur.len());
    }
}

/// The length of the accumulated list follows the order recurrence, seeded
/// with the length of the prime-level list.
proof fn lemma_odd_acc_len(base: Seq<u32>, dang: Seq<u32>, p: u32, e: nat, coef: int)
    requires
        2 <= p,
        coef == count_pred(|i: int| is_square_spec(i) || dang.contains(i as u32), p as int),
        base.len() == (p as int - 1) / 2,
    ensures
        odd_acc(base, dang, p, e).len() == ord_v1(p as int, (e + 1) as nat, coef),
    decreases e,
{
    if e == 0 {
        assert(odd_acc(base, dang, p, 0) == base);
    } else {
        lemma_odd_acc_len(base, dang, p, (e - 1) as nat, coef);
        let prev = odd_acc(base, dang, p, (e - 1) as nat);
        let pe = vstd::arithmetic::power::pow(p as int, e) as u32;
        lemma_odd_block_len(prev, dang, e, pe, p as int);
        let ll = prev.len() as int;
        assert(odd_acc(base, dang, p, e).len()
            == ll + ((p as int - 1) * ll + (if e % 2 == 0 { coef } else { 0int })));
        assert(ll + (p as int - 1) * ll == (p as int) * ll) by (nonlinear_arith);
        assert(ord_v1(p as int, (e + 1) as nat, coef)
            == ord_v1(p as int, e, coef) * (p as int)
                + (if (e + 1) % 2 == 1 { coef } else { 0int }));
        assert(ll * (p as int) == (p as int) * ll) by (nonlinear_arith);
    }
}

/// The provable heart of the order cross-check for odd builders: whenever
/// the prime-level residue list has its Euler-predicted length `(p-1)/2`,
/// the enumerated residue list modulo `p^exp` has exactly the closed-form
/// order that both fast-order computations return.
pub proof fn lemma_enumerated_order(p: u32, exp: u32)
    requires
        2 <= p,
        1 <= exp,
    ensures
        qr_p_seq(p as int).len() == (p as int - 1) / 2
            ==> odd_pp_seq(p, exp).len() == fast_ord_value(p, exp),
{
    if qr_p_seq(p as int).len() == (p as int - 1) / 2 {
        lemma_qr_p_upto_shape(p as int, p as int);
        assert(p != 2) by {
            if p == 2 {
                assert(qr_p_seq(2) == seq![1u32]);
            }
        }
        let s = qr_p_seq(p as int);
        let dang = nonsquares(s);
        lemma_qr_p_upto_shape(p as int, p as int);
        lemma_nonsquares_shape(s);
        let fsq = |i: int| is_square_spec(i);
        let fmem = |i: int| dang.contains(i as u32);
        let fsd = |i: int| is_square_spec(i) || dang.contains(i as u32);
        assert forall|j: int| 0 <= j < dang.len()
            implies 1 <= (#[trigger] dang[j]) as int && ((dang[j]) as int) < p as int by {
            assert(s.contains(dang[j]));
            let t = choose|t: int| 0 <= t < s.len() && s[t] == dang[j];
        }
        lemma_count_members(dang, p as int);
        lemma_count_squares(p as int);
        assert forall|i: int| 1 <= i < p as int implies !(#[trigger] fsq(i) && fmem(i)) by {
            if fmem(i) {
                let j = choose|j: int| 0 <= j < dang.len() && dang[j] == i as u32;
                assert(!is_square_spec((dang[j]) as int));
            }
        }
        assert forall|i: int| 1 <= i < p as int
            implies (#[trigger] fsd(i) == (fsq(i) || fmem(i))) by {}
        lemma_count_disjoint(fsq, fmem, fsd, p as int);
        let coef = count_pred(fsd, p as int);
        lemma_isqrt_bounds(p as int - 1);
        assert(coef == dang.len() + isqrt(p as int - 1));
        assert(coef == ord_coef(p as int));
        lemma_odd_acc_len(s, dang, p, (exp - 1) as nat, coef);
        assert(odd_pp_seq(p, exp) == odd_acc(s, dang, p, (exp - 1) as nat));
    }
}

} // verus!
