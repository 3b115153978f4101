//! The public capability interfaces: number-theoretic primitives and
//! quadratic-residue operations, implemented for the fixed-width integer
//! type of the library.

use vstd::prelude::*;
use vstd::arithmetic::power::pow;
use crate::QrError;
use crate::nt::is_prime_spec;
use crate::nt::is_square_spec;
use crate::nt::pf_seq;
use crate::qr::qr_p_seq;
use crate::qr::qr2_seq;
use crate::qr::odd_pp_seq;
use crate::ord::fast_ord_value;

verus! {

/// The integer type the library computes over.
pub type Num = u32;

/// Number-theoretic primitives: primality, squares, integer square root,
/// factorization and modular exponentiation.  Each method's contract is
/// given by a spec function that the implementing type fixes.
pub trait Prime<T>: Sized {
    spec fn is_prime_ens(&self, r: bool) -> bool;

    spec fn is_square_ens(&self, r: bool) -> bool;

    spec fn floor_sqrt_ens(&self, r: Self) -> bool;

    spec fn prime_factorize_ens(&self, r: Result<Vec<(T, T)>, QrError>) -> bool;

    spec fn mod_pow_ens(&self, exp: Self, modulo: Self, r: Result<T, QrError>) -> bool;

    fn is_prime(&self) -> (r: bool)
        ensures
            self.is_prime_ens(r),
    ;

    fn is_square(&self) -> (r: bool)
        ensures
            self.is_square_ens(r),
    ;

    fn floor_sqrt(&self) -> (r: Self)
        ensures
            self.floor_sqrt_ens(r),
    ;

    fn prime_factorize(&self) -> (r: Result<Vec<(T, T)>, QrError>)
        ensures
            self.prime_factorize_ens(r),
    ;

    fn mod_pow(&self, exp: Self, modulo: Self) -> (r: Result<T, QrError>)
        ensures
            self.mod_pow_ens(exp, modulo, r),
    ;
}

/// Quadratic-residue operations: the residue-set builders and the two
/// closed-form order computations.
pub trait QR<T>: Sized {
    spec fn qr_p_ens(&self, r: Result<Vec<T>, QrError>) -> bool;

    spec fn qr_2pow_ens(&self, r: Result<Vec<T>, QrError>) -> bool;

    spec fn qr_odd_pp_ens(&self, r: Result<Vec<T>, QrError>) -> bool;

    spec fn qr_pp_ens(&self, r: Result<Vec<T>, QrError>) -> bool;

    spec fn fast_ord_qr_pp_ens(&self, r: Result<T, QrError>) -> bool;

    spec fn fast_ord_qr_pp_v2_ens(&self, r: Result<T, QrError>) -> bool;

    fn qr_p(&self) -> (r: Result<Vec<T>, QrError>)
        ensures
            self.qr_p_ens(r),
    ;

    fn qr_2pow(&self) -> (r: Result<Vec<T>, QrError>)
        ensures
            self.qr_2pow_ens(r),
    ;

    fn qr_odd_pp(&self) -> (r: Result<Vec<T>, QrError>)
        ensures
            self.qr_odd_pp_ens(r),
    ;

    fn qr_pp(&self) -> (r: Result<Vec<T>, QrError>)
        ensures
            self.qr_pp_ens(r),
    ;

    fn fast_ord_qr_pp(&self) -> (r: Result<T, QrError>)
        ensures
            self.fast_ord_qr_pp_ens(r),
    ;

    fn fast_ord_qr_pp_v2(&self) -> (r: Result<T, QrError>)
        ensures
            self.fast_ord_qr_pp_v2_ens(r),
    ;
}

impl Prime<Num> for Num {
    open spec fn is_prime_ens(&self, r: bool) -> bool {
        r == is_prime_spec(*self as int)
    }

    open spec fn is_square_ens(&self, r: bool) -> bool {
        r == is_square_spec(*self as int)
    }

    open spec fn floor_sqrt_ens(&self, r: Num) -> bool {
        r as int * r as int <= *self as int
            && (*self as int) < ((r as int + 1) * (r as int + 1))
    }

    open spec fn prime_factorize_ens(&self, r: Result<Vec<(Num, Num)>, QrError>) -> bool {
        &&& *self == 0 ==> (r matches Err(e) && e == QrError::InvalidInput)
        &&& *self >= 1 ==> (r matches Ok(v) && v@ == pf_seq(*self as int))
    }

    open spec fn mod_pow_ens(&self, exp: Num, modulo: Num, r: Result<Num, QrError>) -> bool {
        &&& modulo == 0 ==> (r matches Err(e) && e == QrError::InvalidModulus)
        &&& modulo >= 1 ==> (r matches Ok(v)
            && v as int == pow(*self as int, exp as nat) % (modulo as int))
    }

    fn is_prime(&self) -> (r: bool) {
        crate::nt::is_prime(*self)
    }

    fn is_square(&self) -> (r: bool) {
        crate::nt::is_square(*self)
    }

    fn floor_sqrt(&self) -> (r: Num) {
        crate::nt::floor_sqrt(*self)
    }

    fn prime_factorize(&self) -> (r: Result<Vec<(Num, Num)>, QrError>) {
        crate::nt::prime_factorize(*self)
    }

    fn mod_pow(&self, exp: Num, modulo: Num) -> (r: Result<Num, QrError>) {
        crate::nt::mod_pow(*self, exp, modulo)
    }
}

impl QR<Num> for Num {
    open spec fn qr_p_ens(&self, r: Result<Vec<Num>, QrError>) -> bool {
        &&& !is_prime_spec(*self as int) ==> (r matches Err(e) && e == QrError::NotPrime)
        &&& is_prime_spec(*self as int) ==> (r matches Ok(v) && v@ == qr_p_seq(*self as int))
    }

    open spec fn qr_2pow_ens(&self, r: Result<Vec<Num>, QrError>) -> bool {
        &&& *self == 0 ==> (r matches Err(e) && e == QrError::InvalidInput)
        &&& (*self >= 1 && pf_seq(*self as int).len() != 1)
            ==> (r matches Err(e) && e == QrError::NotPrimePower)
        &&& (*self >= 1 && pf_seq(*self as int).len() == 1 && pf_seq(*self as int)[0].0 != 2)
            ==> (r matches Err(e) && e == QrError::NotPowerOfTwo)
        &&& (*self >= 1 && pf_seq(*self as int).len() == 1 && pf_seq(*self as int)[0].0 == 2)
            ==> (r matches Ok(v) && v@ == qr2_seq(pf_seq(*self as int)[0].1 as nat))
    }

    open spec fn qr_odd_pp_ens(&self, r: Result<Vec<Num>, QrError>) -> bool {
        &&& *self == 0 ==> (r matches Err(e) && e == QrError::InvalidInput)
        &&& (*self >= 1 && pf_seq(*self as int).len() != 1)
            ==> (r matches Err(e) && e == QrError::NotPrimePower)
        &&& (*self >= 1 && pf_seq(*self as int).len() == 1)
            ==> (r matches Ok(v)
                && v@ == odd_pp_seq(pf_seq(*self as int)[0].0, pf_seq(*self as int)[0].1))
    }

    open spec fn qr_pp_ens(&self, r: Result<Vec<Num>, QrError>) -> bool {
        &&& *self == 0 ==> (r matches Err(e) && e == QrError::InvalidInput)
        &&& (*self >= 1 && pf_seq(*self as int).len() != 1)
            ==> (r matches Err(e) && e == QrError::NotPrimePower)
        &&& (*self >= 1 && pf_seq(*self as int).len() == 1 && pf_seq(*self as int)[0].0 == 2)
            ==> (r matches Ok(v) && v@ == qr2_seq(pf_seq(*self as int)[0].1 as nat))
        &&& (*self >= 1 && pf_seq(*self as int).len() == 1 && pf_seq(*self as int)[0].0 != 2)
            ==> (r matches Ok(v)
                && v@ == odd_pp_seq(pf_seq(*self as int)[0].0, pf_seq(*self as int)[0].1))
    }

    open spec fn fast_ord_qr_pp_ens(&self, r: Result<Num, QrError>) -> bool {
        &&& *self == 0 ==> (r matches Err(e) && e == QrError::InvalidInput)
        &&& (*self >= 1 && pf_seq(*self as int).len() != 1)
            ==> (r matches Err(e) && e == QrError::NotPrimePower)
        &&& (*self >= 1 && pf_seq(*self as int).len() == 1)
            ==> (r matches Ok(v) && v as int == fast_ord_value(
                pf_seq(*self as int)[0].0,
                pf_seq(*self as int)[0].1))
    }

    open spec fn fast_ord_qr_pp_v2_ens(&self, r: Result<Num, QrError>) -> bool {
        self.fast_ord_qr_pp_ens(r)
    }

    fn qr_p(&self) -> (r: Result<Vec<Num>, QrError>) {
        crate::qr::qr_p(*self)
    }

    fn qr_2pow(&self) -> (r: Result<Vec<Num>, QrError>) {
        crate::qr::qr_2pow(*self)
    }

    fn qr_odd_pp(&self) -> (r: Result<Vec<Num>, QrError>) {
        crate::qr::qr_odd_pp(*self)
    }

    fn qr_pp(&self) -> (r: Result<Vec<Num>, QrError>) {
        crate::qr::qr_pp(*self)
    }

    fn fast_ord_qr_pp(&self) -> (r: Result<Num, QrError>) {
        crate::ord::fast_ord_qr_pp(*self)
    }

    fn fast_ord_qr_pp_v2(&self) -> (r: Result<Num, QrError>) {
        crate::ord::fast_ord_qr_pp_v2(*self)
    }
}

} // verus!
