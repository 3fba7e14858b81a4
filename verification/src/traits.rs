//! Small numeric traits: remainders, modular equivalence, and powers.

use vstd::prelude::*;

verus! {

use vstd::arithmetic::power::pow;
use vstd::math::abs;

/// Truncating remainder: magnitude of the Euclidean remainder, with the sign
/// of the dividend.
pub open spec fn rem_trunc(a: int, b: int) -> int {
    if a >= 0 {
        abs(a) as int % abs(b) as int
    } else {
        -(abs(a) as int % abs(b) as int)
    }
}

/// Division remainder operations.
pub trait Rem: Sized {
    spec fn rem_req(self, other: Self) -> bool;

    spec fn is_rem(self, other: Self, r: Self) -> bool;

    spec fn rem_euclid_req(self, other: Self) -> bool;

    spec fn is_rem_euclid(self, other: Self, r: Self) -> bool;

    fn rem(self, other: Self) -> (r: Self)
        requires
            self.rem_req(other),
        ensures
            self.is_rem(other, r),
    ;

    fn rem_euclid(self, other: Self) -> (r: Self)
        requires
            self.rem_euclid_req(other),
        ensures
            self.is_rem_euclid(other, r),
    ;
}

impl Rem for i64 {
    open spec fn rem_req(self, other: Self) -> bool {
        other != 0
    }

    open spec fn is_rem(self, other: Self, r: Self) -> bool {
        r as int == rem_trunc(self as int, other as int)
    }

    open spec fn rem_euclid_req(self, other: Self) -> bool {
        other >= 1
    }

    open spec fn is_rem_euclid(self, other: Self, r: Self) -> bool {
        r as int == self as int % other as int
    }

    fn rem(self, other: Self) -> (r: Self) {
        let am = crate::integers::abs_u64(self);
        let bm = crate::integers::abs_u64(other);
        let r0 = am % bm;
        if self >= 0 {
            r0 as i64
        } else {
            -(r0 as i64)
        }
    }

    fn rem_euclid(self, other: Self) -> (r: Self) {
        let r = crate::integers::euclid_mod_i64(self, other);
        r as i64
    }
}

/// Whether two values are equivalent modulo a base.
pub trait Equivalent: Sized {
    spec fn equivalent_req(self, other: Self, base: Self) -> bool;

    spec fn is_equivalent(self, other: Self, base: Self, r: bool) -> bool;

    fn equivalent(&self, other: Self, base: Self) -> (r: bool)
        requires
            self.equivalent_req(other, base),
        ensures
            self.is_equivalent(other, base, r),
    ;
}

impl Equivalent for i64 {
    open spec fn equivalent_req(self, other: Self, base: Self) -> bool {
        base >= 1 && self > i64::MIN
    }

    open spec fn is_equivalent(self, other: Self, base: Self, r: bool) -> bool {
        r == (self as int % base as int == other as int)
    }

    fn equivalent(&self, other: Self, base: Self) -> (r: bool) {
        Rem::rem_euclid(*self, base) == other
    }
}

/// Exponentiation with an exponent of the carrier type.
pub trait Pow: Sized {
    spec fn pow_n_req(self, n: Self) -> bool;

    spec fn is_pow_n(self, n: Self, r: Self) -> bool;

    spec fn squared_n_req(self) -> bool;

    spec fn is_squared_n(self, r: Self) -> bool;

    fn pow(&self, n: Self) -> (r: Self)
        requires
            self.pow_n_req(n),
        ensures
            self.is_pow_n(n, r),
    ;

    fn squared(&self) -> (r: Self)
        requires
            self.squared_n_req(),
        ensures
            self.is_squared_n(r),
    ;
}

impl Pow for i64 {
    open spec fn pow_n_req(self, n: Self) -> bool {
        &&& 0 <= n <= u32::MAX
        &&& self > i64::MIN
        &&& pow(abs(self as int) as int, n as nat) <= i64::MAX
    }

    open spec fn is_pow_n(self, n: Self, r: Self) -> bool {
        r as int == pow(self as int, n as nat)
    }

    open spec fn squared_n_req(self) -> bool {
        self as int * self as int <= i64::MAX
    }

    open spec fn is_squared_n(self, r: Self) -> bool {
        r as int == self as int * self as int
    }

    fn pow(&self, n: Self) -> (r: Self) {
        crate::integers::Integer::pow(self, n as u32)
    }

    fn squared(&self) -> (r: Self) {
        crate::integers::Integer::squared(self)
    }
}

} // verus!
