//! Additive and multiplicative identity elements.

use vstd::prelude::*;

verus! {

/// The additive identity of a carrier type.
pub trait Zero {
    type Element;

    spec fn zero_spec() -> Self::Element;

    fn zero() -> (r: Self::Element)
        ensures
            r == Self::zero_spec(),
    ;
}

/// The multiplicative identity of a carrier type.
pub trait One {
    type Element;

    spec fn one_spec() -> Self::Element;

    fn one() -> (r: Self::Element)
        ensures
            r == Self::one_spec(),
    ;
}

impl Zero for i64 {
    type Element = i64;

    open spec fn zero_spec() -> i64 {
        0
    }

    fn zero() -> (r: i64) {
        0
    }
}

impl One for i64 {
    type Element = i64;

    open spec fn one_spec() -> i64 {
        1
    }

    fn one() -> (r: i64) {
        1
    }
}

impl Zero for u32 {
    type Element = u32;

    open spec fn zero_spec() -> u32 {
        0
    }

    fn zero() -> (r: u32) {
        0
    }
}

impl One for u32 {
    type Element = u32;

    open spec fn one_spec() -> u32 {
        1
    }

    fn one() -> (r: u32) {
        1
    }
}

impl Zero for u64 {
    type Element = u64;

    open spec fn zero_spec() -> u64 {
        0
    }

    fn zero() -> (r: u64) {
        0
    }
}

impl One for u64 {
    type Element = u64;

    open spec fn one_spec() -> u64 {
        1
    }

    fn one() -> (r: u64) {
        1
    }
}

impl Zero for bool {
    type Element = bool;

    open spec fn zero_spec() -> bool {
        false
    }

    fn zero() -> (r: bool) {
        false
    }
}

impl One for bool {
    type Element = bool;

    open spec fn one_spec() -> bool {
        true
    }

    fn one() -> (r: bool) {
        true
    }
}

} // verus!
