//! A complex number as a pair of real and imaginary parts.

use vstd::prelude::*;

verus! {

#[derive(Copy, Clone, Debug)]
pub struct Complex<T>(pub T, pub T);

impl<T> Complex<T> {
    pub fn new(r: T, i: T) -> (c: Self)
        ensures
            c.0 == r,
            c.1 == i,
    {
        Complex(r, i)
    }
}

} // verus!
