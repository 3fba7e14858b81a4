//! Conjugation, trivial on real scalars and negating the imaginary part of a
//! complex number.

use vstd::prelude::*;

verus! {

pub trait Conjugate: Sized {
    type Output;

    /// Inputs on which conjugation is defined (machine limits only).
    spec fn conj_req(self) -> bool;

    /// What it means for `r` to be the conjugate of `self`.
    spec fn is_conj(self, r: Self::Output) -> bool;

    fn conj(&self) -> (r: Self::Output)
        requires
            self.conj_req(),
        ensures
            self.is_conj(r),
    ;
}

impl Conjugate for u32 {
    type Output = u32;

    open spec fn conj_req(self) -> bool {
        true
    }

    open spec fn is_conj(self, r: u32) -> bool {
        r == self
    }

    fn conj(&self) -> (r: u32) {
        *self
    }
}

impl Conjugate for crate::matrix::Matrix<i64> {
    type Output = crate::matrix::Matrix<i64>;

    open spec fn conj_req(self) -> bool {
        self.wf()
    }

    open spec fn is_conj(self, r: crate::matrix::Matrix<i64>) -> bool {
        &&& r.wf()
        &&& r.nrows_spec() == self.ncols_spec()
        &&& r.ncols_spec() == self@.len()
        &&& forall|i: int, j: int|
            0 <= i < self.ncols_spec() && 0 <= j < self@.len() ==> r@[i][j] == self@[j][i]
    }

    /// Conjugation of a real matrix is its transpose.
    fn conj(&self) -> (r: crate::matrix::Matrix<i64>) {
        self.transpose()
    }
}

impl Conjugate for crate::complex::Complex<i64> {
    type Output = crate::complex::Complex<i64>;

    open spec fn conj_req(self) -> bool {
        self.1 > i64::MIN
    }

    open spec fn is_conj(self, r: crate::complex::Complex<i64>) -> bool {
        r.0 == self.0 && r.1 == -self.1
    }

    fn conj(&self) -> (r: crate::complex::Complex<i64>) {
        crate::complex::Complex(self.0, -self.1)
    }
}

} // verus!
