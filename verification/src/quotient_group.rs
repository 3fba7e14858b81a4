//! Quotient structures over the integers: both expose the congruence classes
//! modulo `M` as their elements.

use vstd::prelude::*;

verus! {

use crate::congruence_class::CongruenceClass;
use crate::identity::One;
use crate::identity::Zero;

/// The additive group of integers modulo `M`.
pub struct QuotientGroup<const M: u32>;

impl<const M: u32> Zero for QuotientGroup<M> {
    type Element = CongruenceClass<M>;

    open spec fn zero_spec() -> CongruenceClass<M> {
        CongruenceClass(0)
    }

    fn zero() -> (r: CongruenceClass<M>) {
        CongruenceClass(0)
    }
}

impl<const M: u32> One for QuotientGroup<M> {
    type Element = CongruenceClass<M>;

    open spec fn one_spec() -> CongruenceClass<M> {
        <CongruenceClass<M> as One>::one_spec()
    }

    fn one() -> (r: CongruenceClass<M>) {
        <CongruenceClass<M> as One>::one()
    }
}

/// The ring of integers modulo `M`.
pub struct QuotientRing<const M: u32>;

impl<const M: u32> Zero for QuotientRing<M> {
    type Element = CongruenceClass<M>;

    open spec fn zero_spec() -> CongruenceClass<M> {
        CongruenceClass(0)
    }

    fn zero() -> (r: CongruenceClass<M>) {
        CongruenceClass(0)
    }
}

impl<const M: u32> One for QuotientRing<M> {
    type Element = CongruenceClass<M>;

    open spec fn one_spec() -> CongruenceClass<M> {
        <CongruenceClass<M> as One>::one_spec()
    }

    fn one() -> (r: CongruenceClass<M>) {
        <CongruenceClass<M> as One>::one()
    }
}

} // verus!
