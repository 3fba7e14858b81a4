//! Exploration of the ring of integers modulo a base: elements together with
//! their inverses and multiplicative orders, found by exhaustive search.

use vstd::prelude::*;

verus! {

use vstd::arithmetic::power::pow;
use vstd::math::abs;
use crate::integers::euclid_mod_i64;
use crate::integers::gcd_nat;
use crate::integers::gcd_u64;
use crate::integers::mul_mod_u64;
use crate::integers::pow_mod_u64;

/// What the inverse search returns: the least multiplier in `[1, base)`
/// taking `n` to one modulo `base`, or `None` when `n` is not invertible (or
/// the ring is trivial).
pub open spec fn inverse_post(n: int, base: int, r: Option<i64>) -> bool {
    match r {
        Some(e) => {
            &&& 1 <= e < base
            &&& (n * e) % base == 1int % base
            &&& forall|e2: int| 1 <= e2 < e ==> #[trigger] ((n * e2) % base) != 1int % base
        },
        None => gcd_nat(abs(n), base as nat) != 1 || base == 1,
    }
}

/// What the order search returns: the least exponent in `[1, base)` taking
/// `n` to one modulo `base`, or `None` when `n` is not invertible or no such
/// exponent was found below `base`.
pub open spec fn order_post(n: int, base: int, r: Option<i64>) -> bool {
    match r {
        Some(e) => {
            &&& 1 <= e < base
            &&& pow(n, e as nat) % base == 1int % base
            &&& forall|e2: int| 1 <= e2 < e ==> #[trigger] (pow(n, e2 as nat) % base) != 1int
                % base
        },
        None => gcd_nat(abs(n), base as nat) != 1 || (forall|e2: int|
            1 <= e2 < base ==> #[trigger] (pow(n, e2 as nat) % base) != 1int % base),
    }
}

/// Whether `n` is a unit modulo `base`.
pub fn invertible(n: i64, base: i64) -> (r: bool)
    requires
        n > i64::MIN,
        base >= 1,
    ensures
        r == (gcd_nat(abs(n as int), base as nat) == 1),
{
    let g = gcd_u64(crate::integers::abs_u64(n), base as u64);
    g == 1
}

/// The least multiplicative inverse of `n` modulo `base`, by linear search.
pub fn inverse(n: i64, base: i64) -> (r: Option<i64>)
    requires
        n > i64::MIN,
        base >= 1,
    ensures
        inverse_post(n as int, base as int, r),
{
    if !invertible(n, base) {
        return None;
    }
    let nm = euclid_mod_i64(n, base);
    let mut e: i64 = 1;
    while e < base
        invariant
            base >= 1,
            nm as int == n as int % (base as int),
            nm < base,
            1 <= e <= base,
            forall|e2: int| 1 <= e2 < e ==> #[trigger] ((n as int * e2) % (base as int)) != 1int
                % (base as int),
        decreases base - e,
    {
        let v = mul_mod_u64(nm, e as u64, base as u64);
        proof {
            vstd::arithmetic::div_mod::lemma_mul_mod_noop_left(n as int, e as int, base as int);
        }
        if v == 1 % (base as u64) {
            return Some(e);
        }
        e = e + 1;
    }
    proof {
        // a unit has an inverse below the base, so the search cannot run out
        if base >= 2 {
            crate::integers::lemma_gcd_bezout(abs(n as int), base as nat);
            let (x, y) = choose|x: int, y: int|
                #[trigger] crate::integers::lin_comb(abs(n as int) as int, base as int, x, y)
                    == gcd_nat(abs(n as int), base as nat);
            let sx = if n < 0 {
                -x
            } else {
                x
            };
            assert(n as int * sx == abs(n as int) * x) by (nonlinear_arith)
                requires
                    (n >= 0 && sx == x && abs(n as int) == n as int) || (n < 0 && sx == -x && abs(
                        n as int,
                    ) == -(n as int)),
            ;
            let e0 = sx % (base as int);
            vstd::arithmetic::div_mod::lemma_mod_bound(sx, base as int);
            vstd::arithmetic::div_mod::lemma_mul_mod_noop_right(n as int, sx, base as int);
            vstd::arithmetic::div_mod::lemma_mod_multiples_vanish(-y, 1int, base as int);
            assert(n as int * sx == base as int * (-y) + 1) by (nonlinear_arith)
                requires
                    abs(n as int) as int * x + base as int * y == 1,
                    n as int * sx == abs(n as int) * x,
            ;
            assert((n as int * e0) % (base as int) == 1int % (base as int));
            if e0 == 0 {
                assert(n as int * 0 == 0) by (nonlinear_arith);
                vstd::arithmetic::div_mod::lemma_small_mod(0nat, base as nat);
                vstd::arithmetic::div_mod::lemma_small_mod(1nat, base as nat);
                assert(false);
            }
            assert(false);
        }
    }
    None
}

/// The least multiplicative order of `n` modulo `base`, by linear search.
pub fn order(n: i64, base: i64) -> (r: Option<i64>)
    requires
        n > i64::MIN,
        base >= 1,
    ensures
        order_post(n as int, base as int, r),
{
    if !invertible(n, base) {
        return None;
    }
    let nm = euclid_mod_i64(n, base);
    let mut e: i64 = 1;
    while e < base
        invariant
            base >= 1,
            nm as int == n as int % (base as int),
            nm < base,
            1 <= e <= base,
            forall|e2: int| 1 <= e2 < e ==> #[trigger] (pow(n as int, e2 as nat) % (base as int))
                != 1int % (base as int),
        decreases base - e,
    {
        let v = pow_mod_u64(nm, e as u64, base as u64);
        proof {
            vstd::arithmetic::power::lemma_pow_mod_noop(n as int, e as nat, base as int);
        }
        if v == 1 % (base as u64) {
            return Some(e);
        }
        e = e + 1;
    }
    None
}

/// An element of the ring of integers modulo `base`, together with its
/// inverse and multiplicative order when they exist.
#[derive(Copy, Clone, Debug)]
pub struct RingElement {
    pub value: i64,
    pub base: i64,
    pub inverse: Option<i64>,
    pub order: Option<i64>,
}

impl RingElement {
    pub fn new(value: i64, base: i64) -> (r: Self)
        requires
            value > i64::MIN,
            base >= 1,
        ensures
            r.value == value,
            r.base == base,
            inverse_post(value as int, base as int, r.inverse),
            order_post(value as int, base as int, r.order),
    {
        let inverse = inverse(value, base);
        let order = order(value, base);
        RingElement { value, base, inverse, order }
    }

    pub fn invertible(&self) -> (r: bool)
        ensures
            r == (self.inverse is Some),
    {
        self.inverse.is_some()
    }

    pub fn inverse(&self) -> (r: &Option<i64>)
        ensures
            *r == self.inverse,
    {
        &self.inverse
    }

    pub fn order(&self) -> (r: &Option<i64>)
        ensures
            *r == self.order,
    {
        &self.order
    }
}

/// Whether every nonzero element listed is a unit.
#[derive(Copy, Clone, Debug)]
pub enum RingType {
    Group,
    Multiplicative,
}

impl RingType {
    /// `Multiplicative` when every element after the first is invertible,
    /// `Group` otherwise.
    pub fn from_elements(elements: &Vec<RingElement>) -> (r: Self)
        ensures
            (r is Multiplicative) == (forall|t: int|
                1 <= t < elements@.len() ==> (#[trigger] elements@[t]).inverse is Some),
    {
        let len = elements.len();
        let mut t: usize = 1;
        while t < len
            invariant
                len == elements@.len(),
                1 <= t,
                t <= len || (t == 1 && len == 0),
                forall|t2: int| 1 <= t2 < t ==> (#[trigger] elements@[t2]).inverse is Some,
            decreases len - t,
        {
            if !elements[t].inverse.is_some() {
                return RingType::Group;
            }
            t = t + 1;
        }
        RingType::Multiplicative
    }
}

/// The full ring of integers modulo `base`, with every element explored.
#[derive(Clone, Debug)]
pub struct Ring {
    base: i64,
    elements: Vec<RingElement>,
    ring_type: RingType,
}

impl Ring {
    pub closed spec fn base_spec(self) -> int {
        self.base as int
    }

    pub closed spec fn elements_spec(self) -> Seq<RingElement> {
        self.elements@
    }

    pub closed spec fn ring_type_spec(self) -> RingType {
        self.ring_type
    }

    /// Whether every element after the first was found invertible.
    pub fn ring_type(&self) -> (r: RingType)
        ensures
            r == self.ring_type_spec(),
    {
        self.ring_type
    }

    /// The ring of all residues modulo `base`.  Its kind records whether every
    /// nonzero residue is a unit, which holds exactly when the base is
    /// coprime with all of them (for a base above one: when it is prime).
    pub fn new(base: i64) -> (r: Self)
        requires
            1 <= base <= 0x10000,
        ensures
            r.base_spec() == base,
            r.elements_spec().len() == base,
            forall|v: int|
                0 <= v < base ==> {
                    let el = #[trigger] r.elements_spec()[v];
                    &&& el.value == v
                    &&& el.base == base
                    &&& inverse_post(v, base as int, el.inverse)
                    &&& order_post(v, base as int, el.order)
                },
            (r.ring_type_spec() is Multiplicative) == (forall|v: int|
                1 <= v < base ==> #[trigger] gcd_nat(v as nat, base as nat) == 1),
    {
        let mut elements: Vec<RingElement> = Vec::new();
        let mut v: i64 = 0;
        while v < base
            invariant
                1 <= base,
                0 <= v <= base,
                elements@.len() == v,
                forall|v2: int|
                    0 <= v2 < v ==> {
                        let el = #[trigger] elements@[v2];
                        &&& el.value == v2
                        &&& el.base == base
                        &&& inverse_post(v2, base as int, el.inverse)
                        &&& order_post(v2, base as int, el.order)
                    },
            decreases base - v,
        {
            elements.push(RingElement::new(v, base));
            v = v + 1;
        }
        let ring_type = RingType::from_elements(&elements);
        proof {
            // an element has an inverse exactly when its value is coprime
            // with the base
            assert forall|v2: int|
                1 <= v2 < base implies ((#[trigger] elements@[v2]).inverse is Some) == (gcd_nat(
                v2 as nat,
                base as nat,
            ) == 1) by {
                assert(inverse_post(v2, base as int, elements@[v2].inverse));
                assert(vstd::math::abs(v2) == v2 as nat);
                match elements@[v2].inverse {
                    Some(e) => {
                        if gcd_nat(v2 as nat, base as nat) != 1 {
                            crate::integers::lemma_no_inverse(v2, base as int, e as int);
                            assert(false);
                        }
                    },
                    None => {
                        assert(gcd_nat(v2 as nat, base as nat) != 1 || base == 1);
                    },
                }
            }
            // both directions of the kind characterization
            if forall|v2: int| 1 <= v2 < base ==> #[trigger] gcd_nat(v2 as nat, base as nat)
                == 1 {
                assert forall|t: int|
                    1 <= t < elements@.len() implies (#[trigger] elements@[t]).inverse
                    is Some by {
                    assert(gcd_nat(t as nat, base as nat) == 1);
                }
                assert(ring_type is Multiplicative);
            } else {
                let w = choose|v2: int|
                    1 <= v2 < base && #[trigger] gcd_nat(v2 as nat, base as nat) != 1;
                assert(!((elements@[w]).inverse is Some));
                assert(!(ring_type is Multiplicative));
            }
        }
        Ring { base, elements, ring_type }
    }

    /// The units modulo `base`: exactly the residues coprime with it, in
    /// increasing order.
    pub fn multiplicative_group(base: i64) -> (r: Self)
        requires
            1 <= base <= 0x10000,
        ensures
            r.base_spec() == base,
            r.ring_type_spec() is Multiplicative,
            forall|t: int|
                0 <= t < r.elements_spec().len() ==> {
                    let el = #[trigger] r.elements_spec()[t];
                    &&& 0 <= el.value < base
                    &&& el.base == base
                    &&& gcd_nat(el.value as nat, base as nat) == 1
                    &&& inverse_post(el.value as int, base as int, el.inverse)
                    &&& order_post(el.value as int, base as int, el.order)
                },
            forall|t1: int, t2: int|
                0 <= t1 < t2 < r.elements_spec().len() ==> r.elements_spec()[t1].value
                    < r.elements_spec()[t2].value,
            forall|v: int|
                0 <= v < base && #[trigger] gcd_nat(v as nat, base as nat) == 1 ==> exists|t: int|
                    0 <= t < r.elements_spec().len() && (#[trigger] r.elements_spec()[t]).value
                        == v,
    {
        let mut elements: Vec<RingElement> = Vec::new();
        let mut v: i64 = 0;
        while v < base
            invariant
                1 <= base,
                0 <= v <= base,
                forall|t: int|
                    0 <= t < elements@.len() ==> {
                        let el = #[trigger] elements@[t];
                        &&& 0 <= el.value < v
                        &&& el.base == base
                        &&& gcd_nat(el.value as nat, base as nat) == 1
                        &&& inverse_post(el.value as int, base as int, el.inverse)
                        &&& order_post(el.value as int, base as int, el.order)
                    },
                forall|t1: int, t2: int|
                    0 <= t1 < t2 < elements@.len() ==> elements@[t1].value < elements@[t2].value,
                forall|v2: int|
                    0 <= v2 < v && #[trigger] gcd_nat(v2 as nat, base as nat) == 1 ==> exists|
                        t: int,
                    |
                        0 <= t < elements@.len() && (#[trigger] elements@[t]).value == v2,
            decreases base - v,
        {
            let ghost old_e = elements@;
            if invertible(v, base) {
                elements.push(RingElement::new(v, base));
                proof {
                    assert(elements@[elements@.len() - 1].value == v);
                    assert forall|v2: int|
                        0 <= v2 < v + 1 && #[trigger] gcd_nat(v2 as nat, base as nat) == 1
                        implies exists|t: int|
                        0 <= t < elements@.len() && (#[trigger] elements@[t]).value == v2 by {
                        if v2 < v {
                            let t = choose|t: int| 0 <= t < old_e.len() && old_e[t].value == v2;
                            assert(elements@[t].value == v2);
                        } else {
                            assert(elements@[elements@.len() - 1].value == v2);
                        }
                    }
                }
            }
            v = v + 1;
        }
        Ring { base, elements, ring_type: RingType::Multiplicative }
    }

    /// Whether the element listing is as long as the base: on the listing of
    /// units this says every residue is a unit; the full-residue listing
    /// satisfies it trivially.
    pub fn is_multiplicative_group(&self) -> (r: bool)
        requires
            0 <= self.base_spec() <= 0x8000_0000,
        ensures
            r == (self.elements_spec().len() == self.base_spec()),
    {
        self.elements.len() == (self.base as usize)
    }

    /// The base, when the element listing is as long as the base.
    pub fn order(&self) -> (r: Option<usize>)
        requires
            0 <= self.base_spec() <= 0x8000_0000,
        ensures
            match r {
                Some(o) => o == self.base_spec() && self.elements_spec().len()
                    == self.base_spec(),
                None => self.elements_spec().len() != self.base_spec(),
            },
    {
        if self.is_multiplicative_group() {
            Some(self.base as usize)
        } else {
            None
        }
    }

    pub fn len(&self) -> (r: usize)
        ensures
            r == self.elements_spec().len(),
    {
        self.elements.len()
    }

    /// The explored elements, in residue order.
    pub fn iter(&self) -> (r: Vec<RingElement>)
        ensures
            r@ == self.elements_spec(),
    {
        let mut r: Vec<RingElement> = Vec::new();
        let len = self.elements.len();
        for t in 0..len
            invariant
                len == self.elements@.len(),
                r@.len() == t,
                forall|t2: int| 0 <= t2 < t ==> #[trigger] r@[t2] == self.elements@[t2],
        {
            let x = self.elements[t];
            r.push(x);
        }
        proof {
            assert(r@ =~= self.elements@);
        }
        r
    }
}

} // verus!
