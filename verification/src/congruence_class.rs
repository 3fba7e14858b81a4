//! A congruence class: an integer value kept in the range `[0, M)`, tagged at
//! the type level with its modulus `M`.

use vstd::prelude::*;

verus! {

use vstd::arithmetic::div_mod::lemma_mod_multiples_vanish;
use vstd::arithmetic::div_mod::lemma_mul_mod_noop_left;
use vstd::arithmetic::div_mod::lemma_mul_mod_noop_right;
use vstd::arithmetic::div_mod::lemma_small_mod;
use crate::identity::One;
use crate::identity::Zero;
use crate::integers::gcd_nat;
use crate::integers::gcd_u64;
use crate::integers::Inverse;

/// An integer modulo `M`, stored as its canonical representative.
///
/// Two classes may be combined by an arithmetic operation only when they share
/// the modulus; here that is enforced at the type level.
#[derive(Copy, Clone, Debug)]
pub struct CongruenceClass<const M: u32>(pub u32);

impl<const M: u32> PartialEq for CongruenceClass<M> {
    fn eq(&self, other: &Self) -> (r: bool) {
        self.0 == other.0
    }
}

impl<const M: u32> Eq for CongruenceClass<M> {

}

impl<const M: u32> vstd::std_specs::cmp::PartialEqSpecImpl for CongruenceClass<M> {
    open spec fn obeys_eq_spec() -> bool {
        true
    }

    open spec fn eq_spec(&self, other: &Self) -> bool {
        self.0 == other.0
    }
}

impl<const M: u32> CongruenceClass<M> {
    /// The canonical representative of this class.
    pub open spec fn rep(self) -> int {
        self.0 as int
    }

    /// The representative is reduced.
    pub open spec fn reduced(self) -> bool {
        (self.0 as int) < (M as int)
    }

    pub fn new(value: u32) -> (r: Self)
        requires
            M >= 1,
        ensures
            r.rep() == value as int % M as int,
            r.reduced(),
    {
        CongruenceClass(value % M)
    }

    /// The `i`-th nonnegative member of the class of zero.
    pub fn ith(i: usize) -> (r: u32)
        requires
            i * M <= u32::MAX,
        ensures
            r == i * M,
    {
        let p = (i as u64) * (M as u64);
        p as u32
    }

    /// Sum of the two classes, reduced modulo `M`.
    pub fn add(self, rhs: Self) -> (r: Self)
        requires
            M >= 1,
            self.reduced(),
            rhs.reduced(),
        ensures
            r.rep() == (self.rep() + rhs.rep()) % (M as int),
            r.reduced(),
    {
        let s = (self.0 as u64 + rhs.0 as u64) % (M as u64);
        CongruenceClass(s as u32)
    }

    /// Difference of the two classes, reduced modulo `M`.
    pub fn sub(self, rhs: Self) -> (r: Self)
        requires
            M >= 1,
            self.reduced(),
            rhs.reduced(),
        ensures
            r.rep() == (self.rep() - rhs.rep()) % (M as int),
            r.reduced(),
    {
        let s = (self.0 as u64 + M as u64 - rhs.0 as u64) % (M as u64);
        proof {
            lemma_mod_multiples_vanish(1, self.rep() - rhs.rep(), M as int);
        }
        CongruenceClass(s as u32)
    }

    /// Product of the two classes, reduced modulo `M`.
    pub fn mul(self, rhs: Self) -> (r: Self)
        requires
            M >= 1,
            self.reduced(),
            rhs.reduced(),
        ensures
            r.rep() == (self.rep() * rhs.rep()) % (M as int),
            r.reduced(),
    {
        proof {
            vstd::arithmetic::mul::lemma_mul_upper_bound(
                self.0 as int,
                0xffff_ffffint,
                rhs.0 as int,
                0xffff_ffffint,
            );
        }
        let s = (self.0 as u64 * rhs.0 as u64) % (M as u64);
        CongruenceClass(s as u32)
    }

    /// Quotient in the modular ring: the class `r` with `r * rhs == self`,
    /// which exists and is unique when the representative of `rhs` is coprime
    /// with `M`.
    pub fn div(self, rhs: Self) -> (r: Self)
        requires
            M >= 1,
            self.reduced(),
            rhs.reduced(),
            gcd_nat(rhs.0 as nat, M as nat) == 1,
        ensures
            r.reduced(),
            (r.rep() * rhs.rep()) % (M as int) == self.rep() % (M as int),
    {
        let vo = Inverse::inv(rhs.0 as i64, M as i64);
        proof {
            assert(vstd::math::abs(rhs.0 as i64 as int) == rhs.0 as nat);
        }
        let v = vo.unwrap();
        proof {
            vstd::arithmetic::mul::lemma_mul_upper_bound(
                self.0 as int,
                0xffff_ffffint,
                v as int,
                0xffff_ffffint,
            );
        }
        let s = (self.0 as u64 * v as u64) % (M as u64);
        proof {
            let m = M as int;
            let a = self.rep();
            let b = rhs.rep();
            let vi = v as int;
            // (a * v % m) * b == a * (v * b) modulo m, and v * b == 1 modulo m
            lemma_mul_mod_noop_left(a * vi, b, m);
            assert((s as int * b) % m == (a * vi * b) % m);
            assert(a * vi * b == a * (b * vi)) by (nonlinear_arith);
            lemma_mul_mod_noop_right(a, b * vi, m);
            assert((a * (b * vi)) % m == (a * ((b * vi) % m)) % m);
            assert((b * vi) % m == 1int % m);
            lemma_mul_mod_noop_right(a, 1int, m);
            assert((a * (1int % m)) % m == (a * 1int) % m);
            lemma_small_mod(self.0 as nat, M as nat);
        }
        CongruenceClass(s as u32)
    }
}

impl<const M: u32> Zero for CongruenceClass<M> {
    type Element = CongruenceClass<M>;

    open spec fn zero_spec() -> CongruenceClass<M> {
        CongruenceClass(0)
    }

    fn zero() -> (r: CongruenceClass<M>) {
        CongruenceClass(0)
    }
}

impl<const M: u32> One for CongruenceClass<M> {
    type Element = CongruenceClass<M>;

    open spec fn one_spec() -> CongruenceClass<M> {
        if M == 0 {
            CongruenceClass(1)
        } else {
            CongruenceClass(1u32 % M)
        }
    }

    fn one() -> (r: CongruenceClass<M>) {
        if M == 0 {
            CongruenceClass(1)
        } else {
            CongruenceClass(1 % M)
        }
    }
}

impl<const M: u32> crate::integers::GCD for CongruenceClass<M> {
    open spec fn gcd_req(self, rhs: Self) -> bool {
        true
    }

    open spec fn is_gcd(self, rhs: Self, r: Self) -> bool {
        r.0 as nat == gcd_nat(self.0 as nat, rhs.0 as nat)
    }

    fn gcd(self, rhs: Self) -> (r: Self) {
        let g = gcd_u64(self.0 as u64, rhs.0 as u64);
        proof {
            crate::integers::lemma_gcd_bound(self.0 as nat, rhs.0 as nat);
            crate::integers::lemma_gcd_zero(0nat);
        }
        CongruenceClass(g as u32)
    }
}

} // verus!
