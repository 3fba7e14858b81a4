//! Primality, a growable prime cache, and the facts about primes the sieve
//! rests on.

use vstd::prelude::*;

verus! {

use crate::integers::gcd_nat;
use crate::integers::lemma_gcd_bezout;
use crate::integers::lemma_gcd_bound;
use crate::integers::lemma_gcd_divides;
use crate::integers::lin_comb;

/// `n` is prime: at least two, with no divisor strictly between 1 and itself.
pub open spec fn is_prime_spec(n: int) -> bool {
    n >= 2 && forall|d: int| 2 <= d < n ==> #[trigger] (n % d) != 0
}

/// A prime is coprime with everything it does not divide.
pub proof fn lemma_prime_coprime(p: int, a: int)
    requires
        is_prime_spec(p),
        0 <= a,
        a % p != 0,
    ensures
        gcd_nat(a as nat, p as nat) == 1,
{
    let g = gcd_nat(a as nat, p as nat) as int;
    lemma_gcd_divides(a as nat, p as nat);
    lemma_gcd_bound(a as nat, p as nat);
    let kp = choose|k: int| p == #[trigger] (g * k);
    // g divides the prime p, so g is 1 or p; it is not p since p does not
    // divide a.
    if g != 1 {
        if g < p {
            assert(kp >= 2) by (nonlinear_arith)
                requires
                    p == g * kp,
                    2 <= g < p,
            ;
            assert(p % kp == 0) by {
                vstd::arithmetic::div_mod::lemma_mod_multiples_basic(g, kp);
                assert(kp * g == g * kp) by (nonlinear_arith);
            }
            assert(kp < p) by (nonlinear_arith)
                requires
                    p == g * kp,
                    g >= 2,
                    kp >= 2,
            ;
            assert(false);
        } else {
            assert(g == p);
            let ka = choose|k: int| a == #[trigger] (g * k);
            vstd::arithmetic::div_mod::lemma_mod_multiples_basic(ka, p);
            assert(p * ka == g * ka) by (nonlinear_arith)
                requires
                    g == p,
            ;
            assert(false);
        }
    }
}

/// Euclid's lemma: a prime dividing a product divides one of the factors.
pub proof fn lemma_prime_divides_product(p: int, a: int, b: int)
    requires
        is_prime_spec(p),
        0 <= a,
        (a * b) % p == 0,
    ensures
        a % p == 0 || b % p == 0,
{
    if a % p != 0 {
        lemma_prime_coprime(p, a);
        lemma_gcd_bezout(a as nat, p as nat);
        let (x, y) = choose|x: int, y: int| #[trigger] lin_comb(a, p, x, y) == gcd_nat(
            a as nat,
            p as nat,
        );
        assert(a * x + p * y == 1);
        // b == (a * b) * x + p * (b * y); p divides both addends
        vstd::arithmetic::div_mod::lemma_fundamental_div_mod(a * b, p);
        let q = (a * b) / p;
        assert(a * b == p * q);
        assert(b == (p * q) * x + p * (b * y)) by (nonlinear_arith)
            requires
                a * x + p * y == 1,
                a * b == p * q,
        ;
        assert(b == p * (q * x + b * y)) by (nonlinear_arith)
            requires
                b == (p * q) * x + p * (b * y),
        ;
        vstd::arithmetic::div_mod::lemma_mod_multiples_basic(q * x + b * y, p);
    }
}

/// Modulo an odd prime, the only square roots of one are one and minus one.
pub proof fn lemma_sqrt_of_one(p: int, x: int)
    requires
        is_prime_spec(p),
        0 <= x < p,
        (x * x) % p == 1int % p,
        p >= 3,
    ensures
        x == 1 || x == p - 1,
{
    // p divides x^2 - 1 == (x - 1) * (x + 1)
    vstd::arithmetic::div_mod::lemma_small_mod(1nat, p as nat);
    vstd::arithmetic::div_mod::lemma_fundamental_div_mod(x * x, p);
    let q = (x * x) / p;
    assert((x + 1) * (x - 1) == p * q) by (nonlinear_arith)
        requires
            x * x == p * q + 1,
    ;
    vstd::arithmetic::div_mod::lemma_mod_multiples_basic(q, p);
    assert(p * q == q * p) by (nonlinear_arith);
    assert(((x + 1) * (x - 1)) % p == 0);
    lemma_prime_divides_product(p, x + 1, x - 1);
    if (x + 1) % p == 0 {
        // x + 1 is a multiple of p in (0, p + 1), hence x + 1 == p
        vstd::arithmetic::div_mod::lemma_fundamental_div_mod(x + 1, p);
        let qq = (x + 1) / p;
        assert(x + 1 == p * qq);
        assert(qq == 1) by (nonlinear_arith)
            requires
                x + 1 == p * qq,
                0 < x + 1 <= p,
                p >= 3,
        ;
        assert(x == p - 1);
    } else {
        // x - 1 is a multiple of p in [-1, p - 1), hence x - 1 == 0
        assert((x - 1) % p == 0);
        vstd::arithmetic::div_mod::lemma_fundamental_div_mod(x - 1, p);
        let qq = (x - 1) / p;
        assert(x - 1 == p * qq);
        assert(qq == 0) by (nonlinear_arith)
            requires
                x - 1 == p * qq,
                -1 <= x - 1 < p,
                p >= 3,
        ;
        assert(p * 0 == 0) by (nonlinear_arith);
        assert(x == 1);
    }
}

/// The number of primes strictly below `x`.
pub open spec fn prime_count(x: int) -> nat
    decreases x,
{
    if x <= 2 {
        0
    } else {
        prime_count(x - 1) + (if is_prime_spec(x - 1) {
            1nat
        } else {
            0nat
        })
    }
}

/// A gap free of primes does not change the count.
proof fn lemma_prime_count_gap(a: int, b: int)
    requires
        2 <= a <= b,
        forall|q: int| a <= q < b ==> !is_prime_spec(q),
    ensures
        prime_count(b) == prime_count(a),
    decreases b - a,
{
    if a < b {
        lemma_prime_count_gap(a, b - 1);
    }
}

/// In a sorted, complete listing of the primes below some bound, the entry at
/// position `t` has exactly `t` primes below it.
proof fn lemma_list_index_count(primes: Seq<i64>, bound: int, t: int)
    requires
        forall|u: int|
            0 <= u < primes.len() ==> is_prime_spec(#[trigger] primes[u] as int) && 2 <= primes[u]
                && (primes[u] as int) < bound,
        forall|u1: int, u2: int| 0 <= u1 < u2 < primes.len() ==> primes[u1] < primes[u2],
        forall|q: int| 2 <= q < bound && is_prime_spec(q) ==> primes.contains(q as i64),
        0 <= t < primes.len(),
    ensures
        prime_count(primes[t] as int) == t,
    decreases t,
{
    if t == 0 {
        assert forall|q: int| 2 <= q < primes[0] implies !is_prime_spec(q) by {
            if is_prime_spec(q) {
                assert(primes.contains(q as i64));
                let u = choose|u: int| 0 <= u < primes.len() && primes[u] == q as i64;
                assert(u == 0 || primes[0] < primes[u]);
            }
        }
        lemma_prime_count_gap(2, primes[0] as int);
    } else {
        lemma_list_index_count(primes, bound, t - 1);
        let a = primes[t - 1] as int;
        let b = primes[t] as int;
        assert(a < b);
        assert forall|q: int| a + 1 <= q < b implies !is_prime_spec(q) by {
            if is_prime_spec(q) {
                assert(primes.contains(q as i64));
                let u = choose|u: int| 0 <= u < primes.len() && primes[u] == q as i64;
                if u <= t - 1 {
                    assert(u == t - 1 || primes[u] < primes[t - 1]);
                } else {
                    assert(u == t || primes[t] < primes[u]);
                }
            }
        }
        lemma_prime_count_gap(a + 1, b);
        assert(prime_count(a + 1) == prime_count(a) + 1);
    }
}

/// A growable prime cache: all primes below a moving bound, found by trial
/// division, extended on demand in steps of `grow_by` up to a fixed ceiling.
pub struct PrimeBank {
    grow_by: usize,
    limit: i64,
    marked: i64,
    primes: Vec<i64>,
}

impl PrimeBank {
    /// The bound below which every prime has been recorded.
    pub closed spec fn marked_below(self) -> int {
        self.marked as int
    }

    /// The bound the next `mark` will scan to.
    pub closed spec fn limit_spec(self) -> int {
        self.limit as int
    }

    pub closed spec fn grow_step(self) -> int {
        self.grow_by as int
    }

    /// The recorded primes, in increasing order.
    pub closed spec fn found(self) -> Seq<i64> {
        self.primes@
    }

    /// The cache is consistent: the list holds exactly the primes below the
    /// marked bound, in increasing order.
    pub closed spec fn wf(self) -> bool {
        &&& 2 <= self.marked <= self.limit
        &&& self.limit <= 0x8000_0000
        &&& 1 <= self.grow_by <= 0x8000_0000
        &&& forall|u: int|
            0 <= u < self.primes@.len() ==> is_prime_spec(#[trigger] self.primes@[u] as int) && 2
                <= self.primes@[u] && (self.primes@[u] as int) < self.marked as int
        &&& forall|u1: int, u2: int|
            0 <= u1 < u2 < self.primes@.len() ==> self.primes@[u1] < self.primes@[u2]
        &&& forall|q: int|
            2 <= q < self.marked as int && is_prime_spec(q) ==> self.primes@.contains(q as i64)
    }

    pub fn new(grow_by: usize) -> (r: Self)
        requires
            2 <= grow_by <= 0x8000_0000,
        ensures
            r.wf(),
            r.grow_step() == grow_by,
            r.marked_below() == grow_by,
    {
        let mut res = PrimeBank { grow_by, limit: grow_by as i64, marked: 2, primes: Vec::new() };
        res.mark();
        res
    }

    /// Record every prime in the not yet scanned range, up to the current
    /// limit.
    pub fn mark(&mut self)
        requires
            old(self).wf(),
        ensures
            final(self).wf(),
            final(self).marked_below() == old(self).limit_spec(),
            final(self).grow_step() == old(self).grow_step(),
            final(self).limit_spec() == old(self).limit_spec(),
    {
        while self.marked < self.limit
            invariant
                self.wf(),
                self.limit == old(self).limit,
                self.grow_by == old(self).grow_by,
            decreases self.limit - self.marked,
        {
            let c = self.marked;
            if crate::quadratic_sieve::is_prime(c) {
                let ghost old_p = self.primes@;
                self.primes.push(c);
                proof {
                    assert(self.primes@[self.primes@.len() - 1] == c);
                    assert forall|q: int|
                        2 <= q < c + 1 && is_prime_spec(q) implies self.primes@.contains(
                        q as i64,
                    ) by {
                        if q < c {
                            let u = choose|u: int| 0 <= u < old_p.len() && old_p[u] == q as i64;
                            assert(self.primes@[u] == q as i64);
                        }
                    }
                }
            }
            self.marked = c + 1;
        }
    }

    /// Grow the scanning bound by one step and record the new primes.
    pub fn extend(&mut self)
        requires
            old(self).wf(),
            old(self).limit_spec() + old(self).grow_step() <= 0x8000_0000,
        ensures
            final(self).wf(),
            final(self).marked_below() == old(self).limit_spec() + old(self).grow_step(),
            final(self).grow_step() == old(self).grow_step(),
            final(self).limit_spec() == old(self).limit_spec() + old(self).grow_step(),
    {
        self.limit = self.limit + (self.grow_by as i64);
        self.mark();
    }

    /// Extend until at least `i + 1` primes are recorded, or the ceiling on
    /// the scanning bound is reached.
    pub fn extend_until(&mut self, i: usize)
        requires
            old(self).wf(),
        ensures
            final(self).wf(),
            final(self).grow_step() == old(self).grow_step(),
            final(self).found().len() > i || final(self).limit_spec() + final(self).grow_step()
                > 0x8000_0000,
    {
        while self.primes.len() <= i && self.limit + (self.grow_by as i64) <= 0x8000_0000
            invariant
                self.wf(),
                self.grow_by == old(self).grow_by,
            decreases 0x8000_0000 - self.limit,
        {
            self.extend();
        }
    }

    /// The `i`-th prime (zero-based), or `None` when the scanning ceiling was
    /// reached first.
    pub fn ith_prime(&mut self, i: usize) -> (r: Option<i64>)
        requires
            old(self).wf(),
        ensures
            final(self).wf(),
            match r {
                Some(v) => is_prime_spec(v as int) && prime_count(v as int) == i,
                None => final(self).found().len() <= i && final(self).limit_spec()
                    + final(self).grow_step() > 0x8000_0000,
            },
    {
        self.extend_until(i);
        if i < self.primes.len() {
            let v = self.primes[i];
            proof {
                lemma_list_index_count(self.primes@, self.marked as int, i as int);
            }
            Some(v)
        } else {
            None
        }
    }

    /// The primes recorded so far: exactly the primes below the marked bound,
    /// in increasing order.
    pub fn iter(&self) -> (r: Vec<i64>)
        requires
            self.wf(),
        ensures
            r@ == self.found(),
            forall|u: int|
                0 <= u < r@.len() ==> is_prime_spec(#[trigger] r@[u] as int) && 2 <= r@[u] && (
                r@[u] as int) < self.marked_below(),
            forall|u1: int, u2: int| 0 <= u1 < u2 < r@.len() ==> r@[u1] < r@[u2],
            forall|q: int|
                2 <= q < self.marked_below() && is_prime_spec(q) ==> r@.contains(q as i64),
    {
        let mut r: Vec<i64> = Vec::new();
        let len = self.primes.len();
        for u in 0..len
            invariant
                len == self.primes@.len(),
                r@.len() == u,
                forall|u2: int| 0 <= u2 < u ==> #[trigger] r@[u2] == self.primes@[u2],
        {
            let x = self.primes[u];
            r.push(x);
        }
        proof {
            assert(r@ =~= self.primes@);
        }
        r
    }
}

} // verus!
